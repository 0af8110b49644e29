//! The checkpoint tracker: the identifier of the newest message seen on the
//! last successful run, persisted as decimal text at a single location.
//!
//! Reading the location is I/O and stays outside the library; what the text
//! means, when extraction may be skipped, and what value the next run must
//! store are decided here.

use vstd::prelude::*;

verus! {

/// A decimal digit.
pub open spec fn is_digit(b: u8) -> bool {
    0x30 <= b && b <= 0x39
}

/// Every byte of the text is a decimal digit.
pub open spec fn all_digits(s: Seq<u8>) -> bool {
    forall|i: int| 0 <= i < s.len() ==> is_digit(#[trigger] s[i])
}

/// The number a string of decimal digits stands for.
pub open spec fn digits_value(s: Seq<u8>) -> int
    recommends
        all_digits(s),
    decreases s.len(),
{
    if s.len() == 0 {
        0
    } else {
        digits_value(s.drop_last()) * 10 + (s.last() - 0x30)
    }
}

/// A text that holds a checkpoint: nonempty, decimal digits only, and a
/// value that fits the identifier type.
pub open spec fn valid_checkpoint_text(s: Seq<u8>) -> bool {
    &&& s.len() > 0
    &&& all_digits(s)
    &&& digits_value(s) <= i64::MAX as int
}

proof fn lemma_digits_value_nonneg(s: Seq<u8>)
    requires
        all_digits(s),
    ensures
        digits_value(s) >= 0,
    decreases s.len(),
{
    if s.len() > 0 {
        assert(all_digits(s.drop_last()));
        lemma_digits_value_nonneg(s.drop_last());
    }
}

/// A prefix of a digit string never stands for more than the whole string.
proof fn lemma_digits_prefix_le(s: Seq<u8>, j: int)
    requires
        all_digits(s),
        0 <= j <= s.len(),
    ensures
        digits_value(s.subrange(0, j)) <= digits_value(s),
    decreases s.len(),
{
    if j == s.len() {
        assert(s.subrange(0, j) =~= s);
    } else {
        let d = s.drop_last();
        assert(all_digits(d));
        assert(s.subrange(0, j) =~= d.subrange(0, j));
        lemma_digits_prefix_le(d, j);
        lemma_digits_value_nonneg(d);
    }
}

/// Reads a checkpoint from the text of the checkpoint location.  An absent
/// location, or one whose text holds no well-formed value, counts as "no
/// checkpoint", never as an error: the first run extracts everything.
pub fn parse_checkpoint(text: &Option<Vec<u8>>) -> (r: Option<i64>)
    ensures
        match r {
            Some(v) => {
                &&& text is Some
                &&& valid_checkpoint_text(text->0@)
                &&& v as int == digits_value(text->0@)
            },
            None => match text {
                Some(t) => !valid_checkpoint_text(t@),
                None => true,
            },
        },
{
    let t = match text {
        Some(t) => t,
        None => {
            return None;
        },
    };
    if t.len() == 0 {
        return None;
    }
    let mut acc: i64 = 0;
    let mut i: usize = 0;
    while i < t.len()
        invariant
            text is Some && t@ == text->0@,
            t@.len() > 0,
            i <= t@.len(),
            t@.len() <= usize::MAX,
            all_digits(t@.subrange(0, i as int)),
            0 <= acc,
            acc as int == digits_value(t@.subrange(0, i as int)),
        decreases t@.len() - i,
    {
        let b = t[i];
        if !(0x30 <= b && b <= 0x39) {
            proof {
                assert(!is_digit(t@[i as int]));
                assert(!all_digits(t@));
            }
            return None;
        }
        let d = b - 0x30;
        let ghost prefix = t@.subrange(0, i as int);
        let ghost extended = t@.subrange(0, i + 1);
        proof {
            assert(extended.drop_last() =~= prefix);
            assert(extended.last() == t@[i as int]);
            assert(digits_value(extended) == acc * 10 + d);
        }
        let wide: i128 = (acc as i128) * 10 + (d as i128);
        if wide > i64::MAX as i128 {
            proof {
                if all_digits(t@) {
                    lemma_digits_prefix_le(t@, i + 1);
                }
            }
            return None;
        }
        acc = wide as i64;
        i = i + 1;
    }
    proof {
        assert(t@.subrange(0, t@.len() as int) =~= t@);
    }
    Some(acc)
}

/// The decimal digits of a number, most significant first, without leading
/// zeroes (a lone zero for zero itself).
pub open spec fn decimal_digits(n: int) -> Seq<u8>
    recommends
        n >= 0,
    decreases n,
{
    if n < 10 {
        seq![(0x30 + n) as u8]
    } else {
        decimal_digits(n / 10).push((0x30 + n % 10) as u8)
    }
}

proof fn lemma_decimal_digits_value(n: int)
    requires
        n >= 0,
    ensures
        all_digits(decimal_digits(n)),
        decimal_digits(n).len() > 0,
        digits_value(decimal_digits(n)) == n,
    decreases n,
{
    assert(digits_value(Seq::<u8>::empty()) == 0);
    if n < 10 {
        let s = decimal_digits(n);
        assert(s.drop_last() =~= Seq::<u8>::empty());
        assert(digits_value(s) == n);
    } else {
        lemma_decimal_digits_value(n / 10);
        let s = decimal_digits(n);
        assert(s.drop_last() =~= decimal_digits(n / 10));
        assert(digits_value(s) == digits_value(decimal_digits(n / 10)) * 10 + n % 10);
        vstd::arithmetic::div_mod::lemma_fundamental_div_mod(n, 10);
    }
}

fn push_decimal_digits(n: i64, out: &mut Vec<u8>)
    requires
        n >= 0,
    ensures
        final(out)@ == old(out)@ + decimal_digits(n as int),
    decreases n,
{
    if n >= 10 {
        push_decimal_digits(n / 10, out);
    } else {
        proof {
            assert(decimal_digits(n as int) =~= seq![(0x30 + n) as u8]);
        }
    }
    out.push(0x30 + (n % 10) as u8);
    proof {
        if n >= 10 {
            assert(old(out)@ + decimal_digits((n / 10) as int) + seq![(0x30 + n % 10) as u8]
                =~= old(out)@ + decimal_digits(n as int));
        } else {
            assert(old(out)@ + seq![(0x30 + n) as u8] =~= old(out)@ + decimal_digits(n as int));
        }
    }
}

/// Renders a checkpoint as the decimal text the checkpoint location holds:
/// exactly the text that [`parse_checkpoint`] reads back as the same value.
pub fn format_checkpoint(id: i64) -> (r: Vec<u8>)
    requires
        id >= 0,
    ensures
        r@ == decimal_digits(id as int),
        valid_checkpoint_text(r@),
        digits_value(r@) == id as int,
{
    let mut out: Vec<u8> = Vec::new();
    push_decimal_digits(id, &mut out);
    proof {
        assert(out@ =~= decimal_digits(id as int));
        lemma_decimal_digits_value(id as int);
    }
    out
}

/// Whether extraction may be skipped outright: the newest message visible in
/// the window is exactly the one the checkpoint already records.
pub fn should_skip_extraction(newest_id: i64, checkpoint: Option<i64>) -> (r: bool)
    ensures
        r == (checkpoint == Some(newest_id)),
{
    match checkpoint {
        Some(c) => c == newest_id,
        None => false,
    }
}

/// The checkpoint to store at the end of a run: the newest identifier seen
/// in the window, or the old value unchanged when the window held nothing —
/// there is nothing newer to record.
pub fn next_checkpoint(checkpoint: Option<i64>, newest_id: Option<i64>) -> (r: Option<i64>)
    ensures
        r == (match newest_id {
            Some(n) => Some(n),
            None => checkpoint,
        }),
{
    match newest_id {
        Some(n) => Some(n),
        None => checkpoint,
    }
}

} // verus!
