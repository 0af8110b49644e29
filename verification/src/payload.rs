//! Payload decoding: a message body arrives as a hex-encoded byte string and
//! is turned back into raw bytes before track references are extracted.

use vstd::prelude::*;

verus! {

/// Why a single message payload could not be decoded.  A payload error is
/// per-message: the caller skips the message and goes on with the batch.
#[derive(Clone, Copy, PartialEq, Eq, Structural, Debug)]
pub enum PayloadError {
    /// The hex text has an odd number of digits.
    OddLength,
    /// A character of the hex text is not a hexadecimal digit.
    InvalidHexDigit,
}

/// A hexadecimal digit, either case.
pub open spec fn is_hex_digit(b: u8) -> bool {
    (0x30 <= b && b <= 0x39) || (0x61 <= b && b <= 0x66) || (0x41 <= b && b <= 0x46)
}

/// The value of one hexadecimal digit.
pub open spec fn hex_digit_value(b: u8) -> u8
    recommends
        is_hex_digit(b),
{
    if 0x30 <= b && b <= 0x39 {
        (b - 0x30) as u8
    } else if 0x61 <= b && b <= 0x66 {
        (b - 0x61 + 10) as u8
    } else {
        (b - 0x41 + 10) as u8
    }
}

/// The byte encoded by a pair of hexadecimal digits, high digit first.
pub open spec fn hex_pair_value(hi: u8, lo: u8) -> u8
    recommends
        is_hex_digit(hi),
        is_hex_digit(lo),
{
    (hex_digit_value(hi) * 16 + hex_digit_value(lo)) as u8
}

/// Every byte of the text is a hexadecimal digit.
pub open spec fn all_hex_digits(s: Seq<u8>) -> bool {
    forall|i: int| 0 <= i < s.len() ==> is_hex_digit(#[trigger] s[i])
}

/// The bytes encoded by a hex text of even length.
pub open spec fn hex_decoded(s: Seq<u8>) -> Seq<u8>
    recommends
        s.len() % 2 == 0,
        all_hex_digits(s),
{
    Seq::new(s.len() / 2, |i: int| hex_pair_value(s[2 * i], s[2 * i + 1]))
}

/// Decodes one hexadecimal digit, or reports that the byte is not one.
fn hex_digit(b: u8) -> (r: Option<u8>)
    ensures
        r is Some <==> is_hex_digit(b),
        r is Some ==> r->0 == hex_digit_value(b),
{
    if 0x30 <= b && b <= 0x39 {
        Some(b - 0x30)
    } else if 0x61 <= b && b <= 0x66 {
        Some(b - 0x61 + 10)
    } else if 0x41 <= b && b <= 0x46 {
        Some(b - 0x41 + 10)
    } else {
        None
    }
}

/// Decodes a hex text into the bytes it stands for.  The text must have even
/// length and consist of hexadecimal digits only; either fault is reported
/// exactly.
pub fn hex_to_bytes(hex: &[u8]) -> (r: Result<Vec<u8>, PayloadError>)
    ensures
        match r {
            Ok(bytes) => {
                &&& hex@.len() % 2 == 0
                &&& all_hex_digits(hex@)
                &&& bytes@ == hex_decoded(hex@)
            },
            Err(PayloadError::OddLength) => hex@.len() % 2 == 1,
            Err(PayloadError::InvalidHexDigit) => hex@.len() % 2 == 0 && !all_hex_digits(hex@),
        },
{
    if hex.len() % 2 != 0 {
        return Err(PayloadError::OddLength);
    }
    let mut bytes: Vec<u8> = Vec::new();
    let mut i: usize = 0;
    while i < hex.len()
        invariant
            i % 2 == 0,
            i <= hex@.len(),
            hex@.len() % 2 == 0,
            forall|k: int| 0 <= k < i ==> is_hex_digit(#[trigger] hex@[k]),
            bytes@ =~= hex_decoded(hex@.subrange(0, i as int)),
        decreases hex@.len() - i,
    {
        let hi = match hex_digit(hex[i]) {
            Some(v) => v,
            None => {
                return Err(PayloadError::InvalidHexDigit);
            },
        };
        let lo = match hex_digit(hex[i + 1]) {
            Some(v) => v,
            None => {
                return Err(PayloadError::InvalidHexDigit);
            },
        };
        bytes.push(hi * 16 + lo);
        i = i + 2;
        proof {
            assert(bytes@ =~= hex_decoded(hex@.subrange(0, i as int)));
        }
    }
    proof {
        assert(hex@.subrange(0, hex@.len() as int) =~= hex@);
    }
    Ok(bytes)
}

/// The URL prefix that announces a track reference: the ASCII bytes of
/// `https://open.spotify.com/track/`.
pub open spec fn track_url_prefix() -> Seq<u8> {
    seq![
        0x68u8, 0x74, 0x74, 0x70, 0x73, 0x3a, 0x2f, 0x2f,  // "https://"
        0x6f, 0x70, 0x65, 0x6e, 0x2e,                      // "open."
        0x73, 0x70, 0x6f, 0x74, 0x69, 0x66, 0x79, 0x2e,    // "spotify."
        0x63, 0x6f, 0x6d, 0x2f,                            // "com/"
        0x74, 0x72, 0x61, 0x63, 0x6b, 0x2f,                // "track/"
    ]
}

/// The number of characters of a well-formed track identifier.  Shorter or
/// longer runs after the URL prefix are noise and are discarded.
pub const TRACK_ID_LEN: usize = 22;

/// A byte that may be part of a track identifier: an ASCII letter or digit.
pub open spec fn is_id_byte(b: u8) -> bool {
    (0x30 <= b && b <= 0x39) || (0x41 <= b && b <= 0x5a) || (0x61 <= b && b <= 0x7a)
}

/// Where the run of identifier bytes that starts at `j` ends: the first
/// position at or after `j` holding no identifier byte.
pub open spec fn id_run_end(s: Seq<u8>, j: int) -> int
    recommends
        0 <= j <= s.len(),
    decreases s.len() - j,
{
    if j < s.len() && is_id_byte(s[j]) {
        id_run_end(s, j + 1)
    } else {
        j
    }
}

pub proof fn lemma_id_run_end(s: Seq<u8>, j: int)
    requires
        0 <= j <= s.len(),
    ensures
        j <= id_run_end(s, j) <= s.len(),
        forall|k: int| j <= k < id_run_end(s, j) ==> is_id_byte(#[trigger] s[k]),
        id_run_end(s, j) < s.len() ==> !is_id_byte(s[id_run_end(s, j)]),
    decreases s.len() - j,
{
    if j < s.len() && is_id_byte(s[j]) {
        lemma_id_run_end(s, j + 1);
    }
}

/// The URL prefix stands in `s` at position `i`.
pub open spec fn prefix_at(s: Seq<u8>, i: int) -> bool {
    &&& 0 <= i
    &&& i + track_url_prefix().len() <= s.len()
    &&& s.subrange(i, i + track_url_prefix().len() as int) == track_url_prefix()
}

/// The track identifiers found in `s` from position `i` on: at each
/// occurrence of the URL prefix, the longest following run of letters and
/// digits, kept when it has exactly [`TRACK_ID_LEN`] characters; the scan
/// resumes after the run, so matches do not overlap.
pub open spec fn track_ids_from(s: Seq<u8>, i: int) -> Seq<Seq<u8>>
    recommends
        0 <= i,
    decreases s.len() - i,
        via track_ids_from_decreases
{
    if i + 31 > s.len() {
        Seq::empty()
    } else if prefix_at(s, i) && i + 31 < s.len() && is_id_byte(s[i + 31]) {
        let j = id_run_end(s, i + 31);
        let id = s.subrange(i + 31, j);
        let rest = track_ids_from(s, j);
        if id.len() == TRACK_ID_LEN {
            seq![id] + rest
        } else {
            rest
        }
    } else {
        track_ids_from(s, i + 1)
    }
}

#[via_fn]
proof fn track_ids_from_decreases(s: Seq<u8>, i: int) {
    if i + 31 > s.len() {
    } else if prefix_at(s, i) && i + 31 < s.len() && is_id_byte(s[i + 31]) {
        lemma_id_run_end(s, i + 31);
        assert(id_run_end(s, i + 31) == id_run_end(s, i + 32));
        lemma_id_run_end(s, i + 32);
    }
}

/// All track identifiers of a decoded message text, in order of appearance.
pub open spec fn message_track_ids(text: Seq<u8>) -> Seq<Seq<u8>> {
    track_ids_from(text, 0)
}

fn id_byte(b: u8) -> (r: bool)
    ensures
        r == is_id_byte(b),
{
    (0x30 <= b && b <= 0x39) || (0x41 <= b && b <= 0x5a) || (0x61 <= b && b <= 0x7a)
}

/// The URL prefix as a vector of bytes.
pub(crate) fn track_url_prefix_bytes() -> (r: Vec<u8>)
    ensures
        r@ == track_url_prefix(),
        r@.len() == 31,
{
    let mut r: Vec<u8> = Vec::new();
    r.push(0x68);
    r.push(0x74);
    r.push(0x74);
    r.push(0x70);
    r.push(0x73);
    r.push(0x3a);
    r.push(0x2f);
    r.push(0x2f);
    r.push(0x6f);
    r.push(0x70);
    r.push(0x65);
    r.push(0x6e);
    r.push(0x2e);
    r.push(0x73);
    r.push(0x70);
    r.push(0x6f);
    r.push(0x74);
    r.push(0x69);
    r.push(0x66);
    r.push(0x79);
    r.push(0x2e);
    r.push(0x63);
    r.push(0x6f);
    r.push(0x6d);
    r.push(0x2f);
    r.push(0x74);
    r.push(0x72);
    r.push(0x61);
    r.push(0x63);
    r.push(0x6b);
    r.push(0x2f);
    proof {
        assert(r@ =~= track_url_prefix());
    }
    r
}

/// Whether `pat` stands in `s` at position `i`.
fn bytes_match_at(s: &[u8], i: usize, pat: &Vec<u8>) -> (r: bool)
    requires
        i + pat@.len() <= s@.len(),
    ensures
        r == (s@.subrange(i as int, i + pat@.len()) == pat@),
{
    let n = s.len();
    let mut k: usize = 0;
    while k < pat.len()
        invariant
            n == s@.len(),
            i + pat@.len() <= s@.len(),
            k <= pat@.len(),
            forall|m: int| 0 <= m < k ==> s@[i + m] == pat@[m],
        decreases pat@.len() - k,
    {
        if s[i + k] != pat[k] {
            proof {
                assert(s@.subrange(i as int, i + pat@.len())[k as int] != pat@[k as int]);
            }
            return false;
        }
        k = k + 1;
    }
    proof {
        assert(s@.subrange(i as int, i + pat@.len()) =~= pat@);
    }
    true
}

fn find_id_run_end(s: &[u8], start: usize) -> (j: usize)
    requires
        start <= s@.len(),
    ensures
        j as int == id_run_end(s@, start as int),
        start <= j <= s@.len(),
{
    let mut j: usize = start;
    while j < s.len() && id_byte(s[j])
        invariant
            start <= j <= s@.len(),
            id_run_end(s@, start as int) == id_run_end(s@, j as int),
        decreases s@.len() - j,
    {
        j = j + 1;
    }
    proof {
        lemma_id_run_end(s@, j as int);
    }
    j
}

fn copy_subrange(s: &[u8], a: usize, b: usize) -> (r: Vec<u8>)
    requires
        a <= b <= s@.len(),
    ensures
        r@ == s@.subrange(a as int, b as int),
{
    let mut r: Vec<u8> = Vec::new();
    let mut k: usize = a;
    while k < b
        invariant
            a <= k <= b <= s@.len(),
            r@ =~= s@.subrange(a as int, k as int),
        decreases b - k,
    {
        r.push(s[k]);
        k = k + 1;
        proof {
            assert(r@ =~= s@.subrange(a as int, k as int));
        }
    }
    proof {
        assert(r@ =~= s@.subrange(a as int, b as int));
    }
    r
}

/// Extracts the track identifiers of one decoded message text, in order of
/// appearance, duplicates kept: identifiers are runs of letters and digits
/// after the URL prefix, and only runs of exactly [`TRACK_ID_LEN`]
/// characters are accepted.
pub fn extract_track_ids_from_message(text: &[u8]) -> (ids: Vec<Vec<u8>>)
    ensures
        ids.deep_view() == message_track_ids(text@),
{
    let mut ids: Vec<Vec<u8>> = Vec::new();
    if text.len() < 31 {
        proof {
            assert(ids.deep_view() =~~= track_ids_from(text@, 0));
        }
        return ids;
    }
    let prefix = track_url_prefix_bytes();
    let last = text.len() - 31;
    let mut i: usize = 0;
    while i <= last
        invariant
            i <= text@.len(),
            text@.len() <= usize::MAX,
            last + 31 == text@.len(),
            prefix@ == track_url_prefix(),
            prefix@.len() == 31,
            track_ids_from(text@, 0) =~~= ids.deep_view() + track_ids_from(text@, i as int),
        decreases text@.len() - i,
    {
        let ghost old_ids = ids.deep_view();
        let ghost ii = i as int;
        if bytes_match_at(text, i, &prefix) && i + 31 < text.len() && id_byte(text[i + 31]) {
            proof {
                assert(prefix_at(text@, ii));
                lemma_id_run_end(text@, ii + 31);
            }
            let j = find_id_run_end(text, i + 31);
            if j - (i + 31) == TRACK_ID_LEN {
                let id = copy_subrange(text, i + 31, j);
                ids.push(id);
                proof {
                    assert(ids.deep_view() =~~= old_ids.push(id@));
                    assert(seq![id@] + track_ids_from(text@, j as int) =~= track_ids_from(
                        text@,
                        ii,
                    ));
                    assert(old_ids.push(id@) + track_ids_from(text@, j as int) =~= old_ids + (
                    seq![id@] + track_ids_from(text@, j as int)));
                }
            } else {
                proof {
                    assert(track_ids_from(text@, j as int) == track_ids_from(text@, ii));
                }
            }
            i = j;
        } else {
            proof {
                if ii + 31 < text@.len() && is_id_byte(text@[ii + 31]) {
                    assert(!prefix_at(text@, ii));
                }
                assert(track_ids_from(text@, ii + 1) == track_ids_from(text@, ii));
            }
            i = i + 1;
        }
        proof {
            assert(track_ids_from(text@, 0) =~~= ids.deep_view() + track_ids_from(
                text@,
                i as int,
            ));
        }
    }
    proof {
        assert(track_ids_from(text@, i as int) =~= Seq::<Seq<u8>>::empty());
        assert(ids.deep_view() =~~= track_ids_from(text@, 0));
    }
    ids
}

} // verus!
