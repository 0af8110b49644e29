//! The message store reader: resolving a conversation by display name and
//! selecting, in chronological order, the message records of a date window
//! whose payload announces a track link.
//!
//! Rows arrive from the store as plain records; everything the pipeline
//! relies on — the exact-match resolution, the window and signature filter,
//! the ordering by timestamp with the id as tiebreak — is established here.

use vstd::prelude::*;
use crate::payload::track_url_prefix;

verus! {

/// A chat row of the message store: an internal identifier and the
/// human-readable display name it was resolved from.
pub struct ChatRecord {
    pub id: i64,
    pub display_name: String,
}

/// The mathematical model of a chat row.
#[verifier::ext_equal]
pub ghost struct ChatModel {
    pub id: int,
    pub display_name: Seq<char>,
}

impl View for ChatRecord {
    type V = ChatModel;

    open spec fn view(&self) -> ChatModel {
        ChatModel { id: self.id as int, display_name: self.display_name@ }
    }
}

impl DeepView for ChatRecord {
    type V = ChatModel;

    open spec fn deep_view(&self) -> ChatModel {
        self.view()
    }
}

/// One message row: an ordered identifier, the chat it belongs to, its
/// timestamp, and the raw payload as the bytes of a hex text.
pub struct MessageRecord {
    pub id: i64,
    pub chat_id: i64,
    pub timestamp: i64,
    pub raw_payload: Vec<u8>,
}

/// The mathematical model of a message row.
#[verifier::ext_equal]
pub ghost struct MessageModel {
    pub id: int,
    pub chat_id: int,
    pub timestamp: int,
    pub raw_payload: Seq<u8>,
}

impl View for MessageRecord {
    type V = MessageModel;

    open spec fn view(&self) -> MessageModel {
        MessageModel {
            id: self.id as int,
            chat_id: self.chat_id as int,
            timestamp: self.timestamp as int,
            raw_payload: self.raw_payload@,
        }
    }
}

impl DeepView for MessageRecord {
    type V = MessageModel;

    open spec fn deep_view(&self) -> MessageModel {
        self.view()
    }
}

/// A structural fault of the message store that aborts the whole run.
#[derive(Clone, Copy, PartialEq, Eq, Structural, Debug)]
pub enum StoreError {
    /// No chat carries the requested display name.  Distinct from a chat
    /// that matches but holds no messages.
    ConversationNotFound,
}

// ---------------------------------------------------------------------------
// Conversation resolution
// ---------------------------------------------------------------------------

/// Some chat carries this display name.
pub open spec fn has_chat(chats: Seq<ChatModel>, name: Seq<char>) -> bool {
    exists|i: int| 0 <= i < chats.len() && #[trigger] chats[i].display_name == name
}

/// The identifier of the first chat carrying this display name.
pub open spec fn resolved_chat_id(chats: Seq<ChatModel>, name: Seq<char>) -> int
    recommends
        has_chat(chats, name),
    decreases chats.len(),
{
    if chats.len() == 0 {
        0
    } else if chats.first().display_name == name {
        chats.first().id
    } else {
        resolved_chat_id(chats.drop_first(), name)
    }
}

/// Resolves a conversation to the identifier of the first chat whose display
/// name matches exactly; a missing match is a fault of its own, not an empty
/// result.
pub fn get_chat_id(chats: &Vec<ChatRecord>, display_name: &String) -> (r: Result<
    i64,
    StoreError,
>)
    ensures
        match r {
            Ok(id) => has_chat(chats.deep_view(), display_name@) && id as int == resolved_chat_id(
                chats.deep_view(),
                display_name@,
            ),
            Err(StoreError::ConversationNotFound) => !has_chat(chats.deep_view(), display_name@),
        },
{
    let ghost cs = chats.deep_view();
    proof {
        assert(cs.subrange(0, cs.len() as int) =~= cs);
    }
    let mut i: usize = 0;
    while i < chats.len()
        invariant
            i <= cs.len(),
            cs.len() == chats.deep_view().len(),
            cs == chats.deep_view(),
            forall|k: int| 0 <= k < i ==> #[trigger] cs[k].display_name != display_name@,
            resolved_chat_id(cs, display_name@) == resolved_chat_id(
                cs.subrange(i as int, cs.len() as int),
                display_name@,
            ),
        decreases cs.len() - i,
    {
        let ghost suffix = cs.subrange(i as int, cs.len() as int);
        if chats[i].display_name == *display_name {
            proof {
                assert(suffix.first() == cs[i as int]);
                assert(resolved_chat_id(suffix, display_name@) == cs[i as int].id);
            }
            return Ok(chats[i].id);
        }
        proof {
            assert(suffix.first() == cs[i as int]);
            assert(suffix.drop_first() =~= cs.subrange(i + 1, cs.len() as int));
            assert(resolved_chat_id(suffix, display_name@) == resolved_chat_id(
                suffix.drop_first(),
                display_name@,
            ));
        }
        i = i + 1;
    }
    Err(StoreError::ConversationNotFound)
}

// ---------------------------------------------------------------------------
// The payload signature filter
// ---------------------------------------------------------------------------

/// The lowercase hexadecimal digit of a value below sixteen.
pub open spec fn lower_hex_digit(v: u8) -> u8
    recommends
        v < 16,
{
    if v < 10 {
        (0x30 + v) as u8
    } else {
        (0x61 + v - 10) as u8
    }
}

/// The lowercase hex text encoding a byte string, two digits per byte.
pub open spec fn hex_encoding(s: Seq<u8>) -> Seq<u8> {
    Seq::new(
        s.len() * 2,
        |i: int|
            if i % 2 == 0 {
                lower_hex_digit(s[i / 2] / 16)
            } else {
                lower_hex_digit(s[i / 2] % 16)
            },
    )
}

/// The hex text signature of a track link: the hex encoding of the URL
/// prefix without its final slash.  A raw payload is worth decoding only
/// when its hex text contains this signature.
pub open spec fn url_signature_hex() -> Seq<u8> {
    hex_encoding(track_url_prefix().drop_last())
}

/// ASCII letters folded to lower case; every other byte unchanged.
pub open spec fn ascii_lower(b: u8) -> u8 {
    if 0x41 <= b && b <= 0x5a {
        (b + 0x20) as u8
    } else {
        b
    }
}

/// `needle` stands in `hay` at position `i`, compared without regard to
/// ASCII letter case.
pub open spec fn matches_ci_at(hay: Seq<u8>, needle: Seq<u8>, i: int) -> bool {
    &&& 0 <= i
    &&& i + needle.len() <= hay.len()
    &&& forall|k: int| 0 <= k < needle.len() ==> ascii_lower(hay[i + k]) == ascii_lower(
        #[trigger] needle[k],
    )
}

/// `hay` contains `needle` somewhere, without regard to ASCII letter case.
pub open spec fn contains_ci(hay: Seq<u8>, needle: Seq<u8>) -> bool {
    exists|i: int| matches_ci_at(hay, needle, i)
}

/// The raw payload announces a track link.
pub open spec fn has_track_signature(payload: Seq<u8>) -> bool {
    contains_ci(payload, url_signature_hex())
}

fn lower_hex_digit_exec(v: u8) -> (r: u8)
    requires
        v < 16,
    ensures
        r == lower_hex_digit(v),
{
    if v < 10 {
        0x30 + v
    } else {
        0x61 + v - 10
    }
}

fn ascii_lower_exec(b: u8) -> (r: u8)
    ensures
        r == ascii_lower(b),
{
    if 0x41 <= b && b <= 0x5a {
        b + 0x20
    } else {
        b
    }
}

/// The track link signature as a vector of bytes.
fn url_signature_bytes() -> (r: Vec<u8>)
    ensures
        r@ == url_signature_hex(),
        r@.len() == 60,
{
    let prefix = crate::payload::track_url_prefix_bytes();
    let mut r: Vec<u8> = Vec::new();
    let mut i: usize = 0;
    while i < 30
        invariant
            i <= 30,
            prefix@ == track_url_prefix(),
            prefix@.len() == 31,
            r@ =~= hex_encoding(prefix@.subrange(0, i as int)),
        decreases 30 - i,
    {
        let b = prefix[i];
        r.push(lower_hex_digit_exec(b / 16));
        r.push(lower_hex_digit_exec(b % 16));
        i = i + 1;
        proof {
            assert(r@ =~= hex_encoding(prefix@.subrange(0, i as int)));
        }
    }
    proof {
        assert(prefix@.subrange(0, 30) =~= track_url_prefix().drop_last());
        assert(r@ =~= url_signature_hex());
    }
    r
}

/// Whether the raw payload contains the track link signature.
fn contains_signature(payload: &Vec<u8>) -> (r: bool)
    ensures
        r == has_track_signature(payload@),
{
    let needle = url_signature_bytes();
    let n = payload.len();
    if n < 60 {
        proof {
            assert forall|i: int| !matches_ci_at(payload@, needle@, i) by {}
        }
        return false;
    }
    let mut i: usize = 0;
    while i <= n - 60
        invariant
            needle@ == url_signature_hex(),
            needle@.len() == 60,
            60 <= n == payload@.len(),
            i <= n - 60 + 1,
            forall|m: int| 0 <= m < i ==> !matches_ci_at(payload@, needle@, m),
        decreases n - i,
    {
        let mut k: usize = 0;
        let mut hit = true;
        while k < 60
            invariant
                needle@.len() == 60,
                n == payload@.len(),
                i + 60 <= payload@.len(),
                k <= 60,
                hit ==> forall|m: int| 0 <= m < k ==> ascii_lower(payload@[i + m]) == ascii_lower(
                    #[trigger] needle@[m],
                ),
                !hit ==> !matches_ci_at(payload@, needle@, i as int),
            decreases 60 - k,
        {
            if ascii_lower_exec(payload[i + k]) != ascii_lower_exec(needle[k]) {
                hit = false;
                k = 60;
            } else {
                k = k + 1;
            }
        }
        if hit {
            proof {
                assert(matches_ci_at(payload@, needle@, i as int));
            }
            return true;
        }
        i = i + 1;
    }
    proof {
        assert forall|m: int| !matches_ci_at(payload@, needle@, m) by {
            if 0 <= m < i {
            }
        }
    }
    false
}

// ---------------------------------------------------------------------------
// Window filter and chronological order
// ---------------------------------------------------------------------------

/// A message belongs to the selection: it is part of the chat, its timestamp
/// lies in the window (`start` inclusive; `stop` inclusive, or unbounded when
/// absent), and its payload carries the track link signature.
pub open spec fn keep_message(m: MessageModel, chat_id: int, start: i64, stop: Option<i64>) -> bool {
    &&& m.chat_id == chat_id
    &&& start as int <= m.timestamp
    &&& match stop {
        Some(e) => m.timestamp <= e as int,
        None => true,
    }
    &&& has_track_signature(m.raw_payload)
}

/// Chronological order: by timestamp, with the id as tiebreak.
pub open spec fn time_le(a: MessageModel, b: MessageModel) -> bool {
    a.timestamp < b.timestamp || (a.timestamp == b.timestamp && a.id <= b.id)
}

/// The whole sequence stands in chronological order.
pub open spec fn sorted_chronologically(s: Seq<MessageModel>) -> bool {
    forall|i: int, j: int| 0 <= i < j < s.len() ==> #[trigger] time_le(s[i], s[j])
}

/// `m` placed at its chronological position in `s`: after every element
/// at or before it, before every strictly later one.
pub open spec fn insert_chronological(m: MessageModel, s: Seq<MessageModel>) -> Seq<MessageModel>
    decreases s.len(),
{
    if s.len() == 0 {
        seq![m]
    } else if time_le(s.last(), m) {
        s.push(m)
    } else {
        insert_chronological(m, s.drop_last()).push(s.last())
    }
}

/// The chronological ordering of a sequence, element by element.
pub open spec fn sort_chronological(s: Seq<MessageModel>) -> Seq<MessageModel>
    decreases s.len(),
{
    if s.len() == 0 {
        Seq::empty()
    } else {
        insert_chronological(s.last(), sort_chronological(s.drop_last()))
    }
}

/// Where an element lands: inserting `m` at a position `pos` that has every
/// later element strictly after `m`, and the one just before it (if any) at
/// or before `m`, is what [`insert_chronological`] does.
proof fn lemma_insert_chronological_at(m: MessageModel, s: Seq<MessageModel>, pos: int)
    requires
        0 <= pos <= s.len(),
        forall|k: int| pos <= k < s.len() ==> !time_le(#[trigger] s[k], m),
        pos > 0 ==> time_le(s[pos - 1], m),
    ensures
        insert_chronological(m, s) == s.subrange(0, pos) + seq![m] + s.subrange(
            pos,
            s.len() as int,
        ),
    decreases s.len(),
{
    if s.len() == 0 {
        assert(insert_chronological(m, s) =~= s.subrange(0, pos) + seq![m] + s.subrange(
            pos,
            s.len() as int,
        ));
    } else if time_le(s.last(), m) {
        assert(pos == s.len());
        assert(insert_chronological(m, s) =~= s.subrange(0, pos) + seq![m] + s.subrange(
            pos,
            s.len() as int,
        ));
    } else {
        lemma_insert_chronological_at(m, s.drop_last(), pos);
        assert(insert_chronological(m, s) =~= s.subrange(0, pos) + seq![m] + s.subrange(
            pos,
            s.len() as int,
        ));
    }
}

/// What inserting preserves: the multiset of elements grows by `m`, order is
/// kept, and every element of the result is `m` or came from `s`.
pub proof fn lemma_insert_chronological_ensures(m: MessageModel, s: Seq<MessageModel>)
    ensures
        insert_chronological(m, s).len() == s.len() + 1,
        insert_chronological(m, s).to_multiset() == s.to_multiset().insert(m),
        forall|i: int| 0 <= i < insert_chronological(m, s).len() ==> (#[trigger] insert_chronological(
            m,
            s,
        )[i] == m || s.contains(insert_chronological(m, s)[i])),
        sorted_chronologically(s) ==> sorted_chronologically(insert_chronological(m, s)),
    decreases s.len(),
{
    broadcast use vstd::seq_lib::group_to_multiset_ensures;

    let r = insert_chronological(m, s);
    if s.len() == 0 {
        assert(r =~= Seq::empty().push(m));
        assert(r.to_multiset() =~= s.to_multiset().insert(m));
    } else if time_le(s.last(), m) {
        assert(r == s.push(m));
        assert(r.to_multiset() =~= s.to_multiset().insert(m));
        assert forall|i: int| 0 <= i < r.len() implies (#[trigger] r[i] == m || s.contains(
            r[i],
        )) by {
            if i < s.len() {
                assert(r[i] == s[i]);
            }
        }
        if sorted_chronologically(s) {
            assert forall|i: int, j: int| 0 <= i < j < r.len() implies #[trigger] time_le(
                r[i],
                r[j],
            ) by {
                if j < s.len() {
                } else {
                    if i < s.len() - 1 {
                        assert(time_le(s[i], s[s.len() - 1]));
                    }
                }
            }
        }
    } else {
        let d = s.drop_last();
        let rec = insert_chronological(m, d);
        lemma_insert_chronological_ensures(m, d);
        assert(r == rec.push(s.last()));
        assert(s =~= d.push(s.last()));
        assert(s.to_multiset() =~= d.to_multiset().insert(s.last()));
        assert(r.to_multiset() =~= rec.to_multiset().insert(s.last()));
        assert(r.to_multiset() =~= s.to_multiset().insert(m));
        assert forall|i: int| 0 <= i < r.len() implies (#[trigger] r[i] == m || s.contains(
            r[i],
        )) by {
            if i < rec.len() {
                assert(rec[i] == m || d.contains(rec[i]));
                if d.contains(rec[i]) {
                    let w = choose|w: int| 0 <= w < d.len() && d[w] == rec[i];
                    assert(s[w] == rec[i]);
                }
            } else {
                assert(r[i] == s.last());
            }
        }
        if sorted_chronologically(s) {
            assert(sorted_chronologically(d));
            assert(sorted_chronologically(rec));
            assert forall|i: int, j: int| 0 <= i < j < r.len() implies #[trigger] time_le(
                r[i],
                r[j],
            ) by {
                if j < rec.len() {
                } else {
                    // j names the final element, the old last of `s`.
                    assert(r[j] == s.last());
                    assert(rec[i] == m || d.contains(rec[i]));
                    if rec[i] == m {
                        assert(!time_le(s.last(), m));
                        assert(time_le(m, s.last()));
                    } else {
                        let w = choose|w: int| 0 <= w < d.len() && d[w] == rec[i];
                        assert(time_le(s[w], s[s.len() - 1]));
                    }
                }
            }
        }
    }
}

/// What sorting preserves: the multiset of elements, and the result stands
/// in chronological order.
pub proof fn lemma_sort_chronological_ensures(s: Seq<MessageModel>)
    ensures
        sort_chronological(s).len() == s.len(),
        sort_chronological(s).to_multiset() == s.to_multiset(),
        sorted_chronologically(sort_chronological(s)),
    decreases s.len(),
{
    broadcast use vstd::seq_lib::group_to_multiset_ensures;

    if s.len() == 0 {
        assert(sort_chronological(s).to_multiset() =~= s.to_multiset());
    } else {
        let d = s.drop_last();
        lemma_sort_chronological_ensures(d);
        lemma_insert_chronological_ensures(s.last(), sort_chronological(d));
        assert(s =~= d.push(s.last()));
        assert(s.to_multiset() =~= d.to_multiset().insert(s.last()));
        assert(sort_chronological(s).to_multiset() =~= s.to_multiset());
    }
}

fn time_le_exec(a: &MessageRecord, b: &MessageRecord) -> (r: bool)
    ensures
        r == time_le(a.deep_view(), b.deep_view()),
{
    a.timestamp < b.timestamp || (a.timestamp == b.timestamp && a.id <= b.id)
}

/// Inserts one record at its chronological position.
fn sorted_insert(out: &mut Vec<MessageRecord>, m: MessageRecord)
    ensures
        final(out).deep_view() == insert_chronological(m.deep_view(), old(out).deep_view()),
{
    let ghost s = old(out).deep_view();
    let mut pos: usize = out.len();
    while pos > 0 && !time_le_exec(&out[pos - 1], &m)
        invariant
            pos <= s.len(),
            s == out.deep_view(),
            s.len() == out@.len(),
            forall|k: int| pos <= k < s.len() ==> !time_le(#[trigger] s[k], m.deep_view()),
        decreases pos,
    {
        pos = pos - 1;
    }
    proof {
        lemma_insert_chronological_at(m.deep_view(), s, pos as int);
    }
    out.insert(pos, m);
    proof {
        assert(out.deep_view() =~~= s.subrange(0, pos as int) + seq![m.deep_view()] + s.subrange(
            pos as int,
            s.len() as int,
        ));
    }
}

fn keep_message_exec(m: &MessageRecord, chat_id: i64, start: i64, stop: Option<i64>) -> (r: bool)
    ensures
        r == keep_message(m.deep_view(), chat_id as int, start, stop),
{
    m.chat_id == chat_id && m.timestamp >= start && (match stop {
        Some(e) => m.timestamp <= e,
        None => true,
    }) && contains_signature(&m.raw_payload)
}

/// The window and signature filter as a predicate on message models.
pub open spec fn keep_pred(chat_id: i64, start: i64, stop: Option<i64>) -> spec_fn(
    MessageModel,
) -> bool {
    |m: MessageModel| keep_message(m, chat_id as int, start, stop)
}

/// The selection a fetch returns: the records of the chat that lie in the
/// window and carry the track link signature, in chronological order.
pub open spec fn selected_messages(
    msgs: Seq<MessageModel>,
    chat_id: i64,
    start: i64,
    stop: Option<i64>,
) -> Seq<MessageModel> {
    sort_chronological(msgs.filter(keep_pred(chat_id, start, stop)))
}

/// Fetches the selection: keeps the records of the chat whose timestamp lies
/// in the window (`start` inclusive; `stop` inclusive, or unbounded when
/// absent) and whose payload carries the track link signature, ordered by
/// ascending timestamp with ascending id as tiebreak.
pub fn get_messages(
    messages: Vec<MessageRecord>,
    chat_id: i64,
    filter_start: i64,
    filter_stop: Option<i64>,
) -> (r: Vec<MessageRecord>)
    ensures
        r.deep_view() == selected_messages(
            messages.deep_view(),
            chat_id,
            filter_start,
            filter_stop,
        ),
{
    let ghost orig = messages.deep_view();
    let ghost pred = keep_pred(chat_id, filter_start, filter_stop);
    let mut rest = messages;
    let mut out: Vec<MessageRecord> = Vec::new();
    let ghost mut i: int = 0;
    proof {
        reveal(Seq::filter);
        assert(orig.subrange(0, 0).filter(pred) =~= Seq::<MessageModel>::empty());
    }
    while rest.len() > 0
        invariant
            0 <= i <= orig.len(),
            rest.deep_view() =~~= orig.subrange(i, orig.len() as int),
            out.deep_view() == sort_chronological(orig.subrange(0, i).filter(pred)),
            pred == keep_pred(chat_id, filter_start, filter_stop),
        decreases rest@.len(),
    {
        proof {
            assert(rest.deep_view().len() == rest@.len());
            assert(i < orig.len());
        }
        let ghost before = rest@;
        let ghost before_dv = rest.deep_view();
        let m = rest.remove(0);
        proof {
            assert(before_dv[0] == before[0].deep_view());
            assert(orig.subrange(i, orig.len() as int)[0] == orig[i]);
            assert(m.deep_view() == orig[i]);
            assert forall|k: int| 0 <= k < rest@.len() implies rest.deep_view()[k] == orig.subrange(
                i + 1,
                orig.len() as int,
            )[k] by {
                assert(rest@[k] == before[k + 1]);
                assert(rest.deep_view()[k] == rest@[k].deep_view());
                assert(before_dv[k + 1] == before[k + 1].deep_view());
                assert(before_dv[k + 1] == orig.subrange(i, orig.len() as int)[k + 1]);
            }
            assert(rest.deep_view() =~~= orig.subrange(i + 1, orig.len() as int));
        }
        let ghost prefix = orig.subrange(0, i);
        let ghost extended = orig.subrange(0, i + 1);
        proof {
            assert(extended.drop_last() =~= prefix);
            assert(extended.last() == orig[i]);
        }
        if keep_message_exec(&m, chat_id, filter_start, filter_stop) {
            proof {
                reveal(Seq::filter);
                assert(extended.filter(pred) == prefix.filter(pred).push(orig[i]));
            }
            sorted_insert(&mut out, m);
            proof {
                assert(sort_chronological(extended.filter(pred)) == insert_chronological(
                    orig[i],
                    sort_chronological(prefix.filter(pred)),
                )) by {
                    assert(extended.filter(pred).last() == orig[i]);
                    assert(extended.filter(pred).drop_last() =~= prefix.filter(pred));
                }
            }
        } else {
            proof {
                reveal(Seq::filter);
                assert(extended.filter(pred) == prefix.filter(pred));
            }
        }
        proof {
            i = i + 1;
        }
    }
    proof {
        assert(orig.subrange(0, i) =~= orig);
    }
    out
}

} // verus!
