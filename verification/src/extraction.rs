//! The extraction driver: decoding each selected message, collecting the
//! track references in message order, deduplicating them by first
//! occurrence, and deciding the checkpoint of the run.
//!
//! A malformed payload is a per-message fault: its message contributes
//! nothing and the batch goes on.  A conversation that cannot be resolved is
//! fatal for the run.

use vstd::prelude::*;
use crate::checkpoint::{next_checkpoint, should_skip_extraction};
use crate::messages::{
    ChatRecord, MessageModel, MessageRecord, StoreError, get_chat_id, get_messages, has_chat,
    resolved_chat_id, selected_messages,
};
use crate::payload::{
    all_hex_digits, extract_track_ids_from_message, hex_decoded, hex_to_bytes, message_track_ids,
};

verus! {

/// The identifiers one message contributes: those of its decoded text, or
/// none at all when the payload is malformed.
pub open spec fn decoded_track_ids(payload_hex: Seq<u8>) -> Seq<Seq<u8>> {
    if payload_hex.len() % 2 == 0 && all_hex_digits(payload_hex) {
        message_track_ids(hex_decoded(payload_hex))
    } else {
        Seq::empty()
    }
}

/// The identifiers of a whole batch, in message order, duplicates kept.
pub open spec fn all_track_ids(msgs: Seq<MessageModel>) -> Seq<Seq<u8>>
    decreases msgs.len(),
{
    if msgs.len() == 0 {
        Seq::empty()
    } else {
        all_track_ids(msgs.drop_last()) + decoded_track_ids(msgs.last().raw_payload)
    }
}

/// The first occurrence of each value, in order of first appearance.
pub open spec fn dedup_first(s: Seq<Seq<u8>>) -> Seq<Seq<u8>>
    decreases s.len(),
{
    if s.len() == 0 {
        Seq::empty()
    } else {
        let rest = dedup_first(s.drop_last());
        if rest.contains(s.last()) {
            rest
        } else {
            rest.push(s.last())
        }
    }
}

/// The references a batch of messages yields: every identifier of every
/// well-formed payload, deduplicated by first occurrence, in the order the
/// messages and their links appear.
pub open spec fn extracted_tracks(msgs: Seq<MessageModel>) -> Seq<Seq<u8>> {
    dedup_first(all_track_ids(msgs))
}

pub(crate) fn vec_u8_eq(a: &Vec<u8>, b: &Vec<u8>) -> (r: bool)
    ensures
        r == (a@ == b@),
{
    if a.len() != b.len() {
        return false;
    }
    let mut k: usize = 0;
    while k < a.len()
        invariant
            a@.len() == b@.len(),
            k <= a@.len(),
            forall|m: int| 0 <= m < k ==> a@[m] == b@[m],
        decreases a@.len() - k,
    {
        if a[k] != b[k] {
            return false;
        }
        k = k + 1;
    }
    proof {
        assert(a@ =~= b@);
    }
    true
}

pub(crate) fn contains_track(v: &Vec<Vec<u8>>, t: &Vec<u8>) -> (r: bool)
    ensures
        r == v.deep_view().contains(t@),
{
    let mut k: usize = 0;
    while k < v.len()
        invariant
            k <= v@.len(),
            forall|m: int| 0 <= m < k ==> v.deep_view()[m] != t@,
        decreases v@.len() - k,
    {
        if vec_u8_eq(&v[k], t) {
            proof {
                assert(v.deep_view()[k as int] == t@);
            }
            return true;
        }
        proof {
            assert(v.deep_view()[k as int] == v@[k as int]@);
        }
        k = k + 1;
    }
    false
}

/// Deduplicates a list of identifiers by first occurrence, keeping the order
/// in which values first appear.
fn dedup_tracks(ids: Vec<Vec<u8>>) -> (r: Vec<Vec<u8>>)
    ensures
        r.deep_view() == dedup_first(ids.deep_view()),
{
    let ghost orig = ids.deep_view();
    let mut rest = ids;
    let mut out: Vec<Vec<u8>> = Vec::new();
    let ghost mut i: int = 0;
    while rest.len() > 0
        invariant
            0 <= i <= orig.len(),
            rest.deep_view() =~~= orig.subrange(i, orig.len() as int),
            out.deep_view() == dedup_first(orig.subrange(0, i)),
        decreases rest@.len(),
    {
        proof {
            assert(rest.deep_view().len() == rest@.len());
            assert(i < orig.len());
        }
        let ghost before = rest@;
        let ghost before_dv = rest.deep_view();
        let t = rest.remove(0);
        proof {
            assert(before_dv[0] == before[0].deep_view());
            assert(orig.subrange(i, orig.len() as int)[0] == orig[i]);
            assert(t.deep_view() == orig[i]);
            assert forall|k: int| 0 <= k < rest@.len() implies rest.deep_view()[k] == orig.subrange(
                i + 1,
                orig.len() as int,
            )[k] by {
                assert(rest@[k] == before[k + 1]);
                assert(rest.deep_view()[k] == rest@[k].deep_view());
                assert(before_dv[k + 1] == before[k + 1].deep_view());
                assert(before_dv[k + 1] == orig.subrange(i, orig.len() as int)[k + 1]);
            }
            assert(rest.deep_view() =~~= orig.subrange(i + 1, orig.len() as int));
        }
        let ghost prefix = orig.subrange(0, i);
        let ghost extended = orig.subrange(0, i + 1);
        proof {
            assert(extended.drop_last() =~= prefix);
            assert(extended.last() == orig[i]);
            assert(t.deep_view() =~= t@);
            assert(t@ == orig[i]);
        }
        let seen = contains_track(&out, &t);
        if !seen {
            let ghost out_before = out.deep_view();
            out.push(t);
            proof {
                assert(out.deep_view() =~~= out_before.push(orig[i]));
            }
        }
        proof {
            i = i + 1;
            assert(out.deep_view() == dedup_first(orig.subrange(0, i)));
        }
    }
    proof {
        assert(orig.subrange(0, i) =~= orig);
    }
    out
}

/// Extracts the track references of a batch of messages: every identifier
/// of every message whose payload decodes, in message order, deduplicated by
/// first occurrence.  A message whose payload is malformed is skipped; it
/// never aborts the batch.
pub fn extract_track_ids(messages: &Vec<MessageRecord>) -> (r: Vec<Vec<u8>>)
    ensures
        r.deep_view() == extracted_tracks(messages.deep_view()),
{
    let ghost msgs = messages.deep_view();
    let mut all: Vec<Vec<u8>> = Vec::new();
    let mut i: usize = 0;
    while i < messages.len()
        invariant
            i <= msgs.len(),
            msgs == messages.deep_view(),
            msgs.len() == messages@.len(),
            all.deep_view() == all_track_ids(msgs.subrange(0, i as int)),
        decreases msgs.len() - i,
    {
        let ghost prefix = msgs.subrange(0, i as int);
        let ghost extended = msgs.subrange(0, i + 1);
        proof {
            assert(extended.drop_last() =~= prefix);
            assert(extended.last() == msgs[i as int]);
            assert(msgs[i as int].raw_payload == messages@[i as int].raw_payload@);
        }
        let ghost all_before = all.deep_view();
        match hex_to_bytes(messages[i].raw_payload.as_slice()) {
            Ok(bytes) => {
                let mut ids = extract_track_ids_from_message(bytes.as_slice());
                let ghost ids_dv = ids.deep_view();
                proof {
                    assert(ids_dv == decoded_track_ids(msgs[i as int].raw_payload));
                }
                all.append(&mut ids);
                proof {
                    assert forall|k: int| 0 <= k < all@.len() implies all.deep_view()[k] == (
                    all_before + ids_dv)[k] by {
                        assert(all.deep_view()[k] == all@[k].deep_view());
                    }
                    assert(all.deep_view() =~~= all_before + ids_dv);
                }
            },
            Err(_) => {
                proof {
                    assert(decoded_track_ids(msgs[i as int].raw_payload) =~= Seq::<
                        Seq<u8>,
                    >::empty());
                    assert(all.deep_view() =~~= all_before + decoded_track_ids(
                        msgs[i as int].raw_payload,
                    ));
                }
            },
        }
        i = i + 1;
        proof {
            assert(all.deep_view() == all_track_ids(msgs.subrange(0, i as int)));
        }
    }
    proof {
        assert(msgs.subrange(0, msgs.len() as int) =~= msgs);
    }
    dedup_tracks(all)
}

// ---------------------------------------------------------------------------
// The run driver
// ---------------------------------------------------------------------------

/// What one extraction run yields: the new track references, and the
/// checkpoint value the run leaves behind.
#[derive(Debug)]
pub struct ExtractionOutcome {
    pub track_ids: Vec<Vec<u8>>,
    pub checkpoint: Option<i64>,
}

/// The identifier of the newest message of the selection, when there is one.
pub open spec fn newest_id(sel: Seq<MessageModel>) -> Option<i64> {
    if sel.len() > 0 {
        Some(sel.last().id as i64)
    } else {
        None
    }
}

/// A run short-circuits when the newest visible message is exactly the
/// checkpointed one: nothing new has appeared since the last run.
pub open spec fn run_skips(sel: Seq<MessageModel>, checkpoint: Option<i64>) -> bool {
    sel.len() > 0 && checkpoint == Some(sel.last().id as i64)
}

/// The references a run returns: none when it short-circuits, otherwise the
/// extraction of the whole selection.
pub open spec fn run_track_ids(sel: Seq<MessageModel>, checkpoint: Option<i64>) -> Seq<Seq<u8>> {
    if run_skips(sel, checkpoint) {
        Seq::empty()
    } else {
        extracted_tracks(sel)
    }
}

/// The checkpoint a run leaves behind: the newest identifier of the
/// selection, or the old value when the selection was empty.
pub open spec fn run_checkpoint(sel: Seq<MessageModel>, checkpoint: Option<i64>) -> Option<i64> {
    if sel.len() > 0 {
        Some(sel.last().id as i64)
    } else {
        checkpoint
    }
}

/// One extraction run: resolves the conversation, selects the messages of
/// the window in chronological order, short-circuits when the newest message
/// is already checkpointed, otherwise decodes and extracts the new track
/// references in order of first appearance; and reports the checkpoint to
/// store.  Only a conversation that resolves to no chat aborts the run.
pub fn get_tracks_from_messages(
    chats: &Vec<ChatRecord>,
    messages: Vec<MessageRecord>,
    chat_display_name: &String,
    filter_start: i64,
    filter_stop: Option<i64>,
    checkpoint: Option<i64>,
) -> (r: Result<ExtractionOutcome, StoreError>)
    ensures
        match r {
            Ok(out) => {
                let cs = chats.deep_view();
                let sel = selected_messages(
                    messages.deep_view(),
                    resolved_chat_id(cs, chat_display_name@) as i64,
                    filter_start,
                    filter_stop,
                );
                &&& has_chat(cs, chat_display_name@)
                &&& out.track_ids.deep_view() == run_track_ids(sel, checkpoint)
                &&& out.checkpoint == run_checkpoint(sel, checkpoint)
            },
            Err(e) => e == StoreError::ConversationNotFound && !has_chat(
                chats.deep_view(),
                chat_display_name@,
            ),
        },
{
    let chat_id = match get_chat_id(chats, chat_display_name) {
        Ok(id) => id,
        Err(e) => {
            return Err(e);
        },
    };
    let sel = get_messages(messages, chat_id, filter_start, filter_stop);
    let ghost sel_dv = sel.deep_view();
    let newest: Option<i64> = if sel.len() > 0 {
        proof {
            assert(sel.deep_view()[sel@.len() - 1] == sel@[sel@.len() - 1].deep_view());
        }
        Some(sel[sel.len() - 1].id)
    } else {
        None
    };
    proof {
        assert(newest == newest_id(sel_dv));
    }
    let skip = match newest {
        Some(n) => should_skip_extraction(n, checkpoint),
        None => false,
    };
    proof {
        assert(skip == run_skips(sel_dv, checkpoint));
    }
    let track_ids = if skip {
        Vec::new()
    } else {
        extract_track_ids(&sel)
    };
    proof {
        if skip {
            assert(track_ids.deep_view() =~~= run_track_ids(sel_dv, checkpoint));
        }
    }
    let new_checkpoint = next_checkpoint(checkpoint, newest);
    Ok(ExtractionOutcome { track_ids, checkpoint: new_checkpoint })
}

// ---------------------------------------------------------------------------
// Laws of extraction
// ---------------------------------------------------------------------------

/// Deduplication keeps exactly the values of the batch, each once.
pub proof fn lemma_dedup_first_ensures(s: Seq<Seq<u8>>)
    ensures
        forall|i: int, j: int|
            0 <= i < j < dedup_first(s).len() ==> dedup_first(s)[i] != dedup_first(s)[j],
        forall|x: Seq<u8>| #[trigger] dedup_first(s).contains(x) <==> s.contains(x),
        dedup_first(s).len() <= s.len(),
    decreases s.len(),
{
    if s.len() > 0 {
        lemma_dedup_first_ensures(s.drop_last());
        let rest = dedup_first(s.drop_last());
        let r = dedup_first(s);
        assert forall|x: Seq<u8>| #[trigger] r.contains(x) implies s.contains(x) by {
            if rest.contains(x) {
                assert(s.drop_last().contains(x));
                let w = choose|w: int| 0 <= w < s.drop_last().len() && s.drop_last()[w] == x;
                assert(s[w] == x);
            } else {
                assert(x == s.last());
            }
        }
        assert forall|x: Seq<u8>| s.contains(x) implies #[trigger] r.contains(x) by {
            let w = choose|w: int| 0 <= w < s.len() && s[w] == x;
            if w < s.len() - 1 {
                assert(s.drop_last()[w] == x);
                assert(s.drop_last().contains(x));
                assert(rest.contains(x));
                if !rest.contains(s.last()) {
                    let u = choose|u: int| 0 <= u < rest.len() && rest[u] == x;
                    assert(r[u] == x);
                }
            } else {
                assert(x == s.last());
                if !rest.contains(x) {
                    assert(r[r.len() - 1] == x);
                }
            }
        }
        if !rest.contains(s.last()) {
            assert forall|i: int, j: int| 0 <= i < j < r.len() implies r[i] != r[j] by {
                if j < rest.len() {
                } else {
                    assert(r[j] == s.last());
                    assert(rest[i] == r[i]);
                    assert(rest.contains(rest[i]));
                }
            }
        }
    }
}

/// The references of a run carry no duplicates: each value appears once.
pub proof fn lemma_extracted_tracks_unique(msgs: Seq<MessageModel>)
    ensures
        forall|i: int, j: int|
            0 <= i < j < extracted_tracks(msgs).len() ==> extracted_tracks(msgs)[i]
                != extracted_tracks(msgs)[j],
{
    lemma_dedup_first_ensures(all_track_ids(msgs));
}

/// Dedup order: however a batch came to mention the references
/// `a, b, a, c, b` in that order, extraction keeps `a, b, c`.
pub proof fn lemma_dedup_order(a: Seq<u8>, b: Seq<u8>, c: Seq<u8>)
    requires
        a != b,
        a != c,
        b != c,
    ensures
        dedup_first(seq![a, b, a, c, b]) == seq![a, b, c],
{
    reveal_with_fuel(dedup_first, 6);
    let s1 = seq![a];
    let s2 = seq![a, b];
    let s3 = seq![a, b, a];
    let s4 = seq![a, b, a, c];
    let s5 = seq![a, b, a, c, b];
    assert(dedup_first(Seq::<Seq<u8>>::empty()) == Seq::<Seq<u8>>::empty());
    assert(s1.drop_last() =~= Seq::<Seq<u8>>::empty());
    assert(dedup_first(s1) =~= seq![a]);
    assert(s2.drop_last() =~= s1);
    assert(!seq![a].contains(b));
    assert(dedup_first(s2) =~= seq![a, b]);
    assert(s3.drop_last() =~= s2);
    assert(seq![a, b].contains(a)) by {
        assert(seq![a, b][0] == a);
    }
    assert(dedup_first(s3) =~= seq![a, b]);
    assert(s4.drop_last() =~= s3);
    assert(!seq![a, b].contains(c));
    assert(dedup_first(s4) =~= seq![a, b, c]);
    assert(s5.drop_last() =~= s4);
    assert(seq![a, b, c].contains(b)) by {
        assert(seq![a, b, c][1] == b);
    }
    assert(dedup_first(s5) =~= seq![a, b, c]);
}

/// Idempotence: a second run over an unchanged selection — its newest
/// message is the one the first run checkpointed — extracts nothing and
/// leaves the checkpoint exactly where it was.
pub proof fn lemma_second_run_idempotent(sel: Seq<MessageModel>, checkpoint: Option<i64>)
    ensures
        run_track_ids(sel, run_checkpoint(sel, checkpoint)).len() == 0,
        run_checkpoint(sel, run_checkpoint(sel, checkpoint)) == run_checkpoint(sel, checkpoint),
{
    if sel.len() == 0 {
        assert(all_track_ids(sel) =~= Seq::<Seq<u8>>::empty());
        assert(run_track_ids(sel, run_checkpoint(sel, checkpoint)) =~= Seq::<Seq<u8>>::empty());
    }
}

/// Checkpoint monotonicity: a run over a nonempty selection checkpoints the
/// newest identifier, which in an append-only store — identifiers grow along
/// the chronological order — is the largest one seen; and a later run whose
/// newest identifier is still the same short-circuits.
pub proof fn lemma_checkpoint_monotonic(sel: Seq<MessageModel>, checkpoint: Option<i64>)
    requires
        sel.len() > 0,
        forall|i: int, j: int| 0 <= i < j < sel.len() ==> sel[i].id < sel[j].id,
    ensures
        run_checkpoint(sel, checkpoint) == Some(sel.last().id as i64),
        forall|i: int| 0 <= i < sel.len() ==> sel[i].id <= sel.last().id,
        run_skips(sel, run_checkpoint(sel, checkpoint)),
        run_track_ids(sel, run_checkpoint(sel, checkpoint)) == Seq::<Seq<u8>>::empty(),
{
}

/// Malformed payload isolation: a message whose payload contributes nothing
/// — a malformed one — can be dropped from the batch without changing what
/// extraction yields for the other messages.
pub proof fn lemma_malformed_isolated(msgs: Seq<MessageModel>, i: int)
    requires
        0 <= i < msgs.len(),
        decoded_track_ids(msgs[i].raw_payload) == Seq::<Seq<u8>>::empty(),
    ensures
        all_track_ids(msgs) == all_track_ids(msgs.remove(i)),
        extracted_tracks(msgs) == extracted_tracks(msgs.remove(i)),
    decreases msgs.len(),
{
    if i == msgs.len() - 1 {
        assert(msgs.remove(i) =~= msgs.drop_last());
        assert(all_track_ids(msgs) == all_track_ids(msgs.drop_last()) + decoded_track_ids(
            msgs.last().raw_payload,
        ));
        assert(all_track_ids(msgs.drop_last()) + Seq::<Seq<u8>>::empty() =~= all_track_ids(
            msgs.drop_last(),
        ));
    } else {
        let d = msgs.drop_last();
        lemma_malformed_isolated(d, i);
        assert(msgs.remove(i).drop_last() =~= d.remove(i));
        assert(msgs.remove(i).last() == msgs.last());
        assert(all_track_ids(msgs.remove(i)) == all_track_ids(d.remove(i)) + decoded_track_ids(
            msgs.last().raw_payload,
        ));
    }
}

} // verus!
