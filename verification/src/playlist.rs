//! The remote playlist reconciler: building the membership snapshot page by
//! page, diffing the extracted references against it, and planning the one
//! batch append — and the metadata refresh that only a content change earns.
//!
//! The remote calls themselves are I/O and stay outside the library; the
//! caller fetches each page and each append from the service and feeds the
//! plain values through here.

use vstd::prelude::*;
use vstd::string::StringExecFns;
use crate::extraction::contains_track;

verus! {

/// The number of entries requested per page of playlist contents.
pub const PAGE_SIZE: u32 = 100;

/// The membership snapshot of the remote playlist, rebuilt every cycle by
/// paging through its contents.  It is a read snapshot, not a cache: it
/// lives for one reconciliation only.
pub struct PlaylistMembership {
    /// Every track identifier seen so far, in page order.
    pub items: Vec<Vec<u8>>,
    /// The offset at which the next page must be requested.
    pub next_offset: u32,
    /// Whether the service has reported that no page follows.
    pub complete: bool,
}

impl PlaylistMembership {
    /// An empty snapshot, about to request the first page.
    pub fn new() -> (r: Self)
        ensures
            r.items@.len() == 0,
            r.next_offset == 0,
            !r.complete,
    {
        PlaylistMembership { items: Vec::new(), next_offset: 0, complete: false }
    }

    /// The offset of the next page to request, or nothing once the service
    /// reported the end.  Termination of pagination is driven by that
    /// signal alone, never by a count.
    pub fn page_request(&self) -> (r: Option<u32>)
        ensures
            r == (if self.complete {
                Option::<u32>::None
            } else {
                Some(self.next_offset)
            }),
    {
        if self.complete {
            None
        } else {
            Some(self.next_offset)
        }
    }

    /// Records one fetched page: its items extend the snapshot in order,
    /// the offset advances by one page, and the snapshot is complete
    /// exactly when the service reported no further page.
    pub fn record_page(&mut self, page_items: Vec<Vec<u8>>, has_next: bool)
        requires
            !old(self).complete,
            old(self).next_offset + PAGE_SIZE <= u32::MAX,
        ensures
            final(self).items.deep_view() == old(self).items.deep_view()
                + page_items.deep_view(),
            final(self).next_offset == old(self).next_offset + PAGE_SIZE,
            final(self).complete == !has_next,
    {
        let ghost before = self.items.deep_view();
        let mut page = page_items;
        let ghost page_dv = page.deep_view();
        self.items.append(&mut page);
        proof {
            assert forall|k: int| 0 <= k < self.items@.len() implies self.items.deep_view()[k]
                == (before + page_dv)[k] by {
                assert(self.items.deep_view()[k] == self.items@[k].deep_view());
            }
            assert(self.items.deep_view() =~~= before + page_dv);
        }
        self.next_offset = self.next_offset + PAGE_SIZE;
        self.complete = !has_next;
    }
}

/// What one reconciliation will do to the remote playlist.
pub struct ReconcilePlan {
    /// The references to append, as one batch, in extracted order.
    pub to_append: Vec<Vec<u8>>,
    /// Whether display metadata is refreshed: only alongside a content
    /// change, never on a no-op run.
    pub refresh_metadata: bool,
}

impl ReconcilePlan {
    /// How many references the reconciliation adds.
    pub fn count_added(&self) -> (n: usize)
        ensures
            n == self.to_append@.len(),
    {
        self.to_append.len()
    }
}

/// Not yet a member: the predicate the difference keeps.
pub open spec fn missing_pred(membership: Seq<Seq<u8>>) -> spec_fn(Seq<u8>) -> bool {
    |t: Seq<u8>| !membership.contains(t)
}

/// The extracted references that are not yet members, in extracted order.
pub open spec fn missing_tracks(extracted: Seq<Seq<u8>>, membership: Seq<Seq<u8>>) -> Seq<
    Seq<u8>,
> {
    extracted.filter(missing_pred(membership))
}

fn clone_bytes(v: &Vec<u8>) -> (r: Vec<u8>)
    ensures
        r@ == v@,
{
    let mut r: Vec<u8> = Vec::new();
    let mut k: usize = 0;
    while k < v.len()
        invariant
            k <= v@.len(),
            r@ =~= v@.subrange(0, k as int),
        decreases v@.len() - k,
    {
        r.push(v[k]);
        k = k + 1;
        proof {
            assert(r@ =~= v@.subrange(0, k as int));
        }
    }
    proof {
        assert(r@ =~= v@);
    }
    r
}

/// Plans one reconciliation against a fully paginated snapshot: the
/// references still missing are appended, in extracted order, as one batch;
/// when nothing is missing the plan is a no-op and metadata stays as it is.
pub fn plan_reconciliation(extracted: &Vec<Vec<u8>>, membership: &PlaylistMembership) -> (plan:
    ReconcilePlan)
    requires
        membership.complete,
    ensures
        plan.to_append.deep_view() == missing_tracks(
            extracted.deep_view(),
            membership.items.deep_view(),
        ),
        plan.refresh_metadata == (plan.to_append@.len() > 0),
{
    let ghost ex = extracted.deep_view();
    let ghost mem = membership.items.deep_view();
    let ghost pred = missing_pred(mem);
    let mut to_append: Vec<Vec<u8>> = Vec::new();
    proof {
        reveal(Seq::filter);
        assert(ex.subrange(0, 0).filter(pred) =~= Seq::<Seq<u8>>::empty());
    }
    let mut i: usize = 0;
    while i < extracted.len()
        invariant
            i <= ex.len(),
            ex == extracted.deep_view(),
            ex.len() == extracted@.len(),
            mem == membership.items.deep_view(),
            pred == missing_pred(mem),
            to_append.deep_view() == ex.subrange(0, i as int).filter(pred),
        decreases ex.len() - i,
    {
        let ghost prefix = ex.subrange(0, i as int);
        let ghost extended = ex.subrange(0, i + 1);
        proof {
            assert(extended.drop_last() =~= prefix);
            assert(extended.last() == ex[i as int]);
            assert(extracted@[i as int].deep_view() =~= extracted@[i as int]@);
            assert(ex[i as int] == extracted@[i as int]@);
        }
        if !contains_track(&membership.items, &extracted[i]) {
            let t = clone_bytes(&extracted[i]);
            let ghost before = to_append.deep_view();
            to_append.push(t);
            proof {
                reveal(Seq::filter);
                assert(to_append.deep_view() =~~= before.push(ex[i as int]));
                assert(extended.filter(pred) == prefix.filter(pred).push(ex[i as int]));
            }
        } else {
            proof {
                reveal(Seq::filter);
                assert(extended.filter(pred) == prefix.filter(pred));
            }
        }
        i = i + 1;
    }
    proof {
        assert(ex.subrange(0, ex.len() as int) =~= ex);
    }
    let refresh_metadata = to_append.len() > 0;
    ReconcilePlan { to_append, refresh_metadata }
}

// ---------------------------------------------------------------------------
// Laws of reconciliation
// ---------------------------------------------------------------------------

/// Reconciliation no-op: when every extracted reference is already a
/// member, the difference is empty — nothing is appended and, by the plan's
/// own contract, metadata stays untouched.
pub proof fn lemma_reconcile_noop(extracted: Seq<Seq<u8>>, membership: Seq<Seq<u8>>)
    requires
        forall|i: int| 0 <= i < extracted.len() ==> membership.contains(#[trigger] extracted[i]),
    ensures
        missing_tracks(extracted, membership) == Seq::<Seq<u8>>::empty(),
    decreases extracted.len(),
{
    reveal(Seq::filter);
    if extracted.len() == 0 {
        assert(missing_tracks(extracted, membership) =~= Seq::<Seq<u8>>::empty());
    } else {
        let d = extracted.drop_last();
        lemma_reconcile_noop(d, membership);
        assert(extracted[extracted.len() - 1] == extracted.last());
        assert(membership.contains(extracted.last()));
    }
}

/// What the difference holds: every planned reference was extracted, and
/// none of them is already a member — the append never duplicates.
pub proof fn lemma_missing_tracks_disjoint(extracted: Seq<Seq<u8>>, membership: Seq<Seq<u8>>)
    ensures
        forall|i: int|
            0 <= i < missing_tracks(extracted, membership).len() ==> extracted.contains(
                #[trigger] missing_tracks(extracted, membership)[i],
            ) && !membership.contains(missing_tracks(extracted, membership)[i]),
    decreases extracted.len(),
{
    reveal(Seq::filter);
    let r = missing_tracks(extracted, membership);
    if extracted.len() > 0 {
        let d = extracted.drop_last();
        lemma_missing_tracks_disjoint(d, membership);
        let rd = missing_tracks(d, membership);
        assert forall|i: int| 0 <= i < r.len() implies extracted.contains(#[trigger] r[i])
            && !membership.contains(r[i]) by {
            if i < rd.len() {
                assert(r[i] == rd[i]);
                assert(d.contains(rd[i]));
                let w = choose|w: int| 0 <= w < d.len() && d[w] == rd[i];
                assert(extracted[w] == rd[i]);
            } else {
                assert(r[i] == extracted.last());
            }
        }
    }
}

// ---------------------------------------------------------------------------
// Display metadata of a refresh
// ---------------------------------------------------------------------------

/// The title a refresh writes: the chat name, marked as an archive with the
/// date of the update.
pub open spec fn archive_title(chat: Seq<char>, date: Seq<char>) -> Seq<char> {
    chat + " Archive - (Updated "@ + date + ")"@
}

/// The description a refresh writes.
pub open spec fn archive_description(chat: Seq<char>, date: Seq<char>) -> Seq<char> {
    "All songs sent in the "@ + chat + " group chat. Last updated on "@ + date + "."@
}

/// The display metadata of one refresh.
pub struct PlaylistMetadata {
    pub title: String,
    pub description: String,
}

/// Builds the metadata a refresh writes, from the chat display name and the
/// date text of the update.
pub fn build_playlist_metadata(chat_display_name: &String, date: &String) -> (r: PlaylistMetadata)
    ensures
        r.title@ == archive_title(chat_display_name@, date@),
        r.description@ == archive_description(chat_display_name@, date@),
{
    let mut title = String::new();
    title.append(chat_display_name.as_str());
    title.append(" Archive - (Updated ");
    title.append(date.as_str());
    title.append(")");
    let mut description = String::new();
    description.append("All songs sent in the ");
    description.append(chat_display_name.as_str());
    description.append(" group chat. Last updated on ");
    description.append(date.as_str());
    description.append(".");
    proof {
        assert(title@ =~= archive_title(chat_display_name@, date@));
        assert(description@ =~= archive_description(chat_display_name@, date@));
    }
    PlaylistMetadata { title, description }
}

/// Relies on chrono's `Local::now` and its `%Y-%m-%d` formatting for the
/// current local date as text.  The result depends on the clock and the
/// machine's time zone, so nothing is promised of it.
#[verifier::external_body]
fn local_date_text() -> (r: String) {
    chrono::Local::now().format("%Y-%m-%d").to_string()
}

/// Builds the metadata of a refresh stamped with today's local date.  Which
/// day that is depends on the clock, so the date text used is returned
/// beside the metadata, and the metadata is exact for that text whatever
/// the clock said.
pub fn refresh_metadata_today(chat_display_name: &String) -> (r: (PlaylistMetadata, String))
    ensures
        r.0.title@ == archive_title(chat_display_name@, r.1@),
        r.0.description@ == archive_description(chat_display_name@, r.1@),
{
    let date = local_date_text();
    let metadata = build_playlist_metadata(chat_display_name, &date);
    (metadata, date)
}

} // verus!
