//! The synchronizer: reconciles a point-in-time snapshot with a concurrently
//! arriving delta stream, detects sequence gaps, and recovers from feed
//! failures.
//!
//! The protocol is a state machine: `Connecting` until the stream is open,
//! `Buffering` while deltas accumulate and the snapshot request is in
//! flight, `Streaming` once the snapshot and the buffered deltas have been
//! reconciled into the book, and `Failed` when the session must be
//! abandoned. The transports deliver events (stream opened, delta arrived,
//! snapshot arrived, anything failed) by calling the handlers below; the
//! supervisor starts a fresh synchronizer whenever a session fails.

use vstd::prelude::*;
use crate::connection::Error;
use crate::connection::Order;
use crate::order_book::BookView;
use crate::order_book::OrderBook;
use crate::order_book::applied_all;

verus! {

/// A full point-in-time book state with its sequence number.
pub struct Snapshot {
    /// The id of the last update the snapshot reflects.
    pub last_update_id: u64,
    /// Every price level of both sides.
    pub levels: Vec<Order>,
}

/// An incremental batch of price-level changes covering the contiguous
/// range `first_update_id..=last_update_id` of sequence numbers.
pub struct Delta {
    /// First sequence number this batch represents.
    pub first_update_id: u64,
    /// Last sequence number this batch represents.
    pub last_update_id: u64,
    /// The price-level changes, in exchange order.
    pub levels: Vec<Order>,
}

/// Where a synchronizer session stands.
#[derive(Clone, Copy, Debug, PartialEq, Eq, Structural)]
pub enum SyncPhase {
    /// The delta stream is not open yet.
    Connecting,
    /// Deltas are buffered while the snapshot request is in flight.
    Buffering,
    /// The book is synchronized; arriving deltas are applied directly.
    Streaming,
    /// The session was abandoned; the supervisor must start a fresh one.
    Failed,
}

/// The synchronizer's abstract state.
pub struct SyncView {
    /// Where the session stands.
    pub phase: SyncPhase,
    /// Deltas buffered during `Buffering`, in arrival order.
    pub buffered: Seq<Delta>,
}

/// The deltas that survive the stale-delta discard against a snapshot with
/// last update id `snap_id`: exactly those not fully subsumed by the
/// snapshot, in their original order.
pub open spec fn retained(deltas: Seq<Delta>, snap_id: u64) -> Seq<Delta>
    decreases deltas.len(),
{
    if deltas.len() == 0 {
        Seq::empty()
    } else {
        let init = retained(deltas.drop_last(), snap_id);
        if deltas.last().last_update_id > snap_id {
            init.push(deltas.last())
        } else {
            init
        }
    }
}

/// The snapshot and the retained deltas describe a contiguous timeline:
/// either nothing newer than the snapshot was buffered, or the oldest
/// retained delta's range covers the first sequence number after it.
pub open spec fn gap_free(kept: Seq<Delta>, snap_id: u64) -> bool {
    ||| kept.len() == 0
    ||| (kept[0].first_update_id <= snap_id + 1 && snap_id + 1 <= kept[0].last_update_id)
}

/// The book as loaded from a snapshot alone: its levels applied to an empty
/// book that is marked synchronized.
pub open spec fn loaded(s: Snapshot) -> BookView {
    applied_all(
        BookView { bids: Map::empty(), asks: Map::empty(), synchronized: true },
        s.levels@,
    )
}

/// The book after replaying a sequence of deltas, oldest first, every level
/// of each in order.
pub open spec fn applied_deltas(b: BookView, ds: Seq<Delta>) -> BookView
    decreases ds.len(),
{
    if ds.len() == 0 {
        b
    } else {
        applied_all(applied_deltas(b, ds.drop_last()), ds.last().levels@)
    }
}

/// Law: the stale-delta discard is exact — every delta it retains ends past
/// the snapshot, and every delta it drops was fully subsumed by it, so a
/// dropped delta can never reach the book.
pub proof fn lemma_retained_exact(deltas: Seq<Delta>, snap_id: u64)
    ensures
        forall|i: int|
            0 <= i < retained(deltas, snap_id).len() ==> retained(
                deltas,
                snap_id,
            )[i].last_update_id > snap_id,
        retained(deltas, snap_id) == deltas.filter(|d: Delta| d.last_update_id > snap_id),
    decreases deltas.len(),
{
    reveal(Seq::filter);
    if deltas.len() > 0 {
        lemma_retained_exact(deltas.drop_last(), snap_id);
    }
}

/// Replaying deltas never changes whether the book is synchronized: only
/// the synchronizer's own transitions do.
pub proof fn lemma_applied_deltas_keeps_sync(b: BookView, ds: Seq<Delta>)
    ensures
        applied_deltas(b, ds).synchronized == b.synchronized,
    decreases ds.len(),
{
    if ds.len() > 0 {
        lemma_applied_deltas_keeps_sync(b, ds.drop_last());
        crate::order_book::lemma_applied_all_keeps_sync(
            applied_deltas(b, ds.drop_last()),
            ds.last().levels@,
        );
    }
}

/// Applies every level of one delta to the book, in arrival order.
fn apply_delta(book: &mut OrderBook, delta: &Delta)
    requires
        old(book).wf(),
    ensures
        final(book).wf(),
        final(book)@ == applied_all(old(book)@, delta.levels@),
{
    proof {
        assert(delta.levels@.subrange(0, 0) =~= Seq::<Order>::empty());
    }
    let mut i: usize = 0;
    while i < delta.levels.len()
        invariant
            book.wf(),
            i <= delta.levels@.len(),
            book@ == applied_all(old(book)@, delta.levels@.subrange(0, i as int)),
        decreases delta.levels@.len() - i,
    {
        book.apply(&delta.levels[i]);
        proof {
            let pre = delta.levels@.subrange(0, i as int);
            let post = delta.levels@.subrange(0, i as int + 1);
            assert(post.drop_last() =~= pre);
            assert(post.last() == delta.levels@[i as int]);
        }
        i = i + 1;
    }
    proof {
        assert(delta.levels@.subrange(0, delta.levels@.len() as int) =~= delta.levels@);
    }
}

/// Drives the snapshot/delta reconciliation for one session. The transports
/// own the connections; the synchronizer owns the decisions.
pub struct Synchronizer {
    phase: SyncPhase,
    buffered: Vec<Delta>,
}

impl View for Synchronizer {
    type V = SyncView;

    closed spec fn view(&self) -> SyncView {
        SyncView { phase: self.phase, buffered: self.buffered@ }
    }
}

impl Synchronizer {
    /// A synchronizer for one fresh session, about to open the stream.
    pub fn new() -> (r: Self)
        ensures
            r@.phase == SyncPhase::Connecting,
            r@.buffered == Seq::<Delta>::empty(),
    {
        let r = Synchronizer { phase: SyncPhase::Connecting, buffered: Vec::new() };
        proof {
            assert(r@.buffered =~= Seq::<Delta>::empty());
        }
        r
    }

    /// The phase the session is in.
    pub fn phase(&self) -> (r: SyncPhase)
        ensures
            r == self@.phase,
    {
        self.phase
    }

    /// True when the session has failed and the supervisor must start a
    /// fresh one.
    pub fn needs_restart(&self) -> (r: bool)
        ensures
            r == (self@.phase == SyncPhase::Failed),
    {
        self.phase == SyncPhase::Failed
    }

    /// The delta stream is open: deltas may now arrive, so buffering can
    /// begin. The stream is opened before the snapshot is requested, so no
    /// delta covering the instant after the snapshot can be missed.
    pub fn on_stream_opened(&mut self)
        ensures
            final(self)@.buffered == old(self)@.buffered,
            final(self)@.phase == if old(self)@.phase == SyncPhase::Connecting {
                SyncPhase::Buffering
            } else {
                old(self)@.phase
            },
    {
        if self.phase == SyncPhase::Connecting {
            self.phase = SyncPhase::Buffering;
        }
    }

    /// One delta arrived. While buffering it is queued in arrival order;
    /// while streaming it is applied to the book at once; in any other
    /// phase nothing listens, and it is dropped.
    pub fn on_delta(&mut self, book: &mut OrderBook, delta: Delta)
        requires
            old(book).wf(),
        ensures
            final(book).wf(),
            final(self)@.phase == old(self)@.phase,
            old(self)@.phase == SyncPhase::Buffering ==> {
                &&& final(self)@.buffered == old(self)@.buffered.push(delta)
                &&& final(book)@ == old(book)@
            },
            old(self)@.phase == SyncPhase::Streaming ==> {
                &&& final(self)@.buffered == old(self)@.buffered
                &&& final(book)@ == applied_all(old(book)@, delta.levels@)
            },
            old(self)@.phase != SyncPhase::Buffering && old(self)@.phase != SyncPhase::Streaming
                ==> {
                &&& final(self)@.buffered == old(self)@.buffered
                &&& final(book)@ == old(book)@
            },
    {
        match self.phase {
            SyncPhase::Buffering => {
                self.buffered.push(delta);
            },
            SyncPhase::Streaming => {
                apply_delta(book, &delta);
            },
            _ => {},
        }
    }

    /// The snapshot arrived: reconcile it with the buffered deltas.
    ///
    /// Deltas fully subsumed by the snapshot (`last_update_id` at most the
    /// snapshot's) are discarded and never touch the book. If the oldest
    /// remaining delta does not cover the first sequence number after the
    /// snapshot, the feed has a gap: the session fails and the book is
    /// cleared, still unsynchronized. Otherwise the snapshot is loaded, the
    /// book is marked synchronized, and the retained deltas are replayed in
    /// arrival order.
    pub fn on_snapshot(&mut self, book: &mut OrderBook, snapshot: &Snapshot) -> (r: Result<
        (),
        Error,
    >)
        requires
            old(self)@.phase == SyncPhase::Buffering,
            old(book).wf(),
        ensures
            final(book).wf(),
            final(self)@.buffered == Seq::<Delta>::empty(),
            ({
                let kept = retained(old(self)@.buffered, snapshot.last_update_id);
                if gap_free(kept, snapshot.last_update_id) {
                    &&& r == Result::<(), Error>::Ok(())
                    &&& final(self)@.phase == SyncPhase::Streaming
                    &&& final(book)@ == applied_deltas(loaded(*snapshot), kept)
                    &&& final(book)@.synchronized
                } else {
                    &&& r == Result::<(), Error>::Err(Error::UnexpectedItem)
                    &&& final(self)@.phase == SyncPhase::Failed
                    &&& final(book)@ == BookView::empty()
                }
            }),
    {
        let snap_id = snapshot.last_update_id;
        let ghost orig = self.buffered@;
        let ghost mut processed: Seq<Delta> = Seq::empty();
        let mut kept: Vec<Delta> = Vec::new();
        proof {
            assert(orig =~= processed + self.buffered@);
            assert(kept@ =~= retained(processed, snap_id));
        }
        while self.buffered.len() > 0
            invariant
                orig == processed + self.buffered@,
                kept@ == retained(processed, snap_id),
            decreases self.buffered@.len(),
        {
            let d = self.buffered.remove(0);
            let ghost processed2 = processed.push(d);
            proof {
                assert(processed2.drop_last() =~= processed);
            }
            if d.last_update_id > snap_id {
                kept.push(d);
            }
            proof {
                processed = processed2;
                assert(orig =~= processed + self.buffered@);
            }
        }
        proof {
            assert(orig =~= processed);
            assert(kept@ == retained(orig, snap_id));
            assert(self.buffered@ =~= Seq::<Delta>::empty());
        }
        // Gap check: the oldest retained delta, if any, must cover the first
        // sequence number after the snapshot. The comparison is widened so
        // that the successor of the snapshot id cannot overflow.
        let mut contiguous = true;
        if kept.len() > 0 {
            let successor: u128 = snap_id as u128 + 1;
            let first_id: u128 = kept[0].first_update_id as u128;
            let last_id: u128 = kept[0].last_update_id as u128;
            if first_id > successor || last_id < successor {
                contiguous = false;
            }
        }
        if !contiguous {
            self.phase = SyncPhase::Failed;
            book.reset();
            return Err(Error::UnexpectedItem);
        }
        // Rebuild the book from the snapshot, under the writer's exclusive
        // access, and replay the retained deltas, oldest first.
        book.reset();
        book.mark_synchronized();
        let ghost base = BookView { bids: Map::empty(), asks: Map::empty(), synchronized: true };
        proof {
            assert(book@ =~= base);
            assert(snapshot.levels@.subrange(0, 0) =~= Seq::<Order>::empty());
        }
        let mut i: usize = 0;
        while i < snapshot.levels.len()
            invariant
                book.wf(),
                i <= snapshot.levels@.len(),
                book@ == applied_all(base, snapshot.levels@.subrange(0, i as int)),
            decreases snapshot.levels@.len() - i,
        {
            book.apply(&snapshot.levels[i]);
            proof {
                let pre = snapshot.levels@.subrange(0, i as int);
                let post = snapshot.levels@.subrange(0, i as int + 1);
                assert(post.drop_last() =~= pre);
                assert(post.last() == snapshot.levels@[i as int]);
            }
            i = i + 1;
        }
        proof {
            assert(snapshot.levels@.subrange(0, snapshot.levels@.len() as int) =~= snapshot.levels@);
            assert(book@ == loaded(*snapshot));
            assert(kept@.subrange(0, 0) =~= Seq::<Delta>::empty());
        }
        let ghost snapped = book@;
        let mut j: usize = 0;
        while j < kept.len()
            invariant
                book.wf(),
                j <= kept@.len(),
                book@ == applied_deltas(snapped, kept@.subrange(0, j as int)),
            decreases kept@.len() - j,
        {
            apply_delta(book, &kept[j]);
            proof {
                let pre = kept@.subrange(0, j as int);
                let post = kept@.subrange(0, j as int + 1);
                assert(post.drop_last() =~= pre);
                assert(post.last() == kept@[j as int]);
            }
            j = j + 1;
        }
        proof {
            assert(kept@.subrange(0, kept@.len() as int) =~= kept@);
            crate::order_book::lemma_applied_all_keeps_sync(base, snapshot.levels@);
            lemma_applied_deltas_keeps_sync(snapped, kept@);
        }
        self.phase = SyncPhase::Streaming;
        Ok(())
    }

    /// Abandons the session: a stream error, end-of-stream, a failed
    /// snapshot request, an undecodable message and a sequence gap all land
    /// here. The book is cleared and marked out of sync so that no stale
    /// value is ever served, and the supervisor is expected to start a
    /// fresh session.
    pub fn on_failure(&mut self, book: &mut OrderBook)
        requires
            old(book).wf(),
        ensures
            final(book).wf(),
            final(self)@.phase == SyncPhase::Failed,
            final(self)@.buffered == Seq::<Delta>::empty(),
            final(book)@ == BookView::empty(),
    {
        self.phase = SyncPhase::Failed;
        self.buffered = Vec::new();
        book.reset();
        proof {
            assert(self@.buffered =~= Seq::<Delta>::empty());
        }
    }
}

} // verus!
