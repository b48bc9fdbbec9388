//! The place where snapshots are published, and the two sides of it: the one
//! writer, and the readers' handles. Nothing but the functions here makes or
//! changes one of them.

use std::sync::Arc;

use vstd::prelude::*;

use crate::state::Published;
use crate::visible::{follows, whole};

use super::Snap;

verus! {

/// The place where the newest snapshot is published: an
/// `arc_swap::ArcSwap`, which readers load without a lock. Equality says
/// which place it is, and nothing of what is there.
#[verifier::external_body]
#[verifier::reject_recursive_types(F)]
pub struct SnapCell<F> {
    cell: Arc<arc_swap::ArcSwap<Snap<F>>>,
}

/// The writer's side of the place where snapshots are published. `last` is
/// what was published last. Nothing else stores into the place.
#[verifier::reject_recursive_types(F)]
pub(super) struct Publisher<F> {
    cell: SnapCell<F>,
    last: Ghost<Published<F>>,
}

/// A lock-free, shareable read handle over a store's committed snapshots.
/// Reads never take any lock and never block on the write path.
#[verifier::reject_recursive_types(F)]
pub struct StoreView<F> {
    cell: SnapCell<F>,
    start: Ghost<Published<F>>,
}

impl<F> Publisher<F> {
    /// The place that is published to.
    pub closed spec fn cell(&self) -> SnapCell<F> {
        self.cell
    }

    /// What was published last.
    pub closed spec fn last(&self) -> Published<F> {
        self.last@
    }

    /// `arc_swap::ArcSwap::new`: a new place, which holds `snap`.
    #[verifier::external_body]
    pub(super) fn new(snap: Arc<Snap<F>>) -> (p: Publisher<F>)
        requires
            snap.wf(),
            whole(snap.model()),
        ensures
            p.last() == snap.model(),
    {
        Publisher {
            last: Ghost(snap.model()),
            cell: SnapCell { cell: Arc::new(arc_swap::ArcSwap::new(snap)) },
        }
    }

    /// `arc_swap::ArcSwap::store`: `snap` takes the place of what was there.
    /// It has to follow that, so that readers never see anything go back.
    #[verifier::external_body]
    pub(super) fn store(&mut self, snap: Arc<Snap<F>>)
        requires
            snap.wf(),
            follows(snap.model(), old(self).last()),
        ensures
            final(self).last() == snap.model(),
            final(self).cell() == old(self).cell(),
    {
        self.cell.cell.store(snap);
    }

    /// `Arc::clone`: a handle that reads the same place, so what is stored
    /// from now on is what it loads.
    #[verifier::external_body]
    pub(super) fn view(&self) -> (view: StoreView<F>)
        ensures
            view.cell() == self.cell(),
            view.since() == self.last(),
    {
        StoreView {
            cell: SnapCell { cell: Arc::clone(&self.cell.cell) },
            start: Ghost(self.last()),
        }
    }
}

impl<F> StoreView<F> {
    /// The place that the handle reads.
    pub closed spec fn cell(&self) -> SnapCell<F> {
        self.cell
    }

    /// What the store showed when the handle was made.
    pub closed spec fn since(&self) -> Published<F> {
        self.start@
    }

    /// `Arc::clone`: another handle over the same store. It has seen what this
    /// one has.
    #[verifier::external_body]
    pub fn share(&self) -> (view: StoreView<F>)
        ensures
            view == *self,
    {
        StoreView {
            cell: SnapCell { cell: Arc::clone(&self.cell.cell) },
            start: Ghost(self.since()),
        }
    }

    /// `arc_swap::ArcSwap::load_full`: the snapshot that was published last,
    /// when the load takes place. That is the one that was there when the
    /// handle was made, or one that was stored later, each of which follows
    /// the one before. Which of them depends on when the writer publishes.
    #[verifier::external_body]
    pub(super) fn load(&self) -> (snap: Arc<Snap<F>>)
        ensures
            snap.wf(),
            follows(snap.model(), self.since()),
    {
        self.cell.cell.load_full()
    }
}

} // verus!
