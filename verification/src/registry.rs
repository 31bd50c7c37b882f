//! The client's accounting of the Model Registry collaborator.
//!
//! The registry itself (mesh data, instance buffers) is a rendering concern
//! and lives outside this library. What the synchronization core must get
//! right is the lifetime of the instances it attaches: every entity holds at
//! most one instance, and an instance is released exactly once, when its
//! entity is evicted. This type tracks the live instances of each model
//! variant, together with ghost counters of every attach and remove call
//! ever made, so that the no-leak, no-double-free property is an invariant.

use vstd::prelude::*;

verus! {

/// The model variant an entity's rendering instance is bound to: the
/// highlighted variant for the locally controlled player, the plain variant
/// for every other entity.
#[derive(Clone, Copy, PartialEq, Eq, Structural, Debug)]
pub enum ModelKind {
    Player,
    Other,
}

/// Live-instance bookkeeping for the Model Registry collaborator.
pub struct ModelRegistry {
    pub player_live: usize,
    pub other_live: usize,
    pub attach_calls: Ghost<nat>,
    pub remove_calls: Ghost<nat>,
}

impl ModelRegistry {
    /// Instances of the given variant currently attached.
    pub open spec fn spec_live(&self, kind: ModelKind) -> nat {
        match kind {
            ModelKind::Player => self.player_live as nat,
            ModelKind::Other => self.other_live as nat,
        }
    }

    /// Instances currently attached, over all variants.
    pub open spec fn live_total(&self) -> nat {
        (self.player_live + self.other_live) as nat
    }

    /// How many attach calls were ever made.
    pub open spec fn attach_count(&self) -> nat {
        self.attach_calls@
    }

    /// How many remove calls were ever made.
    pub open spec fn remove_count(&self) -> nat {
        self.remove_calls@
    }

    /// Accounting invariant: removes never outrun attaches, and their
    /// difference is exactly the number of live instances — no instance is
    /// leaked and none is released twice.
    pub open spec fn wf(&self) -> bool {
        self.remove_calls@ <= self.attach_calls@ && self.attach_calls@ - self.remove_calls@
            == self.live_total()
    }

    /// A fresh registry view: nothing attached, nothing ever called.
    pub fn new() -> (r: ModelRegistry)
        ensures
            r.wf(),
            r.attach_count() == 0,
            r.remove_count() == 0,
            r.spec_live(ModelKind::Player) == 0,
            r.spec_live(ModelKind::Other) == 0,
    {
        ModelRegistry {
            player_live: 0,
            other_live: 0,
            attach_calls: Ghost(0nat),
            remove_calls: Ghost(0nat),
        }
    }

    /// Instances of `kind` currently attached.
    pub fn live(&self, kind: ModelKind) -> (n: usize)
        ensures
            n == self.spec_live(kind),
    {
        match kind {
            ModelKind::Player => self.player_live,
            ModelKind::Other => self.other_live,
        }
    }

    /// Registers one new instance of `kind`.
    pub fn attach(&mut self, kind: ModelKind)
        requires
            old(self).wf(),
            old(self).live_total() < usize::MAX,
        ensures
            final(self).wf(),
            final(self).spec_live(kind) == old(self).spec_live(kind) + 1,
            forall|k: ModelKind| k != kind ==> final(self).spec_live(k) == old(self).spec_live(k),
            final(self).attach_count() == old(self).attach_count() + 1,
            final(self).remove_count() == old(self).remove_count(),
    {
        match kind {
            ModelKind::Player => {
                self.player_live = self.player_live + 1;
            },
            ModelKind::Other => {
                self.other_live = self.other_live + 1;
            },
        }
        proof {
            self.attach_calls = Ghost(self.attach_calls@ + 1);
        }
    }

    /// Releases one instance of `kind`.
    pub fn remove(&mut self, kind: ModelKind)
        requires
            old(self).wf(),
            old(self).spec_live(kind) >= 1,
        ensures
            final(self).wf(),
            final(self).spec_live(kind) == old(self).spec_live(kind) - 1,
            forall|k: ModelKind| k != kind ==> final(self).spec_live(k) == old(self).spec_live(k),
            final(self).attach_count() == old(self).attach_count(),
            final(self).remove_count() == old(self).remove_count() + 1,
    {
        match kind {
            ModelKind::Player => {
                self.player_live = self.player_live - 1;
            },
            ModelKind::Other => {
                self.other_live = self.other_live - 1;
            },
        }
        proof {
            self.remove_calls = Ghost(self.remove_calls@ + 1);
        }
    }
}

} // verus!
