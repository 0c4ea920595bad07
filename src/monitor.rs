use std::collections::HashMap;
use vstd::prelude::*;
use crate::tree::{
    BorrowTree, NodeModel, Perm, children_revoked, siblings_revoked, mutable_siblings_revoked,
    root_added, child_added, subtree_revoked, valid, in_range, forest_wf, descends, under_child,
    pick_all, pick_others, pick_mutable_others, no_revival, lemma_valid_transfer,
    lemma_under_child_descends, lemma_descends_trans, lemma_descends_le, lemma_descends_in_range,
};

verus! {

broadcast use vstd::std_specs::hash::group_hash_axioms;

/// A fatal breach of the aliasing discipline, with the address that caused it.
#[derive(Debug, Clone, Copy, PartialEq, Eq, Structural)]
pub enum Violation {
    /// The pointer, or one it was derived from, has been revoked.
    UseAfterRevocation { addr: usize },
    /// A reborrow names a parent address the monitor has never seen.
    UntrackedParent { addr: usize },
    /// A reborrow names a parent whose node is no longer live.
    InvalidatedParent { addr: usize },
    /// An allocation reuses an address that is still tracked.
    AlreadyTracked { addr: usize },
    /// A tagged allocation was presented with a stale tag.
    TagMismatch { base: usize, recorded: u64, presented: u64 },
}

/// How a non-failing access or check was handled.
#[derive(Debug, Clone, Copy, PartialEq, Eq, Structural)]
pub enum Outcome {
    /// The address was known and the policy was enforced.
    Enforced,
    /// The address is not tracked; nothing was checked.
    Untracked,
}

/// The forest after a valid access through node `id`: a writer first kills
/// everything derived from it, then kills all of its siblings; a reader kills
/// only its mutable siblings.
pub open spec fn access_effect(t: Seq<NodeModel>, id: int) -> Seq<NodeModel> {
    let perm = t[id].perm;
    let t1 = if perm == Perm::Mutable {
        children_revoked(t, id)
    } else {
        t
    };
    match t[id].parent {
        None => t1,
        Some(p) => if perm == Perm::Mutable {
            siblings_revoked(t1, p as int, id)
        } else {
            mutable_siblings_revoked(t1, p as int, id)
        },
    }
}

/// The monitor state: the borrow tree and the shadow map from observed
/// addresses to tree nodes.
pub struct Runtime {
    tree: BorrowTree,
    shadow_map: HashMap<usize, usize>,
}

impl Runtime {
    /// The borrow tree's model.
    pub closed spec fn forest(&self) -> Seq<NodeModel> {
        self.tree@
    }

    /// The shadow map's model.
    pub closed spec fn addrs(&self) -> Map<usize, usize> {
        self.shadow_map@
    }

    /// The forest of a well-formed monitor is well formed.
    pub proof fn lemma_forest_wf(&self)
        requires
            self.wf(),
        ensures
            forest_wf(self.forest()),
    {
        self.tree.lemma_model_wf();
    }

    /// Every mapped address names an existing node.
    pub proof fn lemma_addrs_in_forest(&self)
        requires
            self.wf(),
        ensures
            forall|a: usize| #[trigger] self.addrs().contains_key(a) ==> self.addrs()[a] < self.forest().len(),
    {
    }

    /// The tree is well formed and every mapped address names an existing node.
    pub closed spec fn wf(&self) -> bool {
        &&& self.tree.wf()
        &&& forall|a: usize| #[trigger] self.shadow_map@.contains_key(a) ==> self.shadow_map@[a] < self.tree@.len()
    }

    /// An empty monitor.
    pub fn new() -> (rt: Runtime)
        ensures
            rt.wf(),
            rt.forest() == Seq::<NodeModel>::empty(),
            rt.addrs() == Map::<usize, usize>::empty(),
    {
        Runtime { tree: BorrowTree::new(), shadow_map: HashMap::new() }
    }

    /// The borrow tree, for inspection.
    pub fn tree(&self) -> (t: &BorrowTree)
        requires
            self.wf(),
        ensures
            t.wf(),
            t@ == self.forest(),
    {
        &self.tree
    }

    /// The node bound to `addr`, if any.
    pub fn node_of(&self, addr: usize) -> (r: Option<usize>)
        requires
            self.wf(),
        ensures
            r == (if self.addrs().contains_key(addr) { Some(self.addrs()[addr]) } else { None::<usize> }),
    {
        match self.shadow_map.get(&addr) {
            Some(id) => Some(*id),
            None => None,
        }
    }

    /// Records a fresh allocation at `addr` as a new root. Fails, changing
    /// nothing, when `addr` is still tracked.
    pub fn handle_alloc(&mut self, addr: usize) -> (r: Result<(), Violation>)
        requires
            old(self).wf(),
        ensures
            final(self).wf(),
            no_revival(old(self).forest(), final(self).forest()),
            old(self).addrs().contains_key(addr) ==> {
                &&& r == Err::<(), Violation>(Violation::AlreadyTracked { addr })
                &&& final(self).forest() == old(self).forest()
                &&& final(self).addrs() == old(self).addrs()
            },
            !old(self).addrs().contains_key(addr) ==> {
                &&& r is Ok
                &&& final(self).forest() == root_added(old(self).forest())
                &&& final(self).addrs() == old(self).addrs().insert(addr, old(self).forest().len() as usize)
            },
    {
        if self.shadow_map.contains_key(&addr) {
            return Err(Violation::AlreadyTracked { addr });
        }
        let root_id = self.tree.spawn_root();
        self.shadow_map.insert(addr, root_id);
        Ok(())
    }

    /// Records that `new_addr` was derived from `parent_addr` with permission
    /// `perm`. Nothing is revoked here: conflicts are settled when a pointer
    /// is used. Fails, changing nothing, when the parent address is untracked
    /// or its node is dead.
    pub fn handle_reborrow(&mut self, parent_addr: usize, new_addr: usize, perm: Perm) -> (r: Result<(), Violation>)
        requires
            old(self).wf(),
        ensures
            final(self).wf(),
            no_revival(old(self).forest(), final(self).forest()),
            !old(self).addrs().contains_key(parent_addr) ==> {
                &&& r == Err::<(), Violation>(Violation::UntrackedParent { addr: parent_addr })
                &&& final(self).forest() == old(self).forest()
                &&& final(self).addrs() == old(self).addrs()
            },
            old(self).addrs().contains_key(parent_addr) ==> {
                let pid = old(self).addrs()[parent_addr] as int;
                if old(self).forest()[pid].active {
                    &&& r is Ok
                    &&& final(self).forest() == child_added(old(self).forest(), pid, perm)
                    &&& final(self).addrs() == old(self).addrs().insert(new_addr, old(self).forest().len() as usize)
                } else {
                    &&& r == Err::<(), Violation>(Violation::InvalidatedParent { addr: parent_addr })
                    &&& final(self).forest() == old(self).forest()
                    &&& final(self).addrs() == old(self).addrs()
                }
            },
    {
        let parent_id = match self.shadow_map.get(&parent_addr) {
            Some(id) => *id,
            None => {
                return Err(Violation::UntrackedParent { addr: parent_addr });
            },
        };
        match self.tree.spawn_child(parent_id, perm) {
            Some(child_id) => {
                self.shadow_map.insert(new_addr, child_id);
                Ok(())
            },
            None => Err(Violation::InvalidatedParent { addr: parent_addr }),
        }
    }

    /// Checks a use of `addr` and applies the revocation rules. Untracked
    /// addresses are let through untouched. A use through a revoked pointer
    /// fails and changes nothing. Otherwise the pointer's own permission
    /// decides: a writer kills its descendants and all its siblings, a reader
    /// kills its mutable siblings.
    pub fn handle_access(&mut self, addr: usize) -> (r: Result<Outcome, Violation>)
        requires
            old(self).wf(),
        ensures
            final(self).wf(),
            no_revival(old(self).forest(), final(self).forest()),
            final(self).addrs() == old(self).addrs(),
            !old(self).addrs().contains_key(addr) ==> {
                &&& r == Ok::<Outcome, Violation>(Outcome::Untracked)
                &&& final(self).forest() == old(self).forest()
            },
            old(self).addrs().contains_key(addr) ==> {
                let id = old(self).addrs()[addr] as int;
                if valid(old(self).forest(), id) {
                    &&& r == Ok::<Outcome, Violation>(Outcome::Enforced)
                    &&& final(self).forest() == access_effect(old(self).forest(), id)
                } else {
                    &&& r == Err::<Outcome, Violation>(Violation::UseAfterRevocation { addr })
                    &&& final(self).forest() == old(self).forest()
                }
            },
    {
        let id = match self.shadow_map.get(&addr) {
            Some(id) => *id,
            None => {
                return Ok(Outcome::Untracked);
            },
        };
        if !self.tree.is_valid(id) {
            return Err(Violation::UseAfterRevocation { addr });
        }
        let ghost t0 = self.tree@;
        let perm = self.tree.get_perm(id);
        if perm == Perm::Mutable {
            self.tree.revoke_all_children(id);
        }
        let ghost t1 = self.tree@;
        assert(t1.len() == t0.len());
        assert(t1[id as int].parent == t0[id as int].parent);
        match self.tree.get_parent(id) {
            Some(parent) => {
                if perm == Perm::Mutable {
                    self.tree.revoke_siblings_except(parent, id);
                } else {
                    self.tree.revoke_mutable_siblings(parent, id);
                }
            },
            None => {},
        }
        Ok(Outcome::Enforced)
    }

    /// Handles the release of `addr`: its binding is dropped and its node is
    /// killed together with everything derived from it. Untracked addresses
    /// are ignored.
    pub fn handle_free(&mut self, addr: usize) -> (r: Outcome)
        requires
            old(self).wf(),
        ensures
            final(self).wf(),
            no_revival(old(self).forest(), final(self).forest()),
            !old(self).addrs().contains_key(addr) ==> {
                &&& r == Outcome::Untracked
                &&& final(self).forest() == old(self).forest()
                &&& final(self).addrs() == old(self).addrs()
            },
            old(self).addrs().contains_key(addr) ==> {
                &&& r == Outcome::Enforced
                &&& final(self).forest() == subtree_revoked(old(self).forest(), old(self).addrs()[addr] as int)
                &&& final(self).addrs() == old(self).addrs().remove(addr)
            },
    {
        match self.shadow_map.remove(&addr) {
            Some(id) => {
                self.tree.deep_revoke(id);
                Outcome::Enforced
            },
            None => Outcome::Untracked,
        }
    }
}

/// Exclusive mutation: after a write through `n`, no other child of `n`'s
/// parent is valid.
pub proof fn lemma_writer_excludes_siblings(t: Seq<NodeModel>, n: int, s: int)
    requires
        forest_wf(t),
        valid(t, n),
        t[n].perm == Perm::Mutable,
        t[n].parent is Some,
        in_range(t, s),
        t[s].parent == t[n].parent,
        s != n,
    ensures
        !valid(access_effect(t, n), s),
{
    let p = t[n].parent.unwrap() as int;
    let t1 = children_revoked(t, n);
    assert(t1[s].parent == t[s].parent);
    assert(under_child(t1, p, s, pick_others(n)));
    assert(!access_effect(t, n)[s].active);
}

/// Reader coexistence: after a read through `n`, every shared child of `n`'s
/// parent that was valid stays valid.
pub proof fn lemma_readers_coexist(t: Seq<NodeModel>, n: int, s: int)
    requires
        forest_wf(t),
        valid(t, n),
        t[n].perm == Perm::Shared,
        t[n].parent is Some,
        in_range(t, s),
        t[s].parent == t[n].parent,
        t[s].perm == Perm::Shared,
        valid(t, s),
    ensures
        valid(access_effect(t, n), s),
{
    let p = t[n].parent.unwrap() as int;
    let pick = pick_mutable_others(t, n);
    let u = access_effect(t, n);
    assert(u == mutable_siblings_revoked(t, p, n));
    assert(in_range(t, s));
    assert forall|a: int| #[trigger] descends(t, a, s) && t[a].active implies u[a].active by {
        lemma_descends_le(t, a, s);
        lemma_descends_in_range(t, a, s);
        if a != s {
            assert(descends(t, a, p));
            lemma_descends_le(t, a, p);
        }
        if under_child(t, p, a, pick) {
            lemma_under_child_descends(t, p, a, pick);
            if a == s {
                assert(under_child(t, p, p, pick));
                lemma_under_child_descends(t, p, p, pick);
            }
        }
    }
    assert forall|i: int| in_range(t, i) implies #[trigger] u[i].parent == t[i].parent by {}
    lemma_valid_transfer(t, u, s);
}

/// Root immunity: accessing a root leaves every valid node outside its own
/// subtree valid.
pub proof fn lemma_root_access_is_local(t: Seq<NodeModel>, r: int, i: int)
    requires
        forest_wf(t),
        valid(t, r),
        t[r].parent is None,
        !descends(t, r, i),
        valid(t, i),
    ensures
        valid(access_effect(t, r), i),
{
    assert(in_range(t, r));
    let u = access_effect(t, r);
    assert(u == children_revoked(t, r));
    assert forall|a: int| #[trigger] descends(t, a, i) && t[a].active implies u[a].active by {
        lemma_descends_in_range(t, a, i);
        assert(a != r);
        if under_child(t, r, a, pick_all()) {
            lemma_under_child_descends(t, r, a, pick_all());
            lemma_descends_trans(t, r, a, i);
        }
    }
    assert forall|j: int| in_range(t, j) implies #[trigger] u[j].parent == t[j].parent by {}
    lemma_valid_transfer(t, u, i);
}

} // verus!
