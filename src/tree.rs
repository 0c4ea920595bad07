use vstd::prelude::*;

verus! {

/// The permission a pointer was derived with.
#[derive(Debug, Clone, Copy, PartialEq, Eq, Structural)]
pub enum Perm {
    /// Read-only access; any number of shared pointers may coexist.
    Shared,
    /// Write access; it must be exclusive.
    Mutable,
}

/// The abstract state of one node: its place in the forest, its permission
/// and its liveness bit.
#[verifier::ext_equal]
pub struct NodeModel {
    pub parent: Option<usize>,
    pub children: Seq<usize>,
    pub perm: Perm,
    pub active: bool,
}

/// One pointer derivation recorded in the tree.
struct Node {
    id: usize,
    parent: Option<usize>,
    children: Vec<usize>,
    permission: Perm,
    active: bool,
}

impl View for Node {
    type V = NodeModel;

    closed spec fn view(&self) -> NodeModel {
        NodeModel {
            parent: self.parent,
            children: self.children@,
            perm: self.permission,
            active: self.active,
        }
    }
}

/// The forest of derivations, stored as an append-only arena indexed by id.
pub struct BorrowTree {
    nodes: Vec<Node>,
}

impl View for BorrowTree {
    type V = Seq<NodeModel>;

    closed spec fn view(&self) -> Seq<NodeModel> {
        self.nodes@.map_values(|n: Node| n@)
    }
}

/// Appends every element of `items` to `stack`.
fn push_all(stack: &mut Vec<usize>, items: &Vec<usize>)
    ensures
        final(stack)@ == old(stack)@ + items@,
{
    let mut k: usize = 0;
    while k < items.len()
        invariant
            k <= items@.len(),
            stack@ == old(stack)@ + items@.take(k as int),
        decreases items@.len() - k,
    {
        stack.push(items[k]);
        k += 1;
        assert(items@.take(k as int) =~= items@.take(k - 1).push(items@[k - 1]));
    }
    assert(items@.take(k as int) =~= items@);
}

impl BorrowTree {
    /// The stored ids agree with the arena positions, and the model is a
    /// well-formed forest.
    pub closed spec fn wf(&self) -> bool {
        &&& forall|i: int| 0 <= i < self.nodes@.len() ==> #[trigger] self.nodes@[i].id == i
        &&& forest_wf(self@)
    }

    /// The model of a well-formed tree is a well-formed forest.
    pub proof fn lemma_model_wf(&self)
        requires
            self.wf(),
        ensures
            forest_wf(self@),
    {
    }

    /// An empty forest.
    pub fn new() -> (t: BorrowTree)
        ensures
            t.wf(),
            t@ == Seq::<NodeModel>::empty(),
    {
        let t = BorrowTree { nodes: Vec::new() };
        assert(t@ =~= Seq::<NodeModel>::empty());
        t
    }

    /// Appends a live, mutable root and returns its id.
    pub fn spawn_root(&mut self) -> (id: usize)
        requires
            old(self).wf(),
        ensures
            final(self).wf(),
            id == old(self)@.len(),
            final(self)@ == root_added(old(self)@),
    {
        let id = self.nodes.len();
        self.nodes.push(Node { id, parent: None, children: Vec::new(), permission: Perm::Mutable, active: true });
        assert(self@ =~= root_added(old(self)@));
        proof {
            assert forall|i: int| 0 <= i < self.nodes@.len() implies #[trigger] self.nodes@[i].id == i by {
                if i < id {
                    assert(old(self).nodes@[i].id == i);
                }
            }
            lemma_appended_wf(old(self)@, None, Perm::Mutable);
        }
        id
    }

    /// Appends a live child of `parent_id` with permission `perm` and returns
    /// its id; `None`, with the forest unchanged, when the parent is unknown or
    /// dead.
    pub fn spawn_child(&mut self, parent_id: usize, perm: Perm) -> (r: Option<usize>)
        requires
            old(self).wf(),
        ensures
            final(self).wf(),
            match r {
                Some(id) => {
                    &&& in_range(old(self)@, parent_id as int)
                    &&& old(self)@[parent_id as int].active
                    &&& id == old(self)@.len()
                    &&& final(self)@ == child_added(old(self)@, parent_id as int, perm)
                },
                None => {
                    &&& !(in_range(old(self)@, parent_id as int) && old(self)@[parent_id as int].active)
                    &&& final(self)@ == old(self)@
                },
            },
    {
        if parent_id >= self.nodes.len() || !self.nodes[parent_id].active {
            return None;
        }
        let id = self.nodes.len();
        self.nodes.push(Node { id, parent: Some(parent_id), children: Vec::new(), permission: perm, active: true });
        self.nodes[parent_id].children.push(id);
        let ghost t0 = old(self)@;
        assert(self@ =~= child_added(t0, parent_id as int, perm));
        proof {
            assert forall|i: int| 0 <= i < self.nodes@.len() implies #[trigger] self.nodes@[i].id == i by {
                if i < id {
                    assert(old(self).nodes@[i].id == i);
                }
            }
            lemma_appended_wf(t0, Some(parent_id), perm);
        }
        Some(id)
    }

    /// Kills node `id` and every node below it, with an explicit work stack.
    /// A node found already dead is skipped together with its children, which
    /// died with it.
    pub fn deep_revoke(&mut self, id: usize)
        requires
            old(self).wf(),
        ensures
            final(self).wf(),
            final(self)@ == subtree_revoked(old(self)@, id as int),
    {
        let ghost t0 = self@;
        if id >= self.nodes.len() {
            proof {
                assert forall|i: int| !descends(t0, id as int, i) by {
                    if descends(t0, id as int, i) {
                        lemma_descends_in_range(t0, id as int, i);
                    }
                }
            }
            assert(self@ =~= subtree_revoked(t0, id as int));
            return;
        }
        let mut stack: Vec<usize> = Vec::new();
        stack.push(id);
        assert(stack@[0] == id);
        while stack.len() > 0
            invariant
                forest_wf(t0),
                t0 == old(self)@,
                id < t0.len(),
                self.nodes@.len() == t0.len(),
                forall|i: int| 0 <= i < self.nodes@.len() ==> #[trigger] self.nodes@[i].id == i,
                same_shape(t0, self@),
                forall|i: int| in_range(self@, i) && #[trigger] self@[i].active ==> t0[i].active,
                forall|i: int| in_range(self@, i) && !descends(t0, id as int, i) ==> #[trigger] self@[i].active == t0[i].active,
                forall|k: int| 0 <= k < stack@.len() ==> descends(t0, id as int, #[trigger] stack@[k] as int),
                forall|x: int, k: int|
                    in_range(t0, x) && t0[x].active && !self@[x].active && 0 <= k < t0[x].children.len()
                        ==> !self@[#[trigger] t0[x].children[k] as int].active || stack@.contains(t0[x].children[k]),
                stack@.contains(id) || !self@[id as int].active,
            decreases live_count(self@, self@.len() as int), stack@.len(),
        {
            let ghost t = self@;
            let ghost st = stack@;
            let curr = stack.pop().unwrap();
            assert(st[st.len() - 1] == curr);
            assert(descends(t0, id as int, curr as int));
            proof {
                lemma_descends_in_range(t0, id as int, curr as int);
            }
            assert(in_range(t0, curr as int));
            if self.nodes[curr].active {
                self.nodes[curr].active = false;
                assert(self@ =~= t.update(curr as int, killed(t[curr as int])));
                proof {
                    lemma_live_count_kill(t, curr as int, t.len() as int);
                }
                let ghost mid = stack@;
                assert(self@[curr as int].children == t[curr as int].children);
                assert(in_range(t, curr as int));
                push_all(&mut stack, &self.nodes[curr].children);
                proof {
                    let u = self@;
                    assert(stack@ == mid + t0[curr as int].children);
                    assert forall|i: int| #[trigger] in_range(u, i) implies {
                        &&& u[i].parent == t0[i].parent
                        &&& u[i].children == t0[i].children
                        &&& u[i].perm == t0[i].perm
                    } by {
                        assert(in_range(t, i));
                    }
                    let cs = t0[curr as int].children;
                    assert forall|k: int| 0 <= k < stack@.len() implies descends(t0, id as int, #[trigger] stack@[k] as int) by {
                        if k < mid.len() {
                            assert(stack@[k] == st[k]);
                        } else {
                            assert(stack@[k] == cs[k - mid.len()]);
                            let c = cs[k - mid.len()] as int;
                            assert(parent_is(t0, c, curr as int));
                            assert(in_range(t0, c));
                        }
                    }
                    assert forall|x: int, k: int|
                        in_range(t0, x) && t0[x].active && !u[x].active && 0 <= k < t0[x].children.len()
                            implies !u[#[trigger] t0[x].children[k] as int].active || stack@.contains(t0[x].children[k]) by {
                        let c = t0[x].children[k];
                        if x == curr as int {
                            assert(stack@[mid.len() + k] == c);
                        } else if c != curr {
                            assert(parent_is(t0, c as int, x));
                            if u[c as int].active {
                                assert(t[x].active == u[x].active);
                                assert(st.contains(c));
                                let j = choose|j: int| 0 <= j < st.len() && st[j] == c;
                                assert(stack@[j] == c);
                            }
                        }
                    }
                    if curr != id && st.contains(id) {
                        let j = choose|j: int| 0 <= j < st.len() && st[j] == id;
                        assert(stack@[j] == id);
                    }
                }
            } else {
                proof {
                    assert forall|x: int, k: int|
                        in_range(t0, x) && t0[x].active && !t[x].active && 0 <= k < t0[x].children.len()
                            implies !t[#[trigger] t0[x].children[k] as int].active || stack@.contains(t0[x].children[k]) by {
                        let c = t0[x].children[k];
                        if c != curr && !t[c as int].active == false {
                            let j = choose|j: int| 0 <= j < st.len() && st[j] == c;
                            assert(stack@[j] == c);
                        }
                    }
                    if curr != id && st.contains(id) {
                        let j = choose|j: int| 0 <= j < st.len() && st[j] == id;
                        assert(stack@[j] == id);
                    }
                }
            }
        }
        proof {
            let t = self@;
            assert forall|i: int| descends(t0, id as int, i) implies !t[i].active by {
                lemma_stack_empty_kills_subtree(t0, t, id as int, i);
            }
            assert forall|i: int| 0 <= i < t.len() implies t[i] == subtree_revoked(t0, id as int)[i] by {
                assert(in_range(t, i));
                if descends(t0, id as int, i) {
                    assert(!t[i].active);
                    assert(t[i] =~= killed(t0[i]));
                } else {
                    assert(t[i] =~= t0[i]);
                }
            }
            assert(t =~= subtree_revoked(t0, id as int));
        }
        proof {
            lemma_deactivate_wf(t0, |i: int| descends(t0, id as int, i));
        }
    }

    /// Deep-revokes, in list order, each listed child `c` of `p` other than
    /// `skip`, and, when `only_mutable` holds, only the mutable ones.
    fn revoke_children_where(
        &mut self,
        p: usize,
        skip: Option<usize>,
        only_mutable: bool,
        Ghost(pick): Ghost<spec_fn(int) -> bool>,
    )
        requires
            old(self).wf(),
            in_range(old(self)@, p as int),
            forall|c: int|
                in_range(old(self)@, c) ==> #[trigger] pick(c) == (match skip {
                    Some(s) => c != s as int,
                    None => true,
                } && (only_mutable ==> old(self)@[c].perm == Perm::Mutable)),
        ensures
            final(self).wf(),
            final(self)@ == deactivate(old(self)@, |i: int| under_child(old(self)@, p as int, i, pick)),
    {
        let ghost t0 = self@;
        let n = self.nodes[p].children.len();
        let mut k: usize = 0;
        while k < n
            invariant
                self.wf(),
                forest_wf(t0),
                t0 == old(self)@,
                in_range(t0, p as int),
                n == t0[p as int].children.len(),
                k <= n,
                same_shape(t0, self@),
                forall|c: int|
                    in_range(t0, c) ==> #[trigger] pick(c) == (match skip {
                        Some(s) => c != s as int,
                        None => true,
                    } && (only_mutable ==> t0[c].perm == Perm::Mutable)),
                forall|i: int| #[trigger] in_range(self@, i) ==> self@[i].active == (t0[i].active
                    && !below_listed(t0, p as int, k as int, pick, i)),
            decreases n - k,
        {
            let ghost t = self@;
            assert(in_range(t, p as int));
            let c = self.nodes[p].children[k];
            assert(c as int == t0[p as int].children[k as int]);
            assert(parent_is(t0, c as int, p as int));
            let skipped = match skip {
                Some(s) => c == s,
                None => false,
            };
            let chosen = !skipped && (!only_mutable || self.nodes[c].permission == Perm::Mutable);
            assert(in_range(t, c as int));
            assert(chosen == pick(c as int));
            if chosen {
                self.deep_revoke(c);
                proof {
                    let u = self@;
                    assert forall|i: int| #[trigger] in_range(u, i) implies {
                        &&& u[i].parent == t0[i].parent
                        &&& u[i].children == t0[i].children
                        &&& u[i].perm == t0[i].perm
                    } by {
                        assert(in_range(t, i));
                    }
                    assert forall|i: int| #[trigger] in_range(u, i) implies u[i].active == (t0[i].active
                        && !below_listed(t0, p as int, k + 1, pick, i)) by {
                        assert(in_range(t, i));
                        lemma_same_shape_descends(t0, t, c as int, i);
                    }
                }
            }
            k += 1;
        }
        proof {
            let u = self@;
            let want = deactivate(t0, |i: int| under_child(t0, p as int, i, pick));
            assert forall|i: int| 0 <= i < u.len() implies u[i] == want[i] by {
                assert(in_range(u, i));
                if t0[i].active {
                    lemma_below_listed_iff(t0, p as int, pick, i);
                }
                if under_child(t0, p as int, i, pick) {
                    assert(u[i] =~= killed(t0[i]));
                } else {
                    assert(u[i] =~= t0[i]);
                }
            }
            assert(u =~= want);
        }
    }

    /// Kills every proper descendant of `id` and empties its child list: a
    /// writer freezes whatever was derived from it. Unknown ids are ignored.
    pub fn revoke_all_children(&mut self, id: usize)
        requires
            old(self).wf(),
        ensures
            final(self).wf(),
            final(self)@ == children_revoked(old(self)@, id as int),
    {
        let ghost t0 = self@;
        if id >= self.nodes.len() {
            proof {
                let want = deactivate(t0, |i: int| under_child(t0, id as int, i, pick_all()));
                assert forall|i: int| 0 <= i < t0.len() implies t0[i] == want[i] by {
                    if under_child(t0, id as int, i, pick_all()) {
                        lemma_under_child_in_range(t0, id as int, i, pick_all());
                    }
                }
                assert(t0 =~= want);
            }
            return;
        }
        self.revoke_children_where(id, None, false, Ghost(pick_all()));
        proof {
            let t1 = self@;
            assert forall|c: int| #[trigger] parent_is(t1, c, id as int) implies !t1[c].active by {
                assert(parent_is(t0, c, id as int));
                assert(under_child(t0, id as int, c, pick_all()));
            }
            lemma_cleared_children_wf(t1, id as int);
        }
        self.nodes[id].children.clear();
        assert(self@ =~= children_revoked(t0, id as int));
    }

    /// Kills the subtrees of every child of `parent_id` other than
    /// `survivor_id`, then cuts the parent's child list down to the survivor:
    /// a write access is exclusive. Unknown parents are ignored.
    pub fn revoke_siblings_except(&mut self, parent_id: usize, survivor_id: usize)
        requires
            old(self).wf(),
        ensures
            final(self).wf(),
            final(self)@ == siblings_revoked(old(self)@, parent_id as int, survivor_id as int),
    {
        let ghost t0 = self@;
        let ghost s = survivor_id as int;
        if parent_id >= self.nodes.len() {
            proof {
                let want = deactivate(t0, |i: int| under_child(t0, parent_id as int, i, pick_others(s)));
                assert forall|i: int| 0 <= i < t0.len() implies t0[i] == want[i] by {
                    if under_child(t0, parent_id as int, i, pick_others(s)) {
                        lemma_under_child_in_range(t0, parent_id as int, i, pick_others(s));
                    }
                }
                assert(t0 =~= want);
            }
            return;
        }
        self.revoke_children_where(parent_id, Some(survivor_id), false, Ghost(pick_others(s)));
        let ghost t1 = self@;
        proof {
            assert forall|c: int| #[trigger] parent_is(t1, c, parent_id as int) && c != s implies !t1[c].active by {
                assert(parent_is(t0, c, parent_id as int));
                assert(under_child(t0, parent_id as int, c, pick_others(s)));
            }
            lemma_kept_children_wf(t1, parent_id as int, s);
            assert(in_range(t1, parent_id as int));
        }
        let ghost ch = t1[parent_id as int].children;
        let n = self.nodes[parent_id].children.len();
        let mut kept: Vec<usize> = Vec::new();
        let mut k: usize = 0;
        while k < n
            invariant
                self@ == t1,
                in_range(t1, parent_id as int),
                ch == t1[parent_id as int].children,
                s == survivor_id as int,
                n == ch.len(),
                k <= n,
                kept@ == keep_only(ch.take(k as int), s),
            decreases n - k,
        {
            assert(self@.len() == self.nodes@.len());
            assert(self@[parent_id as int] == self.nodes@[parent_id as int]@);
            assert(self.nodes@[parent_id as int].children@ == ch);
            let c = self.nodes[parent_id].children[k];
            assert(c == ch[k as int]);
            assert(ch.take(k + 1) =~= ch.take(k as int).push(c));
            proof {
                ch.take(k as int).lemma_filter_push(c, is_id(s));
            }
            assert(keep_only(ch.take(k + 1), s) == if c as int == s {
                keep_only(ch.take(k as int), s).push(c)
            } else {
                keep_only(ch.take(k as int), s)
            });
            if c == survivor_id {
                kept.push(c);
            }
            k += 1;
        }
        assert(ch.take(n as int) =~= ch);
        self.nodes[parent_id].children = kept;
        assert(t0[parent_id as int].children == ch);
        assert(self@ =~= siblings_revoked(t0, parent_id as int, s));
    }

    /// Kills the subtrees of every mutable child of `parent_id` other than
    /// `survivor_id`; shared children stay live: a read access tolerates other
    /// readers only. Unknown parents are ignored.
    pub fn revoke_mutable_siblings(&mut self, parent_id: usize, survivor_id: usize)
        requires
            old(self).wf(),
        ensures
            final(self).wf(),
            final(self)@ == mutable_siblings_revoked(old(self)@, parent_id as int, survivor_id as int),
    {
        let ghost t0 = self@;
        let ghost pick = pick_mutable_others(t0, survivor_id as int);
        if parent_id >= self.nodes.len() {
            proof {
                let want = deactivate(t0, |i: int| under_child(t0, parent_id as int, i, pick));
                assert forall|i: int| 0 <= i < t0.len() implies t0[i] == want[i] by {
                    if under_child(t0, parent_id as int, i, pick) {
                        lemma_under_child_in_range(t0, parent_id as int, i, pick);
                    }
                }
                assert(t0 =~= want);
            }
            return;
        }
        self.revoke_children_where(parent_id, Some(survivor_id), true, Ghost(pick));
    }

    /// Walks from `id` up to its root and reports whether every node on the
    /// way exists and is live.
    pub fn is_valid(&self, id: usize) -> (r: bool)
        requires
            self.wf(),
        ensures
            r == valid(self@, id as int),
    {
        let mut curr: Option<usize> = Some(id);
        loop
            invariant
                self.wf(),
                valid(self@, id as int) == match curr {
                    Some(c) => valid(self@, c as int),
                    None => true,
                },
            decreases
                match curr {
                    Some(c) => c as int + 1,
                    None => 0,
                },
        {
            match curr {
                Some(idx) => {
                    if idx >= self.nodes.len() {
                        return false;
                    }
                    if !self.nodes[idx].active {
                        return false;
                    }
                    assert(in_range(self@, idx as int));
                    curr = self.nodes[idx].parent;
                },
                None => {
                    return true;
                },
            }
        }
    }

    /// The number of nodes ever created.
    pub fn len(&self) -> (n: usize)
        ensures
            n == self@.len(),
    {
        self.nodes.len()
    }

    /// The permission node `id` was created with.
    pub fn get_perm(&self, id: usize) -> (r: Perm)
        requires
            self.wf(),
            id < self@.len(),
        ensures
            r == self@[id as int].perm,
    {
        self.nodes[id].permission
    }

    /// The parent of node `id`, `None` for a root.
    pub fn get_parent(&self, id: usize) -> (r: Option<usize>)
        requires
            self.wf(),
            id < self@.len(),
        ensures
            r == self@[id as int].parent,
    {
        self.nodes[id].parent
    }
}

/// `i` is a valid index into the forest.
pub open spec fn in_range(t: Seq<NodeModel>, i: int) -> bool {
    0 <= i < t.len()
}

/// `c` is recorded with parent `p`.
pub open spec fn parent_is(t: Seq<NodeModel>, c: int, p: int) -> bool {
    in_range(t, c) && match t[c].parent {
        Some(q) => q as int == p,
        None => false,
    }
}

/// `c` appears in the child list of `p`.
pub open spec fn lists_child(t: Seq<NodeModel>, p: int, c: int) -> bool {
    exists|k: int| 0 <= k < t[p].children.len() && #[trigger] t[p].children[k] as int == c
}

/// Well-formedness of the forest model:
/// parents precede their children, roots are mutable, every listed child
/// names its parent back, a live node is listed by its parent, and a dead
/// parent has only dead children.
pub open spec fn forest_wf(t: Seq<NodeModel>) -> bool {
    &&& forall|i: int| #[trigger] in_range(t, i) ==> match t[i].parent {
        Some(p) => p < i,
        None => t[i].perm == Perm::Mutable,
    }
    &&& forall|p: int, k: int|
        in_range(t, p) && 0 <= k < t[p].children.len() ==> parent_is(t, #[trigger] t[p].children[k] as int, p)
    &&& forall|c: int, p: int| #[trigger] parent_is(t, c, p) && t[c].active ==> lists_child(t, p, c)
    &&& forall|c: int, p: int| #[trigger] parent_is(t, c, p) && !t[p].active ==> !t[c].active
}


/// `i` is `a` itself or lies below `a`, following parent links upward from `i`.
pub open spec fn descends(t: Seq<NodeModel>, a: int, i: int) -> bool
    decreases i,
{
    in_range(t, i) && (i == a || match t[i].parent {
        Some(p) => (p as int) < i && descends(t, a, p as int),
        None => false,
    })
}

/// A node is valid when it and every node on its path to the root are live.
pub open spec fn valid(t: Seq<NodeModel>, i: int) -> bool
    decreases i,
{
    in_range(t, i) && t[i].active && match t[i].parent {
        Some(p) => (p as int) < i && valid(t, p as int),
        None => true,
    }
}

/// Some node on the path from `i` upward (`i` included) is a child `c` of `p`
/// with `pick(c)`.
pub open spec fn under_child(t: Seq<NodeModel>, p: int, i: int, pick: spec_fn(int) -> bool) -> bool
    decreases i,
{
    in_range(t, i) && match t[i].parent {
        Some(q) => (q as int == p && pick(i)) || ((q as int) < i && under_child(t, p, q as int, pick)),
        None => false,
    }
}

/// The node with its liveness bit cleared.
pub open spec fn killed(n: NodeModel) -> NodeModel {
    NodeModel { active: false, ..n }
}

/// Clears the liveness bit of every node selected by `kill`.
pub open spec fn deactivate(t: Seq<NodeModel>, kill: spec_fn(int) -> bool) -> Seq<NodeModel> {
    Seq::new(t.len(), |i: int| if kill(i) { killed(t[i]) } else { t[i] })
}

/// Replaces the child list of node `x`.
pub open spec fn with_children(t: Seq<NodeModel>, x: int, ch: Seq<usize>) -> Seq<NodeModel> {
    if in_range(t, x) {
        t.update(x, NodeModel { children: ch, ..t[x] })
    } else {
        t
    }
}

/// Selects every child.
pub open spec fn pick_all() -> spec_fn(int) -> bool {
    |c: int| true
}

/// Selects every child but `s`.
pub open spec fn pick_others(s: int) -> spec_fn(int) -> bool {
    |c: int| c != s
}

/// Selects every mutable child but `s`.
pub open spec fn pick_mutable_others(t: Seq<NodeModel>, s: int) -> spec_fn(int) -> bool {
    |c: int| c != s && t[c].perm == Perm::Mutable
}

/// The entries of `ch` equal to `s`, in order.
pub open spec fn keep_only(ch: Seq<usize>, s: int) -> Seq<usize> {
    ch.filter(is_id(s))
}

/// Holds of `s` alone.
pub open spec fn is_id(s: int) -> spec_fn(usize) -> bool {
    |c: usize| c as int == s
}

/// The forest after a new root is appended.
pub open spec fn root_added(t: Seq<NodeModel>) -> Seq<NodeModel> {
    t.push(NodeModel { parent: None, children: Seq::empty(), perm: Perm::Mutable, active: true })
}

/// The forest after a live child of `p` with permission `perm` is appended.
pub open spec fn child_added(t: Seq<NodeModel>, p: int, perm: Perm) -> Seq<NodeModel> {
    with_children(
        t.push(NodeModel { parent: Some(p as usize), children: Seq::empty(), perm, active: true }),
        p,
        t[p].children.push(t.len() as usize),
    )
}

/// The forest after node `x` and all of its descendants are killed.
pub open spec fn subtree_revoked(t: Seq<NodeModel>, x: int) -> Seq<NodeModel> {
    deactivate(t, |i: int| descends(t, x, i))
}

/// The forest after every proper descendant of `x` is killed and `x`'s child
/// list is emptied.
pub open spec fn children_revoked(t: Seq<NodeModel>, x: int) -> Seq<NodeModel> {
    with_children(deactivate(t, |i: int| under_child(t, x, i, pick_all())), x, Seq::empty())
}

/// The forest after every subtree hanging from a child of `p` other than `s`
/// is killed, and `p`'s child list is cut down to `s`.
pub open spec fn siblings_revoked(t: Seq<NodeModel>, p: int, s: int) -> Seq<NodeModel> {
    with_children(
        deactivate(t, |i: int| under_child(t, p, i, pick_others(s))),
        p,
        keep_only(t[p].children, s),
    )
}

/// The forest after every subtree hanging from a mutable child of `p` other
/// than `s` is killed; shared children are left alone.
pub open spec fn mutable_siblings_revoked(t: Seq<NodeModel>, p: int, s: int) -> Seq<NodeModel> {
    deactivate(t, |i: int| under_child(t, p, i, pick_mutable_others(t, s)))
}

/// Number of live nodes among the first `n`.
spec fn live_count(t: Seq<NodeModel>, n: int) -> nat
    decreases n,
{
    if n <= 0 {
        0
    } else {
        live_count(t, n - 1) + if t[n - 1].active { 1nat } else { 0nat }
    }
}

/// Killing one live node lowers the live count of every prefix holding it by one.
proof fn lemma_live_count_kill(t: Seq<NodeModel>, k: int, n: int)
    requires
        0 <= k < t.len(),
        t[k].active,
        0 <= n <= t.len(),
    ensures
        live_count(t.update(k, killed(t[k])), n) + (if k < n { 1int } else { 0int }) == live_count(t, n),
    decreases n,
{
    if n > 0 {
        lemma_live_count_kill(t, k, n - 1);
    }
}

/// Whatever descends from `a` lies in the forest, and so does `a`.
pub proof fn lemma_descends_in_range(t: Seq<NodeModel>, a: int, i: int)
    requires
        descends(t, a, i),
    ensures
        in_range(t, a),
    decreases i,
{
    if i != a {
        lemma_descends_in_range(t, a, t[i].parent.unwrap() as int);
    }
}

/// Two forests with the same nodes, links and permissions, differing only in
/// liveness bits.
pub open spec fn same_shape(t: Seq<NodeModel>, u: Seq<NodeModel>) -> bool {
    &&& t.len() == u.len()
    &&& forall|i: int| #[trigger] in_range(u, i) ==> {
        &&& u[i].parent == t[i].parent
        &&& u[i].children == t[i].children
        &&& u[i].perm == t[i].perm
    }
}

/// Once the work stack of a deep revocation is empty, everything below `a`
/// is dead: a node killed during the walk has only dead children, and a node
/// that was dead before had only dead descendants to begin with.
proof fn lemma_stack_empty_kills_subtree(t0: Seq<NodeModel>, t: Seq<NodeModel>, a: int, i: int)
    requires
        forest_wf(t0),
        same_shape(t0, t),
        forall|j: int| in_range(t, j) && #[trigger] t[j].active ==> t0[j].active,
        forall|x: int, k: int|
            in_range(t0, x) && t0[x].active && !t[x].active && 0 <= k < t0[x].children.len()
                ==> !t[#[trigger] t0[x].children[k] as int].active,
        in_range(t, a) ==> !t[a].active,
        descends(t0, a, i),
    ensures
        !t[i].active,
    decreases i,
{
    if i != a {
        let p = t0[i].parent.unwrap() as int;
        assert(in_range(t0, i));
        assert(parent_is(t0, i, p));
        lemma_stack_empty_kills_subtree(t0, t, a, p);
        assert(in_range(t, p));
        if t0[i].active {
            assert(t0[p].active);
            let k = choose|k: int| 0 <= k < t0[p].children.len() && #[trigger] t0[p].children[k] as int == i;
            assert(t0[p].children[k] as int == i);
        }
        assert(in_range(t, i));
    } else {
        assert(in_range(t, a));
    }
}

/// Appending a live node, a mutable root or a child of a live node, keeps the
/// forest well formed.
proof fn lemma_appended_wf(t0: Seq<NodeModel>, parent: Option<usize>, perm: Perm)
    requires
        forest_wf(t0),
        t0.len() <= usize::MAX,
        match parent {
            None => perm == Perm::Mutable,
            Some(p) => in_range(t0, p as int) && t0[p as int].active,
        },
    ensures
        forest_wf(
            match parent {
                None => root_added(t0),
                Some(p) => child_added(t0, p as int, perm),
            },
        ),
{
    let t = match parent {
        None => root_added(t0),
        Some(p) => child_added(t0, p as int, perm),
    };
    let id = t0.len() as int;
    assert forall|i: int| #[trigger] in_range(t, i) implies match t[i].parent {
        Some(p) => p < i,
        None => t[i].perm == Perm::Mutable,
    } by {
        if i < id {
            assert(in_range(t0, i));
        }
    }
    assert forall|c: int, p: int| #[trigger] parent_is(t, c, p) && t[c].active implies lists_child(t, p, c) by {
        if c == id {
            assert(t[p].children[t0[p].children.len() as int] as int == c);
        } else {
            assert(in_range(t0, c));
            assert(parent_is(t0, c, p));
            let k = choose|k: int| 0 <= k < t0[p].children.len() && #[trigger] t0[p].children[k] as int == c;
            assert(t[p].children[k] as int == c);
        }
    }
    assert forall|c: int, p: int| #[trigger] parent_is(t, c, p) && !t[p].active implies !t[c].active by {
        if c != id {
            assert(in_range(t0, c));
            assert(parent_is(t0, c, p));
        }
    }
    assert forall|p: int, k: int| in_range(t, p) && 0 <= k < t[p].children.len() implies parent_is(t, #[trigger] t[p].children[k] as int, p) by {
        if parent is Some && parent.unwrap() as int == p && k == t0[p].children.len() {
        } else {
            assert(parent_is(t0, t0[p].children[k] as int, p));
        }
    }
}

/// Killing a set of nodes that is closed under taking children keeps the
/// forest well formed.
pub proof fn lemma_deactivate_wf(t: Seq<NodeModel>, kill: spec_fn(int) -> bool)
    requires
        forest_wf(t),
        forall|c: int, p: int| #[trigger] parent_is(t, c, p) && kill(p) ==> kill(c),
    ensures
        forest_wf(deactivate(t, kill)),
{
    let u = deactivate(t, kill);
    assert forall|i: int| #[trigger] in_range(u, i) implies match u[i].parent {
        Some(p) => p < i,
        None => u[i].perm == Perm::Mutable,
    } by {
        assert(in_range(t, i));
    }
    assert forall|p: int, k: int| in_range(u, p) && 0 <= k < u[p].children.len()
        implies parent_is(u, #[trigger] u[p].children[k] as int, p) by {
        assert(in_range(t, p));
        assert(parent_is(t, t[p].children[k] as int, p));
    }
    assert forall|c: int, p: int| #[trigger] parent_is(u, c, p) && u[c].active implies lists_child(u, p, c) by {
        assert(parent_is(t, c, p));
        assert(in_range(t, c));
        assert(u[p].children == t[p].children);
    }
    assert forall|c: int, p: int| #[trigger] parent_is(u, c, p) && !u[p].active implies !u[c].active by {
        assert(parent_is(t, c, p));
        assert(in_range(t, c));
    }
}

/// Descent depends on the parent links alone.
pub proof fn lemma_same_shape_descends(t: Seq<NodeModel>, u: Seq<NodeModel>, a: int, i: int)
    requires
        same_shape(t, u),
    ensures
        descends(t, a, i) == descends(u, a, i),
    decreases i,
{
    if in_range(t, i) {
        assert(in_range(u, i));
        if i != a {
            match t[i].parent {
                Some(q) => {
                    if (q as int) < i {
                        lemma_same_shape_descends(t, u, a, q as int);
                    }
                },
                None => {},
            }
        }
    }
}

/// A node on the path below a selected child of `p` is under that child.
proof fn lemma_under_child_of_descends(t: Seq<NodeModel>, p: int, c: int, i: int, pick: spec_fn(int) -> bool)
    requires
        forest_wf(t),
        parent_is(t, c, p),
        pick(c),
        descends(t, c, i),
    ensures
        under_child(t, p, i, pick),
    decreases i,
{
    if i != c {
        let q = t[i].parent.unwrap() as int;
        lemma_under_child_of_descends(t, p, c, q, pick);
    }
}

/// The selected child of `p` that `i` lies under.
pub proof fn lemma_under_child_witness(t: Seq<NodeModel>, p: int, i: int, pick: spec_fn(int) -> bool) -> (c: int)
    requires
        under_child(t, p, i, pick),
    ensures
        parent_is(t, c, p),
        pick(c),
        descends(t, c, i),
    decreases i,
{
    let q = t[i].parent.unwrap() as int;
    if q == p && pick(i) {
        i
    } else {
        let c = lemma_under_child_witness(t, p, q, pick);
        c
    }
}

/// In a well-formed forest every ancestor of a live node is live.
pub proof fn lemma_live_ancestor(t: Seq<NodeModel>, a: int, i: int)
    requires
        forest_wf(t),
        descends(t, a, i),
        t[i].active,
    ensures
        t[a].active,
    decreases i,
{
    if i != a {
        let q = t[i].parent.unwrap() as int;
        assert(parent_is(t, i, q));
        lemma_live_ancestor(t, a, q);
    }
}

/// `i` lies below one of the first `k` listed children of `p` that `pick` selects.
spec fn below_listed(t: Seq<NodeModel>, p: int, k: int, pick: spec_fn(int) -> bool, i: int) -> bool
    decreases k,
{
    if k <= 0 {
        false
    } else {
        below_listed(t, p, k - 1, pick, i) || (pick(t[p].children[k - 1] as int) && descends(
            t,
            t[p].children[k - 1] as int,
            i,
        ))
    }
}

proof fn lemma_below_listed_intro(t: Seq<NodeModel>, p: int, k: int, pick: spec_fn(int) -> bool, i: int, j: int)
    requires
        0 <= j < k,
        pick(t[p].children[j] as int),
        descends(t, t[p].children[j] as int, i),
    ensures
        below_listed(t, p, k, pick, i),
    decreases k,
{
    if j < k - 1 {
        lemma_below_listed_intro(t, p, k - 1, pick, i, j);
    }
}

proof fn lemma_below_listed_elim(t: Seq<NodeModel>, p: int, k: int, pick: spec_fn(int) -> bool, i: int)
    requires
        forest_wf(t),
        in_range(t, p),
        k <= t[p].children.len(),
        below_listed(t, p, k, pick, i),
    ensures
        under_child(t, p, i, pick),
    decreases k,
{
    if below_listed(t, p, k - 1, pick, i) {
        lemma_below_listed_elim(t, p, k - 1, pick, i);
    } else {
        let c = t[p].children[k - 1] as int;
        assert(parent_is(t, c, p));
        lemma_under_child_of_descends(t, p, c, i, pick);
    }
}

/// For a live node, lying below a selected listed child of `p` is the same as
/// lying below a selected child of `p`.
proof fn lemma_below_listed_iff(t: Seq<NodeModel>, p: int, pick: spec_fn(int) -> bool, i: int)
    requires
        forest_wf(t),
        in_range(t, p),
        t[i].active,
    ensures
        below_listed(t, p, t[p].children.len() as int, pick, i) == under_child(t, p, i, pick),
{
    if under_child(t, p, i, pick) {
        let c = lemma_under_child_witness(t, p, i, pick);
        lemma_live_ancestor(t, c, i);
        let j = choose|j: int| 0 <= j < t[p].children.len() && #[trigger] t[p].children[j] as int == c;
        lemma_below_listed_intro(t, p, t[p].children.len() as int, pick, i, j);
    }
    if below_listed(t, p, t[p].children.len() as int, pick, i) {
        lemma_below_listed_elim(t, p, t[p].children.len() as int, pick, i);
    }
}

/// Only nodes below an existing node can be below one of its children.
proof fn lemma_under_child_in_range(t: Seq<NodeModel>, p: int, i: int, pick: spec_fn(int) -> bool)
    requires
        forest_wf(t),
        under_child(t, p, i, pick),
    ensures
        in_range(t, p),
{
    let c = lemma_under_child_witness(t, p, i, pick);
    assert(in_range(t, c));
}

/// Emptying the child list of `x` keeps the forest well formed once every
/// child of `x` is dead.
proof fn lemma_cleared_children_wf(t: Seq<NodeModel>, x: int)
    requires
        forest_wf(t),
        in_range(t, x),
        forall|c: int| #[trigger] parent_is(t, c, x) ==> !t[c].active,
    ensures
        forest_wf(with_children(t, x, Seq::empty())),
{
    let u = with_children(t, x, Seq::empty());
    assert forall|i: int| #[trigger] in_range(u, i) implies match u[i].parent {
        Some(p) => p < i,
        None => u[i].perm == Perm::Mutable,
    } by {
        assert(in_range(t, i));
    }
    assert forall|p: int, k: int| in_range(u, p) && 0 <= k < u[p].children.len()
        implies parent_is(u, #[trigger] u[p].children[k] as int, p) by {
        assert(parent_is(t, t[p].children[k] as int, p));
    }
    assert forall|c: int, p: int| #[trigger] parent_is(u, c, p) && u[c].active implies lists_child(u, p, c) by {
        assert(parent_is(t, c, p));
        let j = choose|j: int| 0 <= j < t[p].children.len() && #[trigger] t[p].children[j] as int == c;
        assert(u[p].children[j] as int == c);
    }
    assert forall|c: int, p: int| #[trigger] parent_is(u, c, p) && !u[p].active implies !u[c].active by {
        assert(parent_is(t, c, p));
    }
}

/// Cutting the child list of `p` down to `s` keeps the forest well formed
/// once every other child of `p` is dead.
proof fn lemma_kept_children_wf(t: Seq<NodeModel>, p0: int, s: int)
    requires
        forest_wf(t),
        in_range(t, p0),
        forall|c: int| #[trigger] parent_is(t, c, p0) && c != s ==> !t[c].active,
    ensures
        forest_wf(with_children(t, p0, keep_only(t[p0].children, s))),
{
    let ch = t[p0].children;
    let f = is_id(s);
    let kept = keep_only(ch, s);
    let u = with_children(t, p0, kept);
    assert forall|i: int| #[trigger] in_range(u, i) implies match u[i].parent {
        Some(p) => p < i,
        None => u[i].perm == Perm::Mutable,
    } by {
        assert(in_range(t, i));
    }
    assert forall|p: int, k: int| in_range(u, p) && 0 <= k < u[p].children.len()
        implies parent_is(u, #[trigger] u[p].children[k] as int, p) by {
        if p == p0 {
            ch.lemma_filter_pred(f, k);
            assert(kept.contains(kept[k]));
            ch.lemma_filter_contains_rev(f, kept[k]);
            let j = choose|j: int| 0 <= j < ch.len() && ch[j] == kept[k];
            assert(parent_is(t, ch[j] as int, p));
        } else {
            assert(parent_is(t, t[p].children[k] as int, p));
        }
    }
    assert forall|c: int, p: int| #[trigger] parent_is(u, c, p) && u[c].active implies lists_child(u, p, c) by {
        assert(parent_is(t, c, p));
        let j = choose|j: int| 0 <= j < t[p].children.len() && #[trigger] t[p].children[j] as int == c;
        if p == p0 {
            ch.lemma_filter_contains(f, j);
            let m = choose|m: int| 0 <= m < kept.len() && kept[m] == ch[j];
            assert(u[p].children[m] as int == c);
        } else {
            assert(u[p].children[j] as int == c);
        }
    }
    assert forall|c: int, p: int| #[trigger] parent_is(u, c, p) && !u[p].active implies !u[c].active by {
        assert(parent_is(t, c, p));
    }
}

/// No node that was dead in `t` is live in `u`, and `u` keeps every node of `t`.
pub open spec fn no_revival(t: Seq<NodeModel>, u: Seq<NodeModel>) -> bool {
    &&& t.len() <= u.len()
    &&& forall|i: int| in_range(t, i) && !t[i].active ==> !#[trigger] u[i].active
}

/// Descent is transitive.
pub proof fn lemma_descends_trans(t: Seq<NodeModel>, a: int, b: int, i: int)
    requires
        descends(t, a, b),
        descends(t, b, i),
    ensures
        descends(t, a, i),
    decreases i,
{
    if i != b {
        lemma_descends_trans(t, a, b, t[i].parent.unwrap() as int);
    }
}

/// An ancestor never has a larger id than its descendant.
pub proof fn lemma_descends_le(t: Seq<NodeModel>, a: int, i: int)
    requires
        descends(t, a, i),
    ensures
        a <= i,
    decreases i,
{
    if i != a {
        lemma_descends_le(t, a, t[i].parent.unwrap() as int);
    }
}

/// Whatever lies under a child of `p` lies below `p`, strictly.
pub proof fn lemma_under_child_descends(t: Seq<NodeModel>, p: int, i: int, pick: spec_fn(int) -> bool)
    requires
        forest_wf(t),
        under_child(t, p, i, pick),
    ensures
        descends(t, p, i),
        p < i,
{
    let c = lemma_under_child_witness(t, p, i, pick);
    assert(in_range(t, c));
    assert(in_range(t, p));
    assert(descends(t, p, p));
    assert(descends(t, p, c));
    lemma_descends_trans(t, p, c, i);
    lemma_descends_le(t, c, i);
}

/// Validity carries over to a forest with the same links in which every
/// ancestor of `j` that was live stays live.
pub proof fn lemma_valid_transfer(t: Seq<NodeModel>, u: Seq<NodeModel>, j: int)
    requires
        t.len() == u.len(),
        forall|i: int| in_range(t, i) ==> #[trigger] u[i].parent == t[i].parent,
        forall|a: int| #[trigger] descends(t, a, j) && t[a].active ==> u[a].active,
        valid(t, j),
    ensures
        valid(u, j),
    decreases j,
{
    assert(descends(t, j, j));
    assert(in_range(t, j));
    match t[j].parent {
        Some(q) => {
            let q = q as int;
            assert forall|a: int| #[trigger] descends(t, a, q) && t[a].active implies u[a].active by {
                assert(descends(t, a, j));
            }
            lemma_valid_transfer(t, u, q);
        },
        None => {},
    }
}

/// Transitive death: in a well-formed forest, everything below a dead node
/// is dead.
pub proof fn lemma_transitive_death(t: Seq<NodeModel>, a: int, i: int)
    requires
        forest_wf(t),
        descends(t, a, i),
        !t[a].active,
    ensures
        !t[i].active,
{
    if t[i].active {
        lemma_live_ancestor(t, a, i);
    }
}

/// Deep revocation is idempotent: revoking the same subtree twice leaves the
/// forest as revoking it once.
pub proof fn lemma_deep_revoke_idempotent(t: Seq<NodeModel>, x: int)
    ensures
        subtree_revoked(subtree_revoked(t, x), x) == subtree_revoked(t, x),
{
    let u = subtree_revoked(t, x);
    assert forall|i: int| 0 <= i < u.len() implies subtree_revoked(u, x)[i] == u[i] by {
        assert(same_shape(t, u));
        lemma_same_shape_descends(t, u, x, i);
        assert(subtree_revoked(u, x)[i] =~= u[i]);
    }
    assert(subtree_revoked(u, x) =~= u);
}

} // verus!
