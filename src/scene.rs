use vstd::prelude::*;

verus! {

/// One node of a scene graph: its place in the hierarchy and its update flags.
///
/// The transforms themselves (position, rotation, scale and the local and world
/// matrices) are kept by the caller, indexed by the node's handle; this record
/// decides which of them must be recomputed and in what order.
pub struct Object3D {
    pub parent: Option<usize>,
    pub children: Vec<usize>,
    pub matrix_world_needs_update: bool,
    pub matrix_auto_update: bool,
    pub visible: bool,
}

impl Object3D {
    /// A fresh node: no parent, no children, automatic local updates, visible.
    pub fn next() -> (r: Object3D)
        ensures
            r.parent is None,
            r.children@.len() == 0,
            !r.matrix_world_needs_update,
            r.matrix_auto_update,
            r.visible,
    {
        Object3D {
            parent: None,
            children: Vec::new(),
            matrix_world_needs_update: false,
            matrix_auto_update: true,
            visible: true,
        }
    }
}

/// A forest of nodes held in one arena, addressed by `usize` handles.
///
/// Every node has at most one parent, appears in exactly the children list of
/// that parent, and the parent links never form a cycle. Acyclicity is carried
/// by a ghost rank that strictly grows from a parent to each of its children.
pub struct Scene {
    nodes: Vec<Object3D>,
    rank: Ghost<Seq<nat>>,
    bound: Ghost<nat>,
}

/// `s` with the element at the position of `v` taken out.
pub open spec fn without(s: Seq<usize>, v: usize) -> Seq<usize> {
    s.remove(s.index_of(v))
}

proof fn lemma_without(s: Seq<usize>, v: usize, k: int)
    requires
        s.no_duplicates(),
        0 <= k < s.len(),
        s[k] == v,
    ensures
        without(s, v) == s.remove(k),
        without(s, v).no_duplicates(),
        without(s, v).len() == s.len() - 1,
        forall|x: usize| #[trigger] without(s, v).contains(x) == (s.contains(x) && x != v),
{
    let t = s.remove(k);
    s.remove_ensures(k);
    assert(s.index_of(v) == k);
    assert forall|x: usize| #[trigger] t.contains(x) == (s.contains(x) && x != v) by {
        if t.contains(x) {
            let m = choose|m: int| 0 <= m < t.len() && t[m] == x;
            if m < k {
                assert(s[m] == x);
            } else {
                assert(s[m + 1] == x);
            }
        }
        if s.contains(x) && x != v {
            let m = choose|m: int| 0 <= m < s.len() && s[m] == x;
            if m < k {
                assert(t[m] == x);
            } else {
                assert(m != k);
                assert(t[m - 1] == x);
            }
        }
    }
    assert forall|a: int, b: int| 0 <= a < t.len() && 0 <= b < t.len() && a != b implies t[a]
        != t[b] by {
        let a1 = if a < k { a } else { a + 1 };
        let b1 = if b < k { b } else { b + 1 };
        assert(t[a] == s[a1]);
        assert(t[b] == s[b1]);
    }
}

/// The position of `x` in `v`.
fn position(v: &Vec<usize>, x: usize) -> (k: usize)
    requires
        v@.contains(x),
    ensures
        k < v@.len(),
        v@[k as int] == x,
{
    let mut k: usize = 0;
    while v[k] != x
        invariant
            k < v.len(),
            exists|m: int| k <= m < v.len() && v@[m] == x,
        decreases v@.len() - k,
    {
        proof {
            let m = choose|m: int| k <= m < v.len() && v@[m] == x;
            assert(m != k);
        }
        k = k + 1;
    }
    k
}

proof fn lemma_concat_no_duplicates(a1: Seq<usize>, a2: Seq<usize>, b1: Seq<usize>, b2: Seq<usize>)
    requires
        a1.no_duplicates(),
        a2.no_duplicates(),
        (b1 + b2).no_duplicates(),
        forall|x: usize| #[trigger] a1.contains(x) ==> b1.contains(x),
        forall|x: usize| #[trigger] a2.contains(x) ==> b2.contains(x),
    ensures
        (a1 + a2).no_duplicates(),
{
    let a = a1 + a2;
    let b = b1 + b2;
    assert forall|u: int, v: int| 0 <= u < a.len() && 0 <= v < a.len() && u != v implies a[u]
        != a[v] by {
        if u < a1.len() && v >= a1.len() || v < a1.len() && u >= a1.len() {
            let (s, t) = if u < v { (u, v) } else { (v, u) };
            let x = a1[s];
            if x == a2[t - a1.len()] {
                assert(a1.contains(x));
                assert(a2.contains(x));
                let j1 = choose|j: int| 0 <= j < b1.len() && b1[j] == x;
                let j2 = choose|j: int| 0 <= j < b2.len() && b2[j] == x;
                assert(b[j1] == x);
                assert(b[b1.len() + j2] == x);
            }
        } else if u >= a1.len() {
            assert(a[u] == a2[u - a1.len()]);
            assert(a[v] == a2[v - a1.len()]);
        }
    }
}

impl Scene {
    /// Number of nodes in the arena.
    pub closed spec fn len(self) -> nat {
        self.nodes@.len()
    }

    pub closed spec fn parent_of(self, i: usize) -> Option<usize> {
        self.nodes@[i as int].parent
    }

    pub closed spec fn children_of(self, i: usize) -> Seq<usize> {
        self.nodes@[i as int].children@
    }

    pub closed spec fn needs_update(self, i: usize) -> bool {
        self.nodes@[i as int].matrix_world_needs_update
    }

    pub closed spec fn auto_update(self, i: usize) -> bool {
        self.nodes@[i as int].matrix_auto_update
    }

    pub closed spec fn is_visible(self, i: usize) -> bool {
        self.nodes@[i as int].visible
    }

    pub closed spec fn rank_of(self, i: usize) -> nat {
        self.rank@[i as int]
    }

    pub closed spec fn bound(self) -> nat {
        self.bound@
    }

    /// Whether `i` is the handle of a node of this scene.
    pub open spec fn valid(self, i: usize) -> bool {
        i < self.len()
    }

    /// The links of node `i` agree with the rest of the arena.
    pub open spec fn node_wf(self, i: usize) -> bool {
        &&& self.rank_of(i) < self.bound()
        &&& match self.parent_of(i) {
            Some(p) => {
                &&& self.valid(p)
                &&& self.rank_of(p) < self.rank_of(i)
                &&& self.children_of(p).contains(i)
            },
            None => true,
        }
        &&& self.children_of(i).no_duplicates()
        &&& forall|k: int|
            0 <= k < self.children_of(i).len() ==> {
                &&& self.valid(#[trigger] self.children_of(i)[k])
                &&& self.parent_of(self.children_of(i)[k]) == Some(i)
            }
    }

    pub closed spec fn wf(self) -> bool {
        &&& self.rank@.len() == self.nodes@.len()
        &&& self.bound@ > 0
        &&& forall|i: usize| #[trigger] self.valid(i) ==> self.node_wf(i)
    }

    /// The ancestors of `i`, nearest first, up to and including its root.
    pub open spec fn ancestors(self, i: usize) -> Seq<usize>
        decreases self.rank_of(i),
    {
        match self.parent_of(i) {
            Some(p) => if self.rank_of(p) < self.rank_of(i) {
                seq![p] + self.ancestors(p)
            } else {
                seq![]
            },
            None => seq![],
        }
    }

    /// Whether `x` lies in the subtree rooted at `root` (`root` itself included).
    pub open spec fn in_subtree(self, x: usize, root: usize) -> bool {
        x == root || self.ancestors(x).contains(root)
    }

    /// Whether `x` lies in the subtree of `root` with `x` and every node on the
    /// path up from `x` to `root` visible.
    pub open spec fn shown_from(self, x: usize, root: usize) -> bool
        decreases self.rank_of(x),
    {
        if !self.is_visible(x) {
            false
        } else if x == root {
            true
        } else {
            match self.parent_of(x) {
                Some(p) => if self.rank_of(p) < self.rank_of(x) {
                    self.shown_from(p, root)
                } else {
                    false
                },
                None => false,
            }
        }
    }

    /// The nodes of the subtree rooted at `i`, in depth-first preorder.
    pub open spec fn preorder(self, i: usize) -> Seq<usize>
        decreases self.bound() - self.rank_of(i), self.children_of(i).len() + 1,
    {
        seq![i] + self.preorder_from(i, 0)
    }

    /// The preorders of the children of `p` from the `k`-th on, one after another.
    pub open spec fn preorder_from(self, p: usize, k: nat) -> Seq<usize>
        decreases self.bound() - self.rank_of(p), self.children_of(p).len() - k,
    {
        if k < self.children_of(p).len() {
            let c = self.children_of(p)[k as int];
            if self.rank_of(p) < self.rank_of(c) && self.rank_of(c) < self.bound() {
                self.preorder(c) + self.preorder_from(p, k + 1)
            } else {
                seq![]
            }
        } else {
            seq![]
        }
    }

    /// Like `preorder`, with every subtree under an invisible node left out.
    pub open spec fn visible_preorder(self, i: usize) -> Seq<usize>
        decreases self.bound() - self.rank_of(i), self.children_of(i).len() + 1,
    {
        if self.is_visible(i) {
            seq![i] + self.visible_preorder_from(i, 0)
        } else {
            seq![]
        }
    }

    pub open spec fn visible_preorder_from(self, p: usize, k: nat) -> Seq<usize>
        decreases self.bound() - self.rank_of(p), self.children_of(p).len() - k,
    {
        if k < self.children_of(p).len() {
            let c = self.children_of(p)[k as int];
            if self.rank_of(p) < self.rank_of(c) && self.rank_of(c) < self.bound() {
                self.visible_preorder(c) + self.visible_preorder_from(p, k + 1)
            } else {
                seq![]
            }
        } else {
            seq![]
        }
    }

    /// Whether an update pass reaching `i` recomputes its world matrix: it is
    /// forced, or the node is marked stale, or its local matrix is recomposed
    /// (which marks it stale) because automatic updates are on.
    pub open spec fn recomputes(self, i: usize, force: bool) -> bool {
        force || self.needs_update(i) || self.auto_update(i)
    }

    /// The nodes whose world matrix an update pass from `i` recomputes, in the
    /// order it recomputes them.
    pub open spec fn update_plan(self, i: usize, force: bool) -> Seq<usize>
        decreases self.bound() - self.rank_of(i), self.children_of(i).len() + 1,
    {
        let r = self.recomputes(i, force);
        (if r {
            seq![i]
        } else {
            seq![]
        }) + self.update_plan_from(i, 0, r)
    }

    pub open spec fn update_plan_from(self, p: usize, k: nat, force: bool) -> Seq<usize>
        decreases self.bound() - self.rank_of(p), self.children_of(p).len() - k,
    {
        if k < self.children_of(p).len() {
            let c = self.children_of(p)[k as int];
            if self.rank_of(p) < self.rank_of(c) && self.rank_of(c) < self.bound() {
                self.update_plan(c, force) + self.update_plan_from(p, k + 1, force)
            } else {
                seq![]
            }
        } else {
            seq![]
        }
    }

    /// An empty scene.
    pub fn new() -> (r: Scene)
        ensures
            r.wf(),
            r.len() == 0,
    {
        Scene { nodes: Vec::new(), rank: Ghost(Seq::empty()), bound: Ghost(1) }
    }

    /// Number of nodes in the arena.
    pub fn node_count(&self) -> (r: usize)
        ensures
            r == self.len(),
    {
        self.nodes.len()
    }

    /// Adds a fresh root node (see `Object3D::next`) and returns its handle.
    pub fn next(&mut self) -> (id: usize)
        requires
            old(self).wf(),
            old(self).len() < usize::MAX,
        ensures
            final(self).wf(),
            id == old(self).len(),
            final(self).len() == old(self).len() + 1,
            final(self).parent_of(id) is None,
            final(self).children_of(id).len() == 0,
            !final(self).needs_update(id),
            final(self).auto_update(id),
            final(self).is_visible(id),
            forall|i: usize| #[trigger]
                old(self).valid(i) ==> final(self).same_node(*old(self), i),
    {
        let id = self.nodes.len();
        self.nodes.push(Object3D::next());
        self.rank = Ghost(self.rank@.push(0));
        proof {
            assert forall|i: usize| #[trigger] self.valid(i) implies self.node_wf(i) by {
                if i < id {
                    assert(old(self).valid(i));
                    assert(old(self).node_wf(i));
                    assert(self.nodes@[i as int] == old(self).nodes@[i as int]);
                    assert forall|k: int| 0 <= k < self.children_of(i).len() implies {
                        &&& self.valid(#[trigger] self.children_of(i)[k])
                        &&& self.parent_of(self.children_of(i)[k]) == Some(i)
                    } by {
                        let c = self.children_of(i)[k];
                        assert(old(self).valid(c));
                        assert(self.nodes@[c as int] == old(self).nodes@[c as int]);
                    }
                    if let Some(p) = self.parent_of(i) {
                        assert(self.nodes@[p as int] == old(self).nodes@[p as int]);
                    }
                }
            }
        }
        id
    }

    /// Under well-formedness the guards of the recursive definitions hold for
    /// every child of `p`.
    pub proof fn lemma_child(self, p: usize, k: int)
        requires
            self.wf(),
            self.valid(p),
            0 <= k < self.children_of(p).len(),
        ensures
            self.valid(self.children_of(p)[k]),
            self.parent_of(self.children_of(p)[k]) == Some(p),
            self.rank_of(p) < self.rank_of(self.children_of(p)[k]),
            self.rank_of(self.children_of(p)[k]) < self.bound(),
    {
        assert(self.node_wf(p));
        let c = self.children_of(p)[k];
        assert(self.valid(c));
        assert(self.node_wf(c));
    }

    /// The handles of the ancestors of `i`, nearest first.
    pub fn traverse_ancestors(&self, i: usize) -> (r: Vec<usize>)
        requires
            self.wf(),
            self.valid(i),
        ensures
            r@ == self.ancestors(i),
            !r@.contains(i),
            r@.no_duplicates(),
            r@.len() > 0 <==> self.parent_of(i) is Some,
            r@.len() > 0 ==> r@[0] == self.parent_of(i)->0,
            forall|j: int|
                0 <= j < r@.len() ==> {
                    &&& self.valid(#[trigger] r@[j])
                    &&& self.parent_of(r@[j]) == (if j + 1 < r@.len() {
                        Some(r@[j + 1])
                    } else {
                        None
                    })
                },
    {
        let mut r: Vec<usize> = Vec::new();
        let mut cur = i;
        loop
            invariant
                self.wf(),
                self.valid(i),
                self.valid(cur),
                r@ + self.ancestors(cur) == self.ancestors(i),
            decreases self.rank_of(cur),
        {
            match self.nodes[cur].parent {
                Some(p) => {
                    proof {
                        assert(self.node_wf(cur));
                        assert(self.ancestors(cur) == seq![p] + self.ancestors(p));
                        assert(r@.push(p) + self.ancestors(p) =~= r@ + self.ancestors(cur));
                    }
                    r.push(p);
                    cur = p;
                },
                None => {
                    proof {
                        assert(r@ + self.ancestors(cur) =~= r@);
                        self.lemma_ancestor_chain(i);
                        let a = self.ancestors(i);
                        if a.contains(i) {
                            let j = choose|j: int| 0 <= j < a.len() && a[j] == i;
                            assert(self.rank_of(a[j]) < self.rank_of(i));
                        }
                    }
                    return r;
                },
            }
        }
    }

    /// Whether `x` lies in the subtree rooted at `root`, `root` included.
    pub fn is_in_subtree(&self, x: usize, root: usize) -> (r: bool)
        requires
            self.wf(),
            self.valid(x),
        ensures
            r == self.in_subtree(x, root),
    {
        let mut cur = x;
        while cur != root
            invariant
                self.wf(),
                self.valid(cur),
                self.in_subtree(x, root) == self.in_subtree(cur, root),
            decreases self.rank_of(cur),
        {
            match self.nodes[cur].parent {
                Some(p) => {
                    proof {
                        assert(self.node_wf(cur));
                        assert(self.ancestors(cur) == seq![p] + self.ancestors(p));
                        let a = self.ancestors(cur);
                        let b = self.ancestors(p);
                        if self.ancestors(p).contains(root) {
                            let j = choose|j: int| 0 <= j < b.len() && b[j] == root;
                            assert(a[j + 1] == root);
                            assert(a.contains(root));
                        }
                        if p == root {
                            assert(a[0] == root);
                            assert(a.contains(root));
                        }
                        if a.contains(root) && p != root {
                            let j = choose|j: int| 0 <= j < a.len() && a[j] == root;
                            assert(b[j - 1] == root);
                            assert(b.contains(root));
                        }
                    }
                    cur = p;
                },
                None => {
                    return false;
                },
            }
        }
        true
    }

    fn traverse_into(&self, i: usize, out: &mut Vec<usize>)
        requires
            self.wf(),
            self.valid(i),
        ensures
            final(out)@ == old(out)@ + self.preorder(i),
        decreases self.bound() - self.rank_of(i), self.children_of(i).len() + 1,
    {
        out.push(i);
        let n = self.nodes[i].children.len();
        let mut k: usize = 0;
        proof {
            assert(out@ + self.preorder_from(i, 0) =~= old(out)@ + self.preorder(i));
        }
        while k < n
            invariant
                self.wf(),
                self.valid(i),
                n == self.children_of(i).len(),
                k <= n,
                out@ + self.preorder_from(i, k as nat) == old(out)@ + self.preorder(i),
            decreases n - k,
        {
            let c = self.nodes[i].children[k];
            proof {
                self.lemma_child(i, k as int);
            }
            let ghost before = out@;
            self.traverse_into(c, out);
            proof {
                assert(out@ + self.preorder_from(i, (k + 1) as nat) =~= before
                    + self.preorder_from(i, k as nat));
            }
            k = k + 1;
        }
        proof {
            assert(out@ + self.preorder_from(i, k as nat) =~= out@);
        }
    }

    /// The handles of the subtree rooted at `i`, in depth-first preorder.
    pub fn traverse(&self, i: usize) -> (r: Vec<usize>)
        requires
            self.wf(),
            self.valid(i),
        ensures
            r@ == self.preorder(i),
            r@.no_duplicates(),
            forall|x: usize| #[trigger] r@.contains(x) ==> self.valid(x),
            forall|x: usize|
                self.valid(x) ==> (#[trigger] r@.contains(x) <==> self.in_subtree(x, i)),
    {
        let mut r: Vec<usize> = Vec::new();
        self.traverse_into(i, &mut r);
        proof {
            assert(r@ =~= self.preorder(i));
            self.lemma_preorder_sound(i);
            self.lemma_preorder_valid(i);
            assert forall|x: usize|
                self.valid(x) implies (#[trigger] r@.contains(x) <==> self.in_subtree(x, i)) by {
                if self.in_subtree(x, i) {
                    self.lemma_preorder_covers(i, x);
                }
            }
        }
        r
    }

    fn traverse_visible_into(&self, i: usize, out: &mut Vec<usize>)
        requires
            self.wf(),
            self.valid(i),
        ensures
            final(out)@ == old(out)@ + self.visible_preorder(i),
        decreases self.bound() - self.rank_of(i), self.children_of(i).len() + 1,
    {
        if !self.nodes[i].visible {
            assert(old(out)@ + self.visible_preorder(i) =~= old(out)@);
            return;
        }
        out.push(i);
        let n = self.nodes[i].children.len();
        let mut k: usize = 0;
        proof {
            assert(out@ + self.visible_preorder_from(i, 0) =~= old(out)@ + self.visible_preorder(
                i,
            ));
        }
        while k < n
            invariant
                self.wf(),
                self.valid(i),
                n == self.children_of(i).len(),
                k <= n,
                out@ + self.visible_preorder_from(i, k as nat) == old(out)@
                    + self.visible_preorder(i),
            decreases n - k,
        {
            let c = self.nodes[i].children[k];
            proof {
                self.lemma_child(i, k as int);
            }
            let ghost before = out@;
            self.traverse_visible_into(c, out);
            proof {
                assert(out@ + self.visible_preorder_from(i, (k + 1) as nat) =~= before
                    + self.visible_preorder_from(i, k as nat));
            }
            k = k + 1;
        }
        proof {
            assert(out@ + self.visible_preorder_from(i, k as nat) =~= out@);
        }
    }

    /// The handles of the visible part of the subtree rooted at `i`, in
    /// depth-first preorder: an invisible node hides its whole subtree.
    pub fn traverse_visible(&self, i: usize) -> (r: Vec<usize>)
        requires
            self.wf(),
            self.valid(i),
        ensures
            r@ == self.visible_preorder(i),
            forall|x: usize| #[trigger] r@.contains(x) ==> self.valid(x),
            forall|x: usize|
                self.valid(x) ==> (#[trigger] r@.contains(x) <==> self.shown_from(x, i)),
    {
        let mut r: Vec<usize> = Vec::new();
        self.traverse_visible_into(i, &mut r);
        proof {
            assert(r@ =~= self.visible_preorder(i));
            self.lemma_visible_sound(i);
            assert forall|x: usize|
                self.valid(x) implies (#[trigger] r@.contains(x) <==> self.shown_from(x, i)) by {
                if self.shown_from(x, i) {
                    self.lemma_visible_covers(i, x);
                }
            }
        }
        r
    }

    /// Well-formedness depends on the links and the ranks alone.
    proof fn lemma_same_links(self, other: Scene)
        requires
            other.wf(),
            self.nodes@.len() == other.nodes@.len(),
            self.rank == other.rank,
            self.bound == other.bound,
            forall|j: usize|
                #![trigger self.valid(j)]
                self.valid(j) ==> self.parent_of(j) == other.parent_of(j) && self.children_of(j)
                    == other.children_of(j),
        ensures
            self.wf(),
    {
        assert forall|i: usize| #[trigger] self.valid(i) implies self.node_wf(i) by {
            assert(other.valid(i));
            assert(other.node_wf(i));
            if let Some(p) = self.parent_of(i) {
                assert(self.valid(p));
            }
            assert forall|k: int| 0 <= k < self.children_of(i).len() implies {
                &&& self.valid(#[trigger] self.children_of(i)[k])
                &&& self.parent_of(self.children_of(i)[k]) == Some(i)
            } by {
                assert(self.valid(self.children_of(i)[k]));
            }
        }
    }

    /// Rewrites the three flags of node `x`, leaving every link as it was.
    fn set_flags(&mut self, x: usize, needs_update: bool, auto_update: bool, visible: bool)
        requires
            old(self).wf(),
            old(self).valid(x),
        ensures
            final(self).wf(),
            final(self).len() == old(self).len(),
            final(self).rank == old(self).rank,
            final(self).bound == old(self).bound,
            final(self).parent_of(x) == old(self).parent_of(x),
            final(self).children_of(x) == old(self).children_of(x),
            final(self).needs_update(x) == needs_update,
            final(self).auto_update(x) == auto_update,
            final(self).is_visible(x) == visible,
            forall|j: usize|
                old(self).valid(j) && j != x ==> #[trigger] final(self).same_node(*old(self), j),
    {
        let mut node = Object3D::next();
        self.nodes.set_and_swap(x, &mut node);
        node.matrix_world_needs_update = needs_update;
        node.matrix_auto_update = auto_update;
        node.visible = visible;
        self.nodes.set_and_swap(x, &mut node);
        proof {
            assert forall|j: usize| old(self).valid(j) && j != x implies #[trigger] self.same_node(
                *old(self),
                j,
            ) by {
                assert(self.nodes@[j as int] == old(self).nodes@[j as int]);
            }
            assert forall|j: usize| #![trigger self.valid(j)] self.valid(j) implies self.parent_of(j)
                == old(self).parent_of(j) && self.children_of(j) == old(self).children_of(j) by {
                if j != x {
                    assert(self.same_node(*old(self), j));
                }
            }
            self.lemma_same_links(*old(self));
        }
    }

    /// Shows or hides node `x` (and with it, for `traverse_visible`, its subtree).
    pub fn set_visible(&mut self, x: usize, visible: bool)
        requires
            old(self).wf(),
            old(self).valid(x),
        ensures
            final(self).wf(),
            final(self).len() == old(self).len(),
            final(self).is_visible(x) == visible,
            final(self).parent_of(x) == old(self).parent_of(x),
            final(self).children_of(x) == old(self).children_of(x),
            final(self).needs_update(x) == old(self).needs_update(x),
            final(self).auto_update(x) == old(self).auto_update(x),
            forall|j: usize|
                old(self).valid(j) && j != x ==> #[trigger] final(self).same_node(*old(self), j),
    {
        let n = &self.nodes[x];
        let (d, a) = (n.matrix_world_needs_update, n.matrix_auto_update);
        self.set_flags(x, d, a, visible);
    }

    /// Turns automatic recomposition of the local matrix of `x` on or off; with
    /// it off the caller may set that matrix by hand.
    pub fn set_matrix_auto_update(&mut self, x: usize, auto_update: bool)
        requires
            old(self).wf(),
            old(self).valid(x),
        ensures
            final(self).wf(),
            final(self).len() == old(self).len(),
            final(self).auto_update(x) == auto_update,
            final(self).parent_of(x) == old(self).parent_of(x),
            final(self).children_of(x) == old(self).children_of(x),
            final(self).needs_update(x) == old(self).needs_update(x),
            final(self).is_visible(x) == old(self).is_visible(x),
            forall|j: usize|
                old(self).valid(j) && j != x ==> #[trigger] final(self).same_node(*old(self), j),
    {
        let n = &self.nodes[x];
        let (d, v) = (n.matrix_world_needs_update, n.visible);
        self.set_flags(x, d, auto_update, v);
    }

    /// Records that the local matrix of `x` has been recomposed: its world
    /// matrix is now stale.
    pub fn update_matrix(&mut self, x: usize)
        requires
            old(self).wf(),
            old(self).valid(x),
        ensures
            final(self).wf(),
            final(self).len() == old(self).len(),
            final(self).needs_update(x),
            final(self).parent_of(x) == old(self).parent_of(x),
            final(self).children_of(x) == old(self).children_of(x),
            final(self).auto_update(x) == old(self).auto_update(x),
            final(self).is_visible(x) == old(self).is_visible(x),
            forall|j: usize|
                old(self).valid(j) && j != x ==> #[trigger] final(self).same_node(*old(self), j),
    {
        let n = &self.nodes[x];
        let (a, v) = (n.matrix_auto_update, n.visible);
        self.set_flags(x, true, a, v);
    }

    fn plan_into(&self, i: usize, force: bool, out: &mut Vec<usize>)
        requires
            self.wf(),
            self.valid(i),
        ensures
            final(out)@ == old(out)@ + self.update_plan(i, force),
        decreases self.bound() - self.rank_of(i), self.children_of(i).len() + 1,
    {
        let n = &self.nodes[i];
        let r = force || n.matrix_world_needs_update || n.matrix_auto_update;
        if r {
            out.push(i);
        }
        let n = self.nodes[i].children.len();
        let mut k: usize = 0;
        proof {
            assert(out@ + self.update_plan_from(i, 0, r) =~= old(out)@ + self.update_plan(
                i,
                force,
            ));
        }
        while k < n
            invariant
                self.wf(),
                self.valid(i),
                n == self.children_of(i).len(),
                k <= n,
                out@ + self.update_plan_from(i, k as nat, r) == old(out)@ + self.update_plan(
                    i,
                    force,
                ),
            decreases n - k,
        {
            let c = self.nodes[i].children[k];
            proof {
                self.lemma_child(i, k as int);
            }
            let ghost before = out@;
            self.plan_into(c, r, out);
            proof {
                assert(out@ + self.update_plan_from(i, (k + 1) as nat, r) =~= before
                    + self.update_plan_from(i, k as nat, r));
            }
            k = k + 1;
        }
        proof {
            assert(out@ + self.update_plan_from(i, k as nat, r) =~= out@);
        }
    }

    /// The bookkeeping of an update pass from `i`: returns the nodes whose world
    /// value must be recomputed, in the order of the pass, and marks each of
    /// them up to date.
    fn run_update_pass(&mut self, i: usize, force: bool) -> (plan: Vec<usize>)
        requires
            old(self).wf(),
            old(self).valid(i),
        ensures
            final(self).wf(),
            plan@ == old(self).update_plan(i, force),
            final(self).len() == old(self).len(),
            forall|x: usize| #[trigger] plan@.contains(x) ==> old(self).valid(x),
            forall|x: usize|
                old(self).valid(x) && #[trigger] old(self).in_subtree(x, i)
                    ==> !final(self).needs_update(x),
            forall|j: usize|
                #![trigger final(self).needs_update(j)]
                old(self).valid(j) ==> final(self).needs_update(j) == (old(self).needs_update(j)
                    && !plan@.contains(j)),
            forall|j: usize|
                #![trigger final(self).parent_of(j)]
                old(self).valid(j) ==> {
                    &&& final(self).parent_of(j) == old(self).parent_of(j)
                    &&& final(self).children_of(j) == old(self).children_of(j)
                    &&& final(self).auto_update(j) == old(self).auto_update(j)
                    &&& final(self).is_visible(j) == old(self).is_visible(j)
                },
    {
        let mut plan: Vec<usize> = Vec::new();
        self.plan_into(i, force, &mut plan);
        assert(plan@ =~= old(self).update_plan(i, force));
        proof {
            self.lemma_plan_in_preorder(i, force);
            self.lemma_preorder_valid(i);
        }
        let mut k: usize = 0;
        while k < plan.len()
            invariant
                self.wf(),
                k <= plan@.len(),
                plan@ == old(self).update_plan(i, force),
                forall|x: usize| #[trigger] plan@.contains(x) ==> old(self).valid(x),
                self.len() == old(self).len(),
                forall|j: usize|
                    #![trigger self.needs_update(j)]
                    old(self).valid(j) ==> self.needs_update(j) == (old(self).needs_update(j)
                        && !plan@.subrange(0, k as int).contains(j)),
                forall|j: usize|
                    #![trigger self.parent_of(j)]
                    old(self).valid(j) ==> {
                        &&& self.parent_of(j) == old(self).parent_of(j)
                        &&& self.children_of(j) == old(self).children_of(j)
                        &&& self.auto_update(j) == old(self).auto_update(j)
                        &&& self.is_visible(j) == old(self).is_visible(j)
                    },
            decreases plan@.len() - k,
        {
            let x = plan[k];
            let ghost prev = *self;
            proof {
                assert(plan@.contains(x));
            }
            let n = &self.nodes[x];
            let (a, v) = (n.matrix_auto_update, n.visible);
            self.set_flags(x, false, a, v);
            proof {
                assert forall|j: usize| #![trigger self.needs_update(j)] old(self).valid(j) implies
                    self.needs_update(j) == (old(self).needs_update(j) && !plan@.subrange(
                    0,
                    k + 1,
                ).contains(j)) by {
                    let s0 = plan@.subrange(0, k as int);
                    let s1 = plan@.subrange(0, k + 1);
                    assert(s1 =~= s0.push(x));
                    if j != x {
                        assert(self.same_node(prev, j));
                        if s1.contains(j) {
                            let m = choose|m: int| 0 <= m < s1.len() && s1[m] == j;
                            assert(s0[m] == j);
                        }
                        if s0.contains(j) {
                            let m = choose|m: int| 0 <= m < s0.len() && s0[m] == j;
                            assert(s1[m] == j);
                        }
                    } else {
                        assert(s1[k as int] == j);
                    }
                }
                assert forall|j: usize| #![trigger self.parent_of(j)] old(self).valid(j) implies {
                    &&& self.parent_of(j) == old(self).parent_of(j)
                    &&& self.children_of(j) == old(self).children_of(j)
                    &&& self.auto_update(j) == old(self).auto_update(j)
                    &&& self.is_visible(j) == old(self).is_visible(j)
                } by {
                    assert(prev.parent_of(j) == old(self).parent_of(j));
                    if j != x {
                        assert(self.same_node(prev, j));
                    }
                }
            }
            k = k + 1;
        }
        assert(plan@.subrange(0, k as int) =~= plan@);
        proof {
            assert forall|x: usize|
                old(self).valid(x) && #[trigger] old(self).in_subtree(x, i)
                    implies !self.needs_update(x) by {
                if old(self).needs_update(x) {
                    old(self).lemma_preorder_covers(i, x);
                    old(self).lemma_plan_has_stale(i, force, x);
                }
            }
        }
        plan
    }

    /// The children of `p` once `c` has been taken away from its parent.
    pub open spec fn children_without(self, p: usize, c: usize) -> Seq<usize> {
        if self.parent_of(c) == Some(p) {
            without(self.children_of(p), c)
        } else {
            self.children_of(p)
        }
    }

    /// One step up the ancestor chain of `x`.
    proof fn lemma_ancestors_step(self, x: usize, a: usize)
        requires
            self.wf(),
            self.valid(x),
            self.parent_of(x) is Some,
        ensures
            self.ancestors(x) == seq![self.parent_of(x)->0] + self.ancestors(self.parent_of(x)->0),
            self.ancestors(x).contains(a) == (self.parent_of(x)->0 == a || self.ancestors(
                self.parent_of(x)->0,
            ).contains(a)),
            x != a ==> self.in_subtree(x, a) == self.in_subtree(self.parent_of(x)->0, a),
    {
        assert(self.node_wf(x));
        let p = self.parent_of(x)->0;
        let s = self.ancestors(x);
        let b = self.ancestors(p);
        if b.contains(a) {
            let j = choose|j: int| 0 <= j < b.len() && b[j] == a;
            assert(s[j + 1] == a);
        }
        if p == a {
            assert(s[0] == a);
        }
        if s.contains(a) && p != a {
            let j = choose|j: int| 0 <= j < s.len() && s[j] == a;
            assert(b[j - 1] == a);
        }
    }

    /// The children of a node are exactly the nodes that name it as parent, so
    /// a node stands in the children list of one node at most.
    pub proof fn lemma_children_contains(self, p: usize, x: usize)
        requires
            self.wf(),
            self.valid(p),
            self.valid(x),
        ensures
            self.children_of(p).contains(x) == (self.parent_of(x) == Some(p)),
    {
        assert(self.node_wf(p));
        assert(self.node_wf(x));
        if self.children_of(p).contains(x) {
            let k = choose|k: int|
                0 <= k < self.children_of(p).len() && self.children_of(p)[k] == x;
            assert(self.valid(self.children_of(p)[k]));
        }
    }

    /// Takes `c` out of the children list of its parent, if it has one.
    fn unlink_from_parent(&mut self, c: usize)
        requires
            old(self).wf(),
            old(self).valid(c),
        ensures
            final(self).nodes@.len() == old(self).nodes@.len(),
            final(self).rank == old(self).rank,
            final(self).bound == old(self).bound,
            forall|j: usize|
                #![trigger final(self).nodes@[j as int]]
                old(self).valid(j) ==> {
                    &&& final(self).parent_of(j) == old(self).parent_of(j)
                    &&& final(self).children_of(j) == old(self).children_without(j, c)
                    &&& final(self).needs_update(j) == old(self).needs_update(j)
                    &&& final(self).auto_update(j) == old(self).auto_update(j)
                    &&& final(self).is_visible(j) == old(self).is_visible(j)
                },
    {
        match self.nodes[c].parent {
            Some(q) => {
                proof {
                    assert(old(self).node_wf(c));
                    assert(old(self).node_wf(q));
                }
                let mut node = Object3D::next();
                self.nodes.set_and_swap(q, &mut node);
                let k = position(&node.children, c);
                proof {
                    lemma_without(node.children@, c, k as int);
                }
                node.children.remove(k);
                self.nodes.set_and_swap(q, &mut node);
            },
            None => {},
        }
        proof {
            assert forall|j: usize|
                #![trigger self.nodes@[j as int]]
                old(self).valid(j) implies {
                &&& self.parent_of(j) == old(self).parent_of(j)
                &&& self.children_of(j) == old(self).children_without(j, c)
                &&& self.needs_update(j) == old(self).needs_update(j)
                &&& self.auto_update(j) == old(self).auto_update(j)
                &&& self.is_visible(j) == old(self).is_visible(j)
            } by {
                if old(self).parent_of(c) != Some(j) {
                    assert(self.nodes@[j as int] == old(self).nodes@[j as int]);
                }
            }
        }
    }

    proof fn lemma_children_without(self, j: usize, c: usize)
        requires
            self.wf(),
            self.valid(j),
            self.valid(c),
        ensures
            self.children_without(j, c).no_duplicates(),
            forall|x: usize|
                #[trigger] self.children_without(j, c).contains(x) == (self.children_of(j).contains(
                    x,
                ) && x != c),
    {
        assert(self.node_wf(j));
        assert(self.node_wf(c));
        if self.parent_of(c) == Some(j) {
            let k = choose|k: int|
                0 <= k < self.children_of(j).len() && self.children_of(j)[k] == c;
            lemma_without(self.children_of(j), c, k);
        } else {
            self.lemma_children_contains(j, c);
        }
    }

    /// The ranks after `c` is hung under `np`: the subtree of `c` is lifted
    /// above the rank of its new parent.
    spec fn relinked_rank(self, c: usize, np: Option<usize>) -> Seq<nat> {
        Seq::new(
            self.rank@.len(),
            |x: int|
                if np is Some && self.in_subtree(x as usize, c) {
                    self.rank@[x] + self.rank@[np->0 as int] + 1
                } else {
                    self.rank@[x]
                },
        )
    }

    /// Detaching `c` and, if `np` is a node outside the subtree of `c`, hanging it
    /// as the last child of `np` keeps the arena well formed.
    proof fn lemma_relink(self, o: Scene, c: usize, np: Option<usize>)
        requires
            o.wf(),
            o.valid(c),
            np is Some ==> o.valid(np->0) && !o.in_subtree(np->0, c),
            self.nodes@.len() == o.nodes@.len(),
            self.rank@ == o.relinked_rank(c, np),
            self.bound@ == 2 * o.bound@ + 1,
            forall|j: usize|
                #![trigger self.nodes@[j as int]]
                o.valid(j) ==> self.parent_of(j) == (if j == c {
                    np
                } else {
                    o.parent_of(j)
                }) && self.children_of(j) == (if np == Some(j) {
                    o.children_without(j, c).push(c)
                } else {
                    o.children_without(j, c)
                }),
        ensures
            self.wf(),
    {
        assert forall|i: usize| #[trigger] self.valid(i) implies self.node_wf(i) by {
            assert(o.valid(i));
            assert(o.node_wf(i));
            assert(self.nodes@[i as int] == self.nodes@[i as int]);
            o.lemma_children_without(i, c);
            if let Some(r) = self.parent_of(i) {
                if i == c {
                    assert(self.nodes@[r as int] == self.nodes@[r as int]);
                    assert(self.children_of(r).last() == c);
                    assert(self.children_of(r).contains(c));
                } else {
                    assert(o.parent_of(i) == Some(r));
                    o.lemma_ancestors_step(i, c);
                    assert(self.nodes@[r as int] == self.nodes@[r as int]);
                    o.lemma_children_without(r, c);
                    assert(o.children_without(r, c).contains(i));
                    if np == Some(r) {
                        let x = o.children_without(r, c);
                        let m = choose|m: int| 0 <= m < x.len() && x[m] == i;
                        assert(x.push(c)[m] == i);
                    }
                }
            }
            let x = o.children_without(i, c);
            if np == Some(i) {
                assert(!x.contains(c));
                assert forall|a: int, b: int|
                    0 <= a < x.push(c).len() && 0 <= b < x.push(c).len() && a != b implies x.push(
                    c,
                )[a] != x.push(c)[b] by {
                    if a < x.len() && b < x.len() {
                    } else if a < x.len() {
                        assert(x.contains(x[a]));
                    } else {
                        assert(x.contains(x[b]));
                    }
                }
            }
            assert forall|k: int| 0 <= k < self.children_of(i).len() implies {
                &&& self.valid(#[trigger] self.children_of(i)[k])
                &&& self.parent_of(self.children_of(i)[k]) == Some(i)
            } by {
                let e = self.children_of(i)[k];
                if np == Some(i) && k == x.len() {
                    assert(e == c);
                    assert(self.nodes@[c as int] == self.nodes@[c as int]);
                } else {
                    assert(e == x[k]);
                    assert(x.contains(e));
                    assert(o.children_of(i).contains(e));
                    let m = choose|m: int| 0 <= m < o.children_of(i).len() && o.children_of(i)[m] == e;
                    assert(o.valid(o.children_of(i)[m]));
                    assert(self.nodes@[e as int] == self.nodes@[e as int]);
                }
            }
        }
    }

    fn set_parent(&mut self, c: usize, np: Option<usize>)
        requires
            old(self).valid(c),
        ensures
            final(self).nodes@ == old(self).nodes@.update(
                c as int,
                Object3D { parent: np, ..old(self).nodes@[c as int] },
            ),
            final(self).rank == old(self).rank,
            final(self).bound == old(self).bound,
    {
        let mut node = Object3D::next();
        self.nodes.set_and_swap(c, &mut node);
        node.parent = np;
        self.nodes.set_and_swap(c, &mut node);
        assert(self.nodes@ =~= old(self).nodes@.update(
            c as int,
            Object3D { parent: np, ..old(self).nodes@[c as int] },
        ));
    }

    /// Makes `c` the last child of `p`, first detaching it from its current
    /// parent. `p` must lie outside the subtree of `c`: a node cannot become its
    /// own descendant (nor, in particular, its own child).
    pub fn add(&mut self, p: usize, c: usize)
        requires
            old(self).wf(),
            old(self).valid(p),
            old(self).valid(c),
            !old(self).in_subtree(p, c),
        ensures
            final(self).wf(),
            final(self).len() == old(self).len(),
            forall|j: usize|
                #![trigger final(self).parent_of(j)]
                old(self).valid(j) ==> {
                    &&& final(self).parent_of(j) == (if j == c {
                        Some(p)
                    } else {
                        old(self).parent_of(j)
                    })
                    &&& final(self).children_of(j) == (if j == p {
                        old(self).children_without(j, c).push(c)
                    } else {
                        old(self).children_without(j, c)
                    })
                    &&& final(self).needs_update(j) == old(self).needs_update(j)
                    &&& final(self).auto_update(j) == old(self).auto_update(j)
                    &&& final(self).is_visible(j) == old(self).is_visible(j)
                },
    {
        self.unlink_from_parent(c);
        self.set_parent(c, Some(p));
        let mut node = Object3D::next();
        self.nodes.set_and_swap(p, &mut node);
        node.children.push(c);
        self.nodes.set_and_swap(p, &mut node);
        self.rank = Ghost(old(self).relinked_rank(c, Some(p)));
        self.bound = Ghost(2 * old(self).bound@ + 1);
        proof {
            assert forall|j: usize|
                #![trigger self.nodes@[j as int]]
                old(self).valid(j) implies self.parent_of(j) == (if j == c {
                Some(p)
            } else {
                old(self).parent_of(j)
            }) && self.children_of(j) == (if Some(p) == Some(j) {
                old(self).children_without(j, c).push(c)
            } else {
                old(self).children_without(j, c)
            }) by {}
            self.lemma_relink(*old(self), c, Some(p));
            assert forall|j: usize| #![trigger self.parent_of(j)] old(self).valid(j) implies {
                &&& self.parent_of(j) == (if j == c {
                    Some(p)
                } else {
                    old(self).parent_of(j)
                })
                &&& self.children_of(j) == (if j == p {
                    old(self).children_without(j, c).push(c)
                } else {
                    old(self).children_without(j, c)
                })
                &&& self.needs_update(j) == old(self).needs_update(j)
                &&& self.auto_update(j) == old(self).auto_update(j)
                &&& self.is_visible(j) == old(self).is_visible(j)
            } by {
                assert(self.nodes@[j as int] == self.nodes@[j as int]);
            }
        }
    }

    /// Detaches `c` from `p` if `p` is its parent; otherwise changes nothing.
    pub fn remove(&mut self, p: usize, c: usize)
        requires
            old(self).wf(),
            old(self).valid(p),
            old(self).valid(c),
        ensures
            final(self).wf(),
            final(self).len() == old(self).len(),
            forall|j: usize|
                #![trigger final(self).parent_of(j)]
                old(self).valid(j) ==> {
                    &&& final(self).parent_of(j) == (if j == c && old(self).parent_of(c) == Some(
                        p,
                    ) {
                        None
                    } else {
                        old(self).parent_of(j)
                    })
                    &&& final(self).children_of(j) == (if old(self).parent_of(c) == Some(p) {
                        old(self).children_without(j, c)
                    } else {
                        old(self).children_of(j)
                    })
                    &&& final(self).needs_update(j) == old(self).needs_update(j)
                    &&& final(self).auto_update(j) == old(self).auto_update(j)
                    &&& final(self).is_visible(j) == old(self).is_visible(j)
                },
    {
        let is_child = match self.nodes[c].parent {
            Some(q) => q == p,
            None => false,
        };
        if is_child {
            self.unlink_from_parent(c);
            self.set_parent(c, None);
            self.rank = Ghost(old(self).relinked_rank(c, None));
            self.bound = Ghost(2 * old(self).bound@ + 1);
            proof {
                assert(self.rank@ =~= old(self).rank@);
                assert forall|j: usize|
                    #![trigger self.nodes@[j as int]]
                    old(self).valid(j) implies self.parent_of(j) == (if j == c {
                    None
                } else {
                    old(self).parent_of(j)
                }) && self.children_of(j) == (if None::<usize> == Some(j) {
                    old(self).children_without(j, c).push(c)
                } else {
                    old(self).children_without(j, c)
                }) by {}
                self.lemma_relink(*old(self), c, None);
                assert forall|j: usize| #![trigger self.parent_of(j)] old(self).valid(j) implies {
                    &&& self.needs_update(j) == old(self).needs_update(j)
                    &&& self.auto_update(j) == old(self).auto_update(j)
                    &&& self.is_visible(j) == old(self).is_visible(j)
                } by {
                    assert(self.nodes@[j as int] == self.nodes@[j as int]);
                }
            }
        }
    }

    /// The parent of `i`, if it has one.
    pub fn parent(&self, i: usize) -> (r: Option<usize>)
        requires
            self.valid(i),
        ensures
            r == self.parent_of(i),
    {
        self.nodes[i].parent
    }

    /// The children of `i`, in the order in which they were added.
    pub fn children(&self, i: usize) -> (r: Vec<usize>)
        requires
            self.valid(i),
        ensures
            r@ == self.children_of(i),
    {
        let src = &self.nodes[i].children;
        let mut r: Vec<usize> = Vec::new();
        let mut k: usize = 0;
        while k < src.len()
            invariant
                k <= src@.len(),
                r@ == src@.subrange(0, k as int),
            decreases src@.len() - k,
        {
            r.push(src[k]);
            k = k + 1;
            assert(r@ =~= src@.subrange(0, k as int));
        }
        assert(r@ =~= src@);
        r
    }

    /// Whether `i` is shown.
    pub fn visible(&self, i: usize) -> (r: bool)
        requires
            self.valid(i),
        ensures
            r == self.is_visible(i),
    {
        self.nodes[i].visible
    }

    /// Whether the local matrix of `i` is recomposed on every update pass.
    pub fn matrix_auto_update(&self, i: usize) -> (r: bool)
        requires
            self.valid(i),
        ensures
            r == self.auto_update(i),
    {
        self.nodes[i].matrix_auto_update
    }

    /// Whether the world matrix of `i` is stale.
    pub fn matrix_world_needs_update(&self, i: usize) -> (r: bool)
        requires
            self.valid(i),
        ensures
            r == self.needs_update(i),
    {
        self.nodes[i].matrix_world_needs_update
    }

    /// A forced update pass recomputes exactly the preorder of the subtree.
    proof fn lemma_forced_plan(self, i: usize)
        ensures
            self.update_plan(i, true) == self.preorder(i),
        decreases self.bound() - self.rank_of(i), self.children_of(i).len() + 1,
    {
        self.lemma_forced_plan_from(i, 0);
    }

    proof fn lemma_forced_plan_from(self, p: usize, k: nat)
        ensures
            self.update_plan_from(p, k, true) == self.preorder_from(p, k),
        decreases self.bound() - self.rank_of(p), self.children_of(p).len() - k,
    {
        if k < self.children_of(p).len() {
            let c = self.children_of(p)[k as int];
            if self.rank_of(p) < self.rank_of(c) && self.rank_of(c) < self.bound() {
                self.lemma_forced_plan(c);
                self.lemma_forced_plan_from(p, k + 1);
            }
        }
    }

    /// In the preorder of a subtree every node but its root comes after its parent.
    proof fn lemma_preorder_parent_first(self, i: usize)
        requires
            self.wf(),
            self.valid(i),
        ensures
            self.preorder(i)[0] == i,
            forall|m: int|
                0 < m < self.preorder(i).len() ==> {
                    &&& #[trigger] self.parent_of(self.preorder(i)[m]) is Some
                    &&& self.preorder(i).subrange(0, m).contains(
                        self.parent_of(self.preorder(i)[m])->0,
                    )
                },
        decreases self.bound() - self.rank_of(i), self.children_of(i).len() + 1,
    {
        let pre = self.preorder(i);
        let f = self.preorder_from(i, 0);
        self.lemma_preorder_from_parent_first(i, 0);
        assert forall|m: int| 0 < m < pre.len() implies {
            &&& #[trigger] self.parent_of(pre[m]) is Some
            &&& pre.subrange(0, m).contains(self.parent_of(pre[m])->0)
        } by {
            assert(pre[m] == f[m - 1]);
            let q = self.parent_of(pre[m])->0;
            if q == i {
                assert(pre.subrange(0, m)[0] == i);
            } else {
                let j = choose|j: int| 0 <= j < m - 1 && #[trigger] f.subrange(0, m - 1)[j] == q;
                assert(pre.subrange(0, m)[j + 1] == q);
            }
        }
    }

    proof fn lemma_preorder_from_parent_first(self, p: usize, k: nat)
        requires
            self.wf(),
            self.valid(p),
        ensures
            forall|m: int|
                0 <= m < self.preorder_from(p, k).len() ==> {
                    &&& #[trigger] self.parent_of(self.preorder_from(p, k)[m]) is Some
                    &&& (self.parent_of(self.preorder_from(p, k)[m]) == Some(p)
                        || self.preorder_from(p, k).subrange(0, m).contains(
                        self.parent_of(self.preorder_from(p, k)[m])->0,
                    ))
                },
        decreases self.bound() - self.rank_of(p), self.children_of(p).len() - k,
    {
        if k < self.children_of(p).len() {
            let c = self.children_of(p)[k as int];
            self.lemma_child(p, k as int);
            self.lemma_preorder_parent_first(c);
            self.lemma_preorder_from_parent_first(p, k + 1);
            let a = self.preorder(c);
            let b = self.preorder_from(p, k + 1);
            let f = self.preorder_from(p, k);
            assert(f == a + b);
            assert forall|m: int| 0 <= m < f.len() implies {
                &&& #[trigger] self.parent_of(f[m]) is Some
                &&& (self.parent_of(f[m]) == Some(p) || f.subrange(0, m).contains(
                    self.parent_of(f[m])->0,
                ))
            } by {
                if m < a.len() {
                    assert(f[m] == a[m]);
                    if m > 0 {
                        let q = self.parent_of(a[m])->0;
                        let j = choose|j: int| 0 <= j < m && #[trigger] a.subrange(0, m)[j] == q;
                        assert(f.subrange(0, m)[j] == q);
                    }
                } else {
                    let m2 = m - a.len();
                    assert(f[m] == b[m2]);
                    if self.parent_of(b[m2]) != Some(p) {
                        let q = self.parent_of(b[m2])->0;
                        let j = choose|j: int| 0 <= j < m2 && #[trigger] b.subrange(0, m2)[j] == q;
                        assert(f.subrange(0, m)[a.len() + j] == q);
                    }
                }
            }
        }
    }

    proof fn lemma_children_in_preorder_from(self, p: usize, k: nat)
        requires
            self.wf(),
            self.valid(p),
        ensures
            forall|j: int|
                k <= j < self.children_of(p).len() ==> self.preorder_from(p, k).contains(
                    #[trigger] self.children_of(p)[j],
                ),
        decreases self.children_of(p).len() - k,
    {
        if k < self.children_of(p).len() {
            let c = self.children_of(p)[k as int];
            self.lemma_child(p, k as int);
            self.lemma_children_in_preorder_from(p, k + 1);
            let a = self.preorder(c);
            let b = self.preorder_from(p, k + 1);
            let f = self.preorder_from(p, k);
            assert(f == a + b);
            assert forall|j: int| k <= j < self.children_of(p).len() implies f.contains(
                #[trigger] self.children_of(p)[j],
            ) by {
                if j == k {
                    assert(f[0] == c);
                } else {
                    let x = self.children_of(p)[j];
                    let m = choose|m: int| 0 <= m < b.len() && b[m] == x;
                    assert(f[a.len() + m] == x);
                }
            }
        }
    }

    /// The preorder of a subtree holds, with each node, all of its children.
    proof fn lemma_preorder_closed(self, i: usize, q: usize, x: usize)
        requires
            self.wf(),
            self.valid(i),
            self.preorder(i).contains(q),
            self.valid(x),
            self.parent_of(x) == Some(q),
        ensures
            self.preorder(i).contains(x),
        decreases self.bound() - self.rank_of(i), self.children_of(i).len() + 1,
    {
        let pre = self.preorder(i);
        let f = self.preorder_from(i, 0);
        let m = choose|m: int| 0 <= m < pre.len() && pre[m] == q;
        if m == 0 {
            assert(q == i);
            assert(self.node_wf(x));
            let j = choose|j: int| 0 <= j < self.children_of(i).len() && self.children_of(i)[j] == x;
            self.lemma_children_in_preorder_from(i, 0);
            assert(f.contains(self.children_of(i)[j]));
            let n = choose|n: int| 0 <= n < f.len() && f[n] == x;
            assert(pre[n + 1] == x);
        } else {
            assert(f[m - 1] == q);
            self.lemma_preorder_from_closed(i, 0, q, x);
            let n = choose|n: int| 0 <= n < f.len() && f[n] == x;
            assert(pre[n + 1] == x);
        }
    }

    proof fn lemma_preorder_from_closed(self, p: usize, k: nat, q: usize, x: usize)
        requires
            self.wf(),
            self.valid(p),
            self.preorder_from(p, k).contains(q),
            self.valid(x),
            self.parent_of(x) == Some(q),
        ensures
            self.preorder_from(p, k).contains(x),
        decreases self.bound() - self.rank_of(p), self.children_of(p).len() - k,
    {
        let c = self.children_of(p)[k as int];
        self.lemma_child(p, k as int);
        let a = self.preorder(c);
        let b = self.preorder_from(p, k + 1);
        let f = self.preorder_from(p, k);
        assert(f == a + b);
        let m = choose|m: int| 0 <= m < f.len() && f[m] == q;
        if m < a.len() {
            assert(a[m] == q);
            self.lemma_preorder_closed(c, q, x);
            let n = choose|n: int| 0 <= n < a.len() && a[n] == x;
            assert(f[n] == x);
        } else {
            assert(b[m - a.len()] == q);
            self.lemma_preorder_from_closed(p, k + 1, q, x);
            let n = choose|n: int| 0 <= n < b.len() && b[n] == x;
            assert(f[a.len() + n] == x);
        }
    }

    /// Every node of the subtree of `r` appears in its preorder.
    proof fn lemma_preorder_covers(self, r: usize, x: usize)
        requires
            self.wf(),
            self.valid(r),
            self.valid(x),
            self.in_subtree(x, r),
        ensures
            self.preorder(r).contains(x),
        decreases self.rank_of(x),
    {
        if x == r {
            assert(self.preorder(r)[0] == r);
        } else {
            assert(self.node_wf(x));
            let q = self.parent_of(x)->0;
            self.lemma_ancestors_step(x, r);
            self.lemma_preorder_covers(r, q);
            self.lemma_preorder_closed(r, q, x);
        }
    }

    /// A node of the subtree that is stale or recomposes its local matrix is
    /// recomputed by any pass over the subtree.
    proof fn lemma_plan_has_stale(self, i: usize, force: bool, x: usize)
        requires
            self.preorder(i).contains(x),
            self.needs_update(x) || self.auto_update(x),
        ensures
            self.update_plan(i, force).contains(x),
        decreases self.bound() - self.rank_of(i), self.children_of(i).len() + 1,
    {
        let r = self.recomputes(i, force);
        let head = if r {
            seq![i]
        } else {
            seq![]
        };
        let plan = self.update_plan(i, force);
        assert(plan == head + self.update_plan_from(i, 0, r));
        if x == i {
            assert(plan[0] == i);
        } else {
            let pre = self.preorder(i);
            let m = choose|m: int| 0 <= m < pre.len() && pre[m] == x;
            assert(self.preorder_from(i, 0)[m - 1] == x);
            self.lemma_plan_from_has_stale(i, 0, r, x);
            let f = self.update_plan_from(i, 0, r);
            let n = choose|n: int| 0 <= n < f.len() && f[n] == x;
            assert(plan[head.len() + n] == x);
        }
    }

    proof fn lemma_plan_from_has_stale(self, p: usize, k: nat, force: bool, x: usize)
        requires
            self.preorder_from(p, k).contains(x),
            self.needs_update(x) || self.auto_update(x),
        ensures
            self.update_plan_from(p, k, force).contains(x),
        decreases self.bound() - self.rank_of(p), self.children_of(p).len() - k,
    {
        let c = self.children_of(p)[k as int];
        let a = self.preorder(c);
        let b = self.preorder_from(p, k + 1);
        let f = self.preorder_from(p, k);
        assert(f == a + b);
        let pa = self.update_plan(c, force);
        let pb = self.update_plan_from(p, k + 1, force);
        assert(self.update_plan_from(p, k, force) == pa + pb);
        let m = choose|m: int| 0 <= m < f.len() && f[m] == x;
        if m < a.len() {
            assert(a[m] == x);
            self.lemma_plan_has_stale(c, force, x);
            let n = choose|n: int| 0 <= n < pa.len() && pa[n] == x;
            assert((pa + pb)[n] == x);
        } else {
            assert(b[m - a.len()] == x);
            self.lemma_plan_from_has_stale(p, k + 1, force, x);
            let n = choose|n: int| 0 <= n < pb.len() && pb[n] == x;
            assert((pa + pb)[pa.len() + n] == x);
        }
    }

    /// Every node of an update plan lies in the preorder of its subtree.
    proof fn lemma_plan_in_preorder(self, i: usize, force: bool)
        ensures
            forall|x: usize| #[trigger]
                self.update_plan(i, force).contains(x) ==> self.preorder(i).contains(x),
        decreases self.bound() - self.rank_of(i), self.children_of(i).len() + 1,
    {
        let r = self.recomputes(i, force);
        self.lemma_plan_from_in_preorder(i, 0, r);
        let head = if r {
            seq![i]
        } else {
            seq![]
        };
        let plan = self.update_plan(i, force);
        let f = self.update_plan_from(i, 0, r);
        let pre = self.preorder(i);
        assert(plan == head + f);
        assert forall|x: usize| #[trigger] plan.contains(x) implies pre.contains(x) by {
            let m = choose|m: int| 0 <= m < plan.len() && plan[m] == x;
            if m < head.len() {
                assert(pre[0] == x);
            } else {
                assert(f[m - head.len()] == x);
                assert(f.contains(x));
                let g = self.preorder_from(i, 0);
                assert(g.contains(x));
                let n = choose|n: int| 0 <= n < g.len() && g[n] == x;
                assert(pre[n + 1] == x);
            }
        }
    }

    proof fn lemma_plan_from_in_preorder(self, p: usize, k: nat, force: bool)
        ensures
            forall|x: usize| #[trigger]
                self.update_plan_from(p, k, force).contains(x) ==> self.preorder_from(
                    p,
                    k,
                ).contains(x),
        decreases self.bound() - self.rank_of(p), self.children_of(p).len() - k,
    {
        if k < self.children_of(p).len() {
            let c = self.children_of(p)[k as int];
            if self.rank_of(p) < self.rank_of(c) && self.rank_of(c) < self.bound() {
                self.lemma_plan_in_preorder(c, force);
                self.lemma_plan_from_in_preorder(p, k + 1, force);
                let a = self.preorder(c);
                let b = self.preorder_from(p, k + 1);
                let pa = self.update_plan(c, force);
                let pb = self.update_plan_from(p, k + 1, force);
                assert(self.update_plan_from(p, k, force) == pa + pb);
                assert(self.preorder_from(p, k) == a + b);
                assert forall|x: usize| #[trigger] (pa + pb).contains(x) implies (a + b).contains(
                    x,
                ) by {
                    let m = choose|m: int| 0 <= m < (pa + pb).len() && (pa + pb)[m] == x;
                    if m < pa.len() {
                        assert(pa[m] == x);
                        assert(pa.contains(x));
                        let n = choose|n: int| 0 <= n < a.len() && a[n] == x;
                        assert((a + b)[n] == x);
                    } else {
                        assert(pb[m - pa.len()] == x);
                        assert(pb.contains(x));
                        let n = choose|n: int| 0 <= n < b.len() && b[n] == x;
                        assert((a + b)[a.len() + n] == x);
                    }
                }
            }
        }
    }

    /// The preorder of a subtree holds valid handles only.
    proof fn lemma_preorder_valid(self, i: usize)
        requires
            self.wf(),
            self.valid(i),
        ensures
            forall|x: usize| #[trigger] self.preorder(i).contains(x) ==> self.valid(x),
        decreases self.bound() - self.rank_of(i), self.children_of(i).len() + 1,
    {
        self.lemma_preorder_from_valid(i, 0);
        let pre = self.preorder(i);
        let g = self.preorder_from(i, 0);
        assert forall|x: usize| #[trigger] pre.contains(x) implies self.valid(x) by {
            let m = choose|m: int| 0 <= m < pre.len() && pre[m] == x;
            if m > 0 {
                assert(g[m - 1] == x);
                assert(g.contains(x));
            }
        }
    }

    proof fn lemma_preorder_from_valid(self, p: usize, k: nat)
        requires
            self.wf(),
            self.valid(p),
        ensures
            forall|x: usize| #[trigger] self.preorder_from(p, k).contains(x) ==> self.valid(x),
        decreases self.bound() - self.rank_of(p), self.children_of(p).len() - k,
    {
        if k < self.children_of(p).len() {
            let c = self.children_of(p)[k as int];
            self.lemma_child(p, k as int);
            self.lemma_preorder_valid(c);
            self.lemma_preorder_from_valid(p, k + 1);
            let a = self.preorder(c);
            let b = self.preorder_from(p, k + 1);
            assert(self.preorder_from(p, k) == a + b);
            assert forall|x: usize| #[trigger] (a + b).contains(x) implies self.valid(x) by {
                let m = choose|m: int| 0 <= m < (a + b).len() && (a + b)[m] == x;
                if m < a.len() {
                    assert(a[m] == x);
                    assert(a.contains(x));
                } else {
                    assert(b[m - a.len()] == x);
                    assert(b.contains(x));
                }
            }
        }
    }

    /// The ancestor chain of `x` climbs one parent link at a time, through
    /// valid nodes of strictly falling rank, and ends at a root.
    proof fn lemma_ancestor_chain(self, x: usize)
        requires
            self.wf(),
            self.valid(x),
        ensures
            self.ancestors(x).len() > 0 <==> self.parent_of(x) is Some,
            self.ancestors(x).len() > 0 ==> self.ancestors(x)[0] == self.parent_of(x)->0,
            forall|j: int|
                0 <= j < self.ancestors(x).len() ==> {
                    &&& self.valid(#[trigger] self.ancestors(x)[j])
                    &&& self.rank_of(self.ancestors(x)[j]) < self.rank_of(x)
                    &&& self.parent_of(self.ancestors(x)[j]) == (if j + 1 < self.ancestors(
                        x,
                    ).len() {
                        Some(self.ancestors(x)[j + 1])
                    } else {
                        None
                    })
                },
            forall|a: int, b: int|
                0 <= a < b < self.ancestors(x).len() ==> self.rank_of(
                    #[trigger] self.ancestors(x)[b],
                ) < self.rank_of(#[trigger] self.ancestors(x)[a]),
            self.ancestors(x).no_duplicates(),
        decreases self.rank_of(x),
    {
        assert(self.node_wf(x));
        if let Some(p) = self.parent_of(x) {
            self.lemma_ancestor_chain(p);
            let s = self.ancestors(x);
            let t = self.ancestors(p);
            assert(s == seq![p] + t);
            assert forall|j: int| 0 <= j < s.len() implies {
                &&& self.valid(#[trigger] s[j])
                &&& self.rank_of(s[j]) < self.rank_of(x)
                &&& self.parent_of(s[j]) == (if j + 1 < s.len() {
                    Some(s[j + 1])
                } else {
                    None
                })
            } by {
                if j == 0 {
                    if t.len() > 0 {
                        assert(s[1] == t[0]);
                    }
                } else {
                    assert(s[j] == t[j - 1]);
                    if j + 1 < s.len() {
                        assert(s[j + 1] == t[j]);
                    }
                }
            }
            assert forall|a: int, b: int| 0 <= a < b < s.len() implies self.rank_of(
                #[trigger] s[b],
            ) < self.rank_of(#[trigger] s[a]) by {
                assert(s[b] == t[b - 1]);
                if a > 0 {
                    assert(s[a] == t[a - 1]);
                }
            }
            assert forall|a: int, b: int| 0 <= a < s.len() && 0 <= b < s.len() && a != b implies s[a]
                != s[b] by {
                if a < b {
                    assert(self.rank_of(s[b]) < self.rank_of(s[a]));
                } else {
                    assert(self.rank_of(s[a]) < self.rank_of(s[b]));
                }
            }
        }
    }

    /// A node in the subtree of a child of `p` is in the subtree of `p`.
    proof fn lemma_subtree_up(self, x: usize, c: usize)
        requires
            self.wf(),
            self.valid(x),
            self.valid(c),
            self.in_subtree(x, c),
            self.parent_of(c) is Some,
        ensures
            self.in_subtree(x, self.parent_of(c)->0),
        decreases self.rank_of(x),
    {
        let p = self.parent_of(c)->0;
        if x == c {
            self.lemma_ancestors_step(x, p);
        } else {
            assert(self.node_wf(x));
            self.lemma_ancestor_chain(x);
            let q = self.parent_of(x)->0;
            self.lemma_ancestors_step(x, c);
            self.lemma_subtree_up(q, c);
            if x != p {
                self.lemma_ancestors_step(x, p);
            }
        }
    }

    /// The subtrees of two distinct children of one parent do not meet.
    proof fn lemma_siblings_disjoint(self, a: usize, b: usize, x: usize)
        requires
            self.wf(),
            self.valid(a),
            self.valid(b),
            self.valid(x),
            a != b,
            self.parent_of(a) is Some,
            self.parent_of(a) == self.parent_of(b),
            self.in_subtree(x, a),
        ensures
            !self.in_subtree(x, b),
    {
        let p = self.parent_of(a)->0;
        assert(self.node_wf(a));
        assert(self.node_wf(b));
        self.lemma_ancestor_chain(x);
        self.lemma_ancestor_chain(a);
        self.lemma_ancestor_chain(b);
        self.lemma_ancestor_chain(p);
        let s = self.ancestors(x);
        if x == a {
            if s.contains(b) {
                let j = choose|j: int| 0 <= j < s.len() && s[j] == b;
                assert(self.rank_of(b) < self.rank_of(a));
                self.lemma_ancestors_step(a, b);
                if j > 0 {
                    let t = self.ancestors(p);
                    assert(t[j - 1] == b);
                    assert(self.rank_of(b) < self.rank_of(p));
                }
            }
        } else if x == b {
            let j = choose|j: int| 0 <= j < s.len() && s[j] == a;
            self.lemma_ancestors_step(b, a);
            if j > 0 {
                let t = self.ancestors(p);
                assert(t[j - 1] == a);
                assert(self.rank_of(a) < self.rank_of(p));
            }
        } else if s.contains(b) {
            let ia = choose|j: int| 0 <= j < s.len() && s[j] == a;
            let ib = choose|j: int| 0 <= j < s.len() && s[j] == b;
            assert(ia + 1 < s.len());
            assert(ib + 1 < s.len());
            assert(s[ia + 1] == p);
            assert(s[ib + 1] == p);
        }
    }

    /// The preorder of a subtree lists nodes of that subtree, each once.
    proof fn lemma_preorder_sound(self, i: usize)
        requires
            self.wf(),
            self.valid(i),
        ensures
            forall|x: usize| #[trigger] self.preorder(i).contains(x) ==> self.in_subtree(x, i),
            self.preorder(i).no_duplicates(),
        decreases self.bound() - self.rank_of(i), self.children_of(i).len() + 1,
    {
        self.lemma_preorder_from_sound(i, 0);
        self.lemma_preorder_from_valid(i, 0);
        let pre = self.preorder(i);
        let f = self.preorder_from(i, 0);
        assert(pre == seq![i] + f);
        assert forall|x: usize| #[trigger] pre.contains(x) implies self.in_subtree(x, i) by {
            let m = choose|m: int| 0 <= m < pre.len() && pre[m] == x;
            if m > 0 {
                assert(f[m - 1] == x);
                assert(f.contains(x));
                let j = choose|j: int|
                    0 <= j < self.children_of(i).len() && #[trigger] self.in_subtree(
                        x,
                        self.children_of(i)[j],
                    );
                self.lemma_child(i, j);
                self.lemma_subtree_up(x, self.children_of(i)[j]);
            }
        }
        if f.contains(i) {
            let j = choose|j: int|
                0 <= j < self.children_of(i).len() && #[trigger] self.in_subtree(
                    i,
                    self.children_of(i)[j],
                );
            let c = self.children_of(i)[j];
            self.lemma_child(i, j);
            self.lemma_ancestor_chain(i);
            let s = self.ancestors(i);
            let n = choose|n: int| 0 <= n < s.len() && s[n] == c;
            assert(self.rank_of(s[n]) < self.rank_of(i));
        }
        assert forall|a: int, b: int| 0 <= a < pre.len() && 0 <= b < pre.len() && a != b implies pre[a]
            != pre[b] by {
            if a == 0 && b > 0 {
                assert(f[b - 1] == pre[b]);
                assert(f.contains(pre[b]));
            } else if b == 0 && a > 0 {
                assert(f[a - 1] == pre[a]);
                assert(f.contains(pre[a]));
            } else if a > 0 && b > 0 {
                assert(f[a - 1] == pre[a]);
                assert(f[b - 1] == pre[b]);
            }
        }
    }

    proof fn lemma_preorder_from_sound(self, p: usize, k: nat)
        requires
            self.wf(),
            self.valid(p),
        ensures
            forall|x: usize|
                #[trigger] self.preorder_from(p, k).contains(x) ==> exists|j: int|
                    k <= j < self.children_of(p).len() && #[trigger] self.in_subtree(
                        x,
                        self.children_of(p)[j],
                    ),
            self.preorder_from(p, k).no_duplicates(),
        decreases self.bound() - self.rank_of(p), self.children_of(p).len() - k,
    {
        if k < self.children_of(p).len() {
            let c = self.children_of(p)[k as int];
            self.lemma_child(p, k as int);
            self.lemma_preorder_sound(c);
            self.lemma_preorder_valid(c);
            self.lemma_preorder_from_sound(p, k + 1);
            let a = self.preorder(c);
            let b = self.preorder_from(p, k + 1);
            let f = self.preorder_from(p, k);
            assert(f == a + b);
            assert forall|x: usize| #[trigger] f.contains(x) implies exists|j: int|
                k <= j < self.children_of(p).len() && #[trigger] self.in_subtree(
                    x,
                    self.children_of(p)[j],
                ) by {
                let m = choose|m: int| 0 <= m < f.len() && f[m] == x;
                if m < a.len() {
                    assert(a[m] == x);
                    assert(a.contains(x));
                    assert(self.in_subtree(x, self.children_of(p)[k as int]));
                } else {
                    assert(b[m - a.len()] == x);
                    assert(b.contains(x));
                }
            }
            assert forall|u: int, v: int| 0 <= u < f.len() && 0 <= v < f.len() && u != v implies f[u]
                != f[v] by {
                if u < a.len() && v >= a.len() {
                    self.lemma_apart(p, k, a, b, u, v - a.len());
                } else if v < a.len() && u >= a.len() {
                    self.lemma_apart(p, k, a, b, v, u - a.len());
                } else if u >= a.len() && v >= a.len() {
                    assert(f[u] == b[u - a.len()]);
                    assert(f[v] == b[v - a.len()]);
                }
            }
        }
    }

    /// A node of the first child's preorder is not met again among the later children.
    proof fn lemma_apart(self, p: usize, k: nat, a: Seq<usize>, b: Seq<usize>, u: int, v: int)
        requires
            self.wf(),
            self.valid(p),
            k < self.children_of(p).len(),
            a == self.preorder(self.children_of(p)[k as int]),
            b == self.preorder_from(p, k + 1),
            0 <= u < a.len(),
            0 <= v < b.len(),
            forall|x: usize| #[trigger] a.contains(x) ==> self.in_subtree(
                x,
                self.children_of(p)[k as int],
            ),
            forall|x: usize| #[trigger] a.contains(x) ==> self.valid(x),
            forall|x: usize|
                #[trigger] b.contains(x) ==> exists|j: int|
                    k + 1 <= j < self.children_of(p).len() && #[trigger] self.in_subtree(
                        x,
                        self.children_of(p)[j],
                    ),
        ensures
            a[u] != b[v],
    {
        let x = a[u];
        if x == b[v] {
            assert(a.contains(x));
            assert(b.contains(x));
            let j = choose|j: int|
                k + 1 <= j < self.children_of(p).len() && #[trigger] self.in_subtree(
                    x,
                    self.children_of(p)[j],
                );
            let c = self.children_of(p)[k as int];
            let d = self.children_of(p)[j];
            self.lemma_child(p, k as int);
            self.lemma_child(p, j);
            assert(self.node_wf(p));
            self.lemma_siblings_disjoint(c, d, x);
        }
    }

    /// A subtree's root ranks no higher than any node of the subtree.
    proof fn lemma_subtree_rank(self, x: usize, r: usize)
        requires
            self.wf(),
            self.valid(x),
            self.in_subtree(x, r),
        ensures
            self.rank_of(r) <= self.rank_of(x),
    {
        if x != r {
            self.lemma_ancestor_chain(x);
            let a = self.ancestors(x);
            let j = choose|j: int| 0 <= j < a.len() && a[j] == r;
            assert(self.rank_of(a[j]) < self.rank_of(x));
        }
    }

    /// No node of `s` has its parent at a later position of `s`.
    pub open spec fn parents_not_after(self, s: Seq<usize>) -> bool {
        forall|m: int, n: int|
            0 <= m < n < s.len() ==> self.parent_of(#[trigger] s[m]) != Some(#[trigger] s[n])
    }

    proof fn lemma_concat_parents_not_after(self, a: Seq<usize>, b: Seq<usize>)
        requires
            self.parents_not_after(a),
            self.parents_not_after(b),
            forall|x: usize, y: usize|
                #[trigger] a.contains(x) && #[trigger] b.contains(y) ==> self.parent_of(x) != Some(
                    y,
                ),
        ensures
            self.parents_not_after(a + b),
    {
        let s = a + b;
        assert forall|m: int, n: int| 0 <= m < n < s.len() implies self.parent_of(
            #[trigger] s[m],
        ) != Some(#[trigger] s[n]) by {
            if n < a.len() {
                assert(s[m] == a[m] && s[n] == a[n]);
            } else if m >= a.len() {
                assert(s[m] == b[m - a.len()] && s[n] == b[n - a.len()]);
            } else {
                assert(a.contains(s[m]));
                assert(s[n] == b[n - a.len()]);
                assert(b.contains(s[n]));
            }
        }
    }

    /// An update plan lists each node once, and never a node's parent after it.
    pub proof fn lemma_plan_shape(self, i: usize, force: bool)
        requires
            self.wf(),
            self.valid(i),
        ensures
            self.update_plan(i, force).no_duplicates(),
            self.parents_not_after(self.update_plan(i, force)),
        decreases self.bound() - self.rank_of(i), self.children_of(i).len() + 1,
    {
        let r = self.recomputes(i, force);
        let head = if r {
            seq![i]
        } else {
            seq![]
        };
        let f = self.update_plan_from(i, 0, r);
        let g = self.preorder_from(i, 0);
        self.lemma_plan_from_shape(i, 0, r);
        self.lemma_plan_from_in_preorder(i, 0, r);
        self.lemma_preorder_sound(i);
        self.lemma_preorder_from_sound(i, 0);
        self.lemma_preorder_from_valid(i, 0);
        assert(self.preorder(i) == seq![i] + g);
        assert(self.update_plan(i, force) == head + f);
        assert forall|x: usize| #[trigger] head.contains(x) implies seq![i].contains(x) by {
            assert(seq![i][0] == i);
        }
        lemma_concat_no_duplicates(head, f, seq![i], g);
        assert forall|x: usize, y: usize|
            #[trigger] head.contains(x) && #[trigger] f.contains(y) implies self.parent_of(x)
            != Some(y) by {
            assert(x == i);
            assert(g.contains(y));
            if self.parent_of(i) == Some(y) {
                assert(self.node_wf(i));
                let j = choose|j: int|
                    0 <= j < self.children_of(i).len() && #[trigger] self.in_subtree(
                        y,
                        self.children_of(i)[j],
                    );
                self.lemma_child(i, j);
                self.lemma_subtree_rank(y, self.children_of(i)[j]);
            }
        }
        self.lemma_concat_parents_not_after(head, f);
    }

    proof fn lemma_plan_from_shape(self, p: usize, k: nat, force: bool)
        requires
            self.wf(),
            self.valid(p),
        ensures
            self.update_plan_from(p, k, force).no_duplicates(),
            self.parents_not_after(self.update_plan_from(p, k, force)),
        decreases self.bound() - self.rank_of(p), self.children_of(p).len() - k,
    {
        if k < self.children_of(p).len() {
            let c = self.children_of(p)[k as int];
            self.lemma_child(p, k as int);
            self.lemma_plan_shape(c, force);
            self.lemma_plan_from_shape(p, k + 1, force);
            self.lemma_plan_in_preorder(c, force);
            self.lemma_plan_from_in_preorder(p, k + 1, force);
            self.lemma_preorder_from_sound(p, k);
            self.lemma_preorder_from_sound(p, k + 1);
            self.lemma_preorder_sound(c);
            self.lemma_preorder_valid(c);
            self.lemma_preorder_from_valid(p, k + 1);
            let a = self.update_plan(c, force);
            let b = self.update_plan_from(p, k + 1, force);
            let pa = self.preorder(c);
            let pb = self.preorder_from(p, k + 1);
            assert(self.update_plan_from(p, k, force) == a + b);
            assert(self.preorder_from(p, k) == pa + pb);
            lemma_concat_no_duplicates(a, b, pa, pb);
            assert forall|x: usize, y: usize|
                #[trigger] a.contains(x) && #[trigger] b.contains(y) implies self.parent_of(x)
                != Some(y) by {
                assert(pa.contains(x));
                assert(pb.contains(y));
                let j = choose|j: int|
                    k + 1 <= j < self.children_of(p).len() && #[trigger] self.in_subtree(
                        y,
                        self.children_of(p)[j],
                    );
                let d = self.children_of(p)[j];
                self.lemma_child(p, j);
                if self.parent_of(x) == Some(y) {
                    if x == c {
                        self.lemma_subtree_rank(y, d);
                    } else {
                        assert(self.node_wf(x));
                        self.lemma_ancestors_step(x, c);
                        assert(self.node_wf(p));
                        self.lemma_siblings_disjoint(c, d, y);
                    }
                }
            }
            self.lemma_concat_parents_not_after(a, b);
        }
    }

    proof fn lemma_shown_up(self, x: usize, c: usize)
        requires
            self.wf(),
            self.valid(x),
            self.valid(c),
            self.shown_from(x, c),
            self.parent_of(c) is Some,
            self.is_visible(self.parent_of(c)->0),
        ensures
            self.shown_from(x, self.parent_of(c)->0),
        decreases self.rank_of(x),
    {
        let i = self.parent_of(c)->0;
        assert(self.node_wf(c));
        assert(self.node_wf(x));
        if x == c {
            assert(self.shown_from(i, i));
        } else if x != i {
            let q = self.parent_of(x)->0;
            self.lemma_shown_up(q, c);
        }
    }

    proof fn lemma_visible_sound(self, i: usize)
        requires
            self.wf(),
            self.valid(i),
        ensures
            forall|x: usize|
                #[trigger] self.visible_preorder(i).contains(x) ==> self.valid(x)
                    && self.shown_from(x, i),
        decreases self.bound() - self.rank_of(i), self.children_of(i).len() + 1,
    {
        if self.is_visible(i) {
            self.lemma_visible_from_sound(i, 0);
            let v = self.visible_preorder(i);
            let f = self.visible_preorder_from(i, 0);
            assert(v == seq![i] + f);
            assert forall|x: usize| #[trigger] v.contains(x) implies self.valid(x) && self.shown_from(
                x,
                i,
            ) by {
                let m = choose|m: int| 0 <= m < v.len() && v[m] == x;
                if m > 0 {
                    assert(f[m - 1] == x);
                    assert(f.contains(x));
                    let j = choose|j: int|
                        0 <= j < self.children_of(i).len() && #[trigger] self.shown_from(
                            x,
                            self.children_of(i)[j],
                        );
                    self.lemma_child(i, j);
                    self.lemma_shown_up(x, self.children_of(i)[j]);
                }
            }
        }
    }

    proof fn lemma_visible_from_sound(self, p: usize, k: nat)
        requires
            self.wf(),
            self.valid(p),
        ensures
            forall|x: usize|
                #[trigger] self.visible_preorder_from(p, k).contains(x) ==> self.valid(x)
                    && exists|j: int|
                    k <= j < self.children_of(p).len() && #[trigger] self.shown_from(
                        x,
                        self.children_of(p)[j],
                    ),
        decreases self.bound() - self.rank_of(p), self.children_of(p).len() - k,
    {
        if k < self.children_of(p).len() {
            let c = self.children_of(p)[k as int];
            self.lemma_child(p, k as int);
            self.lemma_visible_sound(c);
            self.lemma_visible_from_sound(p, k + 1);
            let a = self.visible_preorder(c);
            let b = self.visible_preorder_from(p, k + 1);
            let f = self.visible_preorder_from(p, k);
            assert(f == a + b);
            assert forall|x: usize| #[trigger] f.contains(x) implies self.valid(x) && exists|j: int|
                k <= j < self.children_of(p).len() && #[trigger] self.shown_from(
                    x,
                    self.children_of(p)[j],
                ) by {
                let m = choose|m: int| 0 <= m < f.len() && f[m] == x;
                if m < a.len() {
                    assert(a[m] == x);
                    assert(a.contains(x));
                    assert(self.shown_from(x, self.children_of(p)[k as int]));
                } else {
                    assert(b[m - a.len()] == x);
                    assert(b.contains(x));
                }
            }
        }
    }

    proof fn lemma_visible_children_in_from(self, p: usize, k: nat)
        requires
            self.wf(),
            self.valid(p),
        ensures
            forall|j: int|
                k <= j < self.children_of(p).len() && self.is_visible(self.children_of(p)[j])
                    ==> self.visible_preorder_from(p, k).contains(#[trigger] self.children_of(p)[j]),
        decreases self.children_of(p).len() - k,
    {
        if k < self.children_of(p).len() {
            let c = self.children_of(p)[k as int];
            self.lemma_child(p, k as int);
            self.lemma_visible_children_in_from(p, k + 1);
            let a = self.visible_preorder(c);
            let b = self.visible_preorder_from(p, k + 1);
            let f = self.visible_preorder_from(p, k);
            assert(f == a + b);
            assert forall|j: int|
                k <= j < self.children_of(p).len() && self.is_visible(
                    self.children_of(p)[j],
                ) implies f.contains(#[trigger] self.children_of(p)[j]) by {
                if j == k {
                    assert(f[0] == c);
                } else {
                    let x = self.children_of(p)[j];
                    let m = choose|m: int| 0 <= m < b.len() && b[m] == x;
                    assert(f[a.len() + m] == x);
                }
            }
        }
    }

    proof fn lemma_visible_closed(self, i: usize, q: usize, x: usize)
        requires
            self.wf(),
            self.valid(i),
            self.visible_preorder(i).contains(q),
            self.valid(x),
            self.parent_of(x) == Some(q),
            self.is_visible(x),
        ensures
            self.visible_preorder(i).contains(x),
        decreases self.bound() - self.rank_of(i), self.children_of(i).len() + 1,
    {
        let v = self.visible_preorder(i);
        let f = self.visible_preorder_from(i, 0);
        assert(v == seq![i] + f);
        let m = choose|m: int| 0 <= m < v.len() && v[m] == q;
        if m == 0 {
            assert(q == i);
            assert(self.node_wf(x));
            let j = choose|j: int| 0 <= j < self.children_of(i).len() && self.children_of(i)[j] == x;
            self.lemma_visible_children_in_from(i, 0);
            assert(f.contains(self.children_of(i)[j]));
            let n = choose|n: int| 0 <= n < f.len() && f[n] == x;
            assert(v[n + 1] == x);
        } else {
            assert(f[m - 1] == q);
            self.lemma_visible_from_closed(i, 0, q, x);
            let n = choose|n: int| 0 <= n < f.len() && f[n] == x;
            assert(v[n + 1] == x);
        }
    }

    proof fn lemma_visible_from_closed(self, p: usize, k: nat, q: usize, x: usize)
        requires
            self.wf(),
            self.valid(p),
            self.visible_preorder_from(p, k).contains(q),
            self.valid(x),
            self.parent_of(x) == Some(q),
            self.is_visible(x),
        ensures
            self.visible_preorder_from(p, k).contains(x),
        decreases self.bound() - self.rank_of(p), self.children_of(p).len() - k,
    {
        let c = self.children_of(p)[k as int];
        self.lemma_child(p, k as int);
        let a = self.visible_preorder(c);
        let b = self.visible_preorder_from(p, k + 1);
        let f = self.visible_preorder_from(p, k);
        assert(f == a + b);
        let m = choose|m: int| 0 <= m < f.len() && f[m] == q;
        if m < a.len() {
            assert(a[m] == q);
            self.lemma_visible_closed(c, q, x);
            let n = choose|n: int| 0 <= n < a.len() && a[n] == x;
            assert(f[n] == x);
        } else {
            assert(b[m - a.len()] == q);
            self.lemma_visible_from_closed(p, k + 1, q, x);
            let n = choose|n: int| 0 <= n < b.len() && b[n] == x;
            assert(f[a.len() + n] == x);
        }
    }

    proof fn lemma_visible_covers(self, i: usize, x: usize)
        requires
            self.wf(),
            self.valid(i),
            self.valid(x),
            self.shown_from(x, i),
        ensures
            self.visible_preorder(i).contains(x),
        decreases self.rank_of(x),
    {
        if x == i {
            assert(self.visible_preorder(i)[0] == i);
        } else {
            assert(self.node_wf(x));
            let q = self.parent_of(x)->0;
            self.lemma_visible_covers(i, q);
            self.lemma_visible_closed(i, q, x);
        }
    }

    /// After an update pass forced from `r`, every node of the subtree of `r`
    /// has had its world matrix recomputed, and each after its parent: so each
    /// one was computed from its parent's fresh world matrix.
    pub proof fn lemma_forced_update_order(self, r: usize)
        requires
            self.wf(),
            self.valid(r),
        ensures
            self.update_plan(r, true) == self.preorder(r),
            self.update_plan(r, true)[0] == r,
            forall|x: usize|
                self.valid(x) && #[trigger] self.in_subtree(x, r) ==> self.update_plan(
                    r,
                    true,
                ).contains(x),
            forall|m: int|
                0 < m < self.update_plan(r, true).len() ==> {
                    &&& #[trigger] self.parent_of(self.update_plan(r, true)[m]) is Some
                    &&& self.update_plan(r, true).subrange(0, m).contains(
                        self.parent_of(self.update_plan(r, true)[m])->0,
                    )
                },
    {
        self.lemma_forced_plan(r);
        self.lemma_preorder_parent_first(r);
        assert forall|x: usize| self.valid(x) && #[trigger] self.in_subtree(x, r) implies self.update_plan(
            r,
            true,
        ).contains(x) by {
            self.lemma_preorder_covers(r, x);
        }
    }

    /// Whether `worlds` holds at `x` the world value that the hierarchy asks
    /// for: the parent's world value composed with the local value of `x`, or,
    /// at a root, the local value itself.
    pub open spec fn world_agrees<T, F: Fn(&T, &T) -> T>(
        self,
        x: usize,
        locals: Seq<T>,
        worlds: Seq<T>,
        compose: F,
    ) -> bool {
        match self.parent_of(x) {
            None => worlds[x as int] == locals[x as int],
            Some(p) => compose.ensures((&worlds[p as int], &locals[x as int]), worlds[x as int]),
        }
    }

    /// An update pass over the subtree rooted at `i`, computing world values
    /// (world matrices) indexed by handle.
    ///
    /// A node is recomputed when it is stale, when automatic updates are on (the
    /// caller has recomposed its local value), or when the pass is forced, and a
    /// recomputed node forces the pass over its children. Each recomputed node
    /// gets `compose` of its parent's world value and its own local value, or,
    /// at a root, its local value; it is then marked up to date. The nodes so
    /// recomputed are returned in the order of the pass, parents first. Nodes
    /// outside the plan keep their world value.
    pub fn update_matrix_world<T: Copy, F: Fn(&T, &T) -> T>(
        &mut self,
        i: usize,
        force: bool,
        locals: &Vec<T>,
        worlds: &mut Vec<T>,
        compose: &F,
    ) -> (plan: Vec<usize>)
        requires
            old(self).wf(),
            old(self).valid(i),
            locals@.len() == old(self).len(),
            old(worlds)@.len() == old(self).len(),
            forall|a: &T, b: &T| compose.requires((a, b)),
        ensures
            final(self).wf(),
            plan@ == old(self).update_plan(i, force),
            plan@.no_duplicates(),
            final(self).len() == old(self).len(),
            forall|x: usize| #[trigger] plan@.contains(x) ==> old(self).valid(x),
            forall|x: usize|
                old(self).valid(x) && #[trigger] old(self).in_subtree(x, i)
                    ==> !final(self).needs_update(x),
            forall|j: usize|
                #![trigger final(self).needs_update(j)]
                old(self).valid(j) ==> final(self).needs_update(j) == (old(self).needs_update(j)
                    && !plan@.contains(j)),
            forall|j: usize|
                #![trigger final(self).parent_of(j)]
                old(self).valid(j) ==> {
                    &&& final(self).parent_of(j) == old(self).parent_of(j)
                    &&& final(self).children_of(j) == old(self).children_of(j)
                    &&& final(self).auto_update(j) == old(self).auto_update(j)
                    &&& final(self).is_visible(j) == old(self).is_visible(j)
                },
            final(worlds)@.len() == old(worlds)@.len(),
            forall|x: usize|
                old(self).valid(x) && !plan@.contains(x) ==> #[trigger] final(worlds)@[x as int]
                    == old(worlds)@[x as int],
            forall|x: usize|
                #[trigger] plan@.contains(x) ==> old(self).world_agrees(
                    x,
                    locals@,
                    final(worlds)@,
                    *compose,
                ),
            old(self).recomputes(i, force) ==> forall|x: usize|
                old(self).valid(x) && #[trigger] old(self).in_subtree(x, i) ==> old(
                    self,
                ).world_agrees(x, locals@, final(worlds)@, *compose),
    {
        let ghost o = *old(self);
        let plan = self.run_update_pass(i, force);
        proof {
            o.lemma_plan_shape(i, force);
        }
        let mut k: usize = 0;
        while k < plan.len()
            invariant
                self.wf(),
                o.wf(),
                o.valid(i),
                plan@ == o.update_plan(i, force),
                plan@.no_duplicates(),
                o.parents_not_after(plan@),
                forall|x: usize| #[trigger] plan@.contains(x) ==> o.valid(x),
                forall|j: usize|
                    #![trigger self.parent_of(j)]
                    o.valid(j) ==> self.parent_of(j) == o.parent_of(j),
                self.len() == o.len(),
                locals@.len() == o.len(),
                worlds@.len() == o.len(),
                forall|a: &T, b: &T| compose.requires((a, b)),
                k <= plan@.len(),
                forall|x: usize|
                    o.valid(x) && !plan@.subrange(0, k as int).contains(x)
                        ==> #[trigger] worlds@[x as int] == old(worlds)@[x as int],
                forall|m: int|
                    0 <= m < k ==> o.world_agrees(#[trigger] plan@[m], locals@, worlds@, *compose),
            decreases plan@.len() - k,
        {
            let y = plan[k];
            proof {
                assert(plan@.contains(y));
                assert(o.node_wf(y));
                assert(self.parent_of(y) == o.parent_of(y));
            }
            let w = match self.nodes[y].parent {
                None => locals[y],
                Some(p) => compose(&worlds[p], &locals[y]),
            };
            let ghost before = worlds@;
            worlds.set(y, w);
            proof {
                assert forall|x: usize|
                    o.valid(x) && !plan@.subrange(0, k + 1).contains(x) implies #[trigger] worlds@[x as int]
                    == old(worlds)@[x as int] by {
                    if x == y {
                        assert(plan@.subrange(0, k + 1)[k as int] == y);
                    } else if plan@.subrange(0, k as int).contains(x) {
                        let m = choose|m: int| 0 <= m < k && plan@.subrange(0, k as int)[m] == x;
                        assert(plan@.subrange(0, k + 1)[m] == x);
                    }
                }
                assert forall|m: int| 0 <= m < k + 1 implies o.world_agrees(
                    #[trigger] plan@[m],
                    locals@,
                    worlds@,
                    *compose,
                ) by {
                    let x = plan@[m];
                    if m == k {
                        assert(worlds@[y as int] == w);
                        if let Some(p) = o.parent_of(y) {
                            assert(o.rank_of(p) < o.rank_of(y));
                            assert(worlds@[p as int] == before[p as int]);
                        }
                    } else {
                        assert(x != y);
                        assert(plan@.contains(x));
                        assert(o.node_wf(x));
                        assert(o.world_agrees(x, locals@, before, *compose));
                        assert(worlds@[x as int] == before[x as int]);
                        if let Some(q) = o.parent_of(x) {
                            assert(o.parent_of(plan@[m]) != Some(plan@[k as int]));
                            assert(worlds@[q as int] == before[q as int]);
                        }
                    }
                }
            }
            k = k + 1;
        }
        proof {
            assert(plan@.subrange(0, k as int) =~= plan@);
            assert forall|x: usize| #[trigger] plan@.contains(x) implies o.world_agrees(
                x,
                locals@,
                worlds@,
                *compose,
            ) by {
                let m = choose|m: int| 0 <= m < plan@.len() && plan@[m] == x;
            }
            if o.recomputes(i, force) {
                assert(o.update_plan(i, force) == o.update_plan(i, true));
                o.lemma_forced_update_order(i);
                assert forall|x: usize|
                    o.valid(x) && #[trigger] o.in_subtree(x, i) implies o.world_agrees(
                    x,
                    locals@,
                    worlds@,
                    *compose,
                ) by {
                    assert(plan@.contains(x));
                }
            }
        }
        plan
    }

    /// Node `i` has the same links and flags in `self` as in `other`.
    pub open spec fn same_node(self, other: Scene, i: usize) -> bool {
        &&& self.parent_of(i) == other.parent_of(i)
        &&& self.children_of(i) == other.children_of(i)
        &&& self.needs_update(i) == other.needs_update(i)
        &&& self.auto_update(i) == other.auto_update(i)
        &&& self.is_visible(i) == other.is_visible(i)
    }
}

} // verus!
