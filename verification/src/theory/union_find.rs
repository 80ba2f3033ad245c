//! A union-find structure over `u32` elements, with union by rank, path
//! compression, and a proof forest that records which asserted equality
//! merged each pair of classes.
//!
//! Elements that were never added behave as singletons.
use vstd::prelude::*;
use vstd::set_lib::{lemma_len_subset, FiniteRange};
use std::collections::HashMap;
use crate::literal::Literal;

verus! {

/// The parent links are closed under the domain and strictly increase the rank.
pub open spec fn links_ok(p: Map<u32, u32>, r: Map<u32, u32>) -> bool {
    &&& r.dom() == p.dom()
    &&& forall|x: u32| p.contains_key(x) ==> p.contains_key(#[trigger] p[x]) && (p[x] != x ==> r[x] < r[p[x]])
}

/// The root reached from `x` by following parent links; `x` itself when `x` is absent.
pub open spec fn root_of(p: Map<u32, u32>, r: Map<u32, u32>, x: u32) -> u32
    decreases u32::MAX - r[x],
    when links_ok(p, r)
{
    if !p.contains_key(x) || p[x] == x {
        x
    } else {
        root_of(p, r, p[x])
    }
}

/// The literals on the proof-forest path from `x` to the root of its proof tree.
pub open spec fn proof_path(pf: Map<u32, (u32, Literal)>, r: Map<u32, u32>, x: u32) -> Seq<Literal>
    decreases u32::MAX - r[x],
    when forall|y: u32| #[trigger] pf.contains_key(y) ==> r.contains_key(y) && r.contains_key(pf[y].0) && r[y] < r[pf[y].0]
{
    if !pf.contains_key(x) {
        Seq::empty()
    } else {
        seq![pf[x].1] + proof_path(pf, r, pf[x].0)
    }
}

/// The classes after merging the classes of `a` and `b` in the relation `same`.
pub open spec fn joined(same: spec_fn(u32, u32) -> bool, a: u32, b: u32, x: u32, y: u32) -> bool {
    same(x, y) || (same(x, a) && same(y, b)) || (same(x, b) && same(y, a))
}

/// The equivalence generated by merging, in order, the pairs of `eqs`.
pub open spec fn connected(eqs: Seq<(u32, u32)>, x: u32, y: u32) -> bool
    decreases eqs.len(),
{
    if eqs.len() == 0 {
        x == y
    } else {
        let (a, b) = eqs.last();
        let pre = eqs.drop_last();
        connected(pre, x, y) || (connected(pre, x, a) && connected(pre, y, b)) || (connected(pre, x, b) && connected(pre, y, a))
    }
}

/// A finite set of `u32` has at most 2^32 elements.
pub proof fn lemma_u32_set_len(s: Set<u32>)
    requires
        s.finite(),
    ensures
        s.len() <= 0x1_0000_0000,
{
    <u32 as FiniteRange>::range_properties(0u32, u32::MAX);
    let range = <u32 as FiniteRange>::range_set(0u32, u32::MAX);
    let full = range.insert(u32::MAX);
    assert(s.subset_of(full));
    lemma_len_subset(s, full);
}

/// Pointing a node at a new root, when the new root's rank exceeds it, preserves
/// every root except those that led to the old root.
pub proof fn lemma_root_after_link(p: Map<u32, u32>, r: Map<u32, u32>, r2: Map<u32, u32>, ra: u32, rb: u32, x: u32)
    requires
        links_ok(p, r),
        p.contains_key(ra),
        p.contains_key(rb),
        p[ra] == ra,
        p[rb] == rb,
        ra != rb,
        r2.dom() == r.dom(),
        forall|y: u32| #[trigger] r.contains_key(y) && y != ra ==> r2[y] == r[y],
        r2[ra] >= r[ra],
        r[rb] < r2[ra],
        links_ok(p.insert(rb, ra), r2),
    ensures
        root_of(p.insert(rb, ra), r2, x) == (if root_of(p, r, x) == rb { ra } else { root_of(p, r, x) }),
    decreases u32::MAX - r[x],
{
    let p2 = p.insert(rb, ra);
    if !p.contains_key(x) {
    } else if x == rb {
        assert(root_of(p2, r2, ra) == ra);
    } else if p[x] == x {
    } else {
        assert(r[x] < r[p[x]]);
        lemma_root_after_link(p, r, r2, ra, rb, p[x]);
    }
}

/// Pointing a non-root node at its root preserves every root.
pub proof fn lemma_root_after_compress(p: Map<u32, u32>, r: Map<u32, u32>, x: u32, y: u32)
    requires
        links_ok(p, r),
        p.contains_key(x),
        p[x] != x,
        links_ok(p.insert(x, root_of(p, r, x)), r),
    ensures
        root_of(p.insert(x, root_of(p, r, x)), r, y) == root_of(p, r, y),
    decreases u32::MAX - r[y],
{
    let p2 = p.insert(x, root_of(p, r, x));
    lemma_root_is_root(p, r, x);
    if !p.contains_key(y) {
    } else if y == x {
        let rt = root_of(p, r, x);
        assert(p2[rt] == rt);
        assert(root_of(p2, r, rt) == rt);
    } else if p[y] == y {
    } else {
        lemma_root_after_compress(p, r, x, p[y]);
    }
}

/// The root of a present node is a present root, and its rank is at least the node's.
pub proof fn lemma_root_is_root(p: Map<u32, u32>, r: Map<u32, u32>, x: u32)
    requires
        links_ok(p, r),
        p.contains_key(x),
    ensures
        p.contains_key(root_of(p, r, x)),
        p[root_of(p, r, x)] == root_of(p, r, x),
        root_of(p, r, x) == x || r[x] < r[root_of(p, r, x)],
        root_of(p, r, root_of(p, r, x)) == root_of(p, r, x),
    decreases u32::MAX - r[x],
{
    if p[x] != x {
        lemma_root_is_root(p, r, p[x]);
    }
}

/// Adding a fresh singleton preserves every root.
pub proof fn lemma_root_after_add(p: Map<u32, u32>, r: Map<u32, u32>, e: u32, y: u32)
    requires
        links_ok(p, r),
        !p.contains_key(e),
        links_ok(p.insert(e, e), r.insert(e, 0)),
    ensures
        root_of(p.insert(e, e), r.insert(e, 0), y) == root_of(p, r, y),
    decreases u32::MAX - r[y],
{
    if !p.contains_key(y) {
    } else if p[y] == y {
    } else {
        lemma_root_after_add(p, r, e, p[y]);
    }
}


/// The roots among the present elements.
pub open spec fn roots(p: Map<u32, u32>) -> Set<u32> {
    p.dom().filter(|x: u32| p[x] == x)
}

/// Every proof edge leaves a present non-root towards a node of higher rank.
pub open spec fn proof_edges_ok(p: Map<u32, u32>, r: Map<u32, u32>, pf: Map<u32, (u32, Literal)>) -> bool {
    forall|y: u32| #[trigger] pf.contains_key(y) ==> {
        &&& p.contains_key(y)
        &&& p[y] != y
        &&& r.contains_key(y)
        &&& r.contains_key(pf[y].0)
        &&& r[y] < r[pf[y].0]
    }
}

/// The literals on a proof path do not depend on the ranks that bound it.
pub proof fn lemma_path_rank_indep(pf: Map<u32, (u32, Literal)>, r: Map<u32, u32>, r2: Map<u32, u32>, x: u32)
    requires
        forall|y: u32| #[trigger] pf.contains_key(y) ==> r.contains_key(y) && r.contains_key(pf[y].0) && r[y] < r[pf[y].0],
        forall|y: u32| #[trigger] pf.contains_key(y) ==> r2.contains_key(y) && r2.contains_key(pf[y].0) && r2[y] < r2[pf[y].0],
    ensures
        proof_path(pf, r2, x) == proof_path(pf, r, x),
    decreases u32::MAX - r[x],
{
    if pf.contains_key(x) {
        lemma_path_rank_indep(pf, r, r2, pf[x].0);
    }
}

/// A union-find structure over `u32` elements.
pub struct UnionFind {
    parent: HashMap<u32, u32>,
    rank: HashMap<u32, u32>,
    proof: HashMap<u32, (u32, Literal)>,
    merges: Ghost<nat>,
}

impl UnionFind {
    /// The present elements.
    pub closed spec fn dom(&self) -> Set<u32> {
        self.parent@.dom()
    }

    /// The representative of `x`: its root, or `x` itself when absent.
    pub closed spec fn rep(&self, x: u32) -> u32 {
        root_of(self.parent@, self.rank@, x)
    }

    /// Whether `x` and `y` are in the same class.
    pub open spec fn same(&self, x: u32, y: u32) -> bool {
        self.rep(x) == self.rep(y)
    }

    /// The rank of `x`.
    pub closed spec fn rank_of(&self, x: u32) -> u32 {
        self.rank@[x]
    }

    /// The proof edges: the element each merged element was linked to, with the literal of the merge.
    pub closed spec fn edges(&self) -> Map<u32, (u32, Literal)> {
        self.proof@
    }

    /// The literals carried by proof edges.
    pub open spec fn edge_literals(&self) -> Set<Literal> {
        Set::new(|l: Literal| exists|y: u32| #[trigger] self.edges().contains_key(y) && self.edges()[y].1 == l)
    }

    /// The literals on the proof path from `x`.
    pub closed spec fn path(&self, x: u32) -> Seq<Literal> {
        proof_path(self.proof@, self.rank@, x)
    }

    /// The structure's invariant.
    pub closed spec fn wf(&self) -> bool {
        &&& links_ok(self.parent@, self.rank@)
        &&& proof_edges_ok(self.parent@, self.rank@, self.proof@)
        &&& self.parent@.dom().finite()
        &&& forall|x: u32| #[trigger] self.rank@.contains_key(x) ==> self.rank@[x] <= self.merges@
        &&& self.merges@ + roots(self.parent@).len() == self.parent@.dom().len()
    }

    /// An empty structure.
    pub fn new() -> (u: Self)
        ensures
            u.wf(),
            u.dom() == Set::<u32>::empty(),
            u.edges() == Map::<u32, (u32, Literal)>::empty(),
            forall|x: u32| #[trigger] u.rep(x) == x,
            forall|x: u32| #[trigger] u.path(x) == Seq::<Literal>::empty(),
    {
        let u = UnionFind {
            parent: HashMap::new(),
            rank: HashMap::new(),
            proof: HashMap::new(),
            merges: Ghost(0),
        };
        proof {
            assert(roots(u.parent@) =~= Set::<u32>::empty());
        }
        u
    }

    /// Whether `x` is present.
    pub fn contains(&self, x: u32) -> (b: bool)
        ensures
            b == self.dom().contains(x),
    {
        broadcast use vstd::std_specs::hash::group_hash_axioms;
        self.parent.contains_key(&x)
    }

    /// Add `e` as a singleton if it is absent.
    pub fn add(&mut self, e: u32)
        requires
            old(self).wf(),
        ensures
            final(self).wf(),
            final(self).dom() == old(self).dom().insert(e),
            final(self).edges() == old(self).edges(),
            forall|x: u32| #[trigger] final(self).rep(x) == old(self).rep(x),
            forall|x: u32| #[trigger] final(self).path(x) == old(self).path(x),
    {
        broadcast use vstd::std_specs::hash::group_hash_axioms;
        if self.parent.contains_key(&e) {
            return;
        }
        let ghost p = self.parent@;
        let ghost r = self.rank@;
        self.parent.insert(e, e);
        self.rank.insert(e, 0);
        proof {
            let p2 = self.parent@;
            let r2 = self.rank@;
            assert(links_ok(p2, r2)) by {
                assert(r2.dom() =~= p2.dom());
            }
            assert forall|x: u32| #[trigger] final(self).rep(x) == old(self).rep(x) by {
                lemma_root_after_add(p, r, e, x);
            }
            assert forall|x: u32| #[trigger] final(self).path(x) == old(self).path(x) by {
                lemma_path_rank_indep(self.proof@, r, r2, x);
            }
            assert(roots(p2) =~= roots(p).insert(e));
            assert(!roots(p).contains(e));
            assert(p2.dom() =~= p.dom().insert(e));
        }
    }

    /// The representative of a present element, compressing the path to it.
    pub fn find(&mut self, x: u32) -> (root: u32)
        requires
            old(self).wf(),
            old(self).dom().contains(x),
        ensures
            final(self).wf(),
            root == old(self).rep(x),
            final(self).dom() == old(self).dom(),
            final(self).edges() == old(self).edges(),
            forall|y: u32| #[trigger] final(self).rep(y) == old(self).rep(y),
            forall|y: u32| #[trigger] final(self).path(y) == old(self).path(y),
        decreases u32::MAX - old(self).rank_of(x),
    {
        broadcast use vstd::std_specs::hash::group_hash_axioms;
        let p = *self.parent.get(&x).unwrap();
        if p == x {
            return x;
        }
        let ghost p0 = self.parent@;
        proof {
            lemma_root_is_root(p0, self.rank@, p);
            assert(root_of(p0, self.rank@, x) == root_of(p0, self.rank@, p));
        }
        let root = self.find(p);
        let ghost s1 = *self;
        let ghost p1 = self.parent@;
        let ghost r = self.rank@;
        proof {
            assert(self.rep(x) == old(self).rep(x));
            assert(root == root_of(p1, r, x));
            assert(root != x);
            if p1[x] == x {
                assert(root_of(p1, r, x) == x);
            }
            lemma_root_is_root(p1, r, x);
        }
        self.parent.insert(x, root);
        proof {
            let p2 = self.parent@;
            assert(p2 == p1.insert(x, root_of(p1, r, x)));
            assert(r.dom() =~= p2.dom());
            assert forall|y: u32| p2.contains_key(y) implies p2.contains_key(#[trigger] p2[y]) && (p2[y] != y ==> r[y] < r[p2[y]]) by {
                if y != x {
                    assert(p1.contains_key(p1[y]));
                }
            }
            assert(links_ok(p2, r));
            assert forall|y: u32| #[trigger] final(self).rep(y) == old(self).rep(y) by {
                lemma_root_after_compress(p1, r, x, y);
                assert(s1.rep(y) == old(self).rep(y));
            }
            assert forall|y: u32| #[trigger] final(self).path(y) == old(self).path(y) by {
                assert(s1.path(y) == old(self).path(y));
            }
            assert(roots(p2) =~= roots(p1));
            assert(p2.dom() =~= p1.dom());
        }
        root
    }

    /// The representative of `x`, without changing the structure.
    pub fn find_const(&self, x: u32) -> (root: u32)
        requires
            self.wf(),
        ensures
            root == self.rep(x),
    {
        broadcast use vstd::std_specs::hash::group_hash_axioms;
        let mut cur = x;
        loop
            invariant
                self.wf(),
                self.rep(cur) == self.rep(x),
            decreases u32::MAX - self.rank@[cur],
        {
            match self.parent.get(&cur) {
                None => {
                    return cur;
                },
                Some(p) => {
                    if *p == cur {
                        return cur;
                    }
                    cur = *p;
                },
            }
        }
    }

    /// Link the root `child` below the root `top`, recording `lit` as the reason.
    fn link(&mut self, child: u32, top: u32, lit: Literal, bump: bool)
        requires
            old(self).wf(),
            old(self).dom().contains(child),
            old(self).dom().contains(top),
            old(self).rep(child) == child,
            old(self).rep(top) == top,
            child != top,
            bump ==> old(self).rank@[child] == old(self).rank@[top],
            !bump ==> old(self).rank@[child] < old(self).rank@[top],
        ensures
            final(self).wf(),
            final(self).dom() == old(self).dom(),
            final(self).edges() == old(self).edges().insert(child, (top, lit)),
            forall|y: u32| #[trigger] final(self).rep(y) == (if old(self).rep(y) == child { top } else { old(self).rep(y) }),
    {
        broadcast use vstd::std_specs::hash::group_hash_axioms;
        let ghost p = self.parent@;
        let ghost r = self.rank@;
        let ghost pf = self.proof@;
        proof {
            // the two roots are distinct members of the root set
            assert(p[child] == child) by {
                if p[child] != child {
                    lemma_root_is_root(p, r, child);
                }
            }
            assert(p[top] == top) by {
                if p[top] != top {
                    lemma_root_is_root(p, r, top);
                }
            }
            let both = Set::<u32>::empty().insert(child).insert(top);
            assert(both.subset_of(roots(p)));
            assert(both.len() == 2);
            lemma_len_subset(both, roots(p));
            lemma_u32_set_len(p.dom());
        }
        self.parent.insert(child, top);
        self.proof.insert(child, (top, lit));
        if bump {
            let rt = *self.rank.get(&top).unwrap();
            self.rank.insert(top, rt + 1);
        }
        proof {
            self.merges@ = self.merges@ + 1;
            let p2 = self.parent@;
            let r2 = self.rank@;
            assert(r2.dom() =~= r.dom());
            assert(r2.dom() =~= p2.dom());
            assert forall|y: u32| p2.contains_key(y) implies p2.contains_key(#[trigger] p2[y]) && (p2[y] != y ==> r2[y] < r2[p2[y]]) by {
                if y != child {
                    assert(p.contains_key(p[y]));
                }
            }
            assert(links_ok(p2, r2));
            assert(proof_edges_ok(p2, r2, self.proof@));
            assert forall|y: u32| #[trigger] final(self).rep(y) == (if old(self).rep(y) == child { top } else { old(self).rep(y) }) by {
                lemma_root_after_link(p, r, r2, top, child, y);
            }
            assert(roots(p2) =~= roots(p).remove(child));
            assert(p2.dom() =~= p.dom());
        }
    }

    /// Merge the classes of two present elements, recording `lit` as the reason.
    pub fn union(&mut self, a: u32, b: u32, lit: Literal)
        requires
            old(self).wf(),
            old(self).dom().contains(a),
            old(self).dom().contains(b),
        ensures
            final(self).wf(),
            final(self).dom() == old(self).dom(),
            forall|x: u32, y: u32| #[trigger] final(self).same(x, y) == (old(self).same(x, y)
                || (old(self).same(x, a) && old(self).same(y, b)) || (old(self).same(x, b) && old(self).same(y, a))),
            forall|y: u32| #[trigger] old(self).edges().contains_key(y) ==> final(self).edges().contains_key(y) && final(self).edges()[y] == old(self).edges()[y],
            forall|y: u32| #[trigger] final(self).edges().contains_key(y) && !old(self).edges().contains_key(y) ==> final(self).edges()[y].1 == lit,
    {
        broadcast use vstd::std_specs::hash::group_hash_axioms;
        let ra = self.find(a);
        let rb = self.find(b);
        proof {
            assert(self.rep(a) == ra);
            assert(self.rep(b) == rb);
            lemma_root_is_root(self.parent@, self.rank@, a);
            lemma_root_is_root(self.parent@, self.rank@, b);
        }
        if ra == rb {
            return;
        }
        let rank_a = *self.rank.get(&ra).unwrap();
        let rank_b = *self.rank.get(&rb).unwrap();
        let ghost mid = *self;
        if rank_a < rank_b {
            self.link(ra, rb, lit, false);
        } else if rank_a > rank_b {
            self.link(rb, ra, lit, false);
        } else {
            self.link(rb, ra, lit, true);
        }
        proof {
            assert forall|x: u32, y: u32| #[trigger] self.same(x, y) == (mid.same(x, y)
                || (mid.same(x, a) && mid.same(y, b)) || (mid.same(x, b) && mid.same(y, a))) by {
                assert(self.rep(x) == (if mid.rep(x) == ra || mid.rep(x) == rb { self.rep(a) } else { mid.rep(x) }));
                assert(self.rep(y) == (if mid.rep(y) == ra || mid.rep(y) == rb { self.rep(a) } else { mid.rep(y) }));
            }
        }
    }

    /// The literals on the proof path from `x`.
    pub fn collect_path(&self, x: u32) -> (lits: Vec<Literal>)
        requires
            self.wf(),
        ensures
            lits@ == self.path(x),
    {
        broadcast use vstd::std_specs::hash::group_hash_axioms;
        let mut lits: Vec<Literal> = Vec::new();
        let mut cur = x;
        loop
            invariant
                self.wf(),
                lits@ + self.path(cur) == self.path(x),
            decreases u32::MAX - self.rank@[cur],
        {
            match self.proof.get(&cur) {
                None => {
                    assert(lits@ + self.path(cur) =~= lits@);
                    return lits;
                },
                Some(edge) => {
                    let (next, lit) = *edge;
                    assert(seq![lit] + self.path(next) == self.path(cur));
                    lits.push(lit);
                    assert(lits@ + self.path(next) =~= self.path(x));
                    cur = next;
                },
            }
        }
    }

    /// Remove every element.
    pub fn clear(&mut self)
        ensures
            final(self).wf(),
            final(self).dom() == Set::<u32>::empty(),
            final(self).edges() == Map::<u32, (u32, Literal)>::empty(),
            forall|x: u32| #[trigger] final(self).rep(x) == x,
            forall|x: u32| #[trigger] final(self).path(x) == Seq::<Literal>::empty(),
    {
        *self = UnionFind::new();
    }

    /// Every literal on a proof path is the literal of some proof edge.
    pub proof fn lemma_path_literals(&self, x: u32)
        requires
            self.wf(),
        ensures
            forall|i: int| 0 <= i < self.path(x).len() ==> self.edge_literals().contains(#[trigger] self.path(x)[i]),
        decreases u32::MAX - self.rank_of(x),
    {
        let pf = self.proof@;
        if pf.contains_key(x) {
            self.lemma_path_literals(pf[x].0);
            let rest = self.path(pf[x].0);
            assert(self.path(x) == seq![pf[x].1] + rest);
            assert forall|i: int| 0 <= i < self.path(x).len() implies self.edge_literals().contains(#[trigger] self.path(x)[i]) by {
                if i == 0 {
                    assert(self.edges().contains_key(x));
                } else {
                    assert(self.path(x)[i] == rest[i - 1]);
                }
            }
        }
    }
}

} // verus!
