//! Disjoint-set forest over `usize` labels with path compression and union by rank.
//!
//! Labels that were never registered behave as singleton sets: their parent is
//! themselves and their rank is zero.
use std::collections::HashMap;
use vstd::prelude::*;
use vstd::set_lib::{lemma_int_range, lemma_len_subset, lemma_map_size, set_int_range};

verus! {

broadcast use vstd::std_specs::hash::group_hash_axioms;

/// Parent of `x` (itself when `x` has no entry).
pub open spec fn pget(p: Map<usize, usize>, x: usize) -> usize {
    if p.contains_key(x) {
        p[x]
    } else {
        x
    }
}

/// Rank of `x` (zero when `x` has no entry).
pub open spec fn rget(r: Map<usize, usize>, x: usize) -> usize {
    if r.contains_key(x) {
        r[x]
    } else {
        0
    }
}

/// Level of `x` (zero when `x` has no entry).
pub open spec fn hget(h: Map<usize, nat>, x: usize) -> nat {
    if h.contains_key(x) {
        h[x]
    } else {
        0
    }
}

/// Levels strictly decrease along every parent link, so following links ends.
pub open spec fn leveled(p: Map<usize, usize>, h: Map<usize, nat>) -> bool {
    forall|x: usize| #[trigger] pget(p, x) != x ==> hget(h, pget(p, x)) < hget(h, x)
}

/// The root reached from `x` by following parent links.
pub open spec fn root_of(p: Map<usize, usize>, h: Map<usize, nat>, x: usize) -> usize
    decreases hget(h, x),
    when leveled(p, h)
{
    if pget(p, x) == x {
        x
    } else {
        root_of(p, h, pget(p, x))
    }
}

/// `t` lies on the chain of parent links from `x` to its root.
pub open spec fn on_way(p: Map<usize, usize>, h: Map<usize, nat>, x: usize, t: usize) -> bool
    decreases hget(h, x),
    when leveled(p, h)
{
    x == t || (pget(p, x) != x && on_way(p, h, pget(p, x), t))
}

/// The labels with an entry.
pub open spec fn registered(p: Map<usize, usize>, r: Map<usize, usize>) -> Set<usize> {
    Set::new(|z: usize| p.contains_key(z) || r.contains_key(z))
}

/// Every label that a link points to has an entry.
pub open spec fn links_registered(p: Map<usize, usize>, r: Map<usize, usize>) -> bool {
    forall|x: usize| #[trigger] pget(p, x) != x ==> registered(p, r).contains(pget(p, x))
}

/// The labels of rank at least `k`.
pub open spec fn at_least(r: Map<usize, usize>, k: int) -> Set<usize> {
    Set::new(|z: usize| r.contains_key(z) && r[z] >= k)
}

/// A rank `k` needs `k` labels besides those of rank `k` or more: the labels
/// of rank at least `k` (when there are any) and `k` more fit among the
/// registered labels.  This keeps every rank below `usize::MAX`.
pub open spec fn ranks_counted(p: Map<usize, usize>, r: Map<usize, usize>) -> bool {
    &&& p.dom().finite()
    &&& r.dom().finite()
    &&& forall|k: int|
        1 <= k && (#[trigger] at_least(r, k)).len() > 0 ==> at_least(r, k).len() + k <= registered(
            p,
            r,
        ).len()
}

proof fn lemma_registered_finite(p: Map<usize, usize>, r: Map<usize, usize>)
    requires
        p.dom().finite(),
        r.dom().finite(),
    ensures
        registered(p, r).finite(),
        registered(p, r).len() <= usize::MAX + 1,
        forall|k: int| #[trigger] at_least(r, k).finite(),
{
    assert(registered(p, r) =~= p.dom().union(r.dom()));
    let d = registered(p, r);
    let f = |z: usize| z as int;
    let di = d.map(f);
    assert(vstd::relations::injective_on(f, d));
    lemma_map_size(d, di, f);
    lemma_int_range(0, usize::MAX + 1);
    assert(di.subset_of(set_int_range(0, usize::MAX + 1)));
    lemma_len_subset(di, set_int_range(0, usize::MAX + 1));
    assert forall|k: int| #[trigger] at_least(r, k).finite() by {
        assert(at_least(r, k).subset_of(r.dom()));
        lemma_len_subset(at_least(r, k), r.dom());
    }
}

/// The root of `x` is a root, and levels decrease on the way to it.
proof fn lemma_root(p: Map<usize, usize>, h: Map<usize, nat>, x: usize)
    requires
        leveled(p, h),
    ensures
        pget(p, root_of(p, h, x)) == root_of(p, h, x),
        root_of(p, h, x) == x || hget(h, root_of(p, h, x)) < hget(h, x),
        pget(p, x) == x ==> root_of(p, h, x) == x,
        pget(p, x) != x ==> root_of(p, h, x) == root_of(p, h, pget(p, x)),
        on_way(p, h, x, root_of(p, h, x)),
    decreases hget(h, x),
{
    if pget(p, x) != x {
        lemma_root(p, h, pget(p, x));
    }
}

/// A root other than `x` itself is pointed to, so it has an entry.
proof fn lemma_root_registered(p: Map<usize, usize>, r: Map<usize, usize>, h: Map<usize, nat>, x: usize)
    requires
        leveled(p, h),
        links_registered(p, r),
    ensures
        root_of(p, h, x) != x ==> registered(p, r).contains(root_of(p, h, x)),
    decreases hget(h, x),
{
    if pget(p, x) != x {
        lemma_root_registered(p, r, h, pget(p, x));
        lemma_root(p, h, pget(p, x));
    }
}

/// A label without an entry lies on no chain but its own.
proof fn lemma_unregistered_off_way(
    p: Map<usize, usize>,
    r: Map<usize, usize>,
    h: Map<usize, nat>,
    y: usize,
    x: usize,
)
    requires
        leveled(p, h),
        links_registered(p, r),
        !registered(p, r).contains(x),
    ensures
        on_way(p, h, y, x) == (y == x),
    decreases hget(h, y),
{
    if y != x && pget(p, y) != y {
        assert(registered(p, r).contains(pget(p, y)));
        lemma_unregistered_off_way(p, r, h, pget(p, y), x);
    }
}

/// Pointing a non-root directly at its root keeps every root and the levels.
proof fn lemma_compress(p: Map<usize, usize>, h: Map<usize, nat>, x: usize, y: usize)
    requires
        leveled(p, h),
        pget(p, x) != x,
    ensures
        leveled(p.insert(x, root_of(p, h, x)), h),
        root_of(p.insert(x, root_of(p, h, x)), h, y) == root_of(p, h, y),
    decreases hget(h, y),
{
    let rt = root_of(p, h, x);
    let p2 = p.insert(x, rt);
    lemma_root(p, h, x);
    assert forall|z: usize| #[trigger] pget(p2, z) != z implies hget(h, pget(p2, z)) < hget(h, z) by {
        if z != x {
            assert(pget(p2, z) == pget(p, z));
        }
    }
    lemma_root(p2, h, y);
    lemma_root(p, h, y);
    if y == x {
        lemma_root(p2, h, rt);
        assert(pget(p2, rt) == rt);
    } else if pget(p, y) != y {
        assert(pget(p2, y) == pget(p, y));
        lemma_compress(p, h, x, pget(p, y));
    } else {
        assert(pget(p2, y) == y);
    }
}

/// Levels after linking root `child` below root `root`: the tree of `child`
/// moves above the level of `root`.
pub open spec fn linked_levels(p: Map<usize, usize>, h: Map<usize, nat>, child: usize, root: usize) -> Map<
    usize,
    nat,
> {
    Map::new(
        |z: usize| true,
        |z: usize|
            if root_of(p, h, z) == child {
                hget(h, z) + hget(h, root) + 1
            } else {
                hget(h, z)
            },
    )
}

proof fn lemma_link_leveled(p: Map<usize, usize>, h: Map<usize, nat>, child: usize, root: usize)
    requires
        leveled(p, h),
        child != root,
        pget(p, child) == child,
        pget(p, root) == root,
    ensures
        leveled(p.insert(child, root), linked_levels(p, h, child, root)),
{
    let p2 = p.insert(child, root);
    let h2 = linked_levels(p, h, child, root);
    lemma_root(p, h, child);
    lemma_root(p, h, root);
    assert forall|z: usize| #[trigger] pget(p2, z) != z implies hget(h2, pget(p2, z)) < hget(h2, z) by {
        if z == child {
            assert(pget(p2, z) == root);
        } else {
            assert(pget(p2, z) == pget(p, z));
            lemma_root(p, h, z);
        }
    }
}

/// Linking root `child` below root `root` merges the two sets.
proof fn lemma_link(p: Map<usize, usize>, h: Map<usize, nat>, child: usize, root: usize, y: usize)
    requires
        leveled(p, h),
        child != root,
        pget(p, child) == child,
        pget(p, root) == root,
    ensures
        leveled(p.insert(child, root), linked_levels(p, h, child, root)),
        root_of(p.insert(child, root), linked_levels(p, h, child, root), y) == (if root_of(p, h, y)
            == child {
            root
        } else {
            root_of(p, h, y)
        }),
    decreases hget(h, y),
{
    let p2 = p.insert(child, root);
    let h2 = linked_levels(p, h, child, root);
    lemma_link_leveled(p, h, child, root);
    lemma_root(p2, h2, y);
    lemma_root(p, h, y);
    if y == child {
        assert(pget(p2, root) == root);
        lemma_root(p2, h2, root);
    } else if pget(p, y) != y {
        assert(pget(p2, y) == pget(p, y));
        lemma_link(p, h, child, root, pget(p, y));
    } else {
        assert(pget(p2, y) == y);
    }
}

/// Making `x` its own parent splits off the part of its tree below it.
proof fn lemma_reset(p: Map<usize, usize>, h: Map<usize, nat>, x: usize, y: usize)
    requires
        leveled(p, h),
    ensures
        leveled(p.insert(x, x), h),
        root_of(p.insert(x, x), h, y) == (if on_way(p, h, y, x) {
            x
        } else {
            root_of(p, h, y)
        }),
    decreases hget(h, y),
{
    let p2 = p.insert(x, x);
    assert forall|z: usize| #[trigger] pget(p2, z) != z implies hget(h, pget(p2, z)) < hget(h, z) by {
        assert(z != x);
        assert(pget(p2, z) == pget(p, z));
    }
    lemma_root(p2, h, y);
    lemma_root(p, h, y);
    if y == x {
        assert(pget(p2, x) == x);
    } else if pget(p, y) != y {
        assert(pget(p2, y) == pget(p, y));
        lemma_reset(p, h, x, pget(p, y));
    } else {
        assert(pget(p2, y) == y);
    }
}

/// Union-find structure over `usize` labels.
pub struct UnionFind {
    parent: HashMap<usize, usize>,
    rank: HashMap<usize, usize>,
    /// Levels that decrease along parent links (a termination measure).
    level: Ghost<Map<usize, nat>>,
}

impl UnionFind {
    /// Well-formedness: links lead to roots, linked-to labels have entries,
    /// and ranks stay small enough to count.
    pub closed spec fn inv(&self) -> bool {
        &&& leveled(self.parent@, self.level@)
        &&& links_registered(self.parent@, self.rank@)
        &&& ranks_counted(self.parent@, self.rank@)
    }

    /// The representative of the set that holds `x`.
    pub closed spec fn rep(&self, x: usize) -> usize {
        root_of(self.parent@, self.level@, x)
    }

    /// `t` lies on the chain of parent links from `y` to its representative.
    pub closed spec fn reaches(&self, y: usize, t: usize) -> bool {
        on_way(self.parent@, self.level@, y, t)
    }

    /// The rank of `x`: it decides which root a union keeps.
    pub closed spec fn rank_of(&self, x: usize) -> usize {
        rget(self.rank@, x)
    }

    /// `x` has an entry in the structure (it was registered or linked).
    pub closed spec fn contains(&self, x: usize) -> bool {
        self.parent@.contains_key(x) || self.rank@.contains_key(x)
    }

    /// Same ranks, levels and labelled entries: only links of non-roots may differ.
    pub closed spec fn same_shape(&self, other: &Self) -> bool {
        &&& self.rank@ == other.rank@
        &&& self.level@ == other.level@
        &&& self.parent@.dom() == other.parent@.dom()
    }

    /// Termination measure for following links from `x`.
    pub closed spec fn height(&self, x: usize) -> int {
        hget(self.level@, x) as int
    }

    /// An empty structure: every label is its own singleton set.
    pub fn new() -> (uf: Self)
        ensures
            uf.inv(),
            forall|x: usize| #[trigger] uf.rep(x) == x,
            forall|x: usize| !#[trigger] uf.contains(x),
            forall|x: usize| #[trigger] uf.rank_of(x) == 0,
    {
        let uf = UnionFind { parent: HashMap::new(), rank: HashMap::new(), level: Ghost(Map::empty()) };
        assert forall|x: usize| #[trigger] uf.rep(x) == x by {
            lemma_root(uf.parent@, uf.level@, x);
        }
        assert forall|k: int| 1 <= k implies #[trigger] at_least(uf.rank@, k).len() == 0 by {
            assert(at_least(uf.rank@, k) =~= Set::empty());
        }
        uf
    }

    /// Registers `x` as a singleton set with rank zero.  When `x` already has
    /// an entry, it becomes a root again: the labels whose chain to their
    /// representative passes through `x` now have `x` as representative.
    pub fn make_set(&mut self, x: usize)
        requires
            old(self).inv(),
        ensures
            final(self).inv(),
            final(self).contains(x),
            forall|y: usize| #[trigger] final(self).contains(y) == (old(self).contains(y) || y == x),
            forall|y: usize| #[trigger]
                final(self).rep(y) == (if old(self).reaches(y, x) {
                    x
                } else {
                    old(self).rep(y)
                }),
            !old(self).contains(x) ==> forall|y: usize| #[trigger] final(self).rep(y) == old(self).rep(y),
            forall|y: usize| #[trigger] final(self).rank_of(y) == (if y == x {
                0
            } else {
                old(self).rank_of(y)
            }),
    {
        let ghost p = self.parent@;
        let ghost r = self.rank@;
        let ghost h = self.level@;
        self.parent.insert(x, x);
        self.rank.insert(x, 0);
        proof {
            let p2 = self.parent@;
            let r2 = self.rank@;
            assert(p2 == p.insert(x, x));
            assert(r2 == r.insert(x, 0));
            assert forall|y: usize| #[trigger] root_of(p2, h, y) == (if on_way(p, h, y, x) {
                x
            } else {
                root_of(p, h, y)
            }) by {
                lemma_reset(p, h, x, y);
            }
            lemma_reset(p, h, x, x);
            assert forall|z: usize| #[trigger] pget(p2, z) != z implies registered(p2, r2).contains(
                pget(p2, z),
            ) by {
                assert(pget(p2, z) == pget(p, z));
                assert(registered(p, r).contains(pget(p, z)));
            }
            lemma_registered_finite(p, r);
            lemma_registered_finite(p2, r2);
            assert(registered(p, r).subset_of(registered(p2, r2)));
            lemma_len_subset(registered(p, r), registered(p2, r2));
            assert forall|k: int|
                1 <= k && (#[trigger] at_least(r2, k)).len() > 0 implies at_least(r2, k).len() + k
                <= registered(p2, r2).len() by {
                assert(at_least(r2, k).subset_of(at_least(r, k)));
                lemma_len_subset(at_least(r2, k), at_least(r, k));
            }
            if !registered(p, r).contains(x) {
                assert forall|y: usize| on_way(p, h, y, x) implies #[trigger] root_of(p, h, y) == x by {
                    lemma_unregistered_off_way(p, r, h, y, x);
                    lemma_root(p, h, x);
                }
            }
        }
    }

    /// The representative of `x`; compresses the path from `x`.
    pub fn find(&mut self, x: usize) -> (root: usize)
        requires
            old(self).inv(),
        ensures
            final(self).inv(),
            root == old(self).rep(x),
            forall|y: usize| #[trigger] final(self).rep(y) == old(self).rep(y),
            forall|y: usize| #[trigger] final(self).contains(y) == old(self).contains(y),
            forall|y: usize| #[trigger] final(self).rank_of(y) == old(self).rank_of(y),
            final(self).same_shape(old(self)),
        decreases old(self).height(x),
    {
        let ghost p0 = self.parent@;
        let ghost r0 = self.rank@;
        let ghost h = self.level@;
        let ghost s0: UnionFind = *self;
        let p = match self.parent.get(&x) {
            Some(v) => *v,
            None => x,
        };
        assert(p == pget(p0, x));
        if p != x {
            proof {
                lemma_root(p0, h, x);
            }
            let root = self.find(p);
            let ghost p1 = self.parent@;
            let ghost s1: UnionFind = *self;
            proof {
                assert(s1.rep(x) == s0.rep(x));
                assert(p0.contains_key(x));
                assert(p1.dom() == p0.dom());
                assert(self.level@ == h);
                // the link of x is untouched by the recursive call
                assert(s1.rep(p) == s0.rep(p));
                lemma_root(p1, h, x);
                if pget(p1, x) == x {
                    assert(root_of(p1, h, x) == x);
                    lemma_root(p0, h, x);
                    assert(false);
                }
                assert(root == root_of(p1, h, x));
            }
            self.parent.insert(x, root);
            proof {
                let p2 = self.parent@;
                assert(p2 == p1.insert(x, root_of(p1, h, x)));
                lemma_compress(p1, h, x, x);
                assert forall|y: usize| #[trigger] root_of(p2, h, y) == root_of(p0, h, y) by {
                    lemma_compress(p1, h, x, y);
                    assert(s1.rep(y) == s0.rep(y));
                }
                assert(p2.dom() =~= p1.dom());
                lemma_root_registered(p1, r0, h, x);
                lemma_root(p1, h, x);
                assert forall|z: usize| #[trigger] pget(p2, z) != z implies registered(p2, r0).contains(
                    pget(p2, z),
                ) by {
                    if z != x {
                        assert(pget(p2, z) == pget(p1, z));
                        assert(registered(p1, r0).contains(pget(p1, z)));
                    }
                }
                assert(registered(p2, r0) =~= registered(p1, r0));
            }
            root
        } else {
            proof {
                lemma_root(p0, h, x);
            }
            x
        }
    }

    /// Merges the sets of `a` and `b`: the root of smaller rank goes below the
    /// other; on equal ranks the root of `b` goes below that of `a`, whose
    /// rank grows by one.
    pub fn union(&mut self, a: usize, b: usize)
        requires
            old(self).inv(),
        ensures
            final(self).inv(),
            final(self).rep(a) == final(self).rep(b),
            final(self).rep(a) == old(self).rep(a) || final(self).rep(a) == old(self).rep(b),
            forall|y: usize| #[trigger]
                final(self).rep(y) == (if old(self).rep(y) == old(self).rep(a) || old(self).rep(y)
                    == old(self).rep(b) {
                    final(self).rep(a)
                } else {
                    old(self).rep(y)
                }),
            forall|y: usize| old(self).contains(y) ==> #[trigger] final(self).contains(y),
            forall|y: usize| #[trigger]
                final(self).contains(y) ==> old(self).contains(y) || y == old(self).rep(a) || y
                    == old(self).rep(b),
            final(self).rep(a) == (if old(self).rep(a) != old(self).rep(b) && old(self).rank_of(
                old(self).rep(a),
            ) < old(self).rank_of(old(self).rep(b)) {
                old(self).rep(b)
            } else {
                old(self).rep(a)
            }),
            forall|z: usize| #[trigger]
                final(self).rank_of(z) == (if old(self).rep(a) != old(self).rep(b) && z == old(
                    self,
                ).rep(a) && old(self).rank_of(old(self).rep(a)) == old(self).rank_of(
                    old(self).rep(b),
                ) {
                    old(self).rank_of(z) + 1
                } else {
                    old(self).rank_of(z) as int
                }),
    {
        let ghost s0: UnionFind = *self;
        let ra = self.find(a);
        let ghost s1: UnionFind = *self;
        let rb = self.find(b);
        let ghost s2: UnionFind = *self;
        let ghost p = self.parent@;
        let ghost r = self.rank@;
        let ghost h = self.level@;
        assert(s2.rep(a) == s1.rep(a));
        assert(s1.rep(a) == s0.rep(a));
        assert(s2.rep(b) == s1.rep(b));
        assert(s1.rep(b) == s0.rep(b));
        assert(r == s0.rank@);
        assert forall|y: usize| #[trigger] s2.rep(y) == s0.rep(y) by {
            assert(s2.rep(y) == s1.rep(y));
        }
        assert forall|y: usize| #[trigger] s2.contains(y) == s0.contains(y) by {
            assert(s2.contains(y) == s1.contains(y));
        }
        if ra == rb {
            return;
        }
        proof {
            lemma_root(p, h, a);
            lemma_root(p, h, b);
            lemma_registered_finite(p, r);
        }
        let rank_a = match self.rank.get(&ra) {
            Some(v) => *v,
            None => 0,
        };
        let rank_b = match self.rank.get(&rb) {
            Some(v) => *v,
            None => 0,
        };
        assert(rank_a == rget(r, ra) && rank_b == rget(r, rb));
        if rank_a < rank_b {
            self.parent.insert(ra, rb);
            self.level = Ghost(linked_levels(p, h, ra, rb));
            proof {
                let p2 = self.parent@;
                let h2 = self.level@;
                assert(p2 == p.insert(ra, rb));
                assert forall|y: usize| #[trigger] root_of(p2, h2, y) == (if root_of(p, h, y) == ra {
                    rb
                } else {
                    root_of(p, h, y)
                }) by {
                    lemma_link(p, h, ra, rb, y);
                }
                lemma_link(p, h, ra, rb, a);
                assert(r.contains_key(rb));
                lemma_after_link(p, r, self.parent@, rb, ra);
                assert forall|y: usize| #[trigger] self.rep(y) == (if s0.rep(y) == s0.rep(a) || s0.rep(y) == s0.rep(b) {
                    self.rep(a)
                } else {
                    s0.rep(y)
                }) by {
                    assert(s2.rep(y) == s0.rep(y));
                }
            }
        } else if rank_a > rank_b {
            self.parent.insert(rb, ra);
            self.level = Ghost(linked_levels(p, h, rb, ra));
            proof {
                let p2 = self.parent@;
                let h2 = self.level@;
                assert(p2 == p.insert(rb, ra));
                assert forall|y: usize| #[trigger] root_of(p2, h2, y) == (if root_of(p, h, y) == rb {
                    ra
                } else {
                    root_of(p, h, y)
                }) by {
                    lemma_link(p, h, rb, ra, y);
                }
                lemma_link(p, h, rb, ra, a);
                assert(r.contains_key(ra));
                lemma_after_link(p, r, self.parent@, ra, rb);
                assert forall|y: usize| #[trigger] self.rep(y) == (if s0.rep(y) == s0.rep(a) || s0.rep(y) == s0.rep(b) {
                    self.rep(a)
                } else {
                    s0.rep(y)
                }) by {
                    assert(s2.rep(y) == s0.rep(y));
                }
            }
        } else {
            proof {
                lemma_equal_ranks_fit(p, r, ra, rb);
            }
            self.parent.insert(rb, ra);
            self.rank.insert(ra, rank_a + 1);
            self.level = Ghost(linked_levels(p, h, rb, ra));
            proof {
                let p2 = self.parent@;
                let r2 = self.rank@;
                let h2 = self.level@;
                assert(p2 == p.insert(rb, ra));
                assert(r2 == r.insert(ra, (rank_a + 1) as usize));
                assert forall|y: usize| #[trigger] root_of(p2, h2, y) == (if root_of(p, h, y) == rb {
                    ra
                } else {
                    root_of(p, h, y)
                }) by {
                    lemma_link(p, h, rb, ra, y);
                }
                lemma_link(p, h, rb, ra, a);
                assert forall|y: usize| #[trigger] self.rep(y) == (if s0.rep(y) == s0.rep(a) || s0.rep(y) == s0.rep(b) {
                    self.rep(a)
                } else {
                    s0.rep(y)
                }) by {
                    assert(s2.rep(y) == s0.rep(y));
                }
                assert forall|z: usize| #[trigger] pget(p2, z) != z implies registered(p2, r2).contains(
                    pget(p2, z),
                ) by {
                    if z != rb {
                        assert(pget(p2, z) == pget(p, z));
                        assert(registered(p, r).contains(pget(p, z)));
                    }
                }
                lemma_equal_ranks_counted(p, r, ra, rb);
            }
        }
    }
}

/// After linking root `child` below root `root` (which has an entry) with
/// the ranks unchanged, links still point at entries and ranks still count.
proof fn lemma_after_link(p: Map<usize, usize>, r: Map<usize, usize>, p2: Map<usize, usize>, root: usize, child: usize)
    requires
        links_registered(p, r),
        ranks_counted(p, r),
        r.contains_key(root),
        p2 == p.insert(child, root),
    ensures
        links_registered(p2, r),
        ranks_counted(p2, r),
{
    assert forall|z: usize| #[trigger] pget(p2, z) != z implies registered(p2, r).contains(pget(p2, z)) by {
        if z != child {
            assert(pget(p2, z) == pget(p, z));
            assert(registered(p, r).contains(pget(p, z)));
        }
    }
    lemma_registered_finite(p, r);
    lemma_registered_finite(p2, r);
    assert(registered(p, r).subset_of(registered(p2, r)));
    lemma_len_subset(registered(p, r), registered(p2, r));
}


/// Two distinct roots of equal rank leave room for one more rank.
proof fn lemma_equal_ranks_fit(p: Map<usize, usize>, r: Map<usize, usize>, ra: usize, rb: usize)
    requires
        ranks_counted(p, r),
        ra != rb,
        rget(r, ra) == rget(r, rb),
    ensures
        rget(r, ra) < usize::MAX,
{
    let k = rget(r, ra) as int;
    lemma_registered_finite(p, r);
    if k >= 1 {
        let s = at_least(r, k);
        let two = Set::<usize>::empty().insert(ra).insert(rb);
        assert(two.len() == 2);
        assert(two.subset_of(s));
        lemma_len_subset(two, s);
    }
}

/// Raising the rank of root `ra` when root `rb` of the same rank goes below it
/// keeps the ranks counted.
proof fn lemma_equal_ranks_counted(p: Map<usize, usize>, r: Map<usize, usize>, ra: usize, rb: usize)
    requires
        ranks_counted(p, r),
        ra != rb,
        rget(r, ra) == rget(r, rb),
        rget(r, ra) < usize::MAX,
    ensures
        ranks_counted(p.insert(rb, ra), r.insert(ra, (rget(r, ra) + 1) as usize)),
{
    let k = rget(r, ra) as int;
    let p2 = p.insert(rb, ra);
    let r2 = r.insert(ra, (k + 1) as usize);
    lemma_registered_finite(p, r);
    lemma_registered_finite(p2, r2);
    let d = registered(p, r);
    let d2 = registered(p2, r2);
    assert(d.subset_of(d2));
    lemma_len_subset(d, d2);
    assert forall|j: int| 1 <= j && (#[trigger] at_least(r2, j)).len() > 0 implies at_least(r2, j).len()
        + j <= d2.len() by {
        if j <= k {
            assert(at_least(r2, j) =~= at_least(r, j));
        } else if j == k + 1 {
            let above = at_least(r, k + 1);
            assert(!above.contains(ra));
            assert(!above.contains(rb));
            assert(at_least(r2, j) =~= above.insert(ra));
            let both = above.insert(ra).insert(rb);
            assert(both.len() == above.len() + 2);
            if k >= 1 {
                assert(both.subset_of(at_least(r, k)));
                lemma_len_subset(both, at_least(r, k));
            } else {
                assert(both.subset_of(d2));
                lemma_len_subset(both, d2);
            }
        } else {
            assert(at_least(r2, j) =~= at_least(r, j));
        }
    }
}

} // verus!
