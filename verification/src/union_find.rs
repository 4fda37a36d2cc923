//! Disjoint sets over labels `0 .. n` with path compression; the smaller
//! root becomes the root of a union.
//!
//! The view of a [`UnionFind`] maps each element to the root of its set:
//! two elements are in one set exactly when their roots are equal.
use vstd::prelude::*;

verus! {

pub struct UnionFind {
    parent: Vec<u32>,
    /// Root of each element's set.
    roots: Ghost<Seq<int>>,
    /// Length of the parent chain from an element to its root, bounded
    /// above: every parent sits strictly closer to its root.
    depth: Ghost<Seq<nat>>,
}

pub open spec fn min_root(a: int, b: int) -> int {
    if a <= b { a } else { b }
}

/// Roots after merging the sets whose roots are `ra` and `rb`: both take
/// the smaller of the two roots.
pub open spec fn merged(roots: Seq<int>, ra: int, rb: int) -> Seq<int> {
    Seq::new(
        roots.len(),
        |i: int| if roots[i] == ra || roots[i] == rb { min_root(ra, rb) } else { roots[i] },
    )
}

/// Parent chains `p` are acyclic (each parent has a smaller `d`) and end
/// at the roots `r`; no parent and no root is above its element.
pub closed spec fn wf_parts(p: Seq<u32>, r: Seq<int>, d: Seq<nat>) -> bool {
    &&& r.len() == p.len()
    &&& d.len() == p.len()
    &&& forall|i: int| 0 <= i < p.len() ==> (p[i] as int) < p.len()
    &&& forall|i: int| 0 <= i < p.len() ==> #[trigger] p[i] <= i
    &&& forall|i: int| 0 <= i < p.len() ==> #[trigger] r[i] <= i
    &&& forall|i: int| 0 <= i < p.len() ==> 0 <= #[trigger] r[i] < p.len()
    &&& forall|i: int| 0 <= i < p.len() ==> p[#[trigger] r[i]] == r[i]
    &&& forall|i: int| 0 <= i < p.len() && p[i] == i ==> #[trigger] r[i] == i
    &&& forall|i: int|
        0 <= i < p.len() && p[i] != i ==> r[p[i] as int] == #[trigger] r[i] && d[p[i] as int] < d[i]
}

/// Depths after hanging the tree of root `hi` below another root.
spec fn shifted_depth(r: Seq<int>, d: Seq<nat>, hi: int, shift: nat) -> Seq<nat> {
    Seq::new(d.len(), |i: int| if r[i] == hi { d[i] + shift } else { d[i] })
}

/// Hanging the root `hi` below the root `lo` keeps the structure sound
/// and merges the two sets under `lo`.
proof fn lemma_link(p: Seq<u32>, r: Seq<int>, d: Seq<nat>, hi: u32, lo: u32)
    requires
        wf_parts(p, r, d),
        lo < hi < p.len(),
        r[hi as int] == hi,
        r[lo as int] == lo,
    ensures
        wf_parts(
            p.update(hi as int, lo),
            merged(r, hi as int, lo as int),
            shifted_depth(r, d, hi as int, d[lo as int] + 1),
        ),
{
    let np = p.update(hi as int, lo);
    let nr = merged(r, hi as int, lo as int);
    let nd = shifted_depth(r, d, hi as int, d[lo as int] + 1);
    assert(p[hi as int] == hi);
    assert(p[lo as int] == lo);
    assert forall|i: int| 0 <= i < np.len() && np[i] != i implies nr[np[i] as int] == #[trigger] nr[i]
        && nd[np[i] as int] < nd[i] by {
        if i != hi {
            assert(np[i] == p[i]);
            assert(r[p[i] as int] == r[i]);
        }
    }
    assert forall|i: int| 0 <= i < np.len() implies np[#[trigger] nr[i]] == nr[i] by {
        assert(p[r[i]] == r[i]);
    }
    assert forall|i: int| 0 <= i < np.len() && np[i] == i implies #[trigger] nr[i] == i by {
        if i != hi {
            assert(p[i] == i);
        }
    }
    assert forall|i: int| 0 <= i < np.len() implies 0 <= #[trigger] nr[i] < np.len() by {
        assert(0 <= r[i] < p.len());
    }
    assert forall|i: int| 0 <= i < np.len() implies #[trigger] np[i] <= i && nr[i] <= i by {
        assert(p[i] <= i);
        assert(r[i] <= i);
    }
}

/// Whether the parent chain from `i` reaches `x`.
pub closed spec fn passes_through(p: Seq<u32>, d: Seq<nat>, i: int, x: int) -> bool
    decreases d[i],
{
    if !(0 <= i < p.len()) || !(0 <= i < d.len()) {
        false
    } else if i == x {
        true
    } else if p[i] == i {
        false
    } else if 0 <= p[i] < d.len() && d[p[i] as int] < d[i] {
        passes_through(p, d, p[i] as int, x)
    } else {
        false
    }
}

/// A chain through `x` ends at the root of `x`, from no lower depth.
proof fn lemma_passes_through(p: Seq<u32>, r: Seq<int>, d: Seq<nat>, i: int, x: int)
    requires
        wf_parts(p, r, d),
        0 <= i < p.len(),
        passes_through(p, d, i, x),
    ensures
        r[i] == r[x],
        d[i] >= d[x],
        0 <= x < p.len(),
        x <= i,
    decreases d[i],
{
    if i != x {
        lemma_passes_through(p, r, d, p[i] as int, x);
        assert(p[i] <= i);
    }
}

/// Cutting the non-root `x` loose from its parent makes it the root of the
/// elements whose chains pass through it.
proof fn lemma_detach(p: Seq<u32>, r: Seq<int>, d: Seq<nat>, x: int)
    requires
        wf_parts(p, r, d),
        0 <= x < p.len(),
        x <= u32::MAX,
        p[x] != x,
    ensures
        wf_parts(
            p.update(x, x as u32),
            Seq::new(r.len(), |i: int| if passes_through(p, d, i, x) { x } else { r[i] }),
            Seq::new(
                d.len(),
                |i: int| if passes_through(p, d, i, x) { (d[i] - d[x]) as nat } else { d[i] },
            ),
        ),
{
    let np = p.update(x, x as u32);
    let nr = Seq::new(r.len(), |i: int| if passes_through(p, d, i, x) { x } else { r[i] });
    let nd = Seq::new(
        d.len(),
        |i: int| if passes_through(p, d, i, x) { (d[i] - d[x]) as nat } else { d[i] },
    );
    assert(passes_through(p, d, x, x));
    assert forall|i: int| 0 <= i < p.len() && passes_through(p, d, i, x) implies d[i] >= d[x] by {
        lemma_passes_through(p, r, d, i, x);
    }
    assert forall|i: int| 0 <= i < np.len() implies np[#[trigger] nr[i]] == nr[i] by {
        if !passes_through(p, d, i, x) {
            assert(p[r[i]] == r[i]);
            assert(r[i] != x);
        }
    }
    assert forall|i: int| 0 <= i < np.len() && np[i] == i implies #[trigger] nr[i] == i by {
        if i != x {
            assert(p[i] == i);
            assert(r[i] == i);
            assert(!passes_through(p, d, i, x));
        }
    }
    assert forall|i: int| 0 <= i < np.len() && np[i] != i implies nr[np[i] as int] == #[trigger] nr[i]
        && nd[np[i] as int] < nd[i] by {
        assert(i != x);
        assert(np[i] == p[i]);
        assert(r[p[i] as int] == r[i]);
        assert(d[p[i] as int] < d[i]);
        assert(passes_through(p, d, i, x) == passes_through(p, d, p[i] as int, x));
    }
    assert forall|i: int| 0 <= i < np.len() implies 0 <= #[trigger] nr[i] < np.len() by {
        assert(0 <= r[i] < p.len());
    }
    assert forall|i: int| 0 <= i < np.len() implies #[trigger] np[i] <= i && nr[i] <= i by {
        assert(p[i] <= i);
        assert(r[i] <= i);
        if passes_through(p, d, i, x) {
            lemma_passes_through(p, r, d, i, x);
        }
    }
}

impl View for UnionFind {
    type V = Seq<int>;

    closed spec fn view(&self) -> Seq<int> {
        self.roots@
    }
}

impl UnionFind {
    /// The parent chains are acyclic and end at the roots that the view
    /// records.
    pub closed spec fn wf(&self) -> bool {
        wf_parts(self.parent@, self.roots@, self.depth@)
    }

    /// Each root is the root of its own set, and no root is above its
    /// elements.
    pub proof fn lemma_roots_are_roots(&self)
        requires
            self.wf(),
        ensures
            forall|i: int| 0 <= i < self@.len() ==> 0 <= #[trigger] self@[i] < self@.len(),
            forall|i: int| 0 <= i < self@.len() ==> self@[#[trigger] self@[i]] == self@[i],
            forall|i: int| 0 <= i < self@.len() ==> #[trigger] self@[i] <= i,
    {
        assert forall|i: int| 0 <= i < self@.len() implies self@[#[trigger] self@[i]] == self@[i] by {
            let r = self@[i];
            assert(self.parent@[r] == r);
        }
    }

    /// A structure with the single element `0`, reserved for "no label".
    pub fn new() -> (uf: Self)
        ensures
            uf.wf(),
            uf@ == seq![0int],
    {
        let ghost r0: Seq<int> = seq![0int];
        let ghost d0: Seq<nat> = seq![0nat];
        let uf = UnionFind { parent: vec![0u32], roots: Ghost(r0), depth: Ghost(d0) };
        assert(uf.parent@ == seq![0u32]);
        uf
    }

    /// Whether the parent chain from `i` passes through `x`: `i` lies in
    /// the subtree below `x`, or is `x`.
    pub closed spec fn in_subtree(&self, i: int, x: int) -> bool {
        passes_through(self.parent@, self.depth@, i, x)
    }

    /// Makes `x` the root of a set: elements up to `x` not yet present
    /// are added, each in a set of its own; if `x` was present, it and the
    /// elements below it form a set with root `x`.
    pub fn make_set(&mut self, x: u32)
        requires
            old(self).wf(),
        ensures
            final(self).wf(),
            final(self)@.len() == if x < old(self)@.len() { old(self)@.len() as int } else { x + 1 },
            forall|i: int|
                0 <= i < old(self)@.len() ==> #[trigger] final(self)@[i] == if old(self).in_subtree(
                    i,
                    x as int,
                ) {
                    x as int
                } else {
                    old(self)@[i]
                },
            forall|i: int| old(self)@.len() <= i <= x ==> #[trigger] final(self)@[i] == i,
            x >= old(self)@.len() ==> forall|i: int|
                0 <= i < old(self)@.len() ==> #[trigger] final(self)@[i] == old(self)@[i],
    {
        let ghost p0 = self.parent@;
        let ghost r0 = self.roots@;
        let ghost d0 = self.depth@;
        proof {
            assert forall|i: int| 0 <= i < p0.len() && passes_through(p0, d0, i, x as int) implies r0[i]
                == r0[x as int] && d0[i] >= d0[x as int] && (x as int) < p0.len() by {
                lemma_passes_through(p0, r0, d0, i, x as int);
            }
        }
        if (x as usize) < self.parent.len() {
            if self.parent[x as usize] != x {
                let ghost nr = Seq::new(
                    r0.len(),
                    |i: int| if passes_through(p0, d0, i, x as int) { x as int } else { r0[i] },
                );
                let ghost nd = Seq::new(
                    d0.len(),
                    |i: int| if passes_through(p0, d0, i, x as int) { (d0[i] - d0[x as int]) as nat } else { d0[i] },
                );
                proof {
                    lemma_detach(p0, r0, d0, x as int);
                }
                self.parent.set(x as usize, x);
                self.roots = Ghost(nr);
                self.depth = Ghost(nd);
                assert(self.parent@ == p0.update(x as int, x));
            } else {
                proof {
                    assert(r0[x as int] == x) by {
                        assert(p0[r0[x as int]] == r0[x as int]);
                    }
                    assert forall|i: int| 0 <= i < r0.len() implies #[trigger] self.roots@[i]
                        == if passes_through(p0, d0, i, x as int) {
                        x as int
                    } else {
                        r0[i]
                    } by {}
                }
            }
            return;
        }
        let ghost old_roots = self.roots@;
        while self.parent.len() <= x as usize
            invariant
                self.wf(),
                old_roots.len() <= self.parent@.len() <= x + 1,
                forall|i: int| 0 <= i < old_roots.len() ==> self.roots@[i] == old_roots[i],
                forall|i: int| old_roots.len() <= i < self.parent@.len() ==> self.roots@[i] == i,
            decreases x + 1 - self.parent@.len(),
        {
            let n = self.parent.len() as u32;
            let ghost p1 = self.parent@;
            let ghost r1 = self.roots@;
            let ghost d1 = self.depth@;
            self.parent.push(n);
            self.roots = Ghost(self.roots@.push(n as int));
            self.depth = Ghost(self.depth@.push(0nat));
            proof {
                let p = self.parent@;
                let r = self.roots@;
                let d = self.depth@;
                assert(p[n as int] == n);
                assert forall|i: int| 0 <= i < p.len() implies p[#[trigger] r[i]] == r[i] by {
                    if i < n {
                        assert(p1[r1[i]] == r1[i]);
                    }
                }
                assert forall|i: int| 0 <= i < p.len() && p[i] != i implies r[p[i] as int]
                    == #[trigger] r[i] && d[p[i] as int] < d[i] by {
                    if i < n {
                        assert(p[i] == p1[i]);
                        assert(p1[i] != i);
                        assert(r1[p1[i] as int] == r1[i]);
                        assert(r[p[i] as int] == r1[p1[i] as int]);
                        assert(d[p[i] as int] == d1[p1[i] as int]);
                        assert(r[i] == r1[i]);
                        assert(d[i] == d1[i]);
                    }
                }
                assert forall|i: int| 0 <= i < p.len() && p[i] == i implies #[trigger] r[i] == i by {
                    if i < n {
                        assert(p1[i] == i);
                        assert(r1[i] == i);
                    }
                }
                assert forall|i: int| 0 <= i < p.len() implies 0 <= #[trigger] r[i] < p.len() by {
                    if i < n {
                        assert(0 <= r1[i] < p1.len());
                    }
                }
                assert forall|i: int| 0 <= i < p.len() implies (p[i] as int) < p.len() by {
                    if i < n {
                        assert((p1[i] as int) < p1.len());
                    }
                }
                assert forall|i: int| 0 <= i < p.len() implies #[trigger] p[i] <= i && r[i] <= i by {
                    if i < n {
                        assert(p1[i] <= i);
                        assert(r1[i] <= i);
                    }
                }
                assert(wf_parts(p, r, d));
            }
        }
    }

    /// The root of `x`'s set; compresses the path on the way.
    pub fn find(&mut self, x: u32) -> (r: u32)
        requires
            old(self).wf(),
            x < old(self)@.len(),
        ensures
            final(self).wf(),
            final(self)@ == old(self)@,
            r == old(self)@[x as int],
            r <= x,
    {
        proof {
            assert(self.roots@[x as int] <= x);
        }
        let mut x = x;
        let ghost target = self.roots@[x as int];
        while self.parent[x as usize] != x
            invariant
                self.wf(),
                self.roots@ == old(self).roots@,
                x < self.parent@.len(),
                self.roots@[x as int] == target,
            decreases self.depth@[x as int],
        {
            let p = self.parent[x as usize];
            let gp = self.parent[p as usize];
            let ghost d = self.depth@;
            let ghost r = self.roots@;
            assert(r[p as int] == r[x as int]);
            assert(r[gp as int] == r[p as int]);
            assert(d[gp as int] < d[x as int]);
            let ghost p0 = self.parent@;
            self.parent.set(x as usize, gp);
            proof {
                let p = self.parent@;
                assert(p == p0.update(x as int, gp));
                assert forall|i: int| 0 <= i < p.len() implies p[#[trigger] r[i]] == r[i] by {
                    assert(p0[r[i]] == r[i]);
                    assert(r[i] != x);
                }
                assert forall|i: int| 0 <= i < p.len() && p[i] == i implies #[trigger] r[i] == i by {
                    if i != x {
                        assert(p0[i] == i);
                    }
                }
                assert forall|i: int| 0 <= i < p.len() && p[i] != i implies r[p[i] as int]
                    == #[trigger] r[i] && d[p[i] as int] < d[i] by {
                    if i != x {
                        assert(p0[i] == p[i]);
                        assert(r[p0[i] as int] == r[i]);
                    }
                }
                assert forall|i: int| 0 <= i < p.len() implies 0 <= #[trigger] r[i] < p.len() by {
                    assert(0 <= r[i] < p0.len());
                }
                assert forall|i: int| 0 <= i < p.len() implies (p[i] as int) < p.len() by {
                    assert((p0[i] as int) < p0.len());
                }
                assert forall|i: int| 0 <= i < p.len() implies #[trigger] p[i] <= i by {
                    assert(p0[i] <= i);
                    assert(p0[p0[x as int] as int] <= p0[x as int]);
                }
                assert(wf_parts(p, r, d));
            }
            x = gp;
        }
        assert(self.roots@[x as int] == x);
        x
    }

    /// Merges the sets of `a` and `b`; the smaller root becomes the root
    /// of the union.
    pub fn union(&mut self, a: u32, b: u32)
        requires
            old(self).wf(),
            a < old(self)@.len(),
            b < old(self)@.len(),
        ensures
            final(self).wf(),
            final(self)@ == merged(old(self)@, old(self)@[a as int], old(self)@[b as int]),
    {
        let ghost r0 = self.roots@;
        let ra = self.find(a);
        let rb = self.find(b);
        if ra != rb {
            let ghost d = self.depth@;
            let ghost r = self.roots@;
            let ghost p = self.parent@;
            proof {
                self.lemma_roots_are_roots();
            }
            let (hi, lo) = if ra < rb { (rb, ra) } else { (ra, rb) };
            proof {
                lemma_link(p, r, d, hi, lo);
                assert(merged(r, hi as int, lo as int) =~= merged(r, ra as int, rb as int));
            }
            self.parent.set(hi as usize, lo);
            self.roots = Ghost(merged(r, ra as int, rb as int));
            self.depth = Ghost(shifted_depth(r, d, hi as int, d[lo as int] + 1));
        } else {
            proof {
                assert(self.roots@ =~= merged(r0, r0[a as int], r0[b as int]));
            }
        }
    }
}

} // verus!
