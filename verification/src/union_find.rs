//! Union-find over `0..n` with path compression, where a union always makes
//! the smaller root the root of the merged set, so the result does not depend
//! on the order of the calls' arguments.

use vstd::prelude::*;

verus! {

/// `p` is a forest over `0..p.len()`: parents are in range, and a ghost rank
/// below `b` strictly grows from each non-root to its parent.
pub open spec fn forest(p: Seq<u32>, r: Seq<nat>, b: nat) -> bool {
    &&& r.len() == p.len()
    &&& forall|i: int| 0 <= i < p.len() ==> (#[trigger] p[i]) < p.len()
    &&& forall|i: int| 0 <= i < p.len() && p[i] != i ==> r[i] < #[trigger] r[p[i] as int]
    &&& forall|i: int| 0 <= i < p.len() ==> #[trigger] r[i] < b
}

/// The root reached from `i` by following parents.
pub open spec fn root_rec(p: Seq<u32>, r: Seq<nat>, b: nat, i: int) -> int
    decreases b - r[i],
    when forest(p, r, b) && 0 <= i < p.len()
{
    if p[i] == i {
        i
    } else {
        root_rec(p, r, b, p[i] as int)
    }
}

/// A root is in range, is its own parent, and outranks every other node
/// below it.
pub proof fn lemma_root(p: Seq<u32>, r: Seq<nat>, b: nat, i: int)
    requires
        forest(p, r, b),
        0 <= i < p.len(),
    ensures
        0 <= root_rec(p, r, b, i) < p.len(),
        p[root_rec(p, r, b, i)] == root_rec(p, r, b, i),
        root_rec(p, r, b, i) != i ==> r[i] < r[root_rec(p, r, b, i)],
        root_rec(p, r, b, root_rec(p, r, b, i)) == root_rec(p, r, b, i),
    decreases b - r[i],
{
    if p[i] != i {
        lemma_root(p, r, b, p[i] as int);
    }
}

/// The root does not depend on which ranks witness the forest.
proof fn lemma_root_ranks(p: Seq<u32>, r1: Seq<nat>, b1: nat, r2: Seq<nat>, b2: nat, i: int)
    requires
        forest(p, r1, b1),
        forest(p, r2, b2),
        0 <= i < p.len(),
    ensures
        root_rec(p, r1, b1, i) == root_rec(p, r2, b2, i),
    decreases b1 - r1[i],
{
    if p[i] != i {
        lemma_root_ranks(p, r1, b1, r2, b2, p[i] as int);
    }
}

/// Pointing `c` straight at its root keeps the forest and every root.
proof fn lemma_compress(p: Seq<u32>, r: Seq<nat>, b: nat, c: int, x: int)
    requires
        forest(p, r, b),
        0 <= c < p.len(),
        0 <= x < p.len(),
        root_rec(p, r, b, c) != c,
    ensures
        forest(p.update(c, root_rec(p, r, b, c) as u32), r, b),
        root_rec(p.update(c, root_rec(p, r, b, c) as u32), r, b, x) == root_rec(p, r, b, x),
    decreases b - r[x],
{
    let t = root_rec(p, r, b, c);
    let p2 = p.update(c, t as u32);
    lemma_root(p, r, b, c);
    assert(forest(p2, r, b)) by {
        assert forall|i: int| 0 <= i < p2.len() && p2[i] != i implies r[i] < #[trigger] r[p2[i] as int] by {
            if i != c {
                assert(p2[i] == p[i]);
            }
        }
        assert forall|i: int| 0 <= i < p2.len() implies (#[trigger] p2[i]) < p2.len() by {
            if i != c {
                assert(p2[i] == p[i]);
            }
        }
    }
    if x == c {
        assert(p[t] == t);
        assert((t as u32) as int == t);
        assert(p2[c] as int == t);
        assert(p2[t] == t);
        assert(root_rec(p2, r, b, t) == t);
    } else if p[x] != x {
        lemma_compress(p, r, b, c, p[x] as int);
    }
}

/// Hanging root `hi` below root `lo` merges their sets under `lo`.
proof fn lemma_link(p: Seq<u32>, r: Seq<nat>, b: nat, lo: int, hi: int, x: int)
    requires
        forest(p, r, b),
        0 <= lo < p.len(),
        0 <= hi < p.len(),
        lo != hi,
        p[lo] == lo,
        p[hi] == hi,
        0 <= x < p.len(),
    ensures
        ({
            let p2 = p.update(hi, lo as u32);
            let r2 = r.update(lo, if r[lo] > r[hi] { r[lo] } else { r[hi] + 1 });
            &&& forest(p2, r2, b + 1)
            &&& root_rec(p2, r2, b + 1, x) == if root_rec(p, r, b, x) == hi {
                lo
            } else {
                root_rec(p, r, b, x)
            }
        }),
    decreases b - r[x],
{
    let p2 = p.update(hi, lo as u32);
    let r2 = r.update(lo, if r[lo] > r[hi] { r[lo] } else { r[hi] + 1 });
    assert(forest(p2, r2, b + 1)) by {
        assert forall|i: int| 0 <= i < p2.len() && p2[i] != i implies r2[i] < #[trigger] r2[p2[i] as int] by {
            if i != hi {
                assert(p2[i] == p[i]);
                assert(i != lo);
            }
        }
        assert forall|i: int| 0 <= i < p2.len() implies (#[trigger] p2[i]) < p2.len() by {
            if i != hi {
                assert(p2[i] == p[i]);
            }
        }
        assert forall|i: int| 0 <= i < p2.len() implies #[trigger] r2[i] < b + 1 by {
            assert(r[i] < b);
            assert(r[hi] < b);
        }
    }
    lemma_root(p, r, b, x);
    if x == hi {
        assert(p2[lo] == lo);
        assert(root_rec(p2, r2, b + 1, lo) == lo);
    } else if p[x] != x {
        assert(p2[x] == p[x]);
        lemma_link(p, r, b, lo, hi, p[x] as int);
    } else {
        assert(p2[x] == x);
    }
}

/// Disjoint sets over `0..n`.
pub struct UnionFind {
    parent: Vec<u32>,
    /// Witness that following parents ends at a root.
    rank: Ghost<Seq<nat>>,
    bound: Ghost<nat>,
}

/// Each element's root is its set's least member: no larger than the
/// element, and its own root.
pub open spec fn roots_least(v: Seq<int>) -> bool {
    forall|x: int| 0 <= x < v.len() ==> 0 <= #[trigger] v[x] <= x && v[v[x]] == v[x]
}

impl View for UnionFind {
    /// For each element, the root of its set.
    type V = Seq<int>;

    closed spec fn view(&self) -> Seq<int> {
        Seq::new(self.parent@.len(), |i: int| root_rec(self.parent@, self.rank@, self.bound@, i))
    }
}

impl UnionFind {
    /// The structure is a forest over `0..n`, `n` fitting a `u32`, and each
    /// root is no larger than any element below it.
    pub closed spec fn wf(&self) -> bool {
        &&& forest(self.parent@, self.rank@, self.bound@)
        &&& self.parent@.len() <= u32::MAX
        &&& forall|i: int|
            0 <= i < self.parent@.len() ==> #[trigger] root_rec(self.parent@, self.rank@, self.bound@, i) <= i
    }

    /// `n` singleton sets.
    pub fn new(n: usize) -> (r: Self)
        requires
            n <= u32::MAX,
        ensures
            r.wf(),
            r@ == Seq::new(n as nat, |i: int| i),
            roots_least(r@),
    {
        let mut parent: Vec<u32> = Vec::new();
        let mut i: usize = 0;
        while i < n
            invariant
                i <= n <= u32::MAX,
                parent@.len() == i,
                forall|k: int| 0 <= k < i ==> parent@[k] == k,
            decreases n - i,
        {
            parent.push(i as u32);
            i = i + 1;
        }
        let r = UnionFind { parent, rank: Ghost(Seq::new(n as nat, |k: int| 0nat)), bound: Ghost(1nat) };
        assert forall|k: int| 0 <= k < n implies root_rec(r.parent@, r.rank@, r.bound@, k) == k by {
            assert(r.parent@[k] == k);
        }
        assert(r@ =~= Seq::new(n as nat, |i: int| i));
        proof {
            lemma_roots_least(&r);
        }
        r
    }

    /// The root of `i`'s set; paths walked on the way point straight at it
    /// afterwards, and no element changes set.
    pub fn find(&mut self, i: u32) -> (r: u32)
        requires
            old(self).wf(),
            i < old(self)@.len(),
        ensures
            final(self).wf(),
            final(self)@ == old(self)@,
            r == old(self)@[i as int],
            roots_least(final(self)@),
    {
        let ghost p0 = self.parent@;
        let ghost rk = self.rank@;
        let ghost b = self.bound@;
        let mut root = i;
        while self.parent[root as usize] != root
            invariant
                self.wf(),
                self.parent@ == p0,
                self.rank@ == rk,
                self.bound@ == b,
                root < p0.len(),
                root_rec(p0, rk, b, root as int) == root_rec(p0, rk, b, i as int),
            decreases b - rk[root as int],
        {
            root = self.parent[root as usize];
        }
        proof {
            lemma_root(p0, rk, b, i as int);
        }
        let mut cur = i;
        while self.parent[cur as usize] != root
            invariant
                forest(self.parent@, rk, b),
                self.parent@.len() == p0.len(),
                p0.len() <= u32::MAX,
                self.rank@ == rk,
                self.bound@ == b,
                cur < p0.len(),
                root < p0.len(),
                root == root_rec(p0, rk, b, i as int),
                self.parent@[root as int] == root,
                root_rec(self.parent@, rk, b, cur as int) == root,
                forall|x: int| 0 <= x < p0.len() ==> root_rec(self.parent@, rk, b, x) == root_rec(p0, rk, b, x),
            decreases b - rk[cur as int],
        {
            let ghost pc = self.parent@;
            let next = self.parent[cur as usize];
            proof {
                lemma_root(pc, rk, b, cur as int);
                assert forall|x: int| 0 <= x < p0.len() implies root_rec(pc.update(cur as int, root), rk, b, x)
                    == root_rec(p0, rk, b, x) by {
                    lemma_compress(pc, rk, b, cur as int, x);
                }
                lemma_compress(pc, rk, b, cur as int, next as int);
                lemma_compress(pc, rk, b, cur as int, root as int);
            }
            self.parent.set(cur as usize, root);
            cur = next;
        }
        proof {
            assert(self@ =~= old(self)@);
            assert forall|x: int| 0 <= x < p0.len() implies #[trigger] root_rec(self.parent@, self.rank@, self.bound@, x)
                <= x by {
                assert(root_rec(p0, rk, b, x) <= x);
            }
            lemma_roots_least(self);
        }
        root
    }

    /// Merges the sets of `a` and `b`: the larger of their two roots is hung
    /// below the smaller, so every element of either set ends up with the
    /// smaller root.
    pub fn union(&mut self, a: u32, b: u32)
        requires
            old(self).wf(),
            a < old(self)@.len(),
            b < old(self)@.len(),
        ensures
            final(self).wf(),
            final(self)@.len() == old(self)@.len(),
            roots_least(final(self)@),
            final(self)@[a as int] == final(self)@[b as int],
            old(self)@[a as int] == old(self)@[b as int] ==> final(self)@ == old(self)@,
            ({
                let ra = old(self)@[a as int];
                let rb = old(self)@[b as int];
                let lo = if ra < rb { ra } else { rb };
                let hi = if ra < rb { rb } else { ra };
                forall|x: int|
                    0 <= x < old(self)@.len() ==> #[trigger] final(self)@[x] == if old(self)@[x] == hi {
                        lo
                    } else {
                        old(self)@[x]
                    }
            }),
    {
        let ra = self.find(a);
        let rb = self.find(b);
        if ra != rb {
            let (lo, hi) = if ra < rb {
                (ra, rb)
            } else {
                (rb, ra)
            };
            let ghost p = self.parent@;
            let ghost rk = self.rank@;
            let ghost bd = self.bound@;
            proof {
                lemma_root(p, rk, bd, a as int);
                lemma_root(p, rk, bd, b as int);
            }
            self.parent.set(hi as usize, lo);
            let ghost new_rank: nat = if rk[lo as int] > rk[hi as int] {
                rk[lo as int]
            } else {
                rk[hi as int] + 1
            };
            self.rank = Ghost(rk.update(lo as int, new_rank));
            self.bound = Ghost(bd + 1);
            proof {
                assert forall|x: int| 0 <= x < p.len() implies root_rec(self.parent@, self.rank@, self.bound@, x)
                    == if root_rec(p, rk, bd, x) == hi {
                    lo as int
                } else {
                    root_rec(p, rk, bd, x)
                } by {
                    lemma_link(p, rk, bd, lo as int, hi as int, x);
                }
                lemma_link(p, rk, bd, lo as int, hi as int, 0);
                assert forall|x: int| 0 <= x < p.len() implies #[trigger] root_rec(
                    self.parent@,
                    self.rank@,
                    self.bound@,
                    x,
                ) <= x by {
                    lemma_link(p, rk, bd, lo as int, hi as int, x);
                    assert(root_rec(p, rk, bd, x) <= x);
                }
            }
        }
        proof {
            if old(self)@[a as int] == old(self)@[b as int] {
                assert(self@ =~= old(self)@);
            }
            lemma_roots_least(self);
        }
    }
}

/// Every element's root is the smallest element of its set: it belongs to
/// the set and is no larger than any member.
pub proof fn lemma_root_is_least(uf: &UnionFind, x: int)
    requires
        uf.wf(),
        0 <= x < uf@.len(),
    ensures
        0 <= uf@[x] <= x,
        uf@[uf@[x]] == uf@[x],
{
    lemma_root(uf.parent@, uf.rank@, uf.bound@, x);
    assert(root_rec(uf.parent@, uf.rank@, uf.bound@, x) <= x);
}

/// A well-formed structure's roots are the least members of their sets.
pub proof fn lemma_roots_least(uf: &UnionFind)
    requires
        uf.wf(),
    ensures
        roots_least(uf@),
{
    assert forall|x: int| 0 <= x < uf@.len() implies 0 <= #[trigger] uf@[x] <= x && uf@[uf@[x]] == uf@[x] by {
        lemma_root_is_least(uf, x);
    }
}

} // verus!
