use vstd::arithmetic::power2::{
    lemma2_to64, lemma_pow2_adds, lemma_pow2_pos, lemma_pow2_strictly_increases, lemma_pow2_unfold,
    pow2,
};
use vstd::bits::lemma_u128_shr_is_div;
use vstd::prelude::*;

verus! {

/// The square root of 2^255, rounded down: the bits of the square root of 2
/// from the units place on, 128 of them.
const SQRT2_BITS: u128 = 240615969168004511545033772477625056927;

proof fn lemma_sqrt2_bits()
    ensures
        SQRT2_BITS * SQRT2_BITS < pow2(255),
        (SQRT2_BITS + 1) * (SQRT2_BITS + 1) > pow2(255),
{
    lemma2_to64();
    lemma_pow2_adds(64, 64);
    lemma_pow2_adds(128, 64);
    lemma_pow2_unfold(64);
    lemma_pow2_adds(192, 63);
    assert(pow2(255) == 57896044618658097711785492504343953926634992332820282019728792003956564819968nat);
}

/// Comparing `m` with the top `k + 1` bits of the square root of 2 tells
/// whether `m * m` is above 2^(2k+1); it is never equal to it.
proof fn lemma_square_against_root(m: int, k: nat)
    requires
        0 <= m,
        2 <= k <= 127,
    ensures
        m > (SQRT2_BITS >> ((127 - k) as u128)) <==> m * m > pow2(2 * k + 1),
        m * m != pow2(2 * k + 1),
{
    let j = (127 - k) as nat;
    let c = SQRT2_BITS as int;
    lemma_u128_shr_is_div(SQRT2_BITS, j as u128);
    let p = pow2(j) as int;
    lemma_pow2_pos(j);
    let sh = (SQRT2_BITS >> (j as u128)) as int;
    assert(sh == c / p);
    let q = pow2(2 * k + 1) as int;
    lemma_pow2_adds(2 * k + 1, j);
    lemma_pow2_adds(2 * k + 1 + j, j);
    assert(2 * k + 1 + j + j == 255);
    assert(pow2(255) == q * p * p) by (nonlinear_arith)
        requires
            pow2(255) == pow2(2 * k + 1 + j) * pow2(j),
            pow2(2 * k + 1 + j) == pow2(2 * k + 1) * pow2(j),
            q == pow2(2 * k + 1),
            p == pow2(j),
    ;
    lemma_sqrt2_bits();
    assert(sh * p <= c && c < sh * p + p) by (nonlinear_arith)
        requires
            sh == c / p,
            p > 0,
            c >= 0,
    ;
    assert(sh * sh < q) by (nonlinear_arith)
        requires
            0 <= sh * p <= c,
            c * c < q * p * p,
            p > 0,
            sh >= 0,
    ;
    assert((sh + 1) * (sh + 1) > q) by (nonlinear_arith)
        requires
            c + 1 <= sh * p + p,
            (c + 1) * (c + 1) > q * p * p,
            p > 0,
            sh >= 0,
            c >= 0,
    ;
    if m > sh {
        assert(m * m >= (sh + 1) * (sh + 1)) by (nonlinear_arith)
            requires
                m >= sh + 1,
                sh >= 0,
        ;
    } else {
        assert(m * m <= sh * sh) by (nonlinear_arith)
            requires
                0 <= m <= sh,
        ;
    }
}

/// The tree depth for `count` items: 1.2 * log8(count) rounded to the
/// nearest integer, that is the `d` with 2^(10d-5) <= count^4 < 2^(10d+5)
/// (0 for no items or one). Deeper trees mean shorter leaf lists and more
/// nodes to walk.
pub fn depth_for(count: usize) -> (d: u8)
    ensures
        d == 0 || pow2((10 * d - 5) as nat) <= count * count * count * count,
        count * count * count * count < pow2((10 * d + 5) as nat),
{
    assert(count as int * count as int <= 0xFFFF_FFFF_FFFF_FFFFint * 0xFFFF_FFFF_FFFF_FFFFint) by (nonlinear_arith)
        requires
            0 <= count <= 0xFFFF_FFFF_FFFF_FFFFint,
    ;
    let m: u128 = count as u128 * count as u128;
    assert(count * count * count * count == m * m) by (nonlinear_arith)
        requires
            m == count * count,
    ;
    let mut d: u8 = 0;
    while d < 26
        invariant
            d <= 26,
            count * count * count * count == m * m,
            d == 0 || pow2((10 * d - 5) as nat) <= m * m,
        decreases 26 - d,
    {
        let k: u128 = 5 * (d as u128 + 1) - 3;
        let root = SQRT2_BITS >> (127 - k);
        proof {
            lemma_square_against_root(m as int, k as nat);
            assert(2 * k + 1 == 10 * d + 5);
        }
        if m <= root {
            return d;
        }
        d = d + 1;
    }
    proof {
        lemma2_to64();
        lemma_pow2_adds(64, 64);
        lemma_pow2_adds(128, 128);
        lemma_pow2_strictly_increases(256, 265);
        assert(m * m < pow2(256)) by (nonlinear_arith)
            requires
                m < pow2(128),
                pow2(256) == pow2(128) * pow2(128),
                m >= 0,
        ;
    }
    d
}

/// `f` answers every question about a region, and always the same way.
pub open spec fn decides<R, F: Fn(R) -> bool>(f: F) -> bool {
    &&& forall|r: R| f.requires((r,))
    &&& forall|r: R, a: bool, b: bool| f.ensures((r,), a) && f.ensures((r,), b) ==> a == b
}

/// `f` answers every question about an item and a region, and always the same way.
pub open spec fn decides_pair<T, R, F: Fn(T, R) -> bool>(f: F) -> bool {
    &&& forall|t: T, r: R| f.requires((t, r))
    &&& forall|t: T, r: R, a: bool, b: bool| f.ensures((t, r), a) && f.ensures((t, r), b) ==> a == b
}

/// The answer that `f` gives for item `t` and each region, as a predicate on regions.
pub open spec fn holds_for<T, R, F: Fn(T, R) -> bool>(f: F, t: T) -> spec_fn(R) -> bool {
    |r: R| f.ensures((t, r), true)
}

/// The answer that `f` gives for `r`, as a predicate on regions.
pub open spec fn holds<R, F: Fn(R) -> bool>(f: F) -> spec_fn(R) -> bool {
    |r: R| f.ensures((r,), true)
}

/// `split` gives one region for each region and octant number, always the same.
pub open spec fn splits_uniquely<R, S: Fn(R, u8) -> R>(split: S) -> bool {
    forall|r: R, i: u8, a: R, b: R| split.ensures((r, i), a) && split.ensures((r, i), b) ==> a == b
}

/// Starting from region `r`, every region that `path` leads to by `split`
/// (one octant number per level, each below 8) is accepted by `fits`.
pub open spec fn region_fits<R, S: Fn(R, u8) -> R>(r: R, split: S, path: Seq<int>, fits: spec_fn(R) -> bool) -> bool
    decreases path.len(),
{
    if path.len() == 0 {
        true
    } else {
        let c = choose|c: R| #[trigger] split.ensures((r, path[0] as u8), c);
        &&& 0 <= path[0] < 8
        &&& fits(c)
        &&& region_fits(c, split, path.drop_first(), fits)
    }
}

/// A spatial index: a node covers a region, keeps its items while it is a
/// leaf (depth 0), and is otherwise split into eight child regions on first
/// insertion.
#[verifier::reject_recursive_types(R)]
#[verifier::reject_recursive_types(T)]
pub struct Octree<R, T> {
    depth: u8,
    bounds: R,
    faces: Vec<T>,
    trees: Vec<Octree<R, T>>,
}

impl<R: Copy, T: Copy> Octree<R, T> {
    pub closed spec fn spec_depth(&self) -> u8 {
        self.depth
    }

    pub closed spec fn spec_bounds(&self) -> R {
        self.bounds
    }

    /// Leaves keep no children; an inner node keeps no items and has either
    /// no children yet or eight children one level shallower.
    pub closed spec fn wf(&self) -> bool
        decreases self,
    {
        if self.depth == 0 {
            self.trees@.len() == 0
        } else {
            &&& self.faces@.len() == 0
            &&& self.trees@.len() == 0 || self.trees@.len() == 8
            &&& forall|i: int|
                0 <= i < self.trees@.len() ==> (#[trigger] self.trees@[i]).depth + 1 == self.depth
                    && self.trees@[i].wf()
        }
    }

    /// The items that a query returns when `hit` says which regions the ray
    /// meets: nothing from a region that is missed, a leaf's whole list, and
    /// the children's results in octant order.
    pub closed spec fn candidates(&self, hit: spec_fn(R) -> bool) -> Seq<T>
        decreases self, 0nat,
    {
        if !hit(self.bounds) {
            Seq::empty()
        } else if self.depth == 0 {
            self.faces@
        } else {
            Self::children_candidates(self.trees@, hit, self.trees@.len())
        }
    }

    /// The query results of the first `n` children, concatenated in order.
    pub closed spec fn children_candidates(
        ts: Seq<Octree<R, T>>,
        hit: spec_fn(R) -> bool,
        n: nat,
    ) -> Seq<T>
        decreases ts, n,
    {
        if n == 0 || n > ts.len() {
            Seq::empty()
        } else {
            Self::children_candidates(ts, hit, (n - 1) as nat) + ts[n - 1].candidates(hit)
        }
    }

    /// Every child region is what `split` gave for its parent's region and
    /// its octant number, all the way down.
    pub closed spec fn split_by<S: Fn(R, u8) -> R>(&self, split: S) -> bool
        decreases self,
    {
        forall|i: int|
            0 <= i < self.trees@.len() ==> split.ensures(
                (self.bounds, i as u8),
                (#[trigger] self.trees@[i]).bounds,
            ) && self.trees@[i].split_by(split)
    }

    /// `hit` accepts this region and, below it, some chain of child regions
    /// that `fits` accepts too, down to a leaf.
    pub closed spec fn reaches(&self, hit: spec_fn(R) -> bool, fits: spec_fn(R) -> bool) -> bool
        decreases self,
    {
        &&& hit(self.bounds)
        &&& self.depth == 0 || exists|i: int|
            0 <= i < self.trees@.len() && fits((#[trigger] self.trees@[i]).bounds)
                && self.trees@[i].reaches(hit, fits)
    }

    /// The item list of the node that `path` leads to, one octant number per
    /// level; empty where the path leaves the tree.
    pub closed spec fn faces_at(&self, path: Seq<int>) -> Seq<T>
        decreases self,
    {
        if path.len() == 0 {
            self.faces@
        } else if 0 <= path[0] < self.trees@.len() {
            self.trees@[path[0]].faces_at(path.drop_first())
        } else {
            Seq::empty()
        }
    }

    /// The node that `path` leads to exists and has children.
    pub closed spec fn splits_at(&self, path: Seq<int>) -> bool
        decreases self,
    {
        if path.len() == 0 {
            self.trees@.len() > 0
        } else if 0 <= path[0] < self.trees@.len() {
            self.trees@[path[0]].splits_at(path.drop_first())
        } else {
            false
        }
    }

    /// `path` leads through existing children whose regions `fits` all
    /// accepts (the node's own region is not asked).
    pub closed spec fn fits_along(&self, path: Seq<int>, fits: spec_fn(R) -> bool) -> bool
        decreases self,
    {
        if path.len() == 0 {
            true
        } else {
            &&& 0 <= path[0] < self.trees@.len()
            &&& fits(self.trees@[path[0]].bounds)
            &&& self.trees@[path[0]].fits_along(path.drop_first(), fits)
        }
    }

    /// The tree has the shape and leaf lists that inserting `items`, in
    /// order, into an empty tree of its depth over its region gives: the
    /// root is split unless it is
    /// a leaf or there are no items, an inner node below it is split exactly
    /// when some item fits every region on its path, and each leaf holds the
    /// items that fit every region on its path, once each, in input order.
    /// The regions are the ones `split` gives from the root's region.
    pub open spec fn shaped_by<O: Fn(T, R) -> bool, S: Fn(R, u8) -> R>(
        &self,
        items: Seq<T>,
        overlaps: O,
        split: S,
    ) -> bool {
        &&& forall|path: Seq<int>|
            #[trigger] self.splits_at(path) == (path.len() < self.spec_depth() && (path.len() == 0
                && items.len() > 0 || path.len() > 0 && exists|j: int|
                0 <= j < items.len() && #[trigger] region_fits(
                    self.spec_bounds(),
                    split,
                    path,
                    holds_for(overlaps, items[j]),
                )))
        &&& forall|path: Seq<int>|
            path.len() == self.spec_depth() ==> #[trigger] self.faces_at(path) == items.filter(
                |x: T| region_fits(self.spec_bounds(), split, path, holds_for(overlaps, x)),
            )
    }

    /// `x` sits in every leaf that a chain of child regions accepted by
    /// `fits` leads to, and every inner node on such a chain is split.
    pub closed spec fn stored(&self, fits: spec_fn(R) -> bool, x: T) -> bool
        decreases self,
    {
        if self.depth == 0 {
            self.faces@.contains(x)
        } else {
            &&& self.trees@.len() == 8
            &&& forall|i: int|
                0 <= i < 8 && fits((#[trigger] self.trees@[i]).bounds) ==> self.trees@[i].stored(
                    fits,
                    x,
                )
        }
    }

    /// `new` is `old` after one item `t` was added where `fits` allowed it:
    /// each leaf's list gains `t` once, at its end, exactly when every region
    /// on the leaf's path accepts `t`, and is unchanged otherwise; the shape
    /// rules still hold, the nodes that get split are the root (unless it is
    /// a leaf) and the inner nodes on chains that `t` fits, paths that an
    /// already stored item fits along stay as they were, no query loses an item, a query gains
    /// nothing but `t` and gains `t` only through regions that `fits`
    /// accepts, what was stored stays stored, and `t` is stored along every
    /// chain of regions that `fits` accepts (so a query that reaches a leaf
    /// through such regions returns it); chains down to leaves stay.
    pub open spec fn grown<S: Fn(R, u8) -> R>(
        old: Octree<R, T>,
        new: Octree<R, T>,
        t: T,
        fits: spec_fn(R) -> bool,
        split: S,
    ) -> bool {
        &&& new.wf()
        &&& new.spec_depth() == old.spec_depth()
        &&& new.spec_bounds() == old.spec_bounds()
        &&& old.split_by(split) ==> new.split_by(split)
        &&& forall|hit: spec_fn(R) -> bool, x: T|
            #[trigger] old.candidates(hit).contains(x) ==> new.candidates(hit).contains(x)
        &&& forall|hit: spec_fn(R) -> bool, x: T|
            #[trigger] new.candidates(hit).contains(x) ==> x == t || old.candidates(hit).contains(x)
        &&& forall|hit: spec_fn(R) -> bool|
            #[trigger] new.candidates(hit).contains(t) && !old.candidates(hit).contains(t)
                ==> new.reaches(hit, fits)
        &&& new.stored(fits, t)
        &&& forall|f: spec_fn(R) -> bool, x: T| #[trigger] old.stored(f, x) ==> new.stored(f, x)
        &&& forall|hit: spec_fn(R) -> bool, f: spec_fn(R) -> bool|
            #[trigger] old.reaches(hit, f) ==> new.reaches(hit, f)
        &&& forall|f: spec_fn(R) -> bool, x: T, path: Seq<int>|
            #![trigger old.stored(f, x), new.fits_along(path, f)]
            old.stored(f, x) ==> new.fits_along(path, f) == old.fits_along(path, f)
        &&& forall|path: Seq<int>|
            #[trigger] new.splits_at(path) == (old.splits_at(path) || (path.len() < old.spec_depth() && (
            path.len() == 0 || new.fits_along(path, fits))))
        &&& forall|path: Seq<int>|
            path.len() == old.spec_depth() ==> #[trigger] new.faces_at(path) == if new.fits_along(
                path,
                fits,
            ) {
                old.faces_at(path).push(t)
            } else {
                old.faces_at(path)
            }
    }

    proof fn lemma_children_keep(
        a: Seq<Octree<R, T>>,
        b: Seq<Octree<R, T>>,
        hit: spec_fn(R) -> bool,
        n: nat,
    )
        requires
            n <= a.len(),
            a.len() == b.len(),
            forall|j: int, x: T|
                0 <= j < n && #[trigger] a[j].candidates(hit).contains(x) ==> b[j].candidates(
                    hit,
                ).contains(x),
        ensures
            forall|x: T|
                #[trigger] Self::children_candidates(a, hit, n).contains(x)
                    ==> Self::children_candidates(b, hit, n).contains(x),
        decreases n,
    {
        if n > 0 {
            Self::lemma_children_keep(a, b, hit, (n - 1) as nat);
            assert forall|x: T|
                #[trigger] Self::children_candidates(a, hit, n).contains(x)
                    implies Self::children_candidates(b, hit, n).contains(x) by {
                let pa = Self::children_candidates(a, hit, (n - 1) as nat);
                let pb = Self::children_candidates(b, hit, (n - 1) as nat);
                let la = a[n - 1].candidates(hit);
                let lb = b[n - 1].candidates(hit);
                let k = choose|k: int| 0 <= k < (pa + la).len() && (pa + la)[k] == x;
                if k < pa.len() {
                    assert(pa[k] == x);
                    assert(pa.contains(x));
                    let m = choose|m: int| 0 <= m < pb.len() && pb[m] == x;
                    assert((pb + lb)[m] == x);
                } else {
                    assert(la[k - pa.len()] == x);
                    assert(la.contains(x));
                    let m = choose|m: int| 0 <= m < lb.len() && lb[m] == x;
                    assert((pb + lb)[pb.len() + m] == x);
                }
            }
        }
    }

    proof fn lemma_children_gain(
        a: Seq<Octree<R, T>>,
        b: Seq<Octree<R, T>>,
        hit: spec_fn(R) -> bool,
        n: nat,
        t: T,
    )
        requires
            n <= a.len(),
            a.len() == b.len(),
            forall|j: int, x: T|
                0 <= j < n && #[trigger] b[j].candidates(hit).contains(x) ==> x == t
                    || a[j].candidates(hit).contains(x),
        ensures
            forall|x: T|
                #[trigger] Self::children_candidates(b, hit, n).contains(x) ==> x == t
                    || Self::children_candidates(a, hit, n).contains(x),
        decreases n,
    {
        if n > 0 {
            Self::lemma_children_gain(a, b, hit, (n - 1) as nat, t);
            assert forall|x: T|
                #[trigger] Self::children_candidates(b, hit, n).contains(x) implies x == t
                    || Self::children_candidates(a, hit, n).contains(x) by {
                let pa = Self::children_candidates(a, hit, (n - 1) as nat);
                let pb = Self::children_candidates(b, hit, (n - 1) as nat);
                let la = a[n - 1].candidates(hit);
                let lb = b[n - 1].candidates(hit);
                let k = choose|k: int| 0 <= k < (pb + lb).len() && (pb + lb)[k] == x;
                if x != t {
                    if k < pb.len() {
                        assert(pb[k] == x);
                        assert(pb.contains(x));
                        let m = choose|m: int| 0 <= m < pa.len() && pa[m] == x;
                        assert((pa + la)[m] == x);
                    } else {
                        assert(lb[k - pb.len()] == x);
                        assert(lb.contains(x));
                        let m = choose|m: int| 0 <= m < la.len() && la[m] == x;
                        assert((pa + la)[pa.len() + m] == x);
                    }
                }
            }
        }
    }

    proof fn lemma_children_member(ts: Seq<Octree<R, T>>, hit: spec_fn(R) -> bool, n: nat, i: int, x: T)
        requires
            n <= ts.len(),
            0 <= i < n,
            ts[i].candidates(hit).contains(x),
        ensures
            Self::children_candidates(ts, hit, n).contains(x),
        decreases n,
    {
        let p = Self::children_candidates(ts, hit, (n - 1) as nat);
        let l = ts[n - 1].candidates(hit);
        if i == n - 1 {
            let m = choose|m: int| 0 <= m < l.len() && l[m] == x;
            assert((p + l)[p.len() + m] == x);
        } else {
            Self::lemma_children_member(ts, hit, (n - 1) as nat, i, x);
            let m = choose|m: int| 0 <= m < p.len() && p[m] == x;
            assert((p + l)[m] == x);
        }
    }

    proof fn lemma_children_witness(ts: Seq<Octree<R, T>>, hit: spec_fn(R) -> bool, n: nat, x: T) -> (j: int)
        requires
            n <= ts.len(),
            Self::children_candidates(ts, hit, n).contains(x),
        ensures
            0 <= j < n,
            ts[j].candidates(hit).contains(x),
        decreases n,
    {
        let p = Self::children_candidates(ts, hit, (n - 1) as nat);
        let l = ts[n - 1].candidates(hit);
        let k = choose|k: int| 0 <= k < (p + l).len() && (p + l)[k] == x;
        if k < p.len() {
            assert(p[k] == x);
            Self::lemma_children_witness(ts, hit, (n - 1) as nat, x)
        } else {
            assert(l[k - p.len()] == x);
            n - 1
        }
    }

    /// Along the chains that a stored item fits, the tree's own regions are
    /// the ones that `split` gives.
    proof fn lemma_fits_along_regions<S: Fn(R, u8) -> R>(
        tree: Octree<R, T>,
        split: S,
        f: spec_fn(R) -> bool,
        x: T,
        path: Seq<int>,
    )
        requires
            tree.wf(),
            tree.split_by(split),
            splits_uniquely(split),
            tree.stored(f, x),
            path.len() <= tree.depth,
        ensures
            tree.fits_along(path, f) == region_fits(tree.bounds, split, path, f),
        decreases path.len(),
    {
        if path.len() > 0 {
            let i = path[0];
            let rest = path.drop_first();
            if 0 <= i < 8 {
                let child = tree.trees@[i];
                assert(split.ensures((tree.bounds, i as u8), child.bounds));
                let c = choose|c: R| #[trigger] split.ensures((tree.bounds, path[0] as u8), c);
                assert(c == child.bounds);
                if f(child.bounds) {
                    assert(child.stored(f, x));
                    Self::lemma_fits_along_regions(child, split, f, x, rest);
                }
            }
        }
    }

    proof fn lemma_filter_count(s: Seq<T>, p: spec_fn(T) -> bool, x: T)
        ensures
            s.filter(p).to_multiset().count(x) == if p(x) {
                s.to_multiset().count(x)
            } else {
                0
            },
        decreases s.len(),
    {
        reveal(Seq::filter);
        if s.len() == 0 {
            assert(s.filter(p) =~= Seq::<T>::empty());
            vstd::seq_lib::to_multiset_len(s);
            vstd::seq_lib::to_multiset_len(s.filter(p));
        } else {
            let d = s.drop_last();
            let l = s.last();
            Self::lemma_filter_count(d, p, x);
            assert(s =~= d.push(l));
            vstd::seq_lib::to_multiset_build(d, l);
            if p(l) {
                assert(s.filter(p) == d.filter(p).push(l));
                vstd::seq_lib::to_multiset_build(d.filter(p), l);
            } else {
                assert(s.filter(p) == d.filter(p));
            }
        }
    }

    proof fn lemma_filter_same(s: Seq<T>, p: spec_fn(T) -> bool, q: spec_fn(T) -> bool)
        requires
            forall|j: int| 0 <= j < s.len() ==> p(#[trigger] s[j]) == q(s[j]),
        ensures
            s.filter(p) == s.filter(q),
        decreases s.len(),
    {
        if s.len() > 0 {
            let d = s.drop_last();
            assert forall|j: int| 0 <= j < d.len() implies p(#[trigger] d[j]) == q(d[j]) by {
                assert(d[j] == s[j]);
            }
            Self::lemma_filter_same(d, p, q);
            assert(p(s[s.len() - 1]) == q(s[s.len() - 1]));
            reveal(Seq::filter);
            assert(s.filter(p) == (if p(s.last()) { d.filter(p).push(s.last()) } else { d.filter(p) }));
            assert(s.filter(q) == (if q(s.last()) { d.filter(q).push(s.last()) } else { d.filter(q) }));
        }
    }

    proof fn lemma_children_empty(ts: Seq<Octree<R, T>>, hit: spec_fn(R) -> bool, n: nat)
        requires
            n <= ts.len(),
            forall|j: int| 0 <= j < n ==> (#[trigger] ts[j].candidates(hit)) == Seq::<T>::empty(),
        ensures
            Self::children_candidates(ts, hit, n) == Seq::<T>::empty(),
        decreases n,
    {
        if n > 0 {
            Self::lemma_children_empty(ts, hit, (n - 1) as nat);
            assert(ts[n - 1].candidates(hit) == Seq::<T>::empty());
            assert(Self::children_candidates(ts, hit, n) =~= Seq::<T>::empty());
        }
    }

    /// An empty node of the given depth over the given region.
    pub fn new(depth: u8, bounds: R) -> (t: Octree<R, T>)
        ensures
            t.wf(),
            t.spec_depth() == depth,
            t.spec_bounds() == bounds,
            forall|hit: spec_fn(R) -> bool| #[trigger] t.candidates(hit) == Seq::<T>::empty(),
    {
        let t = Octree { depth: depth, bounds: bounds, faces: Vec::new(), trees: Vec::new() };
        assert forall|hit: spec_fn(R) -> bool| #[trigger] t.candidates(hit) == Seq::<T>::empty() by {
            reveal_with_fuel(Octree::children_candidates, 1);
        }
        t
    }

    /// Gives a childless inner node its eight children, one per octant, each
    /// empty and one level shallower, over the region `split` gives for it.
    fn subdivide<S: Fn(R, u8) -> R>(&mut self, split: &S)
        requires
            old(self).wf(),
            old(self).depth > 0,
            old(self).trees@.len() == 0,
            forall|r: R, i: u8| i < 8 ==> #[trigger] split.requires((r, i)),
        ensures
            final(self).wf(),
            final(self).depth == old(self).depth,
            final(self).bounds == old(self).bounds,
            final(self).split_by(*split),
            final(self).trees@.len() == 8,
            forall|hit: spec_fn(R) -> bool| #[trigger] final(self).candidates(hit) == Seq::<T>::empty(),
            forall|i: int, path: Seq<int>|
                0 <= i < 8 ==> #[trigger] final(self).trees@[i].faces_at(path) == Seq::<T>::empty(),
            forall|i: int, path: Seq<int>| 0 <= i < 8 ==> !#[trigger] final(self).trees@[i].splits_at(path),
    {
        let mut i: u8 = 0;
        while i < 8
            invariant
                0 <= i <= 8,
                self.depth == old(self).depth,
                self.bounds == old(self).bounds,
                self.faces@.len() == 0,
                self.depth > 0,
                self.trees@.len() == i,
                forall|r: R, i: u8| i < 8 ==> #[trigger] split.requires((r, i)),
                forall|j: int|
                    0 <= j < i ==> (#[trigger] self.trees@[j]).wf() && self.trees@[j].depth + 1
                        == self.depth && self.trees@[j].split_by(*split) && split.ensures(
                        (self.bounds, j as u8),
                        self.trees@[j].bounds,
                    ) && (forall|hit: spec_fn(R) -> bool|
                        #[trigger] self.trees@[j].candidates(hit) == Seq::<T>::empty())
                    && self.trees@[j].faces@.len() == 0 && self.trees@[j].trees@.len() == 0,
            decreases 8 - i,
        {
            let b = split(self.bounds, i);
            let child = Octree { depth: self.depth - 1, bounds: b, faces: Vec::new(), trees: Vec::new() };
            assert(child.split_by(*split));
            assert forall|hit: spec_fn(R) -> bool| #[trigger] child.candidates(hit) == Seq::<T>::empty() by {
                reveal_with_fuel(Octree::children_candidates, 1);
            }
            self.trees.push(child);
            i = i + 1;
        }
        assert forall|hit: spec_fn(R) -> bool| #[trigger] self.candidates(hit) == Seq::<T>::empty() by {
            Self::lemma_children_empty(self.trees@, hit, 8);
        }
        assert forall|i: int, path: Seq<int>|
            0 <= i < 8 implies #[trigger] self.trees@[i].faces_at(path) == Seq::<T>::empty() by {
            assert(self.trees@[i].faces@ =~= Seq::<T>::empty());
        }
        assert forall|i: int, path: Seq<int>| 0 <= i < 8 implies !#[trigger] self.trees@[i].splits_at(path) by {
            assert(self.trees@[i].trees@.len() == 0);
        }
    }

    /// Adds `t` to every leaf below a chain of child regions that `overlaps`
    /// accepts (the root's own region is not asked), subdividing inner nodes
    /// on the way down. An item that meets several children is stored in each.
    pub fn insert<O: Fn(T, R) -> bool, S: Fn(R, u8) -> R>(&mut self, t: T, overlaps: &O, split: &S)
        requires
            old(self).wf(),
            decides_pair(*overlaps),
            forall|r: R, i: u8| i < 8 ==> #[trigger] split.requires((r, i)),
        ensures
            Self::grown(*old(self), *final(self), t, holds_for(*overlaps, t), *split),
        decreases old(self).spec_depth(),
    {
        let ghost fits = holds_for(*overlaps, t);
        let ghost start = *self;
        if self.depth == 0 {
            self.faces.push(t);
            let ghost last = (self.faces@.len() - 1) as int;
            assert(self.faces@[last] == t);
            assert forall|hit: spec_fn(R) -> bool, x: T|
                #[trigger] start.candidates(hit).contains(x) implies self.candidates(hit).contains(x) by {
                let k = choose|k: int| 0 <= k < start.faces@.len() && start.faces@[k] == x;
                assert(self.faces@[k] == x);
            }
            assert forall|hit: spec_fn(R) -> bool, x: T|
                #[trigger] self.candidates(hit).contains(x) implies x == t || start.candidates(hit).contains(x) by {
                let k = choose|k: int| 0 <= k < self.faces@.len() && self.faces@[k] == x;
                if k < start.faces@.len() {
                    assert(start.faces@[k] == x);
                }
            }
            assert(start.split_by(*split) ==> self.split_by(*split));
            assert(self.stored(fits, t));
            assert forall|f: spec_fn(R) -> bool, x: T| #[trigger] start.stored(f, x) implies self.stored(f, x) by {
                let k = choose|k: int| 0 <= k < start.faces@.len() && start.faces@[k] == x;
                assert(self.faces@[k] == x);
            }
            assert forall|hit: spec_fn(R) -> bool|
                #[trigger] self.candidates(hit).contains(t) && !start.candidates(hit).contains(t)
                    implies self.reaches(hit, fits) by {
                assert(hit(self.bounds));
            }
            assert forall|hit: spec_fn(R) -> bool, f: spec_fn(R) -> bool|
                #[trigger] start.reaches(hit, f) implies self.reaches(hit, f) by {
                assert(hit(self.bounds));
            }
            assert forall|path: Seq<int>| path.len() == start.spec_depth() implies #[trigger] self.faces_at(
                path,
            ) == if self.fits_along(path, fits) {
                start.faces_at(path).push(t)
            } else {
                start.faces_at(path)
            } by {
                assert(self.faces@ =~= start.faces@.push(t));
            }
            assert forall|f: spec_fn(R) -> bool, x: T, path: Seq<int>|
                #![trigger start.stored(f, x), self.fits_along(path, f)]
                start.stored(f, x) implies self.fits_along(path, f) == start.fits_along(path, f) by {
                assert(self.trees == start.trees);
            }
            assert forall|path: Seq<int>| #[trigger] self.splits_at(path) == (start.splits_at(path) || (
            path.len() < start.spec_depth() && (path.len() == 0 || self.fits_along(path, fits)))) by {
                assert(self.trees == start.trees);
            }
            return;
        }
        if self.trees.len() == 0 {
            self.subdivide(split);
            assert forall|hit: spec_fn(R) -> bool| #[trigger] start.candidates(hit) == Seq::<T>::empty() by {
                reveal_with_fuel(Octree::children_candidates, 1);
            }
        }
        let ghost mid = *self;
        assert(start.split_by(*split) ==> mid.split_by(*split));
        let mut rest: Vec<Octree<R, T>> = Vec::new();
        std::mem::swap(&mut self.trees, &mut rest);
        let mut done: Vec<Octree<R, T>> = Vec::new();
        while rest.len() > 0
            invariant
                mid.wf(),
                mid.depth > 0,
                mid.trees@.len() == 8,
                mid.depth == old(self).depth,
                self.depth == mid.depth,
                self.bounds == mid.bounds,
                self.faces == mid.faces,
                decides_pair(*overlaps),
                fits == holds_for(*overlaps, t),
                start == mid || (start.depth > 0 && start.trees@.len() == 0),
                start.trees@.len() == 0 ==> forall|i: int, path: Seq<int>|
                    0 <= i < 8 ==> #[trigger] mid.trees@[i].faces_at(path) == Seq::<T>::empty(),
                start.trees@.len() == 0 ==> forall|i: int, path: Seq<int>|
                    0 <= i < 8 ==> !#[trigger] mid.trees@[i].splits_at(path),
                forall|r: R, i: u8| i < 8 ==> #[trigger] split.requires((r, i)),
                done@.len() + rest@.len() == 8,
                rest@ == mid.trees@.subrange(done@.len() as int, 8),
                forall|j: int|
                    0 <= j < done@.len() ==> if fits((#[trigger] done@[j]).bounds) {
                        Self::grown(mid.trees@[j], done@[j], t, fits, *split)
                    } else {
                        done@[j] == mid.trees@[j]
                    },
            decreases rest@.len(),
        {
            let ghost j = done@.len() as int;
            let mut c = rest.remove(0);
            assert(c == mid.trees@[j]);
            let fit = overlaps(t, c.bounds);
            if fit {
                assert(c.spec_depth() < old(self).spec_depth());
                c.insert(t, overlaps, split);
            }
            done.push(c);
            assert(done@[j] == c);
        }
        self.trees = done;
        let ghost fin = *self;
        assert(fin.depth == mid.depth && fin.bounds == mid.bounds && fin.trees@.len() == 8);
        assert forall|j: int| 0 <= j < 8 implies #[trigger] fin.trees@[j].wf() && fin.trees@[j].depth + 1
            == fin.depth by {
            if fits(fin.trees@[j].bounds) {
                assert(Self::grown(mid.trees@[j], fin.trees@[j], t, fits, *split));
            }
        }
        assert(fin.wf());
        assert(mid.split_by(*split) ==> fin.split_by(*split)) by {
            if mid.split_by(*split) {
                assert forall|j: int| 0 <= j < fin.trees@.len() implies split.ensures(
                    (fin.bounds, j as u8),
                    (#[trigger] fin.trees@[j]).bounds,
                ) && fin.trees@[j].split_by(*split) by {
                    assert(mid.trees@[j].split_by(*split));
                }
            }
        }
        assert forall|hit: spec_fn(R) -> bool, x: T|
            #[trigger] mid.candidates(hit).contains(x) implies fin.candidates(hit).contains(x) by {
            assert forall|j: int, y: T|
                0 <= j < 8 && #[trigger] mid.trees@[j].candidates(hit).contains(y)
                    implies fin.trees@[j].candidates(hit).contains(y) by {
                if fits(fin.trees@[j].bounds) {
                    assert(Self::grown(mid.trees@[j], fin.trees@[j], t, fits, *split));
                }
            }
            Self::lemma_children_keep(mid.trees@, fin.trees@, hit, 8);
            if hit(mid.bounds) {
                assert(mid.candidates(hit) == Self::children_candidates(mid.trees@, hit, 8));
                assert(fin.candidates(hit) == Self::children_candidates(fin.trees@, hit, 8));
            }
        }
        assert forall|hit: spec_fn(R) -> bool, x: T|
            #[trigger] fin.candidates(hit).contains(x) implies x == t || mid.candidates(hit).contains(x) by {
            assert forall|j: int, y: T|
                0 <= j < 8 && #[trigger] fin.trees@[j].candidates(hit).contains(y)
                    implies y == t || mid.trees@[j].candidates(hit).contains(y) by {
                if fits(fin.trees@[j].bounds) {
                    assert(Self::grown(mid.trees@[j], fin.trees@[j], t, fits, *split));
                }
            }
            Self::lemma_children_gain(mid.trees@, fin.trees@, hit, 8, t);
            if hit(mid.bounds) {
                assert(mid.candidates(hit) == Self::children_candidates(mid.trees@, hit, 8));
                assert(fin.candidates(hit) == Self::children_candidates(fin.trees@, hit, 8));
            }
        }
        assert forall|hit: spec_fn(R) -> bool|
            #[trigger] fin.candidates(hit).contains(t) && !start.candidates(hit).contains(t)
                implies fin.reaches(hit, fits) by {
            assert(hit(fin.bounds));
            assert(fin.candidates(hit) == Self::children_candidates(fin.trees@, hit, 8));
            assert(mid.candidates(hit) == Self::children_candidates(mid.trees@, hit, 8));
            assert(!mid.candidates(hit).contains(t));
            let j = Self::lemma_children_witness(fin.trees@, hit, 8, t);
            if !mid.trees@[j].candidates(hit).contains(t) {
                if fits(fin.trees@[j].bounds) {
                    assert(Self::grown(mid.trees@[j], fin.trees@[j], t, fits, *split));
                } else {
                    assert(fin.trees@[j] == mid.trees@[j]);
                }
            } else {
                Self::lemma_children_member(mid.trees@, hit, 8, j, t);
            }
        }
        assert forall|f: spec_fn(R) -> bool, x: T, path: Seq<int>|
            #![trigger start.stored(f, x), fin.fits_along(path, f)]
            start.stored(f, x) implies fin.fits_along(path, f) == start.fits_along(path, f) by {
            assert(mid == start);
            if path.len() > 0 {
                let i = path[0];
                let rest = path.drop_first();
                if 0 <= i < 8 && f(fin.trees@[i].bounds) {
                    assert(mid.trees@[i].stored(f, x));
                    if fits(fin.trees@[i].bounds) {
                        assert(Self::grown(mid.trees@[i], fin.trees@[i], t, fits, *split));
                        assert(fin.trees@[i].fits_along(rest, f) == mid.trees@[i].fits_along(rest, f));
                    } else {
                        assert(fin.trees@[i] == mid.trees@[i]);
                    }
                }
            }
        }
        assert forall|path: Seq<int>| #[trigger] fin.splits_at(path) == (start.splits_at(path) || (
        path.len() < start.spec_depth() && (path.len() == 0 || fin.fits_along(path, fits)))) by {
            if path.len() > 0 {
                let i = path[0];
                let rest = path.drop_first();
                if 0 <= i < 8 {
                    assert(fin.splits_at(path) == fin.trees@[i].splits_at(rest));
                    assert(fin.fits_along(path, fits) == (fits(fin.trees@[i].bounds) && fin.trees@[i].fits_along(
                        rest,
                        fits,
                    )));
                    assert(mid.trees@[i].spec_depth() + 1 == start.spec_depth());
                    if start.trees@.len() == 0 {
                        assert(!mid.trees@[i].splits_at(rest));
                        assert(!start.splits_at(path));
                    } else {
                        assert(start.splits_at(path) == start.trees@[i].splits_at(rest));
                    }
                    if fits(fin.trees@[i].bounds) {
                        assert(Self::grown(mid.trees@[i], fin.trees@[i], t, fits, *split));
                        assert(fin.trees@[i].splits_at(rest) == (mid.trees@[i].splits_at(rest) || (rest.len()
                            < mid.trees@[i].spec_depth() && (rest.len() == 0 || fin.trees@[i].fits_along(
                            rest,
                            fits,
                        )))));
                    } else {
                        assert(fin.trees@[i] == mid.trees@[i]);
                    }
                } else {
                    assert(!fin.splits_at(path));
                    assert(!start.splits_at(path));
                    assert(!fin.fits_along(path, fits));
                }
            } else {
                assert(fin.splits_at(path));
            }
        }
        assert forall|path: Seq<int>| path.len() == start.spec_depth() implies #[trigger] fin.faces_at(path)
            == if fin.fits_along(path, fits) {
            start.faces_at(path).push(t)
        } else {
            start.faces_at(path)
        } by {
            let i = path[0];
            let rest = path.drop_first();
            assert(path.len() > 0);
            if 0 <= i < 8 {
                assert(fin.faces_at(path) == fin.trees@[i].faces_at(rest));
                if start.trees@.len() == 0 {
                    assert(mid.trees@[i].faces_at(rest) == Seq::<T>::empty());
                    assert(start.faces_at(path) == Seq::<T>::empty());
                } else {
                    assert(start.faces_at(path) == start.trees@[i].faces_at(rest));
                }
                assert(start.faces_at(path) == mid.trees@[i].faces_at(rest));
                if fits(fin.trees@[i].bounds) {
                    assert(Self::grown(mid.trees@[i], fin.trees@[i], t, fits, *split));
                    assert(rest.len() == mid.trees@[i].spec_depth());
                } else {
                    assert(fin.trees@[i] == mid.trees@[i]);
                }
            }
        }
        assert forall|hit: spec_fn(R) -> bool, f: spec_fn(R) -> bool|
            #[trigger] start.reaches(hit, f) implies fin.reaches(hit, f) by {
            assert(mid == start);
            assert(hit(fin.bounds));
            let i = choose|i: int|
                0 <= i < mid.trees@.len() && f((#[trigger] mid.trees@[i]).bounds)
                    && mid.trees@[i].reaches(hit, f);
            if fits(fin.trees@[i].bounds) {
                assert(Self::grown(mid.trees@[i], fin.trees@[i], t, fits, *split));
            } else {
                assert(fin.trees@[i] == mid.trees@[i]);
            }
            assert(f(fin.trees@[i].bounds) && fin.trees@[i].reaches(hit, f));
        }
        assert forall|i: int| 0 <= i < 8 && fits((#[trigger] fin.trees@[i]).bounds) implies fin.trees@[i].stored(
            fits,
            t,
        ) by {
            assert(Self::grown(mid.trees@[i], fin.trees@[i], t, fits, *split));
        }
        assert(fin.stored(fits, t));
        assert forall|f: spec_fn(R) -> bool, x: T| #[trigger] start.stored(f, x) implies fin.stored(f, x) by {
            assert(mid.stored(f, x));
            assert forall|i: int| 0 <= i < 8 && f((#[trigger] fin.trees@[i]).bounds) implies fin.trees@[i].stored(
                f,
                x,
            ) by {
                assert(mid.trees@[i].stored(f, x));
                if fits(fin.trees@[i].bounds) {
                    assert(Self::grown(mid.trees@[i], fin.trees@[i], t, fits, *split));
                }
            }
        }
    }

    /// Builds a tree of the given depth over `bounds` (which should cover
    /// every item) and inserts the items one by one, in order. Each leaf
    /// holds exactly the items that fit every region on its path, once
    /// each, in input order. A query on
    /// the result returns exactly the items for which the ray reaches a leaf
    /// through regions that all meet the item (in any order, possibly more
    /// than once).
    pub fn build<O: Fn(T, R) -> bool, S: Fn(R, u8) -> R>(
        items: &Vec<T>,
        bounds: R,
        depth: u8,
        overlaps: &O,
        split: &S,
    ) -> (tree: Octree<R, T>)
        requires
            decides_pair(*overlaps),
            forall|r: R, i: u8| i < 8 ==> #[trigger] split.requires((r, i)),
            splits_uniquely(*split),
        ensures
            tree.wf(),
            tree.spec_depth() == depth,
            tree.spec_bounds() == bounds,
            tree.split_by(*split),
            forall|hit: spec_fn(R) -> bool, x: T|
                #[trigger] tree.candidates(hit).contains(x) ==> items@.contains(x),
            forall|i: int|
                0 <= i < items@.len() ==> tree.stored(
                    holds_for(*overlaps, #[trigger] items@[i]),
                    items@[i],
                ),
            forall|hit: spec_fn(R) -> bool, x: T|
                #[trigger] tree.candidates(hit).contains(x) <==> exists|i: int|
                    0 <= i < items@.len() && #[trigger] items@[i] == x && tree.reaches(
                        hit,
                        holds_for(*overlaps, x),
                    ),
            tree.shaped_by(items@, *overlaps, *split),
    {
        let mut tree = Octree { depth: depth, bounds: bounds, faces: Vec::new(), trees: Vec::new() };
        assert forall|hit: spec_fn(R) -> bool| #[trigger] tree.candidates(hit) == Seq::<T>::empty() by {
            reveal_with_fuel(Octree::children_candidates, 1);
        }
        assert forall|path: Seq<int>| path.len() == depth implies #[trigger] tree.faces_at(path)
            == items@.subrange(0, 0).filter(|x: T| tree.fits_along(path, holds_for(*overlaps, x))) by {
            reveal(Seq::filter);
            assert(items@.subrange(0, 0).filter(|x: T| tree.fits_along(path, holds_for(*overlaps, x)))
                =~= Seq::<T>::empty());
            assert(tree.faces@ =~= Seq::<T>::empty());
        }
        assert forall|path: Seq<int>| !#[trigger] tree.splits_at(path) by {
            assert(tree.trees@.len() == 0);
        }
        let mut k: usize = 0;
        while k < items.len()
            invariant
                0 <= k <= items@.len(),
                decides_pair(*overlaps),
                splits_uniquely(*split),
                forall|r: R, i: u8| i < 8 ==> #[trigger] split.requires((r, i)),
                tree.wf(),
                tree.spec_depth() == depth,
                tree.spec_bounds() == bounds,
                tree.split_by(*split),
                forall|hit: spec_fn(R) -> bool, x: T|
                    #[trigger] tree.candidates(hit).contains(x) ==> items@.subrange(
                        0,
                        k as int,
                    ).contains(x),
                forall|i: int|
                    0 <= i < k ==> tree.stored(
                        holds_for(*overlaps, #[trigger] items@[i]),
                        items@[i],
                    ),
                forall|hit: spec_fn(R) -> bool, x: T|
                    #[trigger] tree.candidates(hit).contains(x) ==> exists|i: int|
                        0 <= i < k && #[trigger] items@[i] == x && tree.reaches(
                            hit,
                            holds_for(*overlaps, x),
                        ),
                forall|path: Seq<int>|
                    path.len() == depth ==> #[trigger] tree.faces_at(path) == items@.subrange(
                        0,
                        k as int,
                    ).filter(|x: T| tree.fits_along(path, holds_for(*overlaps, x))),
                forall|path: Seq<int>|
                    #[trigger] tree.splits_at(path) == (path.len() < depth && (path.len() == 0 && k > 0
                        || path.len() > 0 && exists|j: int|
                        0 <= j < k && #[trigger] tree.fits_along(path, holds_for(*overlaps, items@[j])))),
            decreases items@.len() - k,
        {
            let ghost before = tree;
            let item = items[k];
            tree.insert(item, overlaps, split);
            assert forall|hit: spec_fn(R) -> bool, x: T|
                #[trigger] tree.candidates(hit).contains(x) implies items@.subrange(
                    0,
                    k + 1,
                ).contains(x) by {
                if x == item {
                    assert(items@.subrange(0, k + 1)[k as int] == x);
                } else {
                    assert(before.candidates(hit).contains(x));
                    let m = choose|m: int| 0 <= m < k && items@.subrange(0, k as int)[m] == x;
                    assert(items@.subrange(0, k + 1)[m] == x);
                }
            }
            assert forall|hit: spec_fn(R) -> bool, x: T|
                #[trigger] tree.candidates(hit).contains(x) implies exists|i: int|
                    0 <= i < k + 1 && #[trigger] items@[i] == x && tree.reaches(
                        hit,
                        holds_for(*overlaps, x),
                    ) by {
                if before.candidates(hit).contains(x) {
                    let i = choose|i: int|
                        0 <= i < k && #[trigger] items@[i] == x && before.reaches(
                            hit,
                            holds_for(*overlaps, x),
                        );
                    assert(tree.reaches(hit, holds_for(*overlaps, x)));
                    assert(0 <= i < k + 1 && items@[i] == x);
                } else {
                    assert(x == item);
                    assert(items@[k as int] == x);
                }
            }
            assert forall|path: Seq<int>|
                #[trigger] tree.splits_at(path) == (path.len() < depth && (path.len() == 0 && k + 1 > 0
                    || path.len() > 0 && exists|j: int|
                    0 <= j < k + 1 && #[trigger] tree.fits_along(path, holds_for(*overlaps, items@[j])))) by {
                assert forall|j: int| 0 <= j < k implies #[trigger] tree.fits_along(
                    path,
                    holds_for(*overlaps, items@[j]),
                ) == before.fits_along(path, holds_for(*overlaps, items@[j])) by {
                    assert(before.stored(holds_for(*overlaps, items@[j]), items@[j]));
                }
                assert(items@[k as int] == item);
                let ex_new = exists|j: int|
                    0 <= j < k + 1 && #[trigger] tree.fits_along(path, holds_for(*overlaps, items@[j]));
                let ex_old = exists|j: int|
                    0 <= j < k && #[trigger] before.fits_along(path, holds_for(*overlaps, items@[j]));
                if ex_new {
                    let j = choose|j: int|
                        0 <= j < k + 1 && #[trigger] tree.fits_along(path, holds_for(*overlaps, items@[j]));
                    if j < k {
                        assert(before.fits_along(path, holds_for(*overlaps, items@[j])));
                    }
                }
                if ex_old {
                    let j = choose|j: int|
                        0 <= j < k && #[trigger] before.fits_along(path, holds_for(*overlaps, items@[j]));
                    assert(tree.fits_along(path, holds_for(*overlaps, items@[j])));
                }
                if tree.fits_along(path, holds_for(*overlaps, item)) {
                    assert(tree.fits_along(path, holds_for(*overlaps, items@[k as int])));
                }
                assert(ex_new == (ex_old || tree.fits_along(path, holds_for(*overlaps, item))));
                assert(before.splits_at(path) == (path.len() < depth && (path.len() == 0 && k > 0
                    || path.len() > 0 && ex_old)));
            }
            assert forall|path: Seq<int>| path.len() == depth implies #[trigger] tree.faces_at(path)
                == items@.subrange(0, k + 1).filter(
                |x: T| tree.fits_along(path, holds_for(*overlaps, x)),
            ) by {
                let pn = |x: T| tree.fits_along(path, holds_for(*overlaps, x));
                let po = |x: T| before.fits_along(path, holds_for(*overlaps, x));
                let sk = items@.subrange(0, k as int);
                let sk1 = items@.subrange(0, k + 1);
                assert forall|j: int| 0 <= j < sk.len() implies pn(#[trigger] sk[j]) == po(sk[j]) by {
                    assert(k < items@.len());
                    assert(sk[j] == items@[j]);
                    assert(before.stored(holds_for(*overlaps, items@[j]), items@[j]));
                    assert(tree.fits_along(path, holds_for(*overlaps, items@[j])) == before.fits_along(
                        path,
                        holds_for(*overlaps, items@[j]),
                    ));
                }
                Self::lemma_filter_same(sk, pn, po);
                assert(sk1.drop_last() =~= sk);
                assert(sk1.last() == item);
                assert(before.faces_at(path) == sk.filter(po));
                reveal(Seq::filter);
                assert(sk1.filter(pn) == (if pn(sk1.last()) {
                    sk1.drop_last().filter(pn).push(sk1.last())
                } else {
                    sk1.drop_last().filter(pn)
                }));
                assert(pn(item) == tree.fits_along(path, holds_for(*overlaps, item)));
                assert(path.len() == before.spec_depth());
            }
            assert forall|i: int| 0 <= i < k + 1 implies tree.stored(
                holds_for(*overlaps, #[trigger] items@[i]),
                items@[i],
            ) by {
                if i < k {
                    assert(before.stored(holds_for(*overlaps, items@[i]), items@[i]));
                }
            }
            k = k + 1;
        }
        assert(items@.subrange(0, items@.len() as int) =~= items@);
        assert forall|path: Seq<int>| path.len() == depth implies #[trigger] tree.faces_at(path) == items@.filter(
            |x: T| region_fits(bounds, *split, path, holds_for(*overlaps, x)),
        ) by {
            let pt = |x: T| tree.fits_along(path, holds_for(*overlaps, x));
            let pr = |x: T| region_fits(bounds, *split, path, holds_for(*overlaps, x));
            assert(tree.faces_at(path) == items@.subrange(0, items@.len() as int).filter(pt));
            assert forall|j: int| 0 <= j < items@.len() implies pt(#[trigger] items@[j]) == pr(items@[j]) by {
                assert(tree.stored(holds_for(*overlaps, items@[j]), items@[j]));
                Self::lemma_fits_along_regions(tree, *split, holds_for(*overlaps, items@[j]), items@[j], path);
            }
            Self::lemma_filter_same(items@, pt, pr);
        }
        assert forall|path: Seq<int>|
            #[trigger] tree.splits_at(path) == (path.len() < depth && (path.len() == 0 && items@.len() > 0
                || path.len() > 0 && exists|j: int|
                0 <= j < items@.len() && #[trigger] region_fits(
                    bounds,
                    *split,
                    path,
                    holds_for(*overlaps, items@[j]),
                ))) by {
            if path.len() < depth {
                assert forall|j: int| 0 <= j < items@.len() implies #[trigger] tree.fits_along(
                    path,
                    holds_for(*overlaps, items@[j]),
                ) == region_fits(bounds, *split, path, holds_for(*overlaps, items@[j])) by {
                    assert(tree.stored(holds_for(*overlaps, items@[j]), items@[j]));
                    Self::lemma_fits_along_regions(tree, *split, holds_for(*overlaps, items@[j]), items@[j], path);
                }
                let ex_t = exists|j: int|
                    0 <= j < items@.len() && #[trigger] tree.fits_along(path, holds_for(*overlaps, items@[j]));
                let ex_r = exists|j: int|
                    0 <= j < items@.len() && #[trigger] region_fits(
                        bounds,
                        *split,
                        path,
                        holds_for(*overlaps, items@[j]),
                    );
                if ex_t {
                    let j = choose|j: int|
                        0 <= j < items@.len() && #[trigger] tree.fits_along(path, holds_for(*overlaps, items@[j]));
                    assert(region_fits(bounds, *split, path, holds_for(*overlaps, items@[j])));
                }
                if ex_r {
                    let j = choose|j: int|
                        0 <= j < items@.len() && #[trigger] region_fits(
                            bounds,
                            *split,
                            path,
                            holds_for(*overlaps, items@[j]),
                        );
                    assert(tree.fits_along(path, holds_for(*overlaps, items@[j])));
                }
                assert(ex_t == ex_r);
            }
        }
        assert(tree.shaped_by(items@, *overlaps, *split));
        assert forall|hit: spec_fn(R) -> bool, x: T|
            (exists|i: int|
                0 <= i < items@.len() && #[trigger] items@[i] == x && tree.reaches(
                    hit,
                    holds_for(*overlaps, x),
                )) implies #[trigger] tree.candidates(hit).contains(x) by {
            let i = choose|i: int|
                0 <= i < items@.len() && #[trigger] items@[i] == x && tree.reaches(
                    hit,
                    holds_for(*overlaps, x),
                );
            assert(tree.stored(holds_for(*overlaps, items@[i]), items@[i]));
            Self::lemma_stored_found(tree, holds_for(*overlaps, x), x, hit);
        }
        tree
    }

    /// A query whose ray meets a leaf through regions that all meet an
    /// item's bounds returns that item, once the item is stored there.
    pub proof fn lemma_stored_found(tree: Octree<R, T>, fits: spec_fn(R) -> bool, x: T, hit: spec_fn(R) -> bool)
        requires
            tree.wf(),
            tree.stored(fits, x),
            tree.reaches(hit, fits),
        ensures
            tree.candidates(hit).contains(x),
        decreases tree,
    {
        if tree.depth > 0 {
            let i = choose|i: int|
                0 <= i < tree.trees@.len() && fits((#[trigger] tree.trees@[i]).bounds)
                    && tree.trees@[i].reaches(hit, fits);
            Self::lemma_stored_found(tree.trees@[i], fits, x, hit);
            Self::lemma_children_member(tree.trees@, hit, 8, i, x);
        }
    }

    /// Inserting an item and then querying with a ray that meets a leaf
    /// through regions that all meet the item's bounds returns the item.
    pub proof fn lemma_insert_then_query<S: Fn(R, u8) -> R>(
        before: Octree<R, T>,
        after: Octree<R, T>,
        t: T,
        fits: spec_fn(R) -> bool,
        split: S,
        hit: spec_fn(R) -> bool,
    )
        requires
            Self::grown(before, after, t, fits, split),
            after.reaches(hit, fits),
        ensures
            after.candidates(hit).contains(t),
    {
        Self::lemma_stored_found(after, fits, t, hit);
    }

    /// Pruning only removes: a ray whose regions are among another's gets
    /// no candidate that the other does not get. In particular a query that
    /// meets every region (a full scan of the tree) gets every candidate that
    /// any pruned query gets, and a ray that misses the root region gets none.
    pub proof fn lemma_query_monotone(tree: Octree<R, T>, fewer: spec_fn(R) -> bool, more: spec_fn(R) -> bool)
        requires
            forall|r: R| #[trigger] fewer(r) ==> more(r),
        ensures
            forall|x: T|
                #[trigger] tree.candidates(fewer).contains(x) ==> tree.candidates(more).contains(x),
            !fewer(tree.spec_bounds()) ==> tree.candidates(fewer) == Seq::<T>::empty(),
        decreases tree, 0nat,
    {
        if fewer(tree.bounds) {
            assert(more(tree.bounds));
            if tree.depth > 0 {
                Self::lemma_children_monotone(tree.trees@, fewer, more, tree.trees@.len());
                assert(tree.candidates(fewer) == Self::children_candidates(tree.trees@, fewer, tree.trees@.len()));
                assert(tree.candidates(more) == Self::children_candidates(tree.trees@, more, tree.trees@.len()));
            } else {
                assert(tree.candidates(fewer) == tree.faces@);
                assert(tree.candidates(more) == tree.faces@);
            }
        }
    }

    proof fn lemma_children_monotone(
        ts: Seq<Octree<R, T>>,
        fewer: spec_fn(R) -> bool,
        more: spec_fn(R) -> bool,
        n: nat,
    )
        requires
            forall|r: R| #[trigger] fewer(r) ==> more(r),
            n <= ts.len(),
        ensures
            forall|x: T|
                #[trigger] Self::children_candidates(ts, fewer, n).contains(x)
                    ==> Self::children_candidates(ts, more, n).contains(x),
        decreases ts, n,
    {
        if n > 0 {
            Self::lemma_children_monotone(ts, fewer, more, (n - 1) as nat);
            Self::lemma_query_monotone(ts[n - 1], fewer, more);
            assert forall|x: T|
                #[trigger] Self::children_candidates(ts, fewer, n).contains(x)
                    implies Self::children_candidates(ts, more, n).contains(x) by {
                let pa = Self::children_candidates(ts, fewer, (n - 1) as nat);
                let pb = Self::children_candidates(ts, more, (n - 1) as nat);
                let la = ts[n - 1].candidates(fewer);
                let lb = ts[n - 1].candidates(more);
                let k = choose|k: int| 0 <= k < (pa + la).len() && (pa + la)[k] == x;
                if k < pa.len() {
                    assert(pa[k] == x);
                    assert(pa.contains(x));
                    let m = choose|m: int| 0 <= m < pb.len() && pb[m] == x;
                    assert((pb + lb)[m] == x);
                } else {
                    assert(la[k - pa.len()] == x);
                    assert(la.contains(x));
                    let m = choose|m: int| 0 <= m < lb.len() && lb[m] == x;
                    assert((pb + lb)[pb.len() + m] == x);
                }
            }
        }
    }

    /// Insertion order does not matter: trees built from the same items in
    /// any two orders are split at the same nodes, and each leaf holds the
    /// same items, only perhaps in another order.
    pub proof fn lemma_build_order_free<O: Fn(T, R) -> bool, S: Fn(R, u8) -> R>(
        a: Octree<R, T>,
        b: Octree<R, T>,
        items_a: Seq<T>,
        items_b: Seq<T>,
        overlaps: O,
        split: S,
        path: Seq<int>,
    )
        requires
            a.spec_depth() == b.spec_depth(),
            a.spec_bounds() == b.spec_bounds(),
            a.shaped_by(items_a, overlaps, split),
            b.shaped_by(items_b, overlaps, split),
            items_a.to_multiset() == items_b.to_multiset(),
        ensures
            a.splits_at(path) == b.splits_at(path),
            path.len() == a.spec_depth() ==> a.faces_at(path).to_multiset() == b.faces_at(
                path,
            ).to_multiset(),
    {
        let r = a.spec_bounds();
        vstd::seq_lib::to_multiset_len(items_a);
        vstd::seq_lib::to_multiset_len(items_b);
        let ex_a = exists|j: int|
            0 <= j < items_a.len() && #[trigger] region_fits(r, split, path, holds_for(overlaps, items_a[j]));
        let ex_b = exists|j: int|
            0 <= j < items_b.len() && #[trigger] region_fits(r, split, path, holds_for(overlaps, items_b[j]));
        if ex_a {
            let j = choose|j: int|
                0 <= j < items_a.len() && #[trigger] region_fits(r, split, path, holds_for(overlaps, items_a[j]));
            let x = items_a[j];
            assert(items_a.contains(x));
            vstd::seq_lib::to_multiset_contains(items_a, x);
            vstd::seq_lib::to_multiset_contains(items_b, x);
            let m = choose|m: int| 0 <= m < items_b.len() && items_b[m] == x;
            assert(region_fits(r, split, path, holds_for(overlaps, items_b[m])));
        }
        if ex_b {
            let j = choose|j: int|
                0 <= j < items_b.len() && #[trigger] region_fits(r, split, path, holds_for(overlaps, items_b[j]));
            let x = items_b[j];
            assert(items_b.contains(x));
            vstd::seq_lib::to_multiset_contains(items_b, x);
            vstd::seq_lib::to_multiset_contains(items_a, x);
            let m = choose|m: int| 0 <= m < items_a.len() && items_a[m] == x;
            assert(region_fits(r, split, path, holds_for(overlaps, items_a[m])));
        }
        assert(ex_a == ex_b);
        assert(a.splits_at(path) == b.splits_at(path));
        if path.len() == a.spec_depth() {
            let p = |x: T| region_fits(r, split, path, holds_for(overlaps, x));
            assert forall|x: T| #[trigger] items_a.filter(p).to_multiset().count(x) == items_b.filter(
                p,
            ).to_multiset().count(x) by {
                Self::lemma_filter_count(items_a, p, x);
                Self::lemma_filter_count(items_b, p, x);
            }
            assert(items_a.filter(p).to_multiset() =~= items_b.filter(p).to_multiset());
        }
    }

    /// The pruned query loses no hit: when the ray meets, through regions
    /// that all meet the item, a leaf for every item that it hits (what
    /// bounding regions guarantee), the candidates that the ray hits are
    /// exactly the items that it hits, so the nearest hit among the
    /// candidates is the nearest hit among all items.
    pub proof fn lemma_index_matches_scan<O: Fn(T, R) -> bool>(
        tree: Octree<R, T>,
        items: Seq<T>,
        overlaps: O,
        hit: spec_fn(R) -> bool,
        hits_item: spec_fn(T) -> bool,
        x: T,
    )
        requires
            forall|h: spec_fn(R) -> bool, y: T|
                #[trigger] tree.candidates(h).contains(y) <==> exists|i: int|
                    0 <= i < items.len() && #[trigger] items[i] == y && tree.reaches(
                        h,
                        holds_for(overlaps, y),
                    ),
            forall|i: int|
                0 <= i < items.len() && hits_item(#[trigger] items[i]) ==> tree.reaches(
                    hit,
                    holds_for(overlaps, items[i]),
                ),
        ensures
            tree.candidates(hit).contains(x) && hits_item(x) <==> items.contains(x) && hits_item(x),
    {
        if tree.candidates(hit).contains(x) {
            let i = choose|i: int|
                0 <= i < items.len() && #[trigger] items[i] == x && tree.reaches(hit, holds_for(overlaps, x));
            assert(items.contains(x));
        }
        if items.contains(x) && hits_item(x) {
            let i = choose|i: int| 0 <= i < items.len() && items[i] == x;
            assert(hits_item(items[i]));
            assert(tree.reaches(hit, holds_for(overlaps, items[i])));
        }
    }

    /// A tree built from no items returns nothing for any ray.
    pub proof fn lemma_empty_build_finds_nothing(tree: Octree<R, T>, items: Seq<T>, hit: spec_fn(R) -> bool)
        requires
            items.len() == 0,
            forall|h: spec_fn(R) -> bool, x: T|
                #[trigger] tree.candidates(h).contains(x) ==> items.contains(x),
        ensures
            tree.candidates(hit) == Seq::<T>::empty(),
    {
        if tree.candidates(hit).len() > 0 {
            assert(tree.candidates(hit).contains(tree.candidates(hit)[0]));
        }
        assert(tree.candidates(hit) =~= Seq::<T>::empty());
    }

    /// The items stored in every leaf whose region, and every region above
    /// it, `hits` accepts. A region that `hits` rejects prunes its whole
    /// subtree. Items stored in several leaves come once per leaf.
    pub fn get_faces<F: Fn(R) -> bool>(&self, hits: &F) -> (r: Vec<T>)
        requires
            self.wf(),
            decides(*hits),
        ensures
            r@ == self.candidates(holds(*hits)),
        decreases self.spec_depth(),
    {
        let intersects = hits(self.bounds);
        let mut all: Vec<T> = Vec::new();
        if !intersects {
            return all;
        }
        if self.depth == 0 {
            let mut i: usize = 0;
            while i < self.faces.len()
                invariant
                    0 <= i <= self.faces@.len(),
                    all@ == self.faces@.subrange(0, i as int),
                decreases self.faces@.len() - i,
            {
                all.push(self.faces[i]);
                i = i + 1;
            }
            assert(all@ =~= self.faces@);
            return all;
        }
        let mut k: usize = 0;
        while k < self.trees.len()
            invariant
                self.wf(),
                self.depth > 0,
                decides(*hits),
                0 <= k <= self.trees@.len(),
                all@ == Self::children_candidates(self.trees@, holds(*hits), k as nat),
            decreases self.trees@.len() - k,
        {
            let part = self.trees[k].get_faces(hits);
            let mut j: usize = 0;
            let ghost before = all@;
            while j < part.len()
                invariant
                    0 <= j <= part@.len(),
                    all@ == before + part@.subrange(0, j as int),
                decreases part@.len() - j,
            {
                all.push(part[j]);
                j = j + 1;
            }
            assert(part@.subrange(0, part@.len() as int) =~= part@);
            k = k + 1;
        }
        all
    }
}

} // verus!
