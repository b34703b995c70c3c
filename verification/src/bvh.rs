//! The bounding-volume hierarchy: construction and traversal, with the
//! proof that traversal finds exactly the hit a linear scan would find.
//!
//! Construction sorts the spheres by center along the axis of largest
//! center extent (a balance heuristic only), splits at the midpoint and
//! recurses; every node's box contains its children's boxes.  Traversal
//! prunes a subtree when the ray misses its box, and shrinks the upper
//! parameter bound to the best hit found so far.  The pruning is sound
//! because an accepted sphere root always lies inside the sphere's padded
//! box, and so inside every enclosing node box.

use vstd::prelude::*;
use vstd::seq_lib::lemma_multiset_commutative;
use vstd::assert_multisets_equal;
use crate::num::{fx_ok, SCALE, FX_BOUND};
use crate::vec3::{Vec3, vec_ok};
use crate::ray::Ray;
use crate::aabb::{AABB, aabb_ok, contains, slab_hit, surrounding_box, box_union, lemma_union_contains, lemma_slab_contains};
use crate::shape::{
    Sphere, HitRecord, sphere_wf, spec_sphere_box, spec_sphere_hit_t, sph_qual, hit_wf,
    lemma_sphere_hit_char, lemma_sphere_hit_in_slab,
};

verus! {

broadcast use vstd::seq_lib::group_to_multiset_ensures, vstd::multiset::group_multiset_axioms;

pub enum BVHNode {
    Leaf(Sphere),
    Branch(Box<BVH>, Box<BVH>),
}

pub struct BVH {
    pub node: BVHNode,
    pub bbox: AABB,
}

/// The tree invariant: a leaf carries its sphere's padded box, and a
/// branch box is exactly the union of its children's boxes (so in
/// particular it contains both).
pub open spec fn bvh_wf(b: BVH) -> bool
    decreases b,
{
    aabb_ok(b.bbox) && match b.node {
        BVHNode::Leaf(s) => sphere_wf(s) && b.bbox == spec_sphere_box(s),
        BVHNode::Branch(l, r) => bvh_wf(*l) && bvh_wf(*r)
            && b.bbox == box_union(l.bbox, r.bbox),
    }
}

/// The spheres stored in the tree, left to right.
pub open spec fn leaves(b: BVH) -> Seq<Sphere>
    decreases b,
{
    match b.node {
        BVHNode::Leaf(s) => seq![s],
        BVHNode::Branch(l, r) => leaves(*l) + leaves(*r),
    }
}

/// Mirror of `BVH::hit`, at the level of the accepted parameter.
pub open spec fn spec_bvh_hit(b: BVH, r: Ray, t0: int, t1: int) -> Option<int>
    decreases b,
{
    if !slab_hit(b.bbox, r, t0, t1) {
        None
    } else {
        match b.node {
            BVHNode::Leaf(s) => spec_sphere_hit_t(s, r, t0, t1),
            BVHNode::Branch(l, rt) => match spec_bvh_hit(*l, r, t0, t1) {
                Some(t) => match spec_bvh_hit(*rt, r, t0, t) {
                    Some(t2) => Some(t2),
                    None => Some(t),
                },
                None => spec_bvh_hit(*rt, r, t0, t1),
            },
        }
    }
}

/// Mirror of `BVH::hit` at the record level.
pub open spec fn spec_bvh_hit_rec(b: BVH, r: Ray, t0: int, t1: int) -> Option<HitRecord>
    decreases b,
{
    if !slab_hit(b.bbox, r, t0, t1) {
        None
    } else {
        match b.node {
            BVHNode::Leaf(s) => crate::shape::spec_sphere_hit_rec(s, r, t0, t1),
            BVHNode::Branch(l, rt) => match spec_bvh_hit_rec(*l, r, t0, t1) {
                Some(h) => match spec_bvh_hit_rec(*rt, r, t0, h.t as int) {
                    Some(h2) => Some(h2),
                    None => Some(h),
                },
                None => spec_bvh_hit_rec(*rt, r, t0, t1),
            },
        }
    }
}

/// Mirror of a linear scan with a shrinking upper bound: each sphere is
/// queried over `(t0, best so far)`, in order.
pub open spec fn spec_scan_hit(shapes: Seq<Sphere>, r: Ray, t0: int, t1: int) -> Option<int>
    decreases shapes.len(),
{
    if shapes.len() == 0 {
        None
    } else {
        match spec_sphere_hit_t(shapes[0], r, t0, t1) {
            Some(t) => match spec_scan_hit(shapes.skip(1), r, t0, t) {
                Some(t2) => Some(t2),
                None => Some(t),
            },
            None => spec_scan_hit(shapes.skip(1), r, t0, t1),
        }
    }
}

/// What a scan result means: `None` when no sphere has a qualifying root in
/// the open interval, and otherwise the least such root.
pub open spec fn scan_min_ok(shapes: Seq<Sphere>, r: Ray, t0: int, t1: int, res: Option<int>) -> bool {
    match res {
        None => forall|i: int, t: int|
            0 <= i < shapes.len() && #[trigger] sph_qual(shapes[i], r, t) ==> !(t0 < t < t1),
        Some(tb) => (exists|i: int|
            0 <= i < shapes.len() && #[trigger] sph_qual(shapes[i], r, tb) && t0 < tb < t1)
            && (forall|i: int, t: int|
                0 <= i < shapes.len() && #[trigger] sph_qual(shapes[i], r, t) && t0 < t < t1
                    ==> tb <= t),
    }
}

/// The scan computes the least qualifying root in the interval.
pub proof fn lemma_scan_min(shapes: Seq<Sphere>, r: Ray, t0: int, t1: int)
    ensures
        scan_min_ok(shapes, r, t0, t1, spec_scan_hit(shapes, r, t0, t1)),
    decreases shapes.len(),
{
    if shapes.len() == 0 {
    } else {
        let s0 = shapes[0];
        let rest = shapes.skip(1);
        assert(forall|j: int| 0 <= j < rest.len() ==> #[trigger] rest[j] == shapes[j + 1]);
        lemma_sphere_hit_char(s0, r, t0, t1);
        match spec_sphere_hit_t(s0, r, t0, t1) {
            Some(t) => {
                lemma_scan_min(rest, r, t0, t);
                match spec_scan_hit(rest, r, t0, t) {
                    Some(t2) => {
                        assert(spec_scan_hit(shapes, r, t0, t1) == Some(t2));
                        let wi = choose|i: int|
                            0 <= i < rest.len() && #[trigger] sph_qual(rest[i], r, t2) && t0 < t2 < t;
                        assert(sph_qual(shapes[wi + 1], r, t2) && t0 < t2 < t1);
                        assert forall|i: int, u: int|
                            0 <= i < shapes.len() && #[trigger] sph_qual(shapes[i], r, u) && t0 < u < t1
                            implies t2 <= u by {
                            if i == 0 {
                                assert(t <= u);
                            } else {
                                assert(sph_qual(rest[i - 1], r, u));
                                if u < t {
                                    assert(t2 <= u);
                                }
                            }
                        }
                    },
                    None => {
                        assert(spec_scan_hit(shapes, r, t0, t1) == Some(t));
                        assert(sph_qual(shapes[0], r, t) && t0 < t < t1);
                        assert forall|i: int, u: int|
                            0 <= i < shapes.len() && #[trigger] sph_qual(shapes[i], r, u) && t0 < u < t1
                            implies t <= u by {
                            if i == 0 {
                            } else {
                                assert(sph_qual(rest[i - 1], r, u));
                                if u < t {
                                    assert(!(t0 < u < t));
                                    assert(false);
                                }
                            }
                        }
                    },
                }
            },
            None => {
                lemma_scan_min(rest, r, t0, t1);
                assert(spec_scan_hit(shapes, r, t0, t1) == spec_scan_hit(rest, r, t0, t1));
                match spec_scan_hit(rest, r, t0, t1) {
                    Some(tb) => {
                        let wi = choose|i: int|
                            0 <= i < rest.len() && #[trigger] sph_qual(rest[i], r, tb) && t0 < tb < t1;
                        assert(sph_qual(shapes[wi + 1], r, tb));
                        assert forall|i: int, u: int|
                            0 <= i < shapes.len() && #[trigger] sph_qual(shapes[i], r, u) && t0 < u < t1
                            implies tb <= u by {
                            if i == 0 {
                                assert(!(t0 < u < t1));
                                assert(false);
                            } else {
                                assert(sph_qual(rest[i - 1], r, u));
                            }
                        }
                    },
                    None => {
                        assert forall|i: int, u: int|
                            0 <= i < shapes.len() && #[trigger] sph_qual(shapes[i], r, u)
                            implies !(t0 < u < t1) by {
                            if i == 0 {
                            } else {
                                assert(sph_qual(rest[i - 1], r, u));
                            }
                        }
                    },
                }
            },
        }
    }
}

/// Two sequences with the same spheres (as a multiset) scan to the same
/// parameter: the least qualifying root does not depend on the order.
pub proof fn lemma_scan_permutation(a: Seq<Sphere>, b: Seq<Sphere>, r: Ray, t0: int, t1: int)
    requires
        a.to_multiset() == b.to_multiset(),
    ensures
        spec_scan_hit(a, r, t0, t1) == spec_scan_hit(b, r, t0, t1),
{
    lemma_scan_min(a, r, t0, t1);
    lemma_scan_min(b, r, t0, t1);
    let ra = spec_scan_hit(a, r, t0, t1);
    let rb = spec_scan_hit(b, r, t0, t1);
    if ra is Some && rb is None {
        let ta = ra->0;
        let wi = choose|i: int| 0 <= i < a.len() && #[trigger] sph_qual(a[i], r, ta) && t0 < ta < t1;
        assert(b.contains(a[wi])) by {
            assert(a.to_multiset().count(a[wi]) > 0);
        };
        let j = choose|j: int| 0 <= j < b.len() && b[j] == a[wi];
        assert(sph_qual(b[j], r, ta));
        assert(false);
    }
    if rb is Some && ra is None {
        let tb = rb->0;
        let wi = choose|i: int| 0 <= i < b.len() && #[trigger] sph_qual(b[i], r, tb) && t0 < tb < t1;
        assert(a.contains(b[wi])) by {
            assert(b.to_multiset().count(b[wi]) > 0);
        };
        let j = choose|j: int| 0 <= j < a.len() && a[j] == b[wi];
        assert(sph_qual(a[j], r, tb));
        assert(false);
    }
    if ra is Some && rb is Some {
        let ta = ra->0;
        let tb = rb->0;
        let wa = choose|i: int| 0 <= i < a.len() && #[trigger] sph_qual(a[i], r, ta) && t0 < ta < t1;
        assert(b.contains(a[wa])) by {
            assert(a.to_multiset().count(a[wa]) > 0);
        };
        let ja = choose|j: int| 0 <= j < b.len() && b[j] == a[wa];
        assert(sph_qual(b[ja], r, ta));
        assert(tb <= ta);
        let wb = choose|i: int| 0 <= i < b.len() && #[trigger] sph_qual(b[i], r, tb) && t0 < tb < t1;
        assert(a.contains(b[wb])) by {
            assert(b.to_multiset().count(b[wb]) > 0);
        };
        let jb = choose|j: int| 0 <= j < a.len() && a[j] == b[wb];
        assert(sph_qual(a[jb], r, tb));
        assert(ta <= tb);
    }
}

/// Scanning a concatenation is scanning the first part, then the second
/// over the interval shrunk to the first part's best hit.
pub proof fn lemma_scan_append(a: Seq<Sphere>, b: Seq<Sphere>, r: Ray, t0: int, t1: int)
    ensures
        spec_scan_hit(a + b, r, t0, t1) == match spec_scan_hit(a, r, t0, t1) {
            Some(t) => match spec_scan_hit(b, r, t0, t) {
                Some(t2) => Some(t2),
                None => Some(t),
            },
            None => spec_scan_hit(b, r, t0, t1),
        },
    decreases a.len(),
{
    if a.len() == 0 {
        assert(a + b =~= b);
    } else {
        assert((a + b).len() > 0);
        assert((a + b)[0] == a[0]);
        assert((a + b).skip(1) =~= a.skip(1) + b);
        match spec_sphere_hit_t(a[0], r, t0, t1) {
            Some(t) => {
                lemma_scan_append(a.skip(1), b, r, t0, t);
            },
            None => {
                lemma_scan_append(a.skip(1), b, r, t0, t1);
            },
        }
    }
}

/// Every leaf of a well-formed tree is a well-formed sphere whose padded
/// box the node's box contains.
pub proof fn lemma_leaf_boxes(b: BVH)
    requires
        bvh_wf(b),
    ensures
        forall|i: int| 0 <= i < leaves(b).len() ==> sphere_wf(#[trigger] leaves(b)[i])
            && contains(b.bbox, spec_sphere_box(leaves(b)[i])),
    decreases b,
{
    match b.node {
        BVHNode::Leaf(s) => {
            assert(leaves(b) =~= seq![s]);
        },
        BVHNode::Branch(l, rt) => {
            lemma_leaf_boxes(*l);
            lemma_leaf_boxes(*rt);
            lemma_union_contains(l.bbox, rt.bbox);
            assert forall|i: int| 0 <= i < leaves(b).len() implies sphere_wf(#[trigger] leaves(b)[i])
                && contains(b.bbox, spec_sphere_box(leaves(b)[i])) by {
                if i < leaves(*l).len() {
                    assert(leaves(b)[i] == leaves(*l)[i]);
                } else {
                    assert(leaves(b)[i] == leaves(*rt)[i - leaves(*l).len()]);
                }
            }
        },
    }
}

/// Traversal agrees with a scan of the tree's own leaf order.
pub proof fn lemma_bvh_scan(b: BVH, r: Ray, t0: int, t1: int)
    requires
        bvh_wf(b),
        vec_ok(r.origin),
        vec_ok(r.direction),
        -FX_BOUND <= t0,
        t1 <= FX_BOUND,
    ensures
        spec_bvh_hit(b, r, t0, t1) == spec_scan_hit(leaves(b), r, t0, t1),
    decreases b,
{
    if !slab_hit(b.bbox, r, t0, t1) {
        // Pruning: any qualifying root of any leaf would hit this box.
        lemma_leaf_boxes(b);
        lemma_scan_min(leaves(b), r, t0, t1);
        if spec_scan_hit(leaves(b), r, t0, t1) is Some {
            let tb = spec_scan_hit(leaves(b), r, t0, t1)->0;
            let wi = choose|i: int|
                0 <= i < leaves(b).len() && #[trigger] sph_qual(leaves(b)[i], r, tb) && t0 < tb < t1;
            lemma_sphere_hit_in_slab(leaves(b)[wi], r, t0, t1, tb);
            lemma_slab_contains(b.bbox, spec_sphere_box(leaves(b)[wi]), r, t0, t1);
            assert(false);
        }
    } else {
        match b.node {
            BVHNode::Leaf(s) => {
                assert(leaves(b) =~= seq![s]);
                assert(leaves(b)[0] == s);
                assert(leaves(b).skip(1).len() == 0);
                match spec_sphere_hit_t(s, r, t0, t1) {
                    Some(t) => {
                        assert(spec_scan_hit(leaves(b).skip(1), r, t0, t) == None::<int>);
                        assert(spec_scan_hit(leaves(b), r, t0, t1) == Some(t));
                    },
                    None => {
                        assert(spec_scan_hit(leaves(b).skip(1), r, t0, t1) == None::<int>);
                        assert(spec_scan_hit(leaves(b), r, t0, t1) == None::<int>);
                    },
                }
            },
            BVHNode::Branch(l, rt) => {
                lemma_bvh_scan(*l, r, t0, t1);
                match spec_bvh_hit(*l, r, t0, t1) {
                    Some(t) => {
                        // The left hit lies inside (t0, t1), so the shrunk
                        // interval stays inside the world bound.
                        lemma_scan_min(leaves(*l), r, t0, t1);
                        lemma_bvh_scan(*rt, r, t0, t);
                    },
                    None => {
                        lemma_bvh_scan(*rt, r, t0, t1);
                    },
                }
                lemma_scan_append(leaves(*l), leaves(*rt), r, t0, t1);
            },
        }
    }
}

/// The central correctness property of the hierarchy: over any interval,
/// traversal returns a hit exactly when a naive linear scan over the same
/// collection of spheres does, and at the same nearest parameter.
pub proof fn lemma_bvh_matches_scan(b: BVH, shapes: Seq<Sphere>, r: Ray, t0: int, t1: int)
    requires
        bvh_wf(b),
        leaves(b).to_multiset() == shapes.to_multiset(),
        vec_ok(r.origin),
        vec_ok(r.direction),
        -FX_BOUND <= t0,
        t1 <= FX_BOUND,
    ensures
        spec_bvh_hit(b, r, t0, t1) == spec_scan_hit(shapes, r, t0, t1),
{
    lemma_bvh_scan(b, r, t0, t1);
    lemma_scan_permutation(leaves(b), shapes, r, t0, t1);
}


/// Spheres carried over to a sequence with the same multiset stay well-formed.
proof fn lemma_wf_all(a: Seq<Sphere>, b: Seq<Sphere>)
    requires
        a.to_multiset() == b.to_multiset(),
        forall|i: int| 0 <= i < a.len() ==> sphere_wf(#[trigger] a[i]),
    ensures
        forall|i: int| 0 <= i < b.len() ==> sphere_wf(#[trigger] b[i]),
{
    assert forall|i: int| 0 <= i < b.len() implies sphere_wf(#[trigger] b[i]) by {
        assert(b.contains(b[i]));
        assert(b.to_multiset().count(b[i]) > 0);
        assert(a.contains(b[i]));
        let j = choose|j: int| 0 <= j < a.len() && a[j] == b[i];
        assert(sphere_wf(a[j]));
    }
}

/// The sphere's sort key along an axis: its center coordinate.
fn axis_key(s: &Sphere, axis: u8) -> (r: i64) {
    if axis == 0 {
        s.center.x
    } else if axis == 1 {
        s.center.y
    } else {
        s.center.z
    }
}

/// The axis along which the sphere centers spread the most; a balance
/// heuristic only, so nothing further is claimed of it.
fn pick_axis(v: &Vec<Sphere>) -> (r: u8)
    requires
        v@.len() >= 1,
    ensures
        r <= 2,
{
    let mut mnx: i64 = v[0].center.x;
    let mut mxx: i64 = v[0].center.x;
    let mut mny: i64 = v[0].center.y;
    let mut mxy: i64 = v[0].center.y;
    let mut mnz: i64 = v[0].center.z;
    let mut mxz: i64 = v[0].center.z;
    let mut i: usize = 1;
    while i < v.len()
        invariant
            1 <= i <= v@.len(),
        decreases v@.len() - i,
    {
        let c = v[i].center;
        if c.x < mnx { mnx = c.x; }
        if c.x > mxx { mxx = c.x; }
        if c.y < mny { mny = c.y; }
        if c.y > mxy { mxy = c.y; }
        if c.z < mnz { mnz = c.z; }
        if c.z > mxz { mxz = c.z; }
        i = i + 1;
    }
    let ex: i128 = (mxx as i128) - (mnx as i128);
    let ey: i128 = (mxy as i128) - (mny as i128);
    let ez: i128 = (mxz as i128) - (mnz as i128);
    if ex >= ey && ex >= ez {
        0
    } else if ey >= ez {
        1
    } else {
        2
    }
}

/// Selection sort by center coordinate along the chosen axis.  The order is
/// a balance heuristic; the contract pins the contents down as a multiset.
fn sort_spheres(v: Vec<Sphere>, axis: u8) -> (r: Vec<Sphere>)
    ensures
        r@.to_multiset() == v@.to_multiset(),
        r@.len() == v@.len(),
{
    let mut src = v;
    let mut out: Vec<Sphere> = Vec::new();
    proof {
        assert_multisets_equal!(out@.to_multiset().add(src@.to_multiset()), src@.to_multiset());
    }
    let ghost ms0 = src@.to_multiset();
    while src.len() > 0
        invariant
            out@.to_multiset().add(src@.to_multiset()) == ms0,
            out@.len() + src@.len() == ms0.len(),
        decreases src.len(),
    {
        let mut m: usize = 0;
        let mut j: usize = 1;
        while j < src.len()
            invariant
                src@.len() >= 1,
                m < src@.len(),
                1 <= j <= src@.len(),
            decreases src@.len() - j,
        {
            if axis_key(&src[j], axis) < axis_key(&src[m], axis) {
                m = j;
            }
            j = j + 1;
        }
        let ghost src_before = src@;
        let s = src.remove(m);
        out.push(s);
        proof {
            assert(src@ == src_before.remove(m as int));
            assert(src_before.to_multiset().count(s) > 0) by {
                assert(src_before[m as int] == s);
                assert(src_before.contains(s));
            };
            assert_multisets_equal!(
                out@.to_multiset().add(src@.to_multiset()),
                ms0
            );
        }
    }
    proof {
        assert(src@.len() == 0);
        assert(src@.to_multiset().len() == 0);
        assert_multisets_equal!(out@.to_multiset(), ms0);
    }
    out
}

impl BVH {
    /// Build the hierarchy: sort by the widest axis, split at the midpoint
    /// and recurse; a single sphere becomes a leaf carrying its own box.
    /// The spheres in the tree are exactly the spheres given.
    pub fn new(shapes: Vec<Sphere>) -> (r: BVH)
        requires
            shapes@.len() >= 1,
            forall|i: int| 0 <= i < shapes@.len() ==> sphere_wf(#[trigger] shapes@[i]),
        ensures
            bvh_wf(r),
            leaves(r).to_multiset() == shapes@.to_multiset(),
            leaves(r).len() == shapes@.len(),
        decreases shapes@.len(),
    {
        let ghost ms0 = shapes@.to_multiset();
        let ghost shapes0 = shapes@;
        let axis = pick_axis(&shapes);
        let mut sorted = sort_spheres(shapes, axis);
        proof {
            lemma_wf_all(shapes0, sorted@);
        }
        let n = sorted.len();
        if n == 1 {
            let ghost sorted_seq = sorted@;
            let s = sorted.pop().unwrap();
            let bbox = s.bounding_box();
            proof {
                assert(sorted_seq =~= seq![s]);
                assert(leaves(BVH { node: BVHNode::Leaf(s), bbox }) =~= seq![s]);
            }
            BVH { node: BVHNode::Leaf(s), bbox }
        } else {
            let mid = n / 2;
            assert(1 <= mid < n) by {
                assert(n >= 2);
            };
            let mut rvec: Vec<Sphere> = Vec::new();
            proof {
                assert_multisets_equal!(sorted@.to_multiset().add(rvec@.to_multiset()),
                    sorted@.to_multiset());
            }
            let ghost msall = sorted@.to_multiset();
            while sorted.len() > mid
                invariant
                    mid >= 1,
                    sorted@.len() >= mid,
                    sorted@.to_multiset().add(rvec@.to_multiset()) == msall,
                    sorted@.len() + rvec@.len() == msall.len(),
                    forall|i: int| 0 <= i < sorted@.len() ==> sphere_wf(#[trigger] sorted@[i]),
                    forall|i: int| 0 <= i < rvec@.len() ==> sphere_wf(#[trigger] rvec@[i]),
                decreases sorted.len(),
            {
                let ghost before = sorted@;
                let s = sorted.pop().unwrap();
                rvec.push(s);
                proof {
                    assert(before =~= sorted@.push(s));
                    assert(sorted@.push(s).to_multiset() =~= sorted@.to_multiset().insert(s));
                    assert(before.to_multiset() =~= sorted@.to_multiset().insert(s));
                    assert_multisets_equal!(sorted@.to_multiset().add(rvec@.to_multiset()), msall);
                }
            }
            let ghost lseq = sorted@;
            let ghost rseq = rvec@;
            let left = BVH::new(sorted);
            let right = BVH::new(rvec);
            let bbox = surrounding_box(&left.bbox, &right.bbox);
            let res = BVH { node: BVHNode::Branch(Box::new(left), Box::new(right)), bbox };
            proof {
                let l = res.node->Branch_0;
                let rt = res.node->Branch_1;
                assert(leaves(res) == leaves(*l) + leaves(*rt));
                lemma_multiset_commutative(leaves(*l), leaves(*rt));
                assert_multisets_equal!(leaves(res).to_multiset(), ms0);
            }
            res
        }
    }

    /// Traverse: prune on the node box, delegate at a leaf, and query the
    /// right subtree with the upper bound shrunk to the left subtree's hit.
    pub fn hit(&self, ray: &Ray, t_min: i64, t_max: i64) -> (res: Option<HitRecord>)
        requires
            bvh_wf(*self),
            vec_ok(ray.origin),
            vec_ok(ray.direction),
            fx_ok(t_min),
            fx_ok(t_max),
        ensures
            res == spec_bvh_hit_rec(*self, *ray, t_min as int, t_max as int),
            res is Some <==> spec_bvh_hit(*self, *ray, t_min as int, t_max as int) is Some,
            res matches Some(h) ==> spec_bvh_hit(*self, *ray, t_min as int, t_max as int)
                == Some(h.t as int) && hit_wf(h) && t_min < h.t < t_max,
        decreases *self,
    {
        if !self.bbox.hit(ray, t_min, t_max) {
            return None;
        }
        match &self.node {
            BVHNode::Leaf(s) => s.hit(ray, t_min, t_max),
            BVHNode::Branch(l, rt) => {
                let left = l.hit(ray, t_min, t_max);
                match left {
                    Some(lh) => {
                        let right = rt.hit(ray, t_min, lh.t);
                        if right.is_some() {
                            right
                        } else {
                            Some(lh)
                        }
                    },
                    None => rt.hit(ray, t_min, t_max),
                }
            },
        }
    }

    /// The tree's own bounding box.
    pub fn bounding_box(&self) -> (r: AABB)
        ensures
            r == self.bbox,
    {
        self.bbox.clone()
    }
}

} // verus!
