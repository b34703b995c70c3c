//! The scene: a flat list of hittables — primitives or whole hierarchies —
//! scanned in order with a shrinking upper bound, so a later object only
//! wins a strictly nearer hit.

use vstd::prelude::*;
use crate::num::{fx_ok, FX_BOUND};
use crate::vec3::vec_ok;
use crate::ray::Ray;
use crate::shape::{Sphere, HitRecord, sphere_wf, spec_sphere_hit_rec, spec_sphere_hit_t, hit_wf};
use crate::bvh::{BVH, bvh_wf, spec_bvh_hit, spec_bvh_hit_rec, spec_scan_hit, lemma_bvh_matches_scan};

verus! {

pub enum Hittable {
    Sphere(Sphere),
    Tree(BVH),
}

pub open spec fn hittable_wf(h: Hittable) -> bool {
    match h {
        Hittable::Sphere(s) => sphere_wf(s),
        Hittable::Tree(b) => bvh_wf(b),
    }
}

/// Mirror of `Hittable::hit`.
pub open spec fn spec_hittable_hit(h: Hittable, r: Ray, t0: int, t1: int) -> Option<HitRecord> {
    match h {
        Hittable::Sphere(s) => spec_sphere_hit_rec(s, r, t0, t1),
        Hittable::Tree(b) => spec_bvh_hit_rec(b, r, t0, t1),
    }
}

impl Hittable {
    pub fn hit(&self, ray: &Ray, t_min: i64, t_max: i64) -> (res: Option<HitRecord>)
        requires
            hittable_wf(*self),
            vec_ok(ray.origin),
            vec_ok(ray.direction),
            fx_ok(t_min),
            fx_ok(t_max),
        ensures
            res == spec_hittable_hit(*self, *ray, t_min as int, t_max as int),
            res matches Some(h) ==> hit_wf(h) && t_min < h.t < t_max,
    {
        match self {
            Hittable::Sphere(s) => s.hit(ray, t_min, t_max),
            Hittable::Tree(b) => b.hit(ray, t_min, t_max),
        }
    }
}

pub struct ShapeList {
    pub objects: Vec<Hittable>,
}

pub open spec fn list_wf(l: ShapeList) -> bool {
    forall|i: int| 0 <= i < l.objects@.len() ==> hittable_wf(#[trigger] l.objects@[i])
}

/// Mirror of `ShapeList::hit`: scan left to right, shrinking the upper
/// bound to the best hit so far; a later object wins only a strictly
/// nearer hit.
pub open spec fn spec_list_hit(objs: Seq<Hittable>, r: Ray, t0: int, t1: int) -> Option<HitRecord>
    decreases objs.len(),
{
    if objs.len() == 0 {
        None
    } else {
        match spec_hittable_hit(objs[0], r, t0, t1) {
            Some(h) => match spec_list_hit(objs.skip(1), r, t0, h.t as int) {
                Some(h2) => Some(h2),
                None => Some(h),
            },
            None => spec_list_hit(objs.skip(1), r, t0, t1),
        }
    }
}

impl ShapeList {
    pub fn new() -> (r: ShapeList)
        ensures
            r.objects@.len() == 0,
    {
        ShapeList { objects: Vec::new() }
    }

    pub fn push(&mut self, h: Hittable)
        ensures
            final(self).objects@ == old(self).objects@.push(h),
    {
        self.objects.push(h);
    }

    /// The nearest hit over all objects, in `(t_min, t_max)`.
    pub fn hit(&self, ray: &Ray, t_min: i64, t_max: i64) -> (res: Option<HitRecord>)
        requires
            list_wf(*self),
            vec_ok(ray.origin),
            vec_ok(ray.direction),
            fx_ok(t_min),
            fx_ok(t_max),
        ensures
            res == spec_list_hit(self.objects@, *ray, t_min as int, t_max as int),
            res matches Some(h) ==> hit_wf(h) && t_min < h.t < t_max,
    {
        let objs = &self.objects;
        let ghost full = objs@;
        let mut best: Option<HitRecord> = None;
        let mut closest: i64 = t_max;
        let mut i: usize = 0;
        proof {
            assert(full.skip(0) =~= full);
        }
        while i < objs.len()
            invariant
                list_wf(*self),
                vec_ok(ray.origin),
                vec_ok(ray.direction),
                fx_ok(t_min),
                fx_ok(t_max),
                objs == &self.objects,
                full == objs@,
                0 <= i <= full.len(),
                fx_ok(closest),
                best matches Some(h) ==> hit_wf(h) && t_min < h.t < t_max && closest == h.t,
                best is None ==> closest == t_max,
                spec_list_hit(full, *ray, t_min as int, t_max as int)
                    == match spec_list_hit(full.skip(i as int), *ray, t_min as int, closest as int) {
                        Some(h2) => Some(h2),
                        None => best,
                    },
            decreases objs.len() - i,
        {
            let ghost pre = full.skip(i as int);
            proof {
                assert(pre[0] == full[i as int]);
                assert(pre.skip(1) =~= full.skip(i as int + 1));
            }
            let cur = objs[i].hit(ray, t_min, closest);
            match cur {
                Some(h) => {
                    closest = h.t;
                    best = Some(h);
                },
                None => {},
            }
            i = i + 1;
        }
        proof {
            assert(full.skip(i as int).len() == 0);
        }
        best
    }
}

/// The parameter a record-level result stands at.
pub open spec fn rec_t(r: Option<HitRecord>) -> Option<int> {
    match r {
        Some(h) => Some(h.t as int),
        None => None,
    }
}

/// The record-level traversal mirror projects onto the parameter-level one.
proof fn lemma_bvh_rec_projects(b: BVH, r: Ray, t0: int, t1: int)
    requires
        bvh_wf(b),
        -FX_BOUND <= t0,
        t1 <= FX_BOUND,
    ensures
        rec_t(spec_bvh_hit_rec(b, r, t0, t1)) == spec_bvh_hit(b, r, t0, t1),
        spec_bvh_hit_rec(b, r, t0, t1) matches Some(h) ==> t0 < h.t < t1,
    decreases b,
{
    if crate::aabb::slab_hit(b.bbox, r, t0, t1) {
        match b.node {
            crate::bvh::BVHNode::Leaf(_) => {},
            crate::bvh::BVHNode::Branch(l, rt) => {
                lemma_bvh_rec_projects(*l, r, t0, t1);
                match spec_bvh_hit_rec(*l, r, t0, t1) {
                    Some(h) => {
                        lemma_bvh_rec_projects(*rt, r, t0, h.t as int);
                    },
                    None => {
                        lemma_bvh_rec_projects(*rt, r, t0, t1);
                    },
                }
            },
        }
    }
}

/// A scene that holds one hierarchy built over some spheres finds a hit
/// exactly when the scene that lists those spheres directly does, and at
/// the same nearest parameter.  This is the exec-facing form of the
/// hierarchy's equivalence with the naive linear scan.
pub proof fn lemma_tree_scene_matches_sphere_scene(
    tree_objs: Seq<Hittable>, b: BVH, sphere_objs: Seq<Hittable>, spheres: Seq<Sphere>,
    r: Ray, t0: int, t1: int,
)
    requires
        tree_objs =~= seq![Hittable::Tree(b)],
        bvh_wf(b),
        crate::bvh::leaves(b).to_multiset() == spheres.to_multiset(),
        sphere_objs.len() == spheres.len(),
        forall|i: int| 0 <= i < spheres.len() ==> #[trigger] sphere_objs[i]
            == Hittable::Sphere(spheres[i]),
        vec_ok(r.origin),
        vec_ok(r.direction),
        -FX_BOUND <= t0,
        t1 <= FX_BOUND,
    ensures
        rec_t(spec_list_hit(tree_objs, r, t0, t1)) == rec_t(spec_list_hit(sphere_objs, r, t0, t1)),
{
    // The single-tree scene is exactly the traversal.
    assert(tree_objs[0] == Hittable::Tree(b));
    assert(tree_objs.skip(1).len() == 0);
    match spec_hittable_hit(tree_objs[0], r, t0, t1) {
        Some(h) => {
            assert(spec_list_hit(tree_objs.skip(1), r, t0, h.t as int) is None);
            assert(spec_list_hit(tree_objs, r, t0, t1) == Some(h));
        },
        None => {
            assert(spec_list_hit(tree_objs.skip(1), r, t0, t1) is None);
            assert(spec_list_hit(tree_objs, r, t0, t1) is None);
        },
    }
    lemma_bvh_rec_projects(b, r, t0, t1);
    lemma_bvh_matches_scan(b, spheres, r, t0, t1);
    lemma_sphere_list_projects(sphere_objs, spheres, r, t0, t1);
}

/// A scene of bare spheres projects onto the parameter-level scan.
proof fn lemma_sphere_list_projects(objs: Seq<Hittable>, spheres: Seq<Sphere>, r: Ray, t0: int, t1: int)
    requires
        objs.len() == spheres.len(),
        forall|i: int| 0 <= i < spheres.len() ==> #[trigger] objs[i] == Hittable::Sphere(spheres[i]),
        -0x8000_0000_0000_0000 <= t0,
        t1 < 0x8000_0000_0000_0000,
    ensures
        rec_t(spec_list_hit(objs, r, t0, t1)) == spec_scan_hit(spheres, r, t0, t1),
    decreases objs.len(),
{
    if objs.len() == 0 {
    } else {
        assert(objs[0] == Hittable::Sphere(spheres[0]));
        let orest = objs.skip(1);
        let srest = spheres.skip(1);
        assert(orest.len() == srest.len());
        assert(forall|i: int| 0 <= i < srest.len() ==> #[trigger] orest[i]
            == Hittable::Sphere(srest[i])) by {
            assert(forall|i: int| 0 <= i < srest.len() ==> #[trigger] orest[i] == objs[i + 1]
                && srest[i] == spheres[i + 1]);
        };
        match spec_sphere_hit_t(spheres[0], r, t0, t1) {
            Some(t) => {
                assert(t0 < t < t1);
                lemma_sphere_list_projects(orest, srest, r, t0, t);
            },
            None => {
                lemma_sphere_list_projects(orest, srest, r, t0, t1);
            },
        }
    }
}

} // verus!
