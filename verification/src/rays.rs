//! The camera, the view plane, and the choice of the hit that a ray sees.

use crate::scalar::{Point, Scalar, INFINITY_BITS};
use crate::shapes::Material;
use vstd::prelude::*;

verus! {

/// A place on the view plane, as two exact fractions with one denominator:
/// `u / den` across and `v / den` up.
#[derive(Clone, Copy, Debug, PartialEq, Eq, Structural)]
pub struct Uv {
    pub u: i128,
    pub v: i128,
    pub den: i128,
}

/// What is common to all rays of a frame: where the camera stands and the
/// point it looks at. Forward, right and up follow from these two alone.
#[derive(Clone, Copy, Debug, PartialEq, Eq, Structural)]
pub struct CamDir {
    origin: Point,
    target: Point,
}

impl CamDir {
    /// Where the camera stands.
    pub closed spec fn spec_origin(&self) -> Point {
        self.origin
    }

    /// The point the camera looks at.
    pub closed spec fn spec_target(&self) -> Point {
        self.target
    }

    /// The camera does not stand on the point it looks at, so it has a view
    /// direction.
    pub open spec fn wf(&self) -> bool {
        !self.spec_origin().same(self.spec_target())
    }

    /// The camera after a move to `origin`: it looks at the same target
    /// from there, and stays where it is if `origin` is the target itself.
    pub closed spec fn moved(self, origin: Point) -> CamDir {
        if origin.same(self.target) {
            self
        } else {
            CamDir { origin, target: self.target }
        }
    }

    /// Where a moved camera stands and what it looks at.
    pub proof fn lemma_moved(self, origin: Point)
        ensures
            self.moved(origin).spec_target() == self.spec_target(),
            self.moved(origin).spec_origin() == if origin.same(self.spec_target()) {
                self.spec_origin()
            } else {
                origin
            },
            self.wf() ==> self.moved(origin).wf(),
    {
    }

    /// Returns the uv, which tells which way the ray through pixel `(x, y)`
    /// of a `w` by `h` image goes: `u = (x/w - 1/2) * (w/h)` and
    /// `v = -(y/h - 1/2)`, both over the denominator `2 * h`. The
    /// denominator is zero only for an image of no height.
    pub fn uv(x: usize, y: usize, w: usize, h: usize) -> (uv: Uv)
        ensures
            uv.u == 2 * x - w,
            uv.v == h - 2 * y,
            uv.den == 2 * h,
    {
        Uv { u: 2 * (x as i128) - (w as i128), v: (h as i128) - 2 * (y as i128), den: 2 * (h as i128) }
    }

    /// A camera at `origin` that looks at `target`. There is none where the
    /// two are the same place: it would have no view direction.
    pub fn new(origin: Point, target: Point) -> (r: Option<CamDir>)
        ensures
            r is None <==> origin.same(target),
            r matches Some(c) ==> c.wf() && c.spec_origin() == origin && c.spec_target() == target,
    {
        if origin.same(target) {
            None
        } else {
            Some(CamDir { origin, target })
        }
    }

    /// Where the camera stands.
    #[verifier::when_used_as_spec(spec_origin)]
    pub fn origin(&self) -> (p: Point)
        ensures
            p == self.spec_origin(),
    {
        self.origin
    }

    /// The point the camera looks at.
    #[verifier::when_used_as_spec(spec_target)]
    pub fn target(&self) -> (p: Point)
        ensures
            p == self.spec_target(),
    {
        self.target
    }

    /// Updates the camera to a new origin. The target stays. A move onto
    /// the target is not made: the camera stays where it is.
    pub fn update(&mut self, origin: Point)
        ensures
            old(self).wf() ==> final(self).wf(),
            final(self).target() == old(self).target(),
            final(self).origin() == if origin.same(old(self).target()) {
                old(self).origin()
            } else {
                origin
            },
            *final(self) == old(self).moved(origin),
    {
        if !origin.same(self.target) {
            self.origin = origin;
        }
    }
}

/// Moving the camera twice to the same origin leaves it where the first
/// move put it: the second move changes nothing.
pub proof fn lemma_update_idempotent(c: CamDir, origin: Point)
    ensures
        c.moved(origin).moved(origin) == c.moved(origin),
{
    c.lemma_moved(origin);
    c.moved(origin).lemma_moved(origin);
}

/// The center pixel of an image lies in the middle of the view plane:
/// exactly for even sizes, and within one part in `2 * h` otherwise.
pub proof fn lemma_center_uv(w: usize, h: usize)
    ensures
        -1 <= 2 * (w / 2) - w <= 0,
        0 <= h - 2 * (h / 2) <= 1,
        w % 2 == 0 ==> 2 * (w / 2) - w == 0,
        h % 2 == 0 ==> h - 2 * (h / 2) == 0,
{
}

/// How far along the ray the parameter `t` lies: its rank, and farther
/// than every number where it is no number.
pub open spec fn distance_of(t: Scalar) -> int {
    if t.is_nan() {
        INFINITY_BITS + 1
    } else {
        t.rank()
    }
}

/// How far along the ray a report lies.
pub open spec fn distance(m: Material) -> int {
    distance_of(m.t)
}

/// Every entry is a miss.
pub open spec fn all_miss(hits: Seq<Option<Material>>) -> bool {
    forall|j: int| 0 <= j < hits.len() ==> (#[trigger] hits[j]) is None
}

/// The ray parameter of `m` is at most that of every hit, as far as the
/// two are numbers.
pub open spec fn is_least(hits: Seq<Option<Material>>, m: Material) -> bool {
    forall|j: int|
        0 <= j < hits.len() && (#[trigger] hits[j]) is Some && m.t.comparable(hits[j]->0.t)
            ==> m.t.le(hits[j]->0.t)
}

/// Every hit has a valid ray parameter.
pub open spec fn all_valid(hits: Seq<Option<Material>>) -> bool {
    forall|j: int| 0 <= j < hits.len() && (#[trigger] hits[j]) is Some ==> hits[j]->0.t.is_valid_t()
}

/// Entry `i` is the closest hit: no hit lies nearer, and every hit before
/// it lies farther.
pub open spec fn is_closest(hits: Seq<Option<Material>>, i: int) -> bool {
    &&& 0 <= i < hits.len()
    &&& hits[i] is Some
    &&& forall|j: int|
        0 <= j < hits.len() && (#[trigger] hits[j]) is Some ==> distance(hits[i]->0) <= distance(
            hits[j]->0,
        )
    &&& forall|j: int|
        0 <= j < i && (#[trigger] hits[j]) is Some ==> distance(hits[i]->0) < distance(hits[j]->0)
}

/// What the closest-hit search owes: the closest hit where there is a hit,
/// and nothing where every entry is a miss.
pub open spec fn sees(hits: Seq<Option<Material>>, r: Option<Material>) -> bool {
    match r {
        Some(m) => exists|i: int| #[trigger] is_closest(hits, i) && hits[i] == Some(m),
        None => all_miss(hits),
    }
}

/// At most one entry is the closest hit.
pub proof fn lemma_closest_unique(hits: Seq<Option<Material>>, i: int, j: int)
    requires
        is_closest(hits, i),
        is_closest(hits, j),
    ensures
        i == j,
{
    if i < j {
        assert(distance(hits[j]->0) < distance(hits[i]->0));
        assert(distance(hits[i]->0) <= distance(hits[j]->0));
    } else if j < i {
        assert(distance(hits[i]->0) < distance(hits[j]->0));
        assert(distance(hits[j]->0) <= distance(hits[i]->0));
    }
}

/// `sees` leaves no choice.
pub proof fn lemma_sees_unique(
    hits: Seq<Option<Material>>,
    r1: Option<Material>,
    r2: Option<Material>,
)
    requires
        sees(hits, r1),
        sees(hits, r2),
    ensures
        r1 == r2,
{
    match (r1, r2) {
        (Some(a), Some(b)) => {
            let i = choose|i: int| #[trigger] is_closest(hits, i) && hits[i] == Some(a);
            let j = choose|j: int| #[trigger] is_closest(hits, j) && hits[j] == Some(b);
            lemma_closest_unique(hits, i, j);
        },
        (Some(a), None) => {
            let i = choose|i: int| #[trigger] is_closest(hits, i) && hits[i] == Some(a);
            assert(hits[i] is Some);
        },
        (None, Some(b)) => {
            let j = choose|j: int| #[trigger] is_closest(hits, j) && hits[j] == Some(b);
            assert(hits[j] is Some);
        },
        (None, None) => {},
    }
}

/// What `sees` means in numbers: the search finds nothing only where every
/// entry is a miss; what it finds is one of the entries, and its ray
/// parameter is at most that of every hit, as far as the two are numbers.
/// Where every hit has a valid ray parameter, so has the one found.
pub proof fn lemma_sees_least(hits: Seq<Option<Material>>, r: Option<Material>)
    requires
        sees(hits, r),
    ensures
        r is None <==> all_miss(hits),
        r matches Some(m) ==> exists|i: int| 0 <= i < hits.len() && #[trigger] hits[i] == r,
        r is Some ==> is_least(hits, r->0),
        all_valid(hits) && r is Some ==> r->0.t.is_valid_t(),
{
    if let Some(m) = r {
        let i = choose|i: int| #[trigger] is_closest(hits, i) && hits[i] == Some(m);
        assert(hits[i] == r);
        assert(hits[i] is Some);
    }
}

/// Whether a report at `new` lies nearer than one at `old`.
fn nearer(new: Scalar, old: Scalar) -> (r: bool)
    ensures
        r == (distance_of(new) < distance_of(old)),
{
    !new.is_nan() && (old.is_nan() || new.lt(old))
}

/// Of what the shapes of a scene report for one ray, in the order of the
/// scene, the hit closest to the ray's origin: misses are passed over, and
/// of the hits the one with the least ray parameter is taken, the first of
/// them where several lie at the same distance. A ray parameter that is no
/// number counts as farther than every number.
pub fn closest_material(materials: &Vec<Option<Material>>) -> (r: Option<Material>)
    ensures
        sees(materials@, r),
        r is None <==> all_miss(materials@),
        r is Some ==> is_least(materials@, r->0),
        all_valid(materials@) && r is Some ==> r->0.t.is_valid_t(),
{
    let mut best: Option<Material> = None;
    let ghost mut at: int = 0;
    for k in 0..materials.len()
        invariant
            best is None ==> all_miss(materials@.take(k as int)),
            best matches Some(m) ==> is_closest(materials@.take(k as int), at) && materials[at]
                == Some(m),
    {
        let ghost before = materials@.take(k as int);
        let ghost after = materials@.take(k + 1);
        assert(forall|i: int| 0 <= i < k ==> before[i] == after[i]);
        assert(after[k as int] == materials[k as int]);
        let closer = match (&materials[k], &best) {
            (Some(new), Some(old)) => nearer(new.t, old.t),
            (Some(_), None) => true,
            (None, _) => false,
        };
        if closer {
            proof {
                let new = materials[k as int]->0;
                assert forall|j: int| 0 <= j < k && (#[trigger] after[j]) is Some implies distance(
                    new,
                ) < distance(after[j]->0) by {
                    assert(before[j] is Some);
                }
                at = k as int;
            }
            best = materials[k];
        } else {
            proof {
                match best {
                    Some(old) => {
                        assert forall|j: int|
                            0 <= j < after.len() && (#[trigger] after[j]) is Some implies distance(
                            old,
                        ) <= distance(after[j]->0) by {
                            if j < k {
                                assert(before[j] is Some);
                            }
                        }
                        assert forall|j: int|
                            0 <= j < at && (#[trigger] after[j]) is Some implies distance(old)
                            < distance(after[j]->0) by {
                            assert(before[j] is Some);
                        }
                    },
                    None => {
                        assert forall|j: int| 0 <= j < after.len() implies (
                        #[trigger] after[j]) is None by {
                            if j < k {
                                assert(before[j] is None);
                            }
                        }
                    },
                }
            }
        }
    }
    assert(materials@.take(materials.len() as int) == materials@);
    proof {
        lemma_sees_least(materials@, best);
    }
    best
}

/// Whether a light is hidden from a point: the shadow ray from the point
/// toward the light meets `blocker` before it has gone `light_distance`.
pub fn in_shadow(blocker: &Option<Material>, light_distance: Scalar) -> (r: bool)
    ensures
        r == (blocker matches Some(m) && m.t.lt(light_distance)),
{
    match blocker {
        Some(m) => m.t.lt(light_distance),
        None => false,
    }
}

} // verus!
