//! What an intersection test reports, and the choice among the candidate
//! roots of a shape's equation.
//!
//! Every shape reduces its test to the real roots of a polynomial in the
//! ray parameter. A root counts only if it is strictly greater than
//! `MIN_T`; of those that count the smallest is the hit.

use crate::scalar::{zero, Scalar, Vector};
use vstd::prelude::*;

verus! {

/// The material of a point: where along the ray it lies, and the surface
/// normal there for the shapes that have one.
#[derive(Clone, Copy, Debug, PartialEq, Eq, Structural)]
pub struct Material {
    pub t: Scalar,
    pub normal: Option<Vector>,
}

/// Some root in `roots` is a valid ray parameter.
pub open spec fn has_valid_root(roots: Seq<Scalar>) -> bool {
    exists|i: int| 0 <= i < roots.len() && (#[trigger] roots[i]).is_valid_t()
}

/// `t` is one of `roots`, is a valid ray parameter, and no valid root is
/// smaller.
pub open spec fn is_smallest_valid_root(roots: Seq<Scalar>, t: Scalar) -> bool {
    &&& exists|i: int| 0 <= i < roots.len() && #[trigger] roots[i] == t
    &&& t.is_valid_t()
    &&& forall|i: int| 0 <= i < roots.len() && (#[trigger] roots[i]).is_valid_t() ==> t.le(roots[i])
}

/// What a root selection owes: the smallest valid root where there is one,
/// and nothing where there is none.
pub open spec fn selects(roots: Seq<Scalar>, r: Option<Scalar>) -> bool {
    match r {
        Some(t) => is_smallest_valid_root(roots, t),
        None => !has_valid_root(roots),
    }
}

/// `selects` leaves no choice: two selections from the same roots are the
/// same pattern.
pub proof fn lemma_selects_unique(roots: Seq<Scalar>, r1: Option<Scalar>, r2: Option<Scalar>)
    requires
        selects(roots, r1),
        selects(roots, r2),
    ensures
        r1 == r2,
{
    match (r1, r2) {
        (Some(a), Some(b)) => {
            let i = choose|i: int| 0 <= i < roots.len() && #[trigger] roots[i] == a;
            let j = choose|j: int| 0 <= j < roots.len() && #[trigger] roots[j] == b;
            assert(b.le(roots[i]));
            assert(a.le(roots[j]));
            crate::scalar::lemma_valid_t_rank(a);
            crate::scalar::lemma_valid_t_rank(b);
        },
        (Some(a), None) => {
            let i = choose|i: int| 0 <= i < roots.len() && #[trigger] roots[i] == a;
            assert(roots[i].is_valid_t());
        },
        (None, Some(b)) => {
            let j = choose|j: int| 0 <= j < roots.len() && #[trigger] roots[j] == b;
            assert(roots[j].is_valid_t());
        },
        (None, None) => {},
    }
}

/// A root that is not greater than `MIN_T` is never selected, whatever the
/// other roots are.
pub proof fn lemma_selected_exceeds_min_t(roots: Seq<Scalar>, t: Scalar)
    requires
        selects(roots, Some(t)),
    ensures
        crate::scalar::min_t().lt(t),
        !t.le(crate::scalar::min_t()),
{
}

/// Of one valid root and one that is not, the valid one is selected,
/// whichever comes first. So a ray that starts inside a closed surface,
/// with one root before it and one behind, is given the root before it:
/// the place where it leaves the surface.
pub proof fn lemma_one_valid_root(ahead: Scalar, behind: Scalar)
    requires
        ahead.is_valid_t(),
        !behind.is_valid_t(),
    ensures
        selects(seq![ahead, behind], Some(ahead)),
        selects(seq![behind, ahead], Some(ahead)),
{
    let a = seq![ahead, behind];
    let b = seq![behind, ahead];
    assert(a[0] == ahead && a[1] == behind);
    assert(b[1] == ahead && b[0] == behind);
}

/// The smaller of two roots that is a valid ray parameter.
pub fn min_g0(a: Scalar, b: Scalar) -> (r: Option<Scalar>)
    ensures
        selects(seq![a, b], r),
{
    let ghost roots = seq![a, b];
    assert(roots[0] == a && roots[1] == b);
    let a_valid = a.is_valid_t();
    let b_valid = b.is_valid_t();
    if !a_valid && !b_valid {
        None
    } else if !a_valid || (b_valid && b.le(a)) {
        proof {
            crate::scalar::lemma_valid_t_rank(b);
            if a_valid {
                crate::scalar::lemma_valid_t_rank(a);
            }
        }
        Some(b)
    } else {
        proof {
            crate::scalar::lemma_valid_t_rank(a);
            if b_valid {
                crate::scalar::lemma_valid_t_rank(b);
            }
        }
        Some(a)
    }
}

/// The hit of a ray on a quadric, from the leading coefficient `a` of its
/// equation `a*t^2 + b*t + c = 0`, the discriminant `b^2 - 4*a*c`, and the
/// two candidate roots `(-b + sqrt(discriminant)) / (2*a)` and
/// `(-b - sqrt(discriminant)) / (2*a)`.
///
/// There is no hit where the equation is degenerate (`a` is zero) or has no
/// real root (the discriminant is negative). Otherwise the hit is the
/// smaller valid root.
pub fn quadratic_root(a: Scalar, discriminant: Scalar, t1: Scalar, t2: Scalar) -> (r: Option<
    Scalar,
>)
    ensures
        a.is_zero() || discriminant.lt(zero()) ==> r is None,
        !(a.is_zero() || discriminant.lt(zero())) ==> selects(seq![t1, t2], r),
{
    if a.is_zero() || discriminant.lt(Scalar { bits: 0 }) {
        None
    } else {
        min_g0(t1, t2)
    }
}

/// The hit of a ray on a shape whose equation has the real roots `roots`,
/// in any order and number: the smallest valid one.
pub fn smallest_root(roots: &Vec<Scalar>) -> (r: Option<Scalar>)
    ensures
        selects(roots@, r),
{
    let mut best: Option<Scalar> = None;
    for k in 0..roots.len()
        invariant
            selects(roots@.take(k as int), best),
    {
        let ghost before = roots@.take(k as int);
        let ghost after = roots@.take(k + 1);
        let root = roots[k];
        assert(after[k as int] == root);
        assert(forall|i: int| 0 <= i < k ==> before[i] == after[i]);
        let better = match best {
            Some(t) => root.is_valid_t() && root.lt(t),
            None => root.is_valid_t(),
        };
        if better {
            proof {
                crate::scalar::lemma_valid_t_rank(root);
                if let Some(t) = best {
                    crate::scalar::lemma_valid_t_rank(t);
                    assert forall|i: int|
                        0 <= i < after.len() && (#[trigger] after[i]).is_valid_t() implies root.le(
                        after[i],
                    ) by {
                        if i < k {
                            assert(before[i].is_valid_t());
                            crate::scalar::lemma_valid_t_rank(before[i]);
                        }
                    }
                } else {
                    assert forall|i: int|
                        0 <= i < after.len() && (#[trigger] after[i]).is_valid_t() implies root.le(
                        after[i],
                    ) by {
                        if i < k {
                            assert(before[i].is_valid_t());
                        }
                    }
                }
            }
            best = Some(root);
        } else {
            proof {
                match best {
                    Some(t) => {
                        let i = choose|i: int| 0 <= i < before.len() && #[trigger] before[i] == t;
                        assert(after[i] == t);
                        crate::scalar::lemma_valid_t_rank(t);
                        assert forall|i: int|
                            0 <= i < after.len() && (#[trigger] after[i]).is_valid_t() implies t.le(
                            after[i],
                        ) by {
                            if i < k {
                                assert(before[i].is_valid_t());
                            } else {
                                crate::scalar::lemma_valid_t_rank(root);
                            }
                        }
                    },
                    None => {
                        assert forall|i: int| 0 <= i < after.len() implies !(
                        #[trigger] after[i]).is_valid_t() by {
                            if i < k {
                                assert(!before[i].is_valid_t());
                            }
                        }
                    },
                }
            }
        }
    }
    assert(roots@.take(roots.len() as int) == roots@);
    best
}

/// The hit of a ray on a plane, from the denominator `normal . direction`
/// and the candidate parameter
/// `-(normal . (ray origin - plane origin)) / denominator`.
///
/// A ray parallel to the plane (the denominator is zero) does not hit it,
/// and neither does one whose parameter is not valid.
pub fn plane_root(denominator: Scalar, t: Scalar) -> (r: Option<Scalar>)
    ensures
        r == if !denominator.is_zero() && t.is_valid_t() {
            Some(t)
        } else {
            None
        },
{
    if denominator.is_zero() {
        None
    } else if !t.is_valid_t() {
        None
    } else {
        Some(t)
    }
}

} // verus!
