//! The escape-time iteration, for any kind of point: the caller supplies the
//! step of the recurrence and the test for having left the escape radius.

use vstd::prelude::*;

verus! {

/// `orbit` is a run of the recurrence from `start`: its first point is one
/// that `step` may give for `start`, and each later point one that `step`
/// may give for the point before it.
pub open spec fn is_orbit<Z, S: Fn(Z) -> Z>(step: S, start: Z, orbit: Seq<Z>) -> bool {
    forall|k: int|
        0 <= k < orbit.len() ==> call_ensures(
            step,
            (if k == 0 {
                start
            } else {
                orbit[k - 1]
            },),
            #[trigger] orbit[k],
        )
}

/// None of the first `count` points of `orbit` has escaped.
pub open spec fn stays_bounded<Z, E: Fn(Z) -> bool>(escaped: E, orbit: Seq<Z>, count: int) -> bool {
    forall|k: int| 0 <= k < count ==> call_ensures(escaped, (#[trigger] orbit[k],), false)
}

/// `result` is the escape time of `orbit` within `limit` steps: `Some(i)`
/// where point `i` is the first that has escaped and the orbit ends there,
/// `None` where the orbit runs for all `limit` steps and no point has.
pub open spec fn is_escape_time<Z, E: Fn(Z) -> bool>(
    escaped: E,
    orbit: Seq<Z>,
    limit: u32,
    result: Option<u32>,
) -> bool {
    match result {
        Some(i) => {
            &&& i < limit
            &&& orbit.len() == i + 1
            &&& stays_bounded(escaped, orbit, i as int)
            &&& call_ensures(escaped, (orbit[i as int],), true)
        },
        None => {
            &&& orbit.len() == limit
            &&& stays_bounded(escaped, orbit, limit as int)
        },
    }
}

/// `start` is a point of rest that has not escaped: a step from it leads
/// back to it, and the test never finds it outside the radius.
pub open spec fn rests_at<Z, S: Fn(Z) -> Z, E: Fn(Z) -> bool>(step: S, escaped: E, start: Z) -> bool {
    &&& forall|next: Z| #[trigger] call_ensures(step, (start,), next) ==> next == start
    &&& !call_ensures(escaped, (start,), true)
}

/// An orbit from a point of rest never leaves it.
pub proof fn lemma_orbit_rests<Z, S: Fn(Z) -> Z, E: Fn(Z) -> bool>(
    step: S,
    escaped: E,
    start: Z,
    orbit: Seq<Z>,
    k: int,
)
    requires
        rests_at(step, escaped, start),
        is_orbit(step, start, orbit),
        0 <= k < orbit.len(),
    ensures
        orbit[k] == start,
    decreases k,
{
    if k > 0 {
        lemma_orbit_rests(step, escaped, start, orbit, k - 1);
    }
    assert(call_ensures(
        step,
        (if k == 0 {
            start
        } else {
            orbit[k - 1]
        },),
        orbit[k],
    ));
}

/// A point of rest that has not escaped is bounded, whatever the limit.
pub proof fn lemma_rest_is_bounded<Z, S: Fn(Z) -> Z, E: Fn(Z) -> bool>(
    step: S,
    escaped: E,
    start: Z,
    orbit: Seq<Z>,
    limit: u32,
    result: Option<u32>,
)
    requires
        rests_at(step, escaped, start),
        is_orbit(step, start, orbit),
        is_escape_time(escaped, orbit, limit, result),
    ensures
        result is None,
{
    if let Some(i) = result {
        lemma_orbit_rests(step, escaped, start, orbit, i as int);
    }
}

/// Runs the recurrence from `start` for at most `limit` steps and gives the
/// index of the first step after which the point has escaped, counted from
/// zero; `None` where it has not escaped within `limit` steps.
pub fn escape_time<Z: Copy, S: Fn(Z) -> Z, E: Fn(Z) -> bool>(
    start: Z,
    limit: u32,
    step: S,
    escaped: E,
) -> (result: Option<u32>)
    requires
        forall|z: Z| call_requires(step, (z,)),
        forall|z: Z| call_requires(escaped, (z,)),
    ensures
        limit == 0 ==> result is None,
        rests_at(step, escaped, start) ==> result is None,
        exists|orbit: Seq<Z>|
            is_orbit(step, start, orbit) && #[trigger] is_escape_time(
                escaped,
                orbit,
                limit,
                result,
            ),
{
    let mut z: Z = start;
    let mut i: u32 = 0;
    let ghost mut orbit: Seq<Z> = Seq::empty();
    while i < limit
        invariant
            i <= limit,
            orbit.len() == i,
            is_orbit(step, start, orbit),
            stays_bounded(escaped, orbit, i as int),
            z == if i == 0 {
                start
            } else {
                orbit[i - 1]
            },
            forall|z: Z| call_requires(step, (z,)),
            forall|z: Z| call_requires(escaped, (z,)),
        decreases limit - i,
    {
        let next: Z = step(z);
        proof {
            orbit = orbit.push(next);
        }
        if escaped(next) {
            proof {
                assert(is_escape_time(escaped, orbit, limit, Some(i)));
                if rests_at(step, escaped, start) {
                    lemma_rest_is_bounded(step, escaped, start, orbit, limit, Some(i));
                }
            }
            return Some(i);
        }
        z = next;
        i += 1;
    }
    proof {
        assert(is_escape_time(escaped, orbit, limit, None));
    }
    None
}

} // verus!
