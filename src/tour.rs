//! Routes from a visiting order produced by an external tour solver.
use vstd::prelude::*;

use crate::error::PlotError;
use crate::geometry::Point;

verus! {

/// The points of `candidates` in the visiting order `order`.
pub open spec fn tour_points(candidates: Seq<Point>, order: Seq<usize>) -> Seq<Point> {
    order.map_values(|i: usize| candidates[i as int])
}

/// Builds the route that visits `candidates` in the order `order` (indices
/// into `candidates`, repeats allowed); `InvalidInput` when an index is out
/// of range.
pub fn tour_route(candidates: &Vec<Point>, order: &Vec<usize>) -> (r: Result<Vec<Point>, PlotError>)
    ensures
        (forall|k: int| 0 <= k < order@.len() ==> #[trigger] order@[k] < candidates@.len()) <==> r is Ok,
        r matches Ok(route) ==> route@ == tour_points(candidates@, order@),
        r is Err ==> r == Err::<Vec<Point>, PlotError>(PlotError::InvalidInput),
{
    let mut route: Vec<Point> = Vec::new();
    let mut k: usize = 0;
    while k < order.len()
        invariant
            k <= order@.len(),
            forall|m: int| 0 <= m < k ==> #[trigger] order@[m] < candidates@.len(),
            route@ == tour_points(candidates@, order@.take(k as int)),
        decreases order@.len() - k,
    {
        let i = order[k];
        if i >= candidates.len() {
            return Err(PlotError::InvalidInput);
        }
        route.push(candidates[i]);
        proof {
            assert(tour_points(candidates@, order@.take(k as int + 1)) =~= tour_points(candidates@, order@.take(k as int)).push(candidates@[i as int]));
        }
        k += 1;
    }
    proof {
        assert(order@.take(order@.len() as int) =~= order@);
    }
    Ok(route)
}

} // verus!
