//! Toboggan trajectory: sliding down the tree map on a fixed slope and
//! counting the trees hit; the map repeats to the right.

use vstd::prelude::*;

verus! {

/// A toboggan slope: how far right and down each step moves.
#[derive(Debug, PartialEq, Eq, Structural, Clone, Copy)]
pub struct Slope {
    pub x: usize,
    pub y: usize,
}

/// True when the map has at least one row and every row has the width of
/// the first.
pub open spec fn map_ok(map: Seq<Seq<char>>) -> bool {
    &&& map.len() > 0
    &&& map[0].len() > 0
    &&& forall|i: int| 0 <= i < map.len() ==> (#[trigger] map[i]).len() == map[0].len()
}

/// The feature of the map at a point, wrapping in both directions.
pub open spec fn spec_feature_at(map: Seq<Seq<char>>, x: int, y: int) -> char {
    map[y % map.len() as int][x % map[0].len() as int]
}

/// How many of the first `k` steps land on a tree.  Step `k2` stands at
/// `(k2 * x, k2 * y)`; the starting point is never counted.
pub open spec fn hits_upto(map: Seq<Seq<char>>, slope: Slope, k: int) -> int
    decreases k,
{
    if k <= 0 {
        0
    } else {
        hits_upto(map, slope, k - 1) + if spec_feature_at(
            map,
            k * slope.x,
            k * slope.y,
        ) == '#' {
            1int
        } else {
            0int
        }
    }
}

/// The number of steps until the toboggan leaves the bottom of the map.
pub open spec fn step_count(map: Seq<Seq<char>>, slope: Slope) -> int {
    (map.len() - 1) as int / slope.y as int
}

/// The feature at a point; coordinates wrap around the map.
pub fn feature_at(map: &Vec<Vec<char>>, x: usize, y: usize) -> (r: char)
    requires
        map_ok(map.deep_view()),
    ensures
        r == spec_feature_at(map.deep_view(), x as int, y as int),
{
    let row_size = map[0].len();
    proof {
        assert(map.deep_view()[0] == map@[0]@);
    }
    let xx: usize = x % row_size;
    let yy: usize = y % map.len();
    proof {
        assert(map.deep_view()[yy as int] == map@[yy as int]@);
    }
    map[yy][xx]
}

/// Counts the trees hit on the way down: one step per `slope.y` rows,
/// wrapping to the left edge as the slope runs off the right.
pub fn calculate_trees_hit(map: &Vec<Vec<char>>, slope: &Slope) -> (r: usize)
    requires
        map_ok(map.deep_view()),
        slope.y >= 1,
        map.deep_view().len() * slope.x <= usize::MAX,
        map.deep_view().len() * slope.y <= usize::MAX,
    ensures
        r == hits_upto(map.deep_view(), *slope, step_count(map.deep_view(), *slope)),
{
    let ghost dv = map.deep_view();
    let mut tree_count: usize = 0;
    let mut x: usize = 0;
    let mut y: usize = 0;
    let ghost mut k: int = 0;
    let n = map.len();
    proof {
        assert(dv.len() == n);
    }
    while y < n
        invariant
            map_ok(dv),
            dv == map.deep_view(),
            dv.len() == n,
            slope.y >= 1,
            n * slope.x <= usize::MAX,
            n * slope.y <= usize::MAX,
            k >= 0,
            k <= n,
            x == k * slope.x,
            y == k * slope.y,
            y < n + slope.y,
            tree_count == hits_upto(dv, *slope, k - 1),
            tree_count <= k,
            k >= 1 ==> (k - 1) * slope.y < n,
        decreases n + slope.y - y,
    {
        proof {
            assert(k < n) by (nonlinear_arith)
                requires
                    k >= 0 && slope.y >= 1 && k * slope.y < n,
            ;
        }
        if y > 0 {
            let c = feature_at(map, x, y);
            if c == '#' {
                tree_count = tree_count + 1;
            }
        } else {
            proof {
                assert(k == 0) by (nonlinear_arith)
                    requires
                        k >= 0 && slope.y >= 1 && k * slope.y == 0,
                ;
            }
        }
        proof {
            assert((k + 1) * slope.x == k * slope.x + slope.x) by (nonlinear_arith);
            assert((k + 1) * slope.y == k * slope.y + slope.y) by (nonlinear_arith);
            assert((k + 1) * slope.x <= n * slope.x) by (nonlinear_arith)
                requires
                    k + 1 <= n && slope.x >= 0,
            ;
            assert((k + 1) * slope.y <= n * slope.y) by (nonlinear_arith)
                requires
                    k + 1 <= n && slope.y >= 0,
            ;
            k = k + 1;
        }
        x = x + slope.x;
        y = y + slope.y;
    }
    proof {
        assert(k == step_count(dv, *slope) + 1) by (nonlinear_arith)
            requires
                k >= 1 && slope.y >= 1 && (k - 1) * slope.y < dv.len() && k * slope.y >= dv.len()
                    && step_count(dv, *slope) == (dv.len() - 1) as int / slope.y as int,
        ;
    }
    tree_count
}

} // verus!
