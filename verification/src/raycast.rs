//! Grid traversal: a ray leaves its starting cell and crosses one grid line
//! at a time, column-wise or row-wise, until it enters a wall, leaves the
//! map, or runs out of steps.

use vstd::prelude::*;
use crate::map::{GameMap, MapView, FLOOR_TILE};

verus! {

/// The most steps a single ray takes. A ray that would have to travel farther
/// than this to meet a wall is cut off and reported as a miss, which only
/// happens on maps whose outer boundary is not fully solid or whose diagonal
/// is longer than the limit.
pub const MAX_RAY_STEPS: usize = 100;

/// The axis along which a ray moves to its next cell.
#[derive(Clone, Copy, Debug, PartialEq, Eq, Structural)]
pub enum Axis {
    X,
    Y,
}

/// The direction in which a ray moves along one axis.
#[derive(Clone, Copy, Debug, PartialEq, Eq, Structural)]
pub enum Heading {
    Negative,
    Positive,
}

/// Which kind of grid line a ray crossed when it entered a wall: a vertical
/// one, after a step along x, or a horizontal one, after a step along y.
#[derive(Clone, Copy, Debug, PartialEq, Eq, Structural)]
pub enum Side {
    NorthSouth,
    EastWest,
}

/// The wall cell that stopped a ray.
#[derive(Clone, Copy, Debug, PartialEq, Eq, Structural)]
pub struct GridHit {
    pub cell_x: usize,
    pub cell_y: usize,
    pub wall_type: u8,
    pub side: Side,
}

impl Heading {
    /// The change of the cell index with one step: `-1` or `+1`.
    pub open spec fn delta(self) -> int {
        match self {
            Heading::Negative => -1,
            Heading::Positive => 1,
        }
    }

    /// Distance from a cell's low edge to the edge through which a ray with
    /// this heading enters it: `(1 - delta) / 2`.
    pub open spec fn entry_edge(self) -> int {
        (1 - self.delta()) / 2
    }

    /// The step as a number.
    pub fn step(self) -> (d: i64)
        ensures
            d == self.delta(),
    {
        match self {
            Heading::Negative => -1,
            Heading::Positive => 1,
        }
    }

    /// `0` for a ray that enters cells through their low edge, `1` for one
    /// that enters through their high edge.
    pub fn edge_offset(self) -> (o: i64)
        ensures
            o == self.entry_edge(),
            o == 0 || o == 1,
    {
        (1 - self.step()) / 2
    }
}

/// The side that a step along `axis` crosses.
pub open spec fn side_crossed(axis: Axis) -> Side {
    match axis {
        Axis::X => Side::NorthSouth,
        Axis::Y => Side::EastWest,
    }
}

/// The cell reached from `(x, y)` by one step along `axis`.
pub open spec fn next_cell(x: int, y: int, heading_x: Heading, heading_y: Heading, axis: Axis) -> (int, int) {
    match axis {
        Axis::X => (x + heading_x.delta(), y),
        Axis::Y => (x, y + heading_y.delta()),
    }
}

/// What becomes of a ray that starts in cell `(x, y)` and takes `steps` in
/// turn: the first cell it enters decides. Outside the map the ray is lost;
/// a wall stops it and is reported; open floor lets it go on. A ray that has
/// no step left has found nothing.
pub open spec fn ray_outcome(
    map: MapView,
    x: int,
    y: int,
    heading_x: Heading,
    heading_y: Heading,
    steps: Seq<Axis>,
) -> Option<GridHit>
    decreases steps.len(),
{
    if steps.len() == 0 {
        None
    } else {
        let (nx, ny) = next_cell(x, y, heading_x, heading_y, steps[0]);
        if !map.contains(nx, ny) {
            None
        } else if map.tile(nx, ny) != FLOOR_TILE {
            Some(
                GridHit {
                    cell_x: nx as usize,
                    cell_y: ny as usize,
                    wall_type: map.tile(nx, ny),
                    side: side_crossed(steps[0]),
                },
            )
        } else {
            ray_outcome(map, nx, ny, heading_x, heading_y, steps.drop_first())
        }
    }
}

/// The steps that a ray really takes: at most [`MAX_RAY_STEPS`] of those offered.
pub open spec fn capped(steps: Seq<Axis>) -> Seq<Axis> {
    if steps.len() <= MAX_RAY_STEPS {
        steps
    } else {
        steps.take(MAX_RAY_STEPS as int)
    }
}

/// The cell that lies `distance` steps along `axis` from `(x, y)`.
pub open spec fn cell_ahead(
    x: int,
    y: int,
    heading_x: Heading,
    heading_y: Heading,
    axis: Axis,
    distance: int,
) -> (int, int) {
    match axis {
        Axis::X => match heading_x {
            Heading::Negative => (x - distance, y),
            Heading::Positive => (x + distance, y),
        },
        Axis::Y => match heading_y {
            Heading::Negative => (x, y - distance),
            Heading::Positive => (x, y + distance),
        },
    }
}

/// The cell that a ray is in after the first `count` of its steps.
pub open spec fn cell_after(
    x: int,
    y: int,
    heading_x: Heading,
    heading_y: Heading,
    steps: Seq<Axis>,
    count: int,
) -> (int, int)
    decreases count,
{
    if count <= 0 {
        (x, y)
    } else {
        let (px, py) = cell_after(x, y, heading_x, heading_y, steps, count - 1);
        next_cell(px, py, heading_x, heading_y, steps[count - 1])
    }
}

/// After its first step a ray is where a ray would be that started in the
/// cell it has reached and took the remaining steps.
proof fn lemma_cell_after_first_step(
    x: int,
    y: int,
    heading_x: Heading,
    heading_y: Heading,
    steps: Seq<Axis>,
    count: int,
)
    requires
        1 <= count <= steps.len(),
    ensures
        cell_after(x, y, heading_x, heading_y, steps, count) == ({
            let (nx, ny) = next_cell(x, y, heading_x, heading_y, steps[0]);
            cell_after(nx, ny, heading_x, heading_y, steps.drop_first(), count - 1)
        }),
    decreases count,
{
    let (nx, ny) = next_cell(x, y, heading_x, heading_y, steps[0]);
    if count == 1 {
        assert(cell_after(x, y, heading_x, heading_y, steps, 0) == (x, y));
        assert(cell_after(nx, ny, heading_x, heading_y, steps.drop_first(), 0) == (nx, ny));
    } else {
        lemma_cell_after_first_step(x, y, heading_x, heading_y, steps, count - 1);
        assert(steps.drop_first()[count - 2] == steps[count - 1]);
    }
}

/// The first cell on a ray's way that is not open floor decides what
/// becomes of the ray: if the cells after steps 1 to `count - 1` are open
/// floor of the map and the cell after step `count` is not, then the ray
/// reports that cell where it is a wall of the map, with the side that step
/// `count` crossed, and nothing where the cell lies outside the map.
pub proof fn lemma_first_obstacle_decides(
    map: MapView,
    x: int,
    y: int,
    heading_x: Heading,
    heading_y: Heading,
    steps: Seq<Axis>,
    count: int,
)
    requires
        1 <= count <= steps.len(),
        forall|j: int|
            1 <= j < count ==> {
                let (cx, cy) = #[trigger] cell_after(x, y, heading_x, heading_y, steps, j);
                map.is_open(cx, cy)
            },
        ({
            let (cx, cy) = cell_after(x, y, heading_x, heading_y, steps, count);
            !map.is_open(cx, cy)
        }),
    ensures
        ray_outcome(map, x, y, heading_x, heading_y, steps) == ({
            let (cx, cy) = cell_after(x, y, heading_x, heading_y, steps, count);
            if map.contains(cx, cy) {
                Some(
                    GridHit {
                        cell_x: cx as usize,
                        cell_y: cy as usize,
                        wall_type: map.tile(cx, cy),
                        side: side_crossed(steps[count - 1]),
                    },
                )
            } else {
                None
            }
        }),
    decreases count,
{
    let (nx, ny) = next_cell(x, y, heading_x, heading_y, steps[0]);
    let rest = steps.drop_first();
    lemma_cell_after_first_step(x, y, heading_x, heading_y, steps, 1);
    assert(cell_after(nx, ny, heading_x, heading_y, rest, 0) == (nx, ny));
    if count > 1 {
        assert forall|j: int| 1 <= j < count - 1 implies {
            let (cx, cy) = #[trigger] cell_after(nx, ny, heading_x, heading_y, rest, j);
            map.is_open(cx, cy)
        } by {
            lemma_cell_after_first_step(x, y, heading_x, heading_y, steps, j + 1);
            let (cx, cy) = cell_after(x, y, heading_x, heading_y, steps, j + 1);
            assert(map.is_open(cx, cy));
        }
        lemma_cell_after_first_step(x, y, heading_x, heading_y, steps, count);
        assert(rest[count - 2] == steps[count - 1]);
        let (fx, fy) = cell_after(x, y, heading_x, heading_y, steps, 1);
        assert(map.is_open(fx, fy));
        lemma_first_obstacle_decides(map, nx, ny, heading_x, heading_y, rest, count - 1);
    }
}

/// A ray whose every step ends on open floor of the map meets nothing.
pub proof fn lemma_open_way_meets_nothing(
    map: MapView,
    x: int,
    y: int,
    heading_x: Heading,
    heading_y: Heading,
    steps: Seq<Axis>,
)
    requires
        forall|j: int|
            1 <= j <= steps.len() ==> {
                let (cx, cy) = #[trigger] cell_after(x, y, heading_x, heading_y, steps, j);
                map.is_open(cx, cy)
            },
    ensures
        ray_outcome(map, x, y, heading_x, heading_y, steps) is None,
    decreases steps.len(),
{
    if steps.len() > 0 {
        let (nx, ny) = next_cell(x, y, heading_x, heading_y, steps[0]);
        let rest = steps.drop_first();
        lemma_cell_after_first_step(x, y, heading_x, heading_y, steps, 1);
        assert(cell_after(nx, ny, heading_x, heading_y, rest, 0) == (nx, ny));
        let (fx, fy) = cell_after(x, y, heading_x, heading_y, steps, 1);
        assert(map.is_open(fx, fy));
        assert forall|j: int| 1 <= j <= rest.len() implies {
            let (cx, cy) = #[trigger] cell_after(nx, ny, heading_x, heading_y, rest, j);
            map.is_open(cx, cy)
        } by {
            lemma_cell_after_first_step(x, y, heading_x, heading_y, steps, j + 1);
            let (cx, cy) = cell_after(x, y, heading_x, heading_y, steps, j + 1);
            assert(map.is_open(cx, cy));
        }
        lemma_open_way_meets_nothing(map, nx, ny, heading_x, heading_y, rest);
    }
}

/// A ray stops only in a wall of the map, and reports the tile that is there.
pub proof fn lemma_hit_is_wall(
    map: MapView,
    x: int,
    y: int,
    heading_x: Heading,
    heading_y: Heading,
    steps: Seq<Axis>,
)
    requires
        map.width <= usize::MAX,
        map.height <= usize::MAX,
    ensures
        ray_outcome(map, x, y, heading_x, heading_y, steps) matches Some(hit) ==> {
            &&& map.contains(hit.cell_x as int, hit.cell_y as int)
            &&& hit.wall_type == map.tile(hit.cell_x as int, hit.cell_y as int)
            &&& hit.wall_type != FLOOR_TILE
        },
    decreases steps.len(),
{
    if steps.len() > 0 {
        let (nx, ny) = next_cell(x, y, heading_x, heading_y, steps[0]);
        if map.contains(nx, ny) && map.tile(nx, ny) == FLOOR_TILE {
            lemma_hit_is_wall(map, nx, ny, heading_x, heading_y, steps.drop_first());
        }
    }
}

/// A ray that keeps to one axis over open floor is stopped by the first wall
/// in its way: if the cells at distances 1 to `distance - 1` along `axis`
/// are open floor of the map, the cell at `distance` is a wall of the map,
/// and the first `distance` steps all go along `axis`, then the ray reports
/// that wall, with the side that `axis` crosses.
pub proof fn lemma_straight_ray(
    map: MapView,
    x: int,
    y: int,
    heading_x: Heading,
    heading_y: Heading,
    steps: Seq<Axis>,
    axis: Axis,
    distance: int,
)
    requires
        1 <= distance <= steps.len(),
        forall|i: int| 0 <= i < distance ==> steps[i] == axis,
        forall|d: int|
            1 <= d < distance ==> {
                let (cx, cy) = #[trigger] cell_ahead(x, y, heading_x, heading_y, axis, d);
                map.contains(cx, cy) && map.tile(cx, cy) == FLOOR_TILE
            },
        ({
            let (cx, cy) = cell_ahead(x, y, heading_x, heading_y, axis, distance);
            map.contains(cx, cy) && map.tile(cx, cy) != FLOOR_TILE
        }),
    ensures
        ray_outcome(map, x, y, heading_x, heading_y, steps) == ({
            let (cx, cy) = cell_ahead(x, y, heading_x, heading_y, axis, distance);
            Some(
                GridHit {
                    cell_x: cx as usize,
                    cell_y: cy as usize,
                    wall_type: map.tile(cx, cy),
                    side: side_crossed(axis),
                },
            )
        }),
    decreases distance,
{
    let (nx, ny) = next_cell(x, y, heading_x, heading_y, steps[0]);
    assert((nx, ny) == cell_ahead(x, y, heading_x, heading_y, axis, 1));
    if distance > 1 {
        let rest = steps.drop_first();
        assert forall|i: int| 0 <= i < distance - 1 implies rest[i] == axis by {
            assert(rest[i] == steps[i + 1]);
        }
        assert forall|d: int| 1 <= d < distance - 1 implies {
            let (cx, cy) = #[trigger] cell_ahead(nx, ny, heading_x, heading_y, axis, d);
            map.contains(cx, cy) && map.tile(cx, cy) == FLOOR_TILE
        } by {
            assert(cell_ahead(nx, ny, heading_x, heading_y, axis, d) == cell_ahead(
                x,
                y,
                heading_x,
                heading_y,
                axis,
                d + 1,
            ));
        }
        assert(cell_ahead(nx, ny, heading_x, heading_y, axis, distance - 1) == cell_ahead(
            x,
            y,
            heading_x,
            heading_y,
            axis,
            distance,
        ));
        lemma_straight_ray(map, nx, ny, heading_x, heading_y, rest, axis, distance - 1);
    }
}

/// Walks a ray through the map from cell `(start_x, start_y)`, one step of
/// `steps` after the other and never more than [`MAX_RAY_STEPS`] of them, and
/// reports the wall that stops it, if one does.
pub fn cast_ray(
    map: &GameMap,
    start_x: i64,
    start_y: i64,
    heading_x: Heading,
    heading_y: Heading,
    steps: &Vec<Axis>,
) -> (hit: Option<GridHit>)
    ensures
        hit == ray_outcome(map@, start_x as int, start_y as int, heading_x, heading_y, capped(steps@)),
        hit matches Some(wall) ==> {
            &&& map@.contains(wall.cell_x as int, wall.cell_y as int)
            &&& wall.wall_type == map@.tile(wall.cell_x as int, wall.cell_y as int)
            &&& wall.wall_type != FLOOR_TILE
        },
{
    proof {
        use_type_invariant(map);
        lemma_hit_is_wall(map@, start_x as int, start_y as int, heading_x, heading_y, capped(steps@));
    }
    let limit: usize = if steps.len() <= MAX_RAY_STEPS {
        steps.len()
    } else {
        MAX_RAY_STEPS
    };
    let ghost plan = capped(steps@);
    let step_x: i128 = heading_x.step() as i128;
    let step_y: i128 = heading_y.step() as i128;
    let mut cell_x: i128 = start_x as i128;
    let mut cell_y: i128 = start_y as i128;
    let mut taken: usize = 0;
    assert(plan.skip(0) =~= plan);
    while taken < limit
        invariant
            taken <= limit <= MAX_RAY_STEPS,
            limit == plan.len(),
            plan == capped(steps@),
            limit <= steps.len(),
            step_x == heading_x.delta(),
            step_y == heading_y.delta(),
            start_x - taken <= cell_x <= start_x + taken,
            start_y - taken <= cell_y <= start_y + taken,
            ray_outcome(map@, start_x as int, start_y as int, heading_x, heading_y, plan)
                == ray_outcome(map@, cell_x as int, cell_y as int, heading_x, heading_y, plan.skip(taken as int)),
        decreases limit - taken,
    {
        let axis = steps[taken];
        proof {
            let rest = plan.skip(taken as int);
            assert(rest[0] == steps[taken as int]);
            assert(rest.drop_first() =~= plan.skip(taken + 1));
        }
        match axis {
            Axis::X => {
                cell_x = cell_x + step_x;
            },
            Axis::Y => {
                cell_y = cell_y + step_y;
            },
        }
        taken += 1;
        if cell_x < 0 || cell_y < 0 || cell_x >= map.width() as i128 || cell_y >= map.height() as i128 {
            return None;
        }
        let wall_type = map.get_tile(cell_x as usize, cell_y as usize);
        if wall_type != FLOOR_TILE {
            let side = match axis {
                Axis::X => Side::NorthSouth,
                Axis::Y => Side::EastWest,
            };
            return Some(GridHit { cell_x: cell_x as usize, cell_y: cell_y as usize, wall_type, side });
        }
    }
    None
}

} // verus!
