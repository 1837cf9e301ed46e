//! An integer grid laid out as an outward square spiral, with the geometry
//! helpers used to measure distances on it.

use vstd::prelude::*;

verus! {

/// A point on the integer plane.
#[derive(Clone, Copy, PartialEq, Eq, Structural, Debug)]
pub struct Position {
    pub x: i32,
    pub y: i32,
}

pub open spec fn abs_diff(a: int, b: int) -> int {
    if a >= b {
        a - b
    } else {
        b - a
    }
}

impl Position {
    pub fn new(x: i32, y: i32) -> (p: Position)
        ensures
            p.x == x,
            p.y == y,
    {
        Position { x, y }
    }

    /// Whether `other` is one of the eight neighbours of `self`, or `self`
    /// itself.
    pub fn adjacent(&self, other: &Position) -> (r: bool)
        ensures
            r == (abs_diff(self.x as int, other.x as int) <= 1 && abs_diff(
                self.y as int,
                other.y as int,
            ) <= 1),
    {
        let dx = self.x as i64 - other.x as i64;
        let dy = self.y as i64 - other.y as i64;
        let adx = if dx >= 0 {
            dx
        } else {
            -dx
        };
        let ady = if dy >= 0 {
            dy
        } else {
            -dy
        };
        adx <= 1 && ady <= 1
    }

    /// The taxicab distance between the two points.
    pub fn manhattan_distance(self, other: &Position) -> (d: u32)
        requires
            abs_diff(self.x as int, other.x as int) + abs_diff(self.y as int, other.y as int)
                <= u32::MAX,
        ensures
            d == abs_diff(self.x as int, other.x as int) + abs_diff(
                self.y as int,
                other.y as int,
            ),
    {
        let dx = self.x as i64 - other.x as i64;
        let dy = self.y as i64 - other.y as i64;
        let adx = if dx >= 0 {
            dx
        } else {
            -dx
        };
        let ady = if dy >= 0 {
            dy
        } else {
            -dy
        };
        (adx + ady) as u32
    }

    /// The coordinate-wise minimum of the two points.
    pub fn min(&self, other: &Position) -> (p: Position)
        ensures
            p.x == if self.x <= other.x { self.x } else { other.x },
            p.y == if self.y <= other.y { self.y } else { other.y },
    {
        Position {
            x: if self.x <= other.x {
                self.x
            } else {
                other.x
            },
            y: if self.y <= other.y {
                self.y
            } else {
                other.y
            },
        }
    }

    /// The coordinate-wise maximum of the two points.
    pub fn max(&self, other: &Position) -> (p: Position)
        ensures
            p.x == if self.x >= other.x { self.x } else { other.x },
            p.y == if self.y >= other.y { self.y } else { other.y },
    {
        Position {
            x: if self.x >= other.x {
                self.x
            } else {
                other.x
            },
            y: if self.y >= other.y {
                self.y
            } else {
                other.y
            },
        }
    }

    pub fn up() -> (p: Position)
        ensures
            p == (Position { x: 0, y: 1 }),
    {
        Position::new(0, 1)
    }

    pub fn down() -> (p: Position)
        ensures
            p.x == 0 && p.y == -1,
    {
        Position::new(0, -1)
    }

    pub fn right() -> (p: Position)
        ensures
            p == (Position { x: 1, y: 0 }),
    {
        Position::new(1, 0)
    }

    pub fn left() -> (p: Position)
        ensures
            p.x == -1 && p.y == 0,
    {
        Position::new(-1, 0)
    }
}

/// One square of the spiral: where it sits and the value written into it.
#[derive(Clone, Copy, PartialEq, Eq, Structural, Debug)]
pub struct Cell {
    pub position: Position,
    pub value: u64,
}

impl Cell {
    pub fn new(position: Position, value: u64) -> (c: Cell)
        ensures
            c.position == position,
            c.value == value,
    {
        Cell { position, value }
    }
}

/// The spiral under construction: the cells in the order they were laid
/// down, and the bounding-box size of the occupied region.
pub struct Grid {
    pub grid: Vec<Cell>,
    pub size: Position,
}

/// Whether two positions touch: equal, or one of the eight neighbours.
pub open spec fn adjacent_v(a: Position, b: Position) -> bool {
    abs_diff(a.x as int, b.x as int) <= 1 && abs_diff(a.y as int, b.y as int) <= 1
}

/// The sum of the values of the first `k` cells that touch `p`.
pub open spec fn adj_sum(cells: Seq<Cell>, p: Position, k: int) -> int
    decreases k,
{
    if k <= 0 {
        0
    } else {
        adj_sum(cells, p, k - 1) + if adjacent_v(cells[k - 1].position, p) {
            cells[k - 1].value as int
        } else {
            0
        }
    }
}

proof fn lemma_adj_sum_mono(cells: Seq<Cell>, p: Position, j: int, k: int)
    requires
        0 <= j <= k,
    ensures
        adj_sum(cells, p, j) <= adj_sum(cells, p, k),
    decreases k,
{
    if j < k {
        lemma_adj_sum_mono(cells, p, j, k - 1);
    }
}

proof fn lemma_adj_sum_bounded(cells: Seq<Cell>, p: Position, k: int, m: int)
    requires
        0 <= m,
        0 <= k <= cells.len(),
        forall|j: int| 0 <= j < cells.len() ==> (#[trigger] cells[j]).value <= m,
    ensures
        adj_sum(cells, p, k) <= k * m,
    decreases k,
{
    if k > 0 {
        lemma_adj_sum_bounded(cells, p, k - 1, m);
        assert((k - 1) * m + m == k * m) by (nonlinear_arith);
    }
}

/// The walker's whole state while the spiral is laid down.
pub ghost struct SpiralV {
    pub cells: Seq<Cell>,
    pub size: Position,
    pub current: Position,
    pub direction: Position,
    pub min_pos: Position,
    pub max_pos: Position,
    pub found: bool,
}

/// A step of one square in one of the four directions.
pub open spec fn is_unit_dir(d: Position) -> bool {
    (d.x == 0 && (d.y == 1 || d.y == -1)) || (d.y == 0 && (d.x == 1 || d.x == -1))
}

pub open spec fn imin(a: int, b: int) -> int {
    if a <= b {
        a
    } else {
        b
    }
}

pub open spec fn imax(a: int, b: int) -> int {
    if a >= b {
        a
    } else {
        b
    }
}

/// The walker before the second cell is laid: the seed alone, heading
/// right.
pub open spec fn spiral_init() -> SpiralV {
    SpiralV {
        cells: seq![Cell { position: Position { x: 0, y: 0 }, value: 1 }],
        size: Position { x: 1, y: 1 },
        current: Position { x: 0, y: 0 },
        direction: Position { x: 1, y: 0 },
        min_pos: Position { x: 0, y: 0 },
        max_pos: Position { x: 0, y: 0 },
        found: false,
    }
}

/// One cell laid down: step forward, turn (and widen the box) when the
/// step leaves the occupied region, value the new cell with the sum of its
/// laid neighbours — or zero once a value has exceeded `until`.
pub open spec fn spiral_step(st: SpiralV, until: u32) -> SpiralV {
    let next = Position {
        x: (st.current.x + st.direction.x) as i32,
        y: (st.current.y + st.direction.y) as i32,
    };
    let size = if next.x > st.max_pos.x {
        Position { x: (st.size.x + 1) as i32, y: st.size.y }
    } else if next.y > st.max_pos.y {
        Position { x: st.size.x, y: (st.size.y + 1) as i32 }
    } else if next.x < st.min_pos.x {
        Position { x: (st.size.x + 1) as i32, y: st.size.y }
    } else if next.y < st.min_pos.y {
        Position { x: st.size.x, y: (st.size.y + 1) as i32 }
    } else {
        st.size
    };
    let direction = if next.x > st.max_pos.x {
        Position { x: 0, y: 1 }
    } else if next.y > st.max_pos.y {
        Position { x: (-1) as i32, y: 0 }
    } else if next.x < st.min_pos.x {
        Position { x: 0, y: (-1) as i32 }
    } else if next.y < st.min_pos.y {
        Position { x: 1, y: 0 }
    } else {
        st.direction
    };
    let min_pos = Position {
        x: imin(st.min_pos.x as int, next.x as int) as i32,
        y: imin(st.min_pos.y as int, next.y as int) as i32,
    };
    let max_pos = Position {
        x: imax(st.max_pos.x as int, next.x as int) as i32,
        y: imax(st.max_pos.y as int, next.y as int) as i32,
    };
    let value: u64 = if !st.found {
        adj_sum(st.cells, next, st.cells.len() as int) as u64
    } else {
        0
    };
    let found = st.found || value > until as u64;
    SpiralV {
        cells: st.cells.push(Cell { position: next, value }),
        size,
        current: next,
        direction,
        min_pos,
        max_pos,
        found,
    }
}

/// The walker after `k` cells have been laid beyond the seed.
pub open spec fn spiral_at(until: u32, k: nat) -> SpiralV
    decreases k,
{
    if k == 0 {
        spiral_init()
    } else {
        spiral_step(spiral_at(until, (k - 1) as nat), until)
    }
}

impl Grid {
    /// A grid holding only the seed cell: value 1 at the origin.
    pub fn empty() -> (g: Grid)
        ensures
            g.grid@.len() == 1,
            g.grid@[0] == (Cell { position: Position { x: 0, y: 0 }, value: 1 }),
            g.size == (Position { x: 1, y: 1 }),
    {
        let mut cells: Vec<Cell> = Vec::new();
        cells.push(Cell::new(Position::new(0, 0), 1));
        Grid { grid: cells, size: Position { x: 1, y: 1 } }
    }

    /// The sum of the values of the cells laid down around (and on) a
    /// position.
    #[verifier::loop_isolation(false)]
    pub fn sum_adjacent(&self, position: &Position) -> (sum: u64)
        requires
            adj_sum(self.grid@, *position, self.grid@.len() as int) <= u64::MAX,
        ensures
            sum == adj_sum(self.grid@, *position, self.grid@.len() as int),
    {
        let mut sum: u64 = 0;
        let mut i: usize = 0;
        while i < self.grid.len()
            invariant
                i <= self.grid@.len(),
                sum == adj_sum(self.grid@, *position, i as int),
            decreases self.grid@.len() - i,
        {
            proof {
                lemma_adj_sum_mono(self.grid@, *position, i + 1, self.grid@.len() as int);
            }
            if self.grid[i].position.adjacent(position) {
                sum = sum + self.grid[i].value;
            }
            i = i + 1;
        }
        sum
    }

    /// Lay the spiral down cell by cell until `until` cells stand, each new
    /// cell valued with the sum of its already-laid neighbours — until one
    /// value exceeds `until`, after which the remaining cells are laid with
    /// value zero.
    #[verifier::loop_isolation(false)]
    pub fn new(until: u32) -> (g: Grid)
        requires
            until as int + 1 <= i32::MAX,
        ensures
            ({
                let st = spiral_at(until, if until == 0 {
                    0
                } else {
                    (until - 1) as nat
                });
                g.grid@ == st.cells && g.size == st.size
            }),
    {
        let mut grid = Grid::empty();
        let mut i: u32 = 2;
        let mut current = grid.grid[0].position.clone();
        let mut direction = Position::right();

        let mut min_pos = Position { x: 0, y: 0 };
        let mut max_pos = Position { x: 0, y: 0 };
        let mut found = false;

        proof {
            assert(spiral_at(until, 0).cells =~= grid.grid@);
        }
        while i <= until
            invariant
                2 <= i,
                until == 0 || i <= until + 1,
                until >= 2 || i == 2,
                ({
                    let st = spiral_at(until, (i - 2) as nat);
                    grid.grid@ == st.cells && grid.size == st.size && current == st.current
                        && direction == st.direction && min_pos == st.min_pos && max_pos
                        == st.max_pos && found == st.found
                }),
                grid.grid@.len() == i - 1,
                is_unit_dir(direction),
                min_pos.x >= -(i as int) && min_pos.y >= -(i as int) && min_pos.x <= 0
                    && min_pos.y <= 0,
                max_pos.x <= i && max_pos.y <= i && max_pos.x >= 0 && max_pos.y >= 0,
                min_pos.x <= current.x <= max_pos.x,
                min_pos.y <= current.y <= max_pos.y,
                1 <= grid.size.x <= i,
                1 <= grid.size.y <= i,
                until >= 2 && !found ==> forall|k: int|
                    0 <= k < grid.grid@.len() ==> (#[trigger] grid.grid@[k]).value
                        <= until as u64,
            decreases until + 1 - i,
        {
            let ghost st_pre = spiral_at(until, (i - 2) as nat);
            let next = Position { x: current.x + direction.x, y: current.y + direction.y };

            if next.x > max_pos.x {
                grid.size.x = grid.size.x + 1;
                direction = Position::up();
            } else if next.y > max_pos.y {
                grid.size.y = grid.size.y + 1;
                direction = Position::left();
            } else if next.x < min_pos.x {
                grid.size.x = grid.size.x + 1;
                direction = Position::down();
            } else if next.y < min_pos.y {
                grid.size.y = grid.size.y + 1;
                direction = Position::right();
            }

            min_pos = min_pos.min(&next);
            max_pos = max_pos.max(&next);
            current = next.clone();
            let value = if !found {
                proof {
                    lemma_adj_sum_bounded(grid.grid@, next, grid.grid@.len() as int, until as int);
                    assert((grid.grid@.len() as int) * (until as int) <= (until as int) * (
                    until as int)) by (nonlinear_arith)
                        requires
                            0 <= grid.grid@.len() as int <= until as int,
                            0 <= until as int,
                    ;
                    assert((until as int) * (until as int) <= u64::MAX) by (nonlinear_arith)
                        requires
                            0 <= until as int <= 0x7fffffff,
                    ;
                }
                let value = grid.sum_adjacent(&next);

                if value > until as u64 {
                    found = true;
                }
                value
            } else {
                0
            };

            grid.grid.push(Cell::new(next, value));

            i = i + 1;
            proof {
                let st = spiral_step(st_pre, until);
                assert(spiral_at(until, (i - 2) as nat) == st);
                assert(grid.grid@ =~= st.cells);
            }
        }
        proof {
            if until == 0 || until == 1 {
                assert(spiral_at(until, 0).cells =~= grid.grid@);
            }
        }
        grid
    }

    /// The `i`-th cell laid down, counting from 1, if that many exist.
    pub fn get(&self, i: u32) -> (r: Option<Cell>)
        requires
            i >= 1,
        ensures
            r == if i - 1 < self.grid@.len() {
                Some(self.grid@[i - 1])
            } else {
                Option::<Cell>::None
            },
    {
        let idx = (i - 1) as usize;
        if idx < self.grid.len() {
            Some(self.grid[idx].clone())
        } else {
            None
        }
    }
}

} // verus!
