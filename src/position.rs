//! Board topology: every cell is a dense index split into fixed zones.
//!
//! ```text
//! 0 | 1 2 3 4 5  |6 7 8 9 10| 11 12....
//!             a1          b1
//!             a2          b2
//!             a3          b3
//! 31 f3 f2 f1 C
//!             d1
//!             d2
//!             d3
//!             20
//! ```
//!
//! Shortcut a branches at route cell 5 and joins the center, then runs down
//! shortcut d back onto the route at cell 20; b and e, c and f likewise.
use vstd::prelude::*;

verus! {

pub const S_ON_START: usize = 0;
pub const ON_START: usize = 1;
pub const S_ON_ROUTES: usize = S_ON_START + ON_START;
pub const ON_CURVE: usize = 5;
pub const NUM_CURVE: usize = 6;
pub const ON_ROUTES: usize = ON_CURVE * NUM_CURVE;
pub const S_ON_GOAL: usize = S_ON_ROUTES + ON_ROUTES;
pub const ON_GOAL: usize = 1;
pub const S_ON_SHORTCUTS: usize = S_ON_GOAL + ON_GOAL;
pub const NUM_SHORTCUTS: usize = 6;
pub const OPP_SHORTCUTS: usize = 3;
pub const ON_SHORTCUT: usize = 3;
pub const S_ON_CENTER: usize = S_ON_SHORTCUTS + NUM_SHORTCUTS * ON_SHORTCUT;
pub const ON_CENTER: usize = 1;
pub const POSITIONS: usize = S_ON_CENTER + ON_CENTER;
/// The largest distance a single throw can grant.
pub const MAX_THROW: usize = 5;

/// A cell of the board, as its dense index.
#[derive(Debug, Clone, Copy, PartialEq, Eq, Hash, Structural)]
pub struct Position(usize);

/// The zone of a cell, with its coordinates inside the zone.
#[derive(Debug, Clone, Copy, PartialEq, Eq)]
pub enum HumanPosition {
    Start,
    Route(usize),
    Goal,
    Center,
    Shortcut(usize, usize),
}

pub open spec fn is_cell(c: int) -> bool {
    0 <= c < POSITIONS
}

pub open spec fn is_route_cell(c: int) -> bool {
    S_ON_ROUTES <= c < S_ON_GOAL
}

pub open spec fn is_shortcut_cell(c: int) -> bool {
    S_ON_SHORTCUTS <= c < S_ON_CENTER
}

/// The cell `x` steps along the route, counted from the start cell; at the
/// end of the route it saturates at the goal.
pub open spec fn route_cell(x: int) -> int {
    if x >= S_ON_GOAL {
        S_ON_GOAL as int
    } else {
        x
    }
}

/// Cell `x` of shortcut `path`.
pub open spec fn shortcut_cell(path: int, x: int) -> int {
    S_ON_SHORTCUTS + path * ON_SHORTCUT + x
}

/// The cell reached `x` steps into shortcut `path`: a near shortcut leads
/// into the center and on into its far shortcut, a far one back onto the route.
pub open spec fn shortcut_walk(path: int, x: int) -> int
    decreases (if path < OPP_SHORTCUTS { OPP_SHORTCUTS - path } else { 0 }),
{
    if path < OPP_SHORTCUTS {
        if x < ON_SHORTCUT {
            shortcut_cell(path, x)
        } else if x == ON_SHORTCUT {
            S_ON_CENTER as int
        } else {
            shortcut_walk(path + OPP_SHORTCUTS, x - ON_SHORTCUT - ON_CENTER)
        }
    } else {
        if x < ON_SHORTCUT {
            shortcut_cell(path, x)
        } else {
            route_cell(x - ON_SHORTCUT + (path + 1) * ON_CURVE)
        }
    }
}

/// The shortcut that branches off at route cell `c`, if any: the last cell
/// of each of the first three arcs.
pub open spec fn branch_of(c: int) -> Option<int> {
    if c == S_ON_ROUTES + ON_CURVE - 1 {
        Some(0int)
    } else if c == S_ON_ROUTES + 2 * ON_CURVE - 1 {
        Some(1int)
    } else if c == S_ON_ROUTES + 3 * ON_CURVE - 1 {
        Some(2int)
    } else {
        None
    }
}

/// Every cell a piece on cell `c` may reach with a throw of `d`.
pub open spec fn destinations(c: int, d: int) -> Seq<int> {
    if c == S_ON_START {
        seq![S_ON_START + d]
    } else if c == S_ON_GOAL {
        seq![]
    } else if c == S_ON_CENTER {
        seq![shortcut_walk(3, d), shortcut_walk(4, d), shortcut_walk(5, d)]
    } else if c < S_ON_GOAL {
        match branch_of(c) {
            Some(p) => seq![route_cell(c + d), shortcut_walk(p, d - 1)],
            None => seq![route_cell(c + d)],
        }
    } else {
        seq![
            shortcut_walk(
                (c - S_ON_SHORTCUTS) / ON_SHORTCUT as int,
                (c - S_ON_SHORTCUTS) % ON_SHORTCUT as int + d,
            )
        ]
    }
}

/// The indices of a sequence of cells.
pub open spec fn cell_indices(v: Seq<Position>) -> Seq<int> {
    v.map_values(|p: Position| p@)
}

pub open spec fn is_throw(d: int) -> bool {
    1 <= d <= MAX_THROW
}

impl View for Position {
    type V = int;

    closed spec fn view(&self) -> int {
        self.0 as int
    }
}

impl Position {
    pub open spec fn is_valid(self) -> bool {
        is_cell(self@)
    }

    /// The cell with index `x`.
    pub fn from(x: usize) -> (r: Self)
        requires
            x < POSITIONS,
        ensures
            r@ == x,
    {
        Position(x)
    }

    pub fn start() -> (r: Self)
        ensures
            r@ == S_ON_START,
    {
        Position(S_ON_START)
    }

    fn route(x: usize) -> (r: Self)
        requires
            x < S_ON_GOAL,
        ensures
            r@ == x,
    {
        Position(x)
    }

    pub fn goal() -> (r: Self)
        ensures
            r@ == S_ON_GOAL,
    {
        Position(S_ON_GOAL)
    }

    fn center() -> (r: Self)
        ensures
            r@ == S_ON_CENTER,
    {
        Position(S_ON_CENTER)
    }

    fn shortcut(path: usize, x: usize) -> (r: Self)
        requires
            path < NUM_SHORTCUTS,
            x < ON_SHORTCUT,
        ensures
            r@ == shortcut_cell(path as int, x as int),
    {
        Position(S_ON_SHORTCUTS + path * ON_SHORTCUT + x)
    }

    fn on_route(x: usize) -> (r: Self)
        ensures
            r@ == route_cell(x as int),
    {
        if x >= S_ON_GOAL {
            Position::goal()
        } else {
            Position::route(x)
        }
    }

    fn can_shortcut(self) -> (r: Option<usize>)
        ensures
            r matches Some(p) ==> branch_of(self@) == Some(p as int),
            r is None ==> branch_of(self@) is None,
    {
        let x = self.0;
        if x == S_ON_ROUTES + ON_CURVE - 1 {
            Some(0)
        } else if x == S_ON_ROUTES + 2 * ON_CURVE - 1 {
            Some(1)
        } else if x == S_ON_ROUTES + 3 * ON_CURVE - 1 {
            Some(2)
        } else {
            None
        }
    }

    fn to_shortcut(path: usize, x: usize) -> (r: Self)
        requires
            path < NUM_SHORTCUTS,
            x <= 2 * ON_SHORTCUT + MAX_THROW,
        ensures
            r@ == shortcut_walk(path as int, x as int),
        decreases (if path < OPP_SHORTCUTS { OPP_SHORTCUTS - path } else { 0 }),
    {
        if path < OPP_SHORTCUTS {
            if x < ON_SHORTCUT {
                Position::shortcut(path, x)
            } else if x == ON_SHORTCUT {
                Position::center()
            } else {
                Position::to_shortcut(path + OPP_SHORTCUTS, x - ON_SHORTCUT - ON_CENTER)
            }
        } else {
            if x < ON_SHORTCUT {
                Position::shortcut(path, x)
            } else {
                Position::on_route(x - ON_SHORTCUT + (path + 1) * ON_CURVE)
            }
        }
    }

    pub fn human(self) -> (r: HumanPosition)
        requires
            self.is_valid(),
        ensures
            self@ == S_ON_START <==> r == HumanPosition::Start,
            self@ == S_ON_GOAL <==> r == HumanPosition::Goal,
            self@ == S_ON_CENTER <==> r == HumanPosition::Center,
            r matches HumanPosition::Route(x) ==> x == self@ && is_route_cell(self@),
            r matches HumanPosition::Shortcut(p, x) ==> {
                &&& is_shortcut_cell(self@)
                &&& p == (self@ - S_ON_SHORTCUTS) / ON_SHORTCUT as int
                &&& x == (self@ - S_ON_SHORTCUTS) % ON_SHORTCUT as int
            },
            is_route_cell(self@) ==> r is Route,
            is_shortcut_cell(self@) ==> r is Shortcut,
    {
        let x = self.0;
        if x == S_ON_START {
            HumanPosition::Start
        } else if x == S_ON_GOAL {
            HumanPosition::Goal
        } else if x == S_ON_CENTER {
            HumanPosition::Center
        } else if x < S_ON_SHORTCUTS {
            HumanPosition::Route(x)
        } else {
            let path = (x - S_ON_SHORTCUTS) / ON_SHORTCUT;
            let pos = (x - S_ON_SHORTCUTS) % ON_SHORTCUT;
            HumanPosition::Shortcut(path, pos)
        }
    }

    /// Every cell this cell's piece may move to with a throw of `d`.
    pub fn advance(self, d: usize) -> (r: Vec<Position>)
        requires
            self.is_valid(),
            is_throw(d as int),
        ensures
            cell_indices(r@) == destinations(self@, d as int),
            forall|i: int| 0 <= i < r@.len() ==> (#[trigger] r@[i]).is_valid(),
    {
        proof {
            lemma_destinations_are_cells(self@, d as int);
        }
        let r = match self.human() {
            HumanPosition::Start => {
                vec![Position::route(d)]
            },
            HumanPosition::Route(x) => {
                let simple = Position::on_route(x + d);
                let here = Position::route(x);
                match here.can_shortcut() {
                    Some(p) => vec![simple, Position::to_shortcut(p, d - 1)],
                    None => vec![simple],
                }
            },
            HumanPosition::Goal => {
                vec![]
            },
            HumanPosition::Shortcut(path, x) => {
                vec![Position::to_shortcut(path, x + d)]
            },
            HumanPosition::Center => {
                let mut v: Vec<Position> = Vec::new();
                let mut i: usize = OPP_SHORTCUTS;
                while i < OPP_SHORTCUTS * 2
                    invariant
                        OPP_SHORTCUTS <= i <= OPP_SHORTCUTS * 2,
                        is_throw(d as int),
                        v@.len() == i - OPP_SHORTCUTS,
                        forall|k: int|
                            0 <= k < v@.len() ==> (#[trigger] v@[k])@ == shortcut_walk(
                                k + OPP_SHORTCUTS,
                                d as int,
                            ),
                    decreases OPP_SHORTCUTS * 2 - i,
                {
                    v.push(Position::to_shortcut(i, d));
                    i = i + 1;
                }
                v
            },
        };
        assert(cell_indices(r@) =~= destinations(self@, d as int));
        assert forall|i: int| 0 <= i < r@.len() implies (#[trigger] r@[i]).is_valid() by {
            assert(cell_indices(r@)[i] == r@[i]@);
        }
        r
    }
}

/// Width of one cell in the board drawing.
pub const CELL_WIDTH: usize = 3;
/// Height and width of the board drawing.
pub const BOARD_HEIGHT: usize = ON_CURVE * 2 + 3;
pub const BOARD_WIDTH: usize = 80;

/// Row and column of cell `c` in the board drawing: the first half of the
/// route runs along the top row left to right, the second half along the
/// bottom row right to left; near shortcuts hang down from the top, far
/// ones sit below the center.
pub open spec fn anchor(c: int) -> (int, int) {
    let cw = CELL_WIDTH as int;
    if c == S_ON_START || c == S_ON_GOAL {
        (2, 2)
    } else if c == S_ON_CENTER {
        (ON_CURVE + 1, (OPP_SHORTCUTS * ON_CURVE / 2) * cw)
    } else if is_route_cell(c) {
        let path = c - S_ON_ROUTES;
        if path / (ON_CURVE as int) < OPP_SHORTCUTS {
            (0, path * cw)
        } else {
            ((ON_CURVE * 2 + 2) as int, (ON_ROUTES - path - 1) * cw)
        }
    } else {
        let path = c - S_ON_SHORTCUTS;
        let p = path / ON_SHORTCUT as int;
        let i = path % ON_SHORTCUT as int;
        if p < OPP_SHORTCUTS {
            (i + 2, (p + 1) * (ON_CURVE * CELL_WIDTH) - cw)
        } else {
            (i + NUM_CURVE + 2, (NUM_SHORTCUTS - p - 1) * (ON_CURVE * CELL_WIDTH))
        }
    }
}

impl Position {
    /// Row and column of this cell in the board drawing.
    fn anchor(self) -> (r: (usize, usize))
        requires
            self.is_valid(),
        ensures
            r.0 == anchor(self@).0,
            r.1 == anchor(self@).1,
    {
        let cw = CELL_WIDTH;
        match self.human() {
            HumanPosition::Start => (2, 2),
            HumanPosition::Goal => (2, 2),
            HumanPosition::Center => (ON_CURVE + 1, OPP_SHORTCUTS * ON_CURVE / 2 * cw),
            HumanPosition::Route(x) => {
                let path = x - S_ON_ROUTES;
                if path / ON_CURVE < OPP_SHORTCUTS {
                    (0, path * cw)
                } else {
                    (ON_CURVE * 2 + 2, (ON_ROUTES - path - 1) * cw)
                }
            },
            HumanPosition::Shortcut(p, i) => {
                let skip = ON_CURVE * cw;
                if p < OPP_SHORTCUTS {
                    (i + 2, (p + 1) * skip - cw)
                } else {
                    (i + NUM_CURVE + 2, (NUM_SHORTCUTS - p - 1) * skip)
                }
            },
        }
    }
}

/// The size of the board drawing, and where each cell stands in it.
pub fn alignment() -> (r: (usize, usize, Vec<(usize, usize)>))
    ensures
        r.0 == BOARD_HEIGHT,
        r.1 == BOARD_WIDTH,
        r.2@.len() == POSITIONS,
        forall|c: int|
            0 <= c < POSITIONS ==> (#[trigger] r.2@[c]).0 == anchor(c).0 && r.2@[c].1 == anchor(
                c,
            ).1,
        forall|c: int|
            0 <= c < POSITIONS ==> (#[trigger] r.2@[c]).0 < BOARD_HEIGHT && r.2@[c].1 + 2
                <= BOARD_WIDTH,
{
    let mut a: Vec<(usize, usize)> = Vec::new();
    let mut c: usize = 0;
    while c < POSITIONS
        invariant
            c <= POSITIONS,
            a@.len() == c,
            forall|k: int|
                0 <= k < c ==> (#[trigger] a@[k]).0 == anchor(k).0 && a@[k].1 == anchor(k).1,
        decreases POSITIONS - c,
    {
        a.push(Position(c).anchor());
        c = c + 1;
    }
    assert forall|c: int| 0 <= c < POSITIONS implies (#[trigger] a@[c]).0 < BOARD_HEIGHT && a@[c].1
        + 2 <= BOARD_WIDTH by {
        lemma_anchor_fits(c);
    }
    (BOARD_HEIGHT, BOARD_WIDTH, a)
}

/// Every cell's two characters fit inside the board drawing.
proof fn lemma_anchor_fits(c: int)
    requires
        is_cell(c),
    ensures
        0 <= anchor(c).0 < BOARD_HEIGHT,
        0 <= anchor(c).1,
        anchor(c).1 + 2 <= BOARD_WIDTH,
{
    if is_shortcut_cell(c) {
        let path = c - S_ON_SHORTCUTS;
        assert(0 <= path / 3 < 6);
        assert(0 <= path % 3 < 3);
    }
    if is_route_cell(c) {
        let path = c - S_ON_ROUTES;
        assert(0 <= path < 30);
        assert(path / 5 < 3 ==> path < 15);
    }
}

impl From<Position> for usize {
    fn from(x: Position) -> Self {
        x.0
    }
}

impl vstd::std_specs::convert::FromSpecImpl<Position> for usize {
    open spec fn obeys_from_spec() -> bool {
        true
    }

    open spec fn from_spec(v: Position) -> usize {
        v@ as usize
    }
}

/// A position's index is a machine word.
pub broadcast proof fn lemma_position_index_bounds(p: Position)
    ensures
        0 <= #[trigger] p@ <= usize::MAX,
{
}

/// Every cell that `shortcut_walk` reaches is a cell of the board, and never
/// the start.
pub proof fn lemma_shortcut_walk_is_cell(path: int, x: int)
    requires
        0 <= path < NUM_SHORTCUTS,
        0 <= x,
    ensures
        is_cell(shortcut_walk(path, x)),
        shortcut_walk(path, x) != S_ON_START,
        x >= 1 ==> shortcut_walk(path, x) != shortcut_cell(path, 0),
    decreases (if path < OPP_SHORTCUTS { OPP_SHORTCUTS - path } else { 0 }),
{
    if path < OPP_SHORTCUTS && x > ON_SHORTCUT {
        lemma_shortcut_walk_is_cell(path + OPP_SHORTCUTS, x - ON_SHORTCUT - ON_CENTER);
    }
}

/// Every destination of a valid cell under a valid throw is a valid cell
/// other than the cell itself; from the start every destination is a route
/// cell, and the goal has no destination.
pub proof fn lemma_destinations_are_cells(c: int, d: int)
    requires
        is_cell(c),
        is_throw(d),
    ensures
        forall|i: int|
            0 <= i < destinations(c, d).len() ==> {
                &&& is_cell(#[trigger] destinations(c, d)[i])
                &&& destinations(c, d)[i] != c
            },
        c == S_ON_START ==> forall|i: int|
            0 <= i < destinations(c, d).len() ==> is_route_cell(#[trigger] destinations(c, d)[i]),
        c == S_ON_START ==> destinations(c, d).len() == 1,
        c == S_ON_GOAL ==> destinations(c, d).len() == 0,
{
    reveal_with_fuel(shortcut_walk, 3);
    lemma_shortcut_walk_is_cell(3, d);
    lemma_shortcut_walk_is_cell(4, d);
    lemma_shortcut_walk_is_cell(5, d);
    if is_route_cell(c) {
        if let Some(p) = branch_of(c) {
            lemma_shortcut_walk_is_cell(p, d - 1);
        }
    }
    if is_shortcut_cell(c) {
        lemma_shortcut_walk_is_cell(
            (c - S_ON_SHORTCUTS) / ON_SHORTCUT as int,
            (c - S_ON_SHORTCUTS) % ON_SHORTCUT as int + d,
        );
    }
}

} // verus!
