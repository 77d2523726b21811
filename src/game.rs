use vstd::prelude::*;

use crate::board::Board;
use crate::placement::{
    bounds_for, capacity, draw_bounds, draws_fit, eligible, eligible_cells, eligible_upto, entropy_draws,
    lemma_cell_of, picks, pool_after, seeded_draws, seeded_draws_of, SafeZone,
};

verus! {

/// What a tile hides: a bomb, or the number of bombs among its neighbours.
#[derive(Clone, Copy, Debug, PartialEq, Eq, Structural)]
pub enum TileValue {
    Bomb,
    Safe(u8),
}

impl Default for TileValue {
    fn default() -> (r: Self)
        ensures
            r == TileValue::Safe(0),
    {
        TileValue::Safe(0)
    }
}

/// What the player has done with a tile.
#[derive(Clone, Copy, Debug, PartialEq, Eq, Structural)]
pub enum TileState {
    Flag,
    Hidden,
    Open,
}

impl Default for TileState {
    fn default() -> (r: Self)
        ensures
            r == TileState::Hidden,
    {
        TileState::Hidden
    }
}

#[derive(Clone, Copy, Debug, PartialEq, Eq, Structural)]
pub struct Tile {
    pub value: TileValue,
    pub state: TileState,
}

impl Default for Tile {
    fn default() -> (r: Self)
        ensures
            r == (Tile { value: TileValue::Safe(0), state: TileState::Hidden }),
    {
        Tile { value: TileValue::Safe(0), state: TileState::Hidden }
    }
}

impl Tile {
    pub fn new(value: TileValue, state: TileState) -> (r: Self)
        ensures
            r == (Tile { value, state }),
    {
        Tile { value, state }
    }
}

/// The tile after a reveal, and what the reveal shows: a hidden tile opens and
/// shows its value; a flagged or open tile stays as it is and shows nothing.
pub open spec fn revealed(t: Tile) -> (Tile, Option<TileValue>) {
    if t.state == TileState::Hidden {
        (Tile { value: t.value, state: TileState::Open }, Some(t.value))
    } else {
        (t, None)
    }
}

/// The tile after a flag toggle: hidden and flagged swap, open stays open.
pub open spec fn toggled(t: Tile) -> Tile {
    match t.state {
        TileState::Hidden => Tile { value: t.value, state: TileState::Flag },
        TileState::Flag => Tile { value: t.value, state: TileState::Hidden },
        TileState::Open => t,
    }
}

/// The tile after its flag is set to `flag`; an open tile stays open.
pub open spec fn flag_set(t: Tile, flag: bool) -> Tile {
    if t.state == TileState::Open {
        t
    } else if flag {
        Tile { value: t.value, state: TileState::Flag }
    } else {
        Tile { value: t.value, state: TileState::Hidden }
    }
}

/// What a player sees of a tile: its state, and its value once it is open.
pub open spec fn shown(t: Tile) -> (TileState, Option<TileValue>) {
    if t.state == TileState::Open {
        (t.state, Some(t.value))
    } else {
        (t.state, None)
    }
}

/// Uncovering a hidden tile opens it and shows its value; uncovering it again
/// shows nothing and leaves it open.
pub proof fn lemma_uncover_once(t: Tile)
    requires
        t.state == TileState::Hidden,
    ensures
        revealed(t).0 == (Tile { value: t.value, state: TileState::Open }),
        revealed(t).1 == Some(t.value),
        revealed(revealed(t).0) == (revealed(t).0, None::<TileValue>),
{
}

/// Toggling a flag turns a hidden tile into a flagged one and back, and
/// leaves an open tile as it is.
pub proof fn lemma_flag_toggle(t: Tile)
    ensures
        t.state == TileState::Hidden ==> toggled(t).state == TileState::Flag && toggled(toggled(t))
            == t,
        t.state == TileState::Flag ==> toggled(t).state == TileState::Hidden && toggled(toggled(t))
            == t,
        t.state == TileState::Open ==> toggled(t) == t,
        toggled(t).value == t.value,
{
}

/// Setting a flag leaves an open tile as it is and otherwise flags or
/// unflags the tile as asked; setting it twice is setting it once.
pub proof fn lemma_flag_set(t: Tile, flag: bool)
    ensures
        t.state == TileState::Open ==> flag_set(t, flag) == t,
        t.state != TileState::Open ==> flag_set(t, flag).state == (if flag {
            TileState::Flag
        } else {
            TileState::Hidden
        }),
        flag_set(flag_set(t, flag), flag) == flag_set(t, flag),
        flag_set(t, flag).value == t.value,
{
}

/// A tile shows its value only once it is open: a hidden or flagged tile
/// shows its state alone, and an uncovered one shows its value.
pub proof fn lemma_shown(t: Tile)
    ensures
        t.state != TileState::Open ==> shown(t) == (t.state, None::<TileValue>),
        t.state == TileState::Hidden ==> shown(revealed(t).0) == (TileState::Open, Some(t.value)),
{
}

/// 1 when (`x`, `y`) lies inside the grid and holds a bomb, else 0.
pub open spec fn bomb_at(b: Board<Tile>, x: int, y: int) -> nat {
    if b.in_bounds(x, y) && b.at(x, y).value is Bomb {
        1
    } else {
        0
    }
}

/// The number of bombs among the (up to eight) neighbours of (`x`, `y`)
/// that lie inside the grid.
pub open spec fn bombs_around(b: Board<Tile>, x: int, y: int) -> nat {
    bomb_at(b, x - 1, y - 1) + bomb_at(b, x, y - 1) + bomb_at(b, x + 1, y - 1)
        + bomb_at(b, x - 1, y) + bomb_at(b, x + 1, y)
        + bomb_at(b, x - 1, y + 1) + bomb_at(b, x, y + 1) + bomb_at(b, x + 1, y + 1)
}

/// Two grids of one size with bombs in the same cells.
pub open spec fn same_bombs(a: Board<Tile>, b: Board<Tile>) -> bool {
    &&& a.spec_width() == b.spec_width()
    &&& a.spec_height() == b.spec_height()
    &&& a.cells().len() == b.cells().len()
    &&& forall|i: int|
        0 <= i < a.cells().len() ==> (#[trigger] a.cells()[i].value is Bomb <==> b.cells()[i].value
            is Bomb)
}

/// Every safe tile inside the grid holds the number of bombs around it.
pub open spec fn counts_hold(b: Board<Tile>) -> bool {
    forall|x: int, y: int|
        #![trigger b.at(x, y)]
        b.in_bounds(x, y) && !(b.at(x, y).value is Bomb) ==> b.at(x, y).value == TileValue::Safe(
            bombs_around(b, x, y) as u8,
        )
}

proof fn lemma_bomb_at_same(a: Board<Tile>, b: Board<Tile>, x: int, y: int)
    requires
        a.wf(),
        same_bombs(a, b),
    ensures
        bomb_at(a, x, y) == bomb_at(b, x, y),
{
    if a.in_bounds(x, y) {
        a.lemma_index_in_range(x, y);
    }
}

/// Grids with bombs in the same cells have the same counts everywhere.
pub proof fn lemma_bombs_around_same(a: Board<Tile>, b: Board<Tile>, x: int, y: int)
    requires
        a.wf(),
        same_bombs(a, b),
    ensures
        bombs_around(a, x, y) == bombs_around(b, x, y),
{
    lemma_bomb_at_same(a, b, x - 1, y - 1);
    lemma_bomb_at_same(a, b, x, y - 1);
    lemma_bomb_at_same(a, b, x + 1, y - 1);
    lemma_bomb_at_same(a, b, x - 1, y);
    lemma_bomb_at_same(a, b, x + 1, y);
    lemma_bomb_at_same(a, b, x - 1, y + 1);
    lemma_bomb_at_same(a, b, x, y + 1);
    lemma_bomb_at_same(a, b, x + 1, y + 1);
}

/// 1 when the neighbour (`x + dx - 1`, `y + dy - 1`) lies inside the grid and
/// holds a bomb, else 0.
fn bomb_near(board: &Board<Tile>, x: usize, y: usize, dx: usize, dy: usize) -> (r: u8)
    requires
        board.wf(),
        board.in_bounds(x as int, y as int),
        dx < 3,
        dy < 3,
    ensures
        r == bomb_at(*board, x + dx - 1, y + dy - 1),
{
    if (dx == 0 && x == 0) || (dy == 0 && y == 0) {
        return 0;
    }
    proof {
        let w = board.spec_width();
        let h = board.spec_height();
        assert(w <= w * h && h <= w * h) by (nonlinear_arith)
            requires
                w > 0,
                h > 0,
        ;
    }
    let nx = if dx == 0 {
        x - 1
    } else {
        x + (dx - 1)
    };
    let ny = if dy == 0 {
        y - 1
    } else {
        y + (dy - 1)
    };
    if nx >= board.get_width() || ny >= board.get_height() {
        return 0;
    }
    if board.get(nx, ny).value == TileValue::Bomb {
        1
    } else {
        0
    }
}

/// Writes into every safe tile the number of bombs around it.
fn calculate_neighbors(board: &mut Board<Tile>)
    requires
        old(board).wf(),
    ensures
        final(board).wf(),
        same_bombs(*old(board), *final(board)),
        forall|i: int|
            0 <= i < old(board).cells().len() ==> (#[trigger] final(board).cells()[i]).state
                == old(board).cells()[i].state,
        counts_hold(*final(board)),
{
    let ghost start = *board;
    let width = board.get_width();
    let height = board.get_height();
    let mut y: usize = 0;
    while y < height
        invariant
            board.wf(),
            start.wf(),
            width == start.spec_width(),
            height == start.spec_height(),
            y <= height,
            same_bombs(start, *board),
            forall|i: int|
                0 <= i < start.cells().len() ==> (#[trigger] board.cells()[i]).state
                    == start.cells()[i].state,
            forall|px: int, py: int|
                #![trigger board.at(px, py)]
                board.in_bounds(px, py) && py < y && !(board.at(px, py).value is Bomb)
                    ==> board.at(px, py).value == TileValue::Safe(bombs_around(start, px, py) as u8),
        decreases height - y,
    {
        let mut x: usize = 0;
        while x < width
            invariant
                board.wf(),
                start.wf(),
                width == start.spec_width(),
                height == start.spec_height(),
                y < height,
                x <= width,
                same_bombs(start, *board),
                forall|i: int|
                    0 <= i < start.cells().len() ==> (#[trigger] board.cells()[i]).state
                        == start.cells()[i].state,
                forall|px: int, py: int|
                    #![trigger board.at(px, py)]
                    board.in_bounds(px, py) && (py < y || (py == y && px < x)) && !(board.at(
                        px,
                        py,
                    ).value is Bomb) ==> board.at(px, py).value == TileValue::Safe(
                        bombs_around(start, px, py) as u8,
                    ),
            decreases width - x,
        {
            if board.get(x, y).value != TileValue::Bomb {
                proof {
                    lemma_bombs_around_same(start, *board, x as int, y as int);
                }
                let count = bomb_near(board, x, y, 0, 0) + bomb_near(board, x, y, 1, 0)
                    + bomb_near(board, x, y, 2, 0) + bomb_near(board, x, y, 0, 1)
                    + bomb_near(board, x, y, 2, 1) + bomb_near(board, x, y, 0, 2)
                    + bomb_near(board, x, y, 1, 2) + bomb_near(board, x, y, 2, 2);
                let ghost before = *board;
                let tile = board.get_mut(x, y);
                tile.value = TileValue::Safe(count);
                proof {
                    before.lemma_index_in_range(x as int, y as int);
                    assert forall|px: int, py: int|
                        #![trigger board.at(px, py)]
                        board.in_bounds(px, py) && (px != x || py != y) implies board.at(px, py)
                        == before.at(px, py) by {
                        before.lemma_index_injective(px, py, x as int, y as int);
                        before.lemma_index_in_range(px, py);
                    }
                }
            }
            x = x + 1;
        }
        y = y + 1;
    }
    proof {
        assert forall|px: int, py: int|
            #![trigger board.at(px, py)]
            board.in_bounds(px, py) && !(board.at(px, py).value is Bomb) implies board.at(
                px,
                py,
            ).value == TileValue::Safe(bombs_around(*board, px, py) as u8) by {
            lemma_bombs_around_same(start, *board, px, py);
        }
    }
}

/// Where bombs may go anywhere, every cell may hold one.
proof fn lemma_eligible_everywhere(w: nat, n: nat)
    ensures
        eligible_upto(w, SafeZone::Nowhere, n).len() == n,
    decreases n,
{
    if n > 0 {
        lemma_eligible_everywhere(w, (n - 1) as nat);
    }
}

spec fn bombs_below(cells: Seq<Tile>, k: nat) -> Set<usize> {
    Set::new(|i: usize| i < k && cells[i as int].value is Bomb)
}

spec fn safes_below(cells: Seq<Tile>, k: nat) -> Set<usize> {
    Set::new(|i: usize| i < k && !(cells[i as int].value is Bomb))
}

proof fn lemma_tally_below(cells: Seq<Tile>, k: nat)
    requires
        k <= cells.len(),
        k <= usize::MAX + 1,
    ensures
        bombs_below(cells, k).finite(),
        safes_below(cells, k).finite(),
        bombs_below(cells, k).len() + safes_below(cells, k).len() == k,
    decreases k,
{
    if k == 0 {
        assert(bombs_below(cells, k) =~= Set::empty());
        assert(safes_below(cells, k) =~= Set::empty());
    } else {
        lemma_tally_below(cells, (k - 1) as nat);
        let i = (k - 1) as usize;
        if cells[i as int].value is Bomb {
            assert(bombs_below(cells, k) =~= bombs_below(cells, (k - 1) as nat).insert(i));
            assert(safes_below(cells, k) =~= safes_below(cells, (k - 1) as nat));
        } else {
            assert(bombs_below(cells, k) =~= bombs_below(cells, (k - 1) as nat));
            assert(safes_below(cells, k) =~= safes_below(cells, (k - 1) as nat).insert(i));
        }
    }
}

/// Why a minefield could not be laid out.
#[derive(Clone, Copy, Debug, PartialEq, Eq, Structural)]
pub enum PlacementError {
    /// More bombs were asked for than there are cells that may hold one.
    Infeasible,
}

/// A minefield: a grid of tiles whose bombs and counts are fixed when it is
/// laid out; only the tiles' states change afterwards.
///
/// Revealing a tile never opens its neighbours: cascading reveal is left to
/// the caller.
pub struct Game {
    board: Board<Tile>,
}

impl Game {
    pub closed spec fn grid(&self) -> Board<Tile> {
        self.board
    }

    pub open spec fn width(&self) -> nat {
        self.grid().spec_width()
    }

    pub open spec fn height(&self) -> nat {
        self.grid().spec_height()
    }

    pub open spec fn in_bounds(&self, x: int, y: int) -> bool {
        self.grid().in_bounds(x, y)
    }

    pub open spec fn tile(&self, x: int, y: int) -> Tile {
        self.grid().at(x, y)
    }

    pub open spec fn is_bomb(&self, x: int, y: int) -> bool {
        self.in_bounds(x, y) && self.tile(x, y).value is Bomb
    }

    /// The number of bombs among the neighbours of (`x`, `y`) inside the grid.
    pub open spec fn neighbor_bombs(&self, x: int, y: int) -> nat {
        bombs_around(self.grid(), x, y)
    }

    /// The grid is well formed and every safe tile holds its neighbour count.
    pub open spec fn wf(&self) -> bool {
        &&& self.grid().wf()
        &&& counts_hold(self.grid())
    }

    /// The row-major positions of the bombs.
    pub open spec fn mines(&self) -> Set<usize> {
        Set::new(
            |i: usize| i < self.grid().cells().len() && self.grid().cells()[i as int].value is Bomb,
        )
    }

    /// The row-major positions of the safe tiles.
    pub open spec fn safe_tiles(&self) -> Set<usize> {
        Set::new(
            |i: usize| i < self.grid().cells().len() && !(self.grid().cells()[i as int].value is Bomb),
        )
    }

    /// A laid-out minefield has exactly the bombs asked for, and every other
    /// tile is safe, with a count of at most eight.
    pub proof fn lemma_tally(&self, width: nat, height: nat, bombs: nat, zone: SafeZone)
        requires
            self.laid_out(width, height, bombs, zone),
        ensures
            self.mines().len() == bombs,
            self.safe_tiles().finite(),
            self.safe_tiles().len() == width * height - bombs,
            forall|x: int, y: int|
                #[trigger] self.in_bounds(x, y) && !self.is_bomb(x, y) ==> (self.tile(x, y).value matches
                    TileValue::Safe(n) && n <= 8),
    {
        let cells = self.grid().cells();
        lemma_tally_below(cells, cells.len());
        assert(self.mines() =~= bombs_below(cells, cells.len()));
        assert(self.safe_tiles() =~= safes_below(cells, cells.len()));
        assert forall|x: int, y: int|
            #[trigger] self.in_bounds(x, y) && !self.is_bomb(x, y) implies (self.tile(x, y).value matches
                TileValue::Safe(n) && n <= 8) by {
            self.lemma_count(x, y);
        }
    }

    /// Every safe tile holds the number of bombs among its neighbours, at most eight.
    pub proof fn lemma_count(&self, x: int, y: int)
        requires
            self.wf(),
            self.in_bounds(x, y),
            !self.is_bomb(x, y),
        ensures
            self.neighbor_bombs(x, y) <= 8,
            self.tile(x, y).value == TileValue::Safe(self.neighbor_bombs(x, y) as u8),
    {
    }

    /// A seeded minefield depends on its arguments alone: two built from the
    /// same arguments hold the same tiles.
    pub proof fn lemma_seeded_repeats(
        a: Game,
        b: Game,
        width: nat,
        height: nat,
        bombs: nat,
        zone: SafeZone,
        seed: u64,
    )
        requires
            a.laid_out(width, height, bombs, zone),
            b.laid_out(width, height, bombs, zone),
            a.mines() == Game::seeded_mines(width, height, bombs, zone, seed),
            b.mines() == Game::seeded_mines(width, height, bombs, zone, seed),
        ensures
            forall|x: int, y: int| #[trigger] a.in_bounds(x, y) ==> a.tile(x, y) == b.tile(x, y),
    {
        let ga = a.grid();
        let gb = b.grid();
        assert forall|i: int| 0 <= i < ga.cells().len() implies (#[trigger] ga.cells()[i].value is Bomb
            <==> gb.cells()[i].value is Bomb) by {
            assert(gb.cells().len() == ga.cells().len());
            assert(i as usize as int == i);
            assert(a.mines().contains(i as usize) == b.mines().contains(i as usize));
            assert(a.mines().contains(i as usize) <==> ga.cells()[i].value is Bomb);
            assert(b.mines().contains(i as usize) <==> gb.cells()[i].value is Bomb);
        }
        assert forall|x: int, y: int| #[trigger] a.in_bounds(x, y) implies a.tile(x, y) == b.tile(x, y) by {
            ga.lemma_index_in_range(x, y);
            lemma_bombs_around_same(ga, gb, x, y);
            assert(a.in_bounds(x, y) && b.in_bounds(x, y));
        }
    }

    /// No tile has been opened or flagged yet.
    pub open spec fn untouched(&self) -> bool {
        forall|x: int, y: int|
            #[trigger] self.in_bounds(x, y) ==> self.tile(x, y).state == TileState::Hidden
    }

    /// A fresh minefield of the given size with `bombs` bombs, none of them
    /// where `zone` forbids one.
    pub open spec fn laid_out(&self, width: nat, height: nat, bombs: nat, zone: SafeZone) -> bool {
        &&& self.wf()
        &&& self.width() == width
        &&& self.height() == height
        &&& self.untouched()
        &&& self.mines().finite()
        &&& self.mines().len() == bombs
        &&& forall|x: int, y: int| #[trigger] self.is_bomb(x, y) ==> zone.permits(x, y)
    }

    /// `next` is this minefield with the tile at (`x`, `y`) replaced by `t`.
    pub open spec fn with_tile(&self, next: Game, x: int, y: int, t: Tile) -> bool {
        &&& next.width() == self.width()
        &&& next.height() == self.height()
        &&& next.tile(x, y) == t
        &&& forall|px: int, py: int|
            #![trigger next.tile(px, py)]
            self.in_bounds(px, py) && (px != x || py != y) ==> next.tile(px, py) == self.tile(px, py)
    }

    /// The layout of a seeded minefield: the bombs that the draws of a
    /// generator seeded with `seed` put down.
    pub open spec fn seeded_mines(
        width: nat,
        height: nat,
        bombs: nat,
        zone: SafeZone,
        seed: u64,
    ) -> Set<usize> {
        let cells = eligible(width, height, zone);
        picks(cells, seeded_draws_of(seed, draw_bounds(cells.len(), bombs))).to_set()
    }

    /// Lays out a `width` by `height` minefield with `bombs` bombs anywhere.
    pub fn new(width: usize, height: usize, bombs: usize) -> (r: Result<Game, PlacementError>)
        requires
            width * height <= usize::MAX,
        ensures
            r is Err <==> bombs > width * height,
            r matches Err(e) ==> e == PlacementError::Infeasible,
            r matches Ok(g) ==> g.laid_out(width as nat, height as nat, bombs as nat, SafeZone::Nowhere),
    {
        proof {
            lemma_eligible_everywhere(width as nat, (width * height) as nat);
        }
        Self::new_with(width, height, bombs, SafeZone::Nowhere, None)
    }

    /// Lays out a minefield with no bomb on (`cx`, `cy`), so that a first
    /// click there is safe.
    pub fn new_safe(width: usize, height: usize, bombs: usize, cx: usize, cy: usize) -> (r: Result<
        Game,
        PlacementError,
    >)
        requires
            width * height <= usize::MAX,
        ensures
            r is Err <==> bombs > eligible(width as nat, height as nat, SafeZone::Cell(cx, cy)).len(),
            r matches Err(e) ==> e == PlacementError::Infeasible,
            r matches Ok(g) ==> g.laid_out(
                width as nat,
                height as nat,
                bombs as nat,
                SafeZone::Cell(cx, cy),
            ),
            r matches Ok(g) ==> !g.is_bomb(cx as int, cy as int),
    {
        Self::new_with(width, height, bombs, SafeZone::Cell(cx, cy), None)
    }

    /// Lays out a minefield with no bomb on (`cx`, `cy`) or next to it, so
    /// that a first click there opens a tile with no bomb around it.
    pub fn new_safe_zero(width: usize, height: usize, bombs: usize, cx: usize, cy: usize) -> (r:
        Result<Game, PlacementError>)
        requires
            width * height <= usize::MAX,
        ensures
            r is Err <==> bombs > eligible(width as nat, height as nat, SafeZone::Around(cx, cy)).len(),
            r matches Err(e) ==> e == PlacementError::Infeasible,
            r matches Ok(g) ==> g.laid_out(
                width as nat,
                height as nat,
                bombs as nat,
                SafeZone::Around(cx, cy),
            ),
            r matches Ok(g) ==> g.clear_around(cx as int, cy as int),
    {
        let r = Self::new_with(width, height, bombs, SafeZone::Around(cx, cy), None);
        proof {
            if r is Ok {
                let g = r->Ok_0;
                g.lemma_clear_around(cx as int, cy as int);
            }
        }
        r
    }

    /// As `new_safe_zero`, with the bombs drawn by a generator seeded with
    /// `seed`: the same arguments always give the same minefield.
    pub fn new_safe_zero_seeded(
        width: usize,
        height: usize,
        bombs: usize,
        cx: usize,
        cy: usize,
        seed: u64,
    ) -> (r: Result<Game, PlacementError>)
        requires
            width * height <= usize::MAX,
        ensures
            r is Err <==> bombs > eligible(width as nat, height as nat, SafeZone::Around(cx, cy)).len(),
            r matches Err(e) ==> e == PlacementError::Infeasible,
            r matches Ok(g) ==> g.laid_out(
                width as nat,
                height as nat,
                bombs as nat,
                SafeZone::Around(cx, cy),
            ),
            r matches Ok(g) ==> g.clear_around(cx as int, cy as int),
            r matches Ok(g) ==> g.mines() == Game::seeded_mines(
                width as nat,
                height as nat,
                bombs as nat,
                SafeZone::Around(cx, cy),
                seed,
            ),
    {
        let r = Self::new_with(width, height, bombs, SafeZone::Around(cx, cy), Some(seed));
        proof {
            if r is Ok {
                let g = r->Ok_0;
                g.lemma_clear_around(cx as int, cy as int);
            }
        }
        r
    }

    fn new_with(width: usize, height: usize, bombs: usize, zone: SafeZone, seed: Option<u64>) -> (r:
        Result<Game, PlacementError>)
        requires
            width * height <= usize::MAX,
        ensures
            r is Err <==> bombs > eligible(width as nat, height as nat, zone).len(),
            r matches Err(e) ==> e == PlacementError::Infeasible,
            r matches Ok(g) ==> g.laid_out(width as nat, height as nat, bombs as nat, zone),
            seed matches Some(s) ==> (r matches Ok(g) ==> g.mines() == Game::seeded_mines(
                width as nat,
                height as nat,
                bombs as nat,
                zone,
                s,
            )),
    {
        let free = capacity(width, height, zone);
        if bombs > free {
            return Err(PlacementError::Infeasible);
        }
        let bounds = bounds_for(free, bombs);
        let draws = match seed {
            Some(s) => seeded_draws(s, &bounds),
            None => entropy_draws(&bounds),
        };
        Ok(Game::from_draws(width, height, zone, &draws))
    }

    /// No bomb on (`cx`, `cy`) or next to it, and the tile there, if inside
    /// the grid, counts no bomb around it.
    pub open spec fn clear_around(&self, cx: int, cy: int) -> bool {
        &&& forall|x: int, y: int|
            cx - 1 <= x <= cx + 1 && cy - 1 <= y <= cy + 1 ==> !#[trigger] self.is_bomb(x, y)
        &&& self.in_bounds(cx, cy) ==> self.tile(cx, cy).value == TileValue::Safe(0)
    }

    proof fn lemma_clear_around(&self, cx: int, cy: int)
        requires
            self.wf(),
            forall|x: int, y: int|
                #[trigger] self.is_bomb(x, y) ==> SafeZone::Around(cx as usize, cy as usize).permits(
                    x,
                    y,
                ),
            0 <= cx <= usize::MAX,
            0 <= cy <= usize::MAX,
        ensures
            self.clear_around(cx, cy),
    {
        assert forall|x: int, y: int|
            cx - 1 <= x <= cx + 1 && cy - 1 <= y <= cy + 1 implies !#[trigger] self.is_bomb(x, y) by {
            if self.is_bomb(x, y) {
                assert(SafeZone::Around(cx as usize, cy as usize).permits(x, y));
            }
        }
        assert(!self.is_bomb(cx - 1, cy - 1));
        assert(!self.is_bomb(cx, cy - 1));
        assert(!self.is_bomb(cx + 1, cy - 1));
        assert(!self.is_bomb(cx - 1, cy));
        assert(!self.is_bomb(cx, cy));
        assert(!self.is_bomb(cx + 1, cy));
        assert(!self.is_bomb(cx - 1, cy + 1));
        assert(!self.is_bomb(cx, cy + 1));
        assert(!self.is_bomb(cx + 1, cy + 1));
    }

    /// Replaces the tile at (`x`, `y`) by one with the same value.
    fn restate(&mut self, x: usize, y: usize, state: TileState)
        requires
            old(self).wf(),
            old(self).in_bounds(x as int, y as int),
        ensures
            final(self).wf(),
            old(self).with_tile(
                *final(self),
                x as int,
                y as int,
                Tile { value: old(self).tile(x as int, y as int).value, state },
            ),
    {
        let ghost before = self.board;
        let value = self.board.get(x, y).value;
        self.board.set(x, y, Tile::new(value, state));
        proof {
            before.lemma_index_in_range(x as int, y as int);
            assert forall|px: int, py: int|
                #![trigger self.board.at(px, py)]
                before.in_bounds(px, py) && (px != x || py != y) implies self.board.at(px, py)
                == before.at(px, py) by {
                before.lemma_index_injective(px, py, x as int, y as int);
                before.lemma_index_in_range(px, py);
            }
            assert forall|i: int| 0 <= i < before.cells().len() implies (#[trigger] before.cells()[i].value
                is Bomb <==> self.board.cells()[i].value is Bomb) by {
                if i == before.index_of(x as int, y as int) {
                }
            }
            assert forall|px: int, py: int|
                #![trigger self.board.at(px, py)]
                self.board.in_bounds(px, py) && !(self.board.at(px, py).value is Bomb) implies self.board.at(
                px,
                py,
            ).value == TileValue::Safe(bombs_around(self.board, px, py) as u8) by {
                lemma_bombs_around_same(before, self.board, px, py);
                assert(before.at(px, py).value == self.board.at(px, py).value);
            }
        }
    }

    /// Opens the tile at (`x`, `y`) if it is hidden and returns its value;
    /// a flagged or open tile is left as it is and nothing is returned.
    pub fn uncover(&mut self, x: usize, y: usize) -> (r: Option<TileValue>)
        requires
            old(self).wf(),
            old(self).in_bounds(x as int, y as int),
        ensures
            final(self).wf(),
            old(self).with_tile(
                *final(self),
                x as int,
                y as int,
                revealed(old(self).tile(x as int, y as int)).0,
            ),
            r == revealed(old(self).tile(x as int, y as int)).1,
    {
        let tile = *self.board.get(x, y);
        match tile.state {
            TileState::Hidden => self.restate(x, y, TileState::Open),
            _ => {
                proof {
                    self.board.lemma_index_in_range(x as int, y as int);
                }
                return None;
            },
        }
        Some(tile.value)
    }

    /// Toggles the flag on the tile at (`x`, `y`); an open tile is left as it is.
    pub fn flag(&mut self, x: usize, y: usize)
        requires
            old(self).wf(),
            old(self).in_bounds(x as int, y as int),
        ensures
            final(self).wf(),
            old(self).with_tile(
                *final(self),
                x as int,
                y as int,
                toggled(old(self).tile(x as int, y as int)),
            ),
    {
        let tile = *self.board.get(x, y);
        match tile.state {
            TileState::Flag => self.restate(x, y, TileState::Hidden),
            TileState::Hidden => self.restate(x, y, TileState::Flag),
            TileState::Open => {},
        }
    }

    /// Flags the tile at (`x`, `y`) when `flag` holds and unflags it
    /// otherwise; an open tile is left as it is.
    pub fn set_flag(&mut self, x: usize, y: usize, flag: bool)
        requires
            old(self).wf(),
            old(self).in_bounds(x as int, y as int),
        ensures
            final(self).wf(),
            old(self).with_tile(
                *final(self),
                x as int,
                y as int,
                flag_set(old(self).tile(x as int, y as int), flag),
            ),
    {
        let tile = *self.board.get(x, y);
        if tile.state == TileState::Open {
            return;
        }
        self.restate(x, y, if flag {
            TileState::Flag
        } else {
            TileState::Hidden
        });
    }

    /// The state of the tile at (`x`, `y`), and its value if it is open.
    pub fn get(&self, x: usize, y: usize) -> (r: (&TileState, Option<&TileValue>))
        requires
            self.wf(),
            self.in_bounds(x as int, y as int),
        ensures
            *r.0 == shown(self.tile(x as int, y as int)).0,
            r.1 is Some <==> shown(self.tile(x as int, y as int)).1 is Some,
            r.1 matches Some(v) ==> Some(*v) == shown(self.tile(x as int, y as int)).1,
    {
        let tile = self.board.get(x, y);
        let value = if tile.state == TileState::Open {
            Some(&tile.value)
        } else {
            None
        };
        (&tile.state, value)
    }

    pub fn get_width(&self) -> (r: usize)
        ensures
            r == self.width(),
    {
        self.board.get_width()
    }

    pub fn get_height(&self) -> (r: usize)
        ensures
            r == self.height(),
    {
        self.board.get_height()
    }

    /// Lays out a minefield from the given draws: draw `k` puts a bomb on the
    /// cell at that position among the cells that may hold a bomb and do not
    /// hold one yet, in row-major order.
    pub fn from_draws(width: usize, height: usize, zone: SafeZone, draws: &Vec<usize>) -> (r: Game)
        requires
            width * height <= usize::MAX,
            draws_fit(eligible(width as nat, height as nat, zone).len(), draws@),
        ensures
            r.laid_out(width as nat, height as nat, draws@.len(), zone),
            r.mines() == picks(eligible(width as nat, height as nat, zone), draws@).to_set(),
    {
        let mut board = Board::<Tile>::new(width, height);
        let mut pool = eligible_cells(width, height, zone);
        let ghost start = pool@;
        let ghost mut picked: Seq<usize> = seq![];
        let ghost n = width * height;
        let mut k: usize = 0;
        assert(draws@.take(0) =~= seq![]);
        while k < draws.len()
            invariant
                board.wf(),
                board.spec_width() == width,
                board.spec_height() == height,
                n == width * height,
                k <= draws@.len(),
                start == eligible(width as nat, height as nat, zone),
                draws_fit(start.len(), draws@),
                pool@ == pool_after(start, draws@.take(k as int)),
                picked == picks(start, draws@.take(k as int)),
                pool@.len() + k == start.len(),
                picked.len() == k,
                pool@.no_duplicates(),
                picked.no_duplicates(),
                forall|j: int|
                    0 <= j < pool@.len() ==> #[trigger] pool@[j] < n && zone.permits(
                        (pool@[j] as int) % (width as int),
                        (pool@[j] as int) / (width as int),
                    ),
                forall|j: int|
                    0 <= j < picked.len() ==> #[trigger] picked[j] < n && zone.permits(
                        (picked[j] as int) % (width as int),
                        (picked[j] as int) / (width as int),
                    ),
                forall|a: int| 0 <= a < pool@.len() ==> !picked.contains(#[trigger] pool@[a]),
                forall|i: int|
                    0 <= i < n ==> (#[trigger] board.cells()[i]).state == TileState::Hidden && (
                    board.cells()[i].value is Bomb <==> picked.contains(i as usize)),
            decreases draws@.len() - k,
        {
            let r = draws[k];
            assert(draws@[k as int] + k < start.len());
            let p = pool.remove(r);
            proof {
                lemma_cell_of(width as int, height as int, p as int);
            }
            let x = p % width;
            let y = p / width;
            let ghost before = board;
            board.set(x, y, Tile::new(TileValue::Bomb, TileState::Hidden));
            proof {
                let old_pool = pool_after(start, draws@.take(k as int));
                assert(draws@.take(k + 1).drop_last() =~= draws@.take(k as int));
                assert(draws@.take(k + 1).last() == r);
                assert(old_pool[r as int] == p);
                assert forall|j: int| 0 <= j < pool@.len() implies #[trigger] pool@[j] == (if j
                    < r {
                    old_pool[j]
                } else {
                    old_pool[j + 1]
                }) by {}
                assert(pool@.no_duplicates()) by {
                    assert forall|a: int, b: int|
                        0 <= a < pool@.len() && 0 <= b < pool@.len() && a != b implies pool@[a]
                        != pool@[b] by {
                        let a2 = if a < r {
                            a
                        } else {
                            a + 1
                        };
                        let b2 = if b < r {
                            b
                        } else {
                            b + 1
                        };
                        assert(pool@[a] == old_pool[a2]);
                        assert(pool@[b] == old_pool[b2]);
                    }
                }
                let old_picked = picked;
                picked = picked.push(p);
                assert(!old_picked.contains(p));
                assert forall|a: int| 0 <= a < pool@.len() implies !picked.contains(
                    #[trigger] pool@[a],
                ) by {
                    let a2 = if a < r {
                        a
                    } else {
                        a + 1
                    };
                    assert(pool@[a] == old_pool[a2]);
                    assert(!old_picked.contains(old_pool[a2]));
                    if picked.contains(pool@[a]) {
                        let t = choose|t: int| 0 <= t < picked.len() && picked[t] == pool@[a];
                        if t < old_picked.len() {
                            assert(old_picked[t] == pool@[a]);
                        }
                    }
                }
                assert forall|i: int| 0 <= i < n implies (#[trigger] board.cells()[i]).state
                    == TileState::Hidden && (board.cells()[i].value is Bomb <==> picked.contains(
                    i as usize,
                )) by {
                    if i != p {
                        assert(board.cells()[i] == before.cells()[i]);
                        if picked.contains(i as usize) {
                            let t = choose|t: int| 0 <= t < picked.len() && picked[t] == i as usize;
                            if t < old_picked.len() {
                                assert(old_picked[t] == i as usize);
                            }
                        }
                        if old_picked.contains(i as usize) {
                            let t = choose|t: int|
                                0 <= t < old_picked.len() && old_picked[t] == i as usize;
                            assert(picked[t] == i as usize);
                        }
                    } else {
                        assert(picked[k as int] == p);
                    }
                }
            }
            k = k + 1;
        }
        let ghost placed = board;
        calculate_neighbors(&mut board);
        let g = Game { board };
        proof {
            assert(draws@.take(k as int) =~= draws@);
            assert(g.mines() =~= picked.to_set()) by {
                assert forall|i: usize| g.mines().contains(i) implies picked.to_set().contains(i) by {
                    assert(placed.cells()[i as int].value is Bomb);
                }
                assert forall|i: usize| picked.to_set().contains(i) implies g.mines().contains(i) by {
                    let t = choose|t: int| 0 <= t < picked.len() && picked[t] == i;
                    assert(picked[t] < n);
                    assert(placed.cells()[i as int].value is Bomb);
                }
            }
            picked.unique_seq_to_set();
            assert forall|x: int, y: int| #[trigger] g.in_bounds(x, y) implies g.tile(x, y).state
                == TileState::Hidden by {
                placed.lemma_index_in_range(x, y);
            }
            assert forall|x: int, y: int| #[trigger] g.is_bomb(x, y) implies zone.permits(x, y) by {
                placed.lemma_index_in_range(x, y);
                let i = x + y * width;
                assert(placed.cells()[i].value is Bomb);
                let t = choose|t: int| 0 <= t < picked.len() && picked[t] == i as usize;
                assert(picked[t] == i);
                vstd::arithmetic::div_mod::lemma_fundamental_div_mod_converse(i, width as int, y, x);
            }
        }
        g
    }
}

} // verus!
