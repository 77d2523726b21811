use vstd::prelude::*;

use rand::Rng;
use rand::SeedableRng;

verus! {

/// Where bombs may not be placed.
#[derive(Clone, Copy, Debug, PartialEq, Eq, Structural)]
pub enum SafeZone {
    /// Bombs may go anywhere.
    Nowhere,
    /// No bomb on the given cell.
    Cell(usize, usize),
    /// No bomb on the given cell or any of its eight neighbours.
    Around(usize, usize),
}

impl SafeZone {
    /// Whether a bomb may be placed on (`x`, `y`).
    pub open spec fn permits(self, x: int, y: int) -> bool {
        match self {
            SafeZone::Nowhere => true,
            SafeZone::Cell(cx, cy) => x != cx || y != cy,
            SafeZone::Around(cx, cy) => x < cx - 1 || x > cx + 1 || y < cy - 1 || y > cy + 1,
        }
    }

    pub fn allows(&self, x: usize, y: usize) -> (r: bool)
        ensures
            r == self.permits(x as int, y as int),
    {
        match *self {
            SafeZone::Nowhere => true,
            SafeZone::Cell(cx, cy) => x != cx || y != cy,
            SafeZone::Around(cx, cy) => {
                let dx = if x > cx {
                    x - cx
                } else {
                    cx - x
                };
                let dy = if y > cy {
                    y - cy
                } else {
                    cy - y
                };
                dx > 1 || dy > 1
            },
        }
    }
}

/// Position `i` of a row-major grid `w` cells wide is column `i % w` of row `i / w`.
pub proof fn lemma_cell_of(w: int, h: int, i: int)
    requires
        0 < w,
        0 <= i < w * h,
    ensures
        0 <= i % w < w,
        0 <= i / w < h,
        i == i % w + (i / w) * w,
{
    vstd::arithmetic::div_mod::lemma_fundamental_div_mod(i, w);
    vstd::arithmetic::div_mod::lemma_mod_pos_bound(i, w);
    vstd::arithmetic::div_mod::lemma_multiply_divide_lt(i, w, h);
    vstd::arithmetic::mul::lemma_mul_is_commutative(w, i / w);
    assert(0 <= i / w) by (nonlinear_arith)
        requires
            0 <= i,
            0 < w,
    ;
}

/// The positions below `n`, in increasing order, whose cells in a grid `w`
/// cells wide may hold a bomb.
pub open spec fn eligible_upto(w: nat, zone: SafeZone, n: nat) -> Seq<usize>
    decreases n,
{
    if n == 0 {
        seq![]
    } else {
        let i = n - 1;
        let before = eligible_upto(w, zone, (n - 1) as nat);
        if zone.permits(i % (w as int), i / (w as int)) {
            before.push(i as usize)
        } else {
            before
        }
    }
}

/// The positions of a `width` by `height` grid that may hold a bomb, in increasing order.
pub open spec fn eligible(width: nat, height: nat, zone: SafeZone) -> Seq<usize> {
    eligible_upto(width, zone, width * height)
}

/// The positions of a `width` by `height` grid that may hold a bomb.
pub fn eligible_cells(width: usize, height: usize, zone: SafeZone) -> (r: Vec<usize>)
    requires
        width * height <= usize::MAX,
    ensures
        r@ == eligible(width as nat, height as nat, zone),
        r@.no_duplicates(),
        forall|j: int|
            0 <= j < r@.len() ==> #[trigger] r@[j] < width * height && zone.permits(
                (r@[j] as int) % (width as int),
                (r@[j] as int) / (width as int),
            ),
{
    let mut cells: Vec<usize> = Vec::new();
    if width == 0 || height == 0 {
        assert(width * height == 0) by (nonlinear_arith)
            requires
                width == 0 || height == 0,
        ;
        return cells;
    }
    let n = width * height;
    let mut i: usize = 0;
    while i < n
        invariant
            0 < width,
            n == width * height,
            i <= n,
            cells@ == eligible_upto(width as nat, zone, i as nat),
            cells@.no_duplicates(),
            forall|j: int|
                0 <= j < cells@.len() ==> #[trigger] cells@[j] < i && zone.permits(
                    (cells@[j] as int) % (width as int),
                    (cells@[j] as int) / (width as int),
                ),
        decreases n - i,
    {
        if zone.allows(i % width, i / width) {
            cells.push(i);
        }
        i = i + 1;
    }
    cells
}

/// How many cells of a `width` by `height` grid may hold a bomb.
pub fn capacity(width: usize, height: usize, zone: SafeZone) -> (r: usize)
    requires
        width * height <= usize::MAX,
    ensures
        r == eligible(width as nat, height as nat, zone).len(),
{
    eligible_cells(width, height, zone).len()
}

/// The cells still free after each draw has taken, from those free before it,
/// the one at the drawn position.
pub open spec fn pool_after(start: Seq<usize>, draws: Seq<usize>) -> Seq<usize>
    decreases draws.len(),
{
    if draws.len() == 0 {
        start
    } else {
        pool_after(start, draws.drop_last()).remove(draws.last() as int)
    }
}

/// The cells taken by the draws, in the order they were taken.
pub open spec fn picks(start: Seq<usize>, draws: Seq<usize>) -> Seq<usize>
    decreases draws.len(),
{
    if draws.len() == 0 {
        seq![]
    } else {
        picks(start, draws.drop_last()).push(
            pool_after(start, draws.drop_last())[draws.last() as int],
        )
    }
}

/// Each draw is a position among the cells still free when it is made.
pub open spec fn draws_fit(free: nat, draws: Seq<usize>) -> bool {
    forall|k: int| 0 <= k < draws.len() ==> #[trigger] draws[k] + k < free
}

/// The bounds of `count` successive draws from `free` cells.
pub open spec fn draw_bounds(free: nat, count: nat) -> Seq<usize> {
    Seq::new(count, |k: int| (free - k) as usize)
}

/// What a generator seeded with `seed` yields when asked, in turn, for one
/// value below each of `bounds`.
pub uninterp spec fn seeded_draws_of(seed: u64, bounds: Seq<usize>) -> Seq<usize>;

/// Relies on `rand::thread_rng` and `rand::Rng::gen_range`: one value per
/// bound, each below its bound.
#[verifier::external_body]
pub(crate) fn entropy_draws(bounds: &Vec<usize>) -> (r: Vec<usize>)
    requires
        forall|k: int| 0 <= k < bounds@.len() ==> #[trigger] bounds@[k] > 0,
    ensures
        r@.len() == bounds@.len(),
        forall|k: int| 0 <= k < r@.len() ==> #[trigger] r@[k] < bounds@[k],
{
    let mut rng = rand::thread_rng();
    bounds.iter().map(|&b| rng.gen_range(0..b as u64) as usize).collect()
}

/// Relies on `rand::rngs::StdRng::seed_from_u64` and `rand::Rng::gen_range`:
/// one value per bound, each below its bound; the values depend on the seed
/// and the bounds alone.
#[verifier::external_body]
pub(crate) fn seeded_draws(seed: u64, bounds: &Vec<usize>) -> (r: Vec<usize>)
    requires
        forall|k: int| 0 <= k < bounds@.len() ==> #[trigger] bounds@[k] > 0,
    ensures
        r@ == seeded_draws_of(seed, bounds@),
        r@.len() == bounds@.len(),
        forall|k: int| 0 <= k < r@.len() ==> #[trigger] r@[k] < bounds@[k],
{
    let mut rng = rand::rngs::StdRng::seed_from_u64(seed);
    bounds.iter().map(|&b| rng.gen_range(0..b as u64) as usize).collect()
}

/// The bounds of `count` successive draws from `free` cells: `free`, `free - 1`, ...
pub fn bounds_for(free: usize, count: usize) -> (r: Vec<usize>)
    requires
        count <= free,
    ensures
        r@ == draw_bounds(free as nat, count as nat),
{
    let mut bounds: Vec<usize> = Vec::new();
    let mut k: usize = 0;
    while k < count
        invariant
            k <= count <= free,
            bounds@ =~= draw_bounds(free as nat, k as nat),
        decreases count - k,
    {
        bounds.push(free - k);
        k = k + 1;
    }
    bounds
}

} // verus!
