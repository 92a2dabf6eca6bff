use vstd::prelude::*;
use crate::arena::{count_live, lemma_count_update, lemma_prev_live, prev_live, Tiers};
use crate::tile::{Location, Tier};

verus! {

pub const HEIGHT: i16 = 20;
pub const WIDTH: i16 = 80;

/// Number of cells on the board.
pub const CELLS: usize = 1600;

pub open spec fn in_range(p: (i16, i16)) -> bool {
    0 <= p.0 < HEIGHT && 0 <= p.1 < WIDTH
}

pub open spec fn cell_index(p: (i16, i16)) -> int {
    p.0 * WIDTH + p.1
}

pub proof fn lemma_cell_index(p: (i16, i16), q: (i16, i16))
    requires
        in_range(p),
        in_range(q),
    ensures
        0 <= cell_index(p) < CELLS,
        cell_index(p) == cell_index(q) ==> p == q,
{
    assert(0 <= cell_index(p) < CELLS) by (nonlinear_arith)
        requires
            0 <= p.0 < 20,
            0 <= p.1 < 80,
    ;
    assert(cell_index(p) == cell_index(q) ==> p.0 == q.0) by (nonlinear_arith)
        requires
            0 <= p.0 < 20,
            0 <= p.1 < 80,
            0 <= q.0 < 20,
            0 <= q.1 < 80,
    ;
}

/// A grid of tile stacks, toroidal in both directions.
pub struct Board {
    cells: Vec<Tiers>,
}

impl Board {
    pub closed spec fn cells(&self) -> Seq<Tiers> {
        self.cells@
    }

    pub open spec fn wf(&self) -> bool {
        &&& self.cells().len() == CELLS
        &&& forall|i: int| 0 <= i < CELLS ==> #[trigger] self.cells()[i].wf()
    }

    /// The stack at a cell, as a sequence of slots.
    pub open spec fn cell(&self, p: (i16, i16)) -> Seq<Option<Tier>> {
        self.cells()[cell_index(p)]@
    }

    /// Number of tiles stacked at a cell.
    pub open spec fn depth(&self, p: (i16, i16)) -> nat {
        count_live(self.cell(p))
    }

    /// The tile stored at a location, if that slot is live.
    pub open spec fn tile(&self, l: Location) -> Option<Tier> {
        if in_range((l.0, l.1)) && l.2 < self.cell((l.0, l.1)).len() {
            self.cell((l.0, l.1))[l.2 as int]
        } else {
            None
        }
    }

    /// The glyph drawn for a cell.
    pub open spec fn glyph_at(&self, p: (i16, i16)) -> char {
        self.cells()[cell_index(p)].glyph_spec()
    }

    pub fn new() -> (r: Self)
        ensures
            r.wf(),
            forall|l: Location| #[trigger] r.tile(l) is None,
    {
        let mut cells: Vec<Tiers> = Vec::new();
        let mut i: usize = 0;
        while i < CELLS
            invariant
                i <= CELLS,
                cells@.len() == i,
                forall|j: int| 0 <= j < i ==> (#[trigger] cells@[j]).wf() && cells@[j]@.len() == 0,
            decreases CELLS - i,
        {
            cells.push(Tiers::new());
            i = i + 1;
        }
        let r = Board { cells };
        assert(r.cells() == cells@);
        assert forall|q: (i16, i16)| in_range(q) implies #[trigger] r.cell(q).len() == 0 by {
            lemma_cell_index(q, q);
        }
        assert forall|l: Location| #[trigger] r.tile(l) is None by {
            if in_range((l.0, l.1)) {
                lemma_cell_index((l.0, l.1), (l.0, l.1));
            }
        }
        r
    }

    /// The glyph of every cell, row by row.
    pub fn glyphs(&self) -> (r: Vec<char>)
        requires
            self.wf(),
        ensures
            r@.len() == CELLS,
            forall|q: (i16, i16)| in_range(q) ==> #[trigger] r@[cell_index(q)] == self.glyph_at(q),
    {
        let mut r: Vec<char> = Vec::new();
        let mut i: usize = 0;
        while i < CELLS
            invariant
                i <= CELLS,
                self.wf(),
                r@.len() == i,
                forall|j: int| 0 <= j < i ==> #[trigger] r@[j] == self.cells()[j].glyph_spec(),
            decreases CELLS - i,
        {
            r.push(self.cells[i].glyph());
            i = i + 1;
        }
        assert forall|q: (i16, i16)| in_range(q) implies #[trigger] r@[cell_index(q)] == self.glyph_at(q) by {
            lemma_cell_index(q, q);
        }
        r
    }

}

/// The stack at an in-range cell.
pub fn get(board: &Board, p: (i16, i16)) -> (r: &Tiers)
    requires
        board.wf(),
        in_range(p),
    ensures
        r.wf(),
        r@ == board.cell(p),
{
    proof {
        lemma_cell_index(p, p);
    }
    &board.cells[(p.0 as usize) * (WIDTH as usize) + (p.1 as usize)]
}

/// Pushes a tile on top of an in-range cell and returns its slot.
pub fn push(board: &mut Board, p: (i16, i16), tier: Tier) -> (slot: usize)
    requires
        old(board).wf(),
        in_range(p),
    ensures
        final(board).wf(),
        slot == old(board).cell(p).len(),
        old(board).tile((p.0, p.1, slot)) is None,
        forall|q: (i16, i16)| in_range(q) ==> #[trigger] final(board).cell(q) == if q == p {
            old(board).cell(p).push(Some(tier))
        } else {
            old(board).cell(q)
        },
        forall|l: Location| #[trigger] final(board).tile(l) == if l == (p.0, p.1, slot) {
            Some(tier)
        } else {
            old(board).tile(l)
        },
{
    proof {
        lemma_cell_index(p, p);
    }
    let idx = (p.0 as usize) * (WIDTH as usize) + (p.1 as usize);
    let mut cell = Tiers::new();
    std::mem::swap(&mut cell, &mut board.cells[idx]);
    let slot = cell.push_back(tier);
    std::mem::swap(&mut cell, &mut board.cells[idx]);
    proof {
        lemma_cell_index(p, p);
        assert forall|q: (i16, i16)| in_range(q) implies #[trigger] board.cell(q) == if q == p {
            old(board).cell(p).push(Some(tier))
        } else {
            old(board).cell(q)
        } by {
            lemma_cell_index(p, q);
        }
        assert forall|l: Location| #[trigger] board.tile(l) == if l == (p.0, p.1, slot) {
            Some(tier)
        } else {
            old(board).tile(l)
        } by {
            if in_range((l.0, l.1)) {
                lemma_cell_index(p, (l.0, l.1));
            }
        }
    }
    slot
}

} // verus!
verus! {

/// The tile at a live location.
pub fn get_tier(board: &Board, l: Location) -> (r: Tier)
    requires
        board.wf(),
        board.tile(l) is Some,
    ensures
        board.tile(l) == Some(r),
{
    proof {
        lemma_cell_index((l.0, l.1), (l.0, l.1));
    }
    get(board, (l.0, l.1)).get(l.2)
}

/// Overwrites the tile at a live location in place.
pub fn set_tier(board: &mut Board, l: Location, tier: Tier)
    requires
        old(board).wf(),
        old(board).tile(l) is Some,
    ensures
        final(board).wf(),
        forall|q: (i16, i16)| in_range(q) ==> #[trigger] final(board).cell(q) == if q == (l.0, l.1) {
            old(board).cell(q).update(l.2 as int, Some(tier))
        } else {
            old(board).cell(q)
        },
        forall|m: Location| #[trigger] final(board).tile(m) == if m == l {
            Some(tier)
        } else {
            old(board).tile(m)
        },
{
    let p = (l.0, l.1);
    proof {
        lemma_cell_index(p, p);
    }
    let idx = (l.0 as usize) * (WIDTH as usize) + (l.1 as usize);
    let mut cell = Tiers::new();
    std::mem::swap(&mut cell, &mut board.cells[idx]);
    cell.set(l.2, tier);
    std::mem::swap(&mut cell, &mut board.cells[idx]);
    proof {
        assert forall|q: (i16, i16)| in_range(q) implies #[trigger] board.cell(q) == if q == p {
            old(board).cell(q).update(l.2 as int, Some(tier))
        } else {
            old(board).cell(q)
        } by {
            lemma_cell_index(p, q);
        }
        assert forall|m: Location| #[trigger] board.tile(m) == if m == l {
            Some(tier)
        } else {
            old(board).tile(m)
        } by {
            if in_range((m.0, m.1)) {
                lemma_cell_index(p, (m.0, m.1));
            }
        }
    }
}

/// Removes the tile at a live location; every other location stays valid.
pub fn delete_tier(board: &mut Board, l: Location)
    requires
        old(board).wf(),
        old(board).tile(l) is Some,
    ensures
        final(board).wf(),
        forall|q: (i16, i16)| in_range(q) ==> #[trigger] final(board).cell(q) == if q == (l.0, l.1) {
            old(board).cell(q).update(l.2 as int, None)
        } else {
            old(board).cell(q)
        },
        forall|m: Location| #[trigger] final(board).tile(m) == if m == l {
            None
        } else {
            old(board).tile(m)
        },
{
    let p = (l.0, l.1);
    proof {
        lemma_cell_index(p, p);
    }
    let idx = (l.0 as usize) * (WIDTH as usize) + (l.1 as usize);
    let mut cell = Tiers::new();
    std::mem::swap(&mut cell, &mut board.cells[idx]);
    cell.delete(l.2);
    std::mem::swap(&mut cell, &mut board.cells[idx]);
    proof {
        assert forall|q: (i16, i16)| in_range(q) implies #[trigger] board.cell(q) == if q == p {
            old(board).cell(q).update(l.2 as int, None)
        } else {
            old(board).cell(q)
        } by {
            lemma_cell_index(p, q);
        }
        assert forall|m: Location| #[trigger] board.tile(m) == if m == l {
            None
        } else {
            old(board).tile(m)
        } by {
            if in_range((m.0, m.1)) {
                lemma_cell_index(p, (m.0, m.1));
            }
        }
    }
}

/// The cell that a draw in `0..CELLS` stands for, row by row.
pub fn random_point(pick: u16) -> (r: (i16, i16))
    requires
        pick < CELLS,
    ensures
        in_range(r),
        r.0 == pick / (WIDTH as u16),
        r.1 == pick % (WIDTH as u16),
{
    let w = WIDTH as u16;
    ((pick / w) as i16, (pick % w) as i16)
}

/// Pushes a flower on the cell that `pick` stands for.
pub fn push_flower(board: &mut Board, pick: u16) -> (r: Location)
    requires
        old(board).wf(),
        pick < CELLS,
    ensures
        final(board).wf(),
        (r.0, r.1) == pick_cell(pick),
        r.2 == old(board).cell(pick_cell(pick)).len(),
        old(board).tile(r) is None,
        forall|q: (i16, i16)| in_range(q) ==> #[trigger] final(board).cell(q) == if q == (r.0, r.1) {
            old(board).cell(q).push(Some(Tier::Flower))
        } else {
            old(board).cell(q)
        },
        forall|l: Location| #[trigger] final(board).tile(l) == if l == r {
            Some(Tier::Flower)
        } else {
            old(board).tile(l)
        },
{
    let p = random_point(pick);
    let slot = push(board, p, Tier::flower());
    (p.0, p.1, slot)
}

/// The cell that a draw in `0..CELLS` stands for, row by row.
pub open spec fn pick_cell(pick: u16) -> (i16, i16) {
    ((pick / (WIDTH as u16)) as i16, (pick % (WIDTH as u16)) as i16)
}

/// Wraps a coordinate onto `0..n`.
pub open spec fn wrap(v: int, n: int) -> int {
    ((v % n) + n) % n
}

/// The neighbour of `base` in direction `delta`, wrapping round both edges.
pub fn point_by_dir(base: (i16, i16), delta: (i16, i16)) -> (r: (i16, i16))
    requires
        in_range(base),
        -1 <= delta.0 <= 1,
        -1 <= delta.1 <= 1,
    ensures
        in_range(r),
        r.0 == wrap(base.0 + delta.0, HEIGHT as int),
        r.1 == wrap(base.1 + delta.1, WIDTH as int),
{
    ((base.0 + delta.0 + HEIGHT) % HEIGHT, (base.1 + delta.1 + WIDTH) % WIDTH)
}

} // verus!
verus! {

/// Whether the live tile just below location `l` in its cell is grass.
pub open spec fn grass_below(board: Board, l: Location) -> bool {
    prev_live(board.cell((l.0, l.1)), l.2 as int) matches Some(j) && board.cell((l.0, l.1))[j]
        == Some(Tier::Grass)
}

/// Eats the flower at `fl`: over grass the flower layer goes away, otherwise the
/// flower turns into grass where it stands.
pub fn eat_flower(board: &mut Board, fl: Location)
    requires
        old(board).wf(),
        old(board).tile(fl) == Some(Tier::Flower),
    ensures
        final(board).wf(),
        final(board).cell((fl.0, fl.1)).len() == old(board).cell((fl.0, fl.1)).len(),
        forall|q: (i16, i16)|
            in_range(q) && q != (fl.0, fl.1) ==> #[trigger] final(board).cell(q) == old(board).cell(q),
        grass_below(*old(board), fl) ==> final(board).depth((fl.0, fl.1)) + 1 == old(board).depth(
            (fl.0, fl.1),
        ) && forall|m: Location| #[trigger] final(board).tile(m) == if m == fl {
            None
        } else {
            old(board).tile(m)
        },
        !grass_below(*old(board), fl) ==> final(board).depth((fl.0, fl.1)) == old(board).depth(
            (fl.0, fl.1),
        ) && forall|m: Location| #[trigger] final(board).tile(m) == if m == fl {
            Some(Tier::Grass)
        } else {
            old(board).tile(m)
        },
{
    let p = (fl.0, fl.1);
    let cell = get(board, p);
    proof {
        lemma_prev_live(cell@, fl.2 as int);
        lemma_count_update(cell@, fl.2 as int, None);
        lemma_count_update(cell@, fl.2 as int, Some(Tier::Grass));
    }
    let below = cell.previous(fl.2);
    let over_grass = match below {
        Some(j) => cell.get(j).is_grass(),
        None => false,
    };
    if over_grass {
        delete_tier(board, fl);
    } else {
        set_tier(board, fl, Tier::grass());
    }
}

} // verus!
verus! {

proof fn lemma_prev_live_same(s1: Seq<Option<Tier>>, s2: Seq<Option<Tier>>, i: int)
    requires
        0 <= i <= s1.len(),
        i <= s2.len(),
        forall|j: int|
            0 <= j < i ==> (#[trigger] s1[j] is Some) == (s2[j] is Some) && (s1[j] == Some(
                Tier::Grass,
            )) == (s2[j] == Some(Tier::Grass)),
    ensures
        prev_live(s1, i) == prev_live(s2, i),
    decreases i,
{
    if i > 0 {
        assert((s1[i - 1] is Some) == (s2[i - 1] is Some));
        lemma_prev_live_same(s1, s2, i - 1);
    }
}

/// Whether the tile below `l` is grass depends only on which slots below it are
/// live and which of them hold grass.
pub proof fn lemma_grass_below_same(b1: Board, b2: Board, l: Location)
    requires
        in_range((l.0, l.1)),
        l.2 < b1.cell((l.0, l.1)).len(),
        l.2 < b2.cell((l.0, l.1)).len(),
        forall|j: usize|
            j < l.2 ==> (#[trigger] b1.tile((l.0, l.1, j)) is Some) == (b2.tile((l.0, l.1, j)) is Some)
                && (b1.tile((l.0, l.1, j)) == Some(Tier::Grass)) == (b2.tile((l.0, l.1, j)) == Some(
                Tier::Grass,
            )),
    ensures
        grass_below(b1, l) == grass_below(b2, l),
{
    let s1 = b1.cell((l.0, l.1));
    let s2 = b2.cell((l.0, l.1));
    assert forall|j: int| 0 <= j < l.2 implies (#[trigger] s1[j] is Some) == (s2[j] is Some) && (
    s1[j] == Some(Tier::Grass)) == (s2[j] == Some(Tier::Grass)) by {
        assert(b1.tile((l.0, l.1, j as usize)) == s1[j]);
        assert(b2.tile((l.0, l.1, j as usize)) == s2[j]);
    }
    lemma_prev_live_same(s1, s2, l.2 as int);
    lemma_prev_live(s1, l.2 as int);
    lemma_prev_live(s2, l.2 as int);
    if let Some(j) = prev_live(s1, l.2 as int) {
        assert(b1.tile((l.0, l.1, j as usize)) == s1[j]);
        assert(b2.tile((l.0, l.1, j as usize)) == s2[j]);
    }
}

/// What the eaten flower's slot holds afterwards on board `b`: nothing over grass,
/// grass otherwise.
pub open spec fn eaten(b: Board, fl: Location) -> Option<Tier> {
    if grass_below(b, fl) {
        None
    } else {
        Some(Tier::Grass)
    }
}

} // verus!
