use vstd::prelude::*;
use crate::board::{
    delete_tier, eat_flower, eaten, pick_cell, lemma_grass_below_same, get, get_tier, in_range, point_by_dir,
    push, push_flower, random_point, set_tier, wrap, cell_index, Board, CELLS, HEIGHT, WIDTH,
};
use crate::arena::count_live;
use crate::tile::{Location, NodeType, Tier};

verus! {

/// One more than `n`, staying at the largest `u32`.
pub open spec fn bumped(n: u32) -> u32 {
    if n < u32::MAX {
        (n + 1) as u32
    } else {
        n
    }
}

/// Number of snakes in a game.
pub const SNAKES: usize = 4;

/// The eight unit steps, in the order in which they are tried.
pub open spec fn dir_spec(k: int) -> (i16, i16) {
    if k == 0 {
        (-1i16, -1i16)
    } else if k == 1 {
        (-1i16, 0i16)
    } else if k == 2 {
        (-1i16, 1i16)
    } else if k == 3 {
        (0i16, -1i16)
    } else if k == 4 {
        (0i16, 1i16)
    } else if k == 5 {
        (1i16, -1i16)
    } else if k == 6 {
        (1i16, 0i16)
    } else {
        (1i16, 1i16)
    }
}

/// The `k`-th unit step.
pub fn dir(k: usize) -> (r: (i16, i16))
    requires
        k < 8,
    ensures
        r == dir_spec(k as int),
{
    match k {
        0 => (-1, -1),
        1 => (-1, 0),
        2 => (-1, 1),
        3 => (0, -1),
        4 => (0, 1),
        5 => (1, -1),
        6 => (1, 0),
        _ => (1, 1),
    }
}

/// The neighbour of `head` in the `k`-th direction.
pub open spec fn candidate(head: (i16, i16), k: int) -> (i16, i16) {
    (
        wrap(head.0 + dir_spec(k).0, HEIGHT as int) as i16,
        wrap(head.1 + dir_spec(k).1, WIDTH as int) as i16,
    )
}

/// Squared planar distance, without wrapping round the edges.
pub open spec fn dist(a: (i16, i16), b: (i16, i16)) -> int {
    (a.0 - b.0) * (a.0 - b.0) + (a.1 - b.1) * (a.1 - b.1)
}

/// Among the first `n` directions, the first one whose neighbour is closest to `flower`.
pub open spec fn best_dir(flower: (i16, i16), head: (i16, i16), n: int) -> int
    decreases n,
{
    if n <= 1 {
        0
    } else {
        let b = best_dir(flower, head, n - 1);
        if dist(flower, candidate(head, n - 1)) < dist(flower, candidate(head, b)) {
            n - 1
        } else {
            b
        }
    }
}

/// The cell a head at `head` moves to when the flower is at `flower`.
pub open spec fn target(flower: (i16, i16), head: (i16, i16)) -> (i16, i16) {
    candidate(head, best_dir(flower, head, 8))
}

pub proof fn lemma_target_in_range(flower: (i16, i16), head: (i16, i16))
    ensures
        in_range(target(flower, head)),
{
    lemma_best_dir(flower, head, 8);
    let k = best_dir(flower, head, 8);
    assert(0 <= wrap(head.0 + dir_spec(k).0, HEIGHT as int) < HEIGHT);
    assert(0 <= wrap(head.1 + dir_spec(k).1, WIDTH as int) < WIDTH);
}

/// The chosen direction is a closest one, and no earlier direction is as close.
pub proof fn lemma_best_dir(flower: (i16, i16), head: (i16, i16), n: int)
    requires
        1 <= n <= 8,
    ensures
        0 <= best_dir(flower, head, n) < n,
        forall|j: int|
            0 <= j < n ==> dist(flower, candidate(head, best_dir(flower, head, n))) <= dist(
                flower,
                #[trigger] candidate(head, j),
            ),
        forall|j: int|
            0 <= j < best_dir(flower, head, n) ==> dist(flower, #[trigger] candidate(head, j))
                > dist(flower, candidate(head, best_dir(flower, head, n))),
    decreases n,
{
    if n > 1 {
        lemma_best_dir(flower, head, n - 1);
    }
}

/// Of two neighbours at the same smallest distance to the flower, the one in the
/// earlier direction is the one chosen.
pub proof fn lemma_tie_break(flower: (i16, i16), head: (i16, i16), i: int, j: int)
    requires
        0 <= i < j < 8,
        dist(flower, candidate(head, i)) == dist(flower, candidate(head, j)),
        forall|k: int|
            0 <= k < 8 ==> dist(flower, candidate(head, i)) <= dist(
                flower,
                #[trigger] candidate(head, k),
            ),
    ensures
        best_dir(flower, head, 8) != j,
        best_dir(flower, head, 8) <= i,
{
    lemma_best_dir(flower, head, 8);
}

/// From the top row, the step up lands on the bottom row in the same column.
pub proof fn lemma_wraparound(col: i16)
    requires
        0 <= col < WIDTH,
    ensures
        dir_spec(1) == (-1i16, 0i16),
        candidate((0, col), 1) == ((HEIGHT - 1) as i16, col),
{
}

/// Squared planar distance between two in-range cells.
pub fn fake_flower_distance(flower: (i16, i16), p: (i16, i16)) -> (r: i64)
    requires
        in_range(flower),
        in_range(p),
    ensures
        r == dist(flower, p),
        0 <= r <= 6800,
{
    let y_dif = (flower.0 - p.0) as i64;
    let x_dif = (flower.1 - p.1) as i64;
    assert(y_dif * y_dif <= 400 && x_dif * x_dif <= 6400) by (nonlinear_arith)
        requires
            -20 < y_dif < 20,
            -80 < x_dif < 80,
    ;
    assert(y_dif * y_dif >= 0 && x_dif * x_dif >= 0) by (nonlinear_arith);
    (y_dif * y_dif) + (x_dif * x_dif)
}

/// The neighbour of `head` that a greedy step towards `flower` takes: the first,
/// in direction order, of those at the smallest distance.
pub fn min_flower_distance_point(flower: (i16, i16), head: (i16, i16)) -> (r: (i16, i16))
    requires
        in_range(flower),
        in_range(head),
    ensures
        in_range(r),
        r == target(flower, head),
{
    let mut min: i64 = i64::MAX;
    let mut min_yx: (i16, i16) = (0, 0);
    let mut k: usize = 0;
    while k < 8
        invariant
            k <= 8,
            in_range(flower),
            in_range(head),
            k == 0 ==> min == i64::MAX,
            k > 0 ==> min_yx == candidate(head, best_dir(flower, head, k as int)) && min == dist(
                flower,
                min_yx,
            ) && in_range(min_yx),
        decreases 8 - k,
    {
        let point = point_by_dir(head, dir(k));
        let distance = fake_flower_distance(flower, point);
        assert(point == candidate(head, k as int));
        assert(best_dir(flower, head, 1) == 0);
        assert(k > 0 ==> best_dir(flower, head, k + 1) == if dist(flower, candidate(head, k as int))
            < dist(flower, candidate(head, best_dir(flower, head, k as int))) {
            k as int
        } else {
            best_dir(flower, head, k as int)
        });
        if distance < min {
            min = distance;
            min_yx = point;
        }
        k = k + 1;
    }
    min_yx
}

/// The two live ends of a snake's body chain.
#[derive(Clone, Copy, Debug)]
pub struct Snake {
    pub head: Location,
    pub tail: Location,
}

/// Every chain runs from its snake's tail to its head through body tiles that
/// link forward, ends on a head tile, and no location sits in two places.
#[verifier::opaque]
pub open spec fn chains_ok(board: Board, snakes: Seq<Snake>, chains: Seq<Seq<Location>>) -> bool {
    &&& chains.len() == snakes.len()
    &&& forall|i: int| 0 <= i < snakes.len() ==> #[trigger] chain_linked(board, snakes[i], chains[i])
    &&& forall|i: int, k: int, j: int, l: int|
        0 <= i < chains.len() && 0 <= j < chains.len() && 0 <= k < chains[i].len() && 0 <= l
            < chains[j].len() && #[trigger] chains[i][k] == #[trigger] chains[j][l] ==> i == j && k
            == l
}

/// One chain is well linked on the board.
pub open spec fn chain_linked(board: Board, snake: Snake, c: Seq<Location>) -> bool {
    &&& c.len() >= 2
    &&& c[0] == snake.tail
    &&& c.last() == snake.head
    &&& forall|k: int|
        0 <= k < c.len() - 1 ==> board.tile(#[trigger] c[k]) == Some(Tier::body_spec(c[k + 1]))
    &&& board.tile(c.last()) matches Some(t) && t.is_head_spec()
}

impl Snake {
    pub fn zerod() -> (r: Self)
        ensures
            r.head == (0i16, 0i16, 0usize),
            r.tail == (0i16, 0i16, 0usize),
    {
        Snake { head: (0, 0, 0), tail: (0, 0, 0) }
    }

    /// Places a sad head on the cell `head_pick` stands for and one body segment
    /// on its neighbour in direction `dir_pick`.
    pub fn random(board: &mut Board, head_pick: u16, dir_pick: usize) -> (r: Self)
        requires
            old(board).wf(),
            head_pick < CELLS,
            dir_pick < 8,
        ensures
            final(board).wf(),
            (r.head.0, r.head.1) == pick_cell(head_pick),
            (r.tail.0, r.tail.1) == candidate((r.head.0, r.head.1), dir_pick as int),
            old(board).tile(r.head) is None,
            old(board).tile(r.tail) is None,
            r.head != r.tail,
            forall|l: Location| #[trigger] final(board).tile(l) == if l == r.tail {
                Some(Tier::body_spec(r.head))
            } else if l == r.head {
                Some(Tier::Node { node_type: NodeType::CryHead, prev: None })
            } else {
                old(board).tile(l)
            },
            forall|q: (i16, i16)|
                in_range(q) ==> #[trigger] final(board).cell(q).len() <= old(board).cell(q).len() + 2,
    {
        let head = random_point(head_pick);
        let tail = point_by_dir(head, dir(dir_pick));
        let head_tier = push(board, head, Tier::cry_head());
        let tail_tier = push(board, tail, Tier::body((head.0, head.1, head_tier)));
        Snake { head: (head.0, head.1, head_tier), tail: (tail.0, tail.1, tail_tier) }
    }
}

/// Every location of a well-linked chain holds a tile.
pub proof fn lemma_chains_live(board: Board, snakes: Seq<Snake>, chains: Seq<Seq<Location>>)
    requires
        chains_ok(board, snakes, chains),
    ensures
        forall|i: int, k: int|
            0 <= i < chains.len() && 0 <= k < chains[i].len() ==> ((#[trigger] board.tile(
                chains[i][k],
            )) matches Some(t) && t is Node),
{
    reveal(chains_ok);
    assert forall|i: int, k: int|
        0 <= i < chains.len() && 0 <= k < chains[i].len() implies ((#[trigger] board.tile(
            chains[i][k],
        )) matches Some(t) && t is Node) by {
        assert(chain_linked(board, snakes[i], chains[i]));
        if k < chains[i].len() - 1 {
            assert(board.tile(chains[i][k]) is Some);
        }
    }
}

/// Chains stay well linked on a board that agrees on all of their locations.
pub proof fn lemma_chains_frame(
    b1: Board,
    b2: Board,
    snakes: Seq<Snake>,
    chains: Seq<Seq<Location>>,
)
    requires
        chains_ok(b1, snakes, chains),
        forall|i: int, k: int|
            0 <= i < chains.len() && 0 <= k < chains[i].len() ==> #[trigger] b2.tile(chains[i][k])
                == b1.tile(chains[i][k]),
    ensures
        chains_ok(b2, snakes, chains),
{
    reveal(chains_ok);
    assert forall|i: int| 0 <= i < snakes.len() implies #[trigger] chain_linked(
        b2,
        snakes[i],
        chains[i],
    ) by {
        assert(chain_linked(b1, snakes[i], chains[i]));
        assert(b2.tile(chains[i][chains[i].len() - 1]) == b1.tile(chains[i][chains[i].len() - 1]));
        assert forall|k: int| 0 <= k < chains[i].len() - 1 implies b2.tile(#[trigger] chains[i][k])
            == Some(Tier::body_spec(chains[i][k + 1])) by {
            assert(b2.tile(chains[i][k]) == b1.tile(chains[i][k]));
        }
    }
}

/// Placing a fresh two-segment snake keeps the chains well linked.
pub proof fn lemma_add_snake(
    b1: Board,
    b2: Board,
    snakes: Seq<Snake>,
    chains: Seq<Seq<Location>>,
    s: Snake,
)
    requires
        chains_ok(b1, snakes, chains),
        b1.tile(s.head) is None,
        b1.tile(s.tail) is None,
        s.head != s.tail,
        forall|l: Location| #[trigger] b2.tile(l) == if l == s.tail {
            Some(Tier::body_spec(s.head))
        } else if l == s.head {
            Some(Tier::Node { node_type: NodeType::CryHead, prev: None })
        } else {
            b1.tile(l)
        },
    ensures
        chains_ok(b2, snakes.push(s), chains.push(seq![s.tail, s.head])),
{
    reveal(chains_ok);
    lemma_chains_live(b1, snakes, chains);
    lemma_chains_frame(b1, b2, snakes, chains);
    let c = seq![s.tail, s.head];
    let nchains = chains.push(c);
    let nsnakes = snakes.push(s);
    assert forall|j: int| 0 <= j < nsnakes.len() implies #[trigger] chain_linked(
        b2,
        nsnakes[j],
        nchains[j],
    ) by {
        if j < snakes.len() {
            assert(chain_linked(b2, snakes[j], chains[j]));
        } else {
            assert(nchains[j] == c);
            assert(c[0] == s.tail);
        }
    }
    assert forall|a: int, k: int, b: int, l: int|
        0 <= a < nchains.len() && 0 <= b < nchains.len() && 0 <= k < nchains[a].len() && 0 <= l
            < nchains[b].len() && #[trigger] nchains[a][k] == #[trigger] nchains[b][l] implies a
        == b && k == l by {
        if a < chains.len() {
            assert(b1.tile(chains[a][k]) is Some);
        }
        if b < chains.len() {
            assert(b1.tile(chains[b][l]) is Some);
        }
    }
}

/// Moving a snake's head onto a fresh location keeps the chains well linked: the
/// old head becomes a body tile pointing at the new one.
pub proof fn lemma_advance(
    b0: Board,
    b1: Board,
    snakes: Seq<Snake>,
    chains: Seq<Seq<Location>>,
    idx: int,
    nh: Location,
    ht: Tier,
)
    requires
        chains_ok(b0, snakes, chains),
        0 <= idx < snakes.len(),
        b0.tile(nh) is None,
        b1.tile(nh) == Some(ht),
        ht.is_head_spec(),
        b1.tile(snakes[idx].head) == Some(Tier::body_spec(nh)),
        forall|i: int, k: int|
            0 <= i < chains.len() && 0 <= k < chains[i].len() && chains[i][k] != snakes[idx].head
                ==> #[trigger] b1.tile(chains[i][k]) == b0.tile(chains[i][k]),
    ensures
        chains_ok(
            b1,
            snakes.update(idx, Snake { head: nh, tail: snakes[idx].tail }),
            chains.update(idx, chains[idx].push(nh)),
        ),
{
    reveal(chains_ok);
    lemma_chains_live(b0, snakes, chains);
    let ns = snakes.update(idx, Snake { head: nh, tail: snakes[idx].tail });
    let nc = chains.update(idx, chains[idx].push(nh));
    let c = chains[idx];
    assert(chain_linked(b0, snakes[idx], c));
    assert forall|j: int| 0 <= j < ns.len() implies #[trigger] chain_linked(b1, ns[j], nc[j]) by {
        assert(chain_linked(b0, snakes[j], chains[j]));
        if j == idx {
            assert forall|k: int| 0 <= k < nc[j].len() - 1 implies b1.tile(#[trigger] nc[j][k])
                == Some(Tier::body_spec(nc[j][k + 1])) by {
                if k < c.len() - 1 {
                    assert(c[k] != c[c.len() - 1]);
                    assert(b1.tile(c[k]) == b0.tile(c[k]));
                }
            }
        } else {
            let cj = chains[j];
            assert(cj[cj.len() - 1] != c[c.len() - 1]);
            assert(b1.tile(cj[cj.len() - 1]) == b0.tile(cj[cj.len() - 1]));
            assert forall|k: int| 0 <= k < cj.len() - 1 implies b1.tile(#[trigger] cj[k])
                == Some(Tier::body_spec(cj[k + 1])) by {
                assert(cj[k] != c[c.len() - 1]);
                assert(b1.tile(cj[k]) == b0.tile(cj[k]));
            }
        }
    }
    assert forall|a: int, k: int, b: int, l: int|
        0 <= a < nc.len() && 0 <= b < nc.len() && 0 <= k < nc[a].len() && 0 <= l < nc[b].len()
            && #[trigger] nc[a][k] == #[trigger] nc[b][l] implies a == b && k == l by {
        if !(a == idx && k == c.len()) {
            assert(b0.tile(chains[a][k]) is Some);
        }
        if !(b == idx && l == c.len()) {
            assert(b0.tile(chains[b][l]) is Some);
        }
    }
}

/// Removing a snake's tail tile keeps the chains well linked, the next segment
/// becoming the tail.
pub proof fn lemma_retract(
    b0: Board,
    b1: Board,
    snakes: Seq<Snake>,
    chains: Seq<Seq<Location>>,
    idx: int,
)
    requires
        chains_ok(b0, snakes, chains),
        0 <= idx < snakes.len(),
        chains[idx].len() >= 3,
        forall|m: Location| #[trigger] b1.tile(m) == if m == snakes[idx].tail {
            None
        } else {
            b0.tile(m)
        },
    ensures
        chains_ok(
            b1,
            snakes.update(idx, Snake { head: snakes[idx].head, tail: chains[idx][1] }),
            chains.update(idx, chains[idx].drop_first()),
        ),
{
    reveal(chains_ok);
    let ns = snakes.update(idx, Snake { head: snakes[idx].head, tail: chains[idx][1] });
    let nc = chains.update(idx, chains[idx].drop_first());
    let c = chains[idx];
    assert(chain_linked(b0, snakes[idx], c));
    assert forall|j: int| 0 <= j < ns.len() implies #[trigger] chain_linked(b1, ns[j], nc[j]) by {
        assert(chain_linked(b0, snakes[j], chains[j]));
        let cj = chains[j];
        if j == idx {
            assert(c[c.len() - 1] != c[0]);
            assert forall|k: int| 0 <= k < nc[j].len() - 1 implies b1.tile(#[trigger] nc[j][k])
                == Some(Tier::body_spec(nc[j][k + 1])) by {
                assert(nc[j][k] == c[k + 1]);
                assert(c[k + 1] != c[0]);
                assert(b0.tile(c[k + 1]) == Some(Tier::body_spec(c[k + 2])));
            }
        } else {
            assert(cj[cj.len() - 1] != c[0]);
            assert forall|k: int| 0 <= k < cj.len() - 1 implies b1.tile(#[trigger] cj[k])
                == Some(Tier::body_spec(cj[k + 1])) by {
                assert(cj[k] != c[0]);
            }
        }
    }
    assert forall|a: int, k: int, b: int, l: int|
        0 <= a < nc.len() && 0 <= b < nc.len() && 0 <= k < nc[a].len() && 0 <= l < nc[b].len()
            && #[trigger] nc[a][k] == #[trigger] nc[b][l] implies a == b && k == l by {
        let ka = if a == idx { k + 1 } else { k };
        let lb = if b == idx { l + 1 } else { l };
        assert(nc[a][k] == chains[a][ka]);
        assert(nc[b][l] == chains[b][lb]);
    }
}

/// The location reached from `l` by following `n` body links.
pub open spec fn follow(board: Board, l: Location, n: nat) -> Location
    decreases n,
{
    if n == 0 {
        l
    } else {
        match board.tile(l) {
            Some(Tier::Node { node_type: NodeType::Body, prev: Some(next) }) => follow(
                board,
                next,
                (n - 1) as nat,
            ),
            _ => l,
        }
    }
}

proof fn lemma_follow_chain(board: Board, snake: Snake, c: Seq<Location>, k: nat)
    requires
        chain_linked(board, snake, c),
        k < c.len(),
    ensures
        follow(board, c[0], k) == c[k as int],
    decreases k,
{
    if k > 0 {
        lemma_follow_chain(board, snake, c, (k - 1) as nat);
        lemma_follow_step(board, c[0], (k - 1) as nat, c[k - 1], c[k as int]);
    }
}

proof fn lemma_follow_step(board: Board, l: Location, n: nat, m: Location, next: Location)
    requires
        follow(board, l, n) == m,
        board.tile(m) == Some(Tier::body_spec(next)),
    ensures
        follow(board, l, n + 1) == next,
    decreases n,
{
    if n > 0 {
        match board.tile(l) {
            Some(Tier::Node { node_type: NodeType::Body, prev: Some(nx) }) => {
                lemma_follow_step(board, nx, (n - 1) as nat, m, next);
                assert(follow(board, l, n + 1) == follow(board, nx, n));
            },
            _ => {},
        }
    } else {
        assert(follow(board, next, 0) == next);
    }
}

/// A fresh snake stands where its draws put it.
pub open spec fn placed(c: Seq<Location>, s: Snake, head_pick: u16, dir_pick: usize) -> bool {
    &&& c.len() == 2
    &&& (s.head.0, s.head.1) == pick_cell(head_pick)
    &&& (s.tail.0, s.tail.1) == candidate((s.head.0, s.head.1), dir_pick as int)
}

/// Snakes chasing one flower over a shared board.
pub struct Game {
    snakes: Vec<Snake>,
    flower: Location,
    lucky_guy: Option<usize>,
    bingos: u32,
    board: Board,
    chains: Ghost<Seq<Seq<Location>>>,
}

impl Game {
    pub closed spec fn spec_snakes(&self) -> Seq<Snake> {
        self.snakes@
    }

    pub closed spec fn spec_flower(&self) -> Location {
        self.flower
    }

    pub closed spec fn spec_lucky_guy(&self) -> Option<usize> {
        self.lucky_guy
    }

    pub closed spec fn spec_bingos(&self) -> u32 {
        self.bingos
    }

    pub closed spec fn spec_board(&self) -> Board {
        self.board
    }

    /// Each snake's body, tail first, head last.
    pub closed spec fn chains(&self) -> Seq<Seq<Location>> {
        self.chains@
    }

    pub open spec fn wf(&self) -> bool {
        &&& self.spec_board().wf()
        &&& self.spec_snakes().len() == SNAKES
        &&& self.spec_board().tile(self.spec_flower()) == Some(Tier::Flower)
        &&& self.spec_lucky_guy() matches Some(l) ==> l < SNAKES
        &&& chains_ok(self.spec_board(), self.spec_snakes(), self.chains())
    }

    /// Number of segments of snake `i`.
    pub open spec fn length(&self, i: int) -> nat {
        self.chains()[i].len()
    }

    pub open spec fn head_cell(&self, i: int) -> (i16, i16) {
        (self.spec_snakes()[i].head.0, self.spec_snakes()[i].head.1)
    }

    pub open spec fn flower_cell(&self) -> (i16, i16) {
        (self.spec_flower().0, self.spec_flower().1)
    }

    /// The cell snake `i` moves to next.
    pub open spec fn next_cell(&self, i: int) -> (i16, i16) {
        target(self.flower_cell(), self.head_cell(i))
    }

    /// Whether snake `i` reaches the flower with its next move.
    pub open spec fn bingo_at(&self, i: int) -> bool {
        self.next_cell(i) == self.flower_cell()
    }

    /// The first snake from `i` on whose next move reaches the flower, or `SNAKES`.
    pub open spec fn first_bingo(&self, i: int) -> int
        decreases SNAKES - i,
    {
        if i >= SNAKES {
            SNAKES as int
        } else if self.bingo_at(i) {
            i
        } else {
            self.first_bingo(i + 1)
        }
    }

    /// Sets up the snakes, snake `i` with its head on the cell `heads[i]` stands for
    /// and its tail in direction `dirs[i]` from there, then the flower on the cell
    /// `flower_pick` stands for.
    pub fn init(heads: &Vec<u16>, dirs: &Vec<usize>, flower_pick: u16) -> (r: Self)
        requires
            heads.len() == SNAKES,
            dirs.len() == SNAKES,
            forall|i: int| 0 <= i < SNAKES ==> #[trigger] heads[i] < CELLS,
            forall|i: int| 0 <= i < SNAKES ==> #[trigger] dirs[i] < 8,
            flower_pick < CELLS,
        ensures
            r.wf(),
            r.spec_bingos() == 0,
            r.spec_lucky_guy() is None,
            r.flower_cell() == pick_cell(flower_pick),
            forall|i: int|
                0 <= i < SNAKES ==> #[trigger] placed(
                    r.chains()[i],
                    r.spec_snakes()[i],
                    heads@[i],
                    dirs@[i],
                ),
            forall|i: int|
                0 <= i < SNAKES ==> r.spec_board().tile((#[trigger] r.spec_snakes()[i]).head) == Some(
                    Tier::Node { node_type: NodeType::CryHead, prev: None },
                ) && r.spec_board().tile(r.spec_snakes()[i].tail) == Some(
                    Tier::body_spec(r.spec_snakes()[i].head),
                ),
            forall|m: Location|
                (#[trigger] r.spec_board().tile(m) is Some) == (m == r.spec_flower() || exists|i: int|
                    0 <= i < SNAKES && (m == r.spec_snakes()[i].head || m == r.spec_snakes()[i].tail)),
    {
        let mut board = Board::new();
        let mut snakes: Vec<Snake> = Vec::new();
        let ghost mut chains: Seq<Seq<Location>> = Seq::empty();
        proof {
            reveal(chains_ok);
        }
        let mut i: usize = 0;
        while i < SNAKES
            invariant
                0 <= i <= SNAKES,
                heads.len() == SNAKES,
                dirs.len() == SNAKES,
                forall|i: int| 0 <= i < SNAKES ==> #[trigger] heads[i] < CELLS,
                forall|i: int| 0 <= i < SNAKES ==> #[trigger] dirs[i] < 8,
                board.wf(),
                snakes@.len() == i,
                chains_ok(board, snakes@, chains),
                chains.len() == i,
                forall|j: int|
                    0 <= j < i ==> board.tile((#[trigger] snakes@[j]).head) == Some(
                        Tier::Node { node_type: NodeType::CryHead, prev: None },
                    ) && board.tile(snakes@[j].tail) == Some(Tier::body_spec(snakes@[j].head)),
                forall|m: Location|
                    (#[trigger] board.tile(m) is Some) == exists|j: int|
                        0 <= j < i && (m == snakes@[j].head || m == snakes@[j].tail),
                forall|j: int| 0 <= j < i ==> #[trigger] placed(chains[j], snakes@[j], heads@[j], dirs@[j]),
            decreases SNAKES - i,
        {
            let ghost before = board;
            let ghost old_snakes = snakes@;
            let ghost old_chains = chains;
            let s = Snake::random(&mut board, heads[i], dirs[i]);
            proof {
                lemma_add_snake(before, board, snakes@, chains, s);
                chains = chains.push(seq![s.tail, s.head]);
            }
            snakes.push(s);
            assert forall|j: int|
                0 <= j < i + 1 implies board.tile((#[trigger] snakes@[j]).head) == Some(
                Tier::Node { node_type: NodeType::CryHead, prev: None },
            ) && board.tile(snakes@[j].tail) == Some(Tier::body_spec(snakes@[j].head)) by {
                if j < i {
                    assert(snakes@[j] == old_snakes[j]);
                    assert(before.tile(old_snakes[j].head) is Some);
                    assert(before.tile(old_snakes[j].tail) is Some);
                }
            }
            assert forall|m: Location|
                (#[trigger] board.tile(m) is Some) == exists|j: int|
                    0 <= j < i + 1 && (m == snakes@[j].head || m == snakes@[j].tail) by {
                if m == s.head || m == s.tail {
                    assert(snakes@[i as int] == s);
                } else {
                    if before.tile(m) is Some {
                        let j = choose|j: int|
                            0 <= j < i && (m == old_snakes[j].head || m == old_snakes[j].tail);
                        assert(snakes@[j] == old_snakes[j]);
                    }
                    if exists|j: int| 0 <= j < i + 1 && (m == snakes@[j].head || m == snakes@[j].tail) {
                        let j = choose|j: int|
                            0 <= j < i + 1 && (m == snakes@[j].head || m == snakes@[j].tail);
                        assert(snakes@[i as int] == s);
                        assert(j < i);
                        assert(snakes@[j] == old_snakes[j]);
                    }
                }
            }
            assert forall|j: int| 0 <= j < i + 1 implies #[trigger] placed(chains[j], snakes@[j], heads@[j], dirs@[j]) by {
                if j == i {
                    assert(snakes@[j] == s);
                    assert(chains[j] == seq![s.tail, s.head]);
                    assert(chains[j].len() == 2);
                    assert((s.head.0, s.head.1) == pick_cell(heads[j]));
                    assert((s.tail.0, s.tail.1) == candidate((s.head.0, s.head.1), dirs[j] as int));
                } else {
                    assert(snakes@[j] == old_snakes[j]);
                    assert(chains[j] == old_chains[j]);
                    assert(placed(old_chains[j], old_snakes[j], heads@[j], dirs@[j]));
                }
            }
            i = i + 1;
        }
        let ghost before = board;
        let flower = push_flower(&mut board, flower_pick);
        proof {
            lemma_chains_live(before, snakes@, chains);
            lemma_chains_frame(before, board, snakes@, chains);
        }
        let r = Game { snakes, flower, lucky_guy: None, bingos: 0, board, chains: Ghost(chains) };
        assert forall|i: int|
            0 <= i < SNAKES implies r.spec_board().tile((#[trigger] r.spec_snakes()[i]).head) == Some(
            Tier::Node { node_type: NodeType::CryHead, prev: None },
        ) && r.spec_board().tile(r.spec_snakes()[i].tail) == Some(
            Tier::body_spec(r.spec_snakes()[i].head),
        ) by {
            assert(before.tile(snakes@[i].head) is Some);
            assert(before.tile(snakes@[i].tail) is Some);
        }
        assert forall|m: Location|
            (#[trigger] r.spec_board().tile(m) is Some) == (m == r.spec_flower() || exists|i: int|
                0 <= i < SNAKES && (m == r.spec_snakes()[i].head || m == r.spec_snakes()[i].tail)) by {
            assert(before.tile(m) is Some == exists|j: int|
                0 <= j < SNAKES && (m == snakes@[j].head || m == snakes@[j].tail));
        }
        r
    }

    /// The head tile that snake `idx` puts down: happy for the last snake to eat.
    pub open spec fn head_tier(&self, idx: int) -> Tier {
        if self.spec_lucky_guy() == Some(idx as usize) {
            Tier::Node { node_type: NodeType::LaughHead, prev: None }
        } else {
            Tier::Node { node_type: NodeType::CryHead, prev: None }
        }
    }

    /// The tile at `m` after snake `idx` moved from `b` to `a`: the old head links to
    /// the new head, the new head is a head tile, on a bingo the new flower stands on
    /// its own slot and the eaten one is gone or grass, without one the old tail is
    /// gone; every other location is as it was.
    pub open spec fn one_tile(b: Game, a: Game, idx: int, bingo: bool, m: Location) -> Option<Tier> {
        if m == b.spec_snakes()[idx].head {
            Some(Tier::body_spec(a.spec_snakes()[idx].head))
        } else if m == a.spec_snakes()[idx].head {
            Some(b.head_tier(idx))
        } else if bingo && m == a.spec_flower() {
            Some(Tier::Flower)
        } else if bingo && m == b.spec_flower() {
            eaten(a.spec_board(), m)
        } else if !bingo && m == b.spec_snakes()[idx].tail {
            None
        } else {
            b.spec_board().tile(m)
        }
    }

    /// Moves snake `idx` one step towards the flower. On reaching it the flower is
    /// eaten, a new one grows on the cell `spawn` stands for, and the snake keeps its
    /// tail; otherwise the tail moves up by one segment. Returns whether the flower
    /// was reached, and the larger stack depth seen at the new head (after the push)
    /// and, without a bingo, at the old tail (before its removal).
    #[verifier::rlimit(100)]
    fn move_snake(&mut self, idx: usize, spawn: u16) -> (r: (bool, usize))
        requires
            old(self).wf(),
            idx < SNAKES,
            spawn < CELLS,
        ensures
            final(self).wf(),
            Game::one_moved(*final(self), *old(self), idx as int, r.0),
            r.0 == old(self).bingo_at(idx as int),
            final(self).head_cell(idx as int) == old(self).next_cell(idx as int),
            final(self).spec_board().tile(final(self).spec_snakes()[idx as int].head) == Some(
                old(self).head_tier(idx as int),
            ),
            forall|j: int|
                0 <= j < SNAKES && j != idx ==> #[trigger] final(self).spec_snakes()[j] == old(
                    self,
                ).spec_snakes()[j] && final(self).chains()[j] == old(self).chains()[j],
            r.0 ==> final(self).chains()[idx as int] == old(self).chains()[idx as int].push(
                final(self).spec_snakes()[idx as int].head,
            ) && final(self).spec_lucky_guy() == Some(idx) && final(self).spec_bingos() == bumped(old(self).spec_bingos()) && final(self).flower_cell() == pick_cell(spawn),
            !r.0 ==> final(self).chains()[idx as int] == old(self).chains()[idx as int].drop_first().push(
                final(self).spec_snakes()[idx as int].head,
            ) && final(self).spec_lucky_guy() == old(self).spec_lucky_guy() && final(self).spec_bingos()
                == old(self).spec_bingos() && final(self).spec_flower() == old(self).spec_flower(),
            r.1 == if r.0 {
                old(self).spec_board().depth(old(self).next_cell(idx as int)) as int + 1
            } else {
                vstd::math::max(
                    old(self).spec_board().depth(old(self).next_cell(idx as int)) as int + 1,
                    old(self).spec_board().depth(
                        (old(self).spec_snakes()[idx as int].tail.0, old(self).spec_snakes()[idx as int].tail.1),
                    ) + if (old(self).spec_snakes()[idx as int].tail.0, old(self).spec_snakes()[idx as int].tail.1)
                        == old(self).next_cell(idx as int) {
                        1int
                    } else {
                        0int
                    },
                )
            },
            forall|q: (i16, i16)|
                in_range(q) ==> #[trigger] final(self).spec_board().cell(q).len() <= old(
                    self,
                ).spec_board().cell(q).len() + 2,
            forall|j: int|
                0 <= j < SNAKES && j != idx ==> #[trigger] final(self).spec_board().tile(
                    old(self).spec_snakes()[j].head,
                ) == old(self).spec_board().tile(old(self).spec_snakes()[j].head),
            forall|m: Location| #[trigger] final(self).spec_board().tile(m) == Game::one_tile(
                *old(self),
                *final(self),
                idx as int,
                r.0,
                m,
            ),
            forall|q: (i16, i16)|
                in_range(q) ==> #[trigger] final(self).spec_board().cell(q).len() >= old(
                    self,
                ).spec_board().cell(q).len(),
            final(self).spec_snakes()[idx as int].head.2 == old(self).spec_board().cell(
                old(self).next_cell(idx as int),
            ).len(),
            r.0 ==> final(self).spec_flower().2 >= old(self).spec_board().cell(
                final(self).flower_cell(),
            ).len(),
    {
        let old_head = self.snakes[idx].head;
        let old_tail = self.snakes[idx].tail;
        let ghost b0 = self.board;
        let ghost snakes0 = self.snakes@;
        let ghost chains0 = self.chains@;
        let ghost c = chains0[idx as int];
        proof {
            reveal(chains_ok);
            lemma_chains_live(b0, snakes0, chains0);
            assert(chain_linked(b0, snakes0[idx as int], c));
            assert(b0.tile(c[c.len() - 1]) is Some);
            assert(b0.tile(c[0]) is Some);
        }
        let new_cell = min_flower_distance_point(
            (self.flower.0, self.flower.1),
            (old_head.0, old_head.1),
        );
        let bingo = self.flower.0 == new_cell.0 && self.flower.1 == new_cell.1;
        let tier = match self.lucky_guy {
            Some(l) => if l == idx {
                Tier::laugh_head()
            } else {
                Tier::cry_head()
            },
            None => Tier::cry_head(),
        };
        let slot = push(&mut self.board, new_cell, tier);
        let new_head = (new_cell.0, new_cell.1, slot);
        let mut max_tier = get(&self.board, new_cell).len();
        proof {
            assert(self.board.cell(new_cell) == b0.cell(new_cell).push(Some(tier)));
            assert(self.board.cell(new_cell).drop_last() == b0.cell(new_cell));
        }
        let ghost b1 = self.board;
        let ghost fl = self.flower;
        let ghost mut b_eaten = self.board;
        if bingo {
            let fl = self.flower;
            eat_flower(&mut self.board, fl);
            proof {
                b_eaten = self.board;
            }
            self.flower = push_flower(&mut self.board, spawn);
            proof {
                assert(b_eaten.tile(new_head) is Some);
                assert(b_eaten.tile(old_head) is Some);
                assert(self.flower != new_head);
                assert(self.flower != old_head);
            }
            self.lucky_guy = Some(idx);
            self.bingos = if self.bingos < u32::MAX {
                self.bingos + 1
            } else {
                self.bingos
            };
        }
        let ghost b2 = self.board;
        set_tier(&mut self.board, old_head, Tier::body(new_head));
        self.snakes.set(idx, Snake { head: new_head, tail: old_tail });
        proof {
            assert forall|i: int, k: int|
                0 <= i < chains0.len() && 0 <= k < chains0[i].len() && chains0[i][k] != old_head
                    implies #[trigger] self.board.tile(chains0[i][k]) == b0.tile(chains0[i][k]) by {
                let m = chains0[i][k];
                assert(b0.tile(m) is Some);
                assert(m != new_head);
                if bingo {
                    assert(m != fl);
                    assert(m != self.flower);
                }
            }
            lemma_advance(b0, self.board, snakes0, chains0, idx as int, new_head, tier);
            reveal(chains_ok);
            assert forall|j: int| 0 <= j < SNAKES && j != idx implies #[trigger] self.board.tile(
                snakes0[j].head,
            ) == b0.tile(snakes0[j].head) by {
                assert(chain_linked(b0, snakes0[j], chains0[j]));
                let cj = chains0[j];
                assert(cj[cj.len() - 1] != c[c.len() - 1]);
            }
            self.chains = Ghost(chains0.update(idx as int, c.push(new_head)));
            assert(self.snakes@ == snakes0.update(idx as int, Snake { head: new_head, tail: old_tail }));
            if !bingo {
                assert(fl != new_head);
                assert(fl != old_head);
            }
        }
        if bingo {
            proof {
                let nf = self.flower;
                assert(b1.tile(fl) is Some);
                assert(nf != fl);
                assert forall|j: usize| j < fl.2 implies (#[trigger] b1.tile((fl.0, fl.1, j)) is Some)
                    == (self.board.tile((fl.0, fl.1, j)) is Some) && (b1.tile((fl.0, fl.1, j)) == Some(
                    Tier::Grass,
                )) == (self.board.tile((fl.0, fl.1, j)) == Some(Tier::Grass)) by {
                    let m = (fl.0, fl.1, j);
                    assert(m != nf);
                    assert(b_eaten.tile(m) == b1.tile(m));
                }
                lemma_grass_below_same(b1, self.board, fl);
                assert forall|m: Location| #[trigger] self.board.tile(m) == Game::one_tile(
                    *old(self),
                    *self,
                    idx as int,
                    true,
                    m,
                ) by {}
            }
            return (true, max_tier);
        }
        let tail_cell = (old_tail.0, old_tail.1);
        let tail_depth = get(&self.board, tail_cell).len();
        proof {
            assert(old_tail != old_head);
            assert(old_tail != new_head);
            if tail_cell == new_cell {
                assert(b2.cell(tail_cell) == b0.cell(tail_cell).push(Some(tier)));
                assert(b2.cell(tail_cell).drop_last() == b0.cell(tail_cell));
            }
            if tail_cell == (old_head.0, old_head.1) {
                crate::arena::lemma_count_update(b2.cell(tail_cell), old_head.2 as int, Some(Tier::body_spec(new_head)));
            }
        }
        if tail_depth > max_tier {
            max_tier = tail_depth;
        }
        let next = match get_tier(&self.board, old_tail) {
            Tier::Node { prev: Some(n), .. } => n,
            _ => {
                proof {
                    assert(false);
                }
                old_tail
            },
        };
        let ghost b3 = self.board;
        proof {
            reveal(chains_ok);
            assert forall|j: int| 0 <= j < SNAKES && j != idx implies snakes0[j].head != old_tail by {
                assert(chain_linked(b0, snakes0[j], chains0[j]));
                let cj = chains0[j];
                assert(cj[cj.len() - 1] != c[0]);
            }
        }
        let ghost chains1 = self.chains@;
        let ghost snakes1 = self.snakes@;
        delete_tier(&mut self.board, old_tail);
        self.snakes.set(idx, Snake { head: new_head, tail: next });
        proof {
            lemma_retract(b3, self.board, snakes1, chains1, idx as int);
            self.chains = Ghost(chains1.update(idx as int, chains1[idx as int].drop_first()));
            assert(self.chains@[idx as int] =~= c.drop_first().push(new_head));
            assert(self.snakes@ == snakes1.update(idx as int, Snake { head: new_head, tail: chains1[idx as int][1] }));
            assert forall|m: Location| #[trigger] self.board.tile(m) == Game::one_tile(
                *old(self),
                *self,
                idx as int,
                false,
                m,
            ) by {}
        }
        (false, max_tier)
    }

    pub proof fn lemma_first_bingo(&self, i: int)
        requires
            0 <= i <= SNAKES,
        ensures
            i <= self.first_bingo(i) <= SNAKES,
        decreases SNAKES - i,
    {
        if i < SNAKES && !self.bingo_at(i) {
            self.lemma_first_bingo(i + 1);
        }
    }

    /// The snakes before `k` have moved without growing and the others have not moved yet.
    pub open spec fn partly_moved(&self, g0: Game, k: int) -> bool {
        &&& forall|i: int|
            0 <= i < k ==> #[trigger] self.chains()[i] == g0.chains()[i].drop_first().push(
                self.spec_snakes()[i].head,
            ) && self.head_cell(i) == g0.next_cell(i)
        &&& forall|i: int|
            k <= i < SNAKES ==> #[trigger] self.spec_snakes()[i] == g0.spec_snakes()[i]
                && self.chains()[i] == g0.chains()[i]
    }

    /// Snake `k` alone has moved from `before` to `after`, growing exactly when it reached
    /// the flower.
    pub open spec fn one_moved(after: Game, before: Game, k: int, bingo: bool) -> bool {
        &&& bingo == before.bingo_at(k)
        &&& after.head_cell(k) == before.next_cell(k)
        &&& forall|j: int|
            0 <= j < SNAKES && j != k ==> #[trigger] after.spec_snakes()[j] == before.spec_snakes()[j]
                && after.chains()[j] == before.chains()[j]
        &&& bingo ==> after.chains()[k] == before.chains()[k].push(after.spec_snakes()[k].head)
        &&& !bingo ==> after.chains()[k] == before.chains()[k].drop_first().push(
            after.spec_snakes()[k].head,
        )
    }

    proof fn lemma_tick_go_on(g0: Game, before: Game, after: Game, k: int)
        requires
            0 <= k < SNAKES,
            g0.first_bingo(0) == g0.first_bingo(k),
            before.partly_moved(g0, k),
            before.spec_flower() == g0.spec_flower(),
            Game::one_moved(after, before, k, false),
        ensures
            after.partly_moved(g0, k + 1),
            g0.first_bingo(0) == g0.first_bingo(k + 1),
    {
        assert(before.spec_snakes()[k] == g0.spec_snakes()[k]);
        assert(before.next_cell(k) == g0.next_cell(k));
        assert forall|i: int| 0 <= i < k + 1 implies #[trigger] after.chains()[i]
            == g0.chains()[i].drop_first().push(after.spec_snakes()[i].head) && after.head_cell(i)
            == g0.next_cell(i) by {
            if i < k {
                assert(before.chains()[i] == g0.chains()[i].drop_first().push(
                    before.spec_snakes()[i].head,
                ));
                assert(after.spec_snakes()[i] == before.spec_snakes()[i]);
            }
        }
        assert forall|i: int| k + 1 <= i < SNAKES implies #[trigger] after.spec_snakes()[i]
            == g0.spec_snakes()[i] && after.chains()[i] == g0.chains()[i] by {
            assert(after.spec_snakes()[i] == before.spec_snakes()[i]);
            assert(before.spec_snakes()[i] == g0.spec_snakes()[i]);
        }
    }

    proof fn lemma_tick_stop(g0: Game, before: Game, after: Game, k: int)
        requires
            0 <= k < SNAKES,
            g0.first_bingo(0) == g0.first_bingo(k),
            before.partly_moved(g0, k),
            before.spec_flower() == g0.spec_flower(),
            Game::one_moved(after, before, k, true),
        ensures
            forall|i: int| 0 <= i < SNAKES ==> #[trigger] after.moved(g0, i),
            g0.first_bingo(0) == k,
    {
        assert(before.spec_snakes()[k] == g0.spec_snakes()[k]);
        assert(before.next_cell(k) == g0.next_cell(k));
        assert forall|i: int| 0 <= i < SNAKES implies #[trigger] after.moved(g0, i) by {
            if i < k {
                assert(before.chains()[i] == g0.chains()[i].drop_first().push(
                    before.spec_snakes()[i].head,
                ));
                assert(after.spec_snakes()[i] == before.spec_snakes()[i]);
            } else if i > k {
                assert(after.spec_snakes()[i] == before.spec_snakes()[i]);
                assert(before.spec_snakes()[i] == g0.spec_snakes()[i]);
            }
        }
    }

    /// The tile at `m` once snakes `0..k` have moved without a bingo from `g0` to `a`.
    pub open spec fn mov_tile(g0: Game, a: Game, k: int, m: Location) -> Option<Tier>
        decreases k,
    {
        if k <= 0 {
            g0.spec_board().tile(m)
        } else if m == g0.spec_snakes()[k - 1].head {
            Some(Tier::body_spec(a.spec_snakes()[k - 1].head))
        } else if m == a.spec_snakes()[k - 1].head {
            Some(g0.head_tier(k - 1))
        } else if m == g0.spec_snakes()[k - 1].tail {
            None
        } else {
            Game::mov_tile(g0, a, k - 1, m)
        }
    }

    /// The tile at `m` after a whole tick from `g0` to `a`: the snakes before the first
    /// bingo moved as in `mov_tile`; the one that reached the flower moved its head,
    /// kept its tail, ate the flower and a new one grew.
    pub open spec fn tick_tile(g0: Game, a: Game, m: Location) -> Option<Tier> {
        let f = g0.first_bingo(0);
        if f < SNAKES {
            if m == g0.spec_snakes()[f].head {
                Some(Tier::body_spec(a.spec_snakes()[f].head))
            } else if m == a.spec_snakes()[f].head {
                Some(g0.head_tier(f))
            } else if m == a.spec_flower() {
                Some(Tier::Flower)
            } else if m == g0.spec_flower() {
                eaten(a.spec_board(), m)
            } else {
                Game::mov_tile(g0, a, f, m)
            }
        } else {
            Game::mov_tile(g0, a, SNAKES as int, m)
        }
    }

    proof fn lemma_mov_tile_same(g0: Game, a1: Game, a2: Game, k: int, m: Location)
        requires
            forall|i: int| 0 <= i < k ==> #[trigger] a1.spec_snakes()[i] == a2.spec_snakes()[i],
        ensures
            Game::mov_tile(g0, a1, k, m) == Game::mov_tile(g0, a2, k, m),
        decreases k,
    {
        if k > 0 {
            assert(a1.spec_snakes()[k - 1] == a2.spec_snakes()[k - 1]);
            Game::lemma_mov_tile_same(g0, a1, a2, k - 1, m);
        }
    }

    /// The two ends of every snake are distinct live snake tiles, and no two snakes
    /// share an end.
    proof fn lemma_ends(&self)
        requires
            self.wf(),
        ensures
            forall|i: int|
                0 <= i < SNAKES ==> ((#[trigger] self.spec_board().tile(self.spec_snakes()[i].head))
                    matches Some(t) && t is Node),
            forall|i: int|
                0 <= i < SNAKES ==> ((#[trigger] self.spec_board().tile(self.spec_snakes()[i].tail))
                    matches Some(t) && t is Node),
            forall|i: int, j: int|
                0 <= i < SNAKES && 0 <= j < SNAKES ==> #[trigger] self.spec_snakes()[i].head
                    != #[trigger] self.spec_snakes()[j].tail,
            forall|i: int, j: int|
                0 <= i < SNAKES && 0 <= j < SNAKES && i != j ==> #[trigger] self.spec_snakes()[i].head
                    != #[trigger] self.spec_snakes()[j].head,
            forall|i: int, j: int|
                0 <= i < SNAKES && 0 <= j < SNAKES && i != j ==> #[trigger] self.spec_snakes()[i].tail
                    != #[trigger] self.spec_snakes()[j].tail,
    {
        reveal(chains_ok);
        let b = self.spec_board();
        let c = self.chains();
        lemma_chains_live(b, self.spec_snakes(), c);
        assert forall|i: int| 0 <= i < SNAKES implies chain_linked(b, self.spec_snakes()[i], c[i]) by {}
        assert forall|i: int|
            0 <= i < SNAKES implies ((#[trigger] b.tile(self.spec_snakes()[i].head)) matches Some(t)
            && t is Node) by {
            assert(chain_linked(b, self.spec_snakes()[i], c[i]));
            assert(b.tile(c[i][c[i].len() - 1]) matches Some(t) && t is Node);
        }
        assert forall|i: int|
            0 <= i < SNAKES implies ((#[trigger] b.tile(self.spec_snakes()[i].tail)) matches Some(t)
            && t is Node) by {
            assert(chain_linked(b, self.spec_snakes()[i], c[i]));
            assert(b.tile(c[i][0]) matches Some(t) && t is Node);
        }
        assert forall|i: int, j: int|
            0 <= i < SNAKES && 0 <= j < SNAKES implies #[trigger] self.spec_snakes()[i].head
            != #[trigger] self.spec_snakes()[j].tail by {
            assert(chain_linked(b, self.spec_snakes()[i], c[i]));
            assert(chain_linked(b, self.spec_snakes()[j], c[j]));
            assert(c[i][c[i].len() - 1] != c[j][0]);
        }
        assert forall|i: int, j: int|
            0 <= i < SNAKES && 0 <= j < SNAKES && i != j implies #[trigger] self.spec_snakes()[i].head
            != #[trigger] self.spec_snakes()[j].head by {
            assert(chain_linked(b, self.spec_snakes()[i], c[i]));
            assert(chain_linked(b, self.spec_snakes()[j], c[j]));
            assert(c[i][c[i].len() - 1] != c[j][c[j].len() - 1]);
        }
        assert forall|i: int, j: int|
            0 <= i < SNAKES && 0 <= j < SNAKES && i != j implies #[trigger] self.spec_snakes()[i].tail
            != #[trigger] self.spec_snakes()[j].tail by {
            assert(chain_linked(b, self.spec_snakes()[i], c[i]));
            assert(chain_linked(b, self.spec_snakes()[j], c[j]));
            assert(c[i][0] != c[j][0]);
        }
    }

    proof fn lemma_mov_tile_kept(g0: Game, a: Game, k: int, l: Location)
        requires
            0 <= k <= SNAKES,
            g0.spec_snakes().len() == SNAKES,
            g0.spec_board().tile(l) is Some,
            forall|i: int|
                0 <= i < k ==> l != #[trigger] g0.spec_snakes()[i].head && l != g0.spec_snakes()[i].tail,
            forall|i: int| 0 <= i < k ==> (#[trigger] g0.spec_board().tile(a.spec_snakes()[i].head)) is None,
        ensures
            Game::mov_tile(g0, a, k, l) == g0.spec_board().tile(l),
        decreases k,
    {
        if k > 0 {
            assert(l != g0.spec_snakes()[k - 1].head);
            assert(g0.spec_board().tile(a.spec_snakes()[k - 1].head) is None);
            Game::lemma_mov_tile_kept(g0, a, k - 1, l);
        }
    }

    proof fn lemma_mov_tile_tail(g0: Game, a: Game, k: int, i: int)
        requires
            0 <= i < k <= SNAKES,
            g0.wf(),
            a.spec_snakes().len() == SNAKES,
            forall|j: int| 0 <= j < k ==> (#[trigger] g0.spec_board().tile(a.spec_snakes()[j].head)) is None,
        ensures
            Game::mov_tile(g0, a, k, g0.spec_snakes()[i].tail) is None,
        decreases k,
    {
        g0.lemma_ends();
        let l = g0.spec_snakes()[i].tail;
        assert(g0.spec_board().tile(l) is Some);
        assert(l != g0.spec_snakes()[k - 1].head);
        assert(g0.spec_board().tile(a.spec_snakes()[k - 1].head) is None);
        if k - 1 != i {
            assert(l != g0.spec_snakes()[k - 1].tail);
            Game::lemma_mov_tile_tail(g0, a, k - 1, i);
        }
    }

    /// Consequences of a tick's tile effect for the tails, the eaten flower and the
    /// snakes that did not move.
    proof fn lemma_tick_facts(g0: Game, a: Game)
        requires
            g0.wf(),
            a.spec_snakes().len() == SNAKES,
            forall|m: Location| #[trigger] a.spec_board().tile(m) == Game::tick_tile(g0, a, m),
            forall|i: int|
                0 <= i <= g0.first_bingo(0) && i < SNAKES ==> (#[trigger] g0.spec_board().tile(
                    a.spec_snakes()[i].head,
                )) is None,
            g0.first_bingo(0) < SNAKES ==> g0.spec_board().tile(a.spec_flower()) is None,
        ensures
            forall|i: int|
                0 <= i < g0.first_bingo(0) && i < SNAKES ==> (#[trigger] a.spec_board().tile(
                    g0.spec_snakes()[i].tail,
                )) is None,
            g0.first_bingo(0) < SNAKES ==> a.spec_board().tile(g0.spec_flower()) == eaten(
                a.spec_board(),
                g0.spec_flower(),
            ),
            forall|i: int|
                g0.first_bingo(0) < i < SNAKES ==> a.spec_board().tile(g0.spec_snakes()[i].head)
                    == g0.spec_board().tile(g0.spec_snakes()[i].head) && a.spec_board().tile(
                    #[trigger] g0.spec_snakes()[i].tail,
                ) == g0.spec_board().tile(g0.spec_snakes()[i].tail),
    {
        g0.lemma_ends();
        g0.lemma_first_bingo(0);
        let f = g0.first_bingo(0);
        let fl = g0.spec_flower();
        let k = if f < SNAKES { f } else { SNAKES as int };
        assert forall|j: int| 0 <= j < k implies (#[trigger] g0.spec_board().tile(
            a.spec_snakes()[j].head,
        )) is None by {}
        assert forall|i: int| 0 <= i < f && i < SNAKES implies (#[trigger] a.spec_board().tile(
            g0.spec_snakes()[i].tail,
        )) is None by {
            Game::lemma_mov_tile_tail(g0, a, k, i);
            if f < SNAKES {
                assert(g0.spec_board().tile(g0.spec_snakes()[i].tail) is Some);
                assert(g0.spec_snakes()[f].head != g0.spec_snakes()[i].tail);
            }
        }
        if f < SNAKES {
            assert(g0.spec_board().tile(g0.spec_snakes()[f].head) matches Some(t) && t is Node);
        }
        assert forall|i: int| f < i < SNAKES implies a.spec_board().tile(g0.spec_snakes()[i].head)
            == g0.spec_board().tile(g0.spec_snakes()[i].head) && a.spec_board().tile(
            #[trigger] g0.spec_snakes()[i].tail,
        ) == g0.spec_board().tile(g0.spec_snakes()[i].tail) by {
            let h = g0.spec_snakes()[i].head;
            let t = g0.spec_snakes()[i].tail;
            assert(g0.spec_snakes()[f].head != h);
            assert(g0.spec_snakes()[f].head != t);
            assert forall|j: int| 0 <= j < k implies h != #[trigger] g0.spec_snakes()[j].head
                && h != g0.spec_snakes()[j].tail by {
                assert(g0.spec_snakes()[j].head != h);
            }
            assert forall|j: int| 0 <= j < k implies t != #[trigger] g0.spec_snakes()[j].head
                && t != g0.spec_snakes()[j].tail by {
                assert(g0.spec_snakes()[j].tail != t);
            }
            Game::lemma_mov_tile_kept(g0, a, k, h);
            Game::lemma_mov_tile_kept(g0, a, k, t);
        }
    }

    /// Number of tiles among the slots below `n` of cell `c`, once snakes `0..k` have
    /// moved from `g0` to `a`.
    pub open spec fn live_below(g0: Game, a: Game, k: int, c: (i16, i16), n: nat) -> nat
        decreases n,
    {
        if n == 0 {
            0
        } else {
            Game::live_below(g0, a, k, c, (n - 1) as nat) + if Game::mov_tile(
                g0,
                a,
                k,
                (c.0, c.1, (n - 1) as usize),
            ) is Some {
                1nat
            } else {
                0nat
            }
        }
    }

    /// The stack depth of cell `c` once snakes `0..k` have moved from `g0` to `a`.
    pub open spec fn depth_after(g0: Game, a: Game, k: int, c: (i16, i16)) -> int {
        Game::live_below(g0, a, k, c, usize::MAX as nat) as int
    }

    /// The largest depth snake `i` saw: at its new head right after the push and,
    /// unless it reached the flower, at its old tail before the removal.
    pub open spec fn seen(g0: Game, a: Game, i: int) -> int {
        let h = Game::depth_after(g0, a, i, g0.next_cell(i)) + 1;
        let t = (g0.spec_snakes()[i].tail.0, g0.spec_snakes()[i].tail.1);
        if i == g0.first_bingo(0) {
            h
        } else {
            vstd::math::max(
                h,
                Game::depth_after(g0, a, i, t) + if t == g0.next_cell(i) {
                    1int
                } else {
                    0int
                },
            )
        }
    }

    /// The largest depth seen by snakes `0..k`.
    pub open spec fn tick_depth(g0: Game, a: Game, k: int) -> int
        decreases k,
    {
        if k <= 0 {
            0
        } else {
            vstd::math::max(Game::tick_depth(g0, a, k - 1), Game::seen(g0, a, k - 1))
        }
    }

    proof fn lemma_live_below_same(g0: Game, a1: Game, a2: Game, k: int, c: (i16, i16), n: nat)
        requires
            forall|i: int| 0 <= i < k ==> #[trigger] a1.spec_snakes()[i] == a2.spec_snakes()[i],
        ensures
            Game::live_below(g0, a1, k, c, n) == Game::live_below(g0, a2, k, c, n),
        decreases n,
    {
        if n > 0 {
            Game::lemma_live_below_same(g0, a1, a2, k, c, (n - 1) as nat);
            Game::lemma_mov_tile_same(g0, a1, a2, k, (c.0, c.1, (n - 1) as usize));
        }
    }

    proof fn lemma_tick_depth_same(g0: Game, a1: Game, a2: Game, k: int)
        requires
            forall|i: int| 0 <= i < k ==> #[trigger] a1.spec_snakes()[i] == a2.spec_snakes()[i],
        ensures
            Game::tick_depth(g0, a1, k) == Game::tick_depth(g0, a2, k),
        decreases k,
    {
        if k > 0 {
            Game::lemma_tick_depth_same(g0, a1, a2, k - 1);
            let t = (g0.spec_snakes()[k - 1].tail.0, g0.spec_snakes()[k - 1].tail.1);
            Game::lemma_live_below_same(g0, a1, a2, k - 1, g0.next_cell(k - 1), usize::MAX as nat);
            Game::lemma_live_below_same(g0, a1, a2, k - 1, t, usize::MAX as nat);
        }
    }

    proof fn lemma_live_below_count(g0: Game, a: Game, k: int, b: Board, c: (i16, i16), n: nat)
        requires
            in_range(c),
            b.cell(c).len() <= usize::MAX,
            n <= usize::MAX,
            forall|m: Location| #[trigger] b.tile(m) == Game::mov_tile(g0, a, k, m),
        ensures
            n <= b.cell(c).len() ==> Game::live_below(g0, a, k, c, n) == count_live(
                b.cell(c).subrange(0, n as int),
            ),
            n > b.cell(c).len() ==> Game::live_below(g0, a, k, c, n) == count_live(b.cell(c)),
        decreases n,
    {
        let s = b.cell(c);
        if n > 0 {
            Game::lemma_live_below_count(g0, a, k, b, c, (n - 1) as nat);
            let m = (c.0, c.1, (n - 1) as usize);
            assert(b.tile(m) == Game::mov_tile(g0, a, k, m));
            if n <= s.len() {
                assert(s.subrange(0, n as int).drop_last() =~= s.subrange(0, n - 1));
                assert(b.tile(m) == s[n - 1]);
            } else if n - 1 == s.len() {
                assert(s.subrange(0, n - 1) =~= s);
            }
        } else {
            assert(s.subrange(0, 0) =~= Seq::<Option<Tier>>::empty());
        }
    }

    proof fn lemma_depth_after(g0: Game, a: Game, k: int, b: Board, c: (i16, i16))
        requires
            in_range(c),
            b.cell(c).len() <= usize::MAX,
            forall|m: Location| #[trigger] b.tile(m) == Game::mov_tile(g0, a, k, m),
        ensures
            b.depth(c) == Game::depth_after(g0, a, k, c),
    {
        Game::lemma_live_below_count(g0, a, k, b, c, usize::MAX as nat);
        assert(b.cell(c).subrange(0, b.cell(c).len() as int) =~= b.cell(c));
    }

    proof fn lemma_seen_step(g0: Game, before: Game, after: Game, k: int, bingo: bool, depth: int)
        requires
            g0.wf(),
            0 <= k < SNAKES,
            before.spec_board().wf(),
            g0.first_bingo(0) == g0.first_bingo(k),
            before.spec_snakes()[k] == g0.spec_snakes()[k],
            before.spec_flower() == g0.spec_flower(),
            forall|m: Location| #[trigger] before.spec_board().tile(m) == Game::mov_tile(g0, before, k, m),
            forall|i: int| 0 <= i < k ==> #[trigger] before.spec_snakes()[i] == after.spec_snakes()[i],
            bingo == before.bingo_at(k),
            depth == if bingo {
                before.spec_board().depth(before.next_cell(k)) as int + 1
            } else {
                vstd::math::max(
                    before.spec_board().depth(before.next_cell(k)) as int + 1,
                    before.spec_board().depth(
                        (before.spec_snakes()[k].tail.0, before.spec_snakes()[k].tail.1),
                    ) + if (before.spec_snakes()[k].tail.0, before.spec_snakes()[k].tail.1)
                        == before.next_cell(k) {
                        1int
                    } else {
                        0int
                    },
                )
            },
        ensures
            Game::tick_depth(g0, after, k + 1) == vstd::math::max(
                Game::tick_depth(g0, before, k),
                depth,
            ),
    {
        let cn = g0.next_cell(k);
        let ct = (g0.spec_snakes()[k].tail.0, g0.spec_snakes()[k].tail.1);
        g0.lemma_ends();
        assert(g0.spec_board().tile(g0.spec_snakes()[k].tail) is Some);
        assert(in_range(ct));
        lemma_target_in_range(g0.flower_cell(), g0.head_cell(k));
        crate::board::lemma_cell_index(cn, cn);
        crate::board::lemma_cell_index(ct, ct);
        assert(before.spec_board().cells()[cell_index(cn)].wf());
        assert(before.spec_board().cells()[cell_index(ct)].wf());
        Game::lemma_depth_after(g0, before, k, before.spec_board(), cn);
        Game::lemma_depth_after(g0, before, k, before.spec_board(), ct);
        Game::lemma_live_below_same(g0, before, after, k, cn, usize::MAX as nat);
        Game::lemma_live_below_same(g0, before, after, k, ct, usize::MAX as nat);
        Game::lemma_tick_depth_same(g0, before, after, k);
        g0.lemma_first_bingo(k + 1);
        assert(bingo == (k == g0.first_bingo(0)));
    }

    /// What one tick did to snake `i`, against the state `g0` before it: snakes before
    /// the first one to reach the flower moved without growing, that one grew by its
    /// new head, and the later ones did not move.
    pub open spec fn moved(&self, g0: Game, i: int) -> bool {
        let f = g0.first_bingo(0);
        if i < f {
            self.head_cell(i) == g0.next_cell(i) && self.chains()[i] == g0.chains()[i].drop_first().push(
                self.spec_snakes()[i].head,
            )
        } else if i == f {
            self.head_cell(i) == g0.next_cell(i) && self.chains()[i] == g0.chains()[i].push(
                self.spec_snakes()[i].head,
            )
        } else {
            self.spec_snakes()[i] == g0.spec_snakes()[i] && self.chains()[i] == g0.chains()[i]
        }
    }

    /// Advances every snake by one step, in index order, stopping right after the
    /// first one that reaches the flower; the new flower grows on the cell `spawn`
    /// stands for, and the count of flowers eaten goes up by one (staying at the
    /// largest `u32` once there). Returns the largest stack depth seen on the way.
    #[verifier::rlimit(100)]
    pub fn mov(&mut self, spawn: u16) -> (r: usize)
        requires
            old(self).wf(),
            spawn < CELLS,
        ensures
            final(self).wf(),
            forall|i: int| 0 <= i < SNAKES ==> #[trigger] final(self).moved(*old(self), i),
            forall|i: int|
                0 <= i <= old(self).first_bingo(0) && i < SNAKES ==> #[trigger] final(self).spec_board().tile(
                    final(self).spec_snakes()[i].head,
                ) == Some(old(self).head_tier(i)),
            r == Game::tick_depth(
                *old(self),
                *final(self),
                if old(self).first_bingo(0) < SNAKES {
                    old(self).first_bingo(0) + 1
                } else {
                    SNAKES as int
                },
            ),
            forall|m: Location| #[trigger] final(self).spec_board().tile(m) == Game::tick_tile(
                *old(self),
                *final(self),
                m,
            ),
            forall|i: int|
                0 <= i <= old(self).first_bingo(0) && i < SNAKES ==> (#[trigger] old(
                    self,
                ).spec_board().tile(final(self).spec_snakes()[i].head)) is None,
            old(self).first_bingo(0) < SNAKES ==> old(self).spec_board().tile(final(self).spec_flower())
                is None,
            forall|i: int|
                0 <= i < old(self).first_bingo(0) && i < SNAKES ==> (#[trigger] final(self).spec_board().tile(old(self).spec_snakes()[i].tail)) is None,
            old(self).first_bingo(0) < SNAKES ==> final(self).spec_board().tile(old(self).spec_flower())
                == eaten(final(self).spec_board(), old(self).spec_flower()),
            forall|i: int|
                old(self).first_bingo(0) < i < SNAKES ==> final(self).spec_board().tile(
                    old(self).spec_snakes()[i].head,
                ) == old(self).spec_board().tile(old(self).spec_snakes()[i].head) && final(self).spec_board().tile(#[trigger] old(self).spec_snakes()[i].tail) == old(
                    self,
                ).spec_board().tile(old(self).spec_snakes()[i].tail),
            old(self).first_bingo(0) < SNAKES ==> final(self).spec_bingos() == bumped(old(self).spec_bingos()) && final(self).spec_lucky_guy() == Some(old(self).first_bingo(0) as usize)
                && final(self).flower_cell() == pick_cell(spawn),
            old(self).first_bingo(0) == SNAKES ==> final(self).spec_bingos() == old(self).spec_bingos()
                && final(self).spec_lucky_guy() == old(self).spec_lucky_guy() && final(self).spec_flower()
                == old(self).spec_flower(),
    {
        let ghost g0 = *self;
        let mut max_tier: usize = 0;
        let mut k: usize = 0;
        while k < SNAKES
            invariant
                k <= SNAKES,
                spawn < CELLS,
                self.wf(),
                g0.wf(),
                g0 == *old(self),
                g0.first_bingo(0) == g0.first_bingo(k as int),
                self.spec_flower() == g0.spec_flower(),
                self.spec_lucky_guy() == g0.spec_lucky_guy(),
                self.spec_bingos() == g0.spec_bingos(),
                self.partly_moved(g0, k as int),
                forall|i: int|
                    0 <= i < k ==> #[trigger] self.spec_board().tile(self.spec_snakes()[i].head)
                        == Some(g0.head_tier(i)),
                k == 0 ==> *self == g0,
                max_tier == Game::tick_depth(g0, *self, k as int),
                forall|m: Location| #[trigger] self.spec_board().tile(m) == Game::mov_tile(
                    g0,
                    *self,
                    k as int,
                    m,
                ),
                forall|q: (i16, i16)|
                    in_range(q) ==> #[trigger] self.spec_board().cell(q).len() >= g0.spec_board().cell(
                        q,
                    ).len(),
                forall|i: int|
                    0 <= i < k ==> (#[trigger] g0.spec_board().tile(self.spec_snakes()[i].head)) is None,
                forall|q: (i16, i16)|
                    in_range(q) ==> #[trigger] self.spec_board().cell(q).len() <= g0.spec_board().cell(
                        q,
                    ).len() + 2 * k,
            decreases SNAKES - k,
        {
            let ghost before = *self;
            assert(self.spec_snakes()[k as int] == g0.spec_snakes()[k as int]);
            let (bingo, depth) = self.move_snake(k, spawn);
            proof {
                Game::lemma_seen_step(g0, before, *self, k as int, bingo, depth as int);
            }
            proof {
                assert(before.spec_snakes()[k as int] == g0.spec_snakes()[k as int]);
                assert(before.head_tier(k as int) == g0.head_tier(k as int));
                assert forall|i: int| 0 <= i < k implies #[trigger] before.spec_snakes()[i]
                    == self.spec_snakes()[i] by {}
                assert forall|m: Location| #[trigger] self.spec_board().tile(m) == (if bingo {
                    Game::tick_tile(g0, *self, m)
                } else {
                    Game::mov_tile(g0, *self, k as int + 1, m)
                }) by {
                    Game::lemma_mov_tile_same(g0, before, *self, k as int, m);
                    if bingo {
                        g0.lemma_first_bingo(k as int);
                        assert(g0.first_bingo(0) == k);
                    }
                }
                let nh = self.spec_snakes()[k as int].head;
                assert(nh.2 >= g0.spec_board().cell((nh.0, nh.1)).len());
                assert forall|i: int| 0 <= i < k + 1 implies (#[trigger] g0.spec_board().tile(
                    self.spec_snakes()[i].head,
                )) is None by {
                    if i < k {
                        assert(self.spec_snakes()[i] == before.spec_snakes()[i]);
                    }
                }
                if bingo {
                    let nf = self.spec_flower();
                    assert(nf.2 >= g0.spec_board().cell((nf.0, nf.1)).len());
                }
                assert forall|i: int| 0 <= i < k + 1 implies #[trigger] self.spec_board().tile(
                    self.spec_snakes()[i].head,
                ) == Some(g0.head_tier(i)) by {
                    if i < k {
                        assert(before.spec_board().tile(before.spec_snakes()[i].head) == Some(
                            g0.head_tier(i),
                        ));
                        assert(self.spec_snakes()[i] == before.spec_snakes()[i]);
                    }
                }
            }
            if depth > max_tier {
                max_tier = depth;
            }
            if bingo {
                proof {
                    Game::lemma_tick_stop(g0, before, *self, k as int);
                    Game::lemma_tick_facts(g0, *self);
                    assert(g0 == *old(self));
                    assert(self.spec_bingos() == bumped(before.spec_bingos()));
                }
                return max_tier;
            }
            proof {
                Game::lemma_tick_go_on(g0, before, *self, k as int);
            }
            k = k + 1;
        }
        proof {
            g0.lemma_first_bingo(SNAKES as int);
            assert forall|m: Location| #[trigger] self.spec_board().tile(m) == Game::tick_tile(
                g0,
                *self,
                m,
            ) by {}
            Game::lemma_tick_facts(g0, *self);
            assert forall|i: int| 0 <= i < SNAKES implies #[trigger] self.moved(g0, i) by {
                assert(0 <= i < SNAKES);
                assert(self.chains()[i] == g0.chains()[i].drop_first().push(
                    self.spec_snakes()[i].head,
                ));
            }
        }
        max_tier
    }

    /// Following body links from a snake's tail reaches its head after one link per
    /// segment but the head, and every tile passed on the way is a body tile.
    pub proof fn lemma_chain_integrity(&self, i: int)
        requires
            self.wf(),
            0 <= i < SNAKES,
        ensures
            self.length(i) >= 2,
            follow(self.spec_board(), self.spec_snakes()[i].tail, (self.length(i) - 1) as nat)
                == self.spec_snakes()[i].head,
            forall|k: nat|
                k < self.length(i) - 1 ==> ((#[trigger] self.spec_board().tile(
                    follow(self.spec_board(), self.spec_snakes()[i].tail, k),
                )) matches Some(t) && t is Node && t->node_type == NodeType::Body),
            self.spec_board().tile(self.spec_snakes()[i].head) matches Some(t) && t.is_head_spec(),
    {
        reveal(chains_ok);
        let c = self.chains()[i];
        let b = self.spec_board();
        assert(chain_linked(b, self.spec_snakes()[i], c));
        lemma_follow_chain(b, self.spec_snakes()[i], c, (c.len() - 1) as nat);
        assert forall|k: nat| k < c.len() - 1 implies ((#[trigger] b.tile(
            follow(b, self.spec_snakes()[i].tail, k),
        )) matches Some(t) && t is Node && t->node_type == NodeType::Body) by {
            lemma_follow_chain(b, self.spec_snakes()[i], c, k);
            assert(b.tile(c[k as int]) == Some(Tier::body_spec(c[k as int + 1])));
        }
    }

    /// A tick grows the first snake to reach the flower by one segment and leaves the
    /// length of every other snake as it was.
    pub proof fn lemma_growth(&self, g0: Game, i: int)
        requires
            g0.wf(),
            0 <= i < SNAKES,
            self.moved(g0, i),
        ensures
            i == g0.first_bingo(0) ==> self.length(i) == g0.length(i) + 1,
            i != g0.first_bingo(0) ==> self.length(i) == g0.length(i),
    {
        reveal(chains_ok);
        assert(chain_linked(g0.spec_board(), g0.spec_snakes()[i], g0.chains()[i]));
    }

    /// Number of flowers eaten so far.
    pub fn bingos(&self) -> (r: u32)
        ensures
            r == self.spec_bingos(),
    {
        self.bingos
    }

    /// The snake that ate last, if any.
    pub fn lucky_guy(&self) -> (r: Option<usize>)
        ensures
            r == self.spec_lucky_guy(),
    {
        self.lucky_guy
    }

    /// Where the flower is.
    pub fn flower(&self) -> (r: Location)
        ensures
            r == self.spec_flower(),
    {
        self.flower
    }

    /// Snake `i`.
    pub fn snake(&self, i: usize) -> (r: Snake)
        requires
            self.wf(),
            i < SNAKES,
        ensures
            r == self.spec_snakes()[i as int],
    {
        self.snakes[i]
    }

    /// The board.
    pub fn board(&self) -> (r: &Board)
        ensures
            *r == self.spec_board(),
    {
        &self.board
    }

    /// The glyph of every cell, row by row.
    pub fn draw(&self) -> (r: Vec<char>)
        requires
            self.wf(),
        ensures
            r@.len() == CELLS,
            forall|q: (i16, i16)| in_range(q) ==> #[trigger] r@[cell_index(q)] == self.spec_board().glyph_at(q),
    {
        self.board.glyphs()
    }
}

} // verus!
