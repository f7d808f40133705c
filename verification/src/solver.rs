//! The search engine: best-first search over the board's state graph,
//! ordered by moves taken plus a distance heuristic, preferring the longer
//! path among nodes of equal estimated cost. A found move sequence provably
//! replays from the starting board to the solved configuration.

use std::collections::HashMap;
use vstd::prelude::*;

use crate::board::can_move;
use crate::board::slide_seq;
use crate::board::solved_tiles;
use crate::board::Board;
use crate::board::Direction;

verus! {

/// True iff every move of `moves`, replayed in order from tiles `s` with the
/// blank at `e`, is legal when its turn comes.
pub open spec fn path_legal(s: Seq<u8>, e: int, moves: Seq<Direction>) -> bool
    decreases moves.len(),
{
    moves.len() == 0 || {
        &&& can_move(e, moves[0])
        &&& path_legal(slide_seq(s, e, moves[0]), e + moves[0].offset(), moves.drop_first())
    }
}

/// The tile sequence after replaying `moves` from tiles `s` with the blank
/// at `e`.
pub open spec fn replay_tiles(s: Seq<u8>, e: int, moves: Seq<Direction>) -> Seq<u8>
    decreases moves.len(),
{
    if moves.len() == 0 {
        s
    } else {
        replay_tiles(slide_seq(s, e, moves[0]), e + moves[0].offset(), moves.drop_first())
    }
}

/// The blank index after replaying `moves` from blank index `e`.
pub open spec fn replay_blank(e: int, moves: Seq<Direction>) -> int
    decreases moves.len(),
{
    if moves.len() == 0 {
        e
    } else {
        replay_blank(e + moves[0].offset(), moves.drop_first())
    }
}

/// Extending a legal path by one legal move keeps it legal and replays to
/// the slid position.
pub proof fn lemma_path_push(s: Seq<u8>, e: int, moves: Seq<Direction>, d: Direction)
    requires
        path_legal(s, e, moves),
        can_move(replay_blank(e, moves), d),
    ensures
        path_legal(s, e, moves.push(d)),
        replay_tiles(s, e, moves.push(d)) == slide_seq(
            replay_tiles(s, e, moves),
            replay_blank(e, moves),
            d,
        ),
        replay_blank(e, moves.push(d)) == replay_blank(e, moves) + d.offset(),
    decreases moves.len(),
{
    let p = moves.push(d);
    if moves.len() == 0 {
        assert(p[0] == d);
        assert(p.drop_first() =~= Seq::<Direction>::empty());
        assert(path_legal(slide_seq(s, e, d), e + d.offset(), p.drop_first()));
        assert(replay_tiles(slide_seq(s, e, d), e + d.offset(), p.drop_first()) == slide_seq(
            s,
            e,
            d,
        ));
        assert(replay_blank(e + d.offset(), p.drop_first()) == e + d.offset());
        assert(replay_tiles(s, e, moves) == s);
        assert(replay_blank(e, moves) == e);
    } else {
        assert(p[0] == moves[0]);
        assert(p.drop_first() =~= moves.drop_first().push(d));
        let s1 = slide_seq(s, e, moves[0]);
        let e1 = e + moves[0].offset();
        assert(replay_blank(e, moves) == replay_blank(e1, moves.drop_first()));
        lemma_path_push(s1, e1, moves.drop_first(), d);
        assert(path_legal(s1, e1, p.drop_first()));
        assert(path_legal(s, e, p));
        assert(replay_tiles(s, e, p) == replay_tiles(s1, e1, p.drop_first()));
        assert(replay_blank(e, p) == replay_blank(e1, p.drop_first()));
    }
}

/// The straight-line distance heuristic for one tile: the absolute offset of
/// `v` from its place in the solved configuration, read as rows plus columns.
pub open spec fn manhattan_spec(v: int, i: int) -> int {
    let d = vstd::math::abs(v - 1 - i) as int;
    d / 4 + d % 4
}

/// The heuristic summed over the tiles of `s` from index `i` on.
pub open spec fn heur_from(s: Seq<u8>, i: int) -> int
    decreases 16 - i,
{
    if i < 0 || 16 <= i {
        0
    } else {
        manhattan_spec(s[i] as int, i) + heur_from(s, i + 1)
    }
}

/// The heuristic of a whole board: the sum over all 16 indices, the blank's
/// term included.
pub open spec fn heuristic_spec(s: Seq<u8>) -> int {
    heur_from(s, 0)
}

/// One frontier entry: the moves taken so far and the board they lead to.
struct Solution {
    moves: Vec<Direction>,
    board: Board,
}

/// An entry is sound for a search rooted at `(s0, e0)` when its moves form a
/// legal path from the root and its board is the replayed result.
spec fn good_node(sol: Solution, s0: Seq<u8>, e0: int) -> bool {
    &&& sol.board.wf()
    &&& path_legal(s0, e0, sol.moves@)
    &&& sol.board.tiles_seq() == replay_tiles(s0, e0, sol.moves@)
    &&& sol.board.blank() == replay_blank(e0, sol.moves@)
}

/// The frontier, bucketed by estimated total cost and, within one cost, by
/// path length: every stored entry is sound for the root.
spec fn frontier_good(b: Seq<Vec<Vec<Solution>>>, s0: Seq<u8>, e0: int) -> bool {
    forall|x: int, y: int, z: int|
        0 <= x < b.len() && 0 <= y < b[x]@.len() && 0 <= z < b[x]@[y]@.len() ==> good_node(
            #[trigger] b[x]@[y]@[z],
            s0,
            e0,
        )
}

/// The estimated total cost of an entry: the moves taken so far plus the
/// heuristic of its board, saturating at the largest bucket index.
spec fn entry_cost(sol: Solution) -> int {
    let c = sol.moves@.len() + heuristic_spec(sol.board.tiles_seq());
    if c > usize::MAX as int {
        usize::MAX as int
    } else {
        c
    }
}

/// Every entry sits in the bucket of its estimated cost and, within it, of
/// its path length.
spec fn frontier_placed(b: Seq<Vec<Vec<Solution>>>) -> bool {
    forall|x: int, y: int, z: int|
        0 <= x < b.len() && 0 <= y < b[x]@.len() && 0 <= z < b[x]@[y]@.len() ==> {
            let e = #[trigger] b[x]@[y]@[z];
            entry_cost(e) == x && e.moves@.len() == y
        }
}

/// Row `x` of the bucket table holds no entry.
spec fn row_empty(b: Seq<Vec<Vec<Solution>>>, x: int) -> bool {
    forall|y: int| 0 <= y < b[x]@.len() ==> b[x]@[y]@.len() == 0
}

/// `e` would leave the frontier no earlier than `sol`: it costs more, or it
/// costs the same and its path is no longer.
spec fn comes_no_earlier(e: Solution, sol: Solution) -> bool {
    ||| entry_cost(e) > entry_cost(sol)
    ||| (entry_cost(e) == entry_cost(sol) && e.moves@.len() <= sol.moves@.len())
}

/// The best-first solver.
pub struct Astar;

impl Astar {
    /// The heuristic term of the tile `tile` sitting at index `idx`.
    fn manhattan_dist(tile: u8, idx: usize) -> (r: usize)
        requires
            tile < 16,
            idx < 16,
        ensures
            r == manhattan_spec(tile as int, idx as int),
            r <= 6,
    {
        let v = tile as usize;
        let d: usize = if v >= 1 + idx {
            v - 1 - idx
        } else {
            1 + idx - v
        };
        (d / 4) + (d % 4)
    }

    /// The heuristic of a whole board.
    fn heuristic(b: &Board) -> (h: usize)
        requires
            b.wf(),
        ensures
            h == heuristic_spec(b.tiles_seq()),
            h <= 96,
    {
        let ghost s = b.tiles_seq();
        let tiles = b.tiles();
        let mut sum: usize = 0;
        let mut i: usize = 0;
        while i < 16
            invariant
                i <= 16,
                b.wf(),
                s == b.tiles_seq(),
                tiles@ == s,
                sum <= 6 * i,
                sum + heur_from(s, i as int) == heuristic_spec(s),
            decreases 16 - i,
        {
            sum = sum + Astar::manhattan_dist(tiles[i], i);
            i = i + 1;
        }
        sum
    }

    /// A 64-bit fingerprint of a board: four bits for each of the 16 tiles.
    /// Distinct well-formed boards get distinct fingerprints.
    fn fingerprint(b: &Board) -> (r: u64)
        requires
            b.wf(),
    {
        let tiles = b.tiles();
        let mut acc: u64 = 0;
        let mut i: usize = 0;
        while i < 16
            invariant
                i <= 16,
                tiles@.len() == 16,
            decreases 16 - i,
        {
            acc = (acc << 4u64) | (tiles[i] as u64);
            i = i + 1;
        }
        acc
    }

    /// Store `sol` in the bucket for estimated cost `f` and its path length,
    /// growing the bucket table as needed.
    fn frontier_push(
        buckets: &mut Vec<Vec<Vec<Solution>>>,
        f: usize,
        sol: Solution,
        Ghost(s0): Ghost<Seq<u8>>,
        Ghost(e0): Ghost<int>,
    )
        requires
            frontier_good(old(buckets)@, s0, e0),
            frontier_placed(old(buckets)@),
            good_node(sol, s0, e0),
            f as int == entry_cost(sol),
        ensures
            frontier_good(final(buckets)@, s0, e0),
            frontier_placed(final(buckets)@),
    {
        let g = sol.moves.len();
        while buckets.len() <= f
            invariant
                frontier_good(buckets@, s0, e0),
                frontier_placed(buckets@),
            decreases f + 1 - buckets.len(),
        {
            buckets.push(Vec::new());
        }
        while buckets[f].len() <= g
            invariant
                frontier_good(buckets@, s0, e0),
                frontier_placed(buckets@),
                f < buckets.len(),
            decreases g + 1 - buckets@[f as int]@.len(),
        {
            buckets[f].push(Vec::new());
        }
        buckets[f][g].push(sol);
    }

    /// Remove and return an entry of least estimated cost, preferring the
    /// longest path among those, or return None when the frontier is empty.
    fn frontier_pop(
        buckets: &mut Vec<Vec<Vec<Solution>>>,
        Ghost(s0): Ghost<Seq<u8>>,
        Ghost(e0): Ghost<int>,
    ) -> (r: Option<Solution>)
        requires
            frontier_good(old(buckets)@, s0, e0),
            frontier_placed(old(buckets)@),
        ensures
            frontier_good(final(buckets)@, s0, e0),
            frontier_placed(final(buckets)@),
            r matches Some(sol) ==> good_node(sol, s0, e0),
            r matches Some(sol) ==> (forall|x: int, y: int, z: int|
                0 <= x < final(buckets)@.len() && 0 <= y < final(buckets)@[x]@.len() && 0 <= z
                    < final(buckets)@[x]@[y]@.len() ==> comes_no_earlier(
                    #[trigger] final(buckets)@[x]@[y]@[z],
                    sol,
                )),
            r is None ==> forall|x: int|
                0 <= x < final(buckets)@.len() ==> row_empty(final(buckets)@, x),
    {
        let ghost n0 = buckets@.len();
        let mut f: usize = 0;
        while f < buckets.len()
            invariant
                frontier_good(buckets@, s0, e0),
                frontier_placed(buckets@),
                buckets@.len() == n0,
                forall|x: int| 0 <= x < f ==> row_empty(buckets@, x),
            decreases buckets.len() - f,
        {
            let mut g: usize = buckets[f].len();
            while g > 0
                invariant
                    frontier_good(buckets@, s0, e0),
                    frontier_placed(buckets@),
                    buckets@.len() == n0,
                    f < buckets.len(),
                    g <= buckets@[f as int]@.len(),
                    forall|x: int| 0 <= x < f ==> row_empty(buckets@, x),
                    forall|y2: int|
                        g <= y2 < buckets@[f as int]@.len() ==> buckets@[f as int]@[y2]@.len()
                            == 0,
                decreases g,
            {
                g = g - 1;
                if buckets[f][g].len() > 0 {
                    let ghost ob = buckets@;
                    let sol = buckets[f][g].pop().unwrap();
                    proof {
                        assert(sol == ob[f as int]@[g as int]@.last());
                        assert(entry_cost(sol) == f as int && sol.moves@.len() == g as int);
                        assert(buckets@[f as int]@[g as int]@ == ob[f as int]@[g as int]@.drop_last());
                        assert forall|x: int, y: int, z: int|
                            0 <= x < buckets@.len() && 0 <= y < buckets@[x]@.len() && 0 <= z
                                < buckets@[x]@[y]@.len() implies comes_no_earlier(
                            #[trigger] buckets@[x]@[y]@[z],
                            sol,
                        ) by {
                            if x != f {
                                assert(buckets@[x] == ob[x]);
                            } else if y != g as int {
                                assert(buckets@[x]@[y] == ob[x]@[y]);
                            }
                            if x < f {
                                assert(row_empty(ob, x));
                                assert(false);
                            } else if x == f && y > g as int {
                                assert(ob[x]@[y]@.len() == 0);
                                assert(false);
                            } else {
                                let e = buckets@[x]@[y]@[z];
                                assert(entry_cost(e) == x && e.moves@.len() == y);
                            }
                        }
                    }
                    return Some(sol);
                }
            }
            f = f + 1;
        }
        None
    }

    /// Search for a move sequence from `b` to the solved configuration.
    ///
    /// A returned sequence is a legal path from `b` whose replay ends
    /// solved; an already solved board yields the empty sequence. `None`
    /// is only reachable for boards with no found solution, which a caller
    /// is expected to rule out with `solvable` beforehand.
    ///
    /// Unlike a plain best-first search, the engine prunes a state it has
    /// already reached by an equally short or shorter path, which preserves
    /// the found path's optimality while bounding re-expansion, and it runs
    /// under a step budget far beyond any reachable state count.
    pub fn run(b: &Board) -> (r: Option<Vec<Direction>>)
        requires
            b.wf(),
        ensures
            r matches Some(moves) ==> {
                &&& path_legal(b.tiles_seq(), b.blank(), moves@)
                &&& solved_tiles(replay_tiles(b.tiles_seq(), b.blank(), moves@))
            },
            solved_tiles(b.tiles_seq()) ==> (r matches Some(moves) && moves@.len() == 0),
    {
        let ghost s0 = b.tiles_seq();
        let ghost e0 = b.blank();
        if b.solved() {
            let moves: Vec<Direction> = Vec::new();
            return Some(moves);
        }
        let mut buckets: Vec<Vec<Vec<Solution>>> = Vec::new();
        let mut best_g: HashMap<u64, usize> = HashMap::new();
        let h0 = Astar::heuristic(b);
        let root = Solution { moves: Vec::new(), board: b.clone() };
        Astar::frontier_push(&mut buckets, h0, root, Ghost(s0), Ghost(e0));
        let mut fuel: u64 = 0xffff_ffff_ffff_ffffu64;
        while fuel > 0
            invariant
                frontier_good(buckets@, s0, e0),
                frontier_placed(buckets@),
                b.wf(),
                s0 == b.tiles_seq(),
                e0 == b.blank(),
                !solved_tiles(s0),
            decreases fuel,
        {
            fuel = fuel - 1;
            let popped = Astar::frontier_pop(&mut buckets, Ghost(s0), Ghost(e0));
            let sol = match popped {
                None => {
                    return None;
                },
                Some(sol) => sol,
            };
            if sol.board.solved() {
                return Some(sol.moves);
            }
            let n_moves = sol.moves.len();
            let mut k: usize = 0;
            while k < 4
                invariant
                    frontier_good(buckets@, s0, e0),
                    frontier_placed(buckets@),
                    good_node(sol, s0, e0),
                    n_moves == sol.moves@.len(),
                decreases 4 - k,
            {
                let dir = match k {
                    0 => Direction::Left,
                    1 => Direction::Right,
                    2 => Direction::Up,
                    _ => Direction::Down,
                };
                k = k + 1;
                if n_moves > 0 && sol.moves[n_moves - 1].opposites(dir) {
                    continue ;
                }
                if !sol.board.can_slide(dir) {
                    continue ;
                }
                let mut nb = sol.board.clone();
                nb.slide(dir);
                proof {
                    lemma_path_push(s0, e0, sol.moves@, dir);
                }
                let g1 = n_moves.saturating_add(1);
                let fp = Astar::fingerprint(&nb);
                let known = match best_g.get(&fp) {
                    Some(gk) => *gk <= g1,
                    None => false,
                };
                if !known {
                    best_g.insert(fp, g1);
                    let h1 = Astar::heuristic(&nb);
                    let f1 = g1.saturating_add(h1);
                    let mut nm = sol.moves.clone();
                    proof {
                        assert forall|i: int| 0 <= i < sol.moves@.len() implies nm@[i]
                            == sol.moves@[i] by {}
                        assert(nm@ =~= sol.moves@);
                    }
                    nm.push(dir);
                    let node = Solution { moves: nm, board: nb };
                    proof {
                        assert(node.moves@.len() == n_moves + 1);
                        assert(heuristic_spec(node.board.tiles_seq()) == h1 as int);
                        assert(f1 as int == entry_cost(node));
                    }
                    Astar::frontier_push(&mut buckets, f1, node, Ghost(s0), Ghost(e0));
                }
            }
        }
        None
    }
}

} // verus!
