//! The board model: the four move directions, the 4x4 tile grid with its
//! permutation invariant, move legality, move application, the solved check
//! and the solvability parity rule.

use rand::seq::SliceRandom;
use vstd::prelude::*;

verus! {

broadcast use vstd::array::group_array_axioms;

/// One of the four cardinal moves of the blank tile.
#[derive(Debug, Copy, PartialEq, Eq, Structural)]
pub enum Direction {
    Left,
    Right,
    Up,
    Down,
}

impl Clone for Direction {
    /// A copy of the direction.
    fn clone(&self) -> (r: Direction)
        ensures
            r == *self,
    {
        *self
    }
}

impl Direction {
    /// The inverse move: Left and Right swap, Up and Down swap.
    pub open spec fn opposite_spec(self) -> Direction {
        match self {
            Direction::Left => Direction::Right,
            Direction::Right => Direction::Left,
            Direction::Up => Direction::Down,
            Direction::Down => Direction::Up,
        }
    }

    pub fn opposite(self) -> (r: Direction)
        ensures
            r == self.opposite_spec(),
    {
        match self {
            Direction::Left => Direction::Right,
            Direction::Right => Direction::Left,
            Direction::Up => Direction::Down,
            Direction::Down => Direction::Up,
        }
    }

    /// True iff `other` is the opposite of `self`.
    pub fn opposites(self, other: Direction) -> (r: bool)
        ensures
            r == (self == other.opposite_spec()),
    {
        other.opposite() == self
    }

    /// The signed offset of the move in the flattened 4x4 grid.
    pub open spec fn offset(self) -> int {
        match self {
            Direction::Left => -1,
            Direction::Right => 1,
            Direction::Up => -4,
            Direction::Down => 4,
        }
    }

    pub fn value(self) -> (r: isize)
        ensures
            r as int == self.offset(),
    {
        match self {
            Direction::Left => -1,
            Direction::Right => 1,
            Direction::Up => -4,
            Direction::Down => 4,
        }
    }
}

/// `opposite` is an involution: taking the opposite twice gives back the
/// direction, and no direction is its own opposite.
pub proof fn lemma_opposite_involutive(d: Direction)
    ensures
        d.opposite_spec().opposite_spec() == d,
        d.opposite_spec() != d,
{
}

/// The reasons a supplied tile array is rejected.
#[derive(Debug, Clone, Copy, PartialEq, Eq, Structural)]
pub enum ValidationError {
    /// Fewer than 16 distinct values were supplied.
    MissingOrRepeatedTile,
    /// More than 16 values were supplied.
    TooManyTiles,
    /// A value falls outside 0..16.
    TileOutOfRange,
}

/// The error returned by `slide_safe` for an illegal move.
#[derive(Debug, Clone, Copy, PartialEq, Eq, Structural)]
pub struct InvalidMove;

/// True iff a blank at index `e` may move in direction `dir` without leaving
/// the grid or wrapping between rows.
pub open spec fn can_move(e: int, dir: Direction) -> bool {
    match dir {
        Direction::Left => e % 4 != 0,
        Direction::Right => e % 4 != 3,
        Direction::Up => e >= 4,
        Direction::Down => e < 12,
    }
}

/// The tile sequence after the blank at index `e` swaps with its neighbour
/// in direction `dir`.
pub open spec fn slide_seq(s: Seq<u8>, e: int, dir: Direction) -> Seq<u8> {
    s.update(e, s[e + dir.offset()]).update(e + dir.offset(), 0)
}

/// True iff `s` reads 1, 2, ..., 15 followed by the blank.
pub open spec fn solved_tiles(s: Seq<u8>) -> bool {
    &&& s.len() == 16
    &&& forall|i: int| 0 <= i < 16 ==> s[i] as int == (if i == 15 { 0int } else { i + 1 })
}

/// The inversions contributed by index `i` against indices `j..16`: pairs
/// whose later, non-blank tile is smaller than the tile at `i`.
pub open spec fn inv_from(s: Seq<u8>, i: int, j: int) -> nat
    decreases 16 - j,
{
    if j < 0 || 16 <= j {
        0
    } else {
        (if s[j] != 0 && s[j] < s[i] {
            1nat
        } else {
            0nat
        }) + inv_from(s, i, j + 1)
    }
}

/// The inversions of `s` over all pairs with first index at least `i`.
pub open spec fn inv_total(s: Seq<u8>, i: int) -> nat
    decreases 16 - i,
{
    if i < 0 || 16 <= i {
        0
    } else {
        inv_from(s, i, i) + inv_total(s, i + 1)
    }
}

/// The inversion count of the whole tile sequence.
pub open spec fn inversions(s: Seq<u8>) -> nat {
    inv_total(s, 0)
}

/// The solvability parity rule: the board is solvable iff the parity of the
/// inversion count differs from the parity of the blank's row index.
pub open spec fn solvable_tiles(s: Seq<u8>, blank: int) -> bool {
    ((blank / 4) % 2 == 0) != (inversions(s) % 2 == 0)
}

/// True iff `s` is a full 16-tile configuration: 16 values, each below 16,
/// none repeated.
pub open spec fn valid_tiles(s: Seq<u8>) -> bool {
    &&& s.len() == 16
    &&& forall|i: int| 0 <= i < 16 ==> s[i] < 16
    &&& forall|i: int, j: int| 0 <= i < j < 16 ==> s[i] != s[j]
}

/// True iff value `v` appears somewhere in the first 16 entries of `s`.
pub open spec fn appears(s: Seq<u8>, v: int) -> bool {
    exists|i: int| 0 <= i < 16 && s[i] as int == v
}

/// Sixteen distinct values below 16 leave no value of 0..16 out: every such
/// value appears at some index.
pub proof fn lemma_perm_complete(s: Seq<u8>)
    requires
        valid_tiles(s),
    ensures
        forall|v: int| 0 <= v < 16 ==> #[trigger] appears(s, v),
{
    broadcast use vstd::set::group_set_axioms;
    broadcast use vstd::seq_lib::group_seq_lib_default;

    let t = s.map_values(|x: u8| x as int);
    assert(forall|i: int| 0 <= i < 16 ==> t[i] == s[i] as int);
    assert(t.no_duplicates()) by {
        assert forall|i: int, j: int|
            0 <= i < t.len() && 0 <= j < t.len() && i != j implies t[i] != t[j] by {
            if i < j {
                assert(s[i] != s[j]);
            } else {
                assert(s[j] != s[i]);
            }
        }
    }
    t.unique_seq_to_set();
    let rng = vstd::set_lib::set_int_range(0, 16);
    vstd::set_lib::lemma_int_range(0, 16);
    assert forall|v: int| 0 <= v < 16 implies #[trigger] appears(s, v) by {
        if !t.to_set().contains(v) {
            assert(t.to_set().subset_of(rng.remove(v))) by {
                assert forall|x: int| t.to_set().contains(x) implies rng.remove(v).contains(
                    x,
                ) by {
                    let i = choose|i: int| 0 <= i < t.len() && t[i] == x;
                    assert(0 <= x < 16);
                }
            }
            vstd::set_lib::lemma_len_subset(t.to_set(), rng.remove(v));
            assert(rng.remove(v).len() == 15);
            assert(false);
        }
        let i = choose|i: int| 0 <= i < t.len() && t[i] == v;
        assert(0 <= i < 16 && s[i] as int == v);
    }
}

/// A 4x4 sliding-tile board: a permutation of 0..16 in a flat array, where 0
/// is the blank, plus the cached index of the blank.
pub struct Board {
    tiles: [u8; 16],
    empty: usize,
}

impl Board {
    /// The flat tile sequence of the board.
    pub closed spec fn tiles_seq(self) -> Seq<u8> {
        self.tiles@
    }

    /// The cached index of the blank tile.
    pub closed spec fn blank(self) -> int {
        self.empty as int
    }

    /// The board invariant: the tiles are a permutation of 0..16 and the
    /// blank index points at the unique 0.
    pub open spec fn wf(self) -> bool {
        &&& self.tiles_seq().len() == 16
        &&& 0 <= self.blank() < 16
        &&& forall|i: int| 0 <= i < 16 ==> self.tiles_seq()[i] < 16
        &&& forall|i: int, j: int|
            0 <= i < j < 16 ==> self.tiles_seq()[i] != self.tiles_seq()[j]
        &&& forall|i: int| 0 <= i < 16 ==> (self.tiles_seq()[i] == 0 <==> i == self.blank())
    }

    /// The identity board: tile `i` at index `i`, blank at index 0.
    pub fn new() -> (b: Board)
        ensures
            b.wf(),
            b.blank() == 0,
            forall|i: int| 0 <= i < 16 ==> b.tiles_seq()[i] == i,
    {
        let mut tiles: [u8; 16] = [0; 16];
        let mut i: usize = 1;
        while i < 16
            invariant
                1 <= i <= 16,
                forall|j: int| 0 <= j < i ==> tiles@[j] == j,
            decreases 16 - i,
        {
            tiles[i] = i as u8;
            i = i + 1;
        }
        Board { tiles, empty: 0 }
    }

    /// Build a board from an externally supplied flat tile sequence,
    /// rejecting values out of 0..16, too many values, and missing or
    /// repeated values, in that order of checks.
    pub fn new_from(tiles: &[u8]) -> (r: Result<Board, ValidationError>)
        ensures
            r is Ok <==> valid_tiles(tiles@),
            r matches Ok(b) ==> b.wf() && b.tiles_seq() == tiles@,
            r == Err::<Board, ValidationError>(ValidationError::TileOutOfRange) <==> (exists|
                i: int,
            |
                0 <= i < tiles@.len() && tiles@[i] > 15),
            r == Err::<Board, ValidationError>(ValidationError::TooManyTiles) <==> ((forall|
                i: int,
            |
                0 <= i < tiles@.len() ==> tiles@[i] <= 15) && tiles@.len() > 16),
            r == Err::<Board, ValidationError>(ValidationError::MissingOrRepeatedTile) <==> ((
            forall|i: int| 0 <= i < tiles@.len() ==> tiles@[i] <= 15) && tiles@.len() <= 16
                && !valid_tiles(tiles@)),
    {
        let n = tiles.len();
        let mut grid: [u8; 16] = [0; 16];
        let mut empty: usize = 0;
        let mut seen: [bool; 16] = [false; 16];
        let mut dup: bool = false;
        let mut k: usize = 0;
        while k < n
            invariant
                k <= n,
                n == tiles@.len(),
                forall|i: int| 0 <= i < k ==> tiles@[i] <= 15,
                forall|v: int|
                    0 <= v < 16 ==> (seen@[v] <==> exists|i: int|
                        0 <= i < k && tiles@[i] as int == v),
                dup <==> exists|i: int, j: int| 0 <= i < j < k && tiles@[i] == tiles@[j],
                forall|i: int| 0 <= i < k && i < 16 ==> grid@[i] == tiles@[i],
                forall|i: int| k <= i < 16 ==> grid@[i] == 0,
                empty < 16,
                (exists|i: int| 0 <= i < k && i < 16 && tiles@[i] == 0) ==> ((empty as int) < k
                    && tiles@[empty as int] == 0),
            decreases n - k,
        {
            let t = tiles[k];
            if t > 15 {
                return Err(ValidationError::TileOutOfRange);
            }
            if t == 0 {
                if k < 16 {
                    empty = k;
                }
            } else {
                if k < 16 {
                    grid[k] = t;
                }
            }
            if seen[t as usize] {
                dup = true;
            } else {
                seen[t as usize] = true;
            }
            k = k + 1;
        }
        if n > 16 {
            return Err(ValidationError::TooManyTiles);
        }
        if n < 16 || dup {
            return Err(ValidationError::MissingOrRepeatedTile);
        }
        proof {
            assert(valid_tiles(tiles@));
            lemma_perm_complete(tiles@);
            assert(appears(tiles@, 0));
            let zi = choose|i: int| 0 <= i < 16 && tiles@[i] as int == 0;
            assert(0 <= zi < 16 && tiles@[zi] == 0);
        }
        let b = Board { tiles: grid, empty };
        proof {
            assert(b.tiles_seq() =~= tiles@);
        }
        Ok(b)
    }

    /// Permute the tiles uniformly at random and recompute the blank index.
    /// The result is not filtered for solvability.
    pub fn shuffle(&mut self)
        requires
            old(self).wf(),
        ensures
            final(self).wf(),
            final(self).tiles_seq().to_multiset() == old(self).tiles_seq().to_multiset(),
    {
        shuffle_tiles(&mut self.tiles);
        proof {
            lemma_multiset_valid(old(self).tiles_seq(), self.tiles@);
            assert(old(self).tiles_seq()[old(self).blank()] == 0);
            lemma_multiset_member(old(self).tiles_seq(), self.tiles@, 0);
        }
        let mut i: usize = 0;
        let mut found: bool = false;
        while i < 16 && !found
            invariant
                i <= 16,
                self.tiles@.len() == 16,
                !found ==> forall|j: int| 0 <= j < i ==> self.tiles@[j] != 0,
                found ==> i < 16 && self.tiles@[i as int] == 0,
                exists|j: int| 0 <= j < 16 && self.tiles@[j] == 0,
            decreases 16 - i, (if found { 0int } else { 1int }),
        {
            if self.tiles[i] == 0 {
                found = true;
            } else {
                i = i + 1;
            }
        }
        if found {
            self.empty = i;
        } else {
            proof {
                assert(false);
            }
        }
    }

    /// An identity board whose tiles were then shuffled at random.
    pub fn new_random() -> (b: Board)
        ensures
            b.wf(),
    {
        let mut b = Board::new();
        b.shuffle();
        b
    }

    /// Read-only view of the tiles.
    pub fn tiles(&self) -> (r: &[u8; 16])
        ensures
            r@ == self.tiles_seq(),
    {
        &self.tiles
    }

    /// The index of the blank tile.
    pub fn empty(&self) -> (r: usize)
        ensures
            r as int == self.blank(),
    {
        self.empty
    }

    /// The index the blank would move to with offset `step`, clamped to the
    /// current blank index when the offset would run past the low end of the
    /// array.
    fn safe_pos(&self, step: isize) -> (r: usize)
        requires
            self.blank() < 16,
            -16 <= step as int <= 16,
        ensures
            self.blank() + (step as int) >= 0 ==> r as int == self.blank() + (step as int),
            self.blank() + (step as int) < 0 ==> r as int == self.blank(),
    {
        if step < 0 {
            let mag = (-step) as usize;
            if self.empty >= mag {
                self.empty - mag
            } else {
                self.empty
            }
        } else {
            self.empty + (step as usize)
        }
    }

    /// True iff the blank may legally move in direction `dir`.
    pub fn can_slide(&self, dir: Direction) -> (r: bool)
        requires
            self.wf(),
        ensures
            r == can_move(self.blank(), dir),
    {
        let pos = self.safe_pos(dir.value());
        pos != self.empty && pos < 16
            && (dir == Direction::Up || dir == Direction::Down || pos / 4 == self.empty / 4)
    }

    /// Swap the blank with its neighbour in direction `dir`. The caller must
    /// ensure the move is legal; `slide_safe` checks it instead.
    pub fn slide(&mut self, dir: Direction)
        requires
            old(self).wf(),
            can_move(old(self).blank(), dir),
        ensures
            final(self).wf(),
            final(self).blank() == old(self).blank() + dir.offset(),
            final(self).tiles_seq() == slide_seq(
                old(self).tiles_seq(),
                old(self).blank(),
                dir,
            ),
    {
        let pos = self.safe_pos(dir.value());
        let t = self.tiles[pos];
        self.tiles[pos] = self.tiles[self.empty];
        self.tiles[self.empty] = t;
        self.empty = pos;
        proof {
            assert(self.tiles@ =~= slide_seq(old(self).tiles@, old(self).empty as int, dir));
        }
    }

    /// Like `slide`, but re-validates the move first and leaves the board
    /// unchanged on an illegal move.
    pub fn slide_safe(&mut self, dir: Direction) -> (r: Result<(), InvalidMove>)
        requires
            old(self).wf(),
        ensures
            final(self).wf(),
            can_move(old(self).blank(), dir) ==> {
                &&& r is Ok
                &&& final(self).blank() == old(self).blank() + dir.offset()
                &&& final(self).tiles_seq() == slide_seq(
                    old(self).tiles_seq(),
                    old(self).blank(),
                    dir,
                )
            },
            !can_move(old(self).blank(), dir) ==> r is Err && *final(self) == *old(self),
    {
        if self.can_slide(dir) {
            self.slide(dir);
            Ok(())
        } else {
            Err(InvalidMove)
        }
    }

    /// True iff the tiles read 1, 2, ..., 15 followed by the blank.
    pub fn solved(&self) -> (r: bool)
        requires
            self.wf(),
        ensures
            r == solved_tiles(self.tiles_seq()),
    {
        let mut i: usize = 0;
        while i < 16
            invariant
                i <= 16,
                self.wf(),
                forall|j: int|
                    0 <= j < i ==> self.tiles_seq()[j] as int == (if j == 15 {
                        0int
                    } else {
                        j + 1
                    }),
            decreases 16 - i,
        {
            let expected: u8 = if i == 15 {
                0
            } else {
                (i + 1) as u8
            };
            if self.tiles[i] != expected {
                return false;
            }
            i = i + 1;
        }
        true
    }

    /// The solvability parity rule: counts the inversions of the tile
    /// sequence and compares their parity with the parity of the blank's
    /// row index.
    pub fn solvable(&self) -> (r: bool)
        requires
            self.wf(),
        ensures
            r == solvable_tiles(self.tiles_seq(), self.blank()),
    {
        let ghost s = self.tiles_seq();
        let mut invs: usize = 0;
        let mut i: usize = 0;
        while i < 16
            invariant
                i <= 16,
                self.wf(),
                s == self.tiles_seq(),
                invs <= 16 * i,
                invs + inv_total(s, i as int) == inversions(s),
            decreases 16 - i,
        {
            let mut j: usize = i;
            while j < 16
                invariant
                    i < 16,
                    i <= j <= 16,
                    self.wf(),
                    s == self.tiles_seq(),
                    invs <= 16 * i + (j - i),
                    invs + inv_from(s, i as int, j as int) + inv_total(s, i as int + 1)
                        == inversions(s),
                decreases 16 - j,
            {
                let x = self.tiles[j];
                if x != 0 && x < self.tiles[i] {
                    invs = invs + 1;
                }
                j = j + 1;
            }
            i = i + 1;
        }
        ((self.empty / 4) % 2 == 0) != (invs % 2 == 0)
    }
}

impl Clone for Board {
    /// An independent copy with the same tiles and blank index.
    fn clone(&self) -> (r: Board)
        ensures
            r == *self,
    {
        Board { tiles: self.tiles, empty: self.empty }
    }
}

/// Relies on rand's `SliceRandom::shuffle`: it permutes the elements of the
/// slice in place, so the multiset of elements is unchanged.
#[verifier::external_body]
fn shuffle_tiles(tiles: &mut [u8; 16])
    ensures
        final(tiles)@.to_multiset() == old(tiles)@.to_multiset(),
{
    tiles.shuffle(&mut rand::thread_rng());
}

/// A sequence with the same element multiset as a full 16-tile configuration
/// is itself one.
proof fn lemma_multiset_valid(s1: Seq<u8>, s2: Seq<u8>)
    requires
        valid_tiles(s1),
        s2.to_multiset() == s1.to_multiset(),
    ensures
        valid_tiles(s2),
{
    s1.to_multiset_ensures();
    s2.to_multiset_ensures();
    assert(s2.len() == 16);
    assert(s1.no_duplicates());
    s1.lemma_multiset_has_no_duplicates();
    s2.lemma_multiset_has_no_duplicates_conv();
    assert(s2.no_duplicates());
    assert forall|i: int| 0 <= i < 16 implies s2[i] < 16 by {
        assert(s2.contains(s2[i]));
        assert(s1.to_multiset().count(s2[i]) > 0);
        assert(s1.contains(s2[i]));
        let j = choose|j: int| 0 <= j < s1.len() && s1[j] == s2[i];
        assert(s1[j] < 16);
    }
}

/// An element of a sequence is an element of any sequence with the same
/// multiset.
proof fn lemma_multiset_member(s1: Seq<u8>, s2: Seq<u8>, v: u8)
    requires
        s2.to_multiset() == s1.to_multiset(),
        exists|i: int| 0 <= i < s1.len() && s1[i] == v,
    ensures
        exists|i: int| 0 <= i < s2.len() && s2[i] == v,
{
    s1.to_multiset_ensures();
    s2.to_multiset_ensures();
    let i = choose|i: int| 0 <= i < s1.len() && s1[i] == v;
    assert(s1.contains(v));
    assert(s2.to_multiset().count(v) > 0);
    assert(s2.contains(v));
    let j = choose|j: int| 0 <= j < s2.len() && s2[j] == v;
    assert(0 <= j < s2.len() && s2[j] == v);
}

/// Every well-formed board is a permutation of 0..16: each value appears at
/// some index, the blank index holds 0, and no other index does.
pub proof fn lemma_wf_permutation(b: Board)
    requires
        b.wf(),
    ensures
        forall|v: int| 0 <= v < 16 ==> #[trigger] appears(b.tiles_seq(), v),
        b.tiles_seq()[b.blank()] == 0,
        forall|i: int| 0 <= i < 16 && b.tiles_seq()[i] == 0 ==> i == b.blank(),
{
    lemma_perm_complete(b.tiles_seq());
}

/// A legal slide followed by the slide in the opposite direction restores
/// the board: the second move is always legal, it moves the blank back, and
/// the tiles return to their original arrangement.
pub proof fn lemma_slide_involution(b: Board, dir: Direction)
    requires
        b.wf(),
        can_move(b.blank(), dir),
    ensures
        ({
            let e1 = b.blank() + dir.offset();
            let s1 = slide_seq(b.tiles_seq(), b.blank(), dir);
            &&& can_move(e1, dir.opposite_spec())
            &&& e1 + dir.opposite_spec().offset() == b.blank()
            &&& slide_seq(s1, e1, dir.opposite_spec()) == b.tiles_seq()
        }),
{
    let e = b.blank();
    let s = b.tiles_seq();
    let e1 = e + dir.offset();
    let s1 = slide_seq(s, e, dir);
    assert(s[e] == 0);
    assert(slide_seq(s1, e1, dir.opposite_spec()) =~= s);
}

} // verus!
