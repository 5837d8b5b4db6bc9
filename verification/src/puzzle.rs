use vstd::prelude::*;

verus! {

use vstd::string::StringExecFns;

/// A board position (row or column index) is valid when it lies in `0..4`.
pub open spec fn pos_ok(r: int, c: int) -> bool {
    0 <= r < 4 && 0 <= c < 4
}

/// Row-major index of the cell at row `r`, column `c`.
pub open spec fn idx(r: int, c: int) -> int {
    4 * r + c
}

/// The sixteen legal cell values `[0, 1, ..., 15]`, in order.
pub open spec fn tile_values() -> Seq<i8> {
    Seq::new(16, |k: int| k as i8)
}

/// The value the solved board holds at flat position `k`:
/// `1, 2, ..., 15` followed by the empty cell.
pub open spec fn solved_value(k: int) -> i8 {
    if k < 15 {
        (k + 1) as i8
    } else {
        0
    }
}

/// The solved grid itself: `1, 2, ..., 15, 0` row-major.
pub open spec fn solved_grid() -> Seq<i8> {
    Seq::new(16, |k: int| solved_value(k))
}

/// Grid contents that can stand for a game: sixteen cells, every value a
/// legal cell value, and no value repeated.  Together with the length this
/// forces the grid to be a permutation of `tile_values()`.
pub open spec fn grid_ok(g: Seq<i8>) -> bool {
    &&& g.len() == 16
    &&& forall|k: int| 0 <= k < 16 ==> 0 <= #[trigger] g[k] < 16
    &&& g.no_duplicates()
}

/// A move direction: the offset, in (row, column) steps, from the empty cell
/// to the neighbour whose value slides into it.  Exactly the four unit
/// vectors are legal: (0,1) left, (0,-1) right, (1,0) up, (-1,0) down.
pub open spec fn dir_ok(dir: (i8, i8)) -> bool {
    ||| dir.0 == 0 && dir.1 == 1
    ||| dir.0 == 0 && dir.1 == -1
    ||| dir.0 == 1 && dir.1 == 0
    ||| dir.0 == -1 && dir.1 == 0
}

/// How many cascade steps remain before the empty cell reaches the edge of
/// the grid in direction `dir`.
pub open spec fn steps_to_edge(er: int, ec: int, dir: (i8, i8)) -> int {
    if dir.0 == 1 {
        3 - er
    } else if dir.0 == -1 {
        er
    } else if dir.1 == 1 {
        3 - ec
    } else {
        ec
    }
}

/// The grid after a full leftward cascade (direction (0,+1)) starting from
/// empty cell (er, ec): row `er` shifts its cells right of the empty cell one
/// step towards the empty cell, and the last column of that row becomes empty.
pub open spec fn grid_slid_left(g: Seq<i8>, er: int, ec: int) -> Seq<i8> {
    Seq::new(
        16,
        |k: int|
            {
                let r = k / 4;
                let c = k % 4;
                if r == er && ec <= c < 3 {
                    g[idx(r, c + 1)]
                } else if r == er && c == 3 {
                    0
                } else {
                    g[k]
                }
            },
    )
}

/// The grid after a full rightward cascade (direction (0,-1)) from (er, ec).
pub open spec fn grid_slid_right(g: Seq<i8>, er: int, ec: int) -> Seq<i8> {
    Seq::new(
        16,
        |k: int|
            {
                let r = k / 4;
                let c = k % 4;
                if r == er && 0 < c <= ec {
                    g[idx(r, c - 1)]
                } else if r == er && c == 0 {
                    0
                } else {
                    g[k]
                }
            },
    )
}

/// The grid after a full upward cascade (direction (1,0)) from (er, ec).
pub open spec fn grid_slid_up(g: Seq<i8>, er: int, ec: int) -> Seq<i8> {
    Seq::new(
        16,
        |k: int|
            {
                let r = k / 4;
                let c = k % 4;
                if c == ec && er <= r < 3 {
                    g[idx(r + 1, c)]
                } else if c == ec && r == 3 {
                    0
                } else {
                    g[k]
                }
            },
    )
}

/// The grid after a full downward cascade (direction (-1,0)) from (er, ec).
pub open spec fn grid_slid_down(g: Seq<i8>, er: int, ec: int) -> Seq<i8> {
    Seq::new(
        16,
        |k: int|
            {
                let r = k / 4;
                let c = k % 4;
                if c == ec && 0 < r <= er {
                    g[idx(r - 1, c)]
                } else if c == ec && r == 0 {
                    0
                } else {
                    g[k]
                }
            },
    )
}

/// `p1` is `p0` after one leftward move: the grid cascades and the empty cell
/// ends at the last column of its row.
pub open spec fn slid_left(p0: Puzzle, p1: Puzzle) -> bool {
    &&& p1.grid() == grid_slid_left(p0.grid(), p0.erow(), p0.ecol())
    &&& p1.erow() == p0.erow()
    &&& p1.ecol() == 3
}

/// `p1` is `p0` after one rightward move: the empty cell ends at column 0.
pub open spec fn slid_right(p0: Puzzle, p1: Puzzle) -> bool {
    &&& p1.grid() == grid_slid_right(p0.grid(), p0.erow(), p0.ecol())
    &&& p1.erow() == p0.erow()
    &&& p1.ecol() == 0
}

/// `p1` is `p0` after one upward move: the empty cell ends at the last row.
pub open spec fn slid_up(p0: Puzzle, p1: Puzzle) -> bool {
    &&& p1.grid() == grid_slid_up(p0.grid(), p0.erow(), p0.ecol())
    &&& p1.erow() == 3
    &&& p1.ecol() == p0.ecol()
}

/// `p1` is `p0` after one downward move: the empty cell ends at row 0.
pub open spec fn slid_down(p0: Puzzle, p1: Puzzle) -> bool {
    &&& p1.grid() == grid_slid_down(p0.grid(), p0.erow(), p0.ecol())
    &&& p1.erow() == 0
    &&& p1.ecol() == p0.ecol()
}

/// Swapping any two cells keeps the grid a permutation of the legal values.
proof fn lemma_swap_keeps_grid_ok(g: Seq<i8>, a: int, b: int)
    requires
        grid_ok(g),
        0 <= a < 16,
        0 <= b < 16,
    ensures
        grid_ok(g.update(a, g[b]).update(b, g[a])),
{
    let g2 = g.update(a, g[b]).update(b, g[a]);
    assert forall|i: int, j: int| 0 <= i < j < 16 implies g2[i] != g2[j] by {
        assert(g2[i] == if i == b {
            g[a]
        } else if i == a {
            g[b]
        } else {
            g[i]
        });
        assert(g2[j] == if j == b {
            g[a]
        } else if j == a {
            g[b]
        } else {
            g[j]
        });
    }
}

/// One cascade step in the leftward direction leaves the final cascaded grid
/// unchanged: cascading from the stepped state reaches the same result.
proof fn lemma_step_left(g: Seq<i8>, er: int, ec: int)
    requires
        grid_ok(g),
        pos_ok(er, ec),
        ec < 3,
        g[idx(er, ec)] == 0,
    ensures
        grid_slid_left(g.update(idx(er, ec), g[idx(er, ec + 1)]).update(idx(er, ec + 1), 0), er, ec + 1)
            == grid_slid_left(g, er, ec),
{
    let g2 = g.update(idx(er, ec), g[idx(er, ec + 1)]).update(idx(er, ec + 1), 0);
    assert forall|k: int| 0 <= k < 16 implies grid_slid_left(g2, er, ec + 1)[k] == grid_slid_left(
        g,
        er,
        ec,
    )[k] by {
        let r = k / 4;
        let c = k % 4;
        assert(k == 4 * r + c);
    }
    assert(grid_slid_left(g2, er, ec + 1) =~= grid_slid_left(g, er, ec));
}

/// One cascade step in the rightward direction preserves the final grid.
proof fn lemma_step_right(g: Seq<i8>, er: int, ec: int)
    requires
        grid_ok(g),
        pos_ok(er, ec),
        ec > 0,
        g[idx(er, ec)] == 0,
    ensures
        grid_slid_right(g.update(idx(er, ec), g[idx(er, ec - 1)]).update(idx(er, ec - 1), 0), er, ec - 1)
            == grid_slid_right(g, er, ec),
{
    let g2 = g.update(idx(er, ec), g[idx(er, ec - 1)]).update(idx(er, ec - 1), 0);
    assert forall|k: int| 0 <= k < 16 implies grid_slid_right(g2, er, ec - 1)[k] == grid_slid_right(
        g,
        er,
        ec,
    )[k] by {
        let r = k / 4;
        let c = k % 4;
        assert(k == 4 * r + c);
    }
    assert(grid_slid_right(g2, er, ec - 1) =~= grid_slid_right(g, er, ec));
}

/// One cascade step in the upward direction preserves the final grid.
proof fn lemma_step_up(g: Seq<i8>, er: int, ec: int)
    requires
        grid_ok(g),
        pos_ok(er, ec),
        er < 3,
        g[idx(er, ec)] == 0,
    ensures
        grid_slid_up(g.update(idx(er, ec), g[idx(er + 1, ec)]).update(idx(er + 1, ec), 0), er + 1, ec)
            == grid_slid_up(g, er, ec),
{
    let g2 = g.update(idx(er, ec), g[idx(er + 1, ec)]).update(idx(er + 1, ec), 0);
    assert forall|k: int| 0 <= k < 16 implies grid_slid_up(g2, er + 1, ec)[k] == grid_slid_up(
        g,
        er,
        ec,
    )[k] by {
        let r = k / 4;
        let c = k % 4;
        assert(k == 4 * r + c);
    }
    assert(grid_slid_up(g2, er + 1, ec) =~= grid_slid_up(g, er, ec));
}

/// One cascade step in the downward direction preserves the final grid.
proof fn lemma_step_down(g: Seq<i8>, er: int, ec: int)
    requires
        grid_ok(g),
        pos_ok(er, ec),
        er > 0,
        g[idx(er, ec)] == 0,
    ensures
        grid_slid_down(g.update(idx(er, ec), g[idx(er - 1, ec)]).update(idx(er - 1, ec), 0), er - 1, ec)
            == grid_slid_down(g, er, ec),
{
    let g2 = g.update(idx(er, ec), g[idx(er - 1, ec)]).update(idx(er - 1, ec), 0);
    assert forall|k: int| 0 <= k < 16 implies grid_slid_down(g2, er - 1, ec)[k] == grid_slid_down(
        g,
        er,
        ec,
    )[k] by {
        let r = k / 4;
        let c = k % 4;
        assert(k == 4 * r + c);
    }
    assert(grid_slid_down(g2, er - 1, ec) =~= grid_slid_down(g, er, ec));
}

/// With the empty cell already on the edge the cascade changes nothing.
pub(crate) proof fn lemma_slid_left_fix(g: Seq<i8>, er: int)
    requires
        grid_ok(g),
        0 <= er < 4,
        g[idx(er, 3)] == 0,
    ensures
        grid_slid_left(g, er, 3) == g,
{
    assert forall|k: int| 0 <= k < 16 implies grid_slid_left(g, er, 3)[k] == g[k] by {
        let r = k / 4;
        let c = k % 4;
        assert(k == 4 * r + c);
    }
    assert(grid_slid_left(g, er, 3) =~= g);
}

/// With the empty cell already at column 0 the rightward cascade is identity.
pub(crate) proof fn lemma_slid_right_fix(g: Seq<i8>, er: int)
    requires
        grid_ok(g),
        0 <= er < 4,
        g[idx(er, 0)] == 0,
    ensures
        grid_slid_right(g, er, 0) == g,
{
    assert forall|k: int| 0 <= k < 16 implies grid_slid_right(g, er, 0)[k] == g[k] by {
        let r = k / 4;
        let c = k % 4;
        assert(k == 4 * r + c);
    }
    assert(grid_slid_right(g, er, 0) =~= g);
}

/// With the empty cell already at the last row the upward cascade is identity.
pub(crate) proof fn lemma_slid_up_fix(g: Seq<i8>, ec: int)
    requires
        grid_ok(g),
        0 <= ec < 4,
        g[idx(3, ec)] == 0,
    ensures
        grid_slid_up(g, 3, ec) == g,
{
    assert forall|k: int| 0 <= k < 16 implies grid_slid_up(g, 3, ec)[k] == g[k] by {
        let r = k / 4;
        let c = k % 4;
        assert(k == 4 * r + c);
    }
    assert(grid_slid_up(g, 3, ec) =~= g);
}

/// With the empty cell already at row 0 the downward cascade is identity.
pub(crate) proof fn lemma_slid_down_fix(g: Seq<i8>, ec: int)
    requires
        grid_ok(g),
        0 <= ec < 4,
        g[idx(0, ec)] == 0,
    ensures
        grid_slid_down(g, 0, ec) == g,
{
    assert forall|k: int| 0 <= k < 16 implies grid_slid_down(g, 0, ec)[k] == g[k] by {
        let r = k / 4;
        let c = k % 4;
        assert(k == 4 * r + c);
    }
    assert(grid_slid_down(g, 0, ec) =~= g);
}

/// How one cell value prints: two spaces for the empty cell, a space and the
/// digit for 1 through 9, the two digits for 10 through 15.
pub open spec fn cell_chars(v: i8) -> Seq<char> {
    if v == 0 {
        "  "@
    } else if v == 1 {
        " 1"@
    } else if v == 2 {
        " 2"@
    } else if v == 3 {
        " 3"@
    } else if v == 4 {
        " 4"@
    } else if v == 5 {
        " 5"@
    } else if v == 6 {
        " 6"@
    } else if v == 7 {
        " 7"@
    } else if v == 8 {
        " 8"@
    } else if v == 9 {
        " 9"@
    } else if v == 10 {
        "10"@
    } else if v == 11 {
        "11"@
    } else if v == 12 {
        "12"@
    } else if v == 13 {
        "13"@
    } else if v == 14 {
        "14"@
    } else {
        "15"@
    }
}

/// The printed form of the grid from flat position `k` on: every cell is its
/// two characters wrapped in one space on either side, and each row ends
/// with a newline.
pub open spec fn render_from(g: Seq<i8>, k: int) -> Seq<char>
    decreases 16 - k,
{
    if k < 0 || k >= 16 {
        Seq::empty()
    } else {
        " "@ + cell_chars(g[k]) + " "@ + (if k % 4 == 3 {
            "\n"@
        } else {
            Seq::<char>::empty()
        }) + render_from(g, k + 1)
    }
}

/// The printed form of the whole grid.
pub open spec fn render_chars(g: Seq<i8>) -> Seq<char> {
    render_from(g, 0)
}

/// The two characters that print one cell value.
fn cell_text(v: i8) -> (s: &'static str)
    requires
        0 <= v < 16,
    ensures
        s@ == cell_chars(v),
{
    match v {
        0 => "  ",
        1 => " 1",
        2 => " 2",
        3 => " 3",
        4 => " 4",
        5 => " 5",
        6 => " 6",
        7 => " 7",
        8 => " 8",
        9 => " 9",
        10 => "10",
        11 => "11",
        12 => "12",
        13 => "13",
        14 => "14",
        _ => "15",
    }
}

/// The ordered value sequence has no repeated entries.
proof fn lemma_tile_values_distinct()
    ensures
        tile_values().no_duplicates(),
{
    assert forall|i: int, j: int| 0 <= i < j < 16 implies tile_values()[i] != tile_values()[j] by {
        assert(tile_values()[i] == i as i8);
        assert(tile_values()[j] == j as i8);
    }
}

/// A sequence of sixteen cells holding the same values as `tile_values()`,
/// in any order, is a legal grid.
proof fn lemma_perm_grid_ok(g: Seq<i8>)
    requires
        g.len() == 16,
        g.to_multiset() == tile_values().to_multiset(),
    ensures
        grid_ok(g),
{
    broadcast use vstd::seq_lib::group_to_multiset_ensures;

    let t = tile_values();
    lemma_tile_values_distinct();
    t.lemma_multiset_has_no_duplicates();
    g.lemma_multiset_has_no_duplicates_conv();
    assert forall|k: int| 0 <= k < 16 implies 0 <= #[trigger] g[k] < 16 by {
        assert(g.contains(g[k]));
        assert(t.to_multiset().count(g[k]) > 0);
        assert(t.contains(g[k]));
        let i = choose|i: int| 0 <= i < t.len() && t[i] == g[k];
        assert(t[i] == i as i8);
    }
}

/// A legal grid holds every legal cell value somewhere: sixteen distinct
/// values drawn from sixteen candidates leave none out.
proof fn lemma_grid_ok_contains(g: Seq<i8>, v: i8)
    requires
        grid_ok(g),
        0 <= v < 16,
    ensures
        g.contains(v),
{
    broadcast use vstd::set::group_set_axioms, vstd::seq_lib::seq_to_set_is_finite;

    let t = tile_values();
    lemma_tile_values_distinct();
    g.unique_seq_to_set();
    t.unique_seq_to_set();
    assert forall|x: i8| g.to_set().contains(x) implies t.to_set().contains(x) by {
        let k = choose|k: int| 0 <= k < g.len() && g[k] == x;
        assert(t[x as int] == x);
        assert(t.contains(x));
    }
    vstd::set_lib::lemma_subset_equality(g.to_set(), t.to_set());
    assert(t[v as int] == v);
    assert(t.contains(v));
    assert(g.to_set().contains(v));
}

/// Relies on rand's `SliceRandom::shuffle`: it rearranges the slice in place
/// (a Fisher–Yates shuffle built from element swaps), so whatever order comes
/// out, the contents are exactly the contents that went in.
#[verifier::external_body]
fn shuffle_values(values: &mut Vec<i8>)
    ensures
        final(values)@.to_multiset() == old(values)@.to_multiset(),
        final(values)@.len() == old(values)@.len(),
{
    rand::seq::SliceRandom::shuffle(values.as_mut_slice(), &mut rand::rng());
}

/// State of the sliding-tile game: a 4×4 grid stored row-major, with the
/// position of the empty cell cached beside it.
pub struct Puzzle {
    empty_row: usize,
    empty_col: usize,
    board: Vec<i8>,
}

impl Puzzle {
    /// The grid, row-major.
    pub closed spec fn grid(self) -> Seq<i8> {
        self.board@
    }

    /// Row of the cached empty-cell position.
    pub closed spec fn erow(self) -> int {
        self.empty_row as int
    }

    /// Column of the cached empty-cell position.
    pub closed spec fn ecol(self) -> int {
        self.empty_col as int
    }

    /// The value at row `r`, column `c`.
    pub open spec fn at(self, r: int, c: int) -> i8 {
        self.grid()[idx(r, c)]
    }

    /// The board invariant: the grid is a permutation of the legal values and
    /// the cached position points at the cell that holds 0.
    pub open spec fn wf(self) -> bool {
        &&& grid_ok(self.grid())
        &&& pos_ok(self.erow(), self.ecol())
        &&& self.at(self.erow(), self.ecol()) == 0
    }

    /// The solved configuration: row-major reading is `1, 2, ..., 15, 0`.
    pub open spec fn is_solved(self) -> bool {
        &&& self.grid().len() == 16
        &&& forall|k: int| 0 <= k < 16 ==> self.grid()[k] == solved_value(k)
    }

    /// Build a board from a uniformly random permutation of the sixteen cell
    /// values, assigned row-major, with the empty-cell position recorded.
    pub fn new_random_board() -> (p: Puzzle)
        ensures
            p.wf(),
            p.grid().to_multiset() == tile_values().to_multiset(),
    {
        let mut numbers: Vec<i8> = Vec::new();
        let mut i: usize = 0;
        while i < 16
            invariant
                i <= 16,
                numbers@.len() == i,
                forall|m: int| 0 <= m < i ==> numbers@[m] == m as i8,
            decreases 16 - i,
        {
            numbers.push(i as i8);
            i += 1;
        }
        proof {
            assert(numbers@ =~= tile_values());
        }
        shuffle_values(&mut numbers);
        proof {
            lemma_perm_grid_ok(numbers@);
        }
        let mut z: usize = 0;
        let mut found = false;
        let mut k: usize = 0;
        while k < 16
            invariant
                k <= 16,
                numbers@.len() == 16,
                found ==> z < 16 && numbers@[z as int] == 0,
                !found ==> forall|m: int| 0 <= m < k ==> numbers@[m] != 0,
            decreases 16 - k,
        {
            if numbers[k] == 0 {
                z = k;
                found = true;
            }
            k += 1;
        }
        proof {
            lemma_grid_ok_contains(numbers@, 0);
            let w = choose|w: int| 0 <= w < numbers@.len() && numbers@[w] == 0;
            assert(found);
        }
        let p = Puzzle { empty_row: z / 4, empty_col: z % 4, board: numbers };
        proof {
            assert(idx(p.erow(), p.ecol()) == z as int);
        }
        p
    }

    /// Build a board holding exactly the given row-major values, or `None`
    /// when they are not a permutation of the sixteen legal cell values.
    pub fn from_values(values: &Vec<i8>) -> (r: Option<Puzzle>)
        ensures
            match r {
                Some(p) => p.wf() && p.grid() == values@,
                None => !grid_ok(values@),
            },
    {
        if values.len() != 16 {
            return None;
        }
        let mut seen: Vec<bool> = Vec::new();
        let mut i: usize = 0;
        while i < 16
            invariant
                i <= 16,
                seen@.len() == i,
                forall|m: int| 0 <= m < i ==> !seen@[m],
            decreases 16 - i,
        {
            seen.push(false);
            i += 1;
        }
        let mut z: usize = 0;
        let mut found = false;
        let mut k: usize = 0;
        while k < 16
            invariant
                k <= 16,
                values@.len() == 16,
                seen@.len() == 16,
                forall|m: int| 0 <= m < k ==> 0 <= #[trigger] values@[m] < 16,
                forall|u: int|
                    0 <= u < 16
                        ==> (#[trigger] seen@[u] <==> exists|m: int|
                            0 <= m < k && values@[m] == u as i8),
                forall|m1: int, m2: int| 0 <= m1 < m2 < k ==> values@[m1] != values@[m2],
                found <==> exists|m: int| 0 <= m < k && values@[m] == 0,
                found ==> z < 16 && values@[z as int] == 0,
            decreases 16 - k,
        {
            let v = values[k];
            if v < 0 || v > 15 {
                proof {
                    assert(!(0 <= values@[k as int] < 16));
                }
                return None;
            }
            let vi = v as usize;
            if seen[vi] {
                proof {
                    let m = choose|m: int| 0 <= m < k && values@[m] == vi as i8;
                    assert(values@[m] == values@[k as int]);
                    assert(!values@.no_duplicates());
                }
                return None;
            }
            seen.set(vi, true);
            if v == 0 {
                z = k;
                found = true;
            }
            proof {
                assert forall|u: int| 0 <= u < 16 implies (#[trigger] seen@[u] <==> exists|m: int|
                    0 <= m < k + 1 && values@[m] == u as i8) by {
                    if u == vi as int {
                        assert(values@[k as int] == u as i8);
                    }
                }
            }
            k += 1;
        }
        proof {
            assert(grid_ok(values@));
            lemma_grid_ok_contains(values@, 0);
            let w = choose|w: int| 0 <= w < values@.len() && values@[w] == 0;
            assert(found);
        }
        let mut board: Vec<i8> = Vec::new();
        let mut j: usize = 0;
        while j < 16
            invariant
                j <= 16,
                values@.len() == 16,
                board@.len() == j,
                forall|m: int| 0 <= m < j ==> board@[m] == values@[m],
            decreases 16 - j,
        {
            board.push(values[j]);
            j += 1;
        }
        proof {
            assert(board@ =~= values@);
        }
        let p = Puzzle { empty_row: z / 4, empty_col: z % 4, board };
        proof {
            assert(idx(p.erow(), p.ecol()) == z as int);
        }
        Some(p)
    }

    /// Whether the board has reached the solved configuration.
    pub fn has_won(&self) -> (won: bool)
        requires
            self.grid().len() == 16,
        ensures
            won == self.is_solved(),
    {
        let mut k: usize = 0;
        while k < 16
            invariant
                k <= 16,
                self.grid().len() == 16,
                forall|m: int| 0 <= m < k ==> self.grid()[m] == solved_value(m),
            decreases 16 - k,
        {
            let expected: i8 = if k < 15 {
                (k + 1) as i8
            } else {
                0
            };
            if self.board[k] != expected {
                proof {
                    assert(self.grid()[k as int] != solved_value(k as int));
                }
                return false;
            }
            k += 1;
        }
        true
    }

    /// The value at the given row and column.
    pub fn get(&self, row: usize, col: usize) -> (v: i8)
        requires
            self.grid().len() == 16,
            row < 4,
            col < 4,
        ensures
            v == self.at(row as int, col as int),
    {
        self.board[4 * row + col]
    }

    /// Row of the empty cell.
    pub fn empty_row(&self) -> (r: usize)
        ensures
            r as int == self.erow(),
    {
        self.empty_row
    }

    /// Column of the empty cell.
    pub fn empty_col(&self) -> (c: usize)
        ensures
            c as int == self.ecol(),
    {
        self.empty_col
    }

    /// The printed form of the board: each cell as two characters wrapped in
    /// one space on either side, rows separated by newlines.
    pub fn render(&self) -> (s: String)
        requires
            self.grid().len() == 16,
            forall|k: int| 0 <= k < 16 ==> 0 <= #[trigger] self.grid()[k] < 16,
        ensures
            s@ == render_chars(self.grid()),
    {
        let ghost g = self.grid();
        let mut s = String::new();
        let mut k: usize = 0;
        while k < 16
            invariant
                k <= 16,
                self.grid() == g,
                g.len() == 16,
                forall|m: int| 0 <= m < 16 ==> 0 <= #[trigger] g[m] < 16,
                s@ + render_from(g, k as int) == render_chars(g),
            decreases 16 - k,
        {
            let ghost s0 = s@;
            s.append(" ");
            s.append(cell_text(self.board[k]));
            s.append(" ");
            if k % 4 == 3 {
                s.append("\n");
            }
            proof {
                assert(s@ + render_from(g, k + 1) =~= s0 + render_from(g, k as int));
            }
            k += 1;
        }
        proof {
            assert(s@ + render_from(g, 16) =~= s@);
        }
        s
    }

    /// Cascade slide in direction `dir`: starting from the empty cell, keep
    /// copying the neighbour at offset `dir` into the empty cell and moving
    /// the empty cell onto that neighbour, until the neighbour would fall
    /// outside the grid.
    fn move_dir(&mut self, dir: (i8, i8))
        requires
            old(self).wf(),
            dir_ok(dir),
        ensures
            final(self).wf(),
            dir.0 == 0 && dir.1 == 1 ==> slid_left(*old(self), *final(self)),
            dir.0 == 0 && dir.1 == -1 ==> slid_right(*old(self), *final(self)),
            dir.0 == 1 && dir.1 == 0 ==> slid_up(*old(self), *final(self)),
            dir.0 == -1 && dir.1 == 0 ==> slid_down(*old(self), *final(self)),
    {
        loop
            invariant
                self.wf(),
                dir_ok(dir),
                dir.0 == 0 ==> self.erow() == old(self).erow(),
                dir.1 == 0 ==> self.ecol() == old(self).ecol(),
                dir.0 == 0 && dir.1 == 1 ==> grid_slid_left(self.grid(), self.erow(), self.ecol())
                    == grid_slid_left(old(self).grid(), old(self).erow(), old(self).ecol()),
                dir.0 == 0 && dir.1 == -1 ==> grid_slid_right(self.grid(), self.erow(), self.ecol())
                    == grid_slid_right(old(self).grid(), old(self).erow(), old(self).ecol()),
                dir.0 == 1 && dir.1 == 0 ==> grid_slid_up(self.grid(), self.erow(), self.ecol())
                    == grid_slid_up(old(self).grid(), old(self).erow(), old(self).ecol()),
                dir.0 == -1 && dir.1 == 0 ==> grid_slid_down(self.grid(), self.erow(), self.ecol())
                    == grid_slid_down(old(self).grid(), old(self).erow(), old(self).ecol()),
            ensures
                self.wf(),
                dir.0 == 0 ==> self.erow() == old(self).erow(),
                dir.1 == 0 ==> self.ecol() == old(self).ecol(),
                dir.0 == 0 && dir.1 == 1 ==> grid_slid_left(self.grid(), self.erow(), self.ecol())
                    == grid_slid_left(old(self).grid(), old(self).erow(), old(self).ecol()),
                dir.0 == 0 && dir.1 == -1 ==> grid_slid_right(self.grid(), self.erow(), self.ecol())
                    == grid_slid_right(old(self).grid(), old(self).erow(), old(self).ecol()),
                dir.0 == 1 && dir.1 == 0 ==> grid_slid_up(self.grid(), self.erow(), self.ecol())
                    == grid_slid_up(old(self).grid(), old(self).erow(), old(self).ecol()),
                dir.0 == -1 && dir.1 == 0 ==> grid_slid_down(self.grid(), self.erow(), self.ecol())
                    == grid_slid_down(old(self).grid(), old(self).erow(), old(self).ecol()),
                !(0 <= self.erow() + dir.0 < 4 && 0 <= self.ecol() + dir.1 < 4),
            decreases steps_to_edge(self.erow(), self.ecol(), dir),
        {
            let nr: i8 = self.empty_row as i8 + dir.0;
            let nc: i8 = self.empty_col as i8 + dir.1;
            if !(0 <= nr && nr < 4 && 0 <= nc && nc < 4) {
                break ;
            }
            let nru = nr as usize;
            let ncu = nc as usize;
            proof {
                let g = self.grid();
                let er = self.erow();
                let ec = self.ecol();
                lemma_swap_keeps_grid_ok(g, idx(er, ec), idx(nru as int, ncu as int));
                assert(g.update(idx(er, ec), g[idx(nru as int, ncu as int)]).update(
                    idx(nru as int, ncu as int),
                    0i8,
                ) == g.update(idx(er, ec), g[idx(nru as int, ncu as int)]).update(
                    idx(nru as int, ncu as int),
                    g[idx(er, ec)],
                ));
                if dir.0 == 0 && dir.1 == 1 {
                    lemma_step_left(g, er, ec);
                } else if dir.0 == 0 && dir.1 == -1 {
                    lemma_step_right(g, er, ec);
                } else if dir.0 == 1 && dir.1 == 0 {
                    lemma_step_up(g, er, ec);
                } else {
                    lemma_step_down(g, er, ec);
                }
            }
            let e: usize = 4 * self.empty_row + self.empty_col;
            let n: usize = 4 * nru + ncu;
            let v = self.board[n];
            self.board.set(e, v);
            self.board.set(n, 0);
            self.empty_row = nru;
            self.empty_col = ncu;
        }
        proof {
            if dir.0 == 0 && dir.1 == 1 {
                lemma_slid_left_fix(self.grid(), self.erow());
            } else if dir.0 == 0 && dir.1 == -1 {
                lemma_slid_right_fix(self.grid(), self.erow());
            } else if dir.0 == 1 && dir.1 == 0 {
                lemma_slid_up_fix(self.grid(), self.ecol());
            } else {
                lemma_slid_down_fix(self.grid(), self.ecol());
            }
        }
    }

    /// Slide leftward: the tiles right of the empty cell in its row move one
    /// step left; the empty cell ends at the last column.
    pub fn move_left(&mut self)
        requires
            old(self).wf(),
        ensures
            final(self).wf(),
            slid_left(*old(self), *final(self)),
    {
        self.move_dir((0, 1));
    }

    /// Slide rightward: the tiles left of the empty cell in its row move one
    /// step right; the empty cell ends at column 0.
    pub fn move_right(&mut self)
        requires
            old(self).wf(),
        ensures
            final(self).wf(),
            slid_right(*old(self), *final(self)),
    {
        self.move_dir((0, -1));
    }

    /// Slide upward: the tiles below the empty cell in its column move one
    /// step up; the empty cell ends at the last row.
    pub fn move_up(&mut self)
        requires
            old(self).wf(),
        ensures
            final(self).wf(),
            slid_up(*old(self), *final(self)),
    {
        self.move_dir((1, 0));
    }

    /// Slide downward: the tiles above the empty cell in its column move one
    /// step down; the empty cell ends at row 0.
    pub fn move_down(&mut self)
        requires
            old(self).wf(),
        ensures
            final(self).wf(),
            slid_down(*old(self), *final(self)),
    {
        self.move_dir((-1, 0));
    }
}

} // verus!

