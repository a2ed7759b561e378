//! Puzzle generation: a random full grid, from which cells are removed as long
//! as the puzzle stays solvable.
use rand::rngs::ThreadRng;
use rand::Rng;
use vstd::prelude::*;
use crate::sudoku::board::{
    at, blank_count, complete, empty_board, in_grid, lemma_blank_count_after_clear,
    lemma_blank_count_bounds, lemma_valid_after_clear, lemma_valid_iff_conflict_free, peers,
    pos, same_box, valid, well_formed, with_cell, Board,
};
use crate::sudoku::grid::Grid;
use crate::sudoku::solution::{
    is_least_solution, lemma_empty_board_solvable, solution_of, solvable,
};
use crate::sudoku::solver::Solver;

verus! {

/// The thread-local random number generator of the `rand` crate, seen from
/// here as an opaque value.
#[verifier::external_type_specification]
#[verifier::external_body]
pub struct ExThreadRng(ThreadRng);

/// `rand::thread_rng` hands out the generator of the current thread. Nothing
/// is claimed of the value. The call takes no argument; it panics if the
/// operating system gives the generator no seed.
pub assume_specification[ rand::thread_rng ]() -> (rng: ThreadRng)
;

/// `rand::Rng::gen_range` on the range `0..=upper`: the sample lies in the
/// range. Which value of the range it is depends on the generator's state.
#[verifier::external_body]
fn random_index(rng: &mut ThreadRng, upper: usize) -> (j: usize)
    ensures
        j <= upper,
{
    rng.gen_range(0..=upper)
}

/// How many cells a puzzle should have empty.
#[derive(Clone, Copy, Debug)]
pub enum Difficulty {
    Easy,
    Medium,
    Hard,
}

impl Difficulty {
    /// The number of cells to remove from the full grid: 35, 45 or 55.
    pub open spec fn target(self) -> int {
        match self {
            Difficulty::Easy => 35,
            Difficulty::Medium => 45,
            Difficulty::Hard => 55,
        }
    }

    /// The number of cells to remove from the full grid.
    pub fn cells_to_remove(self) -> (count: usize)
        ensures
            count == self.target(),
    {
        match self {
            Difficulty::Easy => 35,
            Difficulty::Medium => 45,
            Difficulty::Hard => 55,
        }
    }
}

/// Cell `(r, c)` lies in one of the three blocks on the main diagonal.
pub open spec fn in_diagonal_box(r: int, c: int) -> bool {
    in_grid(r, c) && r / 3 == c / 3
}

/// Each of the three diagonal blocks holds nine different digits from 1 to 9.
pub open spec fn diagonal_boxes_permuted(b: Board) -> bool {
    &&& forall|r: int, c: int| in_diagonal_box(r, c) ==> #[trigger] at(b, r, c) != 0
    &&& forall|r1: int, c1: int, r2: int, c2: int|
        in_diagonal_box(r1, c1) && in_diagonal_box(r2, c2) && same_box(r1, c1, r2, c2) && (r1
            != r2 || c1 != c2) ==> #[trigger] at(b, r1, c1) != #[trigger] at(b, r2, c2)
}

/// A board whose diagonal blocks each hold a permutation of 1 to 9 and whose
/// other cells are empty.
pub open spec fn diagonal_seed(b: Board) -> bool {
    &&& well_formed(b)
    &&& diagonal_boxes_permuted(b)
    &&& forall|r: int, c: int|
        in_grid(r, c) && !in_diagonal_box(r, c) ==> #[trigger] at(b, r, c) == 0
}

/// The cell may be emptied: it holds a digit, and without it the board still has a solution.
pub open spec fn removable(b: Board, r: int, c: int) -> bool {
    at(b, r, c) != 0 && solvable(with_cell(b, r, c, 0))
}

/// The board after the removal pass has looked at the cells `order[i..]`,
/// `removed` cells having been emptied before.
///
/// The pass ends when `count` cells are emptied, when `15 * count` cells have
/// been looked at, or when `order` is used up.
pub open spec fn carve(
    b: Board,
    order: Seq<(usize, usize)>,
    i: int,
    removed: int,
    count: int,
) -> Board
    decreases order.len() - i,
{
    if i < 0 || i >= order.len() || removed >= count {
        b
    } else {
        let r = order[i].0 as int;
        let c = order[i].1 as int;
        let hit = removable(b, r, c);
        let b1 = if hit {
            with_cell(b, r, c, 0)
        } else {
            b
        };
        let removed1 = if hit {
            removed + 1
        } else {
            removed
        };
        if i + 1 >= 15 * count {
            b1
        } else {
            carve(b1, order, i + 1, removed1, count)
        }
    }
}

/// `p` is `b` with some cells emptied.
pub open spec fn carved_from(p: Board, b: Board) -> bool {
    forall|k: int| 0 <= k < 81 ==> #[trigger] p[k] == b[k] || p[k] == 0
}

/// The 81 cells of the grid in row-major order.
pub open spec fn all_cells() -> Seq<(usize, usize)> {
    Seq::new(81, |k: int| ((k / 9) as usize, (k % 9) as usize))
}

/// `order` lists every cell of the grid once.
pub open spec fn is_cell_order(order: Seq<(usize, usize)>) -> bool {
    order.to_multiset() == all_cells().to_multiset()
}

/// Every entry of `order` names a cell of the grid.
pub open spec fn cells_in_grid(order: Seq<(usize, usize)>) -> bool {
    forall|i: int|
        0 <= i < order.len() ==> in_grid((#[trigger] order[i]).0 as int, order[i].1 as int)
}

/// The board that the search is run on to get a full grid: the seed, or the
/// empty board should the seed have no solution.
pub open spec fn search_start(seed: Board) -> Board {
    if solvable(seed) {
        seed
    } else {
        empty_board()
    }
}

/// `p` is a puzzle made from the diagonal seed `seed`: `full` is the first
/// solution of the seed, or of the empty board should the seed have none,
/// and `p` is `full` after a removal pass for `count` cells over all cells in
/// the order `order`.
pub open spec fn puzzle_from(
    p: Board,
    seed: Board,
    full: Board,
    order: Seq<(usize, usize)>,
    count: int,
) -> bool {
    &&& diagonal_seed(seed)
    &&& is_least_solution(full, search_start(seed))
    &&& is_cell_order(order)
    &&& p == carve(full, order, 0, 0, count)
}

/// A diagonal seed is a valid board.
pub proof fn lemma_diagonal_seed_valid(b: Board)
    requires
        diagonal_seed(b),
    ensures
        valid(b),
{
    assert forall|r1: int, c1: int, r2: int, c2: int|
        peers(r1, c1, r2, c2) && #[trigger] at(b, r1, c1) != 0 implies at(b, r1, c1)
        != #[trigger] at(b, r2, c2) by {
        assert(in_diagonal_box(r1, c1));
        if at(b, r2, c2) != 0 {
            assert(in_diagonal_box(r2, c2));
        }
    }
    lemma_valid_iff_conflict_free(b);
}

/// Writing one element of a sequence over another and that one over the first
/// keeps the elements, each as often as before.
pub proof fn lemma_swap_keeps_multiset<T>(s: Seq<T>, i: int, j: int)
    requires
        0 <= i < s.len(),
        0 <= j < s.len(),
    ensures
        s.update(i, s[j]).update(j, s[i]).to_multiset() == s.to_multiset(),
{
    broadcast use vstd::seq_lib::to_multiset_remove, vstd::seq_lib::to_multiset_insert;
    broadcast use vstd::multiset::group_multiset_axioms;

    let s1 = s.update(i, s[j]);
    let s2 = s1.update(j, s[i]);
    if i == j {
        assert(s2 =~= s);
    } else {
        s.to_multiset_ensures();
        s1.to_multiset_ensures();
        assert(s1 =~= s.remove(i).insert(i, s[j]));
        assert(s2 =~= s1.remove(j).insert(j, s[i]));
        assert(s.contains(s[i]));
        assert(s1.contains(s1[j]));
        assert(s2.to_multiset() =~= s.to_multiset());
    }
}

/// Sequences with the same elements, each as often, have the same length and
/// members, and neither repeats an element unless the other does.
pub proof fn lemma_same_multiset<T>(a: Seq<T>, b: Seq<T>)
    requires
        a.to_multiset() == b.to_multiset(),
    ensures
        a.len() == b.len(),
        forall|x: T| a.contains(x) <==> b.contains(x),
        b.no_duplicates() ==> a.no_duplicates(),
{
    a.to_multiset_ensures();
    b.to_multiset_ensures();
    assert forall|x: T| a.contains(x) <==> b.contains(x) by {
        assert(a.contains(x) <==> a.to_multiset().count(x) > 0);
        assert(b.contains(x) <==> b.to_multiset().count(x) > 0);
    }
    if b.no_duplicates() {
        b.lemma_multiset_has_no_duplicates();
        a.lemma_multiset_has_no_duplicates_conv();
    }
}

/// An order of all cells names cells of the grid only.
pub proof fn lemma_cell_order_in_grid(order: Seq<(usize, usize)>)
    requires
        is_cell_order(order),
    ensures
        cells_in_grid(order),
        order.len() == 81,
{
    lemma_same_multiset(order, all_cells());
    assert forall|i: int| 0 <= i < order.len() implies in_grid(
        (#[trigger] order[i]).0 as int,
        order[i].1 as int,
    ) by {
        assert(order.contains(order[i]));
        assert(all_cells().contains(order[i]));
        let k = choose|k: int| 0 <= k < all_cells().len() && all_cells()[k] == order[i];
        assert(all_cells()[k] == ((k / 9) as usize, (k % 9) as usize));
    }
}

/// What a removal pass keeps: it only empties cells, at most as many as are
/// left of `count`, and it keeps a solvable board solvable and a valid board
/// valid.
pub proof fn lemma_carve_properties(
    b: Board,
    order: Seq<(usize, usize)>,
    i: int,
    removed: int,
    count: int,
)
    requires
        b.len() == 81,
        cells_in_grid(order),
        0 <= i,
        0 <= removed,
    ensures
        carve(b, order, i, removed, count).len() == 81,
        carved_from(carve(b, order, i, removed, count), b),
        blank_count(carve(b, order, i, removed, count)) <= blank_count(b) + if removed < count {
            count - removed
        } else {
            0
        },
        solvable(b) ==> solvable(carve(b, order, i, removed, count)),
        valid(b) ==> valid(carve(b, order, i, removed, count)),
        well_formed(b) ==> well_formed(carve(b, order, i, removed, count)),
        carve(b, order, i, removed, count) == b || solvable(carve(b, order, i, removed, count)),
    decreases order.len() - i,
{
    if i >= order.len() || removed >= count {
    } else {
        let r = order[i].0 as int;
        let c = order[i].1 as int;
        assert(in_grid(r, c));
        let hit = removable(b, r, c);
        let b1 = if hit {
            with_cell(b, r, c, 0)
        } else {
            b
        };
        let removed1 = if hit {
            removed + 1
        } else {
            removed
        };
        if hit {
            lemma_blank_count_after_clear(b, 9 * r + c);
            if valid(b) {
                lemma_valid_after_clear(b, r, c);
            }
        }
        if i + 1 >= 15 * count {
        } else {
            lemma_carve_properties(b1, order, i + 1, removed1, count);
            let res = carve(b1, order, i + 1, removed1, count);
            assert forall|k: int| 0 <= k < 81 implies #[trigger] res[k] == b[k] || res[k] == 0 by {
                assert(res[k] == b1[k] || res[k] == 0);
            }
        }
    }
}

/// Emptying a cell of a board that has a solution leaves a board that has one.
pub proof fn lemma_solvable_after_clear(b: Board, r: int, c: int)
    requires
        b.len() == 81,
        in_grid(r, c),
        solvable(b),
    ensures
        solvable(with_cell(b, r, c, 0)),
{
    let s = choose|s: Board| solution_of(s, b);
    let b1 = with_cell(b, r, c, 0);
    assert forall|k: int| 0 <= k < 81 && #[trigger] b1[k] != 0 implies s[k] == b1[k] by {
        assert(b[k] == b1[k]);
    }
    assert(solution_of(s, b1));
}

/// On a board that has a solution, a removal pass over cells that hold
/// digits and are named once each empties as many cells as were asked for.
pub proof fn lemma_carve_count(b: Board, order: Seq<(usize, usize)>, i: int, count: int)
    requires
        b.len() == 81,
        solvable(b),
        cells_in_grid(order),
        order.no_duplicates(),
        0 <= i <= count <= order.len(),
        forall|j: int|
            i <= j < order.len() ==> at(b, (#[trigger] order[j]).0 as int, order[j].1 as int)
                != 0,
    ensures
        blank_count(carve(b, order, i, i, count)) == blank_count(b) + count - i,
    decreases order.len() - i,
{
    if i < count {
        let r = order[i].0 as int;
        let c = order[i].1 as int;
        assert(in_grid(r, c));
        lemma_solvable_after_clear(b, r, c);
        lemma_blank_count_after_clear(b, 9 * r + c);
        let b1 = with_cell(b, r, c, 0);
        assert forall|j: int| i + 1 <= j < order.len() implies at(
            b1,
            (#[trigger] order[j]).0 as int,
            order[j].1 as int,
        ) != 0 by {
            assert(order[j] != order[i]);
            assert(in_grid(order[j].0 as int, order[j].1 as int));
            assert(at(b, order[j].0 as int, order[j].1 as int) != 0);
        }
        lemma_carve_count(b1, order, i + 1, count);
    }
}

/// An order of all cells names each cell once.
pub proof fn lemma_cell_order_no_duplicates(order: Seq<(usize, usize)>)
    requires
        is_cell_order(order),
    ensures
        order.no_duplicates(),
{
    assert forall|i: int, j: int|
        0 <= i < all_cells().len() && 0 <= j < all_cells().len() && i != j implies all_cells()[i]
        != all_cells()[j] by {
        assert(i == 9 * (i / 9) + i % 9);
        assert(j == 9 * (j / 9) + j % 9);
    }
    lemma_same_multiset(order, all_cells());
}

/// A puzzle is a valid board with a solution and with as many empty cells
/// as were asked for; it was cut from a complete board, and only cells of
/// that board were emptied.
pub proof fn lemma_puzzle_properties(
    p: Board,
    seed: Board,
    full: Board,
    order: Seq<(usize, usize)>,
    count: int,
)
    requires
        puzzle_from(p, seed, full, order, count),
        0 <= count <= 81,
    ensures
        complete(full),
        carved_from(p, full),
        well_formed(p),
        valid(p),
        solvable(p),
        blank_count(p) == count,
{
    assert(solution_of(full, full));
    lemma_cell_order_in_grid(order);
    lemma_cell_order_no_duplicates(order);
    lemma_carve_properties(full, order, 0, 0, count);
    lemma_blank_count_bounds(full);
    assert forall|j: int| 0 <= j < order.len() implies at(
        full,
        (#[trigger] order[j]).0 as int,
        order[j].1 as int,
    ) != 0 by {
        assert(in_grid(order[j].0 as int, order[j].1 as int));
        assert(full[pos(order[j].0 as int, order[j].1 as int)] != 0);
    }
    lemma_carve_count(full, order, 0, count);
}

/// Builds puzzles.
pub struct Generator;

impl Generator {
    /// Reorders `items` at random, by the method of Fisher and Yates: from the
    /// last place down to the second, each element changes places with one
    /// drawn from the places up to its own.
    pub fn shuffle<T: Copy>(items: &mut Vec<T>, rng: &mut ThreadRng)
        ensures
            final(items)@.to_multiset() == old(items)@.to_multiset(),
            final(items).len() == old(items).len(),
            exists|draws: Seq<usize>|
                {
                    &&& draws.len() == draw_count(old(items)@.len() as int)
                    &&& draws_in_range(draws, old(items)@.len() as int)
                    &&& final(items)@ == #[trigger] rearranged(
                        old(items)@,
                        draws,
                        draws.len() as int,
                    )
                },
    {
        let ghost n = items.len() as int;
        let ghost mut draws: Seq<usize> = Seq::empty();
        let mut i = items.len();
        while i > 1
            invariant
                i <= items.len(),
                items.len() == old(items).len(),
                n == old(items)@.len(),
                items@.to_multiset() == old(items)@.to_multiset(),
                n >= 1 ==> i >= 1,
                draws.len() == n - i,
                draws_in_range(draws, n),
                items@ == rearranged(old(items)@, draws, draws.len() as int),
            decreases i,
        {
            i -= 1;
            let j = random_index(rng, i);
            proof {
                lemma_swap_keeps_multiset(items@, i as int, j as int);
                let drawn = draws.push(j);
                lemma_rearranged_reads_first_draws(
                    old(items)@,
                    draws,
                    drawn,
                    draws.len() as int,
                );
                draws = drawn;
            }
            Self::swap_places(items, i, j);
        }
        assert(items@ == rearranged(old(items)@, draws, draws.len() as int));
    }

    /// Lets the elements at the places `i` and `j` change places.
    pub fn swap_places<T: Copy>(items: &mut Vec<T>, i: usize, j: usize)
        requires
            i < old(items).len(),
            j < old(items).len(),
        ensures
            final(items)@ == swapped(old(items)@, i as int, j as int),
    {
        let a = items[i];
        let b = items[j];
        items[i] = b;
        items[j] = a;
    }

    /// Writes the nine `numbers` into the block whose upper left cell is
    /// `(box_start, box_start)`, row by row.
    pub fn fill_box(grid: &mut Grid, box_start: usize, numbers: &Vec<u8>)
        requires
            old(grid).wf(),
            box_start <= 6,
            numbers.len() == 9,
            forall|i: int| 0 <= i < 9 ==> #[trigger] numbers[i] <= 9,
        ensures
            final(grid).wf(),
            final(grid)@.fixed == old(grid)@.fixed,
            forall|r: int, c: int|
                in_grid(r, c) ==> #[trigger] at(final(grid)@.cells, r, c) == if box_start <= r
                    < box_start + 3 && box_start <= c < box_start + 3 {
                    numbers[3 * (r - box_start) + (c - box_start)]
                } else {
                    at(old(grid)@.cells, r, c)
                },
    {
        let mut idx: usize = 0;
        for row in box_start..box_start + 3
            invariant
                grid.wf(),
                grid@.fixed == old(grid)@.fixed,
                box_start <= 6,
                numbers.len() == 9,
                forall|i: int| 0 <= i < 9 ==> #[trigger] numbers[i] <= 9,
                idx == 3 * (row - box_start),
                forall|r: int, c: int|
                    in_grid(r, c) ==> #[trigger] at(grid@.cells, r, c) == if box_start <= r < row
                        && box_start <= c < box_start + 3 {
                        numbers[3 * (r - box_start) + (c - box_start)]
                    } else {
                        at(old(grid)@.cells, r, c)
                    },
        {
            for col in box_start..box_start + 3
                invariant
                    grid.wf(),
                    grid@.fixed == old(grid)@.fixed,
                    box_start <= 6,
                    box_start <= row < box_start + 3,
                    numbers.len() == 9,
                    forall|i: int| 0 <= i < 9 ==> #[trigger] numbers[i] <= 9,
                    idx == 3 * (row - box_start) + (col - box_start),
                    forall|r: int, c: int|
                        in_grid(r, c) ==> #[trigger] at(grid@.cells, r, c) == if box_start <= r
                            && box_start <= c < box_start + 3 && (r < row || (r == row && c
                            < col)) {
                            numbers[3 * (r - box_start) + (c - box_start)]
                        } else {
                            at(old(grid)@.cells, r, c)
                        },
            {
                let ghost before = grid@.cells;
                grid.set(row, col, numbers[idx]);
                assert forall|r: int, c: int| in_grid(r, c) implies #[trigger] at(
                    grid@.cells,
                    r,
                    c,
                ) == if box_start <= r && box_start <= c < box_start + 3 && (r < row || (r == row
                    && c < col + 1)) {
                    numbers[3 * (r - box_start) + (c - box_start)]
                } else {
                    at(old(grid)@.cells, r, c)
                } by {
                    if r != row || c != col {
                        assert(at(grid@.cells, r, c) == at(before, r, c));
                    }
                }
                idx += 1;
            }
        }
    }

    /// Fills each of the three diagonal blocks with the digits 1 to 9 in a
    /// random order. The other cells stay as they are.
    fn fill_diagonal_boxes(grid: &mut Grid)
        requires
            old(grid).wf(),
        ensures
            final(grid).wf(),
            final(grid)@.fixed == old(grid)@.fixed,
            diagonal_boxes_permuted(final(grid)@.cells),
            forall|r: int, c: int|
                in_grid(r, c) && !in_diagonal_box(r, c) ==> #[trigger] at(final(grid)@.cells, r, c)
                    == at(old(grid)@.cells, r, c),
    {
        let mut rng = rand::thread_rng();

        let mut box_start: usize = 0;
        while box_start < 9
            invariant
                box_start <= 9,
                box_start % 3 == 0,
                grid.wf(),
                grid@.fixed == old(grid)@.fixed,
                forall|r: int, c: int|
                    in_grid(r, c) && !in_diagonal_box(r, c) ==> #[trigger] at(grid@.cells, r, c)
                        == at(old(grid)@.cells, r, c),
                forall|r: int, c: int|
                    in_diagonal_box(r, c) && r < box_start ==> #[trigger] at(grid@.cells, r, c)
                        != 0,
                forall|r1: int, c1: int, r2: int, c2: int|
                    in_diagonal_box(r1, c1) && in_diagonal_box(r2, c2) && same_box(r1, c1, r2, c2)
                        && (r1 != r2 || c1 != c2) && r1 < box_start ==> #[trigger] at(
                        grid@.cells,
                        r1,
                        c1,
                    ) != #[trigger] at(grid@.cells, r2, c2),
            decreases 9 - box_start,
        {
            let mut numbers: Vec<u8> = Vec::new();
            for digit in 1..10u8
                invariant
                    numbers.len() == digit - 1,
                    forall|i: int| 0 <= i < numbers.len() ==> #[trigger] numbers[i] == i + 1,
            {
                numbers.push(digit);
            }
            let ghost ordered = numbers@;
            Self::shuffle(&mut numbers, &mut rng);
            proof {
                lemma_same_multiset(numbers@, ordered);
                assert forall|i: int| 0 <= i < 9 implies 1 <= #[trigger] numbers[i] <= 9 by {
                    assert(numbers@.contains(numbers[i]));
                    assert(ordered.contains(numbers[i]));
                }
            }
            let ghost before = grid@.cells;
            Self::fill_box(grid, box_start, &numbers);
            proof {
                let bs = box_start as int;
                assert forall|r: int, c: int|
                    in_diagonal_box(r, c) && r < bs + 3 implies #[trigger] at(grid@.cells, r, c)
                    != 0 by {
                    if r >= bs {
                        assert(at(grid@.cells, r, c) == numbers[3 * (r - bs) + (c - bs)]);
                    } else {
                        assert(at(grid@.cells, r, c) == at(before, r, c));
                    }
                }
                assert forall|r1: int, c1: int, r2: int, c2: int|
                    in_diagonal_box(r1, c1) && in_diagonal_box(r2, c2) && same_box(r1, c1, r2, c2)
                        && (r1 != r2 || c1 != c2) && r1 < bs + 3 implies #[trigger] at(
                    grid@.cells,
                    r1,
                    c1,
                ) != #[trigger] at(grid@.cells, r2, c2) by {
                    if r1 >= bs {
                        assert(at(grid@.cells, r1, c1) == numbers[3 * (r1 - bs) + (c1 - bs)]);
                        assert(at(grid@.cells, r2, c2) == numbers[3 * (r2 - bs) + (c2 - bs)]);
                    } else {
                        assert(at(grid@.cells, r1, c1) == at(before, r1, c1));
                        assert(at(grid@.cells, r2, c2) == at(before, r2, c2));
                    }
                }
            }
            box_start += 3;
        }
    }

    /// The removal pass over the cells in the order given: each cell that
    /// holds a digit is emptied if the grid still has a solution without it.
    /// The pass ends when `count` cells are emptied or `15 * count` cells have
    /// been looked at.
    pub fn remove_in_order(grid: &mut Grid, count: usize, positions: &Vec<(usize, usize)>)
        requires
            old(grid).wf(),
            cells_in_grid(positions@),
            count * 15 <= usize::MAX,
        ensures
            final(grid).wf(),
            final(grid)@.fixed == old(grid)@.fixed,
            final(grid)@.cells == carve(old(grid)@.cells, positions@, 0, 0, count as int),
    {
        let ghost b0 = grid@.cells;
        let ghost order = positions@;
        let mut removed: usize = 0;
        let mut attempts: usize = 0;
        let max_attempts = count * 15;

        let mut i: usize = 0;
        while i < positions.len()
            invariant_except_break
                carve(grid@.cells, order, i as int, removed as int, count as int) == carve(
                    b0,
                    order,
                    0,
                    0,
                    count as int,
                ),
            invariant
                grid.wf(),
                grid@.fixed == old(grid)@.fixed,
                order == positions@,
                cells_in_grid(order),
                max_attempts == count * 15,
                attempts == i,
                removed <= i,
                i <= positions.len(),
            ensures
                grid@.cells == carve(b0, order, 0, 0, count as int),
            decreases positions.len() - i,
        {
            if removed >= count {
                break ;
            }
            let ghost cur = grid@.cells;
            let (row, col) = positions[i];
            assert(in_grid(order[i as int].0 as int, order[i as int].1 as int));

            if grid.get(row, col) != 0 {
                let backup = grid.get(row, col);
                grid.set(row, col, 0);
                let mut test_grid = grid.clone();
                if Solver::solve(&mut test_grid) {
                    removed += 1;
                } else {
                    grid.set(row, col, backup);
                    assert(grid@.cells =~= cur);
                }
            }
            attempts += 1;
            i += 1;
            if attempts >= max_attempts {
                break ;
            }
        }
    }

    /// Empties up to `count` cells of the grid, looking at the cells in a
    /// random order and keeping the grid solvable.
    fn remove_cells(grid: &mut Grid, count: usize, rng: &mut ThreadRng)
        requires
            old(grid).wf(),
            count * 15 <= usize::MAX,
        ensures
            final(grid).wf(),
            final(grid)@.fixed == old(grid)@.fixed,
            exists|order: Seq<(usize, usize)>|
                is_cell_order(order) && final(grid)@.cells == #[trigger] carve(
                    old(grid)@.cells,
                    order,
                    0,
                    0,
                    count as int,
                ),
    {
        let mut positions: Vec<(usize, usize)> = Vec::new();
        for row in 0..9usize
            invariant
                positions.len() == 9 * row,
                forall|k: int|
                    0 <= k < positions.len() ==> #[trigger] positions[k] == (
                        (k / 9) as usize,
                        (k % 9) as usize,
                    ),
        {
            for col in 0..9usize
                invariant
                    row < 9,
                    positions.len() == 9 * row + col,
                    forall|k: int|
                        0 <= k < positions.len() ==> #[trigger] positions[k] == (
                            (k / 9) as usize,
                            (k % 9) as usize,
                        ),
            {
                positions.push((row, col));
            }
        }
        assert(positions@ =~= all_cells());

        Self::shuffle(&mut positions, rng);
        proof {
            lemma_cell_order_in_grid(positions@);
        }
        Self::remove_in_order(grid, count, &positions);
    }

    /// A new puzzle: a random full grid with 35, 45 or 55 cells emptied,
    /// whose remaining digits are marked as fixed. The removal pass never
    /// falls short of that number: a grid cut from a full grid can always be
    /// refilled, so no cell resists removal.
    ///
    /// The full grid is the first solution of a random diagonal seed. Should
    /// a seed have no solution, the first solution of the empty grid takes
    /// its place: no such seed is known, and none is proved impossible.
    pub fn generate(difficulty: Difficulty) -> (grid: Grid)
        ensures
            grid.wf(),
            valid(grid@.cells),
            solvable(grid@.cells),
            blank_count(grid@.cells) == difficulty.target(),
            forall|k: int| 0 <= k < 81 ==> #[trigger] grid@.fixed[k] == (grid@.cells[k] != 0),
            exists|seed: Board, full: Board, order: Seq<(usize, usize)>| #[trigger]
                puzzle_from(grid@.cells, seed, full, order, difficulty.target()),
    {
        let mut grid = Grid::new();
        let mut rng = rand::thread_rng();

        Self::fill_diagonal_boxes(&mut grid);
        let ghost seed = grid@.cells;
        assert(diagonal_seed(seed)) by {
            assert forall|r: int, c: int|
                in_grid(r, c) && !in_diagonal_box(r, c) implies #[trigger] at(seed, r, c) == 0 by {
                assert(at(empty_board(), r, c) == 0);
            }
        }
        if !Solver::solve(&mut grid) {
            grid = Grid::new();
            proof {
                lemma_empty_board_solvable();
            }
            Solver::solve(&mut grid);
        }
        let ghost full = grid@.cells;

        let cells_to_remove = difficulty.cells_to_remove();

        Self::remove_cells(&mut grid, cells_to_remove, &mut rng);
        proof {
            let order = choose|order: Seq<(usize, usize)>|
                is_cell_order(order) && grid@.cells == #[trigger] carve(
                    full,
                    order,
                    0,
                    0,
                    cells_to_remove as int,
                );
            assert(puzzle_from(grid@.cells, seed, full, order, difficulty.target()));
            lemma_puzzle_properties(grid@.cells, seed, full, order, difficulty.target());
        }

        for row in 0..9usize
            invariant
                grid.wf(),
                valid(grid@.cells),
                solvable(grid@.cells),
                blank_count(grid@.cells) == difficulty.target(),
                exists|seed: Board, full: Board, order: Seq<(usize, usize)>| #[trigger]
                    puzzle_from(grid@.cells, seed, full, order, difficulty.target()),
                forall|k: int|
                    0 <= k < 9 * row ==> #[trigger] grid@.fixed[k] == (grid@.cells[k] != 0),
                forall|k: int| 9 * row <= k < 81 ==> !#[trigger] grid@.fixed[k],
        {
            for col in 0..9usize
                invariant
                    row < 9,
                    grid.wf(),
                    valid(grid@.cells),
                    solvable(grid@.cells),
                    blank_count(grid@.cells) == difficulty.target(),
                    exists|seed: Board, full: Board, order: Seq<(usize, usize)>| #[trigger]
                        puzzle_from(grid@.cells, seed, full, order, difficulty.target()),
                    forall|k: int|
                        0 <= k < 9 * row + col ==> #[trigger] grid@.fixed[k] == (grid@.cells[k]
                            != 0),
                    forall|k: int| 9 * row + col <= k < 81 ==> !#[trigger] grid@.fixed[k],
            {
                if grid.get(row, col) != 0 {
                    grid.set_fixed(row, col, true);
                }
            }
        }
        grid
    }
}

/// The sequence in which the elements at the places `i` and `j` have changed places.
pub open spec fn swapped<T>(s: Seq<T>, i: int, j: int) -> Seq<T> {
    s.update(i, s[j]).update(j, s[i])
}

/// How many numbers a shuffle of `n` elements draws: one for each place but the first.
pub open spec fn draw_count(n: int) -> int {
    if n <= 1 {
        0
    } else {
        n - 1
    }
}

/// The draws are such as a shuffle of `n` elements makes: the first is for
/// the last place, the next for the place before it, and each names a place
/// up to its own.
pub open spec fn draws_in_range(draws: Seq<usize>, n: int) -> bool {
    forall|t: int| 0 <= t < draws.len() ==> #[trigger] draws[t] <= n - 1 - t
}

/// The sequence after the first `m` steps of a shuffle: step `t`, counted
/// from 0, lets the element at place `s.len() - 1 - t` change places with the
/// one at place `draws[t]`.
pub open spec fn rearranged<T>(s: Seq<T>, draws: Seq<usize>, m: int) -> Seq<T>
    decreases m,
{
    if m <= 0 {
        s
    } else {
        swapped(rearranged(s, draws, m - 1), s.len() - m, draws[m - 1] as int)
    }
}

/// The first `m` steps of a shuffle depend on the first `m` draws only.
pub proof fn lemma_rearranged_reads_first_draws<T>(
    s: Seq<T>,
    a: Seq<usize>,
    b: Seq<usize>,
    m: int,
)
    requires
        m <= a.len(),
        m <= b.len(),
        forall|t: int| 0 <= t < m ==> a[t] == b[t],
    ensures
        rearranged(s, a, m) == rearranged(s, b, m),
    decreases m,
{
    if m > 0 {
        lemma_rearranged_reads_first_draws(s, a, b, m - 1);
    }
}

} // verus!
