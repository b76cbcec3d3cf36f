//! The search engine: neighbour geometry, branch-cell choice, and the
//! exhaustive branch-and-propagate search over a work stack of grids.

use vstd::prelude::*;
use crate::grid::Cell;
use crate::grid::Grid;
use crate::grid::poss_wf;
use crate::grid::remove_val;
use crate::grid::lemma_remove_val_membership;
use crate::grid::lemma_remove_val_len;
use crate::grid::lemma_remove_val_wf;

verus! {

/// The row of a linear cell index.
pub open spec fn row_of(i: int) -> int {
    i / 9
}

/// The column of a linear cell index.
pub open spec fn col_of(i: int) -> int {
    i % 9
}

/// Whether two cell indices lie in the same 3x3 block.
pub open spec fn same_block(i: int, j: int) -> bool {
    row_of(i) / 3 == row_of(j) / 3 && col_of(i) / 3 == col_of(j) / 3
}

/// The neighbour relation: two distinct cells that share a row, a column or
/// a 3x3 block.
pub open spec fn is_neighbour(i: int, j: int) -> bool {
    &&& 0 <= i < 81
    &&& 0 <= j < 81
    &&& i != j
    &&& (row_of(i) == row_of(j) || col_of(i) == col_of(j) || same_block(i, j))
}

/// The neighbour relation is symmetric: `j` is a neighbour of `i` exactly
/// when `i` is a neighbour of `j`.
pub proof fn lemma_neighbour_symmetric(i: int, j: int)
    ensures
        is_neighbour(i, j) == is_neighbour(j, i),
{
}

/// Whether index `i` occurs in the list `ns`.
pub open spec fn contains_idx(ns: Seq<usize>, i: int) -> bool {
    exists|k: int| 0 <= k < ns.len() && ns[k] as int == i
}

/// Whether the list holds no index twice.
pub open spec fn distinct_indices(ns: Seq<usize>) -> bool {
    forall|k1: int, k2: int| 0 <= k1 < k2 < ns.len() ==> ns[k1] != ns[k2]
}

/// Composing a row and a column into a linear index and taking them apart
/// again are inverses.
proof fn lemma_index_decode(r: int, c: int)
    requires
        0 <= r < 9,
        0 <= c < 9,
    ensures
        row_of(r * 9 + c) == r,
        col_of(r * 9 + c) == c,
{
    assert((r * 9 + c) / 9 == r && (r * 9 + c) % 9 == c) by (nonlinear_arith)
        requires
            0 <= r < 9,
            0 <= c < 9,
    ;
}

/// The exactly 20 distinct peers of `cell`: the cells of its row, its column
/// and its 3x3 block, without `cell` itself and without repetition.
pub fn get_neighbours(cell: usize) -> (ns: Vec<usize>)
    requires
        cell < 81,
    ensures
        ns@.len() == 20,
        distinct_indices(ns@),
        forall|j: int| contains_idx(ns@, j) <==> is_neighbour(cell as int, j),
{
    let row = cell / 9;
    let column = cell % 9;
    let block_row = row / 3;
    let block_column = column / 3;
    let mut ns: Vec<usize> = Vec::new();

    let mut c: usize = 0;
    while c < 9
        invariant
            cell < 81,
            row == cell / 9,
            column == cell % 9,
            c <= 9,
            ns@.len() == if c > column { c - 1 } else { c as int },
            distinct_indices(ns@),
            forall|j: int| #[trigger] contains_idx(ns@, j)
                <==> (row_of(j) == row && 0 <= col_of(j) < c && j != cell),
        decreases 9 - c,
    {
        if c != column {
            let idx = row * 9 + c;
            let ghost ns0 = ns@;
            ns.push(idx);
            proof {
                lemma_index_decode(row as int, c as int);
                assert(!contains_idx(ns0, idx as int));
                assert(ns@ == ns0.push(idx));
                assert forall|j: int| #[trigger] contains_idx(ns@, j)
                    implies (row_of(j) == row && 0 <= col_of(j) < c + 1 && j != cell) by {
                    if j != idx {
                        let k = choose|k: int| 0 <= k < ns@.len() && ns@[k] as int == j;
                        assert(0 <= k < ns0.len() && ns0[k] as int == j);
                        assert(contains_idx(ns0, j));
                        assert(row_of(j) == row && 0 <= col_of(j) < c && j != cell);
                    } else {
                        assert(row_of(j) == row);
                        assert(col_of(j) == c);
                        assert(col_of(cell as int) == column);
                        assert(j != cell);
                    }
                }
                assert forall|j: int| (row_of(j) == row && 0 <= col_of(j) < c + 1 && j != cell)
                    implies contains_idx(ns@, j) by {
                    if col_of(j) < c {
                        assert(contains_idx(ns0, j));
                        let k = choose|k: int| 0 <= k < ns0.len() && ns0[k] as int == j;
                        assert(ns@[k] as int == j);
                    } else {
                        assert(j == 9 * row_of(j) + col_of(j));
                        assert(j == idx as int);
                        assert(ns@[ns0.len() as int] == idx);
                    }
                }
            }
        } else {
            proof {
                assert(cell as int == 9 * row_of(cell as int) + col_of(cell as int));
                lemma_index_decode(row as int, c as int);
                assert forall|j: int| (row_of(j) == row && 0 <= col_of(j) < c + 1 && j != cell)
                    implies contains_idx(ns@, j) by {
                    assert(j == 9 * row_of(j) + col_of(j));
                    if col_of(j) == c {
                        assert(j == cell as int);
                    } else {
                        assert(contains_idx(ns@, j));
                    }
                }
            }
        }
        c = c + 1;
    }

    proof {
        assert(ns@.len() == 8);
        assert(forall|j: int| #[trigger] contains_idx(ns@, j)
            <==> (row_of(j) == row && 0 <= j < 81 && j != cell)) by {
            assert forall|j: int| (row_of(j) == row && 0 <= j < 81 && j != cell)
                implies (0 <= col_of(j) < 9) by {}
            assert forall|j: int| (row_of(j) == row && 0 <= col_of(j) < 9 && j != cell)
                implies (0 <= j < 81) by {
                assert(j == 9 * row_of(j) + col_of(j));
            }
        }
    }

    let mut r: usize = 0;
    while r < 9
        invariant
            cell < 81,
            row == cell / 9,
            column == cell % 9,
            r <= 9,
            ns@.len() == 8 + if r > row { r - 1 } else { r as int },
            distinct_indices(ns@),
            forall|j: int| #[trigger] contains_idx(ns@, j)
                <==> ((row_of(j) == row && 0 <= j < 81 && j != cell)
                    || (col_of(j) == column && 0 <= row_of(j) < r && j != cell)),
        decreases 9 - r,
    {
        if r != row {
            let idx = r * 9 + column;
            let ghost ns0 = ns@;
            ns.push(idx);
            proof {
                lemma_index_decode(r as int, column as int);
                assert(!contains_idx(ns0, idx as int));
                assert(ns@ == ns0.push(idx));
                assert forall|j: int| #[trigger] contains_idx(ns@, j)
                    implies ((row_of(j) == row && 0 <= j < 81 && j != cell)
                        || (col_of(j) == column && 0 <= row_of(j) < r + 1 && j != cell)) by {
                    if j != idx {
                        let k = choose|k: int| 0 <= k < ns@.len() && ns@[k] as int == j;
                        assert(0 <= k < ns0.len() && ns0[k] as int == j);
                        assert(contains_idx(ns0, j));
                    }
                }
                assert forall|j: int| ((row_of(j) == row && 0 <= j < 81 && j != cell)
                        || (col_of(j) == column && 0 <= row_of(j) < r + 1 && j != cell))
                    implies contains_idx(ns@, j) by {
                    if contains_idx(ns0, j) {
                        let k = choose|k: int| 0 <= k < ns0.len() && ns0[k] as int == j;
                        assert(ns@[k] as int == j);
                    } else {
                        assert(col_of(j) == column && row_of(j) == r);
                        assert(j == 9 * row_of(j) + col_of(j));
                        assert(j == idx as int);
                        assert(ns@[ns0.len() as int] == idx);
                    }
                }
            }
        } else {
            proof {
                assert(cell as int == 9 * row_of(cell as int) + col_of(cell as int));
                assert forall|j: int| ((row_of(j) == row && 0 <= j < 81 && j != cell)
                        || (col_of(j) == column && 0 <= row_of(j) < r + 1 && j != cell))
                    implies contains_idx(ns@, j) by {
                    if !(row_of(j) == row && 0 <= j < 81 && j != cell) {
                        assert(col_of(j) == column);
                        assert(j == 9 * row_of(j) + col_of(j));
                        if row_of(j) == r {
                            assert(j == cell as int);
                        }
                    }
                }
            }
        }
        r = r + 1;
    }

    proof {
        assert(ns@.len() == 16);
    }

    let mut br: usize = 0;
    while br < 3
        invariant
            cell < 81,
            row == cell / 9,
            column == cell % 9,
            block_row == row / 3,
            block_column == column / 3,
            br <= 3,
            ns@.len() == 16 + 2 * (if br as int > row % 3 { br - 1 } else { br as int }),
            distinct_indices(ns@),
            forall|j: int| #[trigger] contains_idx(ns@, j)
                <==> ((row_of(j) == row && 0 <= j < 81 && j != cell)
                    || (col_of(j) == column && 0 <= row_of(j) < 9 && j != cell)
                    || (same_block(j, cell as int) && 0 <= j < 81
                        && row_of(j) != row && col_of(j) != column
                        && row_of(j) < block_row * 3 + br)),
        decreases 3 - br,
    {
        let rr = block_row * 3 + br;
        if rr != row {
            let mut bc: usize = 0;
            while bc < 3
                invariant
                    cell < 81,
                    row == cell / 9,
                    column == cell % 9,
                    block_row == row / 3,
                    block_column == column / 3,
                    br < 3,
                    rr == block_row * 3 + br,
                    rr != row,
                    rr < 9,
                    bc <= 3,
                    ns@.len() == 16 + 2 * (if br as int > row % 3 { br - 1 } else { br as int })
                        + (if bc as int > column % 3 { bc - 1 } else { bc as int }),
                    distinct_indices(ns@),
                    forall|j: int| contains_idx(ns@, j)
                        <==> ((row_of(j) == row && 0 <= j < 81 && j != cell)
                            || (col_of(j) == column && 0 <= row_of(j) < 9 && j != cell)
                            || (same_block(j, cell as int) && 0 <= j < 81
                                && row_of(j) != row && col_of(j) != column
                                && (row_of(j) < rr
                                    || (row_of(j) == rr
                                        && col_of(j) < block_column * 3 + bc)))),
                decreases 3 - bc,
            {
                let cc = block_column * 3 + bc;
                if cc != column {
                    let idx = rr * 9 + cc;
                    let ghost ns0 = ns@;
                    ns.push(idx);
                    proof {
                        lemma_index_decode(rr as int, cc as int);
                        lemma_index_decode(row as int, column as int);
                        assert(cell as int == row * 9 + column);
                        assert(row_of(idx as int) / 3 == block_row
                            && col_of(idx as int) / 3 == block_column) by (nonlinear_arith)
                            requires
                                row_of(idx as int) == block_row * 3 + br,
                                col_of(idx as int) == block_column * 3 + bc,
                                br < 3,
                                bc < 3,
                                0 <= block_row < 3,
                                0 <= block_column < 3,
                        ;
                        assert(row_of(cell as int) / 3 == block_row
                            && col_of(cell as int) / 3 == block_column) by (nonlinear_arith)
                            requires
                                row_of(cell as int) == row,
                                col_of(cell as int) == column,
                                block_row == row / 3,
                                block_column == column / 3,
                                row < 9,
                                column < 9,
                        ;
                        assert(same_block(idx as int, cell as int));
                        assert(!contains_idx(ns0, idx as int));
                        assert(ns@ == ns0.push(idx));
                        assert forall|j: int| #[trigger] contains_idx(ns@, j)
                            implies ((row_of(j) == row && 0 <= j < 81 && j != cell)
                                || (col_of(j) == column && 0 <= row_of(j) < 9 && j != cell)
                                || (same_block(j, cell as int) && 0 <= j < 81
                                    && row_of(j) != row && col_of(j) != column
                                    && (row_of(j) < rr
                                        || (row_of(j) == rr && col_of(j) < cc + 1)))) by {
                            if j != idx {
                                let k = choose|k: int| 0 <= k < ns@.len() && ns@[k] as int == j;
                                assert(0 <= k < ns0.len() && ns0[k] as int == j);
                                assert(contains_idx(ns0, j));
                            }
                        }
                        assert forall|j: int| ((row_of(j) == row && 0 <= j < 81 && j != cell)
                                || (col_of(j) == column && 0 <= row_of(j) < 9 && j != cell)
                                || (same_block(j, cell as int) && 0 <= j < 81
                                    && row_of(j) != row && col_of(j) != column
                                    && (row_of(j) < rr
                                        || (row_of(j) == rr && col_of(j) < cc + 1))))
                            implies contains_idx(ns@, j) by {
                            if contains_idx(ns0, j) {
                                let k = choose|k: int| 0 <= k < ns0.len() && ns0[k] as int == j;
                                assert(ns@[k] as int == j);
                            } else {
                                assert(same_block(j, cell as int) && row_of(j) == rr
                                    && col_of(j) == cc) by {
                                    assert(col_of(j) / 3 == block_column);
                                    assert(col_of(j) == block_column * 3 + col_of(j) % 3)
                                        by (nonlinear_arith)
                                        requires col_of(j) / 3 == block_column,
                                    ;
                                    assert(block_column * 3 <= col_of(j) < block_column * 3 + 3)
                                        by (nonlinear_arith)
                                        requires col_of(j) / 3 == block_column,
                                    ;
                                }
                                assert(j == 9 * row_of(j) + col_of(j));
                                assert(j == idx as int);
                                assert(ns@[ns0.len() as int] == idx);
                            }
                        }
                    }
                } else {
                    proof {
                        assert forall|j: int| (same_block(j, cell as int) && 0 <= j < 81
                                && row_of(j) != row && col_of(j) != column
                                && (row_of(j) < rr
                                    || (row_of(j) == rr && col_of(j) < cc + 1)))
                            implies contains_idx(ns@, j) by {
                            if row_of(j) == rr && !(col_of(j) < cc) {
                                assert(col_of(j) == cc);
                                assert(false);
                            }
                        }
                    }
                }
                bc = bc + 1;
            }
            proof {
                assert(column % 3 < 3);
                assert(block_column * 3 + 3 <= 9) by (nonlinear_arith)
                    requires block_column == column / 3, column < 9,
                ;
                assert forall|j: int| (same_block(j, cell as int) && 0 <= j < 81
                        && row_of(j) != row && col_of(j) != column
                        && row_of(j) < block_row * 3 + br + 1)
                    implies contains_idx(ns@, j) by {
                    if !(row_of(j) < rr) {
                        assert(row_of(j) / 3 == block_row);
                        assert(block_row * 3 <= row_of(j) < block_row * 3 + 3)
                            by (nonlinear_arith)
                            requires row_of(j) / 3 == block_row,
                        ;
                        assert(row_of(j) == rr);
                        assert(col_of(j) / 3 == block_column);
                        assert(block_column * 3 <= col_of(j) < block_column * 3 + 3)
                            by (nonlinear_arith)
                            requires col_of(j) / 3 == block_column,
                        ;
                    }
                }
            }
        } else {
            proof {
                assert(row % 3 == br) by (nonlinear_arith)
                    requires rr == (row / 3) * 3 + br, rr == row, br < 3, row < 9,
                ;
                assert forall|j: int| (same_block(j, cell as int) && 0 <= j < 81
                        && row_of(j) != row && col_of(j) != column
                        && row_of(j) < block_row * 3 + br + 1)
                    implies contains_idx(ns@, j) by {
                    if !(row_of(j) < block_row * 3 + br) {
                        assert(row_of(j) == rr);
                        assert(false);
                    }
                }
            }
        }
        br = br + 1;
    }

    proof {
        assert(ns@.len() == 20) by {
            assert(row % 3 < 3);
        }
        assert forall|j: int| contains_idx(ns@, j) implies is_neighbour(cell as int, j) by {
            assert(0 <= j < 81) by {
                if row_of(j) == row && j != cell as int {
                } else {
                }
            }
            assert(j != cell as int) by {
                if j == cell as int {
                    assert(row_of(j) == row && col_of(j) == column);
                }
            }
            if !(row_of(j) == row_of(cell as int)) && !(col_of(j) == col_of(cell as int)) {
                assert(same_block(j, cell as int));
            }
        }
        assert forall|j: int| is_neighbour(cell as int, j) implies contains_idx(ns@, j) by {
            lemma_index_decode(row as int, column as int);
            assert(cell as int == row * 9 + column);
            assert(0 <= row_of(j) < 9 && 0 <= col_of(j) < 9) by {
                assert(j == 9 * (j / 9) + j % 9);
            }
            if row_of(j) == row_of(cell as int) {
            } else if col_of(j) == col_of(cell as int) {
            } else {
                assert(same_block(j, cell as int));
                assert(block_row * 3 <= row_of(j) < block_row * 3 + 3) by (nonlinear_arith)
                    requires row_of(j) / 3 == block_row,
                ;
            }
        }
    }

    ns
}

/// Whether assignment `s` is still open in grid `g`: the value `s` picks for
/// each cell is among the cell's remaining candidates.
pub open spec fn compatible(s: Seq<usize>, g: Grid) -> bool {
    forall|i: int| 0 <= i < 81 ==> g.poss(i).contains(#[trigger] s[i])
}

/// A full, rule-abiding assignment of the 81 cells: every value in `1..=9`,
/// and no two neighbouring cells equal.
pub open spec fn valid_assignment(s: Seq<usize>) -> bool {
    &&& s.len() == 81
    &&& forall|i: int| 0 <= i < 81 ==> 1 <= #[trigger] s[i] <= 9
    &&& forall|i: int, j: int| #[trigger] is_neighbour(i, j) ==> s[i] != s[j]
}

/// The values a fully narrowed grid assigns: the sole remaining candidate of
/// each cell.
pub open spec fn assignment_of(g: Grid) -> Seq<usize> {
    Seq::new(81, |i: int| g.poss(i)[0])
}

/// Every cell committed, with exactly one candidate left.
pub open spec fn is_filled(g: Grid) -> bool {
    &&& g.cells@.len() == 81
    &&& forall|i: int| 0 <= i < 81 ==> #[trigger] g.evaluated(i) && g.poss(i).len() == 1
}

/// `g` is a solution of the puzzle seeded by `seed`: fully committed, obeying
/// the Sudoku rules, and agreeing with every candidate restriction of the seed.
pub open spec fn is_solution_for(g: Grid, seed: Grid) -> bool {
    &&& is_filled(g)
    &&& valid_assignment(assignment_of(g))
    &&& compatible(assignment_of(g), seed)
}

/// Whether the assignment `s` appears among the emitted solutions.
pub open spec fn emitted(s: Seq<usize>, sols: Seq<Grid>) -> bool {
    exists|k: int| 0 <= k < sols.len() && assignment_of(#[trigger] sols[k]) == s
}

/// The full contract of the search: everything emitted is a solution of the
/// seed, and every valid assignment the seed leaves open is emitted.
pub open spec fn solver_output(seed: Grid, sols: Seq<Grid>) -> bool {
    &&& forall|k: int| 0 <= k < sols.len() ==> is_solution_for(#[trigger] sols[k], seed)
    &&& forall|s: Seq<usize>|
        valid_assignment(s) && #[trigger] compatible(s, seed) ==> emitted(s, sols)
}

/// Internal invariant of every grid on the work stack: a committed cell holds
/// exactly its committed value, and that value is ruled out for all its
/// neighbours.
spec fn prop_inv(g: Grid) -> bool {
    forall|i: int| 0 <= i < 81 && #[trigger] g.evaluated(i)
        ==> g.poss(i).len() == 1
            && (forall|j: int| #[trigger] is_neighbour(i, j) ==> !g.poss(j).contains(g.poss(i)[0]))
}

/// Candidates only ever shrink: whatever is possible in `g` was possible in
/// the seed.
spec fn narrows(g: Grid, seed: Grid) -> bool {
    forall|i: int, x: usize| 0 <= i < 81 && #[trigger] g.poss(i).contains(x)
        ==> seed.poss(i).contains(x)
}

/// Everything the search maintains of a grid on the work stack.
spec fn search_inv(g: Grid, seed: Grid) -> bool {
    &&& g.wf()
    &&& prop_inv(g)
    &&& narrows(g, seed)
}

/// Whether some grid on the stack still leaves assignment `s` open.
spec fn pending(s: Seq<usize>, q: Seq<Grid>) -> bool {
    exists|k: int| 0 <= k < q.len() && compatible(s, #[trigger] q[k])
}

/// The number of cells not yet committed.
spec fn count_unevaluated(cells: Seq<Cell>) -> nat
    decreases cells.len(),
{
    if cells.len() == 0 {
        0
    } else {
        count_unevaluated(cells.drop_last()) + if cells.last().evaluated { 0nat } else { 1nat }
    }
}

spec fn pow10(n: nat) -> nat
    decreases n,
{
    if n == 0 {
        1
    } else {
        10 * pow10((n - 1) as nat)
    }
}

/// Termination measure of one grid: branching at a grid spawns at most nine
/// children, each weighing a tenth of it.
spec fn grid_weight(g: Grid) -> nat {
    pow10(count_unevaluated(g.cells@))
}

/// Termination measure of the whole work stack.
spec fn queue_weight(q: Seq<Grid>) -> nat
    decreases q.len(),
{
    if q.len() == 0 {
        0
    } else {
        queue_weight(q.drop_last()) + grid_weight(q.last())
    }
}

proof fn lemma_pow10_pos(n: nat)
    ensures
        pow10(n) >= 1,
    decreases n,
{
    if n > 0 {
        lemma_pow10_pos((n - 1) as nat);
    }
}

/// Grids whose committed flags agree cell for cell have the same count.
proof fn lemma_count_same(c1: Seq<Cell>, c2: Seq<Cell>)
    requires
        c1.len() == c2.len(),
        forall|i: int| 0 <= i < c1.len() ==> (#[trigger] c1[i]).evaluated == c2[i].evaluated,
    ensures
        count_unevaluated(c1) == count_unevaluated(c2),
    decreases c1.len(),
{
    if c1.len() > 0 {
        assert(c1.last().evaluated == c2.last().evaluated);
        lemma_count_same(c1.drop_last(), c2.drop_last());
    }
}

/// Committing exactly one previously uncommitted cell lowers the count by one.
proof fn lemma_count_flip(c1: Seq<Cell>, c2: Seq<Cell>, p: int)
    requires
        c1.len() == c2.len(),
        0 <= p < c1.len(),
        forall|i: int| 0 <= i < c1.len() && i != p
            ==> (#[trigger] c1[i]).evaluated == c2[i].evaluated,
        !c1[p].evaluated,
        c2[p].evaluated,
    ensures
        count_unevaluated(c1) == count_unevaluated(c2) + 1,
    decreases c1.len(),
{
    if p == c1.len() - 1 {
        lemma_count_same(c1.drop_last(), c2.drop_last());
    } else {
        assert(c1.last().evaluated == c2.last().evaluated);
        lemma_count_flip(c1.drop_last(), c2.drop_last(), p);
    }
}

/// A grid with an uncommitted cell has a positive count.
proof fn lemma_count_pos(cells: Seq<Cell>, i: int)
    requires
        0 <= i < cells.len(),
        !cells[i].evaluated,
    ensures
        count_unevaluated(cells) >= 1,
    decreases cells.len(),
{
    if i < cells.len() - 1 {
        lemma_count_pos(cells.drop_last(), i);
    }
}

proof fn lemma_queue_weight_push(q: Seq<Grid>, g: Grid)
    ensures
        queue_weight(q.push(g)) == queue_weight(q) + grid_weight(g),
{
    assert(q.push(g).drop_last() =~= q);
    assert(q.push(g).last() == g);
}

/// A well-formed candidate list holds at most nine values.
proof fn lemma_poss_len_bound(s: Seq<usize>)
    requires
        poss_wf(s),
    ensures
        s.len() <= 9,
{
    if s.len() > 9 {
        assert forall|k: int| 0 <= k < s.len() implies s[k] >= 1 + k by {
            lemma_poss_lower(s, k);
        }
        assert(s[9] >= 10);
    }
}

proof fn lemma_poss_lower(s: Seq<usize>, k: int)
    requires
        poss_wf(s),
        0 <= k < s.len(),
    ensures
        s[k] >= 1 + k,
    decreases k,
{
    if k > 0 {
        lemma_poss_lower(s, k - 1);
        assert(s[k - 1] < s[k]);
    }
}

/// The branch cell: among the cells not yet committed, the one with the
/// fewest remaining candidates, the lowest index winning ties; `None` when
/// every cell is committed.
pub fn find_branch_cell(grid: &Grid) -> (r: Option<usize>)
    requires
        grid.cells@.len() == 81,
    ensures
        match r {
            None => forall|i: int| 0 <= i < 81 ==> #[trigger] grid.evaluated(i),
            Some(bc) => {
                &&& bc < 81
                &&& !grid.evaluated(bc as int)
                &&& forall|i: int| 0 <= i < 81 && !(#[trigger] grid.evaluated(i))
                    ==> grid.poss(bc as int).len() <= grid.poss(i).len()
                &&& forall|i: int| 0 <= i < bc && !(#[trigger] grid.evaluated(i))
                    ==> grid.poss(bc as int).len() < grid.poss(i).len()
            },
        },
{
    let mut best: Option<usize> = None;
    let mut i: usize = 0;
    while i < 81
        invariant
            grid.cells@.len() == 81,
            i <= 81,
            match best {
                None => forall|j: int| 0 <= j < i ==> #[trigger] grid.evaluated(j),
                Some(b) => {
                    &&& b < i <= 81
                    &&& !grid.evaluated(b as int)
                    &&& forall|j: int| 0 <= j < i && !(#[trigger] grid.evaluated(j))
                        ==> grid.poss(b as int).len() <= grid.poss(j).len()
                    &&& forall|j: int| 0 <= j < b && !(#[trigger] grid.evaluated(j))
                        ==> grid.poss(b as int).len() < grid.poss(j).len()
                },
            },
        decreases 81 - i,
    {
        if !grid.cells[i].evaluated {
            match best {
                None => {
                    best = Some(i);
                }
                Some(b) => {
                    if grid.cells[i].possibilities.len() < grid.cells[b].possibilities.len() {
                        best = Some(i);
                    }
                }
            }
        }
        i = i + 1;
    }
    best
}

/// Delete `value` from every cell listed in `neigh`.  Returns `false` as soon
/// as some such cell is left without candidates; the grid is then abandoned
/// by the caller, so only its committed flags are specified.
fn eliminate_from_neighbours(child: &mut Grid, neigh: &Vec<usize>, value: usize) -> (ok: bool)
    requires
        old(child).cells@.len() == 81,
        forall|k: int| 0 <= k < neigh@.len() ==> #[trigger] neigh@[k] < 81,
        distinct_indices(neigh@),
    ensures
        final(child).cells@.len() == 81,
        forall|i: int| 0 <= i < 81
            ==> #[trigger] final(child).evaluated(i) == old(child).evaluated(i),
        ok ==> forall|i: int| 0 <= i < 81 && #[trigger] contains_idx(neigh@, i)
            ==> final(child).poss(i) == remove_val(old(child).poss(i), value)
                && final(child).poss(i).len() > 0,
        ok ==> forall|i: int| 0 <= i < 81 && !(#[trigger] contains_idx(neigh@, i))
            ==> final(child).poss(i) == old(child).poss(i),
        !ok ==> exists|i: int| 0 <= i < 81 && #[trigger] contains_idx(neigh@, i)
            && remove_val(old(child).poss(i), value).len() == 0,
{
    let mut t: usize = 0;
    while t < neigh.len()
        invariant
            t <= neigh@.len(),
            child.cells@.len() == 81,
            forall|k: int| 0 <= k < neigh@.len() ==> #[trigger] neigh@[k] < 81,
            distinct_indices(neigh@),
            forall|i: int| 0 <= i < 81
                ==> #[trigger] child.evaluated(i) == old(child).evaluated(i),
            forall|k: int| 0 <= k < t
                ==> #[trigger] child.poss(neigh@[k] as int)
                        == remove_val(old(child).poss(neigh@[k] as int), value)
                    && child.poss(neigh@[k] as int).len() > 0,
            forall|i: int| 0 <= i < 81 && !(#[trigger] contains_idx(neigh@.take(t as int), i))
                ==> child.poss(i) == old(child).poss(i),
        decreases neigh@.len() - t,
    {
        let cell = neigh[t];
        proof {
            assert(!contains_idx(neigh@.take(t as int), cell as int)) by {
                if contains_idx(neigh@.take(t as int), cell as int) {
                    let k = choose|k: int| 0 <= k < t && neigh@.take(t as int)[k] as int
                        == cell as int;
                    assert(neigh@[k] == neigh@[t as int]);
                }
            }
            assert(child.poss(cell as int) == old(child).poss(cell as int));
        }
        let ghost before = *child;
        child.remove_possibility(cell, value);
        if child.num_possibilities(cell) == 0 {
            proof {
                assert(contains_idx(neigh@, cell as int)) by {
                    assert(neigh@[t as int] as int == cell as int);
                }
                assert(remove_val(old(child).poss(cell as int), value).len() == 0);
            }
            return false;
        }
        proof {
            assert forall|k: int| 0 <= k < t + 1
                implies #[trigger] child.poss(neigh@[k] as int)
                        == remove_val(old(child).poss(neigh@[k] as int), value)
                    && child.poss(neigh@[k] as int).len() > 0 by {
                if k < t {
                    assert(neigh@[k] != neigh@[t as int]);
                    assert(child.poss(neigh@[k] as int) == before.poss(neigh@[k] as int));
                } else {
                    assert(neigh@[k] == neigh@[t as int]);
                }
            }
            assert forall|i: int| 0 <= i < 81
                    && !(#[trigger] contains_idx(neigh@.take(t + 1), i))
                implies child.poss(i) == old(child).poss(i) by {
                assert(neigh@.take(t + 1)[t as int] as int == cell as int);
                assert(i != cell as int);
                assert(!contains_idx(neigh@.take(t as int), i)) by {
                    if contains_idx(neigh@.take(t as int), i) {
                        let k = choose|k: int| 0 <= k < t && neigh@.take(t as int)[k] as int == i;
                        assert(neigh@.take(t + 1)[k] as int == i);
                    }
                }
            }
        }
        t = t + 1;
    }
    proof {
        assert forall|i: int| 0 <= i < 81 && #[trigger] contains_idx(neigh@, i)
            implies child.poss(i) == remove_val(old(child).poss(i), value)
                && child.poss(i).len() > 0 by {
            let k = choose|k: int| 0 <= k < neigh@.len() && neigh@[k] as int == i;
            assert(child.poss(neigh@[k] as int) == remove_val(old(child).poss(neigh@[k] as int),
                value));
            assert(child.poss(neigh@[k] as int).len() > 0);
        }
        assert(neigh@.take(neigh@.len() as int) =~= neigh@);
    }
    true
}

/// A child grid built by deleting the branch value from the branch cell's
/// neighbours and then committing the branch cell satisfies everything the
/// search maintains of grids on the work stack.
proof fn lemma_child_inv(grid: Grid, child: Grid, seed: Grid, bc: int, v: usize, neigh: Seq<usize>)
    requires
        search_inv(grid, seed),
        0 <= bc < 81,
        !grid.evaluated(bc),
        grid.poss(bc).contains(v),
        forall|j: int| contains_idx(neigh, j) <==> is_neighbour(bc, j),
        child.cells@.len() == 81,
        child.evaluated(bc),
        child.poss(bc) == seq![v],
        forall|i: int| 0 <= i < 81 && i != bc
            ==> #[trigger] child.evaluated(i) == grid.evaluated(i),
        forall|i: int| 0 <= i < 81 && #[trigger] contains_idx(neigh, i)
            ==> child.poss(i) == remove_val(grid.poss(i), v),
        forall|i: int| 0 <= i < 81 && i != bc && !(#[trigger] contains_idx(neigh, i))
            ==> child.poss(i) == grid.poss(i),
    ensures
        search_inv(child, seed),
{
    assert(!contains_idx(neigh, bc));
    // the committed value itself lies in 1..=9
    let k0 = choose|k0: int| 0 <= k0 < grid.poss(bc).len() && grid.poss(bc)[k0] == v;
    assert(1 <= v <= 9);

    assert forall|i: int| 0 <= i < 81 implies poss_wf(#[trigger] child.poss(i)) by {
        if i == bc {
            assert(child.poss(i)[0] == v);
        } else if contains_idx(neigh, i) {
            lemma_remove_val_wf(grid.poss(i), v);
        }
    }

    assert forall|i: int, x: usize| 0 <= i < 81 && #[trigger] child.poss(i).contains(x)
        implies seed.poss(i).contains(x) by {
        if i == bc {
            assert(x == v);
            assert(grid.poss(bc).contains(x));
        } else if contains_idx(neigh, i) {
            lemma_remove_val_membership(grid.poss(i), v);
            assert(grid.poss(i).contains(x));
        } else {
            assert(grid.poss(i).contains(x));
        }
    }

    assert forall|i: int| 0 <= i < 81 && #[trigger] child.evaluated(i)
        implies child.poss(i).len() == 1
            && (forall|j: int| #[trigger] is_neighbour(i, j)
                ==> !child.poss(j).contains(child.poss(i)[0])) by {
        if i == bc {
            assert(child.poss(i).len() == 1);
            assert forall|j: int| #[trigger] is_neighbour(i, j)
                implies !child.poss(j).contains(v) by {
                assert(contains_idx(neigh, j));
                lemma_remove_val_membership(grid.poss(j), v);
            }
        } else {
            assert(grid.evaluated(i));
            let w = grid.poss(i)[0];
            assert(grid.poss(i).len() == 1);
            if contains_idx(neigh, i) {
                // i neighbours the branch cell, so its committed value was
                // already ruled out there and the deletion misses it
                assert(w != v) by {
                    assert(is_neighbour(bc, i));
                    lemma_neighbour_symmetric(bc, i);
                    assert(is_neighbour(i, bc));
                    assert(!grid.poss(bc).contains(w));
                }
                assert(child.poss(i) == remove_val(grid.poss(i), v));
                lemma_remove_val_membership(grid.poss(i), v);
                assert(grid.poss(i).contains(w)) by {
                    assert(grid.poss(i)[0] == w);
                }
                assert(child.poss(i).contains(w));
                assert(child.poss(i).len() <= 1) by {
                    lemma_remove_val_len(grid.poss(i), v);
                }
                let kw = choose|kw: int| 0 <= kw < child.poss(i).len() && child.poss(i)[kw] == w;
                assert(child.poss(i)[0] == w);
            } else {
                assert(child.poss(i) == grid.poss(i));
            }
            assert(child.poss(i).len() == 1 && child.poss(i)[0] == w);
            assert forall|j: int| #[trigger] is_neighbour(i, j)
                implies !child.poss(j).contains(w) by {
                assert(!grid.poss(j).contains(w));
                if j == bc {
                    assert(w != v) by {
                        lemma_neighbour_symmetric(i, bc);
                        assert(!grid.poss(bc).contains(w));
                    }
                    assert(child.poss(j) == seq![v]);
                    if child.poss(j).contains(w) {
                        let kj = choose|kj: int| 0 <= kj < 1 && seq![v][kj] == w;
                        assert(w == v);
                    }
                } else if contains_idx(neigh, j) {
                    assert(0 <= j < 81);
                    lemma_remove_val_membership(grid.poss(j), v);
                } else {
                    assert(child.poss(j) == grid.poss(j));
                }
            }
        }
    }
}

/// An assignment that picks the branch value at the branch cell and was open
/// in the parent is still open in the child.
proof fn lemma_child_keeps_assignment(
    grid: Grid,
    child: Grid,
    bc: int,
    v: usize,
    neigh: Seq<usize>,
    s: Seq<usize>,
)
    requires
        0 <= bc < 81,
        forall|j: int| contains_idx(neigh, j) <==> is_neighbour(bc, j),
        child.cells@.len() == 81,
        child.poss(bc) == seq![v],
        forall|i: int| 0 <= i < 81 && #[trigger] contains_idx(neigh, i)
            ==> child.poss(i) == remove_val(grid.poss(i), v),
        forall|i: int| 0 <= i < 81 && i != bc && !(#[trigger] contains_idx(neigh, i))
            ==> child.poss(i) == grid.poss(i),
        valid_assignment(s),
        compatible(s, grid),
        s[bc] == v,
    ensures
        compatible(s, child),
{
    assert forall|i: int| 0 <= i < 81 implies child.poss(i).contains(#[trigger] s[i]) by {
        assert(grid.poss(i).contains(s[i]));
        if i == bc {
            assert(child.poss(i)[0] == v);
        } else if contains_idx(neigh, i) {
            assert(is_neighbour(bc, i));
            assert(s[bc] != s[i]);
            lemma_remove_val_membership(grid.poss(i), v);
        }
    }
}

/// When deleting the branch value empties some neighbour, no valid assignment
/// open in the parent picks that value at the branch cell.
proof fn lemma_conflict_closes_value(
    grid: Grid,
    bc: int,
    v: usize,
    i: int,
    s: Seq<usize>,
)
    requires
        0 <= bc < 81,
        0 <= i < 81,
        is_neighbour(bc, i),
        remove_val(grid.poss(i), v).len() == 0,
        valid_assignment(s),
    ensures
        !(compatible(s, grid) && s[bc] == v),
{
    if compatible(s, grid) && s[bc] == v {
        assert(grid.poss(i).contains(s[i]));
        assert(s[i] != s[bc]);
        lemma_remove_val_membership(grid.poss(i), v);
        assert(remove_val(grid.poss(i), v).contains(s[i]));
        let k = choose|k: int| 0 <= k < remove_val(grid.poss(i), v).len()
            && remove_val(grid.poss(i), v)[k] == s[i];
        assert(remove_val(grid.poss(i), v).len() > 0);
    }
}

/// A grid with every cell committed is a solution of the seed, and pins down
/// every assignment still open in it.
proof fn lemma_filled_solution(grid: Grid, seed: Grid)
    requires
        search_inv(grid, seed),
        forall|i: int| 0 <= i < 81 ==> #[trigger] grid.evaluated(i),
    ensures
        is_solution_for(grid, seed),
        forall|s: Seq<usize>| s.len() == 81 && #[trigger] compatible(s, grid)
            ==> s == assignment_of(grid),
{
    let a = assignment_of(grid);
    assert forall|i: int| 0 <= i < 81 implies grid.poss(i).contains(#[trigger] a[i]) by {
        assert(grid.evaluated(i));
        assert(grid.poss(i).len() == 1);
        assert(a[i] == grid.poss(i)[0]);
    }
    assert forall|i: int| 0 <= i < 81 implies 1 <= #[trigger] a[i] <= 9 by {
        assert(poss_wf(grid.poss(i)));
        assert(grid.poss(i).contains(a[i]));
        assert(a[i] == grid.poss(i)[0]);
    }
    assert forall|i: int, j: int| #[trigger] is_neighbour(i, j) implies a[i] != a[j] by {
        assert(grid.evaluated(i));
        assert(grid.evaluated(j));
        assert(!grid.poss(j).contains(grid.poss(i)[0]));
        assert(grid.poss(j).contains(a[j]));
        assert(a[i] == grid.poss(i)[0]);
    }
    assert(valid_assignment(a));
    assert forall|i: int| 0 <= i < 81 implies seed.poss(i).contains(#[trigger] a[i]) by {
        assert(grid.poss(i).contains(a[i]));
    }
    assert forall|s: Seq<usize>| s.len() == 81 && #[trigger] compatible(s, grid)
        implies s == assignment_of(grid) by {
        assert forall|i: int| 0 <= i < 81 implies s[i] == a[i] by {
            assert(grid.evaluated(i));
            assert(grid.poss(i).len() == 1);
            assert(grid.poss(i).contains(s[i]));
            let k = choose|k: int| 0 <= k < grid.poss(i).len() && grid.poss(i)[k] == s[i];
            assert(k == 0);
        }
        assert(s =~= a);
    }
}

/// Solve the puzzle seeded by `initial` (as built by [`Grid::new`]) by
/// exhaustive branch-and-propagate search: a work stack of grid snapshots is
/// explored depth first, the branch cell of each popped grid is committed to
/// each of its candidates in turn, children whose propagation empties a
/// neighbour are discarded, and fully committed grids are collected.
///
/// The contract pins the result down exactly: the collected grids are
/// solutions of the seed, and every valid assignment the seed leaves open
/// appears among them.
pub fn solve(initial: Grid) -> (solutions: Vec<Grid>)
    requires
        initial.wf(),
        forall|i: int| 0 <= i < 81 ==> !(#[trigger] initial.evaluated(i)),
    ensures
        solver_output(initial, solutions@),
{
    let ghost seed = initial;
    let mut queue: Vec<Grid> = Vec::new();
    let mut solutions: Vec<Grid> = Vec::new();
    queue.push(initial);
    proof {
        assert(search_inv(queue@[0], seed));
        assert forall|s: Seq<usize>| valid_assignment(s) && #[trigger] compatible(s, seed)
            implies pending(s, queue@) by {
            assert(compatible(s, queue@[0]));
        }
    }
    while queue.len() > 0
        invariant
            forall|k: int| 0 <= k < queue@.len() ==> search_inv(#[trigger] queue@[k], seed),
            forall|k: int| 0 <= k < solutions@.len()
                ==> is_solution_for(#[trigger] solutions@[k], seed),
            forall|s: Seq<usize>| valid_assignment(s) && #[trigger] compatible(s, seed)
                ==> emitted(s, solutions@) || pending(s, queue@),
        decreases queue_weight(queue@),
    {
        let ghost q0 = queue@;
        let ghost sols0 = solutions@;
        let grid = queue.pop().unwrap();
        proof {
            assert(q0.drop_last() =~= queue@);
            assert(q0[q0.len() - 1] == grid);
            assert(search_inv(grid, seed));
            assert(queue_weight(q0) == queue_weight(queue@) + grid_weight(grid));
            lemma_pow10_pos(count_unevaluated(grid.cells@));
        }
        match find_branch_cell(&grid) {
            None => {
                proof {
                    lemma_filled_solution(grid, seed);
                }
                solutions.push(grid);
                proof {
                    assert(solutions@ == sols0.push(grid));
                    assert forall|k: int| 0 <= k < solutions@.len()
                        implies is_solution_for(#[trigger] solutions@[k], seed) by {
                        if k < sols0.len() {
                            assert(solutions@[k] == sols0[k]);
                        } else {
                            assert(solutions@[k] == grid);
                        }
                    }
                    assert forall|s: Seq<usize>| valid_assignment(s)
                            && #[trigger] compatible(s, seed)
                        implies emitted(s, solutions@) || pending(s, queue@) by {
                        if emitted(s, sols0) {
                            let k = choose|k: int| 0 <= k < sols0.len()
                                && assignment_of(sols0[k]) == s;
                            assert(assignment_of(solutions@[k]) == s);
                            assert(emitted(s, solutions@));
                        } else if pending(s, q0) {
                            let k = choose|k: int| 0 <= k < q0.len() && compatible(s, q0[k]);
                            if k < queue@.len() {
                                assert(queue@[k] == q0[k]);
                                assert(compatible(s, queue@[k]));
                                assert(pending(s, queue@));
                            } else {
                                assert(q0[k] == grid);
                                assert(compatible(s, grid));
                                assert(s == assignment_of(grid));
                                assert(assignment_of(solutions@[sols0.len() as int]) == s);
                                assert(emitted(s, solutions@));
                            }
                        }
                    }
                }
            }
            Some(bc) => {
                let neigh = get_neighbours(bc);
                proof {
                    assert forall|k: int| 0 <= k < neigh@.len()
                        implies #[trigger] neigh@[k] < 81 by {
                        assert(contains_idx(neigh@, neigh@[k] as int));
                        assert(is_neighbour(bc as int, neigh@[k] as int));
                    }
                    assert(!contains_idx(neigh@, bc as int)) by {
                        assert(!is_neighbour(bc as int, bc as int));
                    }
                }
                let values = grid.cells[bc].clone().possibilities;
                let ghost u = count_unevaluated(grid.cells@);
                let ghost w_child = pow10((u - 1) as nat);
                let ghost w_rest = queue_weight(queue@);
                proof {
                    lemma_count_pos(grid.cells@, bc as int);
                    assert(u >= 1);
                    assert(pow10(u) == 10 * w_child);
                    lemma_pow10_pos((u - 1) as nat);
                    assert(values@ == grid.poss(bc as int));
                    lemma_poss_len_bound(values@);
                    // entering the value loop, every open assignment either
                    // survives elsewhere or picks one of the untried values
                    assert forall|s: Seq<usize>| valid_assignment(s)
                            && #[trigger] compatible(s, seed)
                        implies emitted(s, solutions@) || pending(s, queue@)
                            || (compatible(s, grid)
                                && exists|k: int| 0 <= k < values@.len()
                                    && values@[k] == s[bc as int]) by {
                        if !emitted(s, sols0) && pending(s, q0) {
                            let k = choose|k: int| 0 <= k < q0.len() && compatible(s, q0[k]);
                            if k < queue@.len() {
                                assert(queue@[k] == q0[k]);
                                assert(compatible(s, queue@[k]));
                                assert(pending(s, queue@));
                            } else {
                                assert(q0[k] == grid);
                                assert(compatible(s, grid));
                                assert(grid.poss(bc as int).contains(s[bc as int]));
                                let k0 = choose|k0: int| 0 <= k0 < values@.len()
                                    && values@[k0] == s[bc as int];
                            }
                        }
                    }
                }
                let mut idx: usize = 0;
                while idx < values.len()
                    invariant
                        search_inv(grid, seed),
                        grid.cells@.len() == 81,
                        bc < 81,
                        !grid.evaluated(bc as int),
                        values@ == grid.poss(bc as int),
                        values@.len() <= 9,
                        idx <= values@.len(),
                        forall|k: int| 0 <= k < neigh@.len() ==> #[trigger] neigh@[k] < 81,
                        distinct_indices(neigh@),
                        forall|j: int| contains_idx(neigh@, j) <==> is_neighbour(bc as int, j),
                        !contains_idx(neigh@, bc as int),
                        u == count_unevaluated(grid.cells@),
                        u >= 1,
                        w_child == pow10((u - 1) as nat),
                        w_child >= 1,
                        forall|k: int| 0 <= k < queue@.len()
                            ==> search_inv(#[trigger] queue@[k], seed),
                        forall|k: int| 0 <= k < solutions@.len()
                            ==> is_solution_for(#[trigger] solutions@[k], seed),
                        queue_weight(queue@) <= w_rest + idx * w_child,
                        forall|s: Seq<usize>| valid_assignment(s) && #[trigger] compatible(s, seed)
                            ==> emitted(s, solutions@) || pending(s, queue@)
                                || (compatible(s, grid)
                                    && exists|k: int| idx <= k < values@.len()
                                        && values@[k] == s[bc as int]),
                    decreases values@.len() - idx,
                {
                    let v = values[idx];
                    let mut child = grid.clone();
                    let ghost parent = child;
                    proof {
                        assert forall|i: int| 0 <= i < 81
                            implies #[trigger] parent.poss(i) == grid.poss(i)
                                && parent.evaluated(i) == grid.evaluated(i) by {}
                    }
                    let ok = eliminate_from_neighbours(&mut child, &neigh, v);
                    let ghost q1 = queue@;
                    if ok {
                        let ghost mid = child;
                        proof {
                            assert(mid.poss(bc as int) == parent.poss(bc as int));
                            assert(values@.contains(v)) by {
                                assert(values@[idx as int] == v);
                            }
                            assert(mid.poss(bc as int).contains(v));
                        }
                        child.set_value(bc, v);
                        proof {
                            assert(child.poss(bc as int) == seq![v]);
                            assert(child.evaluated(bc as int));
                            assert forall|i: int| 0 <= i < 81 && i != bc as int
                                implies #[trigger] child.evaluated(i) == grid.evaluated(i) by {
                                assert(child.evaluated(i) == mid.evaluated(i));
                                assert(mid.evaluated(i) == parent.evaluated(i));
                            }
                            assert forall|i: int| 0 <= i < 81 && #[trigger] contains_idx(neigh@, i)
                                implies child.poss(i) == remove_val(grid.poss(i), v)
                                    && child.poss(i).len() > 0 by {
                                assert(i != bc as int);
                                assert(child.poss(i) == mid.poss(i));
                                assert(mid.poss(i) == remove_val(parent.poss(i), v));
                                assert(parent.poss(i) == grid.poss(i));
                                assert(mid.poss(i).len() > 0);
                            }
                            assert forall|i: int| 0 <= i < 81 && i != bc as int
                                    && !(#[trigger] contains_idx(neigh@, i))
                                implies child.poss(i) == grid.poss(i) by {
                                assert(child.poss(i) == mid.poss(i));
                                assert(mid.poss(i) == parent.poss(i));
                            }
                            lemma_child_inv(grid, child, seed, bc as int, v, neigh@);
                            assert forall|i: int| 0 <= i < 81 && i != bc as int
                                implies (#[trigger] child.cells@[i]).evaluated
                                    == grid.cells@[i].evaluated by {
                                assert(child.evaluated(i) == grid.evaluated(i));
                            }
                            lemma_count_flip(grid.cells@, child.cells@, bc as int);
                            assert(count_unevaluated(child.cells@) == u - 1);
                            assert(grid_weight(child) == w_child);
                            lemma_queue_weight_push(queue@, child);
                        }
                        let ghost child_snapshot = child;
                        queue.push(child);
                        proof {
                            assert(queue@ == q1.push(child_snapshot));
                            assert(queue_weight(queue@)
                                <= w_rest + idx * w_child + w_child);
                            assert forall|k: int| 0 <= k < queue@.len()
                                implies search_inv(#[trigger] queue@[k], seed) by {
                                if k < q1.len() {
                                    assert(queue@[k] == q1[k]);
                                } else {
                                    assert(queue@[k] == child_snapshot);
                                }
                            }
                            assert forall|s: Seq<usize>| valid_assignment(s)
                                    && #[trigger] compatible(s, seed)
                                implies emitted(s, solutions@) || pending(s, queue@)
                                    || (compatible(s, grid)
                                        && exists|k: int| idx + 1 <= k < values@.len()
                                            && values@[k] == s[bc as int]) by {
                                if !emitted(s, solutions@) {
                                    if pending(s, q1) {
                                        let k = choose|k: int| 0 <= k < q1.len()
                                            && compatible(s, q1[k]);
                                        assert(queue@[k] == q1[k]);
                                        assert(compatible(s, queue@[k]));
                                        assert(pending(s, queue@));
                                    } else if compatible(s, grid)
                                        && exists|k: int| idx <= k < values@.len()
                                            && values@[k] == s[bc as int] {
                                        let k = choose|k: int| idx <= k < values@.len()
                                            && values@[k] == s[bc as int];
                                        if k == idx {
                                            assert(s[bc as int] == v);
                                            lemma_child_keeps_assignment(
                                                grid, child_snapshot, bc as int, v, neigh@, s);
                                            assert(compatible(s,
                                                queue@[queue@.len() - 1]));
                                            assert(pending(s, queue@));
                                        }
                                    }
                                }
                            }
                        }
                    } else {
                        proof {
                            let i0 = choose|i0: int| 0 <= i0 < 81
                                && #[trigger] contains_idx(neigh@, i0)
                                && remove_val(parent.poss(i0), v).len() == 0;
                            assert(is_neighbour(bc as int, i0));
                            assert(parent.poss(i0) == grid.poss(i0));
                            assert(remove_val(grid.poss(i0), v).len() == 0);
                            assert forall|s: Seq<usize>| valid_assignment(s)
                                    && #[trigger] compatible(s, seed)
                                implies emitted(s, solutions@) || pending(s, queue@)
                                    || (compatible(s, grid)
                                        && exists|k: int| idx + 1 <= k < values@.len()
                                            && values@[k] == s[bc as int]) by {
                                if !emitted(s, solutions@) && !pending(s, queue@)
                                    && compatible(s, grid)
                                    && exists|k: int| idx <= k < values@.len()
                                        && values@[k] == s[bc as int] {
                                    let k = choose|k: int| idx <= k < values@.len()
                                        && values@[k] == s[bc as int];
                                    if k == idx {
                                        lemma_conflict_closes_value(
                                            grid, bc as int, v, i0, s);
                                    }
                                }
                            }
                        }
                    }
                    proof {
                        assert((idx + 1) * w_child == idx * w_child + w_child)
                            by (nonlinear_arith);
                    }
                    idx = idx + 1;
                }
                proof {
                    assert(queue_weight(queue@) <= w_rest + values@.len() * w_child);
                    assert(values@.len() * w_child <= 9 * w_child) by (nonlinear_arith)
                        requires values@.len() <= 9, w_child >= 1,
                    ;
                    assert(queue_weight(q0) == w_rest + 10 * w_child);
                    assert(queue_weight(queue@) < queue_weight(q0));
                    assert forall|s: Seq<usize>| valid_assignment(s)
                            && #[trigger] compatible(s, seed)
                        implies emitted(s, solutions@) || pending(s, queue@) by {}
                }
            }
        }
    }
    proof {
        assert forall|s: Seq<usize>| valid_assignment(s) && #[trigger] compatible(s, seed)
            implies emitted(s, solutions@) by {
            assert(!pending(s, queue@)) by {
                if pending(s, queue@) {
                    let k = choose|k: int| 0 <= k < queue@.len()
                        && compatible(s, #[trigger] queue@[k]);
                }
            }
        }
    }
    solutions
}

/// Whether value `v` appears somewhere in row `r` of assignment `s`.
pub open spec fn value_in_row(s: Seq<usize>, r: int, v: usize) -> bool {
    exists|c: int| 0 <= c < 9 && #[trigger] s[r * 9 + c] == v
}

/// Whether value `v` appears somewhere in column `c` of assignment `s`.
pub open spec fn value_in_column(s: Seq<usize>, c: int, v: usize) -> bool {
    exists|r: int| 0 <= r < 9 && #[trigger] s[r * 9 + c] == v
}

/// The linear index of the `t`-th cell of the `b`-th 3x3 block.
pub open spec fn block_cell(b: int, t: int) -> int {
    (b / 3) * 27 + (b % 3) * 3 + (t / 3) * 9 + (t % 3)
}

/// Whether value `v` appears somewhere in block `b` of assignment `s`.
pub open spec fn value_in_block(s: Seq<usize>, b: int, v: usize) -> bool {
    exists|t: int| 0 <= t < 9 && #[trigger] s[block_cell(b, t)] == v
}

/// Nine pairwise distinct values drawn from `1..=9` must cover all of them.
proof fn lemma_nine_distinct_cover(vals: Seq<usize>)
    requires
        vals.len() == 9,
        forall|k: int| 0 <= k < 9 ==> 1 <= #[trigger] vals[k] <= 9,
        forall|k1: int, k2: int| 0 <= k1 < 9 && 0 <= k2 < 9 && k1 != k2 ==> vals[k1] != vals[k2],
    ensures
        forall|v: usize| 1 <= v <= 9 ==> vals.contains(v),
{
    broadcast use vstd::set::group_set_axioms;
    broadcast use vstd::seq_lib::seq_to_set_is_finite;

    let digits = crate::grid::full_poss();
    assert(digits.no_duplicates());
    assert(vals.no_duplicates());
    vals.unique_seq_to_set();
    digits.unique_seq_to_set();
    assert forall|v: usize| 1 <= v <= 9 implies vals.contains(v) by {
        if !vals.contains(v) {
            let smaller = digits.to_set().remove(v);
            assert(digits.contains(v)) by {
                assert(digits[v - 1] == v);
            }
            assert(digits.to_set().contains(v));
            assert(smaller.len() == 8);
            assert(vals.to_set().subset_of(smaller)) by {
                assert forall|x: usize| vals.to_set().contains(x)
                    implies smaller.contains(x) by {
                    assert(vals.contains(x));
                    let k = choose|k: int| 0 <= k < 9 && vals[k] == x;
                    assert(1 <= x <= 9);
                    assert(digits.contains(x)) by {
                        assert(digits[x - 1] == x);
                    }
                    assert(x != v);
                }
            }
            vstd::set_lib::lemma_len_subset(vals.to_set(), smaller);
            assert(vals.to_set().len() <= 8);
        }
    }
}

/// Taking a block index and offset apart from a multiple of three.
proof fn lemma_triple_decode(x: int, q: int)
    requires
        0 <= x < 3,
        0 <= q < 3,
    ensures
        (x * 3 + q) / 3 == x,
        (x * 3 + q) % 3 == q,
{
    assert((x * 3 + q) / 3 == x && (x * 3 + q) % 3 == q) by (nonlinear_arith)
        requires
            0 <= x < 3,
            0 <= q < 3,
    ;
}

/// The cells of one block lie in the grid, share the block, and are nine
/// distinct cells.
proof fn lemma_block_cells(b: int, t1: int, t2: int)
    requires
        0 <= b < 9,
        0 <= t1 < 9,
        0 <= t2 < 9,
    ensures
        0 <= block_cell(b, t1) < 81,
        t1 != t2 ==> block_cell(b, t1) != block_cell(b, t2),
        is_neighbour(block_cell(b, t1), block_cell(b, t2)) || t1 == t2,
{
    let br = b / 3;
    let bcol = b % 3;
    assert(0 <= b / 3 < 3 && 0 <= b % 3 < 3) by (nonlinear_arith)
        requires 0 <= b < 9,
    ;
    let rr1 = br * 3 + t1 / 3;
    let cc1 = bcol * 3 + t1 % 3;
    let rr2 = br * 3 + t2 / 3;
    let cc2 = bcol * 3 + t2 % 3;
    assert(0 <= t1 / 3 < 3 && 0 <= t1 % 3 < 3 && 0 <= t2 / 3 < 3 && 0 <= t2 % 3 < 3)
        by (nonlinear_arith)
        requires 0 <= t1 < 9 && 0 <= t2 < 9,
    ;
    assert(block_cell(b, t1) == rr1 * 9 + cc1);
    assert(block_cell(b, t2) == rr2 * 9 + cc2);
    lemma_index_decode(rr1, cc1);
    lemma_index_decode(rr2, cc2);
    lemma_triple_decode(br, t1 / 3);
    lemma_triple_decode(br, t2 / 3);
    lemma_triple_decode(bcol, t1 % 3);
    lemma_triple_decode(bcol, t2 % 3);
    assert(same_block(block_cell(b, t1), block_cell(b, t2)));
    if t1 != t2 {
        assert(t1 == (t1 / 3) * 3 + t1 % 3);
        assert(t2 == (t2 / 3) * 3 + t2 % 3);
        assert(t1 / 3 != t2 / 3 || t1 % 3 != t2 % 3);
        assert(block_cell(b, t1) != block_cell(b, t2));
    }
}

/// Each row, each column and each block of a valid assignment holds every
/// value `1..=9` exactly once: at least once by the three `value_in_*`
/// clauses, and at most once because cells sharing a unit never agree.
pub proof fn lemma_solution_units_complete(s: Seq<usize>)
    requires
        valid_assignment(s),
    ensures
        forall|r: int, v: usize| 0 <= r < 9 && 1 <= v <= 9 ==> #[trigger] value_in_row(s, r, v),
        forall|c: int, v: usize| 0 <= c < 9 && 1 <= v <= 9 ==> #[trigger] value_in_column(s, c, v),
        forall|b: int, v: usize| 0 <= b < 9 && 1 <= v <= 9 ==> #[trigger] value_in_block(s, b, v),
        forall|r: int, c1: int, c2: int|
            0 <= r < 9 && 0 <= c1 < 9 && 0 <= c2 < 9 && c1 != c2
                ==> #[trigger] s[r * 9 + c1] != #[trigger] s[r * 9 + c2],
        forall|c: int, r1: int, r2: int|
            0 <= c < 9 && 0 <= r1 < 9 && 0 <= r2 < 9 && r1 != r2
                ==> #[trigger] s[r1 * 9 + c] != #[trigger] s[r2 * 9 + c],
        forall|b: int, t1: int, t2: int|
            0 <= b < 9 && 0 <= t1 < 9 && 0 <= t2 < 9 && t1 != t2
                ==> #[trigger] s[block_cell(b, t1)] != #[trigger] s[block_cell(b, t2)],
{
    assert forall|r: int, c1: int, c2: int|
        0 <= r < 9 && 0 <= c1 < 9 && 0 <= c2 < 9 && c1 != c2
        implies #[trigger] s[r * 9 + c1] != #[trigger] s[r * 9 + c2] by {
        lemma_index_decode(r, c1);
        lemma_index_decode(r, c2);
        assert(is_neighbour(r * 9 + c1, r * 9 + c2));
    }
    assert forall|c: int, r1: int, r2: int|
        0 <= c < 9 && 0 <= r1 < 9 && 0 <= r2 < 9 && r1 != r2
        implies #[trigger] s[r1 * 9 + c] != #[trigger] s[r2 * 9 + c] by {
        lemma_index_decode(r1, c);
        lemma_index_decode(r2, c);
        assert(is_neighbour(r1 * 9 + c, r2 * 9 + c));
    }
    assert forall|b: int, t1: int, t2: int|
        0 <= b < 9 && 0 <= t1 < 9 && 0 <= t2 < 9 && t1 != t2
        implies #[trigger] s[block_cell(b, t1)] != #[trigger] s[block_cell(b, t2)] by {
        lemma_block_cells(b, t1, t2);
    }
    assert forall|r: int, v: usize| 0 <= r < 9 && 1 <= v <= 9
        implies #[trigger] value_in_row(s, r, v) by {
        let vals = Seq::new(9, |c: int| s[r * 9 + c]);
        assert forall|k: int| 0 <= k < 9 implies 1 <= #[trigger] vals[k] <= 9 by {
            assert(0 <= r * 9 + k < 81);
            assert(vals[k] == s[r * 9 + k]);
        }
        lemma_nine_distinct_cover(vals);
        assert(vals.contains(v));
        let c = choose|c: int| 0 <= c < 9 && vals[c] == v;
        assert(s[r * 9 + c] == v);
    }
    assert forall|c: int, v: usize| 0 <= c < 9 && 1 <= v <= 9
        implies #[trigger] value_in_column(s, c, v) by {
        let vals = Seq::new(9, |r: int| s[r * 9 + c]);
        assert forall|k: int| 0 <= k < 9 implies 1 <= #[trigger] vals[k] <= 9 by {
            assert(0 <= k * 9 + c < 81);
            assert(vals[k] == s[k * 9 + c]);
        }
        lemma_nine_distinct_cover(vals);
        assert(vals.contains(v));
        let r = choose|r: int| 0 <= r < 9 && vals[r] == v;
        assert(s[r * 9 + c] == v);
    }
    assert forall|b: int, v: usize| 0 <= b < 9 && 1 <= v <= 9
        implies #[trigger] value_in_block(s, b, v) by {
        let vals = Seq::new(9, |t: int| s[block_cell(b, t)]);
        assert forall|k: int| 0 <= k < 9 implies 1 <= #[trigger] vals[k] <= 9 by {
            lemma_block_cells(b, k, k);
            assert(vals[k] == s[block_cell(b, k)]);
        }
        lemma_nine_distinct_cover(vals);
        assert(vals.contains(v));
        let t = choose|t: int| 0 <= t < 9 && vals[t] == v;
        assert(s[block_cell(b, t)] == v);
    }
}

/// A seeded cell survives into every emitted solution: when the seed pins
/// cell `i` to the single candidate `v`, solution `k` assigns `v` there.
pub proof fn lemma_seed_value_preserved(seed: Grid, sols: Seq<Grid>, i: int, v: usize, k: int)
    requires
        solver_output(seed, sols),
        0 <= i < 81,
        seed.poss(i) == seq![v],
        0 <= k < sols.len(),
    ensures
        assignment_of(sols[k])[i] == v,
{
    assert(is_solution_for(sols[k], seed));
    let a = assignment_of(sols[k]);
    assert(seed.poss(i).contains(a[i]));
    let j = choose|j: int| 0 <= j < seed.poss(i).len() && seed.poss(i)[j] == a[i];
    assert(j == 0);
    assert(seq![v][0] == v);
}

/// A contradictory seed admits nothing: when two neighbouring cells are both
/// pinned to the same value, the search emits no solution at all.
pub proof fn lemma_conflicting_seed_unsolvable(
    seed: Grid,
    sols: Seq<Grid>,
    i: int,
    j: int,
    v: usize,
)
    requires
        solver_output(seed, sols),
        is_neighbour(i, j),
        seed.poss(i) == seq![v],
        seed.poss(j) == seq![v],
    ensures
        sols.len() == 0,
{
    if sols.len() > 0 {
        assert(is_solution_for(sols[0], seed));
        let a = assignment_of(sols[0]);
        lemma_seed_value_preserved(seed, sols, i, v, 0);
        lemma_seed_value_preserved(seed, sols, j, v, 0);
        assert(a[i] == v && a[j] == v);
        assert(a[i] != a[j]);
    }
}

/// The search is a function of the seed alone: two runs on the same seed
/// emit the same set of assignments, whatever the order of emission.
pub proof fn lemma_solutions_deterministic(seed: Grid, sols1: Seq<Grid>, sols2: Seq<Grid>)
    requires
        solver_output(seed, sols1),
        solver_output(seed, sols2),
    ensures
        forall|s: Seq<usize>| #[trigger] emitted(s, sols1) ==> emitted(s, sols2),
        forall|s: Seq<usize>| #[trigger] emitted(s, sols2) ==> emitted(s, sols1),
{
    assert forall|s: Seq<usize>| #[trigger] emitted(s, sols1) implies emitted(s, sols2) by {
        let k = choose|k: int| 0 <= k < sols1.len() && assignment_of(#[trigger] sols1[k]) == s;
        assert(is_solution_for(sols1[k], seed));
        assert(valid_assignment(s));
        assert(compatible(s, seed));
    }
    assert forall|s: Seq<usize>| #[trigger] emitted(s, sols2) implies emitted(s, sols1) by {
        let k = choose|k: int| 0 <= k < sols2.len() && assignment_of(#[trigger] sols2[k]) == s;
        assert(is_solution_for(sols2[k], seed));
        assert(valid_assignment(s));
        assert(compatible(s, seed));
    }
}

} // verus!
