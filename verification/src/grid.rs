//! Solver state: one snapshot of the 81 cells of a Sudoku grid.

use vstd::prelude::*;

verus! {

/// The full candidate set `[1, 2, ..., 9]` that every cell starts from.
pub open spec fn full_poss() -> Seq<usize> {
    Seq::new(9, |k: int| (k + 1) as usize)
}

/// A candidate list is well formed when its values lie in `1..=9` and are
/// strictly increasing (so the list never holds a value twice).
pub open spec fn poss_wf(s: Seq<usize>) -> bool {
    &&& forall|k: int| 0 <= k < s.len() ==> 1 <= #[trigger] s[k] <= 9
    &&& forall|k1: int, k2: int| 0 <= k1 < k2 < s.len() ==> s[k1] < s[k2]
}

/// `s` with every occurrence of `v` deleted, keeping the order of the rest.
pub open spec fn remove_val(s: Seq<usize>, v: usize) -> Seq<usize>
    decreases s.len(),
{
    if s.len() == 0 {
        Seq::empty()
    } else if s.last() == v {
        remove_val(s.drop_last(), v)
    } else {
        remove_val(s.drop_last(), v).push(s.last())
    }
}

/// `remove_val` keeps exactly the values different from `v`.
pub proof fn lemma_remove_val_membership(s: Seq<usize>, v: usize)
    ensures
        forall|x: usize| #[trigger] remove_val(s, v).contains(x) ==> s.contains(x) && x != v,
        forall|x: usize| #[trigger] s.contains(x) && x != v ==> remove_val(s, v).contains(x),
        !remove_val(s, v).contains(v),
    decreases s.len(),
{
    broadcast use vstd::seq_lib::lemma_seq_contains_after_push;

    if s.len() == 0 {
        assert(forall|x: usize| !remove_val(s, v).contains(x));
        assert(forall|x: usize| !s.contains(x));
    } else {
        let pre = s.drop_last();
        lemma_remove_val_membership(pre, v);
        assert(s =~= pre.push(s.last()));
        assert forall|x: usize| #[trigger] remove_val(s, v).contains(x)
            implies s.contains(x) && x != v by {
            if s.last() != v {
                assert(remove_val(s, v) == remove_val(pre, v).push(s.last()));
            }
        }
        assert forall|x: usize| #[trigger] s.contains(x) && x != v
            implies remove_val(s, v).contains(x) by {
            if s.last() != v {
                assert(remove_val(s, v) == remove_val(pre, v).push(s.last()));
                if x != s.last() {
                    assert(pre.contains(x));
                }
            } else {
                assert(x != s.last());
                assert(pre.contains(x));
            }
        }
    }
}

/// Deleting a value can only shorten the candidate list.
pub proof fn lemma_remove_val_len(s: Seq<usize>, v: usize)
    ensures
        remove_val(s, v).len() <= s.len(),
    decreases s.len(),
{
    if s.len() > 0 {
        lemma_remove_val_len(s.drop_last(), v);
    }
}

/// Deleting a value keeps a candidate list well formed.
pub proof fn lemma_remove_val_wf(s: Seq<usize>, v: usize)
    requires
        poss_wf(s),
    ensures
        poss_wf(remove_val(s, v)),
    decreases s.len(),
{
    if s.len() > 0 {
        let pre = s.drop_last();
        assert(poss_wf(pre));
        lemma_remove_val_wf(pre, v);
        if s.last() != v {
            let r = remove_val(pre, v);
            assert forall|k: int| 0 <= k < r.len() implies r[k] < s.last() by {
                lemma_remove_val_membership(pre, v);
                assert(r.contains(r[k]));
                assert(pre.contains(r[k]));
                let j = choose|j: int| 0 <= j < pre.len() && pre[j] == r[k];
                assert(pre[j] < s.last());
            }
        }
    }
}

/// Deleting the same value twice is the same as deleting it once.
///
/// Together with the contract of [`Grid::remove_possibility`], this says that
/// calling `remove_possibility` twice with the same value on the same cell
/// leaves the cell exactly as a single call does.
pub proof fn lemma_remove_val_idempotent(s: Seq<usize>, v: usize)
    ensures
        remove_val(remove_val(s, v), v) == remove_val(s, v),
    decreases s.len(),
{
    if s.len() > 0 {
        let pre = s.drop_last();
        lemma_remove_val_idempotent(pre, v);
        if s.last() != v {
            let r = remove_val(pre, v);
            assert(r.push(s.last()).drop_last() =~= r);
            assert(remove_val(r.push(s.last()), v) =~= remove_val(r, v).push(s.last()));
        }
    }
}

/// Deleting a value that is not present leaves the list unchanged.
pub proof fn lemma_remove_val_absent(s: Seq<usize>, v: usize)
    requires
        !s.contains(v),
    ensures
        remove_val(s, v) == s,
    decreases s.len(),
{
    if s.len() > 0 {
        let pre = s.drop_last();
        assert(!pre.contains(v)) by {
            if pre.contains(v) {
                let j = choose|j: int| 0 <= j < pre.len() && pre[j] == v;
                assert(s[j] == v);
            }
        }
        assert(s.last() != v) by {
            if s.last() == v {
                assert(s[s.len() - 1] == v);
            }
        }
        lemma_remove_val_absent(pre, v);
        assert(remove_val(pre, v).push(s.last()) =~= s);
    }
}

/// One known entry of the input puzzle.  Rows, columns and values are 1-based
/// on the way in and stored 0-based (the value itself stays in `1..=9`).
pub struct KnownValue {
    row: usize,
    column: usize,
    value: usize,
}

impl KnownValue {
    /// A stored entry addresses a real cell and carries a legal value.
    pub closed spec fn wf(self) -> bool {
        self.row < 9 && self.column < 9 && 1 <= self.value <= 9
    }

    /// The linear index of the cell this entry fills.
    pub closed spec fn pos(self) -> int {
        self.row * 9 + self.column
    }

    /// The value this entry fixes.
    pub closed spec fn val(self) -> usize {
        self.value
    }

    pub fn new(row: usize, column: usize, value: usize) -> (kv: KnownValue)
        requires
            1 <= row <= 9,
            1 <= column <= 9,
            1 <= value <= 9,
        ensures
            kv.wf(),
            kv.pos() == (row - 1) * 9 + (column - 1),
            kv.val() == value,
    {
        KnownValue { row: row - 1, column: column - 1, value }
    }
}

/// One of the 81 grid positions: the values still possible for it, and
/// whether the search has committed it to a definitive value.
#[derive(Debug)]
pub struct Cell {
    pub evaluated: bool,
    pub possibilities: Vec<usize>,
}

impl Cell {
    pub fn new() -> (c: Cell)
        ensures
            !c.evaluated,
            c.possibilities@ == full_poss(),
    {
        let mut possibilities: Vec<usize> = Vec::new();
        let mut v: usize = 1;
        while v <= 9
            invariant
                1 <= v <= 10,
                possibilities@.len() == v - 1,
                forall|k: int| 0 <= k < possibilities@.len() ==> possibilities@[k] == k + 1,
            decreases 10 - v,
        {
            possibilities.push(v);
            v = v + 1;
        }
        proof {
            assert(possibilities@ =~= full_poss());
        }
        Cell { evaluated: false, possibilities }
    }
}

impl Clone for Cell {
    fn clone(&self) -> (c: Cell)
        ensures
            c.evaluated == self.evaluated,
            c.possibilities@ == self.possibilities@,
    {
        let mut possibilities: Vec<usize> = Vec::new();
        let mut k: usize = 0;
        while k < self.possibilities.len()
            invariant
                k <= self.possibilities@.len(),
                possibilities@ == self.possibilities@.take(k as int),
            decreases self.possibilities@.len() - k,
        {
            possibilities.push(self.possibilities[k]);
            proof {
                assert(possibilities@ =~= self.possibilities@.take(k + 1));
            }
            k = k + 1;
        }
        proof {
            assert(self.possibilities@.take(self.possibilities@.len() as int)
                =~= self.possibilities@);
        }
        Cell { evaluated: self.evaluated, possibilities }
    }
}

/// The candidate list that seeding with `kvs` leaves at cell `i`: the value of
/// the last entry aimed at `i`, or the full candidate set if none is.
pub open spec fn seeded_poss(kvs: Seq<KnownValue>, i: int) -> Seq<usize>
    decreases kvs.len(),
{
    if kvs.len() == 0 {
        full_poss()
    } else if kvs.last().pos() == i {
        seq![kvs.last().val()]
    } else {
        seeded_poss(kvs.drop_last(), i)
    }
}

/// Whatever the seed, a seeded candidate list is well formed.
pub proof fn lemma_seeded_poss_wf(kvs: Seq<KnownValue>, i: int)
    requires
        forall|k: int| 0 <= k < kvs.len() ==> (#[trigger] kvs[k]).wf(),
    ensures
        poss_wf(seeded_poss(kvs, i)),
    decreases kvs.len(),
{
    if kvs.len() == 0 {
        assert(poss_wf(full_poss()));
    } else if kvs.last().pos() == i {
        assert(kvs[kvs.len() - 1].wf());
    } else {
        lemma_seeded_poss_wf(kvs.drop_last(), i);
    }
}

/// One snapshot of solver state: exactly 81 cells, addressed by
/// `index = row * 9 + column`.
#[derive(Debug)]
pub struct Grid {
    pub cells: Vec<Cell>,
}

impl Grid {
    /// The candidate list of cell `i`.
    pub open spec fn poss(self, i: int) -> Seq<usize> {
        self.cells@[i].possibilities@
    }

    /// Whether the search has committed cell `i`.
    pub open spec fn evaluated(self, i: int) -> bool {
        self.cells@[i].evaluated
    }

    /// A grid holds 81 cells, each with a well-formed candidate list.
    pub open spec fn wf(self) -> bool {
        &&& self.cells@.len() == 81
        &&& forall|i: int| 0 <= i < 81 ==> poss_wf(#[trigger] self.poss(i))
    }

    /// Build the starting grid: every cell begins with the full candidate set
    /// and unevaluated; each known value narrows its cell to a singleton,
    /// later entries overwriting earlier ones aimed at the same cell.
    pub fn new(fixed_values: Vec<KnownValue>) -> (grid: Grid)
        requires
            forall|k: int| 0 <= k < fixed_values@.len() ==> (#[trigger] fixed_values@[k]).wf(),
        ensures
            grid.wf(),
            forall|i: int| 0 <= i < 81 ==> !(#[trigger] grid.evaluated(i)),
            forall|i: int| 0 <= i < 81 ==> #[trigger] grid.poss(i) == seeded_poss(fixed_values@, i),
    {
        let mut cells: Vec<Cell> = Vec::new();
        while cells.len() < 81
            invariant
                cells@.len() <= 81,
                forall|i: int| 0 <= i < cells@.len()
                    ==> !(#[trigger] cells@[i]).evaluated && cells@[i].possibilities@ == full_poss(),
            decreases 81 - cells@.len(),
        {
            cells.push(Cell::new());
        }
        let mut grid = Grid { cells };
        let mut k: usize = 0;
        while k < fixed_values.len()
            invariant
                k <= fixed_values@.len(),
                forall|j: int| 0 <= j < fixed_values@.len() ==> (#[trigger] fixed_values@[j]).wf(),
                grid.cells@.len() == 81,
                forall|i: int| 0 <= i < 81 ==> !(#[trigger] grid.evaluated(i)),
                forall|i: int| 0 <= i < 81
                    ==> #[trigger] grid.poss(i) == seeded_poss(fixed_values@.take(k as int), i),
            decreases fixed_values@.len() - k,
        {
            let ghost prev = grid;
            let fv = &fixed_values[k];
            assert(fv.wf());
            let pos = fv.row * 9 + fv.column;
            let mut single: Vec<usize> = Vec::new();
            single.push(fv.value);
            grid.cells[pos] = Cell { evaluated: false, possibilities: single };
            proof {
                assert(pos as int == fv.pos());
                assert(grid.poss(fv.pos()) =~= seq![fv.val()]);
                assert forall|i: int| 0 <= i < 81 && i != fv.pos()
                    implies #[trigger] grid.poss(i) == prev.poss(i)
                        && grid.evaluated(i) == prev.evaluated(i) by {
                    assert(grid.cells@[i] == prev.cells@[i]);
                }
                assert forall|i: int| 0 <= i < 81 implies !(#[trigger] grid.evaluated(i)) by {
                    assert(!prev.evaluated(i));
                    if i != fv.pos() {
                        assert(grid.cells@[i] == prev.cells@[i]);
                    }
                }
                let taken = fixed_values@.take(k + 1);
                assert(taken.drop_last() =~= fixed_values@.take(k as int));
                assert(taken.last() == fixed_values@[k as int]);
                assert forall|i: int| 0 <= i < 81
                    implies #[trigger] grid.poss(i) == seeded_poss(taken, i) by {
                    if i == fv.pos() {
                        assert(seeded_poss(taken, i) == seq![fv.val()]);
                    } else {
                        assert(seeded_poss(taken, i) == seeded_poss(taken.drop_last(), i));
                        assert(seeded_poss(taken.drop_last(), i)
                            == seeded_poss(fixed_values@.take(k as int), i));
                        assert(prev.poss(i) == seeded_poss(fixed_values@.take(k as int), i));
                    }
                }
            }
            k = k + 1;
        }
        proof {
            assert(fixed_values@.take(fixed_values@.len() as int) =~= fixed_values@);
            assert forall|i: int| 0 <= i < 81 implies poss_wf(#[trigger] grid.poss(i)) by {
                lemma_seeded_poss_wf(fixed_values@, i);
            }
        }
        grid
    }

    /// Commit `cell` to `value`: its candidate list collapses to the
    /// singleton `[value]` and the cell is marked evaluated.  Every other
    /// cell is untouched.
    pub fn set_value(&mut self, cell: usize, value: usize)
        requires
            cell < old(self).cells@.len(),
            old(self).poss(cell as int).contains(value),
        ensures
            final(self).cells@.len() == old(self).cells@.len(),
            final(self).evaluated(cell as int),
            final(self).poss(cell as int) == seq![value],
            forall|i: int| 0 <= i < old(self).cells@.len() && i != cell
                ==> #[trigger] final(self).poss(i) == old(self).poss(i),
            forall|i: int| 0 <= i < old(self).cells@.len() && i != cell
                ==> #[trigger] final(self).evaluated(i) == old(self).evaluated(i),
            old(self).wf() ==> final(self).wf(),
    {
        let mut single: Vec<usize> = Vec::new();
        single.push(value);
        self.cells[cell] = Cell { evaluated: true, possibilities: single };
        proof {
            assert(self.poss(cell as int) =~= seq![value]);
            if old(self).wf() {
                let s = old(self).poss(cell as int);
                let k0 = choose|k0: int| 0 <= k0 < s.len() && s[k0] == value;
                assert(1 <= value <= 9);
                assert forall|i: int| 0 <= i < 81 implies poss_wf(#[trigger] self.poss(i)) by {
                    if i != cell {
                        assert(self.cells@[i] == old(self).cells@[i]);
                        assert(poss_wf(old(self).poss(i)));
                    } else {
                        assert(self.poss(i) == seq![value]);
                        assert(seq![value].len() == 1);
                        assert(seq![value][0] == value);
                    }
                }
            }
        }
    }

    /// Delete `value` from the candidate list of `cell` if present; a no-op
    /// otherwise.  The evaluated flag and every other cell are untouched.
    pub fn remove_possibility(&mut self, cell: usize, value: usize)
        requires
            cell < old(self).cells@.len(),
        ensures
            final(self).cells@.len() == old(self).cells@.len(),
            final(self).poss(cell as int) == remove_val(old(self).poss(cell as int), value),
            final(self).evaluated(cell as int) == old(self).evaluated(cell as int),
            forall|i: int| 0 <= i < old(self).cells@.len() && i != cell
                ==> #[trigger] final(self).poss(i) == old(self).poss(i),
            forall|i: int| 0 <= i < old(self).cells@.len() && i != cell
                ==> #[trigger] final(self).evaluated(i) == old(self).evaluated(i),
    {
        let n = self.cells[cell].possibilities.len();
        let mut kept: Vec<usize> = Vec::new();
        let mut k: usize = 0;
        while k < n
            invariant
                k <= n,
                n == self.cells@[cell as int].possibilities@.len(),
                cell < self.cells@.len(),
                kept@ == remove_val(self.cells@[cell as int].possibilities@.take(k as int), value),
            decreases n - k,
        {
            let p = self.cells[cell].possibilities[k];
            proof {
                let s = self.cells@[cell as int].possibilities@;
                assert(s.take(k + 1).drop_last() =~= s.take(k as int));
                assert(s.take(k + 1).last() == s[k as int]);
            }
            if p != value {
                kept.push(p);
            }
            k = k + 1;
        }
        proof {
            let s = self.cells@[cell as int].possibilities@;
            assert(s.take(s.len() as int) =~= s);
        }
        self.cells[cell].possibilities = kept;
    }

    /// The number of candidate values still possible for `cell`; zero means
    /// the grid is contradictory.
    pub fn num_possibilities(&self, cell: usize) -> (n: usize)
        requires
            cell < self.cells@.len(),
        ensures
            n == self.poss(cell as int).len(),
    {
        self.cells[cell].possibilities.len()
    }
}

impl Clone for Grid {
    fn clone(&self) -> (g: Grid)
        ensures
            g.cells@.len() == self.cells@.len(),
            forall|i: int| 0 <= i < self.cells@.len() ==> #[trigger] g.poss(i) == self.poss(i),
            forall|i: int| 0 <= i < self.cells@.len()
                ==> #[trigger] g.evaluated(i) == self.evaluated(i),
    {
        let mut cells: Vec<Cell> = Vec::new();
        let mut k: usize = 0;
        while k < self.cells.len()
            invariant
                k <= self.cells@.len(),
                cells@.len() == k,
                forall|i: int| 0 <= i < k
                    ==> (#[trigger] cells@[i]).possibilities@ == self.cells@[i].possibilities@
                        && cells@[i].evaluated == self.cells@[i].evaluated,
            decreases self.cells@.len() - k,
        {
            cells.push(self.cells[k].clone());
            k = k + 1;
        }
        Grid { cells }
    }
}

} // verus!
