//! The storage that a cost matrix is kept in, and the computation that
//! fills one and reads the edit script off it.
use vstd::prelude::*;
use crate::cost::cell_cost;
use crate::cost::cost_matrix;
use crate::cost::costs_fit;
use crate::cost::is_first_min_row;
use crate::cost::least;
use crate::cost::lemma_candidates_fit;
use crate::cost::lemma_edges_fit;
use crate::cost::lemma_first_min_row_unique;
use crate::cost::lemma_matrix_holds_cost;
use crate::script::backtrace_from;
use crate::script::lemma_walk_is_short_and_paired;
use crate::script::swaps_paired;
use crate::EditScript;
use crate::EditType;
use crate::IdenticalChars;
use crate::MatchFunction;
use crate::Options;

verus! {

/// The `x` by `y` table that holds zero in every cell.
pub open spec fn zero_cells(x: nat, y: nat) -> Seq<Seq<usize>> {
    Seq::new(x, |i: int| Seq::new(y, |j: int| 0usize))
}

/// Storage for a cost matrix. Every implementation behaves alike; they
/// differ in memory layout only.
pub trait Matrix: Sized {
    /// The stored cells, row by row.
    spec fn cells(&self) -> Seq<Seq<usize>>;

    /// The logical bounds: the number of rows in use, and of columns.
    spec fn size(&self) -> (usize, usize);

    /// Writes `value` to the cell in row `x` and column `y`, and to no
    /// other.
    fn set(&mut self, x: usize, y: usize, value: usize)
        requires
            x < old(self).cells().len(),
            y < old(self).cells()[x as int].len(),
        ensures
            final(self).cells() == old(self).cells().update(
                x as int,
                old(self).cells()[x as int].update(y as int, value),
            ),
            final(self).size() == old(self).size(),
    ;

    /// Reads the cell in row `x` and column `y`.
    fn get(&self, x: usize, y: usize) -> (value: usize)
        requires
            x < self.cells().len(),
            y < self.cells()[x as int].len(),
        ensures
            value == self.cells()[x as int][y as int],
    ;

    /// A matrix of `x` rows and `y` columns with zero in every cell. With
    /// no columns it has no cells, however many rows it keeps.
    fn new(x: usize, y: usize) -> (m: Self)
        requires
            x * y <= usize::MAX,
        ensures
            m.size() == (x, y),
            y > 0 ==> m.cells() == zero_cells(x as nat, y as nat),
            y == 0 ==> forall|i: int| 0 <= i < m.cells().len() ==> #[trigger] m.cells()[i].len() == 0,
    ;

    /// Reads the cell in the last row and the last column of the logical
    /// bounds.
    fn get_last_cell(&self) -> (value: usize)
        requires
            0 < self.size().0 <= self.cells().len(),
            0 < self.size().1 <= self.cells()[self.size().0 - 1].len(),
        ensures
            value == self.cells()[self.size().0 - 1][self.size().1 - 1],
    ;

    /// Sets the logical row bound to `x`. No cell changes.
    fn shrink(&mut self, x: usize)
        ensures
            final(self).cells() == old(self).cells(),
            final(self).size() == (x, old(self).size().1),
    ;

    /// The logical bounds.
    fn get_size(&self) -> (s: (usize, usize))
        ensures
            s == self.size(),
    ;
}

/// One computation: the two sequences, the options, and the matrix that the
/// costs are written to.
pub struct Osa<T, E = IdenticalChars> where T: Matrix, E: MatchFunction {
    pub matrix: T,
    source: Vec<char>,
    target: Vec<char>,
    options: Options<E>,
}

/// The table has `rows` rows of `cols` cells each.
pub open spec fn shaped(cells: Seq<Seq<usize>>, rows: nat, cols: nat) -> bool {
    &&& cells.len() == rows
    &&& forall|i: int| 0 <= i < rows ==> #[trigger] cells[i].len() == cols
}

/// The cells of the top row, of the left column, of the rows above row `i`
/// and of row `i` left of column `j` hold their costs.
spec fn filled_to<E: MatchFunction>(
    cells: Seq<Seq<usize>>,
    s: Seq<char>,
    t: Seq<char>,
    o: Options<E>,
    i: nat,
    j: nat,
) -> bool {
    forall|a: nat, b: nat|
        a <= s.len() && b <= t.len() && (a == 0 || b == 0 || a < i || (a == i && b < j)) ==> cells[a as int][b as int]
            == #[trigger] cell_cost(s, t, o, a, b)
}

/// The smaller of two costs.
fn smaller(a: usize, b: usize) -> (r: usize)
    ensures
        r == least(a as nat, b as nat),
{
    if a <= b {
        a
    } else {
        b
    }
}

/// `from + cost == to`, computed without overflow.
fn steps_to(from: usize, cost: usize, to: usize) -> (r: bool)
    ensures
        r == (from + cost == to),
{
    cost <= to && from == to - cost
}

/// The script in the order in which it was collected, turned round.
fn reversed(collected: Vec<EditType>) -> (script: Vec<EditType>)
    ensures
        script@ == collected@.reverse(),
{
    let ghost all = collected@;
    let mut rest = collected;
    let mut script: Vec<EditType> = Vec::new();
    while rest.len() > 0
        invariant
            rest@.len() <= all.len(),
            rest@ == all.take(rest@.len() as int),
            script@.len() == all.len() - rest@.len(),
            forall|k: int| 0 <= k < script@.len() ==> script@[k] == all[all.len() - 1 - k],
        decreases rest@.len(),
    {
        let last = rest.pop();
        match last {
            Some(op) => {
                script.push(op);
            },
            None => {},
        }
    }
    assert(script@ =~= all.reverse());
    script
}

impl<T, E> Osa<T, E> where T: Matrix, E: MatchFunction {
    /// The source sequence.
    pub closed spec fn source(&self) -> Seq<char> {
        self.source@
    }

    /// The target sequence.
    pub closed spec fn target(&self) -> Seq<char> {
        self.target@
    }

    /// The options.
    pub closed spec fn options(&self) -> Options<E> {
        self.options
    }

    /// The matrix.
    pub closed spec fn matrix(&self) -> T {
        self.matrix
    }

    /// The matrix has a row more than the source has code points and a
    /// column more than the target has, and its logical bounds lie within.
    pub open spec fn wf(&self) -> bool {
        &&& self.source().len() < usize::MAX
        &&& shaped(self.matrix().cells(), self.source().len() + 1, self.target().len() + 1)
        &&& 0 < self.matrix().size().0 <= self.source().len() + 1
        &&& self.matrix().size().1 == self.target().len() + 1
    }

    /// The row of the terminal cell: the last within the logical bounds.
    pub open spec fn terminal(&self) -> nat {
        (self.matrix().size().0 - 1) as nat
    }

    /// The matrix holds the costs of the two sequences.
    pub open spec fn is_built(&self) -> bool {
        self.matrix().cells() == cost_matrix(self.source(), self.target(), self.options())
    }

    /// What building the matrix makes of the computation `before`: the
    /// matrix holds the costs of the two sequences, which stay as they
    /// were, as do the options and the column bound. Where the options ask
    /// for the least cost of a target shorter than the source, the row
    /// bound ends at the first row, from the target's length on, that holds
    /// the least cost of the last column; else it stays as well.
    pub open spec fn built_from(&self, before: Self) -> bool {
        let s = before.source();
        let t = before.target();
        let o = before.options();
        &&& self.wf()
        &&& self.source() == s
        &&& self.target() == t
        &&& self.options() == o
        &&& self.is_built()
        &&& self.matrix().size().1 == before.matrix().size().1
        &&& if o.min_cost_when_target_shorter && t.len() < s.len() {
            is_first_min_row(s, t, o, self.terminal())
        } else {
            self.matrix().size().0 == before.matrix().size().0
        }
    }

    /// Building once more changes nothing: what building makes of a built
    /// computation has the cells and the bounds that it had.
    pub proof fn lemma_rebuild_changes_nothing(fresh: Self, once: Self, twice: Self)
        requires
            once.built_from(fresh),
            twice.built_from(once),
        ensures
            twice.matrix().cells() == once.matrix().cells(),
            twice.matrix().size() == once.matrix().size(),
            twice.source() == once.source(),
            twice.target() == once.target(),
            twice.options() == once.options(),
    {
        let s = fresh.source();
        let t = fresh.target();
        let o = fresh.options();
        if o.min_cost_when_target_shorter && t.len() < s.len() {
            lemma_first_min_row_unique(s, t, o, once.terminal());
            lemma_first_min_row_unique(s, t, o, twice.terminal());
        }
    }

    /// A computation on the two sequences, with the matrix as it is given.
    pub fn new(source: Vec<char>, target: Vec<char>, options: Options<E>, matrix: T) -> (osa: Osa<T, E>)
        ensures
            osa.source() == source@,
            osa.target() == target@,
            osa.options() == options,
            osa.matrix() == matrix,
    {
        Osa { matrix, source, target, options }
    }

    /// The cost in the terminal cell of the matrix: once the matrix is
    /// built, the cost of turning the source, up to the terminal row, into
    /// the target.
    pub fn get_cost(&self) -> (cost: usize)
        requires
            self.wf(),
        ensures
            cost == self.matrix().cells()[self.terminal() as int][self.target().len() as int],
            self.is_built() && costs_fit(self.source(), self.target(), self.options()) ==> cost
                == cell_cost(self.source(), self.target(), self.options(), self.terminal(), self.target().len()),
    {
        proof {
            if costs_fit(self.source(), self.target(), self.options()) {
                lemma_matrix_holds_cost(
                    self.source(),
                    self.target(),
                    self.options(),
                    self.terminal(),
                    self.target().len(),
                );
            }
        }
        self.matrix.get_last_cell()
    }

    /// The matrix.
    pub fn get_matrix(&self) -> (matrix: &T)
        ensures
            *matrix == self.matrix(),
    {
        &self.matrix
    }

    /// Fills the matrix with the costs of the two sequences. Where the
    /// options ask for it and the target is shorter than the source, the
    /// logical row bound then narrows to end at the first row, from the
    /// target's length on, that holds the least cost of the last column.
    pub fn matrix_for_strings(&mut self)
        requires
            old(self).wf(),
            costs_fit(old(self).source(), old(self).target(), old(self).options()),
        ensures
            final(self).built_from(*old(self)),
    {
        let s = self.source.len();
        let t = self.target.len();
        let ghost src = self.source@;
        let ghost tgt = self.target@;
        let ghost opt = self.options;
        let ghost size = self.matrix.size();
        let mut i: usize = 0;
        while i < s + 1
            invariant
                s < usize::MAX,
                t < usize::MAX,
                src.len() == s,
                tgt.len() == t,
                self.source@ == src,
                self.target@ == tgt,
                self.options == opt,
                self.matrix.size() == size,
                costs_fit(src, tgt, opt),
                shaped(self.matrix.cells(), (s + 1) as nat, (t + 1) as nat),
                i <= s + 1,
                forall|a: int| 0 <= a < i ==> (#[trigger] self.matrix.cells()[a])[0] == a * opt.del_cost,
            decreases s + 1 - i,
        {
            proof {
                lemma_edges_fit(src, tgt, opt, i as nat, 0);
            }
            self.matrix.set(i, 0, i * self.options.del_cost);
            i = i + 1;
        }
        let mut j: usize = 0;
        while j < t + 1
            invariant
                s < usize::MAX,
                t < usize::MAX,
                src.len() == s,
                tgt.len() == t,
                self.source@ == src,
                self.target@ == tgt,
                self.options == opt,
                self.matrix.size() == size,
                costs_fit(src, tgt, opt),
                shaped(self.matrix.cells(), (s + 1) as nat, (t + 1) as nat),
                j <= t + 1,
                forall|a: int| 0 < a <= s ==> (#[trigger] self.matrix.cells()[a])[0] == a * opt.del_cost,
                j == 0 ==> self.matrix.cells()[0][0] == 0,
                forall|b: int| 0 <= b < j ==> #[trigger] self.matrix.cells()[0][b] == b * opt.ins_cost,
            decreases t + 1 - j,
        {
            proof {
                lemma_edges_fit(src, tgt, opt, 0, j as nat);
            }
            self.matrix.set(0, j, j * self.options.ins_cost);
            j = j + 1;
        }
        assert(filled_to(self.matrix.cells(), src, tgt, opt, 1, 1));
        let mut i: usize = 1;
        while i < s + 1
            invariant
                s < usize::MAX,
                t < usize::MAX,
                src.len() == s,
                tgt.len() == t,
                self.source@ == src,
                self.target@ == tgt,
                self.options == opt,
                self.matrix.size() == size,
                costs_fit(src, tgt, opt),
                shaped(self.matrix.cells(), (s + 1) as nat, (t + 1) as nat),
                1 <= i <= s + 1,
                filled_to(self.matrix.cells(), src, tgt, opt, i as nat, 1),
            decreases s + 1 - i,
        {
            let mut j: usize = 1;
            while j < t + 1
                invariant
                    s < usize::MAX,
                    t < usize::MAX,
                    src.len() == s,
                    tgt.len() == t,
                    self.source@ == src,
                    self.target@ == tgt,
                    self.options == opt,
                    self.matrix.size() == size,
                    costs_fit(src, tgt, opt),
                    shaped(self.matrix.cells(), (s + 1) as nat, (t + 1) as nat),
                    1 <= i <= s,
                    1 <= j <= t + 1,
                    filled_to(self.matrix.cells(), src, tgt, opt, i as nat, j as nat),
                decreases t + 1 - j,
            {
                let ghost before = self.matrix.cells();
                proof {
                    lemma_candidates_fit(src, tgt, opt, i as nat, j as nat);
                    assert(before[i - 1][j as int] == cell_cost(src, tgt, opt, (i - 1) as nat, j as nat));
                    assert(before[i - 1][j - 1] == cell_cost(src, tgt, opt, (i - 1) as nat, (j - 1) as nat));
                    assert(before[i as int][j - 1] == cell_cost(src, tgt, opt, i as nat, (j - 1) as nat));
                }
                let del_cost = self.matrix.get(i - 1, j) + self.options.del_cost;
                let mut match_sub_cost = self.matrix.get(i - 1, j - 1);
                if !self.options.equals.matches(self.source[i - 1], self.target[j - 1]) {
                    match_sub_cost = match_sub_cost + self.options.sub_cost;
                }
                let ins_cost = self.matrix.get(i, j - 1) + self.options.ins_cost;
                self.matrix.set(i, j, smaller(del_cost, smaller(match_sub_cost, ins_cost)));
                if i > 1 && j > 1 && self.source[i - 1] == self.target[j - 2] && self.source[i - 2]
                    == self.target[j - 1] {
                    proof {
                        assert(before[i - 2][j - 2] == cell_cost(src, tgt, opt, (i - 2) as nat, (j - 2) as nat));
                    }
                    let transp_cost = self.matrix.get(i - 2, j - 2) + self.options.transp_cost;
                    let stepped = self.matrix.get(i, j);
                    self.matrix.set(i, j, smaller(stepped, transp_cost));
                }
                proof {
                    let after = self.matrix.cells();
                    assert(after[i as int][j as int] == cell_cost(src, tgt, opt, i as nat, j as nat));
                    assert forall|a: nat, b: nat|
                        a <= src.len() && b <= tgt.len() && (a == 0 || b == 0 || a < i || (a == i && b < j + 1))
                            implies after[a as int][b as int] == #[trigger] cell_cost(src, tgt, opt, a, b) by {
                        if a == i && b == j {
                        } else {
                            assert(after[a as int][b as int] == before[a as int][b as int]);
                        }
                    }
                }
                j = j + 1;
            }
            i = i + 1;
        }
        proof {
            let cells = self.matrix.cells();
            let want = cost_matrix(src, tgt, opt);
            assert forall|a: int| 0 <= a < cells.len() implies cells[a] =~= want[a] by {
                assert forall|b: int| 0 <= b < cells[a].len() implies cells[a][b] == want[a][b] by {
                    assert(cells[a][b] == cell_cost(src, tgt, opt, a as nat, b as nat));
                }
            }
            assert(cells =~= want);
        }
        if t < s && self.options.min_cost_when_target_shorter {
            let mut min = self.matrix.get(t, t);
            let mut index = t;
            let mut i: usize = t;
            while i < s + 1
                invariant
                    s < usize::MAX,
                    t < s,
                    src.len() == s,
                    tgt.len() == t,
                    self.source@ == src,
                    self.target@ == tgt,
                    self.options == opt,
                    self.matrix.size() == size,
                    self.matrix.cells() == cost_matrix(src, tgt, opt),
                    shaped(self.matrix.cells(), (s + 1) as nat, (t + 1) as nat),
                    filled_to(self.matrix.cells(), src, tgt, opt, (s + 1) as nat, 1),
                    t <= i <= s + 1,
                    t <= index <= s,
                    index == t || index < i,
                    min == cell_cost(src, tgt, opt, index as nat, t as nat),
                    forall|k: nat| t <= k < i ==> min <= #[trigger] cell_cost(src, tgt, opt, k, t as nat),
                    forall|k: nat| t <= k < index ==> min < #[trigger] cell_cost(src, tgt, opt, k, t as nat),
                decreases s + 1 - i,
            {
                assert(self.matrix.cells()[i as int][t as int] == cell_cost(src, tgt, opt, i as nat, t as nat));
                if min > self.matrix.get(i, t) {
                    min = self.matrix.get(i, t);
                    index = i;
                }
                i = i + 1;
            }
            self.matrix.shrink(index + 1);
        }
    }

    /// Builds the matrix, then walks back from its terminal cell.
    pub fn edit_script_for_strings(&mut self) -> (script: EditScript)
        requires
            old(self).wf(),
            costs_fit(old(self).source(), old(self).target(), old(self).options()),
        ensures
            final(self).built_from(*old(self)),
            script@ == backtrace_from(
                cost_matrix(old(self).source(), old(self).target(), old(self).options()),
                old(self).source(),
                old(self).target(),
                old(self).options(),
                final(self).terminal(),
                old(self).target().len(),
            ),
            script@.len() <= final(self).terminal() + old(self).target().len(),
            swaps_paired(script@),
    {
        self.matrix_for_strings();
        self.backtrace(self.matrix.get_size().0 - 1, self.matrix.get_size().1 - 1)
    }

    /// Gives up the computation for its matrix.
    pub fn into_matrix(self) -> (matrix: T)
        ensures
            matrix == self.matrix(),
    {
        self.matrix
    }

    /// Walks back from the cell in row `i` and column `j` towards the
    /// origin, step by step, and gives the steps in the order in which they
    /// apply to the source.
    pub fn backtrace(&self, i: usize, j: usize) -> (script: EditScript)
        requires
            self.wf(),
            i <= self.source().len(),
            j <= self.target().len(),
        ensures
            script@ == backtrace_from(
                self.matrix().cells(),
                self.source(),
                self.target(),
                self.options(),
                i as nat,
                j as nat,
            ),
            script@.len() <= i + j,
            swaps_paired(script@),
    {
        proof {
            lemma_walk_is_short_and_paired(
                self.matrix.cells(),
                self.source@,
                self.target@,
                self.options,
                i as nat,
                j as nat,
            );
        }
        let ghost cells = self.matrix.cells();
        let ghost whole = backtrace_from(cells, self.source@, self.target@, self.options, i as nat, j as nat);
        let mut collected: Vec<EditType> = Vec::new();
        let mut i: usize = i;
        let mut j: usize = j;
        loop
            invariant
                self.wf(),
                cells == self.matrix.cells(),
                i <= self.source@.len(),
                j <= self.target@.len(),
                whole == backtrace_from(cells, self.source@, self.target@, self.options, i as nat, j as nat)
                    + collected@.reverse(),
            ensures
                whole == collected@.reverse(),
            decreases i + j,
        {
            let ghost before = backtrace_from(cells, self.source@, self.target@, self.options, i as nat, j as nat);
            let ghost tail = collected@.reverse();
            let here = self.matrix.get(i, j);
            if i > 1 && j > 1 && self.source[i - 1] == self.target[j - 2] && self.source[i - 2]
                == self.target[j - 1] && self.matrix.get(i - 2, j - 2) < here {
                collected.push(EditType::Transpose);
                collected.push(EditType::Transpose);
                i = i - 2;
                j = j - 2;
                proof {
                    let rest = backtrace_from(cells, self.source@, self.target@, self.options, i as nat, j as nat);
                    assert(before == rest.push(EditType::Transpose).push(EditType::Transpose));
                    assert(collected@.reverse() =~= seq![EditType::Transpose, EditType::Transpose] + tail);
                    assert(before + tail =~= rest + collected@.reverse());
                }
            } else if i > 0 && steps_to(self.matrix.get(i - 1, j), self.options.del_cost, here) {
                collected.push(EditType::Delete);
                i = i - 1;
                proof {
                    let rest = backtrace_from(cells, self.source@, self.target@, self.options, i as nat, j as nat);
                    assert(before == rest.push(EditType::Delete));
                    assert(collected@.reverse() =~= seq![EditType::Delete] + tail);
                    assert(before + tail =~= rest + collected@.reverse());
                }
            } else if j > 0 && steps_to(self.matrix.get(i, j - 1), self.options.ins_cost, here) {
                collected.push(EditType::Insert);
                j = j - 1;
                proof {
                    let rest = backtrace_from(cells, self.source@, self.target@, self.options, i as nat, j as nat);
                    assert(before == rest.push(EditType::Insert));
                    assert(collected@.reverse() =~= seq![EditType::Insert] + tail);
                    assert(before + tail =~= rest + collected@.reverse());
                }
            } else if i > 0 && j > 0 && steps_to(self.matrix.get(i - 1, j - 1), self.options.sub_cost, here) {
                collected.push(EditType::Sub);
                i = i - 1;
                j = j - 1;
                proof {
                    let rest = backtrace_from(cells, self.source@, self.target@, self.options, i as nat, j as nat);
                    assert(before == rest.push(EditType::Sub));
                    assert(collected@.reverse() =~= seq![EditType::Sub] + tail);
                    assert(before + tail =~= rest + collected@.reverse());
                }
            } else if i > 0 && j > 0 && self.matrix.get(i - 1, j - 1) == here {
                collected.push(EditType::Equal);
                i = i - 1;
                j = j - 1;
                proof {
                    let rest = backtrace_from(cells, self.source@, self.target@, self.options, i as nat, j as nat);
                    assert(before == rest.push(EditType::Equal));
                    assert(collected@.reverse() =~= seq![EditType::Equal] + tail);
                    assert(before + tail =~= rest + collected@.reverse());
                }
            } else {
                assert(before =~= Seq::<EditType>::empty());
                assert(before + tail =~= tail);
                break;
            }
        }
        reversed(collected)
    }
}

} // verus!
