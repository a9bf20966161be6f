//! Edit scripts, as mathematics: how one is read off a cost matrix, and
//! what it does to the source it is applied to.
use vstd::prelude::*;
use crate::cost::cell_cost;
use crate::cost::cost_matrix;
use crate::cost::costs_fit;
use crate::cost::lemma_edge_costs;
use crate::cost::lemma_matrix_holds_cost;
use crate::cost::pair_cost;
use crate::cost::swapped;
use crate::cost::terminal_row;
use crate::EditType;
use crate::MatchFunction;
use crate::Options;

verus! {

/// The step that the walk back takes at the cell in row `i` and column `j`
/// of `cells`: the first that the costs allow of a swap, a deletion, an
/// insertion, a substitution and a match. A swap needs the last two code
/// points swapped and a lower cost two rows up and two columns left; each of
/// the others needs the cell that it comes from to hold the cost of this
/// cell less its own. Where the costs allow none, there is no step.
pub open spec fn step_at<E: MatchFunction>(
    cells: Seq<Seq<usize>>,
    s: Seq<char>,
    t: Seq<char>,
    o: Options<E>,
    i: nat,
    j: nat,
) -> Option<EditType>
    recommends
        i <= s.len(),
        j <= t.len(),
{
    if swapped(s, t, i, j) && cells[i - 2][j - 2] < cells[i as int][j as int] {
        Some(EditType::Transpose)
    } else if i > 0 && cells[i - 1][j as int] + o.del_cost == cells[i as int][j as int] {
        Some(EditType::Delete)
    } else if j > 0 && cells[i as int][j - 1] + o.ins_cost == cells[i as int][j as int] {
        Some(EditType::Insert)
    } else if i > 0 && j > 0 && cells[i - 1][j - 1] + o.sub_cost == cells[i as int][j as int] {
        Some(EditType::Sub)
    } else if i > 0 && j > 0 && cells[i - 1][j - 1] == cells[i as int][j as int] {
        Some(EditType::Equal)
    } else {
        None
    }
}

/// The script that the walk back from the cell in row `i` and column `j` of
/// `cells` yields, in the order in which it applies to the source. Each
/// step of the walk ends the script of the cell that it comes from: a swap
/// with two entries, from two rows up and two columns left; a deletion from
/// the row above; an insertion from the column to the left; a substitution
/// and a match from both. The walk ends where there is no step.
pub open spec fn backtrace_from<E: MatchFunction>(
    cells: Seq<Seq<usize>>,
    s: Seq<char>,
    t: Seq<char>,
    o: Options<E>,
    i: nat,
    j: nat,
) -> Seq<EditType>
    recommends
        i <= s.len(),
        j <= t.len(),
    decreases i + j,
{
    match step_at(cells, s, t, o, i, j) {
        Some(EditType::Transpose) => backtrace_from(cells, s, t, o, (i - 2) as nat, (j - 2) as nat).push(
            EditType::Transpose,
        ).push(EditType::Transpose),
        Some(EditType::Delete) => backtrace_from(cells, s, t, o, (i - 1) as nat, j).push(EditType::Delete),
        Some(EditType::Insert) => backtrace_from(cells, s, t, o, i, (j - 1) as nat).push(EditType::Insert),
        Some(EditType::Sub) => backtrace_from(cells, s, t, o, (i - 1) as nat, (j - 1) as nat).push(EditType::Sub),
        Some(EditType::Equal) => backtrace_from(cells, s, t, o, (i - 1) as nat, (j - 1) as nat).push(
            EditType::Equal,
        ),
        None => Seq::empty(),
    }
}

/// The edit script of `s` and `t`: the walk back from the terminal cell of
/// their cost matrix.
pub open spec fn osa_script<E: MatchFunction>(s: Seq<char>, t: Seq<char>, o: Options<E>) -> Seq<EditType> {
    backtrace_from(cost_matrix(s, t, o), s, t, o, terminal_row(s, t, o), t.len())
}

/// Every swap entry of the script has its partner next to it.
pub open spec fn swaps_paired(script: Seq<EditType>) -> bool
    decreases script.len(),
{
    if script.len() == 0 {
        true
    } else if script.last() == EditType::Transpose {
        script.len() >= 2 && script[script.len() - 2] == EditType::Transpose && swaps_paired(
            script.take(script.len() - 2),
        )
    } else {
        swaps_paired(script.drop_last())
    }
}

/// Whatever the cells hold, the walk back from a cell takes no more steps
/// than the cell has rows above and columns to its left, and its swap
/// entries come in pairs.
pub proof fn lemma_walk_is_short_and_paired<E: MatchFunction>(
    cells: Seq<Seq<usize>>,
    s: Seq<char>,
    t: Seq<char>,
    o: Options<E>,
    i: nat,
    j: nat,
)
    ensures
        backtrace_from(cells, s, t, o, i, j).len() <= i + j,
        swaps_paired(backtrace_from(cells, s, t, o, i, j)),
    decreases i + j,
{
    let script = backtrace_from(cells, s, t, o, i, j);
    match step_at(cells, s, t, o, i, j) {
        Some(EditType::Transpose) => {
            let rest = backtrace_from(cells, s, t, o, (i - 2) as nat, (j - 2) as nat);
            lemma_walk_is_short_and_paired(cells, s, t, o, (i - 2) as nat, (j - 2) as nat);
            assert(script == rest.push(EditType::Transpose).push(EditType::Transpose));
            assert(script.take(script.len() - 2) =~= rest);
        },
        Some(EditType::Delete) => {
            let rest = backtrace_from(cells, s, t, o, (i - 1) as nat, j);
            lemma_walk_is_short_and_paired(cells, s, t, o, (i - 1) as nat, j);
            assert(script.drop_last() =~= rest);
        },
        Some(EditType::Insert) => {
            let rest = backtrace_from(cells, s, t, o, i, (j - 1) as nat);
            lemma_walk_is_short_and_paired(cells, s, t, o, i, (j - 1) as nat);
            assert(script.drop_last() =~= rest);
        },
        Some(EditType::Sub) => {
            let rest = backtrace_from(cells, s, t, o, (i - 1) as nat, (j - 1) as nat);
            lemma_walk_is_short_and_paired(cells, s, t, o, (i - 1) as nat, (j - 1) as nat);
            assert(script.drop_last() =~= rest);
        },
        Some(EditType::Equal) => {
            let rest = backtrace_from(cells, s, t, o, (i - 1) as nat, (j - 1) as nat);
            lemma_walk_is_short_and_paired(cells, s, t, o, (i - 1) as nat, (j - 1) as nat);
            assert(script.drop_last() =~= rest);
        },
        None => {},
    }
}

/// The script of `n` entries that are all `op`.
pub open spec fn repeated(op: EditType, n: nat) -> Seq<EditType> {
    Seq::new(n, |k: int| op)
}

/// Along the top row the walk back inserts only.
proof fn lemma_walk_along_top_row<E: MatchFunction>(s: Seq<char>, t: Seq<char>, o: Options<E>, j: nat)
    requires
        j <= t.len(),
        costs_fit(s, t, o),
    ensures
        backtrace_from(cost_matrix(s, t, o), s, t, o, 0, j) == repeated(EditType::Insert, j),
    decreases j,
{
    let cells = cost_matrix(s, t, o);
    if j > 0 {
        lemma_matrix_holds_cost(s, t, o, 0, j);
        lemma_matrix_holds_cost(s, t, o, 0, (j - 1) as nat);
        assert((j - 1) * o.ins_cost + o.ins_cost == j * o.ins_cost) by (nonlinear_arith);
        assert(step_at(cells, s, t, o, 0, j) == Some(EditType::Insert));
        lemma_walk_along_top_row(s, t, o, (j - 1) as nat);
        assert(repeated(EditType::Insert, (j - 1) as nat).push(EditType::Insert) =~= repeated(EditType::Insert, j));
    } else {
        assert(backtrace_from(cells, s, t, o, 0, 0) =~= repeated(EditType::Insert, 0));
    }
}

/// Down the left column the walk back deletes only.
proof fn lemma_walk_down_left_column<E: MatchFunction>(s: Seq<char>, t: Seq<char>, o: Options<E>, i: nat)
    requires
        i <= s.len(),
        costs_fit(s, t, o),
    ensures
        backtrace_from(cost_matrix(s, t, o), s, t, o, i, 0) == repeated(EditType::Delete, i),
    decreases i,
{
    let cells = cost_matrix(s, t, o);
    if i > 0 {
        lemma_matrix_holds_cost(s, t, o, i, 0);
        lemma_matrix_holds_cost(s, t, o, (i - 1) as nat, 0);
        assert((i - 1) * o.del_cost + o.del_cost == i * o.del_cost) by (nonlinear_arith);
        lemma_edge_costs(s, t, o, (i - 1) as nat, 0);
        assert(step_at(cells, s, t, o, i, 0) == Some(EditType::Delete));
        lemma_walk_down_left_column(s, t, o, (i - 1) as nat);
        assert(repeated(EditType::Delete, (i - 1) as nat).push(EditType::Delete) =~= repeated(EditType::Delete, i));
    } else {
        assert(backtrace_from(cells, s, t, o, 0, 0) =~= repeated(EditType::Delete, 0));
    }
}

/// The edit script from the empty sequence inserts every code point of the
/// target.
pub proof fn lemma_script_from_empty<E: MatchFunction>(s: Seq<char>, t: Seq<char>, o: Options<E>)
    requires
        s.len() == 0,
        costs_fit(s, t, o),
    ensures
        osa_script(s, t, o) == repeated(EditType::Insert, t.len()),
{
    lemma_walk_along_top_row(s, t, o, t.len());
}

/// The edit script to the empty sequence deletes every code point of the
/// source. Where the options ask for the least cost of a shorter target,
/// the terminal row is the top row and the script is empty, so this holds
/// of the empty source only.
pub proof fn lemma_script_to_empty<E: MatchFunction>(s: Seq<char>, t: Seq<char>, o: Options<E>)
    requires
        t.len() == 0,
        costs_fit(s, t, o),
        !o.min_cost_when_target_shorter || s.len() == 0,
    ensures
        osa_script(s, t, o) == repeated(EditType::Delete, s.len()),
{
    lemma_walk_down_left_column(s, t, o, s.len());
}

/// Every code point of the sequence matches itself.
pub open spec fn matches_itself<E: MatchFunction>(s: Seq<char>, o: Options<E>) -> bool {
    forall|k: int| 0 <= k < s.len() ==> o.equals.spec_matches(#[trigger] s[k], s[k])
}

/// A sequence whose code points match themselves costs nothing to turn
/// into itself.
proof fn lemma_diagonal_is_free<E: MatchFunction>(s: Seq<char>, o: Options<E>, i: nat)
    requires
        i <= s.len(),
        matches_itself(s, o),
    ensures
        cell_cost(s, s, o, i, i) == 0,
    decreases i,
{
    if i > 0 {
        lemma_diagonal_is_free(s, o, (i - 1) as nat);
        assert(o.equals.spec_matches(s[i - 1], s[i - 1]));
        assert(pair_cost(s, s, o, i, i) == 0);
    } else {
        assert(0 * o.ins_cost == 0);
    }
}

/// Along the diagonal of the matrix of a sequence and itself the walk back
/// matches only.
proof fn lemma_walk_along_diagonal<E: MatchFunction>(s: Seq<char>, o: Options<E>, i: nat)
    requires
        i <= s.len(),
        costs_fit(s, s, o),
        o.ins_cost > 0,
        o.del_cost > 0,
        o.sub_cost > 0,
        matches_itself(s, o),
    ensures
        backtrace_from(cost_matrix(s, s, o), s, s, o, i, i) == repeated(EditType::Equal, i),
    decreases i,
{
    let cells = cost_matrix(s, s, o);
    if i > 0 {
        lemma_matrix_holds_cost(s, s, o, i, i);
        lemma_matrix_holds_cost(s, s, o, (i - 1) as nat, (i - 1) as nat);
        lemma_diagonal_is_free(s, o, i);
        lemma_diagonal_is_free(s, o, (i - 1) as nat);
        if i > 1 {
            lemma_matrix_holds_cost(s, s, o, (i - 2) as nat, (i - 2) as nat);
            lemma_diagonal_is_free(s, o, (i - 2) as nat);
        }
        assert(step_at(cells, s, s, o, i, i) == Some(EditType::Equal));
        lemma_walk_along_diagonal(s, o, (i - 1) as nat);
        assert(repeated(EditType::Equal, (i - 1) as nat).push(EditType::Equal) =~= repeated(EditType::Equal, i));
    } else {
        assert(backtrace_from(cells, s, s, o, 0, 0) =~= repeated(EditType::Equal, 0));
    }
}

/// The edit script of a sequence and itself matches every code point, where
/// each matches itself and an insertion, a deletion and a substitution
/// have a cost.
pub proof fn lemma_script_of_same<E: MatchFunction>(s: Seq<char>, o: Options<E>)
    requires
        costs_fit(s, s, o),
        o.ins_cost > 0,
        o.del_cost > 0,
        o.sub_cost > 0,
        matches_itself(s, o),
    ensures
        osa_script(s, s, o) == repeated(EditType::Equal, s.len()),
{
    lemma_walk_along_diagonal(s, o, s.len());
}

} // verus!
