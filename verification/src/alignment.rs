//! What an edit script does: where it ends on the two sequences, what it
//! costs, and what it makes of the source. The script that the library
//! gives ends where it should, reproduces the target, and is a cheapest one.
use vstd::prelude::*;
use crate::cost::cell_cost;
use crate::cost::cost_matrix;
use crate::cost::costs_fit;
use crate::cost::lemma_edge_costs;
use crate::cost::lemma_matrix_holds_cost;
use crate::cost::lemma_terminal_row_bounds;
use crate::cost::pair_cost;
use crate::cost::swapped;
use crate::cost::terminal_row;
use crate::cost::total_cost;
use crate::script::backtrace_from;
use crate::script::osa_script;
use crate::script::step_at;
use crate::EditType;
use crate::MatchFunction;
use crate::Options;

verus! {

/// Where a script ends: the number of code points of `s` that it has
/// consumed and the number of code points of `t` that it accounts for. The
/// script without its last step runs first. A match and a substitution then
/// take one code point of each sequence, and the match needs the two to
/// match. A deletion takes one of `s`, an insertion one of `t`. Two swap
/// steps together take two of each, which must be the same two in the other
/// order. There is no end where a step finds no code point to take, or a
/// swap step has no partner.
pub open spec fn script_end<E: MatchFunction>(
    script: Seq<EditType>,
    s: Seq<char>,
    t: Seq<char>,
    o: Options<E>,
) -> Option<(nat, nat)>
    decreases script.len(),
{
    if script.len() == 0 {
        Some((0nat, 0nat))
    } else if script.last() == EditType::Transpose {
        if script.len() >= 2 && script[script.len() - 2] == EditType::Transpose {
            match script_end(script.take(script.len() - 2), s, t, o) {
                Some((i, j)) => if i + 2 <= s.len() && j + 2 <= t.len() && swapped(s, t, i + 2, j + 2) {
                    Some((i + 2, j + 2))
                } else {
                    None
                },
                None => None,
            }
        } else {
            None
        }
    } else {
        match script_end(script.drop_last(), s, t, o) {
            Some((i, j)) => match script.last() {
                EditType::Equal => if i < s.len() && j < t.len() && o.equals.spec_matches(s[i as int], t[j as int]) {
                    Some((i + 1, j + 1))
                } else {
                    None
                },
                EditType::Sub => if i < s.len() && j < t.len() {
                    Some((i + 1, j + 1))
                } else {
                    None
                },
                EditType::Insert => if j < t.len() {
                    Some((i, j + 1))
                } else {
                    None
                },
                EditType::Delete => if i < s.len() {
                    Some((i + 1, j))
                } else {
                    None
                },
                EditType::Transpose => None,
            },
            None => None,
        }
    }
}

/// The script turns all of `s` into all of `t`.
pub open spec fn aligns<E: MatchFunction>(script: Seq<EditType>, s: Seq<char>, t: Seq<char>, o: Options<E>) -> bool {
    script_end(script, s, t, o) == Some((s.len(), t.len()))
}

/// What a script costs: the sum of the costs of its steps, where a match is
/// free and two swap steps together cost one swap.
pub open spec fn script_cost<E: MatchFunction>(script: Seq<EditType>, o: Options<E>) -> nat
    decreases script.len(),
{
    if script.len() == 0 {
        0
    } else if script.last() == EditType::Transpose && script.len() >= 2 && script[script.len() - 2]
        == EditType::Transpose {
        script_cost(script.take(script.len() - 2), o) + o.transp_cost as nat
    } else {
        script_cost(script.drop_last(), o) + match script.last() {
            EditType::Insert => o.ins_cost as nat,
            EditType::Delete => o.del_cost as nat,
            EditType::Sub => o.sub_cost as nat,
            EditType::Equal => 0nat,
            EditType::Transpose => o.transp_cost as nat,
        }
    }
}

/// How far a script gets on the source `s`: the number of code points of
/// `s` that it has consumed, and the output that it has written. The script
/// without its last step runs first. A match then copies the next code
/// point of the source, a deletion drops it, and two swap steps together
/// copy the next two the other way round. A substitution and an insertion
/// write the code point that `t` has at the place where the output ends,
/// the first in place of the next code point of the source. There is no
/// result where a step finds no code point to work on, or a swap step has
/// no partner.
pub open spec fn run_script(script: Seq<EditType>, s: Seq<char>, t: Seq<char>) -> Option<(nat, Seq<char>)>
    decreases script.len(),
{
    if script.len() == 0 {
        Some((0nat, Seq::empty()))
    } else if script.last() == EditType::Transpose {
        if script.len() >= 2 && script[script.len() - 2] == EditType::Transpose {
            match run_script(script.take(script.len() - 2), s, t) {
                Some((i, out)) => if i + 2 <= s.len() {
                    Some((i + 2, out.push(s[(i + 1) as int]).push(s[i as int])))
                } else {
                    None
                },
                None => None,
            }
        } else {
            None
        }
    } else {
        match run_script(script.drop_last(), s, t) {
            Some((i, out)) => match script.last() {
                EditType::Equal => if i < s.len() {
                    Some((i + 1, out.push(s[i as int])))
                } else {
                    None
                },
                EditType::Sub => if i < s.len() && out.len() < t.len() {
                    Some((i + 1, out.push(t[out.len() as int])))
                } else {
                    None
                },
                EditType::Insert => if out.len() < t.len() {
                    Some((i, out.push(t[out.len() as int])))
                } else {
                    None
                },
                EditType::Delete => if i < s.len() {
                    Some((i + 1, out))
                } else {
                    None
                },
                EditType::Transpose => None,
            },
            None => None,
        }
    }
}

/// What applying a script to the source `s` gives: the output that it has
/// written when it has consumed all of `s`.
pub open spec fn apply_script(script: Seq<EditType>, s: Seq<char>, t: Seq<char>) -> Option<Seq<char>> {
    match run_script(script, s, t) {
        Some((i, out)) => if i == s.len() {
            Some(out)
        } else {
            None
        },
        None => None,
    }
}

/// A swap that costs nothing is not told from no edit at all, so the walk
/// back may end on it before it reaches the origin. Here no such swap can
/// arise: swaps have a cost, or no two code points stand swapped.
pub open spec fn no_free_swap<E: MatchFunction>(s: Seq<char>, t: Seq<char>, o: Options<E>) -> bool {
    o.transp_cost == 0 ==> forall|i: nat, j: nat| i <= s.len() && j <= t.len() ==> !swapped(s, t, i, j)
}

/// Code points of the two sequences that match are the same.
pub open spec fn matches_are_identical<E: MatchFunction>(s: Seq<char>, t: Seq<char>, o: Options<E>) -> bool {
    forall|a: int, b: int| 0 <= a < s.len() && 0 <= b < t.len() && o.equals.spec_matches(s[a], t[b]) ==> s[a] == t[b]
}

/// On the cost matrix the walk back takes a step at every cell but the
/// origin, and a match only where the two code points match.
pub proof fn lemma_step_on_costs<E: MatchFunction>(s: Seq<char>, t: Seq<char>, o: Options<E>, i: nat, j: nat)
    requires
        i <= s.len(),
        j <= t.len(),
        costs_fit(s, t, o),
        no_free_swap(s, t, o),
    ensures
        i > 0 || j > 0 ==> step_at(cost_matrix(s, t, o), s, t, o, i, j) is Some,
        step_at(cost_matrix(s, t, o), s, t, o, i, j) == Some(EditType::Equal) ==> o.equals.spec_matches(
            s[i - 1],
            t[j - 1],
        ),
{
    lemma_matrix_holds_cost(s, t, o, i, j);
    if i > 0 {
        lemma_matrix_holds_cost(s, t, o, (i - 1) as nat, j);
    }
    if j > 0 {
        lemma_matrix_holds_cost(s, t, o, i, (j - 1) as nat);
    }
    if i > 0 && j > 0 {
        lemma_matrix_holds_cost(s, t, o, (i - 1) as nat, (j - 1) as nat);
    }
    if i > 1 && j > 1 {
        lemma_matrix_holds_cost(s, t, o, (i - 2) as nat, (j - 2) as nat);
    }
    let cells = cost_matrix(s, t, o);
    if i == 0 && j > 0 {
        assert((j - 1) * o.ins_cost + o.ins_cost == j * o.ins_cost) by (nonlinear_arith);
        assert(cells[0][j - 1] + o.ins_cost == cells[0][j as int]);
    } else if j == 0 && i > 0 {
        assert((i - 1) * o.del_cost + o.del_cost == i * o.del_cost) by (nonlinear_arith);
        lemma_edge_costs(s, t, o, (i - 1) as nat, 0);
        assert(cells[i - 1][0] + o.del_cost == cells[i as int][0]);
    } else if i > 0 && j > 0 {
        let cost = cell_cost(s, t, o, i, j);
        let deleted = cell_cost(s, t, o, (i - 1) as nat, j) + o.del_cost;
        let paired = cell_cost(s, t, o, (i - 1) as nat, (j - 1) as nat) + pair_cost(s, t, o, i, j);
        let inserted = cell_cost(s, t, o, i, (j - 1) as nat) + o.ins_cost;
        if swapped(s, t, i, j) {
            let moved = cell_cost(s, t, o, (i - 2) as nat, (j - 2) as nat) + o.transp_cost;
            assert(o.transp_cost > 0);
            assert(cost == deleted || cost == paired || cost == inserted || cost == moved);
        } else {
            assert(cost == deleted || cost == paired || cost == inserted);
        }
    }
}

/// The walk back from any cell of the cost matrix yields a script that ends
/// at that cell.
pub proof fn lemma_walk_ends_at_cell<E: MatchFunction>(s: Seq<char>, t: Seq<char>, o: Options<E>, i: nat, j: nat)
    requires
        i <= s.len(),
        j <= t.len(),
        costs_fit(s, t, o),
        no_free_swap(s, t, o),
    ensures
        script_end(backtrace_from(cost_matrix(s, t, o), s, t, o, i, j), s, t, o) == Some((i, j)),
    decreases i + j,
{
    let cells = cost_matrix(s, t, o);
    let script = backtrace_from(cells, s, t, o, i, j);
    lemma_step_on_costs(s, t, o, i, j);
    match step_at(cells, s, t, o, i, j) {
        Some(EditType::Transpose) => {
            let rest = backtrace_from(cells, s, t, o, (i - 2) as nat, (j - 2) as nat);
            lemma_walk_ends_at_cell(s, t, o, (i - 2) as nat, (j - 2) as nat);
            assert(script == rest.push(EditType::Transpose).push(EditType::Transpose));
            assert(script.take(script.len() - 2) =~= rest);
        },
        Some(EditType::Delete) => {
            let rest = backtrace_from(cells, s, t, o, (i - 1) as nat, j);
            lemma_walk_ends_at_cell(s, t, o, (i - 1) as nat, j);
            assert(script.drop_last() =~= rest);
        },
        Some(EditType::Insert) => {
            let rest = backtrace_from(cells, s, t, o, i, (j - 1) as nat);
            lemma_walk_ends_at_cell(s, t, o, i, (j - 1) as nat);
            assert(script.drop_last() =~= rest);
        },
        Some(EditType::Sub) => {
            let rest = backtrace_from(cells, s, t, o, (i - 1) as nat, (j - 1) as nat);
            lemma_walk_ends_at_cell(s, t, o, (i - 1) as nat, (j - 1) as nat);
            assert(script.drop_last() =~= rest);
        },
        Some(EditType::Equal) => {
            let rest = backtrace_from(cells, s, t, o, (i - 1) as nat, (j - 1) as nat);
            lemma_walk_ends_at_cell(s, t, o, (i - 1) as nat, (j - 1) as nat);
            assert(script.drop_last() =~= rest);
        },
        None => {},
    }
}

/// The edit script of two sequences turns the source, up to the terminal
/// row, into the target, where no swap is free.
pub proof fn lemma_script_aligns<E: MatchFunction>(s: Seq<char>, t: Seq<char>, o: Options<E>)
    requires
        costs_fit(s, t, o),
        no_free_swap(s, t, o),
    ensures
        script_end(osa_script(s, t, o), s, t, o) == Some((terminal_row(s, t, o), t.len())),
        terminal_row(s, t, o) == s.len() ==> aligns(osa_script(s, t, o), s, t, o),
{
    lemma_terminal_row_bounds(s, t, o);
    lemma_walk_ends_at_cell(s, t, o, terminal_row(s, t, o), t.len());
}

/// A script that ends at a cell, run on the source, consumes the source up
/// to the cell's row and writes the target up to its column, where code
/// points that match are the same.
pub proof fn lemma_run_writes_target<E: MatchFunction>(
    script: Seq<EditType>,
    s: Seq<char>,
    t: Seq<char>,
    o: Options<E>,
)
    requires
        script_end(script, s, t, o) is Some,
        matches_are_identical(s, t, o),
    ensures
        run_script(script, s, t) == Some(
            (script_end(script, s, t, o).unwrap().0, t.take(script_end(script, s, t, o).unwrap().1 as int)),
        ),
    decreases script.len(),
{
    let (i, j) = script_end(script, s, t, o).unwrap();
    if script.len() == 0 {
        assert(t.take(0) =~= Seq::<char>::empty());
    } else if script.last() == EditType::Transpose {
        lemma_run_writes_target(script.take(script.len() - 2), s, t, o);
        assert(t.take(j - 2).push(s[i - 1]).push(s[i - 2]) =~= t.take(j as int));
    } else {
        lemma_run_writes_target(script.drop_last(), s, t, o);
        match script.last() {
            EditType::Equal => {
                assert(t.take(j - 1).push(s[i - 1]) =~= t.take(j as int));
            },
            EditType::Sub => {
                assert(t.take(j - 1).push(t[j - 1]) =~= t.take(j as int));
            },
            EditType::Insert => {
                assert(t.take(j - 1).push(t[j - 1]) =~= t.take(j as int));
            },
            _ => {},
        }
    }
}

/// Applied to the source, the edit script of two sequences gives the
/// target, where no swap is free and code points that match are the same.
/// Where the terminal row lies above the last row, the script applies to
/// the part of the source above that row.
pub proof fn lemma_script_reproduces_target<E: MatchFunction>(s: Seq<char>, t: Seq<char>, o: Options<E>)
    requires
        costs_fit(s, t, o),
        no_free_swap(s, t, o),
        matches_are_identical(s, t, o),
    ensures
        apply_script(osa_script(s, t, o), s.take(terminal_row(s, t, o) as int), t) == Some(t),
        terminal_row(s, t, o) == s.len() ==> apply_script(osa_script(s, t, o), s, t) == Some(t),
{
    let r = terminal_row(s, t, o);
    lemma_terminal_row_bounds(s, t, o);
    lemma_script_aligns(s, t, o);
    lemma_run_writes_target(osa_script(s, t, o), s, t, o);
    lemma_run_reads_consumed(osa_script(s, t, o), s, t, r);
    assert(t.take(t.len() as int) =~= t);
    assert(s.take(s.len() as int) =~= s);
}

/// A script that consumes no more than `k` code points of the source gets
/// as far on the first `k` alone.
pub proof fn lemma_run_reads_consumed(script: Seq<EditType>, s: Seq<char>, t: Seq<char>, k: nat)
    requires
        k <= s.len(),
        run_script(script, s, t) matches Some(end) && end.0 <= k,
    ensures
        run_script(script, s.take(k as int), t) == run_script(script, s, t),
    decreases script.len(),
{
    if script.len() == 0 {
    } else if script.last() == EditType::Transpose {
        lemma_run_reads_consumed(script.take(script.len() - 2), s, t, k);
    } else {
        lemma_run_reads_consumed(script.drop_last(), s, t, k);
    }
}

/// No script that ends at a cell costs less than the cell holds.
pub proof fn lemma_cell_is_lower_bound<E: MatchFunction>(
    script: Seq<EditType>,
    s: Seq<char>,
    t: Seq<char>,
    o: Options<E>,
)
    requires
        script_end(script, s, t, o) is Some,
    ensures
        cell_cost(s, t, o, script_end(script, s, t, o).unwrap().0, script_end(script, s, t, o).unwrap().1)
            <= script_cost(script, o),
    decreases script.len(),
{
    let (i, j) = script_end(script, s, t, o).unwrap();
    lemma_edge_costs(s, t, o, i, j);
    if script.len() == 0 {
    } else if script.last() == EditType::Transpose {
        lemma_cell_is_lower_bound(script.take(script.len() - 2), s, t, o);
    } else {
        lemma_cell_is_lower_bound(script.drop_last(), s, t, o);
        if i > 0 {
            lemma_edge_costs(s, t, o, (i - 1) as nat, j);
            assert((i - 1) * o.del_cost + o.del_cost == i * o.del_cost) by (nonlinear_arith);
        }
        if j > 0 {
            lemma_edge_costs(s, t, o, i, (j - 1) as nat);
            assert((j - 1) * o.ins_cost + o.ins_cost == j * o.ins_cost) by (nonlinear_arith);
        }
    }
}

/// A script that ends at the cell in row `i` and column `j` and costs what
/// the cell holds: at each cell it takes a step that the cell's cost
/// comes from.
spec fn cheapest_script<E: MatchFunction>(s: Seq<char>, t: Seq<char>, o: Options<E>, i: nat, j: nat) -> Seq<EditType>
    decreases i + j,
{
    if i == 0 && j == 0 {
        Seq::empty()
    } else if i == 0 {
        cheapest_script(s, t, o, i, (j - 1) as nat).push(EditType::Insert)
    } else if j == 0 {
        cheapest_script(s, t, o, (i - 1) as nat, j).push(EditType::Delete)
    } else if swapped(s, t, i, j) && cell_cost(s, t, o, i, j) == cell_cost(s, t, o, (i - 2) as nat, (j - 2) as nat)
        + o.transp_cost {
        cheapest_script(s, t, o, (i - 2) as nat, (j - 2) as nat).push(EditType::Transpose).push(EditType::Transpose)
    } else if cell_cost(s, t, o, i, j) == cell_cost(s, t, o, (i - 1) as nat, j) + o.del_cost {
        cheapest_script(s, t, o, (i - 1) as nat, j).push(EditType::Delete)
    } else if cell_cost(s, t, o, i, j) == cell_cost(s, t, o, i, (j - 1) as nat) + o.ins_cost {
        cheapest_script(s, t, o, i, (j - 1) as nat).push(EditType::Insert)
    } else if o.equals.spec_matches(s[i - 1], t[j - 1]) {
        cheapest_script(s, t, o, (i - 1) as nat, (j - 1) as nat).push(EditType::Equal)
    } else {
        cheapest_script(s, t, o, (i - 1) as nat, (j - 1) as nat).push(EditType::Sub)
    }
}

proof fn lemma_cheapest_script<E: MatchFunction>(s: Seq<char>, t: Seq<char>, o: Options<E>, i: nat, j: nat)
    requires
        i <= s.len(),
        j <= t.len(),
    ensures
        script_end(cheapest_script(s, t, o, i, j), s, t, o) == Some((i, j)),
        script_cost(cheapest_script(s, t, o, i, j), o) == cell_cost(s, t, o, i, j),
    decreases i + j,
{
    let script = cheapest_script(s, t, o, i, j);
    lemma_edge_costs(s, t, o, i, j);
    if i == 0 && j == 0 {
    } else if i == 0 {
        let rest = cheapest_script(s, t, o, i, (j - 1) as nat);
        lemma_cheapest_script(s, t, o, i, (j - 1) as nat);
        lemma_edge_costs(s, t, o, i, (j - 1) as nat);
        assert((j - 1) * o.ins_cost + o.ins_cost == j * o.ins_cost) by (nonlinear_arith);
        assert(script.drop_last() =~= rest);
    } else if j == 0 {
        let rest = cheapest_script(s, t, o, (i - 1) as nat, j);
        lemma_cheapest_script(s, t, o, (i - 1) as nat, j);
        lemma_edge_costs(s, t, o, (i - 1) as nat, j);
        assert((i - 1) * o.del_cost + o.del_cost == i * o.del_cost) by (nonlinear_arith);
        assert(script.drop_last() =~= rest);
    } else if swapped(s, t, i, j) && cell_cost(s, t, o, i, j) == cell_cost(s, t, o, (i - 2) as nat, (j - 2) as nat)
        + o.transp_cost {
        let rest = cheapest_script(s, t, o, (i - 2) as nat, (j - 2) as nat);
        lemma_cheapest_script(s, t, o, (i - 2) as nat, (j - 2) as nat);
        assert(script == rest.push(EditType::Transpose).push(EditType::Transpose));
        assert(script.take(script.len() - 2) =~= rest);
    } else if cell_cost(s, t, o, i, j) == cell_cost(s, t, o, (i - 1) as nat, j) + o.del_cost {
        let rest = cheapest_script(s, t, o, (i - 1) as nat, j);
        lemma_cheapest_script(s, t, o, (i - 1) as nat, j);
        assert(script.drop_last() =~= rest);
    } else if cell_cost(s, t, o, i, j) == cell_cost(s, t, o, i, (j - 1) as nat) + o.ins_cost {
        let rest = cheapest_script(s, t, o, i, (j - 1) as nat);
        lemma_cheapest_script(s, t, o, i, (j - 1) as nat);
        assert(script.drop_last() =~= rest);
    } else {
        let rest = cheapest_script(s, t, o, (i - 1) as nat, (j - 1) as nat);
        lemma_cheapest_script(s, t, o, (i - 1) as nat, (j - 1) as nat);
        assert(script.drop_last() =~= rest);
    }
}

/// A cell of the cost matrix holds the least that a script can cost that
/// turns the source, up to the cell's row, into the target, up to its
/// column: some script costs as much, and none costs less.
pub proof fn lemma_cell_is_least_cost<E: MatchFunction>(s: Seq<char>, t: Seq<char>, o: Options<E>, i: nat, j: nat)
    requires
        i <= s.len(),
        j <= t.len(),
    ensures
        exists|script: Seq<EditType>|
            #[trigger] script_end(script, s, t, o) == Some((i, j)) && script_cost(script, o) == cell_cost(s, t, o, i, j),
        forall|script: Seq<EditType>|
            #[trigger] script_end(script, s, t, o) == Some((i, j)) ==> cell_cost(s, t, o, i, j) <= script_cost(
                script,
                o,
            ),
{
    lemma_cheapest_script(s, t, o, i, j);
    assert forall|script: Seq<EditType>| #[trigger] script_end(script, s, t, o) == Some((i, j)) implies cell_cost(
        s,
        t,
        o,
        i,
        j,
    ) <= script_cost(script, o) by {
        lemma_cell_is_lower_bound(script, s, t, o);
    }
}

/// The walk back from any cell of the cost matrix yields a script that
/// costs what the cell holds, where a swap costs one.
pub proof fn lemma_walk_costs_cell<E: MatchFunction>(s: Seq<char>, t: Seq<char>, o: Options<E>, i: nat, j: nat)
    requires
        i <= s.len(),
        j <= t.len(),
        costs_fit(s, t, o),
        o.transp_cost == 1,
    ensures
        script_cost(backtrace_from(cost_matrix(s, t, o), s, t, o, i, j), o) == cell_cost(s, t, o, i, j),
    decreases i + j,
{
    let cells = cost_matrix(s, t, o);
    let script = backtrace_from(cells, s, t, o, i, j);
    lemma_step_on_costs(s, t, o, i, j);
    lemma_matrix_holds_cost(s, t, o, i, j);
    lemma_edge_costs(s, t, o, i, j);
    match step_at(cells, s, t, o, i, j) {
        Some(EditType::Transpose) => {
            let rest = backtrace_from(cells, s, t, o, (i - 2) as nat, (j - 2) as nat);
            lemma_walk_costs_cell(s, t, o, (i - 2) as nat, (j - 2) as nat);
            lemma_matrix_holds_cost(s, t, o, (i - 2) as nat, (j - 2) as nat);
            assert(script == rest.push(EditType::Transpose).push(EditType::Transpose));
            assert(script.take(script.len() - 2) =~= rest);
        },
        Some(EditType::Delete) => {
            let rest = backtrace_from(cells, s, t, o, (i - 1) as nat, j);
            lemma_walk_costs_cell(s, t, o, (i - 1) as nat, j);
            lemma_matrix_holds_cost(s, t, o, (i - 1) as nat, j);
            assert(script.drop_last() =~= rest);
        },
        Some(EditType::Insert) => {
            let rest = backtrace_from(cells, s, t, o, i, (j - 1) as nat);
            lemma_walk_costs_cell(s, t, o, i, (j - 1) as nat);
            lemma_matrix_holds_cost(s, t, o, i, (j - 1) as nat);
            assert(script.drop_last() =~= rest);
        },
        Some(EditType::Sub) => {
            let rest = backtrace_from(cells, s, t, o, (i - 1) as nat, (j - 1) as nat);
            lemma_walk_costs_cell(s, t, o, (i - 1) as nat, (j - 1) as nat);
            lemma_matrix_holds_cost(s, t, o, (i - 1) as nat, (j - 1) as nat);
            assert(script.drop_last() =~= rest);
        },
        Some(EditType::Equal) => {
            let rest = backtrace_from(cells, s, t, o, (i - 1) as nat, (j - 1) as nat);
            lemma_walk_costs_cell(s, t, o, (i - 1) as nat, (j - 1) as nat);
            lemma_matrix_holds_cost(s, t, o, (i - 1) as nat, (j - 1) as nat);
            assert(script.drop_last() =~= rest);
        },
        None => {},
    }
}

/// The edit script of two sequences costs what the terminal cell holds,
/// and no script that ends at the terminal cell costs less, where a swap
/// costs one.
pub proof fn lemma_script_is_cheapest<E: MatchFunction>(
    s: Seq<char>,
    t: Seq<char>,
    o: Options<E>,
    other: Seq<EditType>,
)
    requires
        costs_fit(s, t, o),
        o.transp_cost == 1,
        script_end(other, s, t, o) == Some((terminal_row(s, t, o), t.len())),
    ensures
        script_end(osa_script(s, t, o), s, t, o) == Some((terminal_row(s, t, o), t.len())),
        script_cost(osa_script(s, t, o), o) == total_cost(s, t, o),
        script_cost(osa_script(s, t, o), o) <= script_cost(other, o),
{
    lemma_terminal_row_bounds(s, t, o);
    lemma_script_aligns(s, t, o);
    lemma_walk_costs_cell(s, t, o, terminal_row(s, t, o), t.len());
    lemma_cell_is_lower_bound(other, s, t, o);
}

} // verus!
