//! The cost matrix of the optimal string alignment distance, as mathematics.
use vstd::prelude::*;
use crate::MatchFunction;
use crate::Options;

verus! {

/// The smaller of two costs.
pub open spec fn least(a: nat, b: nat) -> nat {
    if a <= b {
        a
    } else {
        b
    }
}

/// The two code points that end the prefix of length `i` of `s` are the two
/// that end the prefix of length `j` of `t`, in the other order.
pub open spec fn swapped(s: Seq<char>, t: Seq<char>, i: nat, j: nat) -> bool {
    i > 1 && j > 1 && s[i - 1] == t[j - 2] && s[i - 2] == t[j - 1]
}

/// What the last code points of the two prefixes cost when one stands for
/// the other: nothing where they match, a substitution where they do not.
pub open spec fn pair_cost<E: MatchFunction>(s: Seq<char>, t: Seq<char>, o: Options<E>, i: nat, j: nat) -> nat
    recommends
        0 < i <= s.len(),
        0 < j <= t.len(),
{
    if o.equals.spec_matches(s[i - 1], t[j - 1]) {
        0
    } else {
        o.sub_cost as nat
    }
}

/// The cell in row `i` and column `j` of the cost matrix of `s` and `t`:
/// the cost of turning the first `i` code points of `s` into the first `j`
/// of `t`. The top row holds insertions only and the left column deletions
/// only. Every other cell is the cheapest of a deletion, a match or
/// substitution, and an insertion, each on top of the neighbouring cell it
/// comes from, and of a swap on top of the cell two rows up and two columns
/// left where the last two code points are swapped.
pub open spec fn cell_cost<E: MatchFunction>(s: Seq<char>, t: Seq<char>, o: Options<E>, i: nat, j: nat) -> nat
    recommends
        i <= s.len(),
        j <= t.len(),
    decreases i + j,
{
    if i == 0 {
        j * (o.ins_cost as nat)
    } else if j == 0 {
        i * (o.del_cost as nat)
    } else {
        let deleted = cell_cost(s, t, o, (i - 1) as nat, j) + o.del_cost as nat;
        let paired = cell_cost(s, t, o, (i - 1) as nat, (j - 1) as nat) + pair_cost(s, t, o, i, j);
        let inserted = cell_cost(s, t, o, i, (j - 1) as nat) + o.ins_cost as nat;
        let stepped = least(deleted, least(paired, inserted));
        if swapped(s, t, i, j) {
            least(stepped, cell_cost(s, t, o, (i - 2) as nat, (j - 2) as nat) + o.transp_cost as nat)
        } else {
            stepped
        }
    }
}

/// The sums that the recurrence forms for the cell in row `i` and column
/// `j` do not exceed `usize`.
pub open spec fn sums_fit<E: MatchFunction>(s: Seq<char>, t: Seq<char>, o: Options<E>, i: nat, j: nat) -> bool
    recommends
        0 < i <= s.len(),
        0 < j <= t.len(),
{
    &&& cell_cost(s, t, o, (i - 1) as nat, j) + o.del_cost <= usize::MAX
    &&& cell_cost(s, t, o, (i - 1) as nat, (j - 1) as nat) + pair_cost(s, t, o, i, j) <= usize::MAX
    &&& cell_cost(s, t, o, i, (j - 1) as nat) + o.ins_cost <= usize::MAX
    &&& swapped(s, t, i, j) ==> cell_cost(s, t, o, (i - 2) as nat, (j - 2) as nat) + o.transp_cost <= usize::MAX
}

/// No product or sum that is formed on the way to the cost matrix of `s`
/// and `t` exceeds `usize`: not along the top row and the left column, and
/// not for any other cell.
pub open spec fn costs_fit<E: MatchFunction>(s: Seq<char>, t: Seq<char>, o: Options<E>) -> bool {
    &&& s.len() * o.del_cost <= usize::MAX
    &&& t.len() * o.ins_cost <= usize::MAX
    &&& forall|i: nat, j: nat| 0 < i <= s.len() && 0 < j <= t.len() ==> #[trigger] sums_fit(s, t, o, i, j)
}

/// The whole cost matrix: one row more than `s` has code points, one column
/// more than `t` has.
pub open spec fn cost_matrix<E: MatchFunction>(s: Seq<char>, t: Seq<char>, o: Options<E>) -> Seq<Seq<usize>> {
    Seq::new(
        s.len() + 1,
        |i: int| Seq::new(t.len() + 1, |j: int| cell_cost(s, t, o, i as nat, j as nat) as usize),
    )
}

/// Row `r` is the first, among the rows from `t.len()` to `last`, to hold
/// the least cost that the last column has in them.
pub open spec fn is_first_min_row_upto<E: MatchFunction>(
    s: Seq<char>,
    t: Seq<char>,
    o: Options<E>,
    r: nat,
    last: nat,
) -> bool {
    &&& t.len() <= r <= last
    &&& forall|k: nat|
        t.len() <= k <= last ==> cell_cost(s, t, o, r, t.len()) <= #[trigger] cell_cost(s, t, o, k, t.len())
    &&& forall|k: nat|
        t.len() <= k < r ==> cell_cost(s, t, o, r, t.len()) < #[trigger] cell_cost(s, t, o, k, t.len())
}

/// Row `r` is the first, among the rows from `t.len()` on, to hold the least
/// cost of the last column.
pub open spec fn is_first_min_row<E: MatchFunction>(s: Seq<char>, t: Seq<char>, o: Options<E>, r: nat) -> bool {
    is_first_min_row_upto(s, t, o, r, s.len())
}

/// The row of the terminal cell. It is the last row, unless the options ask
/// for the least cost of a target that is shorter than the source: then it
/// is the first row that holds the least cost.
pub open spec fn terminal_row<E: MatchFunction>(s: Seq<char>, t: Seq<char>, o: Options<E>) -> nat {
    if o.min_cost_when_target_shorter && t.len() < s.len() {
        choose|r: nat| is_first_min_row(s, t, o, r)
    } else {
        s.len()
    }
}

/// The cost in the terminal cell.
pub open spec fn total_cost<E: MatchFunction>(s: Seq<char>, t: Seq<char>, o: Options<E>) -> nat {
    cell_cost(s, t, o, terminal_row(s, t, o), t.len())
}

/// The top row holds the costs of insertions only, the left column those
/// of deletions only.
pub proof fn lemma_edge_costs<E: MatchFunction>(s: Seq<char>, t: Seq<char>, o: Options<E>, i: nat, j: nat)
    ensures
        cell_cost(s, t, o, 0, j) == j * o.ins_cost,
        cell_cost(s, t, o, i, 0) == i * o.del_cost,
{
    assert(0 * o.ins_cost == 0) by (nonlinear_arith);
    assert(0 * o.del_cost == 0) by (nonlinear_arith);
}

/// No cell costs more than deleting its whole source prefix and inserting
/// its whole target prefix.
pub proof fn lemma_cell_cost_bound<E: MatchFunction>(s: Seq<char>, t: Seq<char>, o: Options<E>, i: nat, j: nat)
    ensures
        cell_cost(s, t, o, i, j) <= i * o.del_cost + j * o.ins_cost,
    decreases i + j,
{
    if i == 0 || j == 0 {
        assert(0 * o.del_cost == 0);
        assert(0 * o.ins_cost == 0);
    } else {
        lemma_cell_cost_bound(s, t, o, (i - 1) as nat, j);
        assert((i - 1) * o.del_cost + o.del_cost == i * o.del_cost) by (nonlinear_arith);
    }
}

/// The costs fit where deleting all of the source, inserting all of the
/// target, one substitution and one swap together do not exceed `usize`.
pub proof fn lemma_bounded_costs_fit<E: MatchFunction>(s: Seq<char>, t: Seq<char>, o: Options<E>)
    requires
        s.len() * o.del_cost + t.len() * o.ins_cost + o.sub_cost + o.transp_cost <= usize::MAX,
    ensures
        costs_fit(s, t, o),
{
    let d = o.del_cost as int;
    let n = o.ins_cost as int;
    assert(0 <= s.len() * d && 0 <= t.len() * n) by (nonlinear_arith)
        requires
            0 <= d,
            0 <= n,
    ;
    assert forall|i: nat, j: nat| 0 < i <= s.len() && 0 < j <= t.len() implies #[trigger] sums_fit(s, t, o, i, j) by {
        lemma_cell_cost_bound(s, t, o, (i - 1) as nat, j);
        lemma_cell_cost_bound(s, t, o, (i - 1) as nat, (j - 1) as nat);
        lemma_cell_cost_bound(s, t, o, i, (j - 1) as nat);
        if i > 1 && j > 1 {
            lemma_cell_cost_bound(s, t, o, (i - 2) as nat, (j - 2) as nat);
        }
        assert(i * d <= s.len() * d) by (nonlinear_arith)
            requires
                i <= s.len(),
                0 <= d,
        ;
        assert(j * n <= t.len() * n) by (nonlinear_arith)
            requires
                j <= t.len(),
                0 <= n,
        ;
        assert((i - 1) * d + d == i * d) by (nonlinear_arith);
        assert((i - 2) * d + d + d == i * d) by (nonlinear_arith);
        assert((j - 1) * n + n == j * n) by (nonlinear_arith);
        assert((j - 2) * n + n + n == j * n) by (nonlinear_arith);
        assert(0 <= (i - 1) * d && 0 <= (j - 1) * n) by (nonlinear_arith)
            requires
                i >= 1,
                j >= 1,
                0 <= d,
                0 <= n,
        ;
        assert(i > 1 && j > 1 ==> 0 <= (i - 2) * d && 0 <= (j - 2) * n) by (nonlinear_arith)
            requires
                0 <= d,
                0 <= n,
        ;
    }
}

/// Where the costs fit, so does every sum that the recurrence forms for a
/// cell of the matrix, and the cell itself.
pub proof fn lemma_candidates_fit<E: MatchFunction>(s: Seq<char>, t: Seq<char>, o: Options<E>, i: nat, j: nat)
    requires
        0 < i <= s.len(),
        0 < j <= t.len(),
        costs_fit(s, t, o),
    ensures
        sums_fit(s, t, o, i, j),
        cell_cost(s, t, o, i, j) <= usize::MAX,
{
    assert(sums_fit(s, t, o, i, j));
}

/// Where the costs fit, so do the costs along the top row and the left
/// column.
pub proof fn lemma_edges_fit<E: MatchFunction>(s: Seq<char>, t: Seq<char>, o: Options<E>, i: nat, j: nat)
    requires
        i <= s.len(),
        j <= t.len(),
        costs_fit(s, t, o),
    ensures
        i * o.del_cost <= usize::MAX,
        j * o.ins_cost <= usize::MAX,
{
    let d = o.del_cost as int;
    let c = o.ins_cost as int;
    assert(0 <= i * d <= s.len() * d) by (nonlinear_arith)
        requires
            0 <= i <= s.len(),
            0 <= d,
    ;
    assert(0 <= j * c <= t.len() * c) by (nonlinear_arith)
        requires
            0 <= j <= t.len(),
            0 <= c,
    ;
}

/// No two rows are both the first to hold the least cost of the last
/// column: the row that is, is the terminal row.
pub proof fn lemma_first_min_row_unique<E: MatchFunction>(s: Seq<char>, t: Seq<char>, o: Options<E>, r: nat)
    requires
        o.min_cost_when_target_shorter,
        t.len() < s.len(),
        is_first_min_row(s, t, o, r),
    ensures
        terminal_row(s, t, o) == r,
{
    let c = terminal_row(s, t, o);
    assert(is_first_min_row(s, t, o, c));
    if c < r {
        assert(cell_cost(s, t, o, r, t.len()) < cell_cost(s, t, o, c, t.len()));
        assert(cell_cost(s, t, o, c, t.len()) <= cell_cost(s, t, o, r, t.len()));
    }
    if r < c {
        assert(cell_cost(s, t, o, c, t.len()) < cell_cost(s, t, o, r, t.len()));
        assert(cell_cost(s, t, o, r, t.len()) <= cell_cost(s, t, o, c, t.len()));
    }
}

/// The terminal row is a row of the matrix. Where the least cost of a
/// shorter target is asked for, it is the first row, from the target's
/// length on, that holds the least cost of the last column.
pub proof fn lemma_terminal_row_bounds<E: MatchFunction>(s: Seq<char>, t: Seq<char>, o: Options<E>)
    ensures
        terminal_row(s, t, o) <= s.len(),
        o.min_cost_when_target_shorter && t.len() < s.len() ==> is_first_min_row(s, t, o, terminal_row(s, t, o)),
{
    if o.min_cost_when_target_shorter && t.len() < s.len() {
        lemma_first_min_row_exists(s, t, o, s.len());
        let r = choose|r: nat| is_first_min_row_upto(s, t, o, r, s.len());
        assert(is_first_min_row(s, t, o, r));
    }
}

proof fn lemma_first_min_row_exists<E: MatchFunction>(s: Seq<char>, t: Seq<char>, o: Options<E>, last: nat)
    requires
        t.len() <= last,
    ensures
        exists|r: nat| is_first_min_row_upto(s, t, o, r, last),
    decreases last,
{
    if last == t.len() {
        assert(is_first_min_row_upto(s, t, o, last, last));
    } else {
        let before = (last - 1) as nat;
        lemma_first_min_row_exists(s, t, o, before);
        let r = choose|r: nat| is_first_min_row_upto(s, t, o, r, before);
        if cell_cost(s, t, o, last, t.len()) < cell_cost(s, t, o, r, t.len()) {
            assert(is_first_min_row_upto(s, t, o, last, last));
        } else {
            assert(is_first_min_row_upto(s, t, o, r, last));
        }
    }
}

/// Where the costs fit, the cost matrix holds every cell's cost as it is.
pub proof fn lemma_matrix_holds_cost<E: MatchFunction>(s: Seq<char>, t: Seq<char>, o: Options<E>, i: nat, j: nat)
    requires
        i <= s.len(),
        j <= t.len(),
        costs_fit(s, t, o),
    ensures
        cost_matrix(s, t, o)[i as int][j as int] == cell_cost(s, t, o, i, j),
{
    if i > 0 && j > 0 {
        lemma_candidates_fit(s, t, o, i, j);
    } else {
        lemma_edges_fit(s, t, o, i, j);
        lemma_edge_costs(s, t, o, i, j);
    }
}

/// Whether a code point of `s` matches one of `t` does not depend on which
/// of the two is named first.
pub open spec fn matches_both_ways<E: MatchFunction>(s: Seq<char>, t: Seq<char>, o: Options<E>) -> bool {
    forall|a: int, b: int|
        0 <= a < s.len() && 0 <= b < t.len() ==> o.equals.spec_matches(s[a], t[b]) == o.equals.spec_matches(
            t[b],
            s[a],
        )
}

/// With deletions priced as insertions, and matches that do not depend on
/// the order of the two code points, a cell costs what the mirrored cell
/// costs once source and target change places.
pub proof fn lemma_cell_cost_symmetric<E: MatchFunction>(s: Seq<char>, t: Seq<char>, o: Options<E>, i: nat, j: nat)
    requires
        i <= s.len(),
        j <= t.len(),
        o.ins_cost == o.del_cost,
        matches_both_ways(s, t, o),
    ensures
        cell_cost(s, t, o, i, j) == cell_cost(t, s, o, j, i),
    decreases i + j,
{
    if i > 0 && j > 0 {
        assert(o.equals.spec_matches(s[i - 1], t[j - 1]) == o.equals.spec_matches(t[j - 1], s[i - 1]));
        lemma_cell_cost_symmetric(s, t, o, (i - 1) as nat, j);
        lemma_cell_cost_symmetric(s, t, o, (i - 1) as nat, (j - 1) as nat);
        lemma_cell_cost_symmetric(s, t, o, i, (j - 1) as nat);
        if i > 1 && j > 1 {
            lemma_cell_cost_symmetric(s, t, o, (i - 2) as nat, (j - 2) as nat);
        }
    }
}

/// The total cost is the same in both directions, where deletions are
/// priced as insertions, matches do not depend on the order of the two
/// code points, and the terminal cell is the last: the least cost of a
/// shorter target is not asked for, or the two sequences are equally long.
pub proof fn lemma_total_cost_symmetric<E: MatchFunction>(s: Seq<char>, t: Seq<char>, o: Options<E>)
    requires
        o.ins_cost == o.del_cost,
        matches_both_ways(s, t, o),
        !o.min_cost_when_target_shorter || s.len() == t.len(),
    ensures
        total_cost(s, t, o) == total_cost(t, s, o),
{
    lemma_cell_cost_symmetric(s, t, o, s.len(), t.len());
}

} // verus!
