//! Edit scripts between two code-point sequences under the optimal string
//! alignment distance: insertions, deletions, substitutions and swaps of two
//! adjacent code points, each with a configurable cost.
use vstd::prelude::*;
use crate::alignment::apply_script;
use crate::alignment::lemma_script_aligns;
use crate::alignment::lemma_script_reproduces_target;
use crate::alignment::lemma_walk_costs_cell;
use crate::alignment::matches_are_identical;
use crate::alignment::no_free_swap;
use crate::alignment::script_cost;
use crate::alignment::script_end;
use crate::cost::cost_matrix;
use crate::cost::costs_fit;
use crate::cost::lemma_first_min_row_unique;
use crate::cost::lemma_terminal_row_bounds;
use crate::cost::terminal_row;
use crate::cost::total_cost;
use crate::osa::Matrix;
use crate::osa::Osa;
use crate::script::lemma_script_from_empty;
use crate::script::lemma_script_of_same;
use crate::script::lemma_script_to_empty;
use crate::script::matches_itself;
use crate::script::osa_script;
use crate::script::repeated;
use crate::script::swaps_paired;

pub mod alignment;
pub mod cost;
pub mod grid;
pub mod osa;
pub mod script;
pub mod vec;

verus! {

/// One step of an edit script.
#[derive(Debug, PartialEq, Eq, Structural)]
pub enum EditType {
    Insert,
    Delete,
    Sub,
    Equal,
    Transpose,
}

/// The storage strategies a cost matrix can be kept in.
#[derive(Copy, Clone)]
pub enum MatrixType {
    Vec,
    Grid,
}

pub type EditScript = Vec<EditType>;

/// A predicate on two code points that decides whether they count as a
/// match, which costs nothing.
pub trait MatchFunction {
    /// The relation that the predicate decides.
    spec fn spec_matches(&self, a: char, b: char) -> bool;

    /// Decides the relation for two code points.
    fn matches(&self, a: char, b: char) -> (r: bool)
        ensures
            r == self.spec_matches(a, b),
    ;
}

/// Two code points are identical.
pub fn identical_chars(a: char, b: char) -> (r: bool)
    ensures
        r == (a == b),
{
    a == b
}

/// The match predicate under which a code point matches only itself.
#[derive(Copy, Clone)]
pub struct IdenticalChars;

impl MatchFunction for IdenticalChars {
    open spec fn spec_matches(&self, a: char, b: char) -> bool {
        a == b
    }

    fn matches(&self, a: char, b: char) -> (r: bool) {
        identical_chars(a, b)
    }
}

/// The cost of each kind of edit, the predicate that defines a match, and
/// whether a target shorter than the source is matched against the part of
/// the source that it is cheapest to reach.
#[derive(Copy, Clone)]
pub struct Options<E = IdenticalChars> {
    pub ins_cost: usize,
    pub del_cost: usize,
    pub sub_cost: usize,
    pub transp_cost: usize,
    pub equals: E,
    pub min_cost_when_target_shorter: bool,
}

/// Unit cost for every edit, identity as the match, and the terminal cell
/// in the last row.
pub fn default_options() -> (o: Options)
    ensures
        o.ins_cost == 1,
        o.del_cost == 1,
        o.sub_cost == 1,
        o.transp_cost == 1,
        !o.min_cost_when_target_shorter,
{
    Options {
        ins_cost: 1,
        del_cost: 1,
        sub_cost: 1,
        transp_cost: 1,
        equals: IdenticalChars,
        min_cost_when_target_shorter: false,
    }
}

/// The default options, with the substitution at its unit cost spelled out.
pub fn default_options_with_sub() -> (o: Options)
    ensures
        o.ins_cost == 1,
        o.del_cost == 1,
        o.sub_cost == 1,
        o.transp_cost == 1,
        !o.min_cost_when_target_shorter,
{
    Options {
        ins_cost: 1,
        del_cost: 1,
        sub_cost: 1,
        transp_cost: 1,
        equals: IdenticalChars,
        min_cost_when_target_shorter: false,
    }
}

/// The code points of a string, in order.
pub fn chars_of(s: &str) -> (v: Vec<char>)
    ensures
        v@ == s@,
{
    let mut v: Vec<char> = Vec::new();
    for c in it: s.chars()
        invariant
            v@ == it.seq().take(it.index()),
    {
        v.push(c);
    }
    v
}

/// The computation for two strings, over a matrix of their full dimensions.
fn session<T, E>(source: &str, target: &str, options: Options<E>) -> (osa: Osa<T, E>) where
    T: Matrix,
    E: MatchFunction,

    requires
        (source@.len() + 1) * (target@.len() + 1) <= usize::MAX,
    ensures
        osa.wf(),
        osa.source() == source@,
        osa.target() == target@,
        osa.options() == options,
        osa.matrix().size().0 == source@.len() + 1,
        osa.matrix().size().1 == target@.len() + 1,
{
    let source = chars_of(source);
    let target = chars_of(target);
    assert(source@.len() + 1 <= usize::MAX && target@.len() + 1 <= usize::MAX) by (nonlinear_arith)
        requires
            (source@.len() + 1) * (target@.len() + 1) <= usize::MAX,
    ;
    let matrix = T::new(source.len() + 1, target.len() + 1);
    Osa::new(source, target, options, matrix)
}

/// The edit script that turns `source` into `target`: the walk back from the
/// terminal cell of their cost matrix. It has no more entries than the two
/// strings have code points, and its swap entries come in pairs. Where no
/// swap is free, the script ends at the terminal cell; where, besides, code
/// points that match are the same and the terminal cell lies in the last
/// row, the script applied to the source gives the target. Where a swap
/// costs one, the script costs what the terminal cell holds, which is the
/// least that such a script can cost. From the empty source it inserts
/// only, to the empty target it deletes only, and a sequence turns into
/// itself by matches only.
pub fn get_script<T, E>(source: &str, target: &str, options: Options<E>) -> (script: EditScript) where
    T: Matrix,
    E: MatchFunction,

    requires
        (source@.len() + 1) * (target@.len() + 1) <= usize::MAX,
        costs_fit(source@, target@, options),
    ensures
        script@ == osa_script(source@, target@, options),
        script@.len() <= source@.len() + target@.len(),
        swaps_paired(script@),
        no_free_swap(source@, target@, options) ==> script_end(script@, source@, target@, options) == Some(
            (terminal_row(source@, target@, options), target@.len()),
        ),
        no_free_swap(source@, target@, options) && matches_are_identical(source@, target@, options)
            && terminal_row(source@, target@, options) == source@.len() ==> apply_script(script@, source@, target@)
            == Some(target@),
        options.transp_cost == 1 ==> script_cost(script@, options) == total_cost(source@, target@, options),
        source@.len() == 0 ==> script@ == repeated(EditType::Insert, target@.len()),
        target@.len() == 0 && (!options.min_cost_when_target_shorter || source@.len() == 0) ==> script@
            == repeated(EditType::Delete, source@.len()),
        source@ == target@ && options.ins_cost > 0 && options.del_cost > 0 && options.sub_cost > 0
            && matches_itself(source@, options) ==> script@ == repeated(EditType::Equal, source@.len()),
{
    let ghost o = options;
    let mut osa = session::<T, E>(source, target, options);
    let script = osa.edit_script_for_strings();
    proof {
        if o.min_cost_when_target_shorter && target@.len() < source@.len() {
            lemma_first_min_row_unique(source@, target@, o, osa.terminal());
        }
        lemma_terminal_row_bounds(source@, target@, o);
        if no_free_swap(source@, target@, o) {
            lemma_script_aligns(source@, target@, o);
            if matches_are_identical(source@, target@, o) {
                lemma_script_reproduces_target(source@, target@, o);
            }
        }
        if o.transp_cost == 1 {
            lemma_walk_costs_cell(source@, target@, o, terminal_row(source@, target@, o), target@.len());
        }
        if source@.len() == 0 {
            lemma_script_from_empty(source@, target@, o);
        }
        if target@.len() == 0 && (!o.min_cost_when_target_shorter || source@.len() == 0) {
            lemma_script_to_empty(source@, target@, o);
        }
        if source@ == target@ && o.ins_cost > 0 && o.del_cost > 0 && o.sub_cost > 0 && matches_itself(source@, o) {
            lemma_script_of_same(source@, o);
        }
    }
    script
}

/// The cost matrix of `source` and `target`, with its row bound at the
/// terminal row.
pub fn get_matrix<T, E>(source: &str, target: &str, options: Options<E>) -> (matrix: T) where
    T: Matrix,
    E: MatchFunction,

    requires
        (source@.len() + 1) * (target@.len() + 1) <= usize::MAX,
        costs_fit(source@, target@, options),
    ensures
        matrix.cells() == cost_matrix(source@, target@, options),
        matrix.size().0 == terminal_row(source@, target@, options) + 1,
        matrix.size().1 == target@.len() + 1,
{
    let ghost o = options;
    let mut osa = session::<T, E>(source, target, options);
    osa.matrix_for_strings();
    proof {
        if o.min_cost_when_target_shorter && target@.len() < source@.len() {
            lemma_first_min_row_unique(source@, target@, o, osa.terminal());
        }
    }
    osa.into_matrix()
}

} // verus!
