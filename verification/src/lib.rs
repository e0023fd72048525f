//! Simulation of multi-state cellular automata on bounded grids.
//!
//! An automaton owns a dense grid of cells, each holding a small integer
//! state: `0` is dead, the maximal state is alive, and anything in between
//! is decaying. Each tick counts, for every cell, its live neighbors under
//! the chosen adjacency method, and then advances every cell by the birth,
//! survival and decay rules, all against the pre-tick snapshot.
//!
//! The transition algorithm itself is dimension-generic and lives in
//! [`engine`]; [`flat`] and [`deep`] instantiate it for two and three
//! dimensions.

#![verifier::loop_isolation(false)]

use vstd::prelude::*;

pub mod deep;
pub mod engine;
pub mod flat;

verus! {

/// How many live neighbors a rule accepts.
///
/// Rules are pure predicates over a neighbor count; see [`rule_matches`].
#[derive(Clone)]
pub enum Rule {
    /// Matches exactly one neighbor count.
    Single(u8),
    /// Matches every count in the half-open range `lo <= count < hi`.
    /// An empty range (`lo >= hi`) matches nothing, which is legal.
    Range(u8, u8),
    /// Matches every count listed in the vector.
    Many(Vec<u8>),
}

/// Which cells count as neighbors of a given cell.
#[derive(Clone)]
pub enum Method {
    /// Every cell whose every component differs by at most one is a
    /// neighbor: faces, edges and corners.
    Moore,
    /// Only cells sharing a face are neighbors: one component differs by
    /// exactly one, the rest are equal.
    VonNeumann,
}

/// The rule bundle governing an automaton: a survival rule, a birth rule,
/// the number of cell states, and the adjacency method.
///
/// A live cell has state `cell_states - 1`; a cell that stops satisfying
/// the survival rule decays by one state per tick until it reaches `0`.
#[derive(Clone)]
pub struct AutomataRules {
    pub(crate) to_survive: Rule,
    pub(crate) to_be_born: Rule,
    pub(crate) cell_states: u8,
    pub(crate) neighbor_method: Method,
}

/// The mathematical content of an [`AutomataRules`] value.
pub ghost struct RulesV {
    pub to_survive: Rule,
    pub to_be_born: Rule,
    pub cell_states: u8,
    pub neighbor_method: Method,
}

impl View for AutomataRules {
    type V = RulesV;

    closed spec fn view(&self) -> RulesV {
        RulesV {
            to_survive: self.to_survive,
            to_be_born: self.to_be_born,
            cell_states: self.cell_states,
            neighbor_method: self.neighbor_method,
        }
    }
}

/// Whether `r` accepts a neighbor count of `n`.
pub open spec fn rule_matches(r: Rule, n: u8) -> bool {
    match r {
        Rule::Single(v) => n == v,
        Rule::Range(lo, hi) => lo <= n && n < hi,
        Rule::Many(vs) => vs@.contains(n),
    }
}

/// Whether every count literal mentioned by `r` is at most `max`.
///
/// For a range both endpoints are checked, so `Range(lo, hi)` with
/// `hi == max + 1` is rejected even though it matches no count above `max`.
pub open spec fn rule_ok(r: Rule, max: u8) -> bool {
    match r {
        Rule::Single(v) => v <= max,
        Rule::Range(lo, hi) => lo <= max && hi <= max,
        Rule::Many(vs) => forall|j: int| 0 <= j < vs@.len() ==> vs@[j] <= max,
    }
}

impl Rule {
    /// Whether this rule accepts a neighbor count of `n`.
    pub fn matches(&self, n: u8) -> (b: bool)
        ensures
            b == rule_matches(*self, n),
    {
        match self {
            Rule::Single(v) => n == *v,
            Rule::Range(lo, hi) => *lo <= n && n < *hi,
            Rule::Many(vs) => {
                let mut j: usize = 0;
                while j < vs.len()
                    invariant
                        j <= vs@.len(),
                        forall|t: int| 0 <= t < j ==> vs@[t] != n,
                    decreases vs@.len() - j,
                {
                    if vs[j] == n {
                        assert(vs@[j as int] == n);
                        return true;
                    }
                    j += 1;
                }
                assert(!vs@.contains(n));
                false
            },
        }
    }

    /// Whether every count literal mentioned by this rule is at most `max`.
    pub(crate) fn within_max(&self, max: u8) -> (b: bool)
        ensures
            b == rule_ok(*self, max),
    {
        match self {
            Rule::Single(v) => *v <= max,
            Rule::Range(lo, hi) => *lo <= max && *hi <= max,
            Rule::Many(vs) => {
                let mut j: usize = 0;
                while j < vs.len()
                    invariant
                        j <= vs@.len(),
                        forall|t: int| 0 <= t < j ==> vs@[t] <= max,
                    decreases vs@.len() - j,
                {
                    if vs[j] > max {
                        assert(vs@[j as int] > max);
                        return false;
                    }
                    j += 1;
                }
                true
            },
        }
    }
}

impl AutomataRules {
    /// Creates a new rule bundle.
    ///
    /// Validation against the grid's maximum neighbor count is deferred to
    /// automaton construction, which knows the dimensionality.
    pub fn new(to_survive: Rule, to_be_born: Rule, cell_states: u8, neighbor_method: Method) -> (r:
        AutomataRules)
        requires
            cell_states >= 2,
        ensures
            r@ == (RulesV { to_survive, to_be_born, cell_states, neighbor_method }),
    {
        AutomataRules { to_survive, to_be_born, cell_states, neighbor_method }
    }
}

} // verus!
