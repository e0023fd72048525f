//! Two-dimensional cellular automata: the engine instantiated for grids
//! indexed by a pair of coordinates.

use crate::engine::in_bounds;
use crate::engine::lin;
use crate::engine::max_neighbors;
use crate::engine::pow3;
use crate::engine::state_at;
use crate::engine::tick_state;
use crate::engine::vol;
use crate::engine::GridV;
use crate::rule_ok;
use crate::AutomataRules;
use vstd::prelude::*;

verus! {

/// A position on a two-dimensional grid, or the size of such a grid.
#[derive(PartialEq, Eq, Structural, PartialOrd, Ord, Hash, Clone, Copy, Debug)]
pub struct Vec2 {
    x: usize,
    y: usize,
}

impl View for Vec2 {
    type V = Seq<usize>;

    closed spec fn view(&self) -> Seq<usize> {
        seq![self.x, self.y]
    }
}

impl Vec2 {
    /// Creates a new two-dimensional position.
    pub fn new(x: usize, y: usize) -> (v: Vec2)
        ensures
            v@ == seq![x, y],
    {
        Vec2 { x, y }
    }

    /// The componentwise sum of two positions.
    pub fn add(self, rhs: Vec2) -> (v: Vec2)
        requires
            self@[0] + rhs@[0] <= usize::MAX,
            self@[1] + rhs@[1] <= usize::MAX,
        ensures
            v@ == seq![(self@[0] + rhs@[0]) as usize, (self@[1] + rhs@[1]) as usize],
    {
        Vec2 { x: self.x + rhs.x, y: self.y + rhs.y }
    }

    /// The componentwise difference of two positions; no component of
    /// `rhs` may exceed the matching component of `self`.
    pub fn sub(self, rhs: Vec2) -> (v: Vec2)
        requires
            rhs@[0] <= self@[0],
            rhs@[1] <= self@[1],
        ensures
            v@ == seq![(self@[0] - rhs@[0]) as usize, (self@[1] - rhs@[1]) as usize],
    {
        Vec2 { x: self.x - rhs.x, y: self.y - rhs.y }
    }
}

impl Default for Vec2 {
    /// The origin.
    fn default() -> (v: Vec2)
        ensures
            v@ == seq![0usize, 0usize],
    {
        Vec2 { x: 0, y: 0 }
    }
}

/// The views of a sequence of two-dimensional positions.
pub open spec fn seed_views(s: Seq<Vec2>) -> Seq<Seq<usize>> {
    s.map_values(|v: Vec2| v@)
}

/// A two-dimensional cellular automaton.
pub struct Automaton {
    inner: crate::engine::Automaton,
}

impl View for Automaton {
    type V = GridV;

    closed spec fn view(&self) -> GridV {
        self.inner@
    }
}

fn vec2_components(v: &Vec2) -> (r: Vec<usize>)
    ensures
        r@ == v@,
{
    let mut r: Vec<usize> = Vec::new();
    r.push(v.x);
    r.push(v.y);
    proof {
        assert(r@ =~= v@);
    }
    r
}

impl Automaton {
    /// The internal invariant: a well-formed engine grid of
    /// dimensionality two.
    pub closed spec fn wf(&self) -> bool {
        self.inner.wf() && self.inner@.bounds.len() == 2
    }

    /// Creates a two-dimensional automaton with the given rules, bounds
    /// and seed. Fails with the maximum neighbor count — eight for Moore
    /// adjacency, four for von Neumann — when either rule mentions a
    /// count above it; otherwise every seeded in-bounds position starts
    /// at the maximal state and every other position at zero.
    pub fn new(rules: AutomataRules, bounds: Vec2, start_cells: Vec<Vec2>) -> (r: Result<
        Automaton,
        u8,
    >)
        requires
            rules@.cell_states >= 2,
            vol(bounds@) <= usize::MAX,
        ensures
            match r {
                Result::Err(m) => m as nat == max_neighbors(rules@.neighbor_method, 2) && !(
                rule_ok(rules@.to_survive, m) && rule_ok(rules@.to_be_born, m)),
                Result::Ok(a) => {
                    &&& a.wf()
                    &&& a@.rules == rules@
                    &&& a@.bounds == bounds@
                    &&& a@.cells.len() == vol(bounds@)
                    &&& forall|c: Seq<usize>|
                        in_bounds(c, bounds@) ==> #[trigger] state_at(a@, c) == (if seed_views(
                            start_cells@,
                        ).contains(c) {
                            (rules@.cell_states - 1) as u8
                        } else {
                            0u8
                        })
                },
            },
    {
        proof {
            assert(pow3(0) == 1);
            assert(pow3(1) == 3);
            assert(pow3(2) == 9);
        }
        let bvec = vec2_components(&bounds);
        let mut seeds: Vec<Vec<usize>> = Vec::new();
        let mut i: usize = 0;
        while i < start_cells.len()
            invariant
                i <= start_cells@.len(),
                seeds@.len() == i,
                forall|t: int|
                    0 <= t < i ==> #[trigger] seeds@[t]@ == seed_views(start_cells@)[t],
            decreases start_cells@.len() - i,
        {
            let s = vec2_components(&start_cells[i]);
            seeds.push(s);
            i += 1;
        }
        proof {
            assert(crate::engine::seq_views(seeds@) =~= seed_views(start_cells@));
        }
        match crate::engine::Automaton::new(rules, bvec, seeds) {
            Result::Ok(inner) => Result::Ok(Automaton { inner }),
            Result::Err(m) => Result::Err(m),
        }
    }

    /// Advances the automaton by one time step.
    pub fn tick(&mut self)
        requires
            old(self).wf(),
        ensures
            final(self).wf(),
            final(self)@.rules == old(self)@.rules,
            final(self)@.bounds == old(self)@.bounds,
            final(self)@.cells.len() == old(self)@.cells.len(),
            forall|c: Seq<usize>|
                in_bounds(c, old(self)@.bounds) ==> #[trigger] state_at(final(self)@, c)
                    == tick_state(old(self)@, c),
    {
        self.inner.tick();
    }

    /// Advances the automaton by one time step on a thread pool, with
    /// exactly the observable effect of [`Automaton::tick`].
    pub fn par_tick(&mut self)
        requires
            old(self).wf(),
        ensures
            final(self).wf(),
            final(self)@.rules == old(self)@.rules,
            final(self)@.bounds == old(self)@.bounds,
            final(self)@.cells.len() == old(self)@.cells.len(),
            forall|c: Seq<usize>|
                in_bounds(c, old(self)@.bounds) ==> #[trigger] state_at(final(self)@, c)
                    == tick_state(old(self)@, c),
    {
        self.inner.par_tick();
    }

    /// A full, independent snapshot of the grid: one position-state pair
    /// per cell, in row-major order.
    pub fn get_cells(&self) -> (r: Vec<(Vec2, u8)>)
        requires
            self.wf(),
        ensures
            r@.len() == vol(self@.bounds),
            forall|i: int|
                0 <= i < r@.len() ==> in_bounds(#[trigger] r@[i].0@, self@.bounds) && lin(
                    r@[i].0@,
                    self@.bounds,
                ) == i && r@[i].1 == self@.cells[i],
            forall|c: Seq<usize>|
                in_bounds(c, self@.bounds) ==> 0 <= #[trigger] lin(c, self@.bounds) < r@.len()
                    && r@[lin(c, self@.bounds)].0@ == c && r@[lin(c, self@.bounds)].1 == state_at(
                    self@,
                    c,
                ),
    {
        let pairs = self.inner.get_cells();
        let mut r: Vec<(Vec2, u8)> = Vec::new();
        let mut i: usize = 0;
        while i < pairs.len()
            invariant
                i <= pairs@.len(),
                r@.len() == i,
                forall|t: int|
                    0 <= t < i ==> #[trigger] r@[t].0@ == pairs@[t].0@ && r@[t].1 == pairs@[t].1,
            decreases pairs@.len() - i,
        {
            let c = &pairs[i].0;
            assert(in_bounds(c@, self.inner@.bounds));
            let v = Vec2 { x: c[0], y: c[1] };
            proof {
                assert(v@ =~= c@);
            }
            r.push((v, pairs[i].1));
            i += 1;
        }
        proof {
            assert forall|c: Seq<usize>| in_bounds(c, self@.bounds) implies 0 <= #[trigger] lin(
                c,
                self@.bounds,
            ) < r@.len() && r@[lin(c, self@.bounds)].0@ == c && r@[lin(c, self@.bounds)].1
                == state_at(self@, c) by {
                let t = lin(c, self@.bounds);
                assert(pairs@[t].0@ == c && pairs@[t].1 == state_at(self@, c));
            }
        }
        r
    }
}


} // verus!
