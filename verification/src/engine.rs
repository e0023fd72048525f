//! The dimension-generic automaton engine.
//!
//! A grid is dense: it holds one state byte for every coordinate whose
//! components lie below the bounds, stored row-major in a flat vector.
//! Coordinates are vectors of `usize` components; the linearization
//! [`lin`] and its inverse (cached per cell at construction) connect the
//! two representations. The two-phase tick — count all neighbors against
//! the pre-tick snapshot, then apply the rules to every cell — is
//! implemented once here for any dimensionality.

use crate::rule_matches;
use crate::rule_ok;
use crate::AutomataRules;
use crate::Method;
use crate::RulesV;
use rayon::iter::IntoParallelIterator;
use rayon::iter::ParallelIterator;
use vstd::prelude::*;

verus! {

/// The number of cells in a grid with the given bounds: the product of
/// the components.
pub open spec fn vol(bounds: Seq<usize>) -> nat
    decreases bounds.len(),
{
    if bounds.len() == 0 {
        1
    } else {
        (bounds[0] * vol(bounds.skip(1))) as nat
    }
}

/// Whether `c` is a coordinate of a grid with the given bounds.
pub open spec fn in_bounds(c: Seq<usize>, bounds: Seq<usize>) -> bool {
    c.len() == bounds.len() && forall|k: int| 0 <= k < c.len() ==> c[k] < bounds[k]
}

/// The row-major linear index of coordinate `c` in a grid with the given
/// bounds.
pub open spec fn lin(c: Seq<usize>, bounds: Seq<usize>) -> int
    decreases c.len(),
{
    if c.len() == 0 {
        0
    } else {
        c[0] * vol(bounds.skip(1)) + lin(c.skip(1), bounds.skip(1))
    }
}

/// The mathematical content of an [`Automaton`]: its rules, its bounds,
/// and the state of every cell, indexed by [`lin`].
pub ghost struct GridV {
    pub rules: RulesV,
    pub bounds: Seq<usize>,
    pub cells: Seq<u8>,
}

/// The state of the cell at coordinate `c`.
pub open spec fn state_at(v: GridV, c: Seq<usize>) -> u8 {
    v.cells[lin(c, v.bounds)]
}

/// The offset vector whose component on `axis` is `delta` and whose other
/// components are zero.
pub open spec fn unit_off(dim: nat, axis: int, delta: i8) -> Seq<i8> {
    Seq::new(dim, |j: int| if j == axis { delta } else { 0 })
}

/// The von Neumann offsets touching only the first `k` axes: for each
/// axis, one step down and one step up.
pub open spec fn vn_offsets_upto(dim: nat, k: nat) -> Seq<Seq<i8>>
    decreases k,
{
    if k == 0 {
        Seq::empty()
    } else {
        vn_offsets_upto(dim, (k - 1) as nat) + seq![
            unit_off(dim, k - 1, -1i8),
            unit_off(dim, k - 1, 1i8),
        ]
    }
}

/// Every tuple of `ts` with `d` prepended.
pub open spec fn prepend_all(d: i8, ts: Seq<Seq<i8>>) -> Seq<Seq<i8>> {
    ts.map_values(|t: Seq<i8>| seq![d] + t)
}

/// Every tuple in `{-1, 0, 1}` to the power `dim`, ordered first by the
/// leading component.
pub open spec fn all_tuples(dim: nat) -> Seq<Seq<i8>>
    decreases dim,
{
    if dim == 0 {
        seq![Seq::<i8>::empty()]
    } else {
        prepend_all(-1i8, all_tuples((dim - 1) as nat)) + prepend_all(0i8, all_tuples((dim - 1) as nat))
            + prepend_all(1i8, all_tuples((dim - 1) as nat))
    }
}

/// Whether every component of the offset is zero.
pub open spec fn is_zero_off(o: Seq<i8>) -> bool {
    forall|k: int| 0 <= k < o.len() ==> o[k] == 0
}

/// The subsequence of offsets that are not all-zero, in order.
pub open spec fn nonzero_offs(s: Seq<Seq<i8>>) -> Seq<Seq<i8>>
    decreases s.len(),
{
    if s.len() == 0 {
        Seq::empty()
    } else {
        nonzero_offs(s.drop_last()) + if is_zero_off(s.last()) {
            Seq::empty()
        } else {
            seq![s.last()]
        }
    }
}

/// The neighbor offsets of the adjacency method in `dim` dimensions:
/// all nonzero tuples over `{-1, 0, 1}` for Moore, one step along a
/// single axis for von Neumann.
pub open spec fn offsets(m: Method, dim: nat) -> Seq<Seq<i8>> {
    match m {
        Method::Moore => nonzero_offs(all_tuples(dim)),
        Method::VonNeumann => vn_offsets_upto(dim, dim),
    }
}

/// Three to the power `d`.
pub open spec fn pow3(d: nat) -> nat
    decreases d,
{
    if d == 0 {
        1
    } else {
        3 * pow3((d - 1) as nat)
    }
}

/// The largest number of neighbors any cell can have in `dim` dimensions:
/// `3^dim - 1` for Moore adjacency, `2 * dim` for von Neumann.
pub open spec fn max_neighbors(m: Method, dim: nat) -> nat {
    match m {
        Method::Moore => (pow3(dim) - 1) as nat,
        Method::VonNeumann => 2 * dim,
    }
}

/// The coordinate reached from `c` by the offset `off`, componentwise.
pub open spec fn shift(c: Seq<usize>, off: Seq<i8>) -> Seq<usize> {
    Seq::new(c.len(), |k: int| (c[k] + off[k]) as usize)
}

/// Whether stepping from `c` by `off` stays inside the grid.
pub open spec fn off_in_bounds(c: Seq<usize>, off: Seq<i8>, bounds: Seq<usize>) -> bool {
    forall|k: int| 0 <= k < c.len() ==> 0 <= c[k] + off[k] && c[k] + off[k] < bounds[k]
}

/// Whether the cell reached from `c` by `off` exists and is not dead.
/// Positions outside the grid never count as live.
pub open spec fn live_at(cells: Seq<u8>, bounds: Seq<usize>, c: Seq<usize>, off: Seq<i8>) -> bool {
    off_in_bounds(c, off, bounds) && cells[lin(shift(c, off), bounds)] > 0
}

/// How many of the given offsets lead from `c` to a live cell.
pub open spec fn count_live(
    cells: Seq<u8>,
    bounds: Seq<usize>,
    c: Seq<usize>,
    offs: Seq<Seq<i8>>,
) -> nat
    decreases offs.len(),
{
    if offs.len() == 0 {
        0
    } else {
        count_live(cells, bounds, c, offs.drop_last()) + if live_at(
            cells,
            bounds,
            c,
            offs.last(),
        ) {
            1nat
        } else {
            0nat
        }
    }
}

/// The live-neighbor count of the cell at `c` under the grid's own
/// adjacency method.
pub open spec fn nbr_count(v: GridV, c: Seq<usize>) -> nat {
    count_live(v.cells, v.bounds, c, offsets(v.rules.neighbor_method, v.bounds.len()))
}

/// The state a cell moves to in one tick, given its current state `s` and
/// its live-neighbor count `n`: a dead cell is born fully alive when the
/// birth rule matches, a fully alive cell starts decaying when the
/// survival rule stops matching, and a decaying cell steps down by one
/// unconditionally.
pub open spec fn next_state(s: u8, n: u8, r: RulesV) -> u8 {
    if s == 0 {
        if rule_matches(r.to_be_born, n) {
            (r.cell_states - 1) as u8
        } else {
            0
        }
    } else if s == r.cell_states - 1 {
        if rule_matches(r.to_survive, n) {
            s
        } else {
            (s - 1) as u8
        }
    } else {
        (s - 1) as u8
    }
}

/// The state the cell at `c` holds after one tick of the grid `v`.
pub open spec fn tick_state(v: GridV, c: Seq<usize>) -> u8 {
    next_state(state_at(v, c), nbr_count(v, c) as u8, v.rules)
}

/// Whether `o` is an offset of the right arity with steps of at most one.
pub open spec fn off_wf(o: Seq<i8>, dim: nat) -> bool {
    o.len() == dim && forall|k: int| 0 <= k < o.len() ==> -1 <= #[trigger] o[k] <= 1
}

/// Whether every offset in `s` satisfies [`off_wf`].
pub open spec fn offs_wf(s: Seq<Seq<i8>>, dim: nat) -> bool {
    forall|j: int| 0 <= j < s.len() ==> off_wf(#[trigger] s[j], dim)
}

/// How many offsets in `s` are all-zero.
pub open spec fn count_zero_offs(s: Seq<Seq<i8>>) -> nat
    decreases s.len(),
{
    if s.len() == 0 {
        0
    } else {
        count_zero_offs(s.drop_last()) + if is_zero_off(s.last()) {
            1nat
        } else {
            0nat
        }
    }
}

proof fn lemma_pow3_pos(d: nat)
    ensures
        pow3(d) >= 1,
    decreases d,
{
    if d > 0 {
        lemma_pow3_pos((d - 1) as nat);
    }
}

proof fn lemma_pow3_mono(a: nat, b: nat)
    requires
        a <= b,
    ensures
        pow3(a) <= pow3(b),
    decreases b,
{
    if a < b {
        lemma_pow3_mono(a, (b - 1) as nat);
    }
}

proof fn lemma_vn_wf(dim: nat, k: nat)
    requires
        k <= dim,
    ensures
        vn_offsets_upto(dim, k).len() == 2 * k,
        offs_wf(vn_offsets_upto(dim, k), dim),
    decreases k,
{
    if k > 0 {
        lemma_vn_wf(dim, (k - 1) as nat);
    }
}

proof fn lemma_all_tuples_wf(dim: nat)
    ensures
        all_tuples(dim).len() == pow3(dim),
        offs_wf(all_tuples(dim), dim),
    decreases dim,
{
    if dim > 0 {
        lemma_all_tuples_wf((dim - 1) as nat);
        let sub = all_tuples((dim - 1) as nat);
        assert forall|d: i8| -1 <= d <= 1 implies offs_wf(prepend_all(d, sub), dim) by {
            assert forall|j: int| 0 <= j < sub.len() implies off_wf(
                #[trigger] prepend_all(d, sub)[j],
                dim,
            ) by {
                assert(prepend_all(d, sub)[j] == seq![d] + sub[j]);
            }
        }
    }
}

proof fn lemma_nonzero_len(s: Seq<Seq<i8>>)
    ensures
        nonzero_offs(s).len() + count_zero_offs(s) == s.len(),
    decreases s.len(),
{
    if s.len() > 0 {
        lemma_nonzero_len(s.drop_last());
    }
}

proof fn lemma_nonzero_wf(s: Seq<Seq<i8>>, dim: nat)
    requires
        offs_wf(s, dim),
    ensures
        offs_wf(nonzero_offs(s), dim),
    decreases s.len(),
{
    if s.len() > 0 {
        assert(offs_wf(s.drop_last(), dim));
        lemma_nonzero_wf(s.drop_last(), dim);
    }
}

proof fn lemma_zero_prepend(d: i8, t: Seq<i8>)
    ensures
        is_zero_off(seq![d] + t) == (d == 0 && is_zero_off(t)),
{
    let p = seq![d] + t;
    assert(p[0] == d);
    assert forall|k: int| 0 <= k < t.len() implies p[k + 1] == t[k] by {}
    if d == 0 && is_zero_off(t) {
        assert forall|k: int| 0 <= k < p.len() implies p[k] == 0 by {
            if k > 0 {
                assert(p[k] == t[k - 1]);
            }
        }
    }
    if is_zero_off(p) {
        assert forall|k: int| 0 <= k < t.len() implies t[k] == 0 by {
            assert(p[k + 1] == 0);
        }
    }
}

proof fn lemma_count_zero_concat(a: Seq<Seq<i8>>, b: Seq<Seq<i8>>)
    ensures
        count_zero_offs(a + b) == count_zero_offs(a) + count_zero_offs(b),
    decreases b.len(),
{
    if b.len() == 0 {
        assert(a + b =~= a);
    } else {
        assert((a + b).drop_last() =~= a + b.drop_last());
        assert((a + b).last() == b.last());
        lemma_count_zero_concat(a, b.drop_last());
    }
}

proof fn lemma_count_zero_prepend(d: i8, ts: Seq<Seq<i8>>)
    ensures
        count_zero_offs(prepend_all(d, ts)) == if d == 0 {
            count_zero_offs(ts)
        } else {
            0nat
        },
    decreases ts.len(),
{
    let p = prepend_all(d, ts);
    if ts.len() == 0 {
        assert(p.len() == 0);
    } else {
        assert(p.drop_last() =~= prepend_all(d, ts.drop_last()));
        assert(p.last() == seq![d] + ts.last());
        lemma_zero_prepend(d, ts.last());
        lemma_count_zero_prepend(d, ts.drop_last());
    }
}

proof fn lemma_all_tuples_zeros(dim: nat)
    ensures
        count_zero_offs(all_tuples(dim)) == 1,
    decreases dim,
{
    if dim == 0 {
        let s = all_tuples(0);
        assert(s.len() == 1);
        assert(is_zero_off(s.last()));
        assert(s.drop_last() =~= Seq::<Seq<i8>>::empty());
        assert(count_zero_offs(s.drop_last()) == 0);
    } else {
        lemma_all_tuples_zeros((dim - 1) as nat);
        let sub = all_tuples((dim - 1) as nat);
        lemma_count_zero_prepend(-1i8, sub);
        lemma_count_zero_prepend(0i8, sub);
        lemma_count_zero_prepend(1i8, sub);
        lemma_count_zero_concat(prepend_all(-1i8, sub), prepend_all(0i8, sub));
        lemma_count_zero_concat(
            prepend_all(-1i8, sub) + prepend_all(0i8, sub),
            prepend_all(1i8, sub),
        );
        assert(all_tuples(dim) == (prepend_all(-1i8, sub) + prepend_all(0i8, sub)) + prepend_all(
            1i8,
            sub,
        ));
    }
}

/// The offset list of an adjacency method has exactly [`max_neighbors`]
/// entries, each of the grid's arity with componentwise steps of at most
/// one.
pub proof fn lemma_offsets_wf(m: Method, dim: nat)
    ensures
        offsets(m, dim).len() == max_neighbors(m, dim),
        offs_wf(offsets(m, dim), dim),
{
    match m {
        Method::Moore => {
            lemma_all_tuples_wf(dim);
            lemma_all_tuples_zeros(dim);
            lemma_nonzero_len(all_tuples(dim));
            lemma_nonzero_wf(all_tuples(dim), dim);
            lemma_pow3_pos(dim);
        },
        Method::VonNeumann => {
            lemma_vn_wf(dim, dim);
        },
    }
}

/// Unfolding of [`vol`] at position `k`: the volume of the suffix grid
/// starting at axis `k` is the bound on axis `k` times the volume of the
/// suffix starting at `k + 1`.
pub proof fn lemma_vol_skip_unfold(bounds: Seq<usize>, k: int)
    requires
        0 <= k < bounds.len(),
    ensures
        vol(bounds.skip(k)) == bounds[k] * vol(bounds.skip(k + 1)),
{
    assert(bounds.skip(k).skip(1) =~= bounds.skip(k + 1));
    assert(bounds.skip(k)[0] == bounds[k]);
}

/// Unfolding of [`lin`] at position `k`.
pub proof fn lemma_lin_skip_unfold(c: Seq<usize>, bounds: Seq<usize>, k: int)
    requires
        0 <= k < c.len(),
        c.len() == bounds.len(),
    ensures
        lin(c.skip(k), bounds.skip(k)) == c[k] * vol(bounds.skip(k + 1)) + lin(
            c.skip(k + 1),
            bounds.skip(k + 1),
        ),
{
    assert(c.skip(k).skip(1) =~= c.skip(k + 1));
    assert(bounds.skip(k).skip(1) =~= bounds.skip(k + 1));
    assert(c.skip(k)[0] == c[k]);
}

/// When every bound is at least one, suffix volumes never exceed the
/// whole volume.
pub proof fn lemma_vol_skip_le(bounds: Seq<usize>, k: int)
    requires
        0 <= k <= bounds.len(),
        forall|j: int| 0 <= j < bounds.len() ==> bounds[j] >= 1,
    ensures
        vol(bounds.skip(k)) <= vol(bounds),
    decreases k,
{
    if k == 0 {
        assert(bounds.skip(0) =~= bounds);
    } else {
        lemma_vol_skip_le(bounds, k - 1);
        lemma_vol_skip_unfold(bounds, k - 1);
        let a = bounds[k - 1] as int;
        let b = vol(bounds.skip(k)) as int;
        assert(b <= a * b) by (nonlinear_arith)
            requires
                a >= 1,
                b >= 0,
        ;
    }
}

/// A coordinate inside the bounds has a linear index inside the grid's
/// volume.
pub proof fn lemma_lin_range(c: Seq<usize>, bounds: Seq<usize>)
    requires
        in_bounds(c, bounds),
    ensures
        0 <= lin(c, bounds) < vol(bounds),
    decreases c.len(),
{
    if c.len() == 0 {
    } else {
        let cr = c.skip(1);
        let br = bounds.skip(1);
        assert(in_bounds(cr, br));
        lemma_lin_range(cr, br);
        let c0 = c[0] as int;
        let b0 = bounds[0] as int;
        let vr = vol(br) as int;
        let lr = lin(cr, br);
        assert(0 <= c0 * vr + lr < b0 * vr) by (nonlinear_arith)
            requires
                0 <= lr < vr,
                0 <= c0 < b0,
        ;
    }
}

/// Within the bounds, the linearization is injective: two coordinates
/// with the same linear index are equal.
pub proof fn lemma_lin_inject(a: Seq<usize>, b: Seq<usize>, bounds: Seq<usize>)
    requires
        in_bounds(a, bounds),
        in_bounds(b, bounds),
        lin(a, bounds) == lin(b, bounds),
    ensures
        a == b,
    decreases a.len(),
{
    if a.len() == 0 {
        assert(a =~= b);
    } else {
        let ar = a.skip(1);
        let br = b.skip(1);
        let bdr = bounds.skip(1);
        assert(in_bounds(ar, bdr));
        assert(in_bounds(br, bdr));
        lemma_lin_range(ar, bdr);
        lemma_lin_range(br, bdr);
        let vr = vol(bdr) as int;
        let a0 = a[0] as int;
        let b0 = b[0] as int;
        let ra = lin(ar, bdr);
        let rb = lin(br, bdr);
        assert(a0 == b0) by (nonlinear_arith)
            requires
                a0 * vr + ra == b0 * vr + rb,
                0 <= ra < vr,
                0 <= rb < vr,
                a0 >= 0,
                b0 >= 0,
        ;
        lemma_lin_inject(ar, br, bounds.skip(1));
        assert forall|k: int| 0 <= k < a.len() implies a[k] == b[k] by {
            if k > 0 {
                assert(a[k] == ar[k - 1]);
                assert(b[k] == br[k - 1]);
            }
        }
        assert(a =~= b);
    }
}

fn unit_off_exec(dim: usize, axis: usize, neg: bool) -> (r: Vec<i8>)
    requires
        axis < dim,
    ensures
        r@ == unit_off(dim as nat, axis as int, if neg { -1i8 } else { 1i8 }),
{
    let delta: i8 = if neg { -1 } else { 1 };
    let mut r: Vec<i8> = Vec::new();
    let mut j: usize = 0;
    while j < dim
        invariant
            j <= dim,
            r@.len() == j,
            forall|t: int| 0 <= t < j ==> r@[t] == (if t == axis { delta } else { 0i8 }),
        decreases dim - j,
    {
        if j == axis {
            r.push(delta);
        } else {
            r.push(0);
        }
        j += 1;
    }
    proof {
        assert(r@ =~= unit_off(dim as nat, axis as int, delta));
    }
    r
}

fn vn_offsets_exec(dim: usize) -> (r: Vec<Vec<i8>>)
    requires
        2 * dim <= usize::MAX,
    ensures
        r.deep_view() == vn_offsets_upto(dim as nat, dim as nat),
{
    let mut r: Vec<Vec<i8>> = Vec::new();
    let mut k: usize = 0;
    proof {
        lemma_vn_wf(dim as nat, dim as nat);
    }
    while k < dim
        invariant
            k <= dim,
            r.deep_view() == vn_offsets_upto(dim as nat, k as nat),
            r@.len() == 2 * k,
        decreases dim - k,
    {
        let down = unit_off_exec(dim, k, true);
        let up = unit_off_exec(dim, k, false);
        r.push(down);
        r.push(up);
        k += 1;
        proof {
            assert(r.deep_view() =~~= vn_offsets_upto(dim as nat, k as nat));
        }
    }
    r
}

fn copy_off(t: &Vec<i8>) -> (r: Vec<i8>)
    ensures
        r@ == t@,
{
    let mut r: Vec<i8> = Vec::new();
    let mut q: usize = 0;
    while q < t.len()
        invariant
            q <= t@.len(),
            r@ == t@.take(q as int),
        decreases t@.len() - q,
    {
        r.push(t[q]);
        q += 1;
        proof {
            assert(r@ =~= t@.take(q as int));
        }
    }
    proof {
        assert(t@.take(t@.len() as int) =~= t@);
    }
    r
}

fn push_prepended(r: &mut Vec<Vec<i8>>, d: i8, sub: &Vec<Vec<i8>>)
    requires
        old(r)@.len() + sub@.len() <= usize::MAX,
    ensures
        final(r).deep_view() == old(r).deep_view() + prepend_all(d, sub.deep_view()),
        final(r)@.len() == old(r)@.len() + sub@.len(),
{
    let ghost r0 = r.deep_view();
    let mut j: usize = 0;
    while j < sub.len()
        invariant
            j <= sub@.len(),
            r@.len() == r0.len() + j,
            r.deep_view() == r0 + prepend_all(d, sub.deep_view().take(j as int)),
        decreases sub@.len() - j,
    {
        let t = &sub[j];
        let mut nt: Vec<i8> = Vec::new();
        nt.push(d);
        proof {
            assert(nt@ =~= seq![d] + t@.take(0));
        }
        let mut q: usize = 0;
        while q < t.len()
            invariant
                q <= t@.len(),
                nt@ == seq![d] + t@.take(q as int),
            decreases t@.len() - q,
        {
            nt.push(t[q]);
            q += 1;
            proof {
                assert(nt@ =~= seq![d] + t@.take(q as int));
            }
        }
        proof {
            assert(t@.take(t@.len() as int) =~= t@);
        }
        proof {
            assert(nt@ =~= seq![d] + t@);
        }
        let ghost rpre = r.deep_view();
        r.push(nt);
        proof {
            let dv = sub.deep_view();
            let post = r0 + prepend_all(d, dv.take(j as int + 1));
            assert(dv[j as int] =~= sub@[j as int]@);
            assert(nt.deep_view() =~= nt@);
            assert(r.deep_view().len() == rpre.len() + 1);
            assert(post.len() == rpre.len() + 1);
            assert forall|i: int| 0 <= i < post.len() implies r.deep_view()[i] == post[i] by {
                if i < r0.len() {
                    assert(r.deep_view()[i] == rpre[i]);
                    assert(rpre[i] == r0[i]);
                    assert(post[i] == r0[i]);
                } else if i < rpre.len() {
                    assert(r.deep_view()[i] == rpre[i]);
                    assert(rpre[i] == prepend_all(d, dv.take(j as int))[i - r0.len()]);
                    assert(rpre[i] == seq![d] + dv.take(j as int)[i - r0.len()]);
                    assert(post[i] == seq![d] + dv.take(j as int + 1)[i - r0.len()]);
                } else {
                    assert(r.deep_view()[i] == nt.deep_view());
                    assert(post[i] == seq![d] + dv.take(j as int + 1)[j as int]);
                    assert(nt.deep_view() == seq![d] + dv[j as int]);
                }
            }
            assert(r.deep_view() =~= post);
        }
        j += 1;
    }
    proof {
        assert(sub.deep_view().take(sub@.len() as int) =~~= sub.deep_view());
    }
}

fn all_tuples_exec(dim: usize) -> (r: Vec<Vec<i8>>)
    requires
        pow3(dim as nat) <= usize::MAX,
    ensures
        r.deep_view() == all_tuples(dim as nat),
    decreases dim,
{
    let mut r: Vec<Vec<i8>> = Vec::new();
    if dim == 0 {
        let nt: Vec<i8> = Vec::new();
        r.push(nt);
        proof {
            assert(r.deep_view() =~~= all_tuples(0));
        }
        return r;
    }
    proof {
        lemma_pow3_mono((dim - 1) as nat, dim as nat);
        lemma_all_tuples_wf((dim - 1) as nat);
        lemma_pow3_pos((dim - 1) as nat);
    }
    let sub = all_tuples_exec(dim - 1);
    proof {
        assert(sub@.len() == sub.deep_view().len());
        assert(sub.deep_view().len() == pow3((dim - 1) as nat));
    }
    push_prepended(&mut r, -1, &sub);
    push_prepended(&mut r, 0, &sub);
    push_prepended(&mut r, 1, &sub);
    proof {
        assert(r.deep_view() =~~= all_tuples(dim as nat));
    }
    r
}

fn is_zero_exec(o: &Vec<i8>) -> (b: bool)
    ensures
        b == is_zero_off(o@),
{
    let mut k: usize = 0;
    while k < o.len()
        invariant
            k <= o@.len(),
            forall|t: int| 0 <= t < k ==> o@[t] == 0i8,
        decreases o@.len() - k,
    {
        if o[k] != 0 {
            assert(o@[k as int] != 0i8);
            return false;
        }
        k += 1;
    }
    true
}

fn nonzero_offs_exec(src: &Vec<Vec<i8>>) -> (r: Vec<Vec<i8>>)
    ensures
        r.deep_view() == nonzero_offs(src.deep_view()),
{
    let mut r: Vec<Vec<i8>> = Vec::new();
    let mut i: usize = 0;
    while i < src.len()
        invariant
            i <= src@.len(),
            r@.len() <= i,
            r.deep_view() == nonzero_offs(src.deep_view().take(i as int)),
        decreases src@.len() - i,
    {
        proof {
            assert(src@[i as int].deep_view() =~= src@[i as int]@);
        }
        if !is_zero_exec(&src[i]) {
            let nt = copy_off(&src[i]);
            r.push(nt);
        }
        i += 1;
        proof {
            assert(src.deep_view().take(i as int).drop_last() =~~= src.deep_view().take(i - 1));
            assert(src.deep_view().take(i as int).last() == src@[i - 1].deep_view());
            assert(r.deep_view() =~~= nonzero_offs(src.deep_view().take(i as int)));
        }
    }
    proof {
        assert(src.deep_view().take(src@.len() as int) =~~= src.deep_view());
    }
    r
}

fn max_neighbors_exec(m: &Method, dim: usize) -> (r: u8)
    requires
        max_neighbors(*m, dim as nat) <= 255,
    ensures
        r as nat == max_neighbors(*m, dim as nat),
{
    match m {
        Method::Moore => {
            let mut acc: usize = 1;
            let mut k: usize = 0;
            while k < dim
                invariant
                    k <= dim,
                    acc == pow3(k as nat),
                decreases dim - k,
            {
                proof {
                    lemma_pow3_mono((k + 1) as nat, dim as nat);
                }
                acc = acc * 3;
                k += 1;
            }
            proof {
                lemma_pow3_pos(dim as nat);
            }
            (acc - 1) as u8
        },
        Method::VonNeumann => {
            assert(2 * dim <= 255);
            (2 * dim) as u8
        },
    }
}

fn offsets_exec(m: &Method, dim: usize) -> (r: Vec<Vec<i8>>)
    requires
        max_neighbors(*m, dim as nat) <= 255,
    ensures
        r.deep_view() == offsets(*m, dim as nat),
{
    match m {
        Method::Moore => {
            proof {
                lemma_pow3_pos(dim as nat);
            }
            let tup = all_tuples_exec(dim);
            nonzero_offs_exec(&tup)
        },
        Method::VonNeumann => {
            vn_offsets_exec(dim)
        },
    }
}

/// The views of a sequence of coordinate vectors.
pub open spec fn seq_views(s: Seq<Vec<usize>>) -> Seq<Seq<usize>> {
    s.map_values(|v: Vec<usize>| v@)
}

proof fn lemma_vol_zero(bounds: Seq<usize>, j: int)
    requires
        0 <= j < bounds.len(),
        bounds[j] == 0,
    ensures
        vol(bounds) == 0,
    decreases bounds.len(),
{
    if j == 0 {
    } else {
        lemma_vol_zero(bounds.skip(1), j - 1);
    }
}

fn vecs_equal(a: &Vec<usize>, b: &Vec<usize>) -> (r: bool)
    ensures
        r == (a@ == b@),
{
    if a.len() != b.len() {
        assert(a@.len() != b@.len());
        return false;
    }
    let mut k: usize = 0;
    while k < a.len()
        invariant
            k <= a@.len(),
            forall|t: int| 0 <= t < k ==> a@[t] == b@[t],
        decreases a@.len() - k,
    {
        if a[k] != b[k] {
            assert(a@[k as int] != b@[k as int]);
            return false;
        }
        k += 1;
    }
    proof {
        assert(a@ =~= b@);
    }
    true
}

fn contains_coord(seeds: &Vec<Vec<usize>>, c: &Vec<usize>) -> (b: bool)
    ensures
        b == seq_views(seeds@).contains(c@),
{
    let mut j: usize = 0;
    while j < seeds.len()
        invariant
            j <= seeds@.len(),
            forall|t: int| 0 <= t < j ==> seq_views(seeds@)[t] != c@,
        decreases seeds@.len() - j,
    {
        if vecs_equal(&seeds[j], c) {
            assert(seq_views(seeds@)[j as int] == c@);
            return true;
        }
        j += 1;
    }
    assert(!seq_views(seeds@).contains(c@));
    false
}

fn copy_coord(t: &Vec<usize>) -> (r: Vec<usize>)
    ensures
        r@ == t@,
{
    let mut r: Vec<usize> = Vec::new();
    let mut q: usize = 0;
    while q < t.len()
        invariant
            q <= t@.len(),
            r@ == t@.take(q as int),
        decreases t@.len() - q,
    {
        r.push(t[q]);
        q += 1;
        proof {
            assert(r@ =~= t@.take(q as int));
        }
    }
    proof {
        assert(t@.take(t@.len() as int) =~= t@);
    }
    r
}

/// One coordinate vector for every linear index of the suffix grid
/// `bounds[k..]`, in row-major order.
fn coords_from(bounds: &Vec<usize>, k: usize) -> (r: Vec<Vec<usize>>)
    requires
        k <= bounds@.len(),
        vol(bounds@) <= usize::MAX,
        forall|j: int| 0 <= j < bounds@.len() ==> bounds@[j] >= 1,
    ensures
        r@.len() == vol(bounds@.skip(k as int)),
        forall|i: int|
            0 <= i < r@.len() ==> in_bounds(#[trigger] r@[i]@, bounds@.skip(k as int)) && lin(
                r@[i]@,
                bounds@.skip(k as int),
            ) == i,
    decreases bounds@.len() - k,
{
    let mut r: Vec<Vec<usize>> = Vec::new();
    if k == bounds.len() {
        let c: Vec<usize> = Vec::new();
        r.push(c);
        proof {
            assert(bounds@.skip(k as int) =~= Seq::<usize>::empty());
            assert(r@[0]@ =~= Seq::<usize>::empty());
        }
        return r;
    }
    let tail = coords_from(bounds, k + 1);
    proof {
        lemma_vol_skip_le(bounds@, k as int);
        lemma_vol_skip_unfold(bounds@, k as int);
    }
    let ghost sk = bounds@.skip(k as int);
    let ghost sk1 = bounds@.skip(k as int + 1);
    let ghost tl = tail@.len() as int;
    let bk = bounds[k];
    let mut x: usize = 0;
    while x < bk
        invariant
            x <= bk,
            r@.len() == x * tl,
            forall|i: int|
                0 <= i < r@.len() ==> in_bounds(#[trigger] r@[i]@, sk) && lin(r@[i]@, sk) == i,
        decreases bk - x,
    {
        proof {
            assert((x + 1) * tl == x * tl + tl) by (nonlinear_arith);
            assert(bk * tl == vol(sk));
            assert((x + 1) * tl <= bk * tl) by (nonlinear_arith)
                requires
                    x + 1 <= bk,
                    tl >= 0,
            ;
        }
        let mut j: usize = 0;
        while j < tail.len()
            invariant
                j <= tl,
                x < bk,
                r@.len() == x * tl + j,
                forall|i: int|
                    0 <= i < r@.len() ==> in_bounds(#[trigger] r@[i]@, sk) && lin(r@[i]@, sk)
                        == i,
            decreases tl - j,
        {
            let t = &tail[j];
            let mut nc: Vec<usize> = Vec::new();
            nc.push(x);
            proof {
                assert(nc@ =~= seq![x] + t@.take(0));
            }
            let mut q: usize = 0;
            while q < t.len()
                invariant
                    q <= t@.len(),
                    nc@ == seq![x] + t@.take(q as int),
                decreases t@.len() - q,
            {
                nc.push(t[q]);
                q += 1;
                proof {
                    assert(nc@ =~= seq![x] + t@.take(q as int));
                }
            }
            proof {
                assert(t@.take(t@.len() as int) =~= t@);
                assert(nc@ == seq![x] + t@);
                assert(nc@.skip(1) =~= t@);
                assert(sk.skip(1) =~= sk1);
                assert(sk[0] == bounds@[k as int]);
                assert(in_bounds(t@, sk1));
                assert forall|u: int| 0 <= u < nc@.len() implies nc@[u] < sk[u] by {
                    if u > 0 {
                        assert(nc@[u] == t@[u - 1]);
                        assert(sk[u] == sk1[u - 1]);
                    }
                }
                assert(in_bounds(nc@, sk));
                assert(lin(nc@, sk) == x * vol(sk1) + lin(t@, sk1));
                assert(lin(t@, sk1) == j);
                assert(tl == vol(sk1));
            }
            r.push(nc);
            j += 1;
        }
        x += 1;
    }
    proof {
        assert(r@.len() == bk * tl);
        assert(bk * tl == vol(sk));
    }
    r
}

/// The suffix volumes of the bounds: entry `k` is the volume of the grid
/// spanned by the axes from `k` on, ending with an entry of one.
fn suffix_vols(bounds: &Vec<usize>) -> (r: Vec<usize>)
    requires
        vol(bounds@) <= usize::MAX,
        forall|j: int| 0 <= j < bounds@.len() ==> bounds@[j] >= 1,
    ensures
        r@.len() == bounds@.len() + 1,
        forall|k: int| 0 <= k <= bounds@.len() ==> #[trigger] r@[k] == vol(bounds@.skip(k)),
{
    let dim = bounds.len();
    let mut rev: Vec<usize> = Vec::new();
    rev.push(1);
    proof {
        assert(bounds@.skip(dim as int) =~= Seq::<usize>::empty());
    }
    let mut t: usize = 0;
    while t < dim
        invariant
            t <= dim,
            rev@.len() == t + 1,
            forall|u: int| 0 <= u <= t ==> #[trigger] rev@[u] == vol(bounds@.skip(dim - u)),
        decreases dim - t,
    {
        proof {
            lemma_vol_skip_unfold(bounds@, dim - t - 1);
            lemma_vol_skip_le(bounds@, dim - t - 1);
        }
        let last = rev[t];
        assert(bounds@[dim - t - 1] * last == vol(bounds@.skip(dim - t - 1)));
        rev.push(bounds[dim - t - 1] * last);
        t += 1;
    }
    let mut r: Vec<usize> = Vec::new();
    let mut k2: usize = 0;
    while k2 <= dim
        invariant
            k2 <= dim + 1,
            rev@.len() == dim + 1,
            forall|u: int| 0 <= u <= dim ==> #[trigger] rev@[u] == vol(bounds@.skip(dim - u)),
            r@.len() == k2,
            forall|k: int| 0 <= k < k2 ==> #[trigger] r@[k] == vol(bounds@.skip(k)),
        decreases dim + 1 - k2,
    {
        r.push(rev[dim - k2]);
        k2 += 1;
    }
    r
}

/// A cellular automaton over a dense grid of any dimensionality.
///
/// The grid's cells are stored row-major in a flat vector; a coordinate
/// table (the inverse of [`lin`]) and the suffix volumes of the bounds
/// are computed once at construction.
pub struct Automaton {
    rules: AutomataRules,
    bounds: Vec<usize>,
    coords: Vec<Vec<usize>>,
    svols: Vec<usize>,
    cells: Vec<u8>,
}

impl View for Automaton {
    type V = GridV;

    closed spec fn view(&self) -> GridV {
        GridV { rules: self.rules@, bounds: self.bounds@, cells: self.cells@ }
    }
}

impl Automaton {
    /// The internal invariant: a dense, bounded grid whose caches agree
    /// with the bounds, with validated rules and every state below the
    /// state count.
    pub closed spec fn wf(&self) -> bool {
        &&& self.cells@.len() == vol(self.bounds@)
        &&& self.coords@.len() == vol(self.bounds@)
        &&& (forall|i: int|
            0 <= i < self.coords@.len() ==> in_bounds(#[trigger] self.coords@[i]@, self.bounds@)
                && lin(self.coords@[i]@, self.bounds@) == i)
        &&& self.rules@.cell_states >= 2
        &&& max_neighbors(self.rules@.neighbor_method, self.bounds@.len()) <= 255
        &&& rule_ok(
            self.rules@.to_survive,
            max_neighbors(self.rules@.neighbor_method, self.bounds@.len()) as u8,
        )
        &&& rule_ok(
            self.rules@.to_be_born,
            max_neighbors(self.rules@.neighbor_method, self.bounds@.len()) as u8,
        )
        &&& (forall|i: int|
            0 <= i < self.cells@.len() ==> #[trigger] self.cells@[i] <= self.rules@.cell_states
                - 1)
        &&& (vol(self.bounds@) > 0 ==> self.svols@.len() == self.bounds@.len() + 1 && (forall|
            k: int,
        |
            0 <= k <= self.bounds@.len() ==> #[trigger] self.svols@[k] == vol(
                self.bounds@.skip(k),
            )))
        &&& vol(self.bounds@) <= usize::MAX
    }

    /// Creates an automaton: validates both rules against the maximum
    /// neighbor count of the adjacency method in this dimensionality,
    /// then fills the dense grid, giving every seeded coordinate the
    /// maximal state and every other coordinate zero.
    pub fn new(rules: AutomataRules, bounds: Vec<usize>, seeds: Vec<Vec<usize>>) -> (r: Result<
        Automaton,
        u8,
    >)
        requires
            rules@.cell_states >= 2,
            vol(bounds@) <= usize::MAX,
            max_neighbors(rules@.neighbor_method, bounds@.len()) <= 255,
        ensures
            match r {
                Result::Err(m) => m as nat == max_neighbors(rules@.neighbor_method, bounds@.len())
                    && !(rule_ok(rules@.to_survive, m) && rule_ok(rules@.to_be_born, m)),
                Result::Ok(a) => {
                    &&& a.wf()
                    &&& rule_ok(
                        rules@.to_survive,
                        max_neighbors(rules@.neighbor_method, bounds@.len()) as u8,
                    )
                    &&& rule_ok(
                        rules@.to_be_born,
                        max_neighbors(rules@.neighbor_method, bounds@.len()) as u8,
                    )
                    &&& a@.rules == rules@
                    &&& a@.bounds == bounds@
                    &&& a@.cells.len() == vol(bounds@)
                    &&& forall|c: Seq<usize>|
                        in_bounds(c, bounds@) ==> #[trigger] state_at(a@, c) == (
                        if seq_views(seeds@).contains(c) {
                            (rules@.cell_states - 1) as u8
                        } else {
                            0u8
                        })
                },
            },
    {
        let dim = bounds.len();
        let maxn = max_neighbors_exec(&rules.neighbor_method, dim);
        if !rules.to_survive.within_max(maxn) {
            return Result::Err(maxn);
        }
        if !rules.to_be_born.within_max(maxn) {
            return Result::Err(maxn);
        }
        let mut k: usize = 0;
        let mut has_zero = false;
        while k < dim
            invariant
                k <= dim,
                has_zero ==> exists|t: int| 0 <= t < bounds@.len() && bounds@[t] == 0,
                !has_zero ==> forall|t: int| 0 <= t < k ==> bounds@[t] >= 1,
            decreases dim - k,
        {
            if bounds[k] == 0 {
                has_zero = true;
            }
            k += 1;
        }
        if has_zero {
            proof {
                let t = choose|t: int| 0 <= t < bounds@.len() && bounds@[t] == 0;
                lemma_vol_zero(bounds@, t);
            }
            let a = Automaton {
                rules,
                bounds,
                coords: Vec::new(),
                svols: Vec::new(),
                cells: Vec::new(),
            };
            return Result::Ok(a);
        }
        let coords = coords_from(&bounds, 0);
        proof {
            assert(bounds@.skip(0) =~= bounds@);
        }
        let svols = suffix_vols(&bounds);
        let n = coords.len();
        let mut cells: Vec<u8> = Vec::new();
        let mut i: usize = 0;
        while i < n
            invariant
                i <= n,
                cells@.len() == i,
                forall|t: int|
                    0 <= t < i ==> #[trigger] cells@[t] == (if seq_views(seeds@).contains(
                        coords@[t]@,
                    ) {
                        (rules@.cell_states - 1) as u8
                    } else {
                        0u8
                    }),
            decreases n - i,
        {
            let s: u8 = if contains_coord(&seeds, &coords[i]) {
                rules.cell_states - 1
            } else {
                0
            };
            cells.push(s);
            i += 1;
        }
        let a = Automaton { rules, bounds, coords, svols, cells };
        proof {
            assert forall|c: Seq<usize>| in_bounds(c, a.bounds@) implies #[trigger] state_at(
                a@,
                c,
            ) == (if seq_views(seeds@).contains(c) {
                (a.rules@.cell_states - 1) as u8
            } else {
                0u8
            }) by {
                lemma_lin_range(c, a.bounds@);
                let t = lin(c, a.bounds@);
                lemma_lin_inject(c, a.coords@[t]@, a.bounds@);
            }
        }
        Result::Ok(a)
    }
}

fn lin_exec(bounds: &Vec<usize>, svols: &Vec<usize>, c: &Vec<usize>) -> (r: usize)
    requires
        in_bounds(c@, bounds@),
        vol(bounds@) <= usize::MAX,
        svols@.len() == bounds@.len() + 1,
        forall|k: int| 0 <= k <= bounds@.len() ==> #[trigger] svols@[k] == vol(bounds@.skip(k)),
    ensures
        r as int == lin(c@, bounds@),
{
    let dim = c.len();
    proof {
        assert(c@.skip(0) =~= c@);
        assert(bounds@.skip(0) =~= bounds@);
        lemma_lin_range(c@, bounds@);
    }
    let mut acc: usize = 0;
    let mut k: usize = 0;
    while k < dim
        invariant
            k <= dim,
            acc + lin(c@.skip(k as int), bounds@.skip(k as int)) == lin(c@, bounds@),
            lin(c@.skip(k as int), bounds@.skip(k as int)) >= 0,
        decreases dim - k,
    {
        proof {
            lemma_lin_skip_unfold(c@, bounds@, k as int);
            assert(in_bounds(c@.skip(k as int + 1), bounds@.skip(k as int + 1)));
            lemma_lin_range(c@.skip(k as int + 1), bounds@.skip(k as int + 1));
            assert(c@[k as int] * vol(bounds@.skip(k as int + 1)) >= 0);
            assert(acc + c@[k as int] * svols@[k as int + 1] <= lin(c@, bounds@));
        }
        acc = acc + c[k] * svols[k + 1];
        k += 1;
    }
    proof {
        assert(c@.skip(dim as int) =~= Seq::<usize>::empty());
        assert(bounds@.skip(dim as int) =~= Seq::<usize>::empty());
    }
    acc
}

fn live_neighbor(
    cells: &Vec<u8>,
    bounds: &Vec<usize>,
    svols: &Vec<usize>,
    c: &Vec<usize>,
    off: &Vec<i8>,
) -> (b: bool)
    requires
        cells@.len() == vol(bounds@),
        vol(bounds@) <= usize::MAX,
        in_bounds(c@, bounds@),
        off_wf(off@, bounds@.len()),
        svols@.len() == bounds@.len() + 1,
        forall|k: int| 0 <= k <= bounds@.len() ==> #[trigger] svols@[k] == vol(bounds@.skip(k)),
    ensures
        b == live_at(cells@, bounds@, c@, off@),
{
    let dim = c.len();
    let mut nc: Vec<usize> = Vec::new();
    let mut k: usize = 0;
    while k < dim
        invariant
            k <= dim,
            nc@.len() == k,
            forall|t: int| 0 <= t < k ==> #[trigger] nc@[t] == c@[t] + off@[t],
            forall|t: int|
                0 <= t < k ==> 0 <= c@[t] + #[trigger] off@[t] && c@[t] + off@[t] < bounds@[t],
        decreases dim - k,
    {
        let ck = c[k];
        let ok = off[k];
        proof {
            assert(c@[k as int] < bounds@[k as int]);
            assert(-1 <= off@[k as int] <= 1);
        }
        if ok < 0 {
            assert(ok == -1i8);
            if ck == 0 {
                assert(c@[k as int] + off@[k as int] < 0);
                assert(!off_in_bounds(c@, off@, bounds@));
                return false;
            }
            nc.push(ck - 1);
        } else if ok == 0 {
            nc.push(ck);
        } else {
            assert(ok == 1i8);
            let nk = ck + 1;
            if nk >= bounds[k] {
                assert(c@[k as int] + off@[k as int] >= bounds@[k as int]);
                assert(!off_in_bounds(c@, off@, bounds@));
                return false;
            }
            nc.push(nk);
        }
        proof {
            assert(nc@[k as int] == c@[k as int] + off@[k as int]);
            assert(0 <= c@[k as int] + off@[k as int] < bounds@[k as int]);
        }
        k += 1;
    }
    proof {
        assert(off_in_bounds(c@, off@, bounds@));
        assert(nc@ =~= shift(c@, off@));
        assert(in_bounds(nc@, bounds@));
    }
    let idx = lin_exec(bounds, svols, &nc);
    proof {
        lemma_lin_range(nc@, bounds@);
    }
    cells[idx] > 0
}

fn count_cell(
    cells: &Vec<u8>,
    bounds: &Vec<usize>,
    svols: &Vec<usize>,
    c: &Vec<usize>,
    offs: &Vec<Vec<i8>>,
) -> (r: u8)
    requires
        cells@.len() == vol(bounds@),
        vol(bounds@) <= usize::MAX,
        in_bounds(c@, bounds@),
        offs_wf(offs.deep_view(), bounds@.len()),
        offs@.len() <= 255,
        svols@.len() == bounds@.len() + 1,
        forall|k: int| 0 <= k <= bounds@.len() ==> #[trigger] svols@[k] == vol(bounds@.skip(k)),
    ensures
        r as nat == count_live(cells@, bounds@, c@, offs.deep_view()),
{
    let mut cnt: u8 = 0;
    let mut i: usize = 0;
    while i < offs.len()
        invariant
            i <= offs@.len(),
            cnt as int <= i,
            cnt as nat == count_live(cells@, bounds@, c@, offs.deep_view().take(i as int)),
        decreases offs@.len() - i,
    {
        proof {
            assert(offs.deep_view()[i as int] =~= offs@[i as int]@);
        }
        if live_neighbor(cells, bounds, svols, c, &offs[i]) {
            cnt += 1;
        }
        i += 1;
        proof {
            assert(offs.deep_view().take(i as int).drop_last() =~~= offs.deep_view().take(
                i as int - 1,
            ));
            assert(offs.deep_view().take(i as int).last() == offs.deep_view()[i as int - 1]);
        }
    }
    proof {
        assert(offs.deep_view().take(offs@.len() as int) =~~= offs.deep_view());
    }
    cnt
}

fn next_state_exec(s: u8, n: u8, rules: &AutomataRules) -> (r: u8)
    requires
        rules@.cell_states >= 2,
        s <= rules@.cell_states - 1,
    ensures
        r == next_state(s, n, rules@),
        r <= rules@.cell_states - 1,
{
    if s == 0 {
        if rules.to_be_born.matches(n) {
            rules.cell_states - 1
        } else {
            0
        }
    } else if s == rules.cell_states - 1 {
        if rules.to_survive.matches(n) {
            s
        } else {
            s - 1
        }
    } else {
        s - 1
    }
}

impl Automaton {
    /// Advances the grid by one time step. All neighbor counts are taken
    /// against the pre-tick snapshot, and only then is any state
    /// replaced, so the outcome does not depend on the order in which
    /// cells are processed.
    pub fn tick(&mut self)
        requires
            old(self).wf(),
        ensures
            final(self).wf(),
            final(self)@.rules == old(self)@.rules,
            final(self)@.bounds == old(self)@.bounds,
            final(self)@.cells.len() == old(self)@.cells.len(),
            forall|c: Seq<usize>|
                in_bounds(c, old(self)@.bounds) ==> #[trigger] state_at(final(self)@, c) == tick_state(
                    old(self)@,
                    c,
                ),
    {
        let dim = self.bounds.len();
        proof {
            lemma_offsets_wf(self.rules@.neighbor_method, dim as nat);
        }
        let offs = offsets_exec(&self.rules.neighbor_method, dim);
        let n = self.cells.len();
        let mut counts: Vec<u8> = Vec::new();
        let mut i: usize = 0;
        while i < n
            invariant
                i <= n,
                counts@.len() == i,
                forall|t: int|
                    0 <= t < i ==> (#[trigger] counts@[t]) as nat == count_live(
                        self.cells@,
                        self.bounds@,
                        self.coords@[t]@,
                        offs.deep_view(),
                    ),
            decreases n - i,
        {
            let cnt = count_cell(&self.cells, &self.bounds, &self.svols, &self.coords[i], &offs);
            counts.push(cnt);
            i += 1;
        }
        let mut new_cells: Vec<u8> = Vec::new();
        let mut j: usize = 0;
        while j < n
            invariant
                j <= n,
                new_cells@.len() == j,
                forall|t: int|
                    0 <= t < j ==> #[trigger] new_cells@[t] == next_state(
                        self.cells@[t],
                        counts@[t],
                        self.rules@,
                    ) && new_cells@[t] <= self.rules@.cell_states - 1,
            decreases n - j,
        {
            let ns = next_state_exec(self.cells[j], counts[j], &self.rules);
            new_cells.push(ns);
            j += 1;
        }
        let ghost pre = self@;
        self.cells = new_cells;
        proof {
            assert forall|c: Seq<usize>| in_bounds(c, pre.bounds) implies #[trigger] state_at(
                self@,
                c,
            ) == tick_state(pre, c) by {
                lemma_lin_range(c, pre.bounds);
                let t = lin(c, pre.bounds);
                lemma_lin_inject(c, self.coords@[t]@, pre.bounds);
            }
        }
    }

    /// A full, independent snapshot of the grid: one coordinate-state
    /// pair per cell, in row-major order.
    pub fn get_cells(&self) -> (r: Vec<(Vec<usize>, u8)>)
        requires
            self.wf(),
        ensures
            r@.len() == vol(self@.bounds),
            forall|i: int|
                0 <= i < r@.len() ==> in_bounds(#[trigger] r@[i].0@, self@.bounds) && lin(
                    r@[i].0@,
                    self@.bounds,
                ) == i && r@[i].1 == self@.cells[i],
            forall|c: Seq<usize>|
                in_bounds(c, self@.bounds) ==> 0 <= #[trigger] lin(c, self@.bounds) < r@.len()
                    && r@[lin(c, self@.bounds)].0@ == c && r@[lin(c, self@.bounds)].1 == state_at(
                    self@,
                    c,
                ),
    {
        let n = self.cells.len();
        let mut r: Vec<(Vec<usize>, u8)> = Vec::new();
        let mut i: usize = 0;
        while i < n
            invariant
                i <= n,
                r@.len() == i,
                forall|t: int|
                    0 <= t < i ==> in_bounds(#[trigger] r@[t].0@, self.bounds@) && lin(
                        r@[t].0@,
                        self.bounds@,
                    ) == t && r@[t].1 == self.cells@[t],
            decreases n - i,
        {
            let c = copy_coord(&self.coords[i]);
            let s = self.cells[i];
            let ghost rpre = r@;
            r.push((c, s));
            proof {
                assert(r@[i as int].0@ == self.coords@[i as int]@);
                assert forall|t: int|
                    0 <= t < i + 1 implies in_bounds(#[trigger] r@[t].0@, self.bounds@) && lin(
                    r@[t].0@,
                    self.bounds@,
                ) == t && r@[t].1 == self.cells@[t] by {
                    if t < i {
                        assert(r@[t] == rpre[t]);
                        assert(in_bounds(rpre[t].0@, self.bounds@));
                    }
                }
            }
            i += 1;
        }
        proof {
            assert forall|c: Seq<usize>| in_bounds(c, self.bounds@) implies 0 <= #[trigger] lin(
                c,
                self.bounds@,
            ) < r@.len() && r@[lin(c, self.bounds@)].0@ == c && r@[lin(c, self.bounds@)].1
                == state_at(self@, c) by {
                lemma_lin_range(c, self.bounds@);
                let t = lin(c, self.bounds@);
                lemma_lin_inject(c, r@[t].0@, self.bounds@);
            }
        }
        r
    }
}

proof fn lemma_count_dead(cells: Seq<u8>, bounds: Seq<usize>, c: Seq<usize>, offs: Seq<Seq<i8>>)
    requires
        cells.len() == vol(bounds),
        in_bounds(c, bounds),
        forall|i: int| 0 <= i < cells.len() ==> cells[i] == 0,
    ensures
        count_live(cells, bounds, c, offs) == 0,
    decreases offs.len(),
{
    if offs.len() > 0 {
        lemma_count_dead(cells, bounds, c, offs.drop_last());
        let off = offs.last();
        if live_at(cells, bounds, c, off) {
            assert forall|k: int| 0 <= k < shift(c, off).len() implies shift(c, off)[k] < bounds[k]
            by {}
            assert(in_bounds(shift(c, off), bounds));
            lemma_lin_range(shift(c, off), bounds);
            assert(false);
        }
    }
}

/// A grid with no live cells stays entirely dead through a tick whenever
/// the birth rule does not accept a zero neighbor count: every cell is
/// dead, so every count is zero, and nothing is born.
pub proof fn lemma_dead_grid_stable(v: GridV, c: Seq<usize>)
    requires
        v.cells.len() == vol(v.bounds),
        forall|i: int| 0 <= i < v.cells.len() ==> v.cells[i] == 0,
        !rule_matches(v.rules.to_be_born, 0),
        in_bounds(c, v.bounds),
    ensures
        tick_state(v, c) == 0,
{
    lemma_lin_range(c, v.bounds);
    lemma_count_dead(v.cells, v.bounds, c, offsets(v.rules.neighbor_method, v.bounds.len()));
}

/// A decaying cell — strictly between dead and fully alive — steps down
/// by exactly one in a tick, whatever the rules and its neighbor count.
pub proof fn lemma_decay_monotonic(v: GridV, c: Seq<usize>)
    requires
        in_bounds(c, v.bounds),
        0 < state_at(v, c),
        state_at(v, c) < v.rules.cell_states - 1,
    ensures
        tick_state(v, c) == state_at(v, c) - 1,
{
}

fn count_at(a: &Automaton, offs: &Vec<Vec<i8>>, i: usize) -> (r: u8)
    requires
        a.wf(),
        i < a.cells@.len(),
        offs_wf(offs.deep_view(), a.bounds@.len()),
        offs@.len() <= 255,
    ensures
        r as nat == count_live(a.cells@, a.bounds@, a.coords@[i as int]@, offs.deep_view()),
{
    count_cell(&a.cells, &a.bounds, &a.svols, &a.coords[i], offs)
}

fn apply_at(a: &Automaton, counts: &Vec<u8>, i: usize) -> (r: u8)
    requires
        a.wf(),
        i < a.cells@.len(),
        counts@.len() == a.cells@.len(),
    ensures
        r == next_state(a.cells@[i as int], counts@[i as int], a.rules@),
        r <= a.rules@.cell_states - 1,
{
    next_state_exec(a.cells[i], counts[i], &a.rules)
}

/// Relies on rayon: a `map` over the indexed parallel iterator of
/// `0..n`, collected into a `Vec`, yields the closure's result for index
/// `i` at position `i`; the closure only calls the verified [`count_at`],
/// whose contract gives each element below.
#[verifier::external_body]
fn par_counts(a: &Automaton, offs: &Vec<Vec<i8>>) -> (r: Vec<u8>)
    requires
        a.wf(),
        offs_wf(offs.deep_view(), a.bounds@.len()),
        offs@.len() <= 255,
    ensures
        r@.len() == a.cells@.len(),
        forall|t: int|
            0 <= t < r@.len() ==> (#[trigger] r@[t]) as nat == count_live(
                a.cells@,
                a.bounds@,
                a.coords@[t]@,
                offs.deep_view(),
            ),
{
    (0..a.cells.len()).into_par_iter().map(|i| count_at(a, offs, i)).collect()
}

/// Relies on rayon: a `map` over the indexed parallel iterator of
/// `0..n`, collected into a `Vec`, yields the closure's result for index
/// `i` at position `i`; the closure only calls the verified [`apply_at`],
/// whose contract gives each element below.
#[verifier::external_body]
fn par_apply(a: &Automaton, counts: &Vec<u8>) -> (r: Vec<u8>)
    requires
        a.wf(),
        counts@.len() == a.cells@.len(),
    ensures
        r@.len() == a.cells@.len(),
        forall|t: int|
            0 <= t < r@.len() ==> #[trigger] r@[t] == next_state(
                a.cells@[t],
                counts@[t],
                a.rules@,
            ) && r@[t] <= a.rules@.cell_states - 1,
{
    (0..a.cells.len()).into_par_iter().map(|i| apply_at(a, counts, i)).collect()
}

impl Automaton {
    /// Advances the grid by one time step on a thread pool. The observable
    /// effect is exactly that of [`Automaton::tick`]: both phases are
    /// maps over the pre-tick snapshot, so partitioning the cells among
    /// workers cannot change any result.
    pub fn par_tick(&mut self)
        requires
            old(self).wf(),
        ensures
            final(self).wf(),
            final(self)@.rules == old(self)@.rules,
            final(self)@.bounds == old(self)@.bounds,
            final(self)@.cells.len() == old(self)@.cells.len(),
            forall|c: Seq<usize>|
                in_bounds(c, old(self)@.bounds) ==> #[trigger] state_at(final(self)@, c)
                    == tick_state(old(self)@, c),
    {
        let dim = self.bounds.len();
        proof {
            lemma_offsets_wf(self.rules@.neighbor_method, dim as nat);
        }
        let offs = offsets_exec(&self.rules.neighbor_method, dim);
        let counts = par_counts(self, &offs);
        let new_cells = par_apply(self, &counts);
        let ghost pre = self@;
        self.cells = new_cells;
        proof {
            assert forall|c: Seq<usize>| in_bounds(c, pre.bounds) implies #[trigger] state_at(
                self@,
                c,
            ) == tick_state(pre, c) by {
                lemma_lin_range(c, pre.bounds);
                let t = lin(c, pre.bounds);
                lemma_lin_inject(c, self.coords@[t]@, pre.bounds);
            }
        }
    }
}

/// The coordinate with row-major linear index `i`: the inverse of
/// [`lin`] on indices below the volume.
pub open spec fn decode(i: int, bounds: Seq<usize>) -> Seq<usize>
    decreases bounds.len(),
{
    if bounds.len() == 0 {
        Seq::empty()
    } else {
        seq![(i / (vol(bounds.skip(1)) as int)) as usize] + decode(
            i % (vol(bounds.skip(1)) as int),
            bounds.skip(1),
        )
    }
}

/// Within the volume, the linearization is surjective: every index is
/// [`lin`] of the in-bounds coordinate [`decode`] gives for it.
pub proof fn lemma_lin_surjective(i: int, bounds: Seq<usize>)
    requires
        0 <= i < vol(bounds),
    ensures
        in_bounds(decode(i, bounds), bounds),
        lin(decode(i, bounds), bounds) == i,
    decreases bounds.len(),
{
    if bounds.len() == 0 {
        assert(decode(i, bounds) =~= Seq::<usize>::empty());
    } else {
        let b0 = bounds[0] as int;
        let vr = vol(bounds.skip(1)) as int;
        assert(vol(bounds) == b0 * vr);
        assert(vr > 0 && b0 > 0) by (nonlinear_arith)
            requires
                b0 * vr > 0,
                b0 >= 0,
                vr >= 0,
        ;
        let q = i / vr;
        let r = i % vr;
        vstd::arithmetic::div_mod::lemma_fundamental_div_mod(i, vr);
        vstd::arithmetic::div_mod::lemma_mod_bound(i, vr);
        vstd::arithmetic::div_mod::lemma_div_pos_is_pos(i, vr);
        assert(q < b0) by (nonlinear_arith)
            requires
                i == vr * q + r,
                0 <= r < vr,
                i < b0 * vr,
                q >= 0,
        ;
        lemma_lin_surjective(r, bounds.skip(1));
        let tail = decode(r, bounds.skip(1));
        let c = decode(i, bounds);
        assert(c == seq![q as usize] + tail);
        assert(c.skip(1) =~= tail);
        assert forall|k: int| 0 <= k < c.len() implies c[k] < bounds[k] by {
            if k > 0 {
                assert(c[k] == tail[k - 1]);
            }
        }
        assert(in_bounds(c, bounds));
        assert(lin(c, bounds) == q * vr + lin(tail, bounds.skip(1)));
        assert(q * vr == vr * q) by (nonlinear_arith);
    }
}

/// A grid with no live cells ticks to a grid with no live cells whenever
/// the birth rule does not accept a zero neighbor count: any grid `w`
/// that the tick contract relates to a dead grid `v` is again entirely
/// dead, so a dead grid stays dead through any number of ticks.
pub proof fn lemma_dead_grid_stays_dead(v: GridV, w: GridV)
    requires
        v.cells.len() == vol(v.bounds),
        forall|i: int| 0 <= i < v.cells.len() ==> v.cells[i] == 0,
        !rule_matches(v.rules.to_be_born, 0),
        w.bounds == v.bounds,
        w.cells.len() == v.cells.len(),
        forall|c: Seq<usize>|
            in_bounds(c, v.bounds) ==> #[trigger] state_at(w, c) == tick_state(v, c),
    ensures
        forall|i: int| 0 <= i < w.cells.len() ==> w.cells[i] == 0,
{
    assert forall|i: int| 0 <= i < w.cells.len() implies w.cells[i] == 0 by {
        lemma_lin_surjective(i, v.bounds);
        let c = decode(i, v.bounds);
        lemma_dead_grid_stable(v, c);
        assert(state_at(w, c) == w.cells[i]);
    }
}

} // verus!
