//! The square grid of cells, constraint propagation and the solving loop.

use crate::domain::{Domain, DomainModel, InvalidDomainError};
use crate::random::choose_index;
use crate::state::{all_states, State, STATE_COUNT};
use rand::rngs::StdRng;
use vstd::prelude::*;

verus! {

/// A coordinate lies outside the grid.
#[derive(Clone, Copy, Debug, PartialEq, Eq, Structural)]
pub struct OutOfBoundsError;

/// One of the four sides of a cell.
#[derive(Clone, Copy, Debug, PartialEq, Eq, Structural)]
pub enum Side {
    Left,
    Right,
    Top,
    Bottom,
}

/// Mathematical model of a grid: its side length and its cells, row by row.
pub struct FieldModel {
    pub size: nat,
    pub cells: Seq<DomainModel>,
}

/// Position in the row-major cell sequence of cell `(x, y)`.
pub open spec fn index_of(n: nat, x: int, y: int) -> int {
    y * n + x
}

impl FieldModel {
    /// The cells fill the square, the grid's total uncertainty fits in a
    /// `usize`, and every cell is well formed.
    pub open spec fn wf(self) -> bool {
        &&& self.cells.len() == self.size * self.size
        &&& self.size * self.size * STATE_COUNT <= usize::MAX
        &&& forall|j: int| 0 <= j < self.cells.len() ==> (#[trigger] self.cells[j]).wf()
    }
}

/// `t` may stand next to `o`, with `o` on side `side` of `t`.
pub open spec fn fits_side(t: State, o: State, side: Side) -> bool {
    match side {
        Side::Left => t.fits_left_spec(o),
        Side::Right => t.fits_right_spec(o),
        Side::Top => t.fits_top_spec(o),
        Side::Bottom => t.fits_bottom_spec(o),
    }
}

/// Position of the neighbour of `(x, y)` on side `side`, if the grid has one.
pub open spec fn neighbor_pos(n: nat, x: int, y: int, side: Side) -> Option<int> {
    match side {
        Side::Left => if x > 0 { Some(index_of(n, x - 1, y)) } else { None },
        Side::Right => if x + 1 < n { Some(index_of(n, x + 1, y)) } else { None },
        Side::Top => if y > 0 { Some(index_of(n, x, y - 1)) } else { None },
        Side::Bottom => if y + 1 < n { Some(index_of(n, x, y + 1)) } else { None },
    }
}

/// The neighbour cell of `(x, y)` on side `side` does not rule out tile `t`:
/// there is none, it is fixed to a tile that fits, or one of its candidates fits.
pub open spec fn side_allows(c: Seq<DomainModel>, n: nat, x: int, y: int, t: State, side: Side) -> bool {
    match neighbor_pos(n, x, y, side) {
        None => true,
        Some(j) => match c[j] {
            DomainModel::Collapsed(o) => fits_side(t, o, side),
            DomainModel::Superposition(s) => exists|k: int|
                0 <= k < s.len() && #[trigger] fits_side(t, s[k], side),
            DomainModel::Invalid => true,
        },
    }
}

/// Tile `t` survives at `(x, y)`: all four sides allow it.
pub open spec fn allowed(c: Seq<DomainModel>, n: nat, x: int, y: int, t: State) -> bool {
    &&& side_allows(c, n, x, y, t, Side::Left)
    &&& side_allows(c, n, x, y, t, Side::Right)
    &&& side_allows(c, n, x, y, t, Side::Top)
    &&& side_allows(c, n, x, y, t, Side::Bottom)
}

/// `allowed` at `(x, y)` as a predicate on tiles.
pub open spec fn allowed_pred(c: Seq<DomainModel>, n: nat, x: int, y: int) -> spec_fn(State) -> bool {
    |t: State| allowed(c, n, x, y, t)
}

/// The neighbour of `(x, y)` on side `side` exists and is a contradiction.
pub open spec fn side_invalid(c: Seq<DomainModel>, n: nat, x: int, y: int, side: Side) -> bool {
    match neighbor_pos(n, x, y, side) {
        None => false,
        Some(j) => c[j] is Invalid,
    }
}

/// Some neighbour of `(x, y)` is a contradiction.
pub open spec fn neighbor_invalid(c: Seq<DomainModel>, n: nat, x: int, y: int) -> bool {
    side_invalid(c, n, x, y, Side::Left) || side_invalid(c, n, x, y, Side::Right)
        || side_invalid(c, n, x, y, Side::Top) || side_invalid(c, n, x, y, Side::Bottom)
}

/// The cell that a filtered candidate list leaves.
pub open spec fn narrowed(f: Seq<State>) -> DomainModel {
    if f.len() == 0 {
        DomainModel::Invalid
    } else if f.len() == 1 {
        DomainModel::Collapsed(f[0])
    } else {
        DomainModel::Superposition(f)
    }
}

/// Re-evaluation of cell `(x, y)` against its neighbours; `None` when the
/// cell or one of its neighbours is a contradiction.
pub open spec fn step(c: Seq<DomainModel>, n: nat, x: int, y: int) -> Option<Seq<DomainModel>> {
    let i = index_of(n, x, y);
    if neighbor_invalid(c, n, x, y) {
        None
    } else {
        match c[i] {
            DomainModel::Invalid => None,
            DomainModel::Collapsed(t) => Some(
                if allowed(c, n, x, y, t) {
                    c
                } else {
                    c.update(i, DomainModel::Invalid)
                },
            ),
            DomainModel::Superposition(s) => Some(
                c.update(i, narrowed(s.filter(allowed_pred(c, n, x, y)))),
            ),
        }
    }
}

/// State after re-evaluating, in order, every cell of the rows above `y`
/// and the first `x` cells of row `y`. `Err` holds the state in which a
/// contradiction stopped the sweep.
pub open spec fn sweep(c: Seq<DomainModel>, n: nat, y: nat, x: nat) -> Result<
    Seq<DomainModel>,
    Seq<DomainModel>,
>
    decreases y, x,
{
    if x == 0 {
        if y == 0 {
            Ok(c)
        } else {
            sweep(c, n, (y - 1) as nat, n)
        }
    } else {
        match sweep(c, n, y, (x - 1) as nat) {
            Ok(s) => match step(s, n, x - 1, y as int) {
                Some(s2) => Ok(s2),
                None => Err(s),
            },
            Err(s) => Err(s),
        }
    }
}

/// One full propagation sweep over the grid.
pub open spec fn propagate_model(m: FieldModel) -> Result<Seq<DomainModel>, Seq<DomainModel>> {
    sweep(m.cells, m.size, m.size, 0)
}

/// State after `k` successive propagation sweeps from `c`; `Err` holds the
/// state in which a sweep stopped.
pub open spec fn sweeps(c: Seq<DomainModel>, n: nat, k: nat) -> Result<
    Seq<DomainModel>,
    Seq<DomainModel>,
>
    decreases k,
{
    if k == 0 {
        Ok(c)
    } else {
        match sweeps(c, n, (k - 1) as nat) {
            Ok(s) => sweep(s, n, n, 0),
            Err(s) => Err(s),
        }
    }
}

/// After `i` successive sweeps from `c`, none has stopped and no cell is a
/// contradiction.
pub open spec fn clean_sweep(c: Seq<DomainModel>, n: nat, i: nat) -> bool {
    sweeps(c, n, i) is Ok && !has_invalid(result_cells(sweeps(c, n, i)))
}

/// The cells a sweep left, whether it finished or stopped.
pub open spec fn result_cells(r: Result<Seq<DomainModel>, Seq<DomainModel>>) -> Seq<DomainModel> {
    match r {
        Ok(s) => s,
        Err(s) => s,
    }
}

/// Sum of the uncertainties of all cells, a contradiction counting as 0.
pub open spec fn total(c: Seq<DomainModel>) -> nat
    decreases c.len(),
{
    if c.len() == 0 {
        0
    } else {
        total(c.drop_last()) + c.last().enthropy()
    }
}

/// Some cell is a contradiction.
pub open spec fn has_invalid(c: Seq<DomainModel>) -> bool {
    exists|j: int| 0 <= j < c.len() && #[trigger] c[j] is Invalid
}

/// Cell `j` is undetermined and no undetermined cell is less uncertain.
pub open spec fn is_lowest(c: Seq<DomainModel>, j: int) -> bool {
    &&& 0 <= j < c.len()
    &&& c[j].enthropy() > 0
    &&& forall|k: int|
        0 <= k < c.len() && (#[trigger] c[k]).enthropy() > 0 ==> c[j].enthropy()
            <= c[k].enthropy()
}

/// No cell is undetermined with an empty candidate list.
pub open spec fn no_empty(c: Seq<DomainModel>) -> bool {
    forall|j: int|
        0 <= j < c.len() && (#[trigger] c[j]) is Superposition ==> c[j]->Superposition_0.len() > 0
}

proof fn lemma_index_bound(n: nat, x: int, y: int)
    requires
        0 <= x < n,
        0 <= y < n,
    ensures
        0 <= index_of(n, x, y) < n * n,
{
    assert(0 <= y * n + x < n * n) by (nonlinear_arith)
        requires
            0 <= x < n,
            0 <= y < n,
    ;
}

proof fn lemma_neighbor_in_range(n: nat, x: int, y: int, side: Side)
    requires
        0 <= x < n,
        0 <= y < n,
    ensures
        neighbor_pos(n, x, y, side) matches Some(j) ==> 0 <= j < n * n,
{
    match side {
        Side::Left => if x > 0 {
            lemma_index_bound(n, x - 1, y);
        },
        Side::Right => if x + 1 < n {
            lemma_index_bound(n, x + 1, y);
        },
        Side::Top => if y > 0 {
            lemma_index_bound(n, x, y - 1);
        },
        Side::Bottom => if y + 1 < n {
            lemma_index_bound(n, x, y + 1);
        },
    }
}

/// Once a sweep has stopped on a contradiction, it stays stopped.
proof fn lemma_sweep_err_sticks(c: Seq<DomainModel>, n: nat, y: nat, x: nat, y2: nat, x2: nat)
    requires
        sweep(c, n, y, x) is Err,
        x <= n,
        x2 <= n,
        y < y2 || (y == y2 && x <= x2),
    ensures
        sweep(c, n, y2, x2) == sweep(c, n, y, x),
    decreases y2, x2,
{
    if y2 == y && x2 == x {
    } else if x2 == 0 {
        lemma_sweep_err_sticks(c, n, y, x, (y2 - 1) as nat, n);
    } else {
        lemma_sweep_err_sticks(c, n, y, x, y2, (x2 - 1) as nat);
    }
}

/// The tiles cell `d` still admits.
pub open spec fn candidates(d: DomainModel) -> Set<State> {
    match d {
        DomainModel::Collapsed(t) => set![t],
        DomainModel::Superposition(s) => s.to_set(),
        DomainModel::Invalid => Set::empty(),
    }
}

/// `b` is what re-evaluating cell `a` may leave: `a` itself, a
/// contradiction, or a strictly less uncertain cell whose tile or candidates
/// all come from the candidates of `a`.
pub open spec fn narrows(a: DomainModel, b: DomainModel) -> bool {
    ||| b == a
    ||| b is Invalid
    ||| (a is Superposition && b.enthropy() < a.enthropy() && (b is Superposition
        ==> b->Superposition_0.len() >= 2) && (b is Collapsed
        ==> a->Superposition_0.contains(b->Collapsed_0)) && (b is Superposition ==> forall|t: State|
        #[trigger] b->Superposition_0.contains(t) ==> a->Superposition_0.contains(t)))
}

/// Cell by cell, `d` narrows `c`.
pub open spec fn narrows_all(c: Seq<DomainModel>, d: Seq<DomainModel>) -> bool {
    &&& d.len() == c.len()
    &&& forall|j: int| 0 <= j < c.len() ==> narrows(#[trigger] c[j], d[j])
}

proof fn lemma_filter_full(s: Seq<State>, p: spec_fn(State) -> bool)
    requires
        s.filter(p).len() == s.len(),
    ensures
        s.filter(p) == s,
    decreases s.len(),
{
    reveal(Seq::filter);
    if s.len() > 0 {
        s.drop_last().lemma_filter_len(p);
        if p(s.last()) {
            lemma_filter_full(s.drop_last(), p);
            assert(s.drop_last().push(s.last()) =~= s);
        }
    }
}

proof fn lemma_step_narrows(c: Seq<DomainModel>, n: nat, x: int, y: int)
    requires
        c.len() == n * n,
        0 <= x < n,
        0 <= y < n,
        step(c, n, x, y) is Some,
    ensures
        narrows_all(c, step(c, n, x, y)->Some_0),
{
    let i = index_of(n, x, y);
    lemma_index_bound(n, x, y);
    if let DomainModel::Superposition(s) = c[i] {
        let p = allowed_pred(c, n, x, y);
        s.lemma_filter_len(p);
        if s.filter(p).len() == s.len() {
            lemma_filter_full(s, p);
        }
        let f = s.filter(p);
        assert forall|t: State| #[trigger] f.contains(t) implies s.contains(t) by {
            s.lemma_filter_contains_rev(p, t);
        }
        if f.len() == 1 {
            assert(f.contains(f[0]));
        }
        assert(narrows(c[i], narrowed(f)));
    }
}

proof fn lemma_sweep_narrows(c: Seq<DomainModel>, n: nat, y: nat, x: nat)
    requires
        c.len() == n * n,
        (y < n && x <= n) || (y <= n && x == 0),
    ensures
        narrows_all(c, result_cells(sweep(c, n, y, x))),
    decreases y, x,
{
    if x == 0 {
        if y > 0 {
            lemma_sweep_narrows(c, n, (y - 1) as nat, n);
        }
    } else {
        lemma_sweep_narrows(c, n, y, (x - 1) as nat);
        if let Ok(s) = sweep(c, n, y, (x - 1) as nat) {
            if step(s, n, x - 1, y as int) is Some {
                lemma_step_narrows(s, n, x - 1, y as int);
            }
        }
    }
}

proof fn lemma_total_le(a: Seq<DomainModel>, b: Seq<DomainModel>)
    requires
        a.len() == b.len(),
        forall|j: int| 0 <= j < a.len() ==> (#[trigger] b[j]).enthropy() <= a[j].enthropy(),
    ensures
        total(b) <= total(a),
        (exists|j: int| 0 <= j < a.len() && (#[trigger] b[j]).enthropy() < a[j].enthropy())
            ==> total(b) < total(a),
    decreases a.len(),
{
    if a.len() > 0 {
        let a0 = a.drop_last();
        let b0 = b.drop_last();
        assert forall|j: int| 0 <= j < a0.len() implies (#[trigger] b0[j]).enthropy()
            <= a0[j].enthropy() by {
            assert(b0[j] == b[j] && a0[j] == a[j]);
        }
        lemma_total_le(a0, b0);
        if exists|j: int| 0 <= j < a.len() && (#[trigger] b[j]).enthropy() < a[j].enthropy() {
            let j = choose|j: int| 0 <= j < a.len() && (#[trigger] b[j]).enthropy() < a[j].enthropy();
            if j < a.len() - 1 {
                assert(b0[j] == b[j] && a0[j] == a[j]);
            }
        }
    }
}

/// A single propagation sweep never raises the uncertainty of any cell and
/// never adds a candidate to a cell, so the total uncertainty of the grid
/// never grows from one sweep to the next.
pub proof fn lemma_propagate_monotone(m: FieldModel)
    requires
        m.wf(),
    ensures
        result_cells(propagate_model(m)).len() == m.cells.len(),
        forall|j: int|
            0 <= j < m.cells.len() ==> (#[trigger] result_cells(propagate_model(m))[j]).enthropy()
                <= m.cells[j].enthropy(),
        total(result_cells(propagate_model(m))) <= total(m.cells),
        forall|j: int|
            0 <= j < m.cells.len() ==> candidates(
                #[trigger] result_cells(propagate_model(m))[j],
            ).subset_of(candidates(m.cells[j])),
{
    let r = result_cells(propagate_model(m));
    lemma_sweep_narrows(m.cells, m.size, m.size, 0);
    assert forall|j: int| 0 <= j < m.cells.len() implies candidates(#[trigger] r[j]).subset_of(
        candidates(m.cells[j]),
    ) by {
        assert(narrows(m.cells[j], r[j]));
        assert forall|t: State| candidates(r[j]).contains(t) implies candidates(
            m.cells[j],
        ).contains(t) by {
            if r[j] is Collapsed && r[j] != m.cells[j] {
                assert(m.cells[j]->Superposition_0.contains(t));
            }
            if r[j] is Superposition && r[j] != m.cells[j] {
                assert(r[j]->Superposition_0.contains(t));
            }
        }
    }
    assert forall|j: int| 0 <= j < m.cells.len() implies (#[trigger] r[j]).enthropy()
        <= m.cells[j].enthropy() by {
        assert(narrows(m.cells[j], r[j]));
    }
    lemma_total_le(m.cells, r);
}

/// Once a sweep succeeds, leaves no contradiction and does not change the
/// total uncertainty, it has changed no cell at all: the grid is a fixed
/// point, and a further sweep yields the identical grid.
pub proof fn lemma_fixed_point(m: FieldModel)
    requires
        m.wf(),
        propagate_model(m) is Ok,
        !has_invalid(result_cells(propagate_model(m))),
        total(result_cells(propagate_model(m))) == total(m.cells),
    ensures
        propagate_model(m) == Ok::<Seq<DomainModel>, Seq<DomainModel>>(m.cells),
        propagate_model(FieldModel { size: m.size, cells: result_cells(propagate_model(m)) })
            == propagate_model(m),
{
    let c = m.cells;
    let r = result_cells(propagate_model(m));
    lemma_propagate_monotone(m);
    lemma_sweep_narrows(c, m.size, m.size, 0);
    assert forall|j: int| 0 <= j < c.len() implies #[trigger] r[j] == c[j] by {
        assert(narrows(c[j], r[j]));
        if r[j] != c[j] {
            assert(!(r[j] is Invalid));
            assert(r[j].enthropy() < c[j].enthropy());
            lemma_total_le(c, r);
        }
    }
    assert(r =~= c);
}

proof fn lemma_narrows_total(c: Seq<DomainModel>, d: Seq<DomainModel>)
    requires
        narrows_all(c, d),
    ensures
        total(d) <= total(c),
        no_empty(c) ==> no_empty(d),
{
    assert forall|j: int| 0 <= j < c.len() implies (#[trigger] d[j]).enthropy()
        <= c[j].enthropy() by {
        assert(narrows(c[j], d[j]));
    }
    lemma_total_le(c, d);
}

proof fn lemma_filter_all(s: Seq<State>, p: spec_fn(State) -> bool)
    requires
        forall|t: State| #[trigger] p(t),
    ensures
        s.filter(p) == s,
    decreases s.len(),
{
    reveal(Seq::filter);
    if s.len() > 0 {
        lemma_filter_all(s.drop_last(), p);
        assert(s.drop_last().push(s.last()) =~= s);
    }
}

/// On a one-cell grid no side has a neighbour, so propagation rules out no
/// tile: every tile is allowed, the sweep succeeds, a fixed cell stays as it
/// is, an undetermined cell keeps all its candidates (a single one becomes
/// fixed), and the cell never becomes a contradiction.
pub proof fn lemma_single_cell_unconstrained(m: FieldModel)
    requires
        m.size == 1,
        m.cells.len() == 1,
        !(m.cells[0] is Invalid),
        no_empty(m.cells),
    ensures
        forall|t: State| #[trigger] allowed(m.cells, 1, 0, 0, t),
        propagate_model(m) is Ok,
        !(result_cells(propagate_model(m))[0] is Invalid),
        m.cells[0] is Collapsed ==> propagate_model(m) == Ok::<
            Seq<DomainModel>,
            Seq<DomainModel>,
        >(m.cells),
        m.cells[0] is Superposition && m.cells[0]->Superposition_0.len() >= 2 ==> propagate_model(m)
            == Ok::<Seq<DomainModel>, Seq<DomainModel>>(m.cells),
{
    let c = m.cells;
    assert(sweep(c, 1, 0, 0) == Ok::<Seq<DomainModel>, Seq<DomainModel>>(c));
    assert(sweep(c, 1, 0, 1) == match step(c, 1, 0, 0) {
        Some(s2) => Ok(s2),
        None => Err(c),
    });
    assert(propagate_model(m) == sweep(c, 1, 0, 1));
    assert(!neighbor_invalid(c, 1, 0, 0));
    if let DomainModel::Superposition(s) = c[0] {
        lemma_filter_all(s, allowed_pred(c, 1, 0, 0));
        assert(c.update(0, DomainModel::Superposition(s)) =~= c);
    }
    if c[0] is Collapsed {
        assert(allowed(c, 1, 0, 0, c[0]->Collapsed_0));
    }
}

/// `(y, x)` is a point that a sweep over an `n` × `n` grid passes.
pub open spec fn sweep_point(n: nat, y: nat, x: nat) -> bool {
    (y < n && x <= n) || (y <= n && x == 0)
}

/// Every fixed cell is allowed by its neighbours; where those are fixed
/// too, each adjacent pair fits.
pub open spec fn consistent(m: FieldModel) -> bool {
    forall|x: int, y: int|
        0 <= x < m.size && 0 <= y < m.size && (#[trigger] m.cells[index_of(m.size, x, y)]) is Collapsed
            ==> allowed(m.cells, m.size, x, y, m.cells[index_of(m.size, x, y)]->Collapsed_0)
}

proof fn lemma_narrows_trans(a: Seq<DomainModel>, b: Seq<DomainModel>, d: Seq<DomainModel>)
    requires
        narrows_all(a, b),
        narrows_all(b, d),
    ensures
        narrows_all(a, d),
{
    assert forall|j: int| 0 <= j < a.len() implies narrows(#[trigger] a[j], d[j]) by {
        assert(narrows(a[j], b[j]));
        assert(narrows(b[j], d[j]));
    }
}

/// Later points of a sweep only narrow what earlier points left.
proof fn lemma_sweep_narrows_later(c: Seq<DomainModel>, n: nat, y: nat, x: nat, y2: nat, x2: nat)
    requires
        c.len() == n * n,
        sweep_point(n, y, x),
        sweep_point(n, y2, x2),
        y < y2 || (y == y2 && x <= x2),
    ensures
        narrows_all(result_cells(sweep(c, n, y, x)), result_cells(sweep(c, n, y2, x2))),
    decreases y2, x2,
{
    lemma_sweep_narrows(c, n, y, x);
    if y2 == y && x2 == x {
    } else if x2 == 0 {
        lemma_sweep_narrows_later(c, n, y, x, (y2 - 1) as nat, n);
    } else {
        lemma_sweep_narrows_later(c, n, y, x, y2, (x2 - 1) as nat);
        lemma_sweep_narrows(c, n, y2, (x2 - 1) as nat);
        let before = sweep(c, n, y2, (x2 - 1) as nat);
        if let Ok(s) = before {
            if step(s, n, x2 - 1, y2 as int) is Some {
                lemma_step_narrows(s, n, x2 - 1, y2 as int);
                lemma_narrows_trans(
                    result_cells(sweep(c, n, y, x)),
                    s,
                    result_cells(sweep(c, n, y2, x2)),
                );
            }
        }
    }
}

/// A grid of fixed cells that a sweep leaves unchanged is consistent.
proof fn lemma_settled_consistent(m: FieldModel)
    requires
        m.wf(),
        propagate_model(m) == Ok::<Seq<DomainModel>, Seq<DomainModel>>(m.cells),
        forall|j: int| 0 <= j < m.cells.len() ==> (#[trigger] m.cells[j]) is Collapsed,
    ensures
        consistent(m),
{
    let c = m.cells;
    let n = m.size;
    assert forall|x: int, y: int|
        0 <= x < n && 0 <= y < n && (#[trigger] c[index_of(n, x, y)]) is Collapsed implies allowed(
        c,
        n,
        x,
        y,
        c[index_of(n, x, y)]->Collapsed_0,
    ) by {
        let i = index_of(n, x, y);
        lemma_index_bound(n, x, y);
        let yy = y as nat;
        let xx = x as nat;
        lemma_sweep_narrows(c, n, yy, xx);
        lemma_sweep_narrows_later(c, n, yy, xx, n, 0);
        let s = result_cells(sweep(c, n, yy, xx));
        assert forall|j: int| 0 <= j < c.len() implies #[trigger] s[j] == c[j] by {
            assert(narrows(c[j], s[j]));
            assert(narrows(s[j], c[j]));
        }
        assert(s =~= c);
        if sweep(c, n, yy, xx) is Err {
            lemma_sweep_err_sticks(c, n, yy, xx, n, 0);
        }
        assert(sweep(c, n, yy, xx) == Ok::<Seq<DomainModel>, Seq<DomainModel>>(c));
        assert(sweep(c, n, yy, (xx + 1) as nat) == match step(c, n, x, y) {
            Some(s2) => Ok(s2),
            None => Err(c),
        });
        if sweep(c, n, yy, (xx + 1) as nat) is Err {
            lemma_sweep_err_sticks(c, n, yy, (xx + 1) as nat, n, 0);
        }
        lemma_sweep_narrows_later(c, n, yy, (xx + 1) as nat, n, 0);
        let s2 = result_cells(sweep(c, n, yy, (xx + 1) as nat));
        assert(narrows(s2[i], c[i]));
    }
}

/// Two fixed cells side by side in a row whose shared edge disagrees make a
/// propagation sweep fail on a contradiction.
pub proof fn lemma_mismatch_fails(m: FieldModel, x: int, y: int, a: State, b: State)
    requires
        m.wf(),
        0 <= x,
        x + 1 < m.size,
        0 <= y < m.size,
        m.cells[index_of(m.size, x, y)] == DomainModel::Collapsed(a),
        m.cells[index_of(m.size, x + 1, y)] == DomainModel::Collapsed(b),
        !a.fits_right_spec(b),
    ensures
        propagate_model(m) is Err,
{
    let c = m.cells;
    let n = m.size;
    let i = index_of(n, x, y);
    let yy = y as nat;
    let xx = x as nat;
    lemma_index_bound(n, x, y);
    lemma_index_bound(n, x + 1, y);
    lemma_sweep_narrows(c, n, yy, xx);
    if sweep(c, n, yy, xx) is Err {
        lemma_sweep_err_sticks(c, n, yy, xx, n, 0);
    } else {
        let s = result_cells(sweep(c, n, yy, xx));
        assert(narrows(c[i], s[i]));
        assert(narrows(c[i + 1], s[i + 1]));
        assert(sweep(c, n, yy, (xx + 1) as nat) == match step(s, n, x, y) {
            Some(s2) => Ok(s2),
            None => Err(s),
        });
        if step(s, n, x, y) is None {
            lemma_sweep_err_sticks(c, n, yy, (xx + 1) as nat, n, 0);
        } else {
            assert(!side_invalid(s, n, x, y, Side::Right));
            assert(s[i + 1] == DomainModel::Collapsed(b));
            assert(s[i] == DomainModel::Collapsed(a));
            assert(!side_allows(s, n, x, y, a, Side::Right));
            let s2 = s.update(i, DomainModel::Invalid);
            assert(step(s, n, x, y) == Some(s2));
            assert(side_invalid(s2, n, x + 1, y, Side::Left));
            assert(sweep(c, n, yy, (xx + 2) as nat) == match step(s2, n, x + 1, y) {
                Some(s3) => Ok(s3),
                None => Err(s2),
            });
            lemma_sweep_err_sticks(c, n, yy, (xx + 2) as nat, n, 0);
        }
    }
}

proof fn lemma_consistent_sweep(m: FieldModel, y: nat, x: nat)
    requires
        m.wf(),
        forall|j: int| 0 <= j < m.cells.len() ==> (#[trigger] m.cells[j]) is Collapsed,
        consistent(m),
        sweep_point(m.size, y, x),
    ensures
        sweep(m.cells, m.size, y, x) == Ok::<Seq<DomainModel>, Seq<DomainModel>>(m.cells),
    decreases y, x,
{
    let c = m.cells;
    let n = m.size;
    if x == 0 {
        if y > 0 {
            lemma_consistent_sweep(m, (y - 1) as nat, n);
        }
    } else {
        lemma_consistent_sweep(m, y, (x - 1) as nat);
        let xi = x - 1;
        let yi = y as int;
        lemma_index_bound(n, xi, yi);
        lemma_neighbor_in_range(n, xi, yi, Side::Left);
        lemma_neighbor_in_range(n, xi, yi, Side::Right);
        lemma_neighbor_in_range(n, xi, yi, Side::Top);
        lemma_neighbor_in_range(n, xi, yi, Side::Bottom);
        assert(!neighbor_invalid(c, n, xi, yi));
        assert(c[index_of(n, xi, yi)] is Collapsed);
        assert(step(c, n, xi, yi) == Some(c));
    }
}

/// On a grid whose cells are all fixed, a sweep succeeds without leaving a
/// contradiction exactly when every cell fits its neighbours, and then it
/// leaves the grid unchanged.
pub proof fn lemma_fixed_grid_sweep(m: FieldModel)
    requires
        m.wf(),
        forall|j: int| 0 <= j < m.cells.len() ==> (#[trigger] m.cells[j]) is Collapsed,
    ensures
        consistent(m) <==> (propagate_model(m) is Ok && !has_invalid(
            result_cells(propagate_model(m)),
        )),
        consistent(m) ==> propagate_model(m) == Ok::<Seq<DomainModel>, Seq<DomainModel>>(
            m.cells,
        ),
{
    let c = m.cells;
    if consistent(m) {
        lemma_consistent_sweep(m, m.size, 0);
        assert forall|j: int| 0 <= j < c.len() implies !(#[trigger] c[j] is Invalid) by {
            assert(c[j] is Collapsed);
        }
    }
    if propagate_model(m) is Ok && !has_invalid(result_cells(propagate_model(m))) {
        let r = result_cells(propagate_model(m));
        lemma_sweep_narrows(c, m.size, m.size, 0);
        assert forall|j: int| 0 <= j < c.len() implies #[trigger] r[j] == c[j] by {
            assert(narrows(c[j], r[j]));
            assert(c[j] is Collapsed);
            assert(!(r[j] is Invalid));
        }
        assert(r =~= c);
        lemma_settled_consistent(m);
    }
}

/// A square grid of cells.
pub struct Field {
    size: usize,
    domains: Vec<Domain>,
}

impl View for Field {
    type V = FieldModel;

    closed spec fn view(&self) -> FieldModel {
        FieldModel { size: self.size as nat, cells: self.domains@.map_values(|d: Domain| d@) }
    }
}

impl Field {
    pub open spec fn wf(&self) -> bool {
        self@.wf()
    }

    /// A grid of `size` × `size` cells, each undetermined over all tiles.
    pub fn new(size: usize) -> (r: Self)
        requires
            size * size * STATE_COUNT <= usize::MAX,
        ensures
            r.wf(),
            r@.size == size,
            forall|j: int|
                0 <= j < r@.cells.len() ==> #[trigger] r@.cells[j] == DomainModel::Superposition(
                    all_states(),
                ),
    {
        assert(size * size <= size * size * STATE_COUNT) by (nonlinear_arith);
        let n: usize = size * size;
        let mut domains: Vec<Domain> = Vec::new();
        let mut k: usize = 0;
        while k < n
            invariant
                k <= n,
                domains@.len() == k,
                forall|j: int|
                    0 <= j < k ==> #[trigger] domains@[j]@ == DomainModel::Superposition(
                        all_states(),
                    ),
            decreases n - k,
        {
            domains.push(Domain::default());
            k = k + 1;
        }
        let r = Field { size, domains };
        proof {
            crate::state::lemma_all_states_closed(State::Empty);
        }
        r
    }

    /// Side length of the grid.
    pub fn size(&self) -> (r: usize)
        ensures
            r == self@.size,
    {
        self.size
    }

    /// The cell at `(x, y)`.
    pub fn get(&self, x: usize, y: usize) -> (r: Result<&Domain, OutOfBoundsError>)
        requires
            self.wf(),
        ensures
            r is Ok <==> x < self@.size && y < self@.size,
            r matches Ok(d) ==> d@ == self@.cells[index_of(self@.size, x as int, y as int)],
    {
        if x < self.size && y < self.size {
            proof {
                lemma_index_bound(self.size as nat, x as int, y as int);
            }
            Ok(&self.domains[y * self.size + x])
        } else {
            Err(OutOfBoundsError)
        }
    }

    /// Mutable access to the cell at `(x, y)`.
    pub fn get_mut(&mut self, x: usize, y: usize) -> (r: Result<&mut Domain, OutOfBoundsError>)
        requires
            old(self).wf(),
        ensures
            r is Ok <==> x < old(self)@.size && y < old(self)@.size,
            r matches Ok(d) ==> {
                &&& (*d)@ == old(self)@.cells[index_of(old(self)@.size, x as int, y as int)]
                &&& final(self)@.size == old(self)@.size
                &&& final(self)@.cells =~= old(self)@.cells.update(
                    index_of(old(self)@.size, x as int, y as int),
                    (*final(d))@,
                )
            },
            r is Err ==> final(self)@ == old(self)@,
    {
        if x < self.size && y < self.size {
            proof {
                lemma_index_bound(self.size as nat, x as int, y as int);
            }
            let i: usize = y * self.size + x;
            Ok(&mut self.domains[i])
        } else {
            Err(OutOfBoundsError)
        }
    }
    fn neighbor_index(&self, x: usize, y: usize, side: Side) -> (r: Option<usize>)
        requires
            self.wf(),
            x < self@.size,
            y < self@.size,
        ensures
            r is None <==> neighbor_pos(self@.size, x as int, y as int, side) is None,
            r matches Some(j) ==> neighbor_pos(self@.size, x as int, y as int, side) == Some(
                j as int,
            ) && j < self@.cells.len(),
    {
        proof {
            lemma_neighbor_in_range(self.size as nat, x as int, y as int, side);
        }
        match side {
            Side::Left => if x > 0 {
                Some(y * self.size + x - 1)
            } else {
                None
            },
            Side::Right => if x + 1 < self.size {
                Some(y * self.size + x + 1)
            } else {
                None
            },
            Side::Top => if y > 0 {
                Some((y - 1) * self.size + x)
            } else {
                None
            },
            Side::Bottom => if y + 1 < self.size {
                Some((y + 1) * self.size + x)
            } else {
                None
            },
        }
    }

    fn side_allows_state(&self, t: State, x: usize, y: usize, side: Side) -> (r: bool)
        requires
            self.wf(),
            x < self@.size,
            y < self@.size,
        ensures
            r == side_allows(self@.cells, self@.size, x as int, y as int, t, side),
    {
        match self.neighbor_index(x, y, side) {
            None => true,
            Some(j) => match &self.domains[j] {
                Domain::Collapsed(o) => fits_on(&t, o, side),
                Domain::Superposition(v) => {
                    let mut k: usize = 0;
                    assert(self@.cells[j as int] == DomainModel::Superposition(v@));
                    while k < v.len()
                        invariant
                            k <= v@.len(),
                            neighbor_pos(self@.size, x as int, y as int, side) == Some(j as int),
                            j < self@.cells.len(),
                            self@.cells[j as int] == DomainModel::Superposition(v@),
                            forall|m: int| 0 <= m < k ==> !#[trigger] fits_side(t, v@[m], side),
                        decreases v@.len() - k,
                    {
                        if fits_on(&t, &v[k], side) {
                            let ghost s = self@.cells[j as int]->Superposition_0;
                            assert(s == v@);
                            assert(0 <= k < s.len() && fits_side(t, s[k as int], side));
                            assert(exists|m: int|
                                0 <= m < s.len() && #[trigger] fits_side(t, s[m], side));
                            return true;
                        }
                        k = k + 1;
                    }
                    false
                },
                Domain::Invalid => true,
            },
        }
    }

    fn is_allowed_state(&self, t: State, x: usize, y: usize) -> (r: bool)
        requires
            self.wf(),
            x < self@.size,
            y < self@.size,
        ensures
            r == allowed(self@.cells, self@.size, x as int, y as int, t),
    {
        self.side_allows_state(t, x, y, Side::Left) && self.side_allows_state(t, x, y, Side::Right)
            && self.side_allows_state(t, x, y, Side::Top) && self.side_allows_state(
            t,
            x,
            y,
            Side::Bottom,
        )
    }

    fn side_is_invalid(&self, x: usize, y: usize, side: Side) -> (r: bool)
        requires
            self.wf(),
            x < self@.size,
            y < self@.size,
        ensures
            r == side_invalid(self@.cells, self@.size, x as int, y as int, side),
            r ==> has_invalid(self@.cells),
    {
        match self.neighbor_index(x, y, side) {
            None => false,
            Some(j) => {
                let r = matches!(self.domains[j], Domain::Invalid);
                assert(r ==> self@.cells[j as int] is Invalid);
                r
            },
        }
    }

    /// Re-evaluates the cell at `(x, y)` against its four neighbours.
    fn propagate_cell(&mut self, x: usize, y: usize) -> (r: Result<(), InvalidDomainError>)
        requires
            old(self).wf(),
            x < old(self)@.size,
            y < old(self)@.size,
        ensures
            final(self).wf(),
            final(self)@.size == old(self)@.size,
            match step(old(self)@.cells, old(self)@.size, x as int, y as int) {
                Some(c2) => r is Ok && final(self)@.cells == c2,
                None => r is Err && final(self)@ == old(self)@,
            },
            r is Err ==> has_invalid(old(self)@.cells),
    {
        let ghost c = self@.cells;
        let ghost n = self@.size;
        proof {
            lemma_index_bound(n, x as int, y as int);
        }
        let i: usize = y * self.size + x;
        if self.side_is_invalid(x, y, Side::Left) || self.side_is_invalid(x, y, Side::Right)
            || self.side_is_invalid(x, y, Side::Top) || self.side_is_invalid(x, y, Side::Bottom) {
            return Err(InvalidDomainError);
        }
        let next: Option<Domain> = match &self.domains[i] {
            Domain::Invalid => {
                assert(c[i as int] is Invalid);
                return Err(InvalidDomainError);
            },
            Domain::Collapsed(t) => {
                if self.is_allowed_state(*t, x, y) {
                    None
                } else {
                    Some(Domain::Invalid)
                }
            },
            Domain::Superposition(v) => {
                let ghost p = allowed_pred(c, n, x as int, y as int);
                let mut kept: Vec<State> = Vec::new();
                let mut k: usize = 0;
                while k < v.len()
                    invariant
                        k <= v@.len(),
                        self@.cells == c,
                        self@.size == n,
                        self.wf(),
                        x < n,
                        y < n,
                        p == allowed_pred(c, n, x as int, y as int),
                        kept@ == v@.take(k as int).filter(p),
                        kept@.len() <= k,
                    decreases v@.len() - k,
                {
                    let t = v[k];
                    let ok = self.is_allowed_state(t, x, y);
                    let ghost prev = kept@;
                    proof {
                        reveal(Seq::filter);
                        assert(v@.take(k + 1).drop_last() =~= v@.take(k as int));
                        assert(v@.take(k + 1).last() == t);
                        assert(p(t) == ok);
                        assert(v@.take(k + 1).filter(p) == if p(t) {
                            prev.push(t)
                        } else {
                            prev
                        });
                    }
                    if ok {
                        kept.push(t);
                    }
                    k = k + 1;
                }
                proof {
                    assert(v@.take(v@.len() as int) =~= v@);
                    assert(c[i as int]->Superposition_0 == v@);
                }
                Some(narrow(kept))
            },
        };
        if let Some(d) = next {
            self.domains.set(i, d);
            assert(self@.cells =~= c.update(i as int, d@));
        }
        Ok(())
    }

    /// One sweep of constraint propagation, left to right and top to bottom.
    /// Each cell is re-evaluated against the grid as it stands at that
    /// moment, so narrowings made earlier in the sweep are seen by later
    /// cells. Stops on the first contradiction it meets.
    pub fn propagate(&mut self) -> (r: Result<(), InvalidDomainError>)
        requires
            old(self).wf(),
        ensures
            final(self).wf(),
            final(self)@.size == old(self)@.size,
            match propagate_model(old(self)@) {
                Ok(c2) => r is Ok && final(self)@.cells == c2,
                Err(c2) => r is Err && final(self)@.cells == c2,
            },
            r is Err ==> has_invalid(final(self)@.cells),
            narrows_all(old(self)@.cells, final(self)@.cells),
    {
        let n: usize = self.size;
        let ghost c0 = self@.cells;
        let mut y: usize = 0;
        while y < n
            invariant
                self.wf(),
                self@.size == n,
                y <= n,
                c0 == old(self)@.cells,
                c0.len() == n * n,
                old(self)@.size == n,
                sweep(c0, n as nat, y as nat, 0) == Ok::<Seq<DomainModel>, Seq<DomainModel>>(
                    self@.cells,
                ),
            decreases n - y,
        {
            let mut x: usize = 0;
            while x < n
                invariant
                    self.wf(),
                    self@.size == n,
                    y < n,
                    x <= n,
                    c0 == old(self)@.cells,
                    c0.len() == n * n,
                    old(self)@.size == n,
                    sweep(c0, n as nat, y as nat, x as nat) == Ok::<
                        Seq<DomainModel>,
                        Seq<DomainModel>,
                    >(self@.cells),
                decreases n - x,
            {
                let ghost before = self@.cells;
                let res = self.propagate_cell(x, y);
                assert(sweep(c0, n as nat, y as nat, (x + 1) as nat) == match step(
                    before,
                    n as nat,
                    x as int,
                    y as int,
                ) {
                    Some(s2) => Ok(s2),
                    None => Err(before),
                });
                if let Err(e) = res {
                    proof {
                        lemma_sweep_narrows(c0, n as nat, n as nat, 0);
                        lemma_sweep_err_sticks(
                            c0,
                            n as nat,
                            y as nat,
                            (x + 1) as nat,
                            n as nat,
                            0,
                        );
                    }
                    return Err(e);
                }
                x = x + 1;
            }
            assert(sweep(c0, n as nat, (y + 1) as nat, 0) == sweep(
                c0,
                n as nat,
                y as nat,
                n as nat,
            ));
            y = y + 1;
        }
        proof {
            lemma_sweep_narrows(c0, n as nat, n as nat, 0);
        }
        Ok(())
    }

    /// Sum of the uncertainties of all cells; fails if any cell is a
    /// contradiction.
    pub fn total_enthropy(&self) -> (r: Result<usize, InvalidDomainError>)
        requires
            self.wf(),
        ensures
            r is Err <==> has_invalid(self@.cells),
            r matches Ok(t) ==> t == total(self@.cells),
    {
        let ghost c = self@.cells;
        let mut sum: usize = 0;
        let mut k: usize = 0;
        while k < self.domains.len()
            invariant
                self.wf(),
                c == self@.cells,
                k <= c.len(),
                sum == total(c.take(k as int)),
                sum <= k * STATE_COUNT,
                forall|j: int| 0 <= j < k ==> !(#[trigger] c[j] is Invalid),
            decreases c.len() - k,
        {
            assert(c[k as int] == self.domains@[k as int]@);
            match self.domains[k].enthropy() {
                Err(e) => {
                    return Err(e);
                },
                Ok(e) => {
                    assert(c.take(k + 1).drop_last() =~= c.take(k as int));
                    assert(c[k as int].wf());
                    sum = sum + e;
                },
            }
            k = k + 1;
        }
        assert(c.take(c.len() as int) =~= c);
        Ok(sum)
    }

    /// Positions of the undetermined cells of least uncertainty, in order;
    /// fails if any cell is a contradiction.
    fn lowest_enthropy_cells(&self) -> (r: Result<Vec<usize>, InvalidDomainError>)
        requires
            self.wf(),
        ensures
            r is Err <==> has_invalid(self@.cells),
            r matches Ok(v) ==> {
                &&& forall|i: int| 0 <= i < v@.len() ==> is_lowest(self@.cells, #[trigger] v@[i] as int)
                &&& forall|j: int| is_lowest(self@.cells, j) ==> #[trigger] v@.contains(j as usize)
                &&& forall|a: int, b: int| 0 <= a < b < v@.len() ==> v@[a] < v@[b]
                &&& (v@.len() == 0 <==> forall|j: int|
                    0 <= j < self@.cells.len() ==> (#[trigger] self@.cells[j]).enthropy() == 0)
            },
    {
        let ghost c = self@.cells;
        let mut v: Vec<usize> = Vec::new();
        let mut found = false;
        let mut min: usize = 0;
        let mut k: usize = 0;
        while k < self.domains.len()
            invariant
                self.wf(),
                c == self@.cells,
                k <= c.len(),
                forall|j: int| 0 <= j < k ==> !(#[trigger] c[j] is Invalid),
                found <==> v@.len() > 0,
                found ==> min > 0,
                !found ==> forall|j: int| 0 <= j < k ==> (#[trigger] c[j]).enthropy() == 0,
                found ==> forall|j: int|
                    0 <= j < k && (#[trigger] c[j]).enthropy() > 0 ==> min <= c[j].enthropy(),
                forall|i: int|
                    0 <= i < v@.len() ==> #[trigger] v@[i] < k && c[v@[i] as int].enthropy() == min
                        && min > 0,
                forall|j: int|
                    0 <= j < k && found && (#[trigger] c[j]).enthropy() == min ==> v@.contains(
                        j as usize,
                    ),
                forall|a: int, b: int| 0 <= a < b < v@.len() ==> v@[a] < v@[b],
            decreases c.len() - k,
        {
            assert(c[k as int] == self.domains@[k as int]@);
            let e = match self.domains[k].enthropy() {
                Err(e) => {
                    return Err(e);
                },
                Ok(e) => e,
            };
            if e > 0 {
                if !found || e < min {
                    v = Vec::new();
                    v.push(k);
                    min = e;
                    found = true;
                    assert(v@[0] == k);
                    assert forall|j: int|
                        0 <= j <= k && (#[trigger] c[j]).enthropy() == min implies v@.contains(
                        j as usize,
                    ) by {
                        if j < k {
                            assert(c[j].enthropy() > 0);
                        }
                    }
                } else if e == min {
                    let ghost old_v = v@;
                    v.push(k);
                    assert(v@[v@.len() - 1] == k);
                    assert forall|j: int|
                        0 <= j < k && (#[trigger] c[j]).enthropy() == min implies v@.contains(
                        j as usize,
                    ) by {
                        assert(old_v.contains(j as usize));
                        let i = choose|i: int| 0 <= i < old_v.len() && old_v[i] == j as usize;
                        assert(v@[i] == j as usize);
                    }
                }
            }
            k = k + 1;
        }
        proof {
            if found {
                let w = v@[0] as int;
                assert(c[w].enthropy() > 0);
                assert forall|j: int| is_lowest(c, j) implies #[trigger] v@.contains(j as usize) by {
                    assert(c[w].enthropy() > 0);
                }
                assert forall|i: int| 0 <= i < v@.len() implies is_lowest(c, #[trigger] v@[i] as int) by {
                    assert(c[v@[i] as int].enthropy() == min);
                }
            }
        }
        Ok(v)
    }

    /// Fixes one undetermined cell of least uncertainty, chosen uniformly at
    /// random among those tied, to a weighted random candidate. Returns
    /// `Ok(false)` when no cell is undetermined, and fails, changing nothing,
    /// if any cell is a contradiction.
    pub fn collapse_random(&mut self, rng: &mut StdRng) -> (r: Result<bool, InvalidDomainError>)
        requires
            old(self).wf(),
        ensures
            final(self).wf(),
            final(self)@.size == old(self)@.size,
            r is Err <==> has_invalid(old(self)@.cells),
            r == Ok::<bool, InvalidDomainError>(false) <==> (!has_invalid(old(self)@.cells)
                && forall|j: int|
                0 <= j < old(self)@.cells.len() ==> (#[trigger] old(self)@.cells[j]).enthropy()
                    == 0),
            !(r == Ok::<bool, InvalidDomainError>(true)) ==> final(self)@ == old(self)@,
            r == Ok::<bool, InvalidDomainError>(true) ==> exists|j: int, t: State|
                is_lowest(old(self)@.cells, j) && #[trigger] old(
                    self,
                )@.cells[j]->Superposition_0.contains(t) && final(self)@.cells == old(
                    self,
                )@.cells.update(j, DomainModel::Collapsed(t)),
    {
        let ghost c = self@.cells;
        let ties = match self.lowest_enthropy_cells() {
            Ok(v) => v,
            Err(e) => return Err(e),
        };
        match choose_index(&ties, rng) {
            None => Ok(false),
            Some(i) => {
                let ghost k = choose|k: int| 0 <= k < ties@.len() && ties@[k] == i;
                assert(is_lowest(c, ties@[k] as int));
                assert(c[i as int] == self.domains@[i as int]@);
                assert(c[i as int].wf());
                self.domains[i].collapse(rng);
                let ghost d = self.domains@[i as int]@;
                let ghost t = choose|t: State|
                    #[trigger] c[i as int]->Superposition_0.contains(t) && d
                        == DomainModel::Collapsed(t);
                assert(self@.cells =~= c.update(i as int, DomainModel::Collapsed(t)));
                assert(forall|j: int|
                    #![trigger self@.cells[j]]
                    0 <= j < self@.cells.len() ==> self@.cells[j].wf());
                Ok(true)
            },
        }
    }

    /// Propagates to a fixed point: sweeps again and again until a sweep
    /// leaves the total uncertainty unchanged. Fails, leaving the grid as it
    /// stands, as soon as a sweep stops on a contradiction or leaves one.
    pub fn settle(&mut self) -> (r: Result<(), InvalidDomainError>)
        requires
            old(self).wf(),
        ensures
            final(self).wf(),
            final(self)@.size == old(self)@.size,
            narrows_all(old(self)@.cells, final(self)@.cells),
            exists|k: nat|
                {
                    &&& final(self)@.cells == result_cells(
                        #[trigger] sweeps(old(self)@.cells, old(self)@.size, k),
                    )
                    &&& forall|i: nat|
                        i < k ==> #[trigger] clean_sweep(old(self)@.cells, old(self)@.size, i)
                    &&& (r is Ok <==> clean_sweep(old(self)@.cells, old(self)@.size, k))
                },
            r is Ok ==> propagate_model(final(self)@) == Ok::<Seq<DomainModel>, Seq<DomainModel>>(
                final(self)@.cells,
            ),
            r is Err ==> has_invalid(final(self)@.cells),
            old(self)@.size == 1 && no_empty(old(self)@.cells) && !has_invalid(old(self)@.cells)
                ==> r is Ok,
    {
        let ghost c0 = self@.cells;
        let ghost n = self@.size;
        let mut prev = match self.total_enthropy() {
            Ok(t) => t,
            Err(e) => {
                assert(self@.cells == result_cells(sweeps(c0, n, 0)));
                assert(!clean_sweep(c0, n, 0));
                return Err(e);
            },
        };
        let ghost mut k: nat = 0;
        loop
            invariant
                self.wf(),
                self@.size == n,
                c0 == old(self)@.cells,
                n == old(self)@.size,
                prev == total(self@.cells),
                self@.cells == result_cells(sweeps(c0, n, k)),
                forall|i: nat| i <= k ==> #[trigger] clean_sweep(c0, n, i),
                narrows_all(c0, self@.cells),
            ensures
                self.wf(),
                self@.size == n,
                self@.cells == result_cells(sweeps(c0, n, k)),
                forall|i: nat| i <= k ==> #[trigger] clean_sweep(c0, n, i),
                narrows_all(c0, self@.cells),
                propagate_model(self@) == Ok::<Seq<DomainModel>, Seq<DomainModel>>(self@.cells),
            decreases prev,
        {
            let ghost before = self@;
            proof {
                assert(clean_sweep(c0, n, k));
                if n == 1 && no_empty(c0) && !has_invalid(c0) {
                    lemma_narrows_total(c0, before.cells);
                    assert(n * n == 1) by (nonlinear_arith)
                        requires
                            n == 1,
                    ;
                    assert(before.cells.len() == 1);
                    assert(!(before.cells[0] is Invalid));
                    lemma_single_cell_unconstrained(before);
                }
            }
            let res = self.propagate();
            proof {
                assert(sweeps(c0, n, k + 1) == propagate_model(before));
                lemma_narrows_trans(c0, before.cells, self@.cells);
                lemma_narrows_total(before.cells, self@.cells);
                k = k + 1;
                if n == 1 && no_empty(c0) && !has_invalid(c0) {
                    assert(!(self@.cells[0] is Invalid));
                    assert(!has_invalid(self@.cells));
                }
            }
            if let Err(e) = res {
                assert(self@.cells == result_cells(sweeps(c0, n, k)));
                assert(!clean_sweep(c0, n, k));
                return Err(e);
            }
            let cur = match self.total_enthropy() {
                Ok(t) => t,
                Err(e) => {
                    assert(self@.cells == result_cells(sweeps(c0, n, k)));
                    assert(!clean_sweep(c0, n, k));
                    return Err(e);
                },
            };
            if cur == prev {
                proof {
                    lemma_fixed_point(before);
                    assert(self@ == before);
                }
                break;
            }
            prev = cur;
        }
        assert(self@.cells == result_cells(sweeps(c0, n, k)));
        assert(clean_sweep(c0, n, k));
        Ok(())
    }

    /// Solves the grid: repeatedly fixes a cell of least uncertainty and then
    /// settles the grid by propagation. Stops when no cell is undetermined,
    /// or with an error, leaving the grid as it stands, as soon as a
    /// contradiction is met.
    pub fn solve(&mut self, rng: &mut StdRng) -> (r: Result<(), InvalidDomainError>)
        requires
            old(self).wf(),
        ensures
            final(self).wf(),
            final(self)@.size == old(self)@.size,
            narrows_all(old(self)@.cells, final(self)@.cells),
            has_invalid(old(self)@.cells) ==> r is Err && final(self)@ == old(self)@,
            !has_invalid(old(self)@.cells) && (forall|j: int|
                0 <= j < old(self)@.cells.len() ==> #[trigger] old(self)@.cells[j] is Collapsed)
                ==> r is Ok && final(self)@ == old(self)@,
            old(self)@.size == 1 && no_empty(old(self)@.cells) && !has_invalid(old(self)@.cells)
                ==> r is Ok,
            r is Ok ==> !has_invalid(final(self)@.cells),
            r is Ok ==> forall|j: int|
                0 <= j < final(self)@.cells.len() ==> (#[trigger] final(self)@.cells[j]).enthropy()
                    == 0,
            r is Ok && no_empty(old(self)@.cells) ==> forall|j: int|
                0 <= j < final(self)@.cells.len() ==> #[trigger] final(self)@.cells[j] is Collapsed,
            r is Ok && no_empty(old(self)@.cells) && (exists|j: int|
                0 <= j < old(self)@.cells.len() && (#[trigger] old(self)@.cells[j]).enthropy() > 0)
                ==> consistent(final(self)@),
            r is Err ==> has_invalid(final(self)@.cells),
            r is Err && !has_invalid(old(self)@.cells) ==> exists|c: Seq<DomainModel>, k: nat|
                {
                    &&& narrows_all(old(self)@.cells, c)
                    &&& !has_invalid(c)
                    &&& final(self)@.cells == result_cells(#[trigger] sweeps(c, old(self)@.size, k))
                    &&& !clean_sweep(c, old(self)@.size, k)
                },
    {
        let ghost mut settled: bool = false;
        loop
            invariant
                self.wf(),
                self@.size == old(self)@.size,
                narrows_all(old(self)@.cells, self@.cells),
                no_empty(old(self)@.cells) ==> no_empty(self@.cells),
                !has_invalid(old(self)@.cells) ==> !has_invalid(self@.cells),
                settled ==> !has_invalid(self@.cells),
                settled ==> propagate_model(self@) == Ok::<Seq<DomainModel>, Seq<DomainModel>>(
                    self@.cells,
                ),
                !settled ==> self@ == old(self)@,
                settled ==> exists|j: int|
                    0 <= j < old(self)@.cells.len() && (#[trigger] old(self)@.cells[j]).enthropy()
                        > 0,
            decreases total(self@.cells),
        {
            let ghost c = self@.cells;
            match self.collapse_random(rng) {
                Err(e) => return Err(e),
                Ok(false) => {
                    proof {
                        if no_empty(old(self)@.cells) {
                            assert(forall|j: int|
                                #![trigger self@.cells[j]]
                                0 <= j < self@.cells.len() ==> self@.cells[j] is Collapsed);
                            if settled {
                                lemma_settled_consistent(self@);
                            }
                        }
                    }
                    return Ok(());
                },
                Ok(true) => {},
            }
            let ghost collapsed = self@.cells;
            proof {
                let (j, t) = choose|j: int, t: State|
                    is_lowest(c, j) && #[trigger] c[j]->Superposition_0.contains(t) && self@.cells
                        == c.update(j, DomainModel::Collapsed(t));
                let d = self@.cells;
                assert forall|i: int| 0 <= i < c.len() implies (#[trigger] d[i]).enthropy()
                    <= c[i].enthropy() by {}
                assert(d[j].enthropy() < c[j].enthropy());
                if !settled {
                    assert(old(self)@.cells[j].enthropy() > 0);
                }
                lemma_total_le(c, d);
                assert(narrows(c[j], d[j]));
                assert(narrows_all(c, d));
                lemma_narrows_trans(old(self)@.cells, c, d);
                assert forall|i: int| 0 <= i < d.len() implies !(#[trigger] d[i] is Invalid) by {
                    if i != j {
                        assert(d[i] == c[i]);
                    }
                }
                assert(no_empty(old(self)@.cells) ==> no_empty(d));
            }
            let res = self.settle();
            proof {
                lemma_narrows_trans(old(self)@.cells, collapsed, self@.cells);
                lemma_narrows_total(collapsed, self@.cells);
                if res is Err {
                    let k = choose|k: nat|
                        {
                            &&& self@.cells == result_cells(
                                #[trigger] sweeps(collapsed, self@.size, k),
                            )
                            &&& forall|i: nat|
                                i < k ==> #[trigger] clean_sweep(collapsed, self@.size, i)
                            &&& (res is Ok <==> clean_sweep(collapsed, self@.size, k))
                        };
                    assert(narrows_all(old(self)@.cells, collapsed) && !has_invalid(collapsed)
                        && self@.cells == result_cells(sweeps(collapsed, old(self)@.size, k))
                        && !clean_sweep(collapsed, old(self)@.size, k));
                }
            }
            if let Err(e) = res {
                return Err(e);
            }
            proof {
                settled = true;
            }
        }
    }
}

fn fits_on(t: &State, o: &State, side: Side) -> (r: bool)
    ensures
        r == fits_side(*t, *o, side),
{
    match side {
        Side::Left => t.fits_left(o),
        Side::Right => t.fits_right(o),
        Side::Top => t.fits_top(o),
        Side::Bottom => t.fits_bottom(o),
    }
}

/// The cell left by a filtered candidate list.
fn narrow(kept: Vec<State>) -> (r: Domain)
    ensures
        r@ == narrowed(kept@),
{
    if kept.len() == 0 {
        Domain::Invalid
    } else if kept.len() == 1 {
        Domain::Collapsed(kept[0])
    } else {
        Domain::Superposition(kept)
    }
}

} // verus!
