//! The orientation of native LTspice symbols: quarter turns and mirroring
//! of symbol coordinates, and their names in an `.asc` file.
use crate::text::{append_str, nat_text, owned, u64_text};
use vstd::prelude::*;

verus! {

/// A symbol orientation: mirrored across the vertical axis first, then
/// turned by the given number of quarter turns.
#[derive(Clone, Copy, Debug, PartialEq, Eq)]
pub struct NativeTransform {
    pub turns: u8,
    pub mirrored: bool,
}

/// One quarter turn.
pub open spec fn turn(p: (int, int)) -> (int, int) {
    (-p.1, p.0)
}

/// One quarter turn back.
pub open spec fn unturn(p: (int, int)) -> (int, int) {
    (p.1, -p.0)
}

pub open spec fn turned(p: (int, int), k: nat) -> (int, int)
    decreases k,
{
    if k == 0 {
        p
    } else {
        turn(turned(p, (k - 1) as nat))
    }
}

pub open spec fn unturned(p: (int, int), k: nat) -> (int, int)
    decreases k,
{
    if k == 0 {
        p
    } else {
        unturn(unturned(p, (k - 1) as nat))
    }
}

pub open spec fn mirror(p: (int, int), m: bool) -> (int, int) {
    if m {
        (-p.0, p.1)
    } else {
        p
    }
}

/// Where a symbol point goes: mirrored, then turned.
pub open spec fn placed(t: NativeTransform, p: (int, int)) -> (int, int) {
    turned(mirror(p, t.mirrored), t.turns as nat)
}

/// Where a placed point came from: turned back, then mirrored.
pub open spec fn unplaced(t: NativeTransform, p: (int, int)) -> (int, int) {
    mirror(unturned(p, t.turns as nat), t.mirrored)
}

/// Neither coordinate is `i32::MIN`, so each can be negated.
pub open spec fn negatable(x: i32, y: i32) -> bool {
    x > i32::MIN && y > i32::MIN
}

impl NativeTransform {
    /// The symbol point `(x, y)` in this orientation.
    pub fn apply(self, x: i32, y: i32) -> (r: (i32, i32))
        requires
            negatable(x, y),
        ensures
            (r.0 as int, r.1 as int) == placed(self, (x as int, y as int)),
    {
        let ghost given = (x as int, y as int);
        let mut x = x;
        let mut y = y;
        if self.mirrored {
            x = -x;
        }
        let ghost start = (x as int, y as int);
        assert(start == mirror(given, self.mirrored));
        let mut i: u8 = 0;
        while i < self.turns
            invariant
                i <= self.turns,
                negatable(x, y),
                (x as int, y as int) == turned(start, i as nat),
            decreases self.turns - i,
        {
            let nx = -y;
            y = x;
            x = nx;
            i = i + 1;
        }
        (x, y)
    }

    /// The point that this orientation takes to `(x, y)`.
    pub fn inverse(self, x: i32, y: i32) -> (r: (i32, i32))
        requires
            negatable(x, y),
        ensures
            (r.0 as int, r.1 as int) == unplaced(self, (x as int, y as int)),
    {
        let ghost start = (x as int, y as int);
        let mut x = x;
        let mut y = y;
        let mut i: u8 = 0;
        while i < self.turns
            invariant
                i <= self.turns,
                negatable(x, y),
                (x as int, y as int) == unturned(start, i as nat),
            decreases self.turns - i,
        {
            let nx = y;
            y = -x;
            x = nx;
            i = i + 1;
        }
        if self.mirrored {
            x = -x;
        }
        (x, y)
    }

    /// `R` or `M`, then the angle in degrees, as an `.asc` file writes it.
    pub fn name(self) -> (r: String)
        ensures
            r@ == (if self.mirrored {
                "M"@
            } else {
                "R"@
            }) + nat_text((self.turns as nat) * 90),
    {
        let mut r = if self.mirrored {
            owned("M")
        } else {
            owned("R")
        };
        let degrees: u64 = (self.turns as u64) * 90;
        append_str(&mut r, u64_text(degrees).as_str());
        r
    }
}

proof fn lemma_unturned_turn(p: (int, int), k: nat)
    ensures
        unturned(turn(p), k) == turn(unturned(p, k)),
    decreases k,
{
    if k > 0 {
        lemma_unturned_turn(p, (k - 1) as nat);
    }
}

proof fn lemma_unturned_turned(q: (int, int), k: nat)
    ensures
        unturned(turned(q, k), k) == q,
    decreases k,
{
    if k > 0 {
        let k1 = (k - 1) as nat;
        lemma_unturned_turned(q, k1);
        lemma_unturned_turn(turned(q, k1), k1);
    }
}

proof fn lemma_turned_unturned(q: (int, int), k: nat)
    ensures
        turned(unturned(q, k), k) == q,
    decreases k,
{
    if k > 0 {
        let k1 = (k - 1) as nat;
        lemma_turned_unturned(q, k1);
        lemma_turned_unturn(unturned(q, k1), k1);
    }
}

proof fn lemma_turned_unturn(p: (int, int), k: nat)
    ensures
        turned(unturn(p), k) == unturn(turned(p, k)),
    decreases k,
{
    if k > 0 {
        lemma_turned_unturn(p, (k - 1) as nat);
    }
}

/// Placing a point and taking it back gives the point again, and the other
/// way round: `inverse` undoes `apply` and `apply` undoes `inverse`.
pub proof fn lemma_inverse_undoes_apply(t: NativeTransform, p: (int, int))
    ensures
        unplaced(t, placed(t, p)) == p,
        placed(t, unplaced(t, p)) == p,
{
    lemma_unturned_turned(mirror(p, t.mirrored), t.turns as nat);
    lemma_turned_unturned(p, t.turns as nat);
}

/// Four quarter turns bring a point back.
pub proof fn lemma_four_turns(p: (int, int))
    ensures
        turned(p, 4) == p,
{
    reveal_with_fuel(turned, 5);
}

// ---------------------------------------------------------------------------
// Placing a native symbol over a component's pins.

pub const GRID: i32 = 40;

pub const MARGIN: i32 = 160;

/// The largest coordinate a placed pin may have, in either direction.
pub const COORDINATE_LIMIT: i32 = 1048576;

/// The most pins a placed symbol may have.
pub const PIN_LIMIT: usize = 256;

/// A sheet point in `.asc` units: grid steps from the sheet's corner, plus
/// the margin.
pub open spec fn sheet_point(min: (int, int), p: (int, int)) -> (int, int) {
    ((p.0 - min.0) * GRID + MARGIN, (p.1 - min.1) * GRID + MARGIN)
}

/// A named pin with its coordinates.
pub type PinView = (Seq<char>, int, int);

pub open spec fn pin_view(p: (String, i32, i32)) -> PinView {
    (p.0@, p.1 as int, p.2 as int)
}

pub open spec fn pins_view(ps: Seq<(String, i32, i32)>) -> Seq<PinView> {
    ps.map_values(|p: (String, i32, i32)| pin_view(p))
}

/// The first pin of this name.
pub open spec fn find_pin(ps: Seq<PinView>, name: Seq<char>) -> Option<(int, int)>
    decreases ps.len(),
{
    if ps.len() == 0 {
        None
    } else if ps[0].0 == name {
        Some((ps[0].1, ps[0].2))
    } else {
        find_pin(ps.drop_first(), name)
    }
}

/// How far each symbol pin, in the given orientation, is from where the
/// component's pin of that name wants it.
pub open spec fn deltas(sym: Seq<PinView>, comp: Seq<PinView>, min: (int, int), t: NativeTransform) -> Seq<(int, int)> {
    Seq::new(
        sym.len(),
        |k: int|
            {
                let want = sheet_point(min, find_pin(comp, sym[k].0)->0);
                let native = placed(t, (sym[k].1, sym[k].2));
                (want.0 - native.0, want.1 - native.1)
            },
    )
}

pub open spec fn sum_x(ds: Seq<(int, int)>) -> int
    decreases ds.len(),
{
    if ds.len() == 0 {
        0
    } else {
        sum_x(ds.drop_last()) + ds.last().0
    }
}

pub open spec fn sum_y(ds: Seq<(int, int)>) -> int
    decreases ds.len(),
{
    if ds.len() == 0 {
        0
    } else {
        sum_y(ds.drop_last()) + ds.last().1
    }
}

/// Division that rounds toward zero, as integer `/` does.
pub open spec fn trunc_div(a: int, n: int) -> int {
    if a >= 0 {
        a / n
    } else {
        -((-a) / n)
    }
}

/// The mean offset, rounded to the nearest multiple of 8.
pub open spec fn snapped(sum: int, n: int) -> int {
    ((trunc_div(sum, n) + 4) / 8) * 8
}

pub open spec fn cost(ds: Seq<(int, int)>, x: int, y: int) -> int
    decreases ds.len(),
{
    if ds.len() == 0 {
        0
    } else {
        let d = ds.last();
        cost(ds.drop_last(), x, y) + (d.0 - x) * (d.0 - x) + (d.1 - y) * (d.1 - y)
    }
}

/// A candidate placement: cost, mirrored, turns, x, y.
pub type Candidate = (int, bool, int, int, int);

pub open spec fn candidate(sym: Seq<PinView>, comp: Seq<PinView>, min: (int, int), t: NativeTransform) -> Candidate {
    let ds = deltas(sym, comp, min, t);
    let x = snapped(sum_x(ds), sym.len() as int);
    let y = snapped(sum_y(ds), sym.len() as int);
    (cost(ds, x, y), t.mirrored, t.turns as int, x, y)
}

/// Candidates are compared field by field, `false` before `true`.
pub open spec fn candidate_lt(a: Candidate, b: Candidate) -> bool {
    ||| a.0 < b.0
    ||| a.0 == b.0 && !a.1 && b.1
    ||| a.0 == b.0 && a.1 == b.1 && a.2 < b.2
    ||| a.0 == b.0 && a.1 == b.1 && a.2 == b.2 && a.3 < b.3
    ||| a.0 == b.0 && a.1 == b.1 && a.2 == b.2 && a.3 == b.3 && a.4 < b.4
}

/// The eight orientations in the order they are tried.
pub open spec fn orientation(i: int) -> NativeTransform {
    NativeTransform { turns: (i % 4) as u8, mirrored: i >= 4 }
}

/// The least of the first `k` candidates.
pub open spec fn best_of(sym: Seq<PinView>, comp: Seq<PinView>, min: (int, int), k: int) -> Candidate
    decreases k,
{
    if k <= 1 {
        candidate(sym, comp, min, orientation(0))
    } else {
        let b = best_of(sym, comp, min, k - 1);
        let c = candidate(sym, comp, min, orientation(k - 1));
        if candidate_lt(c, b) {
            c
        } else {
            b
        }
    }
}

/// Placed coordinates stay within the limit: the sheet points of the
/// component's pins and the symbol's own pin coordinates.
pub open spec fn placement_fits(sym: Seq<PinView>, comp: Seq<PinView>, min: (int, int)) -> bool {
    &&& 1 <= sym.len() <= PIN_LIMIT
    &&& forall|k: int|
        0 <= k < sym.len() ==> -COORDINATE_LIMIT <= (#[trigger] sym[k]).1 <= COORDINATE_LIMIT && -COORDINATE_LIMIT
            <= sym[k].2 <= COORDINATE_LIMIT && find_pin(comp, sym[k].0) is Some && {
            let w = sheet_point(min, find_pin(comp, sym[k].0)->0);
            -COORDINATE_LIMIT <= w.0 <= COORDINATE_LIMIT && -COORDINATE_LIMIT <= w.1 <= COORDINATE_LIMIT
        }
}

fn find_pin_exec(ps: &Vec<(String, i32, i32)>, name: &str) -> (r: Option<(i32, i32)>)
    ensures
        match find_pin(pins_view(ps@), name@) {
            Some(p) => r matches Some(q) && q.0 as int == p.0 && q.1 as int == p.1,
            None => r is None,
        },
{
    let ghost v = pins_view(ps@);
    let mut i: usize = 0;
    assert(v.skip(0) =~= v);
    while i < ps.len()
        invariant
            i <= ps@.len(),
            v == pins_view(ps@),
            find_pin(v, name@) == find_pin(v.skip(i as int), name@),
        decreases ps.len() - i,
    {
        assert(v.skip(i as int)[0] == pin_view(ps@[i as int]));
        assert(v.skip(i as int).drop_first() =~= v.skip(i + 1));
        if crate::text::text_is(ps[i].0.as_str(), name) {
            return Some((ps[i].1, ps[i].2));
        }
        i = i + 1;
    }
    assert(v.skip(i as int) =~= Seq::<PinView>::empty());
    None
}

/// Rounds a mean offset to the nearest multiple of 8.
fn snap(sum: i64, n: i64) -> (r: i64)
    requires
        1 <= n <= 256,
        -n * 2097152 <= sum <= n * 2097152,
    ensures
        r as int == snapped(sum as int, n as int),
        -2097160 <= r <= 2097160,
{
    let q: i64 = if sum >= 0 {
        sum / n
    } else {
        -((-sum) / n)
    };
    assert(-2097152 <= q <= 2097152) by (nonlinear_arith)
        requires
            q as int == (if sum >= 0 { sum as int / n as int } else { -((-(sum as int)) / (n as int)) }),
            1 <= n,
            -n * 2097152 <= sum <= n * 2097152,
    ;
    let v: i64 = q + 4;
    let k: i64 = 268435457;
    let f: i64 = (v + 8 * k) / 8 - k;
    proof {
        vstd::arithmetic::div_mod::lemma_hoist_over_denominator(v as int, k as int, 8);
        assert(-2097152 <= v / 8 <= 2097152) by (nonlinear_arith)
            requires
                -2097148 <= v <= 2097156,
        ;
    }
    f * 8
}

fn lt_candidate(a: (i64, bool, u8, i64, i64), b: (i64, bool, u8, i64, i64)) -> (r: bool)
    ensures
        r == candidate_lt(
            (a.0 as int, a.1, a.2 as int, a.3 as int, a.4 as int),
            (b.0 as int, b.1, b.2 as int, b.3 as int, b.4 as int),
        ),
{
    if a.0 != b.0 {
        return a.0 < b.0;
    }
    if a.1 != b.1 {
        return !a.1;
    }
    if a.2 != b.2 {
        return a.2 < b.2;
    }
    if a.3 != b.3 {
        return a.3 < b.3;
    }
    a.4 < b.4
}

proof fn lemma_turned_bounded(p: (int, int), k: nat, b: int)
    requires
        -b <= p.0 <= b,
        -b <= p.1 <= b,
    ensures
        -b <= turned(p, k).0 <= b,
        -b <= turned(p, k).1 <= b,
    decreases k,
{
    if k > 0 {
        lemma_turned_bounded(p, (k - 1) as nat, b);
    }
}

pub open spec fn delta_view(d: (i64, i64)) -> (int, int) {
    (d.0 as int, d.1 as int)
}

pub open spec fn deltas_view(ds: Seq<(i64, i64)>) -> Seq<(int, int)> {
    ds.map_values(|d: (i64, i64)| delta_view(d))
}

/// The cost, mirroring, turns and offset of placing the symbol in one
/// orientation.
fn candidate_exec(
    sym: &Vec<(String, i32, i32)>,
    comp: &Vec<(String, i32, i32)>,
    min_x: i32,
    min_y: i32,
    t: NativeTransform,
) -> (r: (i64, bool, u8, i64, i64))
    requires
        placement_fits(pins_view(sym@), pins_view(comp@), (min_x as int, min_y as int)),
    ensures
        (r.0 as int, r.1, r.2 as int, r.3 as int, r.4 as int) == candidate(
            pins_view(sym@),
            pins_view(comp@),
            (min_x as int, min_y as int),
            t,
        ),
        -2097160 <= r.3 <= 2097160,
        -2097160 <= r.4 <= 2097160,
{
    let ghost sv = pins_view(sym@);
    let ghost cv = pins_view(comp@);
    let ghost min = (min_x as int, min_y as int);
    let ghost all = deltas(sv, cv, min, t);
    let n = sym.len();
    let mut ds: Vec<(i64, i64)> = Vec::new();
    let mut sx: i64 = 0;
    let mut sy: i64 = 0;
    let mut k: usize = 0;
    assert(all.take(0) =~= Seq::<(int, int)>::empty());
    assert(deltas_view(ds@) =~= Seq::<(int, int)>::empty());
    while k < n
        invariant
            k <= n == sym@.len() == sv.len(),
            1 <= n <= 256,
            sv == pins_view(sym@),
            cv == pins_view(comp@),
            min == (min_x as int, min_y as int),
            all == deltas(sv, cv, min, t),
            placement_fits(sv, cv, min),
            deltas_view(ds@) == all.take(k as int),
            forall|j: int| 0 <= j < k ==> -2097152 <= (#[trigger] ds@[j]).0 <= 2097152 && -2097152 <= ds@[j].1 <= 2097152,
            sx as int == sum_x(all.take(k as int)),
            sy as int == sum_y(all.take(k as int)),
            -(k as int) * 2097152 <= sx <= (k as int) * 2097152,
            -(k as int) * 2097152 <= sy <= (k as int) * 2097152,
        decreases n - k,
    {
        assert(sv[k as int] == pin_view(sym@[k as int]));
        let (px, py) = find_pin_exec(comp, sym[k].0.as_str()).unwrap();
        let wx: i64 = (px as i64 - min_x as i64) * GRID as i64 + MARGIN as i64;
        let wy: i64 = (py as i64 - min_y as i64) * GRID as i64 + MARGIN as i64;
        let (nx, ny) = t.apply(sym[k].1, sym[k].2);
        proof {
            lemma_turned_bounded(mirror((sv[k as int].1, sv[k as int].2), t.mirrored), t.turns as nat, 1048576);
        }
        let dx: i64 = wx - nx as i64;
        let dy: i64 = wy - ny as i64;
        assert(all[k as int] == (dx as int, dy as int));
        let ghost before = ds@;
        ds.push((dx, dy));
        assert(all.take(k + 1).drop_last() =~= all.take(k as int));
        assert(deltas_view(ds@) =~= all.take(k + 1)) by {
            assert(ds@.drop_last() == before);
            assert forall|j: int| 0 <= j < k + 1 implies #[trigger] deltas_view(ds@)[j]
                == all.take(k + 1)[j] by {
                if j < k {
                    assert(ds@[j] == before[j]);
                    assert(deltas_view(before)[j] == all.take(k as int)[j]);
                }
            }
        }
        sx = sx + dx;
        sy = sy + dy;
        k = k + 1;
    }
    assert(all.take(n as int) =~= all);
    let x = snap(sx, n as i64);
    let y = snap(sy, n as i64);
    let mut c: i64 = 0;
    let mut j: usize = 0;
    assert(all.take(0) =~= Seq::<(int, int)>::empty());
    while j < n
        invariant
            j <= n == ds@.len(),
            1 <= n <= 256,
            deltas_view(ds@) == all,
            forall|i: int| 0 <= i < n ==> -2097152 <= (#[trigger] ds@[i]).0 <= 2097152 && -2097152 <= ds@[i].1 <= 2097152,
            -2097160 <= x <= 2097160,
            -2097160 <= y <= 2097160,
            c as int == cost(all.take(j as int), x as int, y as int),
            0 <= c <= (j as int) * 70368744177664,
        decreases n - j,
    {
        assert(all.take(j + 1).drop_last() =~= all.take(j as int));
        assert(all[j as int] == delta_view(ds@[j as int]));
        let a: i64 = ds[j].0 - x;
        let b: i64 = ds[j].1 - y;
        assert(0 <= a * a <= 17592253153344) by (nonlinear_arith)
            requires
                -4194312 <= a <= 4194312,
        ;
        assert(0 <= b * b <= 17592253153344) by (nonlinear_arith)
            requires
                -4194312 <= b <= 4194312,
        ;
        c = c + a * a + b * b;
        j = j + 1;
    }
    assert(all.take(n as int) =~= all);
    (c, t.mirrored, t.turns, x, y)
}

/// Places a native symbol over a component: `symbol_pins` are the symbol's
/// pins in its own coordinates, `component_pins` the component's pins on the
/// sheet whose corner is (`min_x`, `min_y`). Of the eight orientations, the
/// one whose offset, rounded to the grid of 8, leaves the least squared
/// distance is taken (ties go to the unmirrored, then the fewer turns).
pub fn placement(
    symbol_pins: &Vec<(String, i32, i32)>,
    component_pins: &Vec<(String, i32, i32)>,
    min_x: i32,
    min_y: i32,
) -> (r: (i32, i32, NativeTransform))
    requires
        placement_fits(pins_view(symbol_pins@), pins_view(component_pins@), (min_x as int, min_y as int)),
    ensures
        ({
            let b = best_of(pins_view(symbol_pins@), pins_view(component_pins@), (min_x as int, min_y as int), 8);
            &&& r.0 as int == b.3
            &&& r.1 as int == b.4
            &&& r.2.mirrored == b.1
            &&& r.2.turns as int == b.2
        }),
{
    let ghost sv = pins_view(symbol_pins@);
    let ghost cv = pins_view(component_pins@);
    let ghost min = (min_x as int, min_y as int);
    let mut best = candidate_exec(symbol_pins, component_pins, min_x, min_y, NativeTransform { turns: 0, mirrored: false });
    assert(orientation(0) == NativeTransform { turns: 0, mirrored: false });
    let mut i: u8 = 1;
    while i < 8
        invariant
            1 <= i <= 8,
            sv == pins_view(symbol_pins@),
            cv == pins_view(component_pins@),
            min == (min_x as int, min_y as int),
            placement_fits(sv, cv, min),
            (best.0 as int, best.1, best.2 as int, best.3 as int, best.4 as int) == best_of(sv, cv, min, i as int),
            -2097160 <= best.3 <= 2097160,
            -2097160 <= best.4 <= 2097160,
        decreases 8 - i,
    {
        let t = NativeTransform { turns: i % 4, mirrored: i >= 4 };
        assert(orientation(i as int) == t);
        let c = candidate_exec(symbol_pins, component_pins, min_x, min_y, t);
        if lt_candidate(c, best) {
            best = c;
        }
        i = i + 1;
    }
    (best.3 as i32, best.4 as i32, NativeTransform { turns: best.2, mirrored: best.1 })
}

/// The placement chosen is at least as good as every orientation tried.
pub proof fn lemma_placement_least(sym: Seq<PinView>, comp: Seq<PinView>, min: (int, int), k: int, j: int)
    requires
        1 <= k,
        0 <= j < k,
    ensures
        !candidate_lt(candidate(sym, comp, min, orientation(j)), best_of(sym, comp, min, k)),
    decreases k,
{
    if k > 1 {
        let b = best_of(sym, comp, min, k - 1);
        let c = candidate(sym, comp, min, orientation(k - 1));
        if j < k - 1 {
            lemma_placement_least(sym, comp, min, k - 1, j);
        }
    }
}

} // verus!
