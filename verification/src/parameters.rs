//! The order in which parameter declarations are evaluated: the checks on
//! the declarations, their dependencies on one another, the evaluation
//! order (the least ready name first) and the dependency cycle that stops it.
use crate::erc::join;
use crate::expression::{tree_names, tree_size, ParameterDecl, ParameterError, MAX_EXPRESSION_WORK, MAX_PARAMETERS};
use crate::ir::views;
use crate::text::{append_str, owned, text_is, text_less, text_lt};
use vstd::prelude::*;

verus! {

pub open spec fn pname(ds: Seq<ParameterDecl>, i: int) -> Seq<char> {
    ds[i].name@
}

/// The names that declaration `i`'s expression refers to.
pub open spec fn deps(ds: Seq<ParameterDecl>, i: int) -> Set<Seq<char>> {
    tree_names(ds[i].expression.tree())
}

pub open spec fn name_before(ds: Seq<ParameterDecl>, i: int) -> bool {
    exists|j: int| 0 <= j < i && #[trigger] pname(ds, j) == pname(ds, i)
}

/// The declarations checked in order: total expression work within the
/// limit, at most 4096 of them, no name `pi` and none repeated. The work so
/// far, or the position and message of the first refusal.
pub open spec fn checks_spec(ds: Seq<ParameterDecl>, k: int) -> Result<int, (int, Seq<char>)>
    decreases k,
{
    if k <= 0 {
        Ok(0)
    } else {
        match checks_spec(ds, k - 1) {
            Err(e) => Err(e),
            Ok(w) => {
                let i = k - 1;
                let w2 = w + tree_size(ds[i].expression.tree());
                if w2 > MAX_EXPRESSION_WORK {
                    Err((i, "Parameter expression work limit exceeded"@))
                } else if i >= MAX_PARAMETERS {
                    Err((i, "Parameter count exceeds 4096"@))
                } else if pname(ds, i) == "pi"@ || name_before(ds, i) {
                    Err((i, "Duplicate or reserved parameter '"@ + pname(ds, i) + "'"@))
                } else {
                    Ok(w2)
                }
            },
        }
    }
}

pub open spec fn known(ds: Seq<ParameterDecl>, x: Seq<char>) -> bool {
    exists|j: int| 0 <= j < ds.len() && #[trigger] pname(ds, j) == x
}

pub open spec fn unknown_dep(ds: Seq<ParameterDecl>, i: int, x: Seq<char>) -> bool {
    deps(ds, i).contains(x) && !known(ds, x)
}

pub open spec fn has_unknown(ds: Seq<ParameterDecl>, i: int) -> bool {
    exists|x: Seq<char>| #[trigger] unknown_dep(ds, i, x)
}

/// The declaration, least by name, that refers to an unknown name.
pub open spec fn least_unresolved(ds: Seq<ParameterDecl>, i: int) -> bool {
    &&& 0 <= i < ds.len()
    &&& has_unknown(ds, i)
    &&& forall|j: int| 0 <= j < ds.len() && #[trigger] has_unknown(ds, j) ==> !text_lt(pname(ds, j), pname(ds, i))
}

/// The least unknown name that declaration `i` refers to.
pub open spec fn least_unknown(ds: Seq<ParameterDecl>, i: int, x: Seq<char>) -> bool {
    &&& unknown_dep(ds, i, x)
    &&& forall|y: Seq<char>| #[trigger] unknown_dep(ds, i, y) ==> !text_lt(y, x)
}

/// A refusal about declaration `d`.
pub open spec fn refusal_is(e: ParameterError, d: ParameterDecl, code: Seq<char>, message: Seq<char>) -> bool {
    &&& e.code@ == code
    &&& e.message@ == message
    &&& e.name@ == d.name@
    &&& e.line == d.line
    &&& e.column == d.column
}

fn refusal(d: &ParameterDecl, code: &'static str, message: String) -> (e: ParameterError)
    ensures
        refusal_is(e, *d, code@, message@),
{
    ParameterError { code, message, name: owned(d.name.as_str()), line: d.line, column: d.column }
}

/// Whether some declaration is named `x`.
fn is_declared(ds: &Vec<ParameterDecl>, x: &str) -> (r: bool)
    ensures
        r == known(ds@, x@),
{
    let mut j: usize = 0;
    while j < ds.len()
        invariant
            j <= ds@.len(),
            forall|k: int| 0 <= k < j ==> #[trigger] pname(ds@, k) != x@,
        decreases ds.len() - j,
    {
        if text_is(ds[j].name.as_str(), x) {
            assert(pname(ds@, j as int) == x@);
            return true;
        }
        j = j + 1;
    }
    false
}

/// The first name that declaration `i` refers to and that is not declared.
fn first_unknown(ds: &Vec<ParameterDecl>, i: usize) -> (r: Option<String>)
    requires
        i < ds@.len(),
    ensures
        match r {
            Some(x) => least_unknown(ds@, i as int, x@),
            None => !has_unknown(ds@, i as int),
        },
{
    let dv = ds[i].expression.dependencies();
    let ghost v = views(dv@);
    let mut k: usize = 0;
    while k < dv.len()
        invariant
            k <= dv@.len(),
            v == views(dv@),
            crate::expression::sorted_names(v),
            v.to_set() == deps(ds@, i as int),
            forall|q: int| 0 <= q < k ==> known(ds@, #[trigger] v[q]),
        decreases dv.len() - k,
    {
        if !is_declared(ds, dv[k].as_str()) {
            proof {
                assert(v[k as int] == dv@[k as int]@);
                assert(v.to_set().contains(v[k as int]));
                assert forall|y: Seq<char>| #[trigger] unknown_dep(ds@, i as int, y) implies !text_lt(y, v[k as int]) by {
                    assert(v.to_set().contains(y));
                    let q = choose|q: int| 0 <= q < v.len() && v[q] == y;
                    if q > k {
                        assert(text_lt(v[k as int], v[q]));
                        crate::text::lemma_text_lt_total(v[k as int], y);
                    } else if q == k {
                        crate::text::lemma_text_lt_irreflexive(y);
                    }
                }
            }
            return Some(owned(dv[k].as_str()));
        }
        k = k + 1;
    }
    proof {
        assert forall|y: Seq<char>| !(#[trigger] unknown_dep(ds@, i as int, y)) by {
            if v.to_set().contains(y) {
                let q = choose|q: int| 0 <= q < v.len() && v[q] == y;
                assert(known(ds@, v[q]));
            }
        }
    }
    None
}

// ---------------------------------------------------------------------------
// The evaluation order.

/// The names of the declarations taken so far.
pub open spec fn done_set(ds: Seq<ParameterDecl>, o: Seq<int>) -> Set<Seq<char>> {
    Set::new(|x: Seq<char>| exists|k: int| 0 <= k < o.len() && #[trigger] pname(ds, o[k]) == x)
}

/// Not yet taken, and every name it refers to taken.
pub open spec fn ready(ds: Seq<ParameterDecl>, o: Seq<int>, i: int) -> bool {
    &&& 0 <= i < ds.len()
    &&& !o.contains(i)
    &&& forall|x: Seq<char>| #[trigger] deps(ds, i).contains(x) ==> done_set(ds, o).contains(x)
}

pub open spec fn least_ready(ds: Seq<ParameterDecl>, o: Seq<int>, i: int) -> bool {
    &&& ready(ds, o, i)
    &&& forall|j: int| #[trigger] ready(ds, o, j) ==> !text_lt(pname(ds, j), pname(ds, i))
}

/// Each declaration taken is the least ready one by name when it is taken,
/// and in the end none is ready.
pub open spec fn evaluation_order(ds: Seq<ParameterDecl>, o: Seq<int>) -> bool {
    &&& forall|k: int| 0 <= k < o.len() ==> least_ready(ds, o.take(k), #[trigger] o[k])
    &&& forall|i: int| !(#[trigger] ready(ds, o, i))
}

pub open spec fn undone(d: Seq<bool>) -> nat
    decreases d.len(),
{
    if d.len() == 0 {
        0
    } else {
        undone(d.drop_last()) + if d.last() {
            0nat
        } else {
            1nat
        }
    }
}

proof fn lemma_undone_mark(d: Seq<bool>, b: int)
    requires
        0 <= b < d.len(),
        !d[b],
    ensures
        undone(d.update(b, true)) + 1 == undone(d),
    decreases d.len(),
{
    if b < d.len() - 1 {
        assert(d.update(b, true).drop_last() =~= d.drop_last().update(b, true));
        lemma_undone_mark(d.drop_last(), b);
    } else {
        assert(d.update(b, true).drop_last() =~= d.drop_last());
    }
}

pub open spec fn order_view(o: Seq<usize>) -> Seq<int> {
    o.map_values(|x: usize| x as int)
}

/// Whether declaration `i` is ready, given what is taken.
fn is_ready(ds: &Vec<ParameterDecl>, done: &Vec<bool>, taken: &Vec<String>, i: usize, Ghost(o): Ghost<Seq<int>>) -> (r: bool)
    requires
        i < ds@.len() == done@.len(),
        forall|k: int| 0 <= k < ds@.len() ==> done@[k] == o.contains(k),
        taken@.len() == o.len(),
        forall|k: int| 0 <= k < o.len() ==> (#[trigger] taken@[k])@ == pname(ds@, o[k]),
    ensures
        r == ready(ds@, o, i as int),
{
    if done[i] {
        return false;
    }
    let dv = ds[i].expression.dependencies();
    let ghost v = views(dv@);
    let mut k: usize = 0;
    while k < dv.len()
        invariant
            k <= dv@.len(),
            v == views(dv@),
            v.to_set() == deps(ds@, i as int),
            taken@.len() == o.len(),
            forall|q: int| 0 <= q < o.len() ==> (#[trigger] taken@[q])@ == pname(ds@, o[q]),
            forall|q: int| 0 <= q < k ==> done_set(ds@, o).contains(#[trigger] v[q]),
        decreases dv.len() - k,
    {
        assert(v[k as int] == dv@[k as int]@);
        if !crate::model_resources::has_name(taken, &dv[k]) {
            proof {
                assert(v.to_set().contains(v[k as int]));
                if done_set(ds@, o).contains(v[k as int]) {
                    let q = choose|q: int| 0 <= q < o.len() && #[trigger] pname(ds@, o[q]) == v[k as int];
                    assert(views(taken@)[q] == taken@[q]@);
                }
            }
            return false;
        }
        proof {
            let q = choose|q: int| 0 <= q < views(taken@).len() && views(taken@)[q] == v[k as int];
            assert(taken@[q]@ == pname(ds@, o[q]));
        }
        k = k + 1;
    }
    proof {
        assert forall|x: Seq<char>| #[trigger] deps(ds@, i as int).contains(x) implies done_set(ds@, o).contains(x) by {
            assert(v.to_set().contains(x));
            let q = choose|q: int| 0 <= q < v.len() && v[q] == x;
        }
    }
    true
}

/// The least ready declaration, if any.
fn least_ready_exec(ds: &Vec<ParameterDecl>, done: &Vec<bool>, taken: &Vec<String>, Ghost(o): Ghost<Seq<int>>) -> (r: Option<usize>)
    requires
        ds@.len() == done@.len(),
        forall|k: int| 0 <= k < ds@.len() ==> done@[k] == o.contains(k),
        taken@.len() == o.len(),
        forall|k: int| 0 <= k < o.len() ==> (#[trigger] taken@[k])@ == pname(ds@, o[k]),
    ensures
        match r {
            Some(b) => least_ready(ds@, o, b as int),
            None => forall|i: int| !(#[trigger] ready(ds@, o, i)),
        },
{
    let mut best: Option<usize> = None;
    let mut i: usize = 0;
    while i < ds.len()
        invariant
            i <= ds@.len() == done@.len(),
            forall|k: int| 0 <= k < ds@.len() ==> done@[k] == o.contains(k),
            taken@.len() == o.len(),
            forall|k: int| 0 <= k < o.len() ==> (#[trigger] taken@[k])@ == pname(ds@, o[k]),
            match best {
                Some(b) => b < i && ready(ds@, o, b as int) && forall|j: int|
                    0 <= j < i && #[trigger] ready(ds@, o, j) ==> !text_lt(pname(ds@, j), pname(ds@, b as int)),
                None => forall|j: int| 0 <= j < i ==> !(#[trigger] ready(ds@, o, j)),
            },
        decreases ds.len() - i,
    {
        if is_ready(ds, done, taken, i, Ghost(o)) {
            match best {
                None => {
                    proof {
                        crate::text::lemma_text_lt_irreflexive(pname(ds@, i as int));
                    }
                    best = Some(i);
                },
                Some(b) => {
                    if text_less(ds[i].name.as_str(), ds[b].name.as_str()) {
                        proof {
                            assert forall|j: int| 0 <= j < i + 1 && #[trigger] ready(ds@, o, j) implies !text_lt(
                                pname(ds@, j),
                                pname(ds@, i as int),
                            ) by {
                                if j < i && text_lt(pname(ds@, j), pname(ds@, i as int)) {
                                    crate::text::lemma_text_lt_transitive(pname(ds@, j), pname(ds@, i as int), pname(ds@, b as int));
                                }
                                if j == i {
                                    crate::text::lemma_text_lt_irreflexive(pname(ds@, j));
                                }
                            }
                        }
                        best = Some(i);
                    }
                },
            }
        }
        i = i + 1;
    }
    proof {
        if best is Some {
            assert forall|j: int| #[trigger] ready(ds@, o, j) implies !text_lt(pname(ds@, j), pname(ds@, best->0 as int)) by {
                assert(0 <= j < ds@.len());
            }
        }
    }
    best
}

// ---------------------------------------------------------------------------
// The dependency cycle.

pub open spec fn pending(ds: Seq<ParameterDecl>, o: Seq<int>, i: int) -> bool {
    0 <= i < ds.len() && !o.contains(i)
}

pub open spec fn least_pending(ds: Seq<ParameterDecl>, o: Seq<int>, i: int) -> bool {
    &&& pending(ds, o, i)
    &&& forall|j: int| #[trigger] pending(ds, o, j) ==> !text_lt(pname(ds, j), pname(ds, i))
}

/// `x` is the least name that declaration `i` refers to and that is not taken.
pub open spec fn next_dep(ds: Seq<ParameterDecl>, o: Seq<int>, i: int, x: Seq<char>) -> bool {
    &&& deps(ds, i).contains(x)
    &&& !done_set(ds, o).contains(x)
    &&& forall|y: Seq<char>| #[trigger] deps(ds, i).contains(y) && !done_set(ds, o).contains(y) ==> !text_lt(y, x)
}

/// A walk from the least declaration left over, each step to the least
/// name it waits for.
pub open spec fn waiting_walk(ds: Seq<ParameterDecl>, o: Seq<int>, p: Seq<int>) -> bool {
    &&& p.len() >= 1
    &&& least_pending(ds, o, p[0])
    &&& forall|k: int|
        0 <= k < p.len() - 1 ==> pending(ds, o, #[trigger] p[k + 1]) && next_dep(ds, o, p[k], pname(ds, p[k + 1]))
}

/// The walk first comes back at its end to the declaration at `r`.
pub open spec fn cycle_walk(ds: Seq<ParameterDecl>, o: Seq<int>, p: Seq<int>, r: int) -> bool {
    &&& waiting_walk(ds, o, p)
    &&& 0 <= r < p.len() - 1
    &&& p[r] == p[p.len() - 1]
    &&& forall|a: int, b: int| 0 <= a < b < p.len() - 1 ==> #[trigger] p[a] != #[trigger] p[b]
}

pub open spec fn cycle_message(ds: Seq<ParameterDecl>, p: Seq<int>, r: int) -> Seq<char> {
    "Parameter dependency cycle: "@ + join(p.subrange(r, p.len() as int).map_values(|i: int| pname(ds, i)), " -> "@)
}

fn least_pending_exec(ds: &Vec<ParameterDecl>, done: &Vec<bool>, Ghost(o): Ghost<Seq<int>>) -> (r: Option<usize>)
    requires
        ds@.len() == done@.len(),
        forall|k: int| 0 <= k < ds@.len() ==> done@[k] == o.contains(k),
    ensures
        match r {
            Some(b) => least_pending(ds@, o, b as int),
            None => forall|i: int| !(#[trigger] pending(ds@, o, i)),
        },
{
    let mut best: Option<usize> = None;
    let mut i: usize = 0;
    while i < ds.len()
        invariant
            i <= ds@.len() == done@.len(),
            forall|k: int| 0 <= k < ds@.len() ==> done@[k] == o.contains(k),
            match best {
                Some(b) => b < i && pending(ds@, o, b as int) && forall|j: int|
                    0 <= j < i && #[trigger] pending(ds@, o, j) ==> !text_lt(pname(ds@, j), pname(ds@, b as int)),
                None => forall|j: int| 0 <= j < i ==> !(#[trigger] pending(ds@, o, j)),
            },
        decreases ds.len() - i,
    {
        if !done[i] {
            match best {
                None => {
                    proof {
                        crate::text::lemma_text_lt_irreflexive(pname(ds@, i as int));
                    }
                    best = Some(i);
                },
                Some(b) => {
                    if text_less(ds[i].name.as_str(), ds[b].name.as_str()) {
                        proof {
                            assert forall|j: int| 0 <= j < i + 1 && #[trigger] pending(ds@, o, j) implies !text_lt(
                                pname(ds@, j),
                                pname(ds@, i as int),
                            ) by {
                                if j < i && text_lt(pname(ds@, j), pname(ds@, i as int)) {
                                    crate::text::lemma_text_lt_transitive(pname(ds@, j), pname(ds@, i as int), pname(ds@, b as int));
                                }
                                if j == i {
                                    crate::text::lemma_text_lt_irreflexive(pname(ds@, j));
                                }
                            }
                        }
                        best = Some(i);
                    }
                },
            }
        }
        i = i + 1;
    }
    best
}

/// The least name that declaration `i` waits for.
fn next_dep_exec(ds: &Vec<ParameterDecl>, taken: &Vec<String>, i: usize, Ghost(o): Ghost<Seq<int>>) -> (r: String)
    requires
        i < ds@.len(),
        !ready(ds@, o, i as int),
        !o.contains(i as int),
        taken@.len() == o.len(),
        forall|k: int| 0 <= k < o.len() ==> (#[trigger] taken@[k])@ == pname(ds@, o[k]),
    ensures
        next_dep(ds@, o, i as int, r@),
{
    let dv = ds[i].expression.dependencies();
    let ghost v = views(dv@);
    let mut k: usize = 0;
    while k < dv.len()
        invariant
            k <= dv@.len(),
            i < ds@.len(),
            !ready(ds@, o, i as int),
            !o.contains(i as int),
            v == views(dv@),
            crate::expression::sorted_names(v),
            v.to_set() == deps(ds@, i as int),
            taken@.len() == o.len(),
            forall|q: int| 0 <= q < o.len() ==> (#[trigger] taken@[q])@ == pname(ds@, o[q]),
            forall|q: int| 0 <= q < k ==> done_set(ds@, o).contains(#[trigger] v[q]),
        decreases dv.len() - k,
    {
        assert(v[k as int] == dv@[k as int]@);
        if !crate::model_resources::has_name(taken, &dv[k]) {
            proof {
                assert(v.to_set().contains(v[k as int]));
                if done_set(ds@, o).contains(v[k as int]) {
                    let q = choose|q: int| 0 <= q < o.len() && #[trigger] pname(ds@, o[q]) == v[k as int];
                    assert(views(taken@)[q] == taken@[q]@);
                }
                assert forall|y: Seq<char>| #[trigger] deps(ds@, i as int).contains(y) && !done_set(ds@, o).contains(y) implies !text_lt(
                    y,
                    v[k as int],
                ) by {
                    assert(v.to_set().contains(y));
                    let q = choose|q: int| 0 <= q < v.len() && v[q] == y;
                    if q > k {
                        assert(text_lt(v[k as int], v[q]));
                        crate::text::lemma_text_lt_total(v[k as int], y);
                    } else if q == k {
                        crate::text::lemma_text_lt_irreflexive(y);
                    }
                }
            }
            return owned(dv[k].as_str());
        }
        proof {
            let q = choose|q: int| 0 <= q < views(taken@).len() && views(taken@)[q] == v[k as int];
            assert(taken@[q]@ == pname(ds@, o[q]));
        }
        k = k + 1;
    }
    proof {
        assert forall|x: Seq<char>| #[trigger] deps(ds@, i as int).contains(x) implies done_set(ds@, o).contains(x) by {
            assert(v.to_set().contains(x));
            let q = choose|q: int| 0 <= q < v.len() && v[q] == x;
        }
        assert(ready(ds@, o, i as int));
    }
    owned("")
}

/// The position of the declaration named `x`, which is declared.
fn position_of_name(ds: &Vec<ParameterDecl>, x: &str) -> (r: usize)
    requires
        known(ds@, x@),
    ensures
        r < ds@.len(),
        pname(ds@, r as int) == x@,
{
    let mut j: usize = 0;
    while j < ds.len()
        invariant
            j <= ds@.len(),
            known(ds@, x@),
            forall|k: int| 0 <= k < j ==> #[trigger] pname(ds@, k) != x@,
        decreases ds.len() - j,
    {
        if text_is(ds[j].name.as_str(), x) {
            return j;
        }
        j = j + 1;
    }
    proof {
        let k = choose|k: int| 0 <= k < ds@.len() && #[trigger] pname(ds@, k) == x@;
    }
    0
}

// ---------------------------------------------------------------------------
// The plan.

/// How to evaluate the declarations: their positions in evaluation order,
/// and the cycle that stops the rest, if any are left over.
pub struct ParameterPlan {
    pub order: Vec<usize>,
    pub cycle: Option<ParameterError>,
}

proof fn lemma_checks_stop(ds: Seq<ParameterDecl>, k: int, m: int)
    requires
        0 <= k <= m,
        checks_spec(ds, k) is Err,
    ensures
        checks_spec(ds, m) == checks_spec(ds, k),
    decreases m - k,
{
    if m > k {
        lemma_checks_stop(ds, k, m - 1);
    }
}

/// Whether a name is `pi` or was declared before position `i`.
fn taken_before(ds: &Vec<ParameterDecl>, i: usize) -> (r: bool)
    requires
        i < ds@.len(),
    ensures
        r == (pname(ds@, i as int) == "pi"@ || name_before(ds@, i as int)),
{
    if text_is(ds[i].name.as_str(), "pi") {
        return true;
    }
    let mut j: usize = 0;
    while j < i
        invariant
            j <= i < ds@.len(),
            forall|k: int| 0 <= k < j ==> #[trigger] pname(ds@, k) != pname(ds@, i as int),
        decreases i - j,
    {
        if text_is(ds[j].name.as_str(), ds[i].name.as_str()) {
            assert(pname(ds@, j as int) == pname(ds@, i as int));
            return true;
        }
        j = j + 1;
    }
    false
}

/// Checks the parameter declarations and plans their evaluation. They are
/// refused, in this order: for the work, count, reserved or repeated names
/// (KES-C020, at the first declaration that breaks a rule); for a name
/// that no declaration has (KES-C021, at the declaration least by name that
/// refers to one, naming the least such name). Otherwise the plan takes the
/// least ready declaration by name, one at a time; if some are left over,
/// the cycle (KES-C023) is found by walking from the least of them, each
/// time to the least name it waits for, until a declaration comes back.
pub fn parameter_order(ds: &Vec<ParameterDecl>) -> (r: Result<ParameterPlan, ParameterError>)
    ensures
        match checks_spec(ds@, ds@.len() as int) {
            Err((i, m)) => r matches Err(e) && refusal_is(e, ds@[i], "KES-C020"@, m),
            Ok(_) => if exists|i: int| 0 <= i < ds@.len() && #[trigger] has_unknown(ds@, i) {
                r matches Err(e) && exists|i: int, x: Seq<char>|
                    #[trigger] least_unresolved(ds@, i) && #[trigger] least_unknown(ds@, i, x) && refusal_is(
                        e,
                        ds@[i],
                        "KES-C021"@,
                        "Parameter '"@ + pname(ds@, i) + "' refers to unknown parameter '"@ + x + "'"@,
                    )
            } else {
                r matches Ok(plan) && evaluation_order(ds@, order_view(plan.order@)) && (plan.cycle is None
                    <==> forall|i: int| !(#[trigger] pending(ds@, order_view(plan.order@), i))) && (plan.cycle matches Some(
                    e,
                ) ==> exists|p: Seq<int>, c: int|
                    #[trigger] cycle_walk(ds@, order_view(plan.order@), p, c) && refusal_is(
                        e,
                        ds@[p[0]],
                        "KES-C023"@,
                        cycle_message(ds@, p, c),
                    ))
            },
        },
{
    let n = ds.len();
    let mut work: usize = 0;
    let mut k: usize = 0;
    while k < n
        invariant
            k <= n == ds@.len(),
            checks_spec(ds@, k as int) == Ok::<int, (int, Seq<char>)>(work as int),
            work <= MAX_EXPRESSION_WORK,
        decreases n - k,
    {
        let w = ds[k].expression.node_count();
        if work + w > MAX_EXPRESSION_WORK {
            proof {
                lemma_checks_stop(ds@, k + 1, n as int);
            }
            return Err(refusal(&ds[k], "KES-C020", owned("Parameter expression work limit exceeded")));
        }
        if k >= MAX_PARAMETERS {
            proof {
                lemma_checks_stop(ds@, k + 1, n as int);
            }
            return Err(refusal(&ds[k], "KES-C020", owned("Parameter count exceeds 4096")));
        }
        if taken_before(ds, k) {
            let mut m = owned("Duplicate or reserved parameter '");
            append_str(&mut m, ds[k].name.as_str());
            append_str(&mut m, "'");
            proof {
                lemma_checks_stop(ds@, k + 1, n as int);
            }
            return Err(refusal(&ds[k], "KES-C020", m));
        }
        work = work + w;
        k = k + 1;
    }
    // Names that no declaration has.
    let mut bad: Option<(usize, String)> = None;
    let mut i: usize = 0;
    while i < n
        invariant
            i <= n == ds@.len(),
            match bad {
                Some((b, x)) => b < i && has_unknown(ds@, b as int) && least_unknown(ds@, b as int, x@) && forall|j: int|
                    0 <= j < i && #[trigger] has_unknown(ds@, j) ==> !text_lt(pname(ds@, j), pname(ds@, b as int)),
                None => forall|j: int| 0 <= j < i ==> !(#[trigger] has_unknown(ds@, j)),
            },
        decreases n - i,
    {
        match first_unknown(ds, i) {
            None => {},
            Some(x) => {
                let better = match &bad {
                    None => true,
                    Some((b, _)) => text_less(ds[i].name.as_str(), ds[*b].name.as_str()),
                };
                proof {
                    crate::text::lemma_text_lt_irreflexive(pname(ds@, i as int));
                    if better && bad is Some {
                        let pair = bad->0;
                        let b = pair.0;
                        assert forall|j: int| 0 <= j < i + 1 && #[trigger] has_unknown(ds@, j) implies !text_lt(
                            pname(ds@, j),
                            pname(ds@, i as int),
                        ) by {
                            if j < i && text_lt(pname(ds@, j), pname(ds@, i as int)) {
                                crate::text::lemma_text_lt_transitive(pname(ds@, j), pname(ds@, i as int), pname(ds@, b as int));
                            }
                        }
                    }
                }
                if better {
                    bad = Some((i, x));
                }
            },
        }
        i = i + 1;
    }
    match bad {
        Some((b, x)) => {
            let mut m = owned("Parameter '");
            append_str(&mut m, ds[b].name.as_str());
            append_str(&mut m, "' refers to unknown parameter '");
            append_str(&mut m, x.as_str());
            append_str(&mut m, "'");
            let e = refusal(&ds[b], "KES-C021", m);
            proof {
                assert(least_unresolved(ds@, b as int));
            }
            return Err(e);
        },
        None => {},
    }
    // The evaluation order.
    let mut done: Vec<bool> = Vec::new();
    let mut j: usize = 0;
    while j < n
        invariant
            j <= n,
            done@.len() == j,
            forall|q: int| 0 <= q < j ==> !(#[trigger] done@[q]),
        decreases n - j,
    {
        done.push(false);
        j = j + 1;
    }
    let mut order: Vec<usize> = Vec::new();
    let mut taken: Vec<String> = Vec::new();
    let mut going = true;
    assert(order_view(order@) =~= Seq::<int>::empty());
    while going
        invariant
            n == ds@.len() == done@.len(),
            forall|q: int| 0 <= q < n ==> done@[q] == order_view(order@).contains(q),
            taken@.len() == order@.len(),
            forall|q: int| 0 <= q < order@.len() ==> (#[trigger] taken@[q])@ == pname(ds@, order_view(order@)[q]),
            forall|q: int|
                0 <= q < order@.len() ==> least_ready(ds@, order_view(order@).take(q), #[trigger] order_view(order@)[q]),
            !going ==> forall|q: int| !(#[trigger] ready(ds@, order_view(order@), q)),
        decreases undone(done@) + if going {
            1nat
        } else {
            0nat
        },
    {
        let ghost ov = order_view(order@);
        match least_ready_exec(ds, &done, &taken, Ghost(ov)) {
            None => {
                going = false;
            },
            Some(b) => {
                proof {
                    lemma_undone_mark(done@, b as int);
                }
                done.set(b, true);
                order.push(b);
                taken.push(owned(ds[b].name.as_str()));
                proof {
                    let nv = order_view(order@);
                    assert(nv =~= ov.push(b as int));
                    assert(nv.take(ov.len() as int) =~= ov);
                    assert forall|q: int| 0 <= q < order@.len() implies least_ready(ds@, nv.take(q), #[trigger] nv[q]) by {
                        if q < ov.len() {
                            assert(nv.take(q) =~= ov.take(q));
                        }
                    }
                    assert forall|q: int| 0 <= q < n implies done@[q] == nv.contains(q) by {
                        if q == b {
                            assert(nv[ov.len() as int] == q);
                        } else {
                            if nv.contains(q) {
                                let t = choose|t: int| 0 <= t < nv.len() && nv[t] == q;
                                assert(t < ov.len());
                                assert(ov[t] == q);
                            }
                            if ov.contains(q) {
                                let t = choose|t: int| 0 <= t < ov.len() && ov[t] == q;
                                assert(nv[t] == q);
                            }
                        }
                    }
                }
            },
        }
    }
    let ghost ov = order_view(order@);
    let start = match least_pending_exec(ds, &done, Ghost(ov)) {
        None => {
            return Ok(ParameterPlan { order, cycle: None });
        },
        Some(s) => s,
    };
    // The walk from the least declaration left over.
    let mut seen: Vec<bool> = Vec::new();
    let mut j: usize = 0;
    while j < n
        invariant
            j <= n,
            seen@.len() == j,
            forall|q: int| 0 <= q < j ==> !(#[trigger] seen@[q]),
        decreases n - j,
    {
        seen.push(false);
        j = j + 1;
    }
    let mut path: Vec<usize> = Vec::new();
    let mut cur: usize = start;
    assert(order_view(path@).push(cur as int) =~= seq![cur as int]);
    loop
        invariant
            n == ds@.len() == done@.len() == seen@.len(),
            ov == order_view(order@),
            forall|q: int| 0 <= q < n ==> done@[q] == ov.contains(q),
            taken@.len() == order@.len(),
            forall|q: int| 0 <= q < order@.len() ==> (#[trigger] taken@[q])@ == pname(ds@, ov[q]),
            forall|q: int| !(#[trigger] ready(ds@, ov, q)),
            forall|q: int| 0 <= q < ds@.len() ==> !(#[trigger] has_unknown(ds@, q)),
            cur < n,
            pending(ds@, ov, cur as int),
            waiting_walk(ds@, ov, order_view(path@).push(cur as int)),
            forall|q: int| 0 <= q < n ==> seen@[q] == order_view(path@).contains(q),
            forall|a: int, b: int| 0 <= a < b < path@.len() ==> #[trigger] path@[a] != #[trigger] path@[b],
            forall|q: int| 0 <= q < path@.len() ==> #[trigger] path@[q] < n,
            start < n,
            order_view(path@).push(cur as int)[0] == start as int,
            checks_spec(ds@, ds@.len() as int) is Ok,
            forall|q: int| 0 <= q < order@.len() ==> least_ready(ds@, ov.take(q), #[trigger] ov[q]),
        decreases undone(seen@),
    {
        let ghost pv = order_view(path@);
        if seen[cur] {
            // Where the walk first met `cur`.
            let mut r: usize = 0;
            while r < path.len() && path[r] != cur
                invariant
                    r <= path@.len(),
                    pv == order_view(path@),
                    pv.contains(cur as int),
                    forall|q: int| 0 <= q < r ==> path@[q] != cur,
                decreases path.len() - r,
            {
                r = r + 1;
            }
            proof {
                if r == path.len() {
                    let t = choose|t: int| 0 <= t < pv.len() && pv[t] == cur as int;
                    assert(path@[t] == cur);
                }
            }
            let mut m = owned("Parameter dependency cycle: ");
            let mut t: usize = r;
            let ghost full = pv.push(cur as int);
            let ghost names = full.subrange(r as int, full.len() as int).map_values(|i: int| pname(ds@, i));
            proof {
                assert(names.take(0) =~= Seq::<Seq<char>>::empty());
            }
            let ghost head = m@;
            while t < path.len()
                invariant
                    r <= t <= path@.len(),
                    full == order_view(path@).push(cur as int),
                    names == full.subrange(r as int, full.len() as int).map_values(|i: int| pname(ds@, i)),
                    m@ == head + join(names.take(t - r), " -> "@),
                    head == "Parameter dependency cycle: "@,
                    n == ds@.len(),
                    forall|q: int| 0 <= q < path@.len() ==> #[trigger] path@[q] < n,
                decreases path.len() - t,
            {
                assert(names.take(t - r + 1).drop_last() =~= names.take(t - r));
                assert(names[t - r] == pname(ds@, path@[t as int] as int));
                if t > r {
                    append_str(&mut m, " -> ");
                }
                append_str(&mut m, ds[path[t]].name.as_str());
                proof {
                    if t > r {
                        assert(m@ =~= head + (join(names.take(t - r), " -> "@) + " -> "@ + names.take(t - r + 1).last()));
                    } else {
                        assert(m@ =~= head + names.take(1)[0]);
                    }
                }
                t = t + 1;
            }
            assert(names.take(t - r + 1).drop_last() =~= names.take(t - r));
            assert(names[t - r] == pname(ds@, cur as int));
            if t > r {
                append_str(&mut m, " -> ");
            }
            append_str(&mut m, ds[cur].name.as_str());
            proof {
                if t > r {
                    assert(m@ =~= head + (join(names.take(t - r), " -> "@) + " -> "@ + names.take(t - r + 1).last()));
                } else {
                    assert(m@ =~= head + names.take(1)[0]);
                }
                assert(names.take(t - r + 1) =~= names);
                assert(full[r as int] == full[full.len() - 1]);
                assert forall|a: int, b: int| 0 <= a < b < full.len() - 1 implies #[trigger] full[a] != #[trigger] full[b] by {
                    assert(full[a] == path@[a] as int && full[b] == path@[b] as int);
                }
                assert(cycle_walk(ds@, ov, full, r as int));
            }
            let e = refusal(&ds[start], "KES-C023", m);
            proof {
                assert(full[0] == start as int);
                assert(refusal_is(e, ds@[full[0]], "KES-C023"@, cycle_message(ds@, full, r as int)));
                assert(evaluation_order(ds@, ov));
                assert(pending(ds@, ov, cur as int));
                assert(!(exists|i: int| 0 <= i < ds@.len() && #[trigger] has_unknown(ds@, i)));
            }
            return Ok(ParameterPlan { order, cycle: Some(e) });
        }
        proof {
            lemma_undone_mark(seen@, cur as int);
        }
        seen.set(cur, true);
        path.push(cur);
        let x = next_dep_exec(ds, &taken, cur, Ghost(ov));
        proof {
            assert(!has_unknown(ds@, cur as int));
            assert(!unknown_dep(ds@, cur as int, x@));
        }
        let nxt = position_of_name(ds, x.as_str());
        proof {
            if ov.contains(nxt as int) {
                let t = choose|t: int| 0 <= t < ov.len() && ov[t] == nxt as int;
                assert(pname(ds@, ov[t]) == x@);
            }
            let pv2 = order_view(path@);
            assert(pv2 =~= pv.push(cur as int));
            assert forall|q: int| 0 <= q < n implies seen@[q] == pv2.contains(q) by {
                if q == cur {
                    assert(pv2[pv.len() as int] == q);
                } else {
                    if pv2.contains(q) {
                        let t = choose|t: int| 0 <= t < pv2.len() && pv2[t] == q;
                        assert(pv[t] == q);
                    }
                    if pv.contains(q) {
                        let t = choose|t: int| 0 <= t < pv.len() && pv[t] == q;
                        assert(pv2[t] == q);
                    }
                }
            }
            assert forall|a: int, b: int| 0 <= a < b < path@.len() implies #[trigger] path@[a] != #[trigger] path@[b] by {
                if b == path@.len() - 1 && path@[a] == path@[b] {
                    assert(pv[a] == cur as int);
                }
            }
            let w = pv2.push(nxt as int);
            let w0 = pv.push(cur as int);
            assert forall|q: int| 0 <= q < w.len() - 1 implies pending(ds@, ov, #[trigger] w[q + 1]) && next_dep(
                ds@,
                ov,
                w[q],
                pname(ds@, w[q + 1]),
            ) by {
                if q < w.len() - 2 {
                    assert(w[q] == w0[q] && w[q + 1] == w0[q + 1]);
                }
            }
            assert(w[0] == w0[0]);
        }
        cur = nxt;
    }
}

} // verus!
