//! Electrical rule checks: declarations, references, floating pins, shorted
//! sources, conflicting net names and ambiguous ground.
use crate::ast::PinRef;
use crate::component::{component_definition, definition_matches, is_valid_pin, pin_names, pin_view, PinDefinition};
use crate::graph::{net_lookup, qualified, NetlistGraph, Topology, TopologyComponent};
use crate::ir::{opt_view, views, ComponentKind};
use crate::text::{append_str, owned, text_is, text_less, text_lt};
use vstd::multiset::Multiset;
use vstd::prelude::*;

verus! {

broadcast use vstd::seq_lib::group_to_multiset_ensures;

/// A design-rule finding, by its message.
#[derive(Debug, PartialEq, Eq)]
pub struct DrcError {
    pub message: String,
}

#[derive(Debug, Clone, Copy, PartialEq, Eq, Structural)]
pub enum Severity {
    Error,
    Warning,
    Info,
}

#[derive(Debug)]
pub struct ErcDiagnostic {
    pub code: String,
    pub severity: Severity,
    pub message: String,
    pub component: Option<String>,
    pub pin: Option<String>,
}

/// Code, severity, message, component and pin of a diagnostic.
pub type DiagView = (Seq<char>, Severity, Seq<char>, Option<Seq<char>>, Option<Seq<char>>);

impl View for ErcDiagnostic {
    type V = DiagView;

    open spec fn view(&self) -> DiagView {
        (self.code@, self.severity, self.message@, opt_view(self.component), opt_view(self.pin))
    }
}

pub open spec fn dviews(s: Seq<ErcDiagnostic>) -> Seq<DiagView> {
    s.map_values(|d: ErcDiagnostic| d@)
}

pub open spec fn error(
    code: Seq<char>,
    message: Seq<char>,
    component: Option<Seq<char>>,
    pin: Option<Seq<char>>,
) -> DiagView {
    (code, Severity::Error, message, component, pin)
}

// ---------------------------------------------------------------------------
// What each rule reports.

pub open spec fn is_component_id(t: Topology, s: Seq<char>) -> bool {
    exists|j: int| 0 <= j < t.components@.len() && (#[trigger] t.components@[j]).id@ == s
}

/// Component `i` repeats the id of an earlier component.
pub open spec fn declared_before(t: Topology, i: int) -> bool {
    exists|j: int| 0 <= j < i && (#[trigger] t.components@[j]).id@ == t.components@[i].id@
}

/// Net `i` repeats an earlier net.
pub open spec fn net_before(t: Topology, i: int) -> bool {
    exists|j: int| 0 <= j < i && (#[trigger] t.nets@[j])@ == t.nets@[i]@
}

pub open spec fn duplicate_components(t: Topology, n: int) -> Seq<DiagView>
    decreases n,
{
    if n <= 0 {
        seq![]
    } else {
        let id = t.components@[n - 1].id@;
        duplicate_components(t, n - 1) + if declared_before(t, n - 1) {
            seq![error("KES-E001"@, "Duplicate component declaration: "@ + id, Some(id), None)]
        } else {
            seq![]
        }
    }
}

pub open spec fn net_diags(t: Topology, n: int) -> Seq<DiagView>
    decreases n,
{
    if n <= 0 {
        seq![]
    } else {
        let net = t.nets@[n - 1]@;
        net_diags(t, n - 1) + (if net_before(t, n - 1) {
            seq![error("KES-E009"@, "Duplicate net declaration: "@ + net, None, Some(net))]
        } else {
            seq![]
        }) + if is_component_id(t, net) {
            seq![
                error(
                    "KES-E006"@,
                    "Namespace collision: '"@ + net + "' is declared as both a component and a net."@,
                    Some(net),
                    Some(net),
                ),
            ]
        } else {
            seq![]
        }
    }
}

/// An endpoint names a component that is not declared.
pub open spec fn undeclared(t: Topology, p: PinRef) -> bool {
    p.component@.len() > 0 && !is_component_id(t, p.component@)
}

pub open spec fn undeclared_in(t: Topology, pins: Seq<PinRef>, m: int) -> Seq<DiagView>
    decreases m,
{
    if m <= 0 {
        seq![]
    } else {
        let p = pins[m - 1];
        undeclared_in(t, pins, m - 1) + if undeclared(t, p) {
            seq![
                error(
                    "KES-E002"@,
                    "Connection refers to undeclared component: "@ + p.component@,
                    Some(p.component@),
                    Some(p.pin@),
                ),
            ]
        } else {
            seq![]
        }
    }
}

pub open spec fn undeclared_diags(t: Topology, n: int) -> Seq<DiagView>
    decreases n,
{
    if n <= 0 {
        seq![]
    } else {
        let pins = t.connections@[n - 1].pins@;
        undeclared_diags(t, n - 1) + undeclared_in(t, pins, pins.len() as int)
    }
}

/// `i` is the first component with id `id`.
pub open spec fn first_component(t: Topology, id: Seq<char>, i: int) -> bool {
    0 <= i < t.components@.len() && t.components@[i].id@ == id && forall|j: int|
        0 <= j < i ==> (#[trigger] t.components@[j]).id@ != id
}

/// The component has no pin of that name: not in its catalog, or not among
/// the interface pins of a module port.
pub open spec fn bad_pin(c: TopologyComponent, pin: Seq<char>) -> bool {
    !(c.kind == ComponentKind::ModulePort || pin_names(c.kind).contains(pin)) || match c.module_pins {
        Some(ps) => !views(ps@).contains(pin),
        None => false,
    }
}

/// An endpoint names a pin that its (first) component does not have.
pub open spec fn invalid_ref(t: Topology, p: PinRef) -> bool {
    p.component@.len() > 0 && exists|i: int|
        #[trigger] first_component(t, p.component@, i) && bad_pin(t.components@[i], p.pin@)
}

pub open spec fn invalid_in(t: Topology, pins: Seq<PinRef>, m: int) -> Seq<DiagView>
    decreases m,
{
    if m <= 0 {
        seq![]
    } else {
        let p = pins[m - 1];
        invalid_in(t, pins, m - 1) + if invalid_ref(t, p) {
            seq![
                error(
                    "KES-E005"@,
                    "Invalid pin reference: "@ + p.component@ + "."@ + p.pin@ + " does not exist."@,
                    Some(p.component@),
                    Some(p.pin@),
                ),
            ]
        } else {
            seq![]
        }
    }
}

pub open spec fn invalid_diags(t: Topology, n: int) -> Seq<DiagView>
    decreases n,
{
    if n <= 0 {
        seq![]
    } else {
        let pins = t.connections@[n - 1].pins@;
        invalid_diags(t, n - 1) + invalid_in(t, pins, pins.len() as int)
    }
}

pub open spec fn floating_in(g: NetlistGraph, c: TopologyComponent, m: int) -> Seq<DiagView>
    decreases m,
{
    if m <= 0 {
        seq![]
    } else {
        let name = pin_names(c.kind)[m - 1];
        floating_in(g, c, m - 1) + if net_lookup(g.pin_to_net@, qualified(c.id@, name)) is None {
            seq![
                error(
                    "KES-E003"@,
                    "Floating Pin: "@ + c.id@ + "."@ + name + " is not connected to anything."@,
                    Some(c.id@),
                    Some(name),
                ),
            ]
        } else {
            seq![]
        }
    }
}

pub open spec fn floating_diags(t: Topology, g: NetlistGraph, n: int) -> Seq<DiagView>
    decreases n,
{
    if n <= 0 {
        seq![]
    } else {
        let c = t.components@[n - 1];
        floating_diags(t, g, n - 1) + floating_in(g, c, pin_names(c.kind).len() as int)
    }
}

/// A voltage source whose two terminals are on one net.
pub open spec fn shorted(g: NetlistGraph, c: TopologyComponent) -> bool {
    let plus = net_lookup(g.pin_to_net@, qualified(c.id@, "plus"@));
    let minus = net_lookup(g.pin_to_net@, qualified(c.id@, "minus"@));
    c.kind == ComponentKind::VoltageSource && plus is Some && plus == minus
}

pub open spec fn short_diags(t: Topology, g: NetlistGraph, n: int) -> Seq<DiagView>
    decreases n,
{
    if n <= 0 {
        seq![]
    } else {
        let c = t.components@[n - 1];
        short_diags(t, g, n - 1) + if shorted(g, c) {
            seq![
                error(
                    "KES-E004"@,
                    "CRITICAL SHORT CIRCUIT: Source "@ + c.id@ + " plus and minus are connected together!"@,
                    Some(c.id@),
                    None,
                ),
            ]
        } else {
            seq![]
        }
    }
}

/// The parts separated by `sep`.
pub open spec fn join(parts: Seq<Seq<char>>, sep: Seq<char>) -> Seq<char>
    decreases parts.len(),
{
    if parts.len() == 0 {
        seq![]
    } else if parts.len() == 1 {
        parts[0]
    } else {
        join(parts.drop_last(), sep) + sep + parts.last()
    }
}

pub open spec fn first_of(parts: Seq<Seq<char>>) -> Option<Seq<char>> {
    if parts.len() > 0 {
        Some(parts[0])
    } else {
        None
    }
}

pub open spec fn conflict_diags(g: NetlistGraph, n: int) -> Seq<DiagView>
    decreases n,
{
    if n <= 0 {
        seq![]
    } else {
        let names = views(g.net_name_conflicts@[n - 1].names@);
        conflict_diags(g, n - 1) + seq![
            error(
                "KES-E007"@,
                "Conflicting user net names refer to the same physical net: "@ + join(names, ", "@) + "."@,
                None,
                first_of(names),
            ),
        ]
    }
}

pub open spec fn ground_diags(g: NetlistGraph) -> Seq<DiagView> {
    let cands = views(g.ground_candidates@);
    if cands.len() > 1 {
        seq![
            error(
                "KES-E008"@,
                "Ambiguous "@ + (if g.ground_is_explicit {
                    "explicit"@
                } else {
                    "source-minus"@
                }) + " ground candidates: "@ + join(cands, ", "@)
                    + ". Connect the intended reference to a single explicit 'net GND'."@,
                None,
                first_of(cands),
            ),
        ]
    } else {
        seq![]
    }
}

/// Every diagnostic of the rule checks, rule by rule.
pub open spec fn erc_findings(t: Topology, g: NetlistGraph) -> Seq<DiagView> {
    duplicate_components(t, t.components@.len() as int) + net_diags(t, t.nets@.len() as int)
        + undeclared_diags(t, t.connections@.len() as int) + invalid_diags(
        t,
        t.connections@.len() as int,
    ) + floating_diags(t, g, t.components@.len() as int) + short_diags(
        t,
        g,
        t.components@.len() as int,
    ) + conflict_diags(g, g.net_name_conflicts@.len() as int) + ground_diags(g)
}

// ---------------------------------------------------------------------------
// The report order: by code, then component, pin and message.

pub open spec fn opt_lt(a: Option<Seq<char>>, b: Option<Seq<char>>) -> bool {
    match (a, b) {
        (None, Some(_)) => true,
        (Some(x), Some(y)) => text_lt(x, y),
        _ => false,
    }
}

pub open spec fn diag_lt(a: DiagView, b: DiagView) -> bool {
    ||| text_lt(a.0, b.0)
    ||| a.0 == b.0 && opt_lt(a.3, b.3)
    ||| a.0 == b.0 && a.3 == b.3 && opt_lt(a.4, b.4)
    ||| a.0 == b.0 && a.3 == b.3 && a.4 == b.4 && text_lt(a.2, b.2)
}

pub open spec fn diags_sorted(s: Seq<DiagView>) -> bool {
    forall|i: int, j: int| 0 <= i < j < s.len() ==> !diag_lt(#[trigger] s[j], #[trigger] s[i])
}

proof fn lemma_opt_lt(a: Option<Seq<char>>, b: Option<Seq<char>>, c: Option<Seq<char>>)
    ensures
        !opt_lt(a, a),
        a != b ==> opt_lt(a, b) || opt_lt(b, a),
        opt_lt(a, b) && opt_lt(b, c) ==> opt_lt(a, c),
{
    match a {
        Some(x) => crate::text::lemma_text_lt_irreflexive(x),
        None => {},
    }
    match (a, b) {
        (Some(x), Some(y)) => crate::text::lemma_text_lt_total(x, y),
        _ => {},
    }
    match (a, b, c) {
        (Some(x), Some(y), Some(z)) => {
            if text_lt(x, y) && text_lt(y, z) {
                crate::text::lemma_text_lt_transitive(x, y, z);
            }
        },
        _ => {},
    }
}

/// The report order is a strict total order on diagnostics of one severity.
proof fn lemma_diag_lt(a: DiagView, b: DiagView, c: DiagView)
    ensures
        !diag_lt(a, a),
        a != b && a.1 == b.1 ==> diag_lt(a, b) || diag_lt(b, a),
        diag_lt(a, b) && diag_lt(b, c) ==> diag_lt(a, c),
{
    crate::text::lemma_text_lt_irreflexive(a.0);
    crate::text::lemma_text_lt_irreflexive(a.2);
    lemma_opt_lt(a.3, b.3, c.3);
    lemma_opt_lt(a.4, b.4, c.4);
    lemma_opt_lt(b.3, a.3, c.3);
    lemma_opt_lt(b.4, a.4, c.4);
    crate::text::lemma_text_lt_total(a.0, b.0);
    crate::text::lemma_text_lt_total(a.2, b.2);
    crate::text::lemma_text_lt_total(b.0, c.0);
    crate::text::lemma_text_lt_total(a.0, c.0);
    if text_lt(a.0, b.0) && text_lt(b.0, c.0) {
        crate::text::lemma_text_lt_transitive(a.0, b.0, c.0);
    }
    if text_lt(a.2, b.2) && text_lt(b.2, c.2) {
        crate::text::lemma_text_lt_transitive(a.2, b.2, c.2);
    }
    if a != b && a.1 == b.1 && a.0 == b.0 && a.3 == b.3 && a.4 == b.4 {
        assert(a.2 != b.2);
    }
}

fn opt_less(a: &Option<String>, b: &Option<String>) -> (r: bool)
    ensures
        r == opt_lt(opt_view(*a), opt_view(*b)),
{
    match (a, b) {
        (None, Some(_)) => true,
        (Some(x), Some(y)) => text_less(x.as_str(), y.as_str()),
        _ => false,
    }
}

fn opt_same(a: &Option<String>, b: &Option<String>) -> (r: bool)
    ensures
        r == (opt_view(*a) == opt_view(*b)),
{
    match (a, b) {
        (None, None) => true,
        (Some(x), Some(y)) => text_is(x.as_str(), y.as_str()),
        _ => false,
    }
}

fn diag_less(a: &ErcDiagnostic, b: &ErcDiagnostic) -> (r: bool)
    ensures
        r == diag_lt(a@, b@),
{
    if text_less(a.code.as_str(), b.code.as_str()) {
        return true;
    }
    if !text_is(a.code.as_str(), b.code.as_str()) {
        return false;
    }
    if opt_less(&a.component, &b.component) {
        return true;
    }
    if !opt_same(&a.component, &b.component) {
        return false;
    }
    if opt_less(&a.pin, &b.pin) {
        return true;
    }
    if !opt_same(&a.pin, &b.pin) {
        return false;
    }
    text_less(a.message.as_str(), b.message.as_str())
}

/// The diagnostics in report order.
fn sort_diags(v: Vec<ErcDiagnostic>) -> (r: Vec<ErcDiagnostic>)
    requires
        forall|i: int| 0 <= i < v@.len() ==> (#[trigger] v@[i]).severity == Severity::Error,
    ensures
        diags_sorted(dviews(r@)),
        dviews(r@).to_multiset() == dviews(v@).to_multiset(),
        forall|i: int| 0 <= i < r@.len() ==> (#[trigger] r@[i]).severity == Severity::Error,
{
    let mut rest = v;
    let mut r: Vec<ErcDiagnostic> = Vec::new();
    while rest.len() > 0
        invariant
            diags_sorted(dviews(r@)),
            dviews(r@).to_multiset().add(dviews(rest@).to_multiset()) == dviews(v@).to_multiset(),
            forall|i: int| 0 <= i < r@.len() ==> (#[trigger] r@[i]).severity == Severity::Error,
            forall|i: int| 0 <= i < rest@.len() ==> (#[trigger] rest@[i]).severity == Severity::Error,
        decreases rest.len(),
    {
        let ghost old_rest = rest@;
        let x = rest.pop().unwrap();
        proof {
            assert(dviews(old_rest) =~= dviews(rest@).push(x@));
        }
        let mut p: usize = 0;
        while p < r.len() && !diag_less(&x, &r[p])
            invariant
                p <= r@.len(),
                forall|q: int| 0 <= q < p ==> !diag_lt(x@, #[trigger] r@[q]@),
            decreases r.len() - p,
        {
            p = p + 1;
        }
        let ghost old_r = r@;
        r.insert(p, x);
        proof {
            let d = dviews(r@);
            let od = dviews(old_r);
            assert(d =~= od.insert(p as int, x@));
            assert forall|i: int, j: int| 0 <= i < j < d.len() implies !diag_lt(#[trigger] d[j], #[trigger] d[i]) by {
                if j < p {
                    assert(d[i] == od[i] && d[j] == od[j]);
                } else if i > p {
                    assert(d[i] == od[i - 1] && d[j] == od[j - 1]);
                } else if i == p {
                    // d[i] is x; d[j] is od[j - 1] and x precedes od[p] <= od[j - 1].
                    assert(d[j] == od[j - 1]);
                    assert(diag_lt(x@, od[p as int]));
                    lemma_diag_lt(x@, od[p as int], od[j - 1]);
                    lemma_diag_lt(od[j - 1], x@, od[p as int]);
                    lemma_diag_lt(od[p as int], od[j - 1], x@);
                    if p as int != j - 1 {
                        lemma_diag_lt(od[j - 1], od[p as int], x@);
                    }
                } else {
                    // j == p: d[j] is x, and x does not precede d[i].
                    assert(d[i] == od[i]);
                    assert(!diag_lt(x@, od[i]));
                }
            }
        }
    }
    proof {
        assert(dviews(rest@).to_multiset() =~= Multiset::empty());
    }
    r
}


// ---------------------------------------------------------------------------
// The checks.

pub open spec fn all_errors(s: Seq<ErcDiagnostic>) -> bool {
    forall|i: int| 0 <= i < s.len() ==> (#[trigger] s[i]).severity == Severity::Error
}

fn push_error(
    out: &mut Vec<ErcDiagnostic>,
    code: &str,
    message: String,
    component: Option<String>,
    pin: Option<String>,
)
    requires
        all_errors(old(out)@),
    ensures
        all_errors(final(out)@),
        dviews(final(out)@) == dviews(old(out)@).push(error(code@, message@, opt_view(component), opt_view(pin))),
{
    let ghost d = error(code@, message@, opt_view(component), opt_view(pin));
    let ghost before = out@;
    out.push(ErcDiagnostic { code: owned(code), severity: Severity::Error, message, component, pin });
    proof {
        assert(dviews(out@) =~= dviews(before).push(d));
    }
}

fn text_of(parts: &[&str]) -> (r: String)
    ensures
        r@ == parts@.fold_left(Seq::<char>::empty(), |acc: Seq<char>, s: &str| acc + s@),
{
    let mut r = String::new();
    let mut i: usize = 0;
    while i < parts.len()
        invariant
            i <= parts@.len(),
            r@ == parts@.take(i as int).fold_left(Seq::<char>::empty(), |acc: Seq<char>, s: &str| acc + s@),
        decreases parts.len() - i,
    {
        let ghost before = r@;
        append_str(&mut r, parts[i]);
        proof {
            let f = |acc: Seq<char>, s: &str| acc + s@;
            assert(parts@.take(i + 1).drop_last() =~= parts@.take(i as int));
        }
        i = i + 1;
    }
    proof {
        assert(parts@.take(parts@.len() as int) =~= parts@);
    }
    r
}

/// Whether some component has this id.
fn has_component(t: &Topology, s: &str) -> (r: bool)
    ensures
        r == is_component_id(*t, s@),
{
    let mut j: usize = 0;
    while j < t.components.len()
        invariant
            j <= t.components@.len(),
            forall|q: int| 0 <= q < j ==> (#[trigger] t.components@[q]).id@ != s@,
        decreases t.components.len() - j,
    {
        if text_is(t.components[j].id.as_str(), s) {
            return true;
        }
        j = j + 1;
    }
    false
}

/// The first component with this id.
fn find_component(t: &Topology, s: &str) -> (r: Option<usize>)
    ensures
        match r {
            Some(i) => first_component(*t, s@, i as int),
            None => !is_component_id(*t, s@),
        },
{
    let mut j: usize = 0;
    while j < t.components.len()
        invariant
            j <= t.components@.len(),
            forall|q: int| 0 <= q < j ==> (#[trigger] t.components@[q]).id@ != s@,
        decreases t.components.len() - j,
    {
        if text_is(t.components[j].id.as_str(), s) {
            return Some(j);
        }
        j = j + 1;
    }
    None
}

fn check_duplicate_components(t: &Topology, out: &mut Vec<ErcDiagnostic>)
    requires
        all_errors(old(out)@),
    ensures
        all_errors(final(out)@),
        dviews(final(out)@) == dviews(old(out)@) + duplicate_components(*t, t.components@.len() as int),
{
    let ghost start = dviews(out@);
    let n = t.components.len();
    let mut i: usize = 0;
    while i < n
        invariant
            n == t.components@.len(),
            i <= n,
            all_errors(out@),
            dviews(out@) == start + duplicate_components(*t, i as int),
        decreases n - i,
    {
        let id = &t.components[i].id;
        let mut j: usize = 0;
        let mut seen = false;
        while j < i
            invariant
                i < n,
                n == t.components@.len(),
                j <= i,
                id@ == t.components@[i as int].id@,
                seen <==> exists|q: int| 0 <= q < j && (#[trigger] t.components@[q]).id@ == id@,
            decreases i - j,
        {
            if text_is(t.components[j].id.as_str(), id.as_str()) {
                seen = true;
            }
            j = j + 1;
        }
        if seen {
            let mut m = owned("Duplicate component declaration: ");
            append_str(&mut m, id.as_str());
            push_error(out, "KES-E001", m, Some(id.clone()), None);
        }
        proof {
            assert(seen == declared_before(*t, i as int));
            assert(start + duplicate_components(*t, i + 1) =~= start + duplicate_components(*t, i as int) + (
            if seen {
                seq![error("KES-E001"@, "Duplicate component declaration: "@ + id@, Some(id@), None)]
            } else {
                seq![]
            }));
        }
        i = i + 1;
    }
}

fn check_nets(t: &Topology, out: &mut Vec<ErcDiagnostic>)
    requires
        all_errors(old(out)@),
    ensures
        all_errors(final(out)@),
        dviews(final(out)@) == dviews(old(out)@) + net_diags(*t, t.nets@.len() as int),
{
    let ghost start = dviews(out@);
    let n = t.nets.len();
    let mut i: usize = 0;
    while i < n
        invariant
            n == t.nets@.len(),
            i <= n,
            all_errors(out@),
            dviews(out@) == start + net_diags(*t, i as int),
        decreases n - i,
    {
        let net = &t.nets[i];
        let mut j: usize = 0;
        let mut seen = false;
        while j < i
            invariant
                i < n,
                n == t.nets@.len(),
                j <= i,
                net@ == t.nets@[i as int]@,
                seen <==> exists|q: int| 0 <= q < j && (#[trigger] t.nets@[q])@ == net@,
            decreases i - j,
        {
            if text_is(t.nets[j].as_str(), net.as_str()) {
                seen = true;
            }
            j = j + 1;
        }
        let ghost mid = dviews(out@);
        if seen {
            let mut m = owned("Duplicate net declaration: ");
            append_str(&mut m, net.as_str());
            push_error(out, "KES-E009", m, None, Some(net.clone()));
        }
        let ghost after_dup = dviews(out@);
        let collides = has_component(t, net.as_str());
        if collides {
            let m = text_of(&["Namespace collision: '", net.as_str(), "' is declared as both a component and a net."]);
            proof {
                reveal_with_fuel(Seq::fold_left, 4);
                assert(m@ =~= "Namespace collision: '"@ + net@ + "' is declared as both a component and a net."@);
            }
            push_error(out, "KES-E006", m, Some(net.clone()), Some(net.clone()));
        }
        proof {
            assert(seen == net_before(*t, i as int));
            let e9 = if seen {
                seq![error("KES-E009"@, "Duplicate net declaration: "@ + net@, None, Some(net@))]
            } else {
                seq![]
            };
            let e6 = if collides {
                seq![
                    error(
                        "KES-E006"@,
                        "Namespace collision: '"@ + net@ + "' is declared as both a component and a net."@,
                        Some(net@),
                        Some(net@),
                    ),
                ]
            } else {
                seq![]
            };
            assert(after_dup =~= mid + e9);
            assert(dviews(out@) =~= after_dup + e6);
            assert(net_diags(*t, i + 1) =~= net_diags(*t, i as int) + e9 + e6);
        }
        i = i + 1;
    }
}


fn check_undeclared_in(t: &Topology, pins: &Vec<PinRef>, out: &mut Vec<ErcDiagnostic>)
    requires
        all_errors(old(out)@),
    ensures
        all_errors(final(out)@),
        dviews(final(out)@) == dviews(old(out)@) + undeclared_in(*t, pins@, pins@.len() as int),
{
    let ghost start = dviews(out@);
    let mut m: usize = 0;
    while m < pins.len()
        invariant
            m <= pins@.len(),
            all_errors(out@),
            dviews(out@) == start + undeclared_in(*t, pins@, m as int),
        decreases pins.len() - m,
    {
        let p = &pins[m];
        let ghost mid = dviews(out@);
        let bad = !p.component.as_str().is_empty() && !has_component(t, p.component.as_str());
        proof {
        }
        if bad {
            let mut msg = owned("Connection refers to undeclared component: ");
            append_str(&mut msg, p.component.as_str());
            push_error(out, "KES-E002", msg, Some(p.component.clone()), Some(p.pin.clone()));
        }
        proof {
            assert(bad == undeclared(*t, *p));
            assert(undeclared_in(*t, pins@, m + 1) =~= undeclared_in(*t, pins@, m as int) + if bad {
                seq![
                    error(
                        "KES-E002"@,
                        "Connection refers to undeclared component: "@ + p.component@,
                        Some(p.component@),
                        Some(p.pin@),
                    ),
                ]
            } else {
                seq![]
            });
        }
        m = m + 1;
    }
}

fn check_undeclared(t: &Topology, out: &mut Vec<ErcDiagnostic>)
    requires
        all_errors(old(out)@),
    ensures
        all_errors(final(out)@),
        dviews(final(out)@) == dviews(old(out)@) + undeclared_diags(*t, t.connections@.len() as int),
{
    let ghost start = dviews(out@);
    let mut c: usize = 0;
    while c < t.connections.len()
        invariant
            c <= t.connections@.len(),
            all_errors(out@),
            dviews(out@) == start + undeclared_diags(*t, c as int),
        decreases t.connections.len() - c,
    {
        check_undeclared_in(t, &t.connections[c].pins, out);
        proof {
            assert(dviews(out@) =~= start + undeclared_diags(*t, c + 1));
        }
        c = c + 1;
    }
}

/// Whether the component lacks a pin of that name.
fn lacks_pin(c: &TopologyComponent, pin: &str) -> (r: bool)
    ensures
        r == bad_pin(*c, pin@),
{
    if !is_valid_pin(&c.kind, pin) {
        return true;
    }
    match &c.module_pins {
        Some(ps) => {
            let mut i: usize = 0;
            while i < ps.len()
                invariant
                    i <= ps@.len(),
                    c.module_pins == Some(*ps),
                    c.kind == ComponentKind::ModulePort || pin_names(c.kind).contains(pin@),
                    forall|q: int| 0 <= q < i ==> (#[trigger] ps@[q])@ != pin@,
                decreases ps.len() - i,
            {
                if text_is(ps[i].as_str(), pin) {
                    proof {
                        assert(views(ps@)[i as int] == pin@);
                        assert(views(ps@).contains(pin@));
                    }
                    return false;
                }
                i = i + 1;
            }
            proof {
                if views(ps@).contains(pin@) {
                    let q = choose|q: int| 0 <= q < views(ps@).len() && views(ps@)[q] == pin@;
                    assert(ps@[q]@ == pin@);
                }
            }
            true
        },
        None => false,
    }
}

fn check_invalid_in(t: &Topology, pins: &Vec<PinRef>, out: &mut Vec<ErcDiagnostic>)
    requires
        all_errors(old(out)@),
    ensures
        all_errors(final(out)@),
        dviews(final(out)@) == dviews(old(out)@) + invalid_in(*t, pins@, pins@.len() as int),
{
    let ghost start = dviews(out@);
    let mut m: usize = 0;
    while m < pins.len()
        invariant
            m <= pins@.len(),
            all_errors(out@),
            dviews(out@) == start + invalid_in(*t, pins@, m as int),
        decreases pins.len() - m,
    {
        let p = &pins[m];
        let mut bad = false;
        if !p.component.as_str().is_empty() {
            match find_component(t, p.component.as_str()) {
                Some(i) => {
                    bad = lacks_pin(&t.components[i], p.pin.as_str());
                    proof {
                        if !bad {
                            assert forall|k: int| #[trigger] first_component(*t, p.component@, k) implies !bad_pin(t.components@[k], p.pin@) by {
                                if k < i {
                                    assert(t.components@[k].id@ != p.component@);
                                } else if k > i {
                                    assert(t.components@[i as int].id@ != p.component@);
                                }
                            }
                        }
                    }
                },
                None => {},
            }
        }
        proof {
            assert(bad == invalid_ref(*t, *p));
        }
        if bad {
            let msg = text_of(&["Invalid pin reference: ", p.component.as_str(), ".", p.pin.as_str(), " does not exist."]);
            proof {
                reveal_with_fuel(Seq::fold_left, 6);
                assert(msg@ =~= "Invalid pin reference: "@ + p.component@ + "."@ + p.pin@ + " does not exist."@);
            }
            push_error(out, "KES-E005", msg, Some(p.component.clone()), Some(p.pin.clone()));
        }
        proof {
            assert(invalid_in(*t, pins@, m + 1) =~= invalid_in(*t, pins@, m as int) + if bad {
                seq![
                    error(
                        "KES-E005"@,
                        "Invalid pin reference: "@ + p.component@ + "."@ + p.pin@ + " does not exist."@,
                        Some(p.component@),
                        Some(p.pin@),
                    ),
                ]
            } else {
                seq![]
            });
        }
        m = m + 1;
    }
}

fn check_invalid(t: &Topology, out: &mut Vec<ErcDiagnostic>)
    requires
        all_errors(old(out)@),
    ensures
        all_errors(final(out)@),
        dviews(final(out)@) == dviews(old(out)@) + invalid_diags(*t, t.connections@.len() as int),
{
    let ghost start = dviews(out@);
    let mut c: usize = 0;
    while c < t.connections.len()
        invariant
            c <= t.connections@.len(),
            all_errors(out@),
            dviews(out@) == start + invalid_diags(*t, c as int),
        decreases t.connections.len() - c,
    {
        check_invalid_in(t, &t.connections[c].pins, out);
        proof {
            assert(dviews(out@) =~= start + invalid_diags(*t, c + 1));
        }
        c = c + 1;
    }
}


fn check_floating_in(g: &NetlistGraph, c: &TopologyComponent, out: &mut Vec<ErcDiagnostic>)
    requires
        all_errors(old(out)@),
    ensures
        all_errors(final(out)@),
        dviews(final(out)@) == dviews(old(out)@) + floating_in(*g, *c, pin_names(c.kind).len() as int),
{
    let ghost start = dviews(out@);
    let d = component_definition(&c.kind);
    let ghost names = pin_names(c.kind);
    proof {
        assert(names.len() == d.pins@.len()) by {
            assert(d.pins@.map_values(|p: PinDefinition| pin_view(p)).len() == d.pins@.len());
        }
    }
    let mut m: usize = 0;
    while m < d.pins.len()
        invariant
            definition_matches(d, c.kind),
            names == pin_names(c.kind),
            names.len() == d.pins@.len(),
            m <= d.pins@.len(),
            all_errors(out@),
            dviews(out@) == start + floating_in(*g, *c, m as int),
        decreases d.pins.len() - m,
    {
        let name = d.pins[m].name;
        proof {
            assert(names[m as int] == name@);
        }
        let floating = g.get_net(c.id.as_str(), name).is_none();
        if floating {
            let msg = text_of(&["Floating Pin: ", c.id.as_str(), ".", name, " is not connected to anything."]);
            proof {
                reveal_with_fuel(Seq::fold_left, 6);
                assert(msg@ =~= "Floating Pin: "@ + c.id@ + "."@ + name@ + " is not connected to anything."@);
            }
            push_error(out, "KES-E003", msg, Some(c.id.clone()), Some(owned(name)));
        }
        proof {
            assert(floating_in(*g, *c, m + 1) =~= floating_in(*g, *c, m as int) + if floating {
                seq![
                    error(
                        "KES-E003"@,
                        "Floating Pin: "@ + c.id@ + "."@ + name@ + " is not connected to anything."@,
                        Some(c.id@),
                        Some(name@),
                    ),
                ]
            } else {
                seq![]
            });
        }
        m = m + 1;
    }
}

fn check_floating(t: &Topology, g: &NetlistGraph, out: &mut Vec<ErcDiagnostic>)
    requires
        all_errors(old(out)@),
    ensures
        all_errors(final(out)@),
        dviews(final(out)@) == dviews(old(out)@) + floating_diags(*t, *g, t.components@.len() as int),
{
    let ghost start = dviews(out@);
    let mut i: usize = 0;
    while i < t.components.len()
        invariant
            i <= t.components@.len(),
            all_errors(out@),
            dviews(out@) == start + floating_diags(*t, *g, i as int),
        decreases t.components.len() - i,
    {
        check_floating_in(g, &t.components[i], out);
        proof {
            assert(dviews(out@) =~= start + floating_diags(*t, *g, i + 1));
        }
        i = i + 1;
    }
}

fn check_shorts(t: &Topology, g: &NetlistGraph, out: &mut Vec<ErcDiagnostic>)
    requires
        all_errors(old(out)@),
    ensures
        all_errors(final(out)@),
        dviews(final(out)@) == dviews(old(out)@) + short_diags(*t, *g, t.components@.len() as int),
{
    let ghost start = dviews(out@);
    let mut i: usize = 0;
    while i < t.components.len()
        invariant
            i <= t.components@.len(),
            all_errors(out@),
            dviews(out@) == start + short_diags(*t, *g, i as int),
        decreases t.components.len() - i,
    {
        let c = &t.components[i];
        let mut short = false;
        if c.kind == ComponentKind::VoltageSource {
            let plus = g.get_net(c.id.as_str(), "plus");
            let minus = g.get_net(c.id.as_str(), "minus");
            short = match (plus, minus) {
                (Some(a), Some(b)) => a.0 == b.0,
                _ => false,
            };
        }
        proof {
            assert(short == shorted(*g, *c));
        }
        if short {
            let msg = text_of(&["CRITICAL SHORT CIRCUIT: Source ", c.id.as_str(), " plus and minus are connected together!"]);
            proof {
                reveal_with_fuel(Seq::fold_left, 4);
                assert(msg@ =~= "CRITICAL SHORT CIRCUIT: Source "@ + c.id@ + " plus and minus are connected together!"@);
            }
            push_error(out, "KES-E004", msg, Some(c.id.clone()), None);
        }
        proof {
            assert(short_diags(*t, *g, i + 1) =~= short_diags(*t, *g, i as int) + if short {
                seq![
                    error(
                        "KES-E004"@,
                        "CRITICAL SHORT CIRCUIT: Source "@ + c.id@ + " plus and minus are connected together!"@,
                        Some(c.id@),
                        None,
                    ),
                ]
            } else {
                seq![]
            });
        }
        i = i + 1;
    }
}

/// The parts separated by `sep`.
pub fn join_text(parts: &Vec<String>, sep: &str) -> (r: String)
    ensures
        r@ == join(views(parts@), sep@),
{
    let mut r = String::new();
    let mut i: usize = 0;
    while i < parts.len()
        invariant
            i <= parts@.len(),
            r@ == join(views(parts@).take(i as int), sep@),
        decreases parts.len() - i,
    {
        if i > 0 {
            append_str(&mut r, sep);
        }
        append_str(&mut r, parts[i].as_str());
        proof {
            let v = views(parts@);
            assert(v.take(i + 1).drop_last() =~= v.take(i as int));
            assert(v.take(i + 1).last() == parts@[i as int]@);
            if i == 0 {
                assert(join(v.take(0), sep@) =~= Seq::<char>::empty());
                assert(r@ =~= parts@[0]@);
            }
        }
        i = i + 1;
    }
    proof {
        assert(views(parts@).take(parts@.len() as int) =~= views(parts@));
    }
    r
}

fn first_text(parts: &Vec<String>) -> (r: Option<String>)
    ensures
        opt_view(r) == first_of(views(parts@)),
{
    if parts.len() > 0 {
        Some(parts[0].clone())
    } else {
        None
    }
}

fn check_conflicts(g: &NetlistGraph, out: &mut Vec<ErcDiagnostic>)
    requires
        all_errors(old(out)@),
    ensures
        all_errors(final(out)@),
        dviews(final(out)@) == dviews(old(out)@) + conflict_diags(*g, g.net_name_conflicts@.len() as int),
{
    let ghost start = dviews(out@);
    let mut i: usize = 0;
    while i < g.net_name_conflicts.len()
        invariant
            i <= g.net_name_conflicts@.len(),
            all_errors(out@),
            dviews(out@) == start + conflict_diags(*g, i as int),
        decreases g.net_name_conflicts.len() - i,
    {
        let names = &g.net_name_conflicts[i].names;
        let mut msg = owned("Conflicting user net names refer to the same physical net: ");
        let joined = join_text(names, ", ");
        append_str(&mut msg, joined.as_str());
        append_str(&mut msg, ".");
        push_error(out, "KES-E007", msg, None, first_text(names));
        proof {
            assert(dviews(out@) =~= start + conflict_diags(*g, i + 1));
        }
        i = i + 1;
    }
}

fn check_ground(g: &NetlistGraph, out: &mut Vec<ErcDiagnostic>)
    requires
        all_errors(old(out)@),
    ensures
        all_errors(final(out)@),
        dviews(final(out)@) == dviews(old(out)@) + ground_diags(*g),
{
    let ghost start = dviews(out@);
    if g.ground_candidates.len() > 1 {
        let kind = if g.ground_is_explicit { "explicit" } else { "source-minus" };
        let joined = join_text(&g.ground_candidates, ", ");
        let msg = text_of(
            &[
                "Ambiguous ",
                kind,
                " ground candidates: ",
                joined.as_str(),
                ". Connect the intended reference to a single explicit 'net GND'.",
            ],
        );
        proof {
            reveal_with_fuel(Seq::fold_left, 6);
            assert(msg@ =~= "Ambiguous "@ + kind@ + " ground candidates: "@ + joined@
                + ". Connect the intended reference to a single explicit 'net GND'."@);
        }
        push_error(out, "KES-E008", msg, None, first_text(&g.ground_candidates));
    }
    proof {
        assert(dviews(out@) =~= start + ground_diags(*g));
    }
}

/// Runs every electrical rule over the circuit and its connectivity and
/// reports the findings ordered by code, component, pin and message.
pub fn check_rules(t: &Topology, g: &NetlistGraph) -> (r: Vec<ErcDiagnostic>)
    ensures
        diags_sorted(dviews(r@)),
        dviews(r@).to_multiset() == erc_findings(*t, *g).to_multiset(),
        all_errors(r@),
{
    let mut errors: Vec<ErcDiagnostic> = Vec::new();
    proof {
        assert(dviews(errors@) =~= Seq::<DiagView>::empty());
    }
    check_duplicate_components(t, &mut errors);
    check_nets(t, &mut errors);
    check_undeclared(t, &mut errors);
    check_invalid(t, &mut errors);
    check_floating(t, g, &mut errors);
    check_shorts(t, g, &mut errors);
    check_conflicts(g, &mut errors);
    check_ground(g, &mut errors);
    proof {
        assert(dviews(errors@) =~= erc_findings(*t, *g));
    }
    sort_diags(errors)
}


// ---------------------------------------------------------------------------
// Undeclared components are reported under their own code.

/// Some diagnostic carries `code`.
pub open spec fn has_code(s: Seq<DiagView>, code: Seq<char>) -> bool {
    exists|i: int| 0 <= i < s.len() && (#[trigger] s[i]).0 == code
}

/// Some endpoint of the first `n` connections names an undeclared component.
pub open spec fn some_undeclared(t: Topology, n: int) -> bool {
    exists|c: int, k: int|
        0 <= c < n && 0 <= k < t.connections@[c].pins@.len() && #[trigger] undeclared(t, t.connections@[c].pins@[k])
}

proof fn lemma_concat_code(a: Seq<DiagView>, b: Seq<DiagView>, code: Seq<char>)
    ensures
        has_code(a + b, code) == (has_code(a, code) || has_code(b, code)),
{
    if has_code(a + b, code) {
        let i = choose|i: int| 0 <= i < (a + b).len() && (#[trigger] (a + b)[i]).0 == code;
        if i < a.len() {
            assert(a[i] == (a + b)[i]);
        } else {
            assert(b[i - a.len()] == (a + b)[i]);
        }
    }
    if has_code(a, code) {
        let i = choose|i: int| 0 <= i < a.len() && (#[trigger] a[i]).0 == code;
        assert((a + b)[i] == a[i]);
    }
    if has_code(b, code) {
        let i = choose|i: int| 0 <= i < b.len() && (#[trigger] b[i]).0 == code;
        assert((a + b)[i + a.len()] == b[i]);
    }
}

proof fn lemma_one_code(d: DiagView, code: Seq<char>)
    ensures
        has_code(seq![d], code) == (d.0 == code),
        !has_code(Seq::<DiagView>::empty(), code),
{
    if d.0 == code {
        assert(seq![d][0] == d);
    }
}

proof fn lemma_codes_differ()
    ensures
        "KES-E001"@ != "KES-E002"@,
        "KES-E003"@ != "KES-E002"@,
        "KES-E004"@ != "KES-E002"@,
        "KES-E005"@ != "KES-E002"@,
        "KES-E006"@ != "KES-E002"@,
        "KES-E007"@ != "KES-E002"@,
        "KES-E008"@ != "KES-E002"@,
        "KES-E009"@ != "KES-E002"@,
{
    reveal_strlit("KES-E001");
    reveal_strlit("KES-E002");
    reveal_strlit("KES-E003");
    reveal_strlit("KES-E004");
    reveal_strlit("KES-E005");
    reveal_strlit("KES-E006");
    reveal_strlit("KES-E007");
    reveal_strlit("KES-E008");
    reveal_strlit("KES-E009");
    assert("KES-E001"@[7] != "KES-E002"@[7]);
    assert("KES-E003"@[7] != "KES-E002"@[7]);
    assert("KES-E004"@[7] != "KES-E002"@[7]);
    assert("KES-E005"@[7] != "KES-E002"@[7]);
    assert("KES-E006"@[7] != "KES-E002"@[7]);
    assert("KES-E007"@[7] != "KES-E002"@[7]);
    assert("KES-E008"@[7] != "KES-E002"@[7]);
    assert("KES-E009"@[7] != "KES-E002"@[7]);
}

proof fn lemma_no_e002_duplicates(t: Topology, n: int)
    ensures
        !has_code(duplicate_components(t, n), "KES-E002"@),
    decreases n,
{
    lemma_codes_differ();
    if n > 0 {
        let id = t.components@[n - 1].id@;
        lemma_no_e002_duplicates(t, n - 1);
        let here = if declared_before(t, n - 1) {
            seq![error("KES-E001"@, "Duplicate component declaration: "@ + id, Some(id), None)]
        } else {
            seq![]
        };
        lemma_one_code(error("KES-E001"@, "Duplicate component declaration: "@ + id, Some(id), None), "KES-E002"@);
        lemma_concat_code(duplicate_components(t, n - 1), here, "KES-E002"@);
    }
}

proof fn lemma_no_e002_nets(t: Topology, n: int)
    ensures
        !has_code(net_diags(t, n), "KES-E002"@),
    decreases n,
{
    lemma_codes_differ();
    if n > 0 {
        let net = t.nets@[n - 1]@;
        lemma_no_e002_nets(t, n - 1);
        let a = if net_before(t, n - 1) {
            seq![error("KES-E009"@, "Duplicate net declaration: "@ + net, None, Some(net))]
        } else {
            seq![]
        };
        let b = if is_component_id(t, net) {
            seq![
                error(
                    "KES-E006"@,
                    "Namespace collision: '"@ + net + "' is declared as both a component and a net."@,
                    Some(net),
                    Some(net),
                ),
            ]
        } else {
            seq![]
        };
        lemma_one_code(error("KES-E009"@, "Duplicate net declaration: "@ + net, None, Some(net)), "KES-E002"@);
        lemma_one_code(
            error(
                "KES-E006"@,
                "Namespace collision: '"@ + net + "' is declared as both a component and a net."@,
                Some(net),
                Some(net),
            ),
            "KES-E002"@,
        );
        lemma_concat_code(net_diags(t, n - 1), a, "KES-E002"@);
        lemma_concat_code(net_diags(t, n - 1) + a, b, "KES-E002"@);
    }
}

proof fn lemma_undeclared_in(t: Topology, pins: Seq<PinRef>, m: int)
    requires
        0 <= m <= pins.len(),
    ensures
        has_code(undeclared_in(t, pins, m), "KES-E002"@) <==> exists|k: int| 0 <= k < m && #[trigger] undeclared(t, pins[k]),
    decreases m,
{
    if m > 0 {
        let p = pins[m - 1];
        lemma_undeclared_in(t, pins, m - 1);
        let d = error(
            "KES-E002"@,
            "Connection refers to undeclared component: "@ + p.component@,
            Some(p.component@),
            Some(p.pin@),
        );
        let here = if undeclared(t, p) { seq![d] } else { seq![] };
        lemma_one_code(d, "KES-E002"@);
        lemma_concat_code(undeclared_in(t, pins, m - 1), here, "KES-E002"@);
        if exists|k: int| 0 <= k < m && #[trigger] undeclared(t, pins[k]) {
            let k = choose|k: int| 0 <= k < m && #[trigger] undeclared(t, pins[k]);
            if k < m - 1 {
                assert(exists|k2: int| 0 <= k2 < m - 1 && #[trigger] undeclared(t, pins[k2]));
            }
        }
    }
}

proof fn lemma_undeclared_diags(t: Topology, n: int)
    requires
        0 <= n <= t.connections@.len(),
    ensures
        has_code(undeclared_diags(t, n), "KES-E002"@) <==> some_undeclared(t, n),
    decreases n,
{
    if n > 0 {
        let pins = t.connections@[n - 1].pins@;
        lemma_undeclared_diags(t, n - 1);
        lemma_undeclared_in(t, pins, pins.len() as int);
        lemma_concat_code(undeclared_diags(t, n - 1), undeclared_in(t, pins, pins.len() as int), "KES-E002"@);
        if some_undeclared(t, n) {
            let (c, k) = choose|c: int, k: int|
                0 <= c < n && 0 <= k < t.connections@[c].pins@.len() && #[trigger] undeclared(t, t.connections@[c].pins@[k]);
            if c < n - 1 {
                assert(some_undeclared(t, n - 1));
            } else {
                assert(undeclared(t, pins[k]));
            }
        }
        if exists|k: int| 0 <= k < pins.len() && #[trigger] undeclared(t, pins[k]) {
            let k = choose|k: int| 0 <= k < pins.len() && #[trigger] undeclared(t, pins[k]);
            assert(undeclared(t, t.connections@[n - 1].pins@[k]));
        }
        if some_undeclared(t, n - 1) {
            let (c, k) = choose|c: int, k: int|
                0 <= c < n - 1 && 0 <= k < t.connections@[c].pins@.len() && #[trigger] undeclared(
                    t,
                    t.connections@[c].pins@[k],
                );
            assert(undeclared(t, t.connections@[c].pins@[k]));
        }
    }
}

proof fn lemma_no_e002_invalid(t: Topology, n: int)
    ensures
        !has_code(invalid_diags(t, n), "KES-E002"@),
    decreases n,
{
    if n > 0 {
        let pins = t.connections@[n - 1].pins@;
        lemma_no_e002_invalid(t, n - 1);
        lemma_no_e002_invalid_in(t, pins, pins.len() as int);
        lemma_concat_code(invalid_diags(t, n - 1), invalid_in(t, pins, pins.len() as int), "KES-E002"@);
    }
}

proof fn lemma_no_e002_invalid_in(t: Topology, pins: Seq<PinRef>, m: int)
    ensures
        !has_code(invalid_in(t, pins, m), "KES-E002"@),
    decreases m,
{
    lemma_codes_differ();
    if m > 0 {
        let p = pins[m - 1];
        lemma_no_e002_invalid_in(t, pins, m - 1);
        let d = error(
            "KES-E005"@,
            "Invalid pin reference: "@ + p.component@ + "."@ + p.pin@ + " does not exist."@,
            Some(p.component@),
            Some(p.pin@),
        );
        let here = if invalid_ref(t, p) { seq![d] } else { seq![] };
        lemma_one_code(d, "KES-E002"@);
        lemma_concat_code(invalid_in(t, pins, m - 1), here, "KES-E002"@);
    }
}

proof fn lemma_no_e002_floating_in(g: NetlistGraph, c: TopologyComponent, m: int)
    ensures
        !has_code(floating_in(g, c, m), "KES-E002"@),
    decreases m,
{
    lemma_codes_differ();
    if m > 0 {
        let name = pin_names(c.kind)[m - 1];
        lemma_no_e002_floating_in(g, c, m - 1);
        let d = error(
            "KES-E003"@,
            "Floating Pin: "@ + c.id@ + "."@ + name + " is not connected to anything."@,
            Some(c.id@),
            Some(name),
        );
        let here = if net_lookup(g.pin_to_net@, qualified(c.id@, name)) is None { seq![d] } else { seq![] };
        lemma_one_code(d, "KES-E002"@);
        lemma_concat_code(floating_in(g, c, m - 1), here, "KES-E002"@);
    }
}

proof fn lemma_no_e002_floating(t: Topology, g: NetlistGraph, n: int)
    ensures
        !has_code(floating_diags(t, g, n), "KES-E002"@),
    decreases n,
{
    if n > 0 {
        let c = t.components@[n - 1];
        lemma_no_e002_floating(t, g, n - 1);
        lemma_no_e002_floating_in(g, c, pin_names(c.kind).len() as int);
        lemma_concat_code(floating_diags(t, g, n - 1), floating_in(g, c, pin_names(c.kind).len() as int), "KES-E002"@);
    }
}

proof fn lemma_no_e002_shorts(t: Topology, g: NetlistGraph, n: int)
    ensures
        !has_code(short_diags(t, g, n), "KES-E002"@),
    decreases n,
{
    lemma_codes_differ();
    if n > 0 {
        let c = t.components@[n - 1];
        lemma_no_e002_shorts(t, g, n - 1);
        let d = error(
            "KES-E004"@,
            "CRITICAL SHORT CIRCUIT: Source "@ + c.id@ + " plus and minus are connected together!"@,
            Some(c.id@),
            None,
        );
        let here = if shorted(g, c) { seq![d] } else { seq![] };
        lemma_one_code(d, "KES-E002"@);
        lemma_concat_code(short_diags(t, g, n - 1), here, "KES-E002"@);
    }
}

proof fn lemma_no_e002_conflicts(g: NetlistGraph, n: int)
    ensures
        !has_code(conflict_diags(g, n), "KES-E002"@),
    decreases n,
{
    lemma_codes_differ();
    if n > 0 {
        let names = views(g.net_name_conflicts@[n - 1].names@);
        let d = error(
            "KES-E007"@,
            "Conflicting user net names refer to the same physical net: "@ + join(names, ", "@) + "."@,
            None,
            first_of(names),
        );
        lemma_no_e002_conflicts(g, n - 1);
        lemma_one_code(d, "KES-E002"@);
        lemma_concat_code(conflict_diags(g, n - 1), seq![d], "KES-E002"@);
    }
}

proof fn lemma_no_e002_ground(g: NetlistGraph)
    ensures
        !has_code(ground_diags(g), "KES-E002"@),
{
    lemma_codes_differ();
    let cands = views(g.ground_candidates@);
    if cands.len() > 1 {
        lemma_one_code(ground_diags(g)[0], "KES-E002"@);
        assert(ground_diags(g) =~= seq![ground_diags(g)[0]]);
    } else {
        lemma_one_code(error("KES-E008"@, seq![], None, None), "KES-E002"@);
    }
}

/// The checks report KES-E002 exactly when some connection endpoint names a
/// component that is not declared; the reported list holds what the
/// findings hold, so the same goes for it.
pub proof fn lemma_e002_iff_undeclared(t: Topology, g: NetlistGraph, reported: Seq<DiagView>)
    requires
        reported.to_multiset() == erc_findings(t, g).to_multiset(),
    ensures
        has_code(erc_findings(t, g), "KES-E002"@) <==> some_undeclared(t, t.connections@.len() as int),
        has_code(reported, "KES-E002"@) <==> some_undeclared(t, t.connections@.len() as int),
{
    let nc = t.components@.len() as int;
    let nn = t.nets@.len() as int;
    let nk = t.connections@.len() as int;
    let a = duplicate_components(t, nc);
    let b = net_diags(t, nn);
    let c = undeclared_diags(t, nk);
    let d = invalid_diags(t, nk);
    let e = floating_diags(t, g, nc);
    let f = short_diags(t, g, nc);
    let h = conflict_diags(g, g.net_name_conflicts@.len() as int);
    let k = ground_diags(g);
    lemma_no_e002_duplicates(t, nc);
    lemma_no_e002_nets(t, nn);
    lemma_undeclared_diags(t, nk);
    lemma_no_e002_invalid(t, nk);
    lemma_no_e002_floating(t, g, nc);
    lemma_no_e002_shorts(t, g, nc);
    lemma_no_e002_conflicts(g, g.net_name_conflicts@.len() as int);
    lemma_no_e002_ground(g);
    let code = "KES-E002"@;
    lemma_concat_code(a, b, code);
    lemma_concat_code(a + b, c, code);
    lemma_concat_code(a + b + c, d, code);
    lemma_concat_code(a + b + c + d, e, code);
    lemma_concat_code(a + b + c + d + e, f, code);
    lemma_concat_code(a + b + c + d + e + f, h, code);
    lemma_concat_code(a + b + c + d + e + f + h, k, code);
    let all = erc_findings(t, g);
    assert(all == a + b + c + d + e + f + h + k);
    if has_code(reported, code) {
        let i = choose|i: int| 0 <= i < reported.len() && (#[trigger] reported[i]).0 == code;
        reported.to_multiset_ensures();
        all.to_multiset_ensures();
        assert(reported.contains(reported[i]));
        assert(reported.to_multiset().count(reported[i]) > 0);
        assert(all.to_multiset().count(reported[i]) > 0);
        assert(all.contains(reported[i]));
        let j = choose|j: int| 0 <= j < all.len() && all[j] == reported[i];
        assert(all[j].0 == code);
    }
    if has_code(all, code) {
        let i = choose|i: int| 0 <= i < all.len() && (#[trigger] all[i]).0 == code;
        reported.to_multiset_ensures();
        all.to_multiset_ensures();
        assert(all.contains(all[i]));
        assert(all.to_multiset().count(all[i]) > 0);
        assert(reported.to_multiset().count(all[i]) > 0);
        assert(reported.contains(all[i]));
        let j = choose|j: int| 0 <= j < reported.len() && reported[j] == all[i];
        assert(reported[j].0 == code);
    }
}

} // verus!
