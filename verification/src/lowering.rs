//! Lowering a flattened program to its circuit: models resolved, each
//! declaration bound to its kind and model, connections, nets, analyses and
//! assertions taken over in order.
use crate::ast::{indexed_lookup, AssertStmt, Connection, Program, SimulateStmt, Statement};
use crate::expression::ParameterError;
use crate::devices::{component_kind_and_model, device_spec, pins_message, value_text, DeviceFailure};
use crate::ir::{
    is_supported_assertion_metric, is_supported_metric, opt_view, semantic_error, views, ComponentKind, ModelManifest,
    ModelRef, SemanticDiagnostic,
};
use crate::model_resources::insert_sorted;
use crate::models::{
    copy_model, library_is, listed_entries, manifest_entry_of, model_entries, model_error, readings_fit, same_package,
    used_names, MODEL_MANIFEST_SCHEMA_VERSION, resolve_program_models_with_resources, resolve_spec, same_model,
    subcircuit_entries, ExternalModelResources, ModelLibrary, ResolveFailure, UserReadings,
};
use crate::text::{append_str, chars_of, eq_ignore_case, eq_ignore_case_exec, nat_text, owned, text_is, to_lower, upper, usize_text};
use vstd::prelude::*;

verus! {

/// A component of the lowered circuit.
#[derive(Debug)]
pub struct LoweredComponent {
    pub id: String,
    /// Structured identity of a module instance; not an electrical ID.
    pub instance_path: Vec<String>,
    pub kind: ComponentKind,
    /// The registered model that the declaration names, if its type has one.
    pub model: Option<ModelRef>,
    /// The interface pins of a module port.
    pub module_pins: Option<Vec<String>>,
}

/// A circuit as its statements give it, before numbers are evaluated.
#[derive(Debug)]
pub struct LoweredCircuit {
    pub components: Vec<LoweredComponent>,
    pub connections: Vec<Connection>,
    pub nets: Vec<String>,
    pub analyses: Vec<SimulateStmt>,
    pub assertions: Vec<AssertStmt>,
    /// The kind of each analysis, in the order of `analyses`.
    pub analysis_kinds: Vec<AnalysisKind>,
    /// The models the components use, each once, with the library's packages.
    pub model_manifest: ModelManifest,
}

/// A lowered component: id, instance path, kind, the registry position of
/// its model, and the interface pins of a module port.
pub type ComponentView = (Seq<char>, Seq<Seq<char>>, ComponentKind, Option<int>, Option<Seq<Seq<char>>>);

/// Components, connections, nets, analyses and assertions, and what
/// reading each analysis's numbers gave.
pub type Lowered = (
    Seq<ComponentView>,
    Seq<Connection>,
    Seq<Seq<char>>,
    Seq<SimulateStmt>,
    Seq<AssertStmt>,
    Seq<Result<(), SemanticDiagnostic>>,
);

/// Why lowering stopped.
pub enum LowerFailure {
    /// A declaration, by name, has no kind and model.
    Device(Seq<char>, DeviceFailure),
    /// Reading a statement's numbers failed with this diagnostic.
    Reading(SemanticDiagnostic),
    /// Code, message and field of a statement that lowering refuses.
    Own(Seq<char>, Seq<char>, Option<Seq<char>>),
}

pub open spec fn metric_message(metric: Seq<char>) -> Seq<char> {
    "unsupported assertion metric '"@ + metric
        + "'; expected value, min, max, peak, average, avg, rms, gain, gain_at, lower_cutoff, upper_cutoff, bandwidth, cutoff, frequency, phase, output_power, dissipation, efficiency, thd, clipping, rise_time, fall_time, settling_time, overshoot or energy"@
}

/// One statement lowered. `check` is what reading the statement's numbers
/// gave; it is looked at once a declaration has its kind and model, once an
/// assertion's metric is known, and for an analysis after all statements.
pub open spec fn lower_step(
    acc: Lowered,
    s: Statement,
    check: Result<(), SemanticDiagnostic>,
    entries: Seq<(String, ModelRef)>,
) -> Result<Lowered, LowerFailure> {
    match s {
        Statement::Param(_) => Ok(acc),
        Statement::Decl(d) => match device_spec(
            d.comp_type,
            d.name@,
            opt_view(d.subtype),
            value_text(d.value),
            d.value_expression is Some,
            entries,
        ) {
            Err(f) => Err(LowerFailure::Device(d.name@, f)),
            Ok((k, mi)) => match check {
                Err(e) => Err(LowerFailure::Reading(e)),
                Ok(()) => Ok((acc.0.push((d.name@, views(d.instance_path@), k, mi, port_pins(k, views(d.interface_pins@)))), acc.1, acc.2, acc.3, acc.4, acc.5)),
            },
        },
        Statement::Connect(c) => Ok((acc.0, acc.1.push(c), acc.2, acc.3, acc.4, acc.5)),
        Statement::Net(n) => Ok((acc.0, acc.1, acc.2.push(n.name@), acc.3, acc.4, acc.5)),
        Statement::Assert(a) => if !is_supported_metric(crate::text::lower(a.metric@)) {
            Err(LowerFailure::Own("KES-C006"@, metric_message(a.metric@), Some("signal"@)))
        } else {
            match check {
                Err(e) => Err(LowerFailure::Reading(e)),
                Ok(()) => Ok((acc.0, acc.1, acc.2, acc.3, acc.4.push(a), acc.5)),
            }
        },
        Statement::Simulate(sim) => Ok((acc.0, acc.1, acc.2, acc.3.push(sim), acc.4, acc.5.push(check))),
        Statement::Use(_) => Err(
            LowerFailure::Own("KES-C007"@, "use statements must be flattened before IR conversion"@, None),
        ),
    }
}

/// The statements lowered in order; the first refusal stops the rest.
pub open spec fn lower_spec(
    ss: Seq<Statement>,
    checks: Seq<Result<(), SemanticDiagnostic>>,
    entries: Seq<(String, ModelRef)>,
) -> Result<Lowered, LowerFailure>
    decreases ss.len(),
{
    if ss.len() == 0 {
        Ok((seq![], seq![], seq![], seq![], seq![], seq![]))
    } else {
        match lower_spec(ss.drop_last(), checks, entries) {
            Err(e) => Err(e),
            Ok(acc) => lower_step(acc, ss.last(), checks[ss.len() - 1], entries),
        }
    }
}

// ---------------------------------------------------------------------------
// Analyses.

/// The number that a run of decimal digits writes.
pub open spec fn digits_value(s: Seq<char>) -> int
    decreases s.len(),
{
    if s.len() == 0 {
        0
    } else {
        digits_value(s.drop_last()) * 10 + (s.last() as int - '0' as int)
    }
}

pub open spec fn all_digits(s: Seq<char>) -> bool {
    forall|i: int| 0 <= i < s.len() ==> '0' <= #[trigger] s[i] <= '9'
}

/// A `u32` written in decimal: an optional `+`, then at least one ASCII
/// digit, the value fitting in 32 bits (as std's `str::parse::<u32>` reads).
pub open spec fn u32_text_value(s: Seq<char>) -> Option<u32> {
    let d = if s.len() > 0 && s[0] == '+' {
        s.drop_first()
    } else {
        s
    };
    if d.len() > 0 && all_digits(d) && digits_value(d) <= u32::MAX {
        Some(digits_value(d) as u32)
    } else {
        None
    }
}

proof fn lemma_digits_grow(d: Seq<char>, i: int)
    requires
        all_digits(d),
        0 <= i <= d.len(),
    ensures
        digits_value(d.take(i)) <= digits_value(d),
        0 <= digits_value(d.take(i)),
    decreases d.len() - i,
{
    if i < d.len() {
        lemma_digits_grow(d, i + 1);
        assert(d.take(i + 1).drop_last() =~= d.take(i));
        let v = digits_value(d.take(i));
        assert(d.take(i + 1).last() == d[i]);
        assert(v * 10 >= v) by (nonlinear_arith)
            requires
                v >= 0,
        ;
    } else {
        assert(d.take(i) =~= d);
        lemma_digits_nonneg(d);
    }
}

proof fn lemma_digits_nonneg(d: Seq<char>)
    requires
        all_digits(d),
    ensures
        0 <= digits_value(d),
    decreases d.len(),
{
    if d.len() > 0 {
        assert(all_digits(d.drop_last())) by {
            assert forall|i: int| 0 <= i < d.drop_last().len() implies '0' <= #[trigger] d.drop_last()[i] <= '9' by {
                assert(d.drop_last()[i] == d[i]);
            }
        }
        lemma_digits_nonneg(d.drop_last());
        let v = digits_value(d.drop_last());
        assert(v * 10 >= 0) by (nonlinear_arith)
            requires
                v >= 0,
        ;
    }
}

/// Reads a text as a decimal `u32`, as std's `str::parse::<u32>` does.
pub fn parse_u32(s: &str) -> (r: Option<u32>)
    ensures
        r == u32_text_value(s@),
{
    let cs = chars_of(s);
    let start: usize = if cs.len() > 0 && cs[0] == '+' {
        1
    } else {
        0
    };
    let ghost d = if s@.len() > 0 && s@[0] == '+' {
        s@.drop_first()
    } else {
        s@
    };
    assert(d =~= cs@.skip(start as int));
    if start >= cs.len() {
        return None;
    }
    let mut acc: u64 = 0;
    let mut i: usize = start;
    while i < cs.len()
        invariant
            start <= i <= cs.len(),
            cs@ == s@,
            d == cs@.skip(start as int),
            d == (if s@.len() > 0 && s@[0] == '+' {
                s@.drop_first()
            } else {
                s@
            }),
            forall|j: int| 0 <= j < i - start ==> '0' <= #[trigger] d[j] <= '9',
            acc == digits_value(d.take(i - start)),
            acc <= u32::MAX,
        decreases cs.len() - i,
    {
        let c = cs[i];
        assert(d[i - start] == c);
        if !('0' <= c && c <= '9') {
            assert(!all_digits(d));
            return None;
        }
        assert(d.take(i - start + 1).drop_last() =~= d.take(i - start));
        assert(d.take(i - start + 1).last() == c);
        let digit: u64 = (c as u32 - '0' as u32) as u64;
        acc = acc * 10 + digit;
        if acc > 4294967295u64 {
            proof {
                if all_digits(d) {
                    lemma_digits_grow(d, i - start + 1);
                }
            }
            return None;
        }
        i = i + 1;
    }
    assert(d.take(i - start) =~= d);
    Some(acc as u32)
}

/// The analysis a `simulate` statement asks for.
#[derive(Debug, Clone, PartialEq, Eq)]
pub enum AnalysisKind {
    OperatingPoint,
    Transient,
    Ac,
    /// A DC sweep of the named source.
    DcSweep(String),
}

/// An analysis kind with the swept source, if any, by its view.
pub enum KindView {
    Op,
    Tran,
    Ac,
    Dc(Seq<char>),
}

pub open spec fn kind_view(k: AnalysisKind) -> KindView {
    match k {
        AnalysisKind::OperatingPoint => KindView::Op,
        AnalysisKind::Transient => KindView::Tran,
        AnalysisKind::Ac => KindView::Ac,
        AnalysisKind::DcSweep(s) => KindView::Dc(s@),
    }
}

/// Why an analysis is refused: a KES-C009 message, or what reading its
/// numbers gave.
pub enum AnalysisFailure {
    Own(Seq<char>),
    Reading(SemanticDiagnostic),
}

/// The kind of the first component with this id, if any.
pub open spec fn kind_of(comps: Seq<ComponentView>, id: Seq<char>) -> Option<ComponentKind>
    decreases comps.len(),
{
    if comps.len() == 0 {
        None
    } else {
        match kind_of(comps.drop_last(), id) {
            Some(k) => Some(k),
            None => if comps.last().0 == id {
                Some(comps.last().2)
            } else {
                None
            },
        }
    }
}

pub open spec fn after_reading(reading: Result<(), SemanticDiagnostic>, k: KindView) -> Result<KindView, AnalysisFailure> {
    match reading {
        Err(d) => Err(AnalysisFailure::Reading(d)),
        Ok(()) => Ok(k),
    }
}

/// The analysis of one `simulate` statement: its command and argument
/// counts, keywords and swept source are checked here; `reading` is what
/// reading its numbers (and checking their signs and order) gave.
pub open spec fn analysis_spec(
    sim: SimulateStmt,
    comps: Seq<ComponentView>,
    reading: Result<(), SemanticDiagnostic>,
) -> Result<KindView, AnalysisFailure> {
    let cmd = crate::text::lower(sim.cmd@);
    let args = views(sim.args@);
    let n = nat_text(args.len());
    if cmd == "op"@ {
        if args.len() == 0 {
            Ok(KindView::Op)
        } else {
            Err(AnalysisFailure::Own("simulate op expects no arguments, got "@ + n))
        }
    } else if cmd == "tran"@ {
        if args.len() != 2 && !(args.len() == 3 && eq_ignore_case(args[2], "uic"@)) {
            Err(
                AnalysisFailure::Own(
                    "simulate tran expects step and stop, optionally followed by uic; got "@ + n + " arguments"@,
                ),
            )
        } else {
            after_reading(reading, KindView::Tran)
        }
    } else if cmd == "ac"@ {
        if args.len() != 4 {
            Err(AnalysisFailure::Own("simulate ac expects scale, points, start and stop, got "@ + n + " arguments"@))
        } else if indexed_lookup(sim.numeric_expressions@, 0) is Some {
            Err(AnalysisFailure::Own("AC scale is a keyword (dec, oct or lin), not a numeric expression"@))
        } else if !(crate::text::lower(args[0]) == "dec"@ || crate::text::lower(args[0]) == "oct"@
            || crate::text::lower(args[0]) == "lin"@) {
            Err(
                AnalysisFailure::Own(
                    "unsupported AC scale '"@ + crate::text::lower(args[0]) + "'; expected dec, oct or lin"@,
                ),
            )
        } else if indexed_lookup(sim.numeric_expressions@, 1) is None && u32_text_value(args[1]) is None {
            Err(AnalysisFailure::Own("AC points must be a positive integer"@))
        } else {
            after_reading(reading, KindView::Ac)
        }
    } else if cmd == "dc"@ {
        if args.len() != 4 {
            Err(AnalysisFailure::Own("simulate dc expects source, start, stop and step, got "@ + n + " arguments"@))
        } else if indexed_lookup(sim.numeric_expressions@, 0) is Some {
            Err(AnalysisFailure::Own("DC sweep target must be a source name, not a numeric expression"@))
        } else {
            match kind_of(comps, args[0]) {
                None => Err(AnalysisFailure::Own("DC sweep source '"@ + args[0] + "' is not declared"@)),
                Some(k) => if k == ComponentKind::VoltageSource || k == ComponentKind::CurrentSource {
                    after_reading(reading, KindView::Dc(args[0]))
                } else {
                    Err(
                        AnalysisFailure::Own(
                            "DC sweep target '"@ + args[0] + "' must be a voltage or current source"@,
                        ),
                    )
                },
            }
        }
    } else {
        Err(
            AnalysisFailure::Own(
                "unsupported simulation analysis '"@ + sim.cmd@ + "'; expected op, tran, ac or dc"@,
            ),
        )
    }
}

/// Repeated analyses are told apart by kind, DC sweeps by source in any case.
pub open spec fn analysis_key(k: KindView) -> Seq<char> {
    match k {
        KindView::Op => "op"@,
        KindView::Tran => "tran"@,
        KindView::Ac => "ac"@,
        KindView::Dc(s) => "dc:"@ + crate::text::lower(s),
    }
}

pub open spec fn duplicate_message(k: KindView) -> Seq<char> {
    let subject = match k {
        KindView::Op => "'op' analysis"@,
        KindView::Tran => "'tran' analysis"@,
        KindView::Ac => "'ac' analysis"@,
        KindView::Dc(s) => "dc analysis for source '"@ + s + "'"@,
    };
    "duplicate "@ + subject + "; ambiguous repeated analyses require named analysis selectors"@
}

/// Every analysis read in order, the first refusal stopping the rest.
pub open spec fn analyses_spec(
    sims: Seq<SimulateStmt>,
    readings: Seq<Result<(), SemanticDiagnostic>>,
    comps: Seq<ComponentView>,
) -> Result<Seq<KindView>, AnalysisFailure>
    decreases sims.len(),
{
    if sims.len() == 0 {
        Ok(seq![])
    } else {
        match analyses_spec(sims.drop_last(), readings, comps) {
            Err(e) => Err(e),
            Ok(ks) => match analysis_spec(sims.last(), comps, readings[sims.len() - 1]) {
                Err(e) => Err(e),
                Ok(k) => Ok(ks.push(k)),
            },
        }
    }
}

pub open spec fn analysis_keys(ks: Seq<KindView>) -> Seq<Seq<char>> {
    ks.map_values(|k: KindView| analysis_key(k))
}

/// The first analysis whose key an earlier one has, or none.
pub open spec fn repeat_check(ks: Seq<KindView>) -> Result<(), KindView>
    decreases ks.len(),
{
    if ks.len() == 0 {
        Ok(())
    } else {
        match repeat_check(ks.drop_last()) {
            Err(k) => Err(k),
            Ok(()) => if analysis_keys(ks.drop_last()).contains(analysis_key(ks.last())) {
                Err(ks.last())
            } else {
                Ok(())
            },
        }
    }
}

fn kind_lookup(components: &Vec<LoweredComponent>, Ghost(cv): Ghost<Seq<ComponentView>>, id: &str) -> (r: Option<ComponentKind>)
    requires
        components@.len() == cv.len(),
        forall|i: int| 0 <= i < cv.len() ==> (#[trigger] components@[i]).id@ == cv[i].0 && components@[i].kind == cv[i].2,
    ensures
        r == kind_of(cv, id@),
{
    let mut i: usize = 0;
    assert(cv.take(0) =~= Seq::<ComponentView>::empty());
    while i < components.len()
        invariant
            i <= components@.len() == cv.len(),
            forall|j: int| 0 <= j < cv.len() ==> (#[trigger] components@[j]).id@ == cv[j].0 && components@[j].kind == cv[j].2,
            kind_of(cv.take(i as int), id@) is None,
        decreases components.len() - i,
    {
        assert(cv.take(i + 1).drop_last() =~= cv.take(i as int));
        assert(components@[i as int].id@ == cv[i as int].0);
        if text_is(components[i].id.as_str(), id) {
            proof {
                lemma_kind_of_prefix(cv, i + 1);
            }
            return Some(components[i].kind);
        }
        i = i + 1;
    }
    assert(cv.take(i as int) =~= cv);
    None
}

proof fn lemma_kind_of_prefix(cv: Seq<ComponentView>, k: int)
    requires
        0 <= k <= cv.len(),
        kind_of(cv.take(k), cv[k - 1].0) is Some,
    ensures
        kind_of(cv, cv[k - 1].0) == kind_of(cv.take(k), cv[k - 1].0),
    decreases cv.len() - k,
{
    if k < cv.len() {
        assert(cv.drop_last().take(k) =~= cv.take(k));
        lemma_kind_of_prefix(cv.drop_last(), k);
    } else {
        assert(cv.take(k) =~= cv);
    }
}

fn analysis_refused(message: String) -> (d: SemanticDiagnostic)
    ensures
        d.code@ == "KES-C009"@,
        d.message@ == message@,
        d.component is None,
        opt_view(d.field) == Some("analysis"@),
{
    semantic_error("KES-C009", message, None, Some("analysis"))
}

fn analysis_of(
    sim: &SimulateStmt,
    components: &Vec<LoweredComponent>,
    Ghost(cv): Ghost<Seq<ComponentView>>,
    reading: Result<(), SemanticDiagnostic>,
) -> (r: Result<AnalysisKind, SemanticDiagnostic>)
    requires
        components@.len() == cv.len(),
        forall|i: int| 0 <= i < cv.len() ==> (#[trigger] components@[i]).id@ == cv[i].0 && components@[i].kind == cv[i].2,
    ensures
        match analysis_spec(*sim, cv, reading) {
            Ok(k) => r matches Ok(a) && kind_view(a) == k,
            Err(AnalysisFailure::Own(m)) => r matches Err(d) && d.code@ == "KES-C009"@ && d.message@ == m
                && d.component is None && opt_view(d.field) == Some("analysis"@),
            Err(AnalysisFailure::Reading(d0)) => r matches Err(d) && d == d0,
        },
{
    let ghost args = views(sim.args@);
    assert(args.len() == sim.args@.len());
    let cmd = to_lower(sim.cmd.as_str());
    let c = cmd.as_str();
    let n = sim.args.len();
    if text_is(c, "op") {
        if n == 0 {
            return Ok(AnalysisKind::OperatingPoint);
        }
        let mut m = owned("simulate op expects no arguments, got ");
        append_str(&mut m, usize_text(n).as_str());
        return Err(analysis_refused(m));
    }
    if text_is(c, "tran") {
        if n != 2 && !(n == 3 && eq_ignore_case_exec(sim.args[2].as_str(), "uic")) {
            let mut m = owned("simulate tran expects step and stop, optionally followed by uic; got ");
            append_str(&mut m, usize_text(n).as_str());
            append_str(&mut m, " arguments");
            return Err(analysis_refused(m));
        }
        return match reading {
            Err(d) => Err(d),
            Ok(()) => Ok(AnalysisKind::Transient),
        };
    }
    if text_is(c, "ac") {
        if n != 4 {
            let mut m = owned("simulate ac expects scale, points, start and stop, got ");
            append_str(&mut m, usize_text(n).as_str());
            append_str(&mut m, " arguments");
            return Err(analysis_refused(m));
        }
        if sim.numeric_expression(0).is_some() {
            return Err(analysis_refused(owned("AC scale is a keyword (dec, oct or lin), not a numeric expression")));
        }
        let scale = to_lower(sim.args[0].as_str());
        if !(text_is(scale.as_str(), "dec") || text_is(scale.as_str(), "oct") || text_is(scale.as_str(), "lin")) {
            let mut m = owned("unsupported AC scale '");
            append_str(&mut m, scale.as_str());
            append_str(&mut m, "'; expected dec, oct or lin");
            return Err(analysis_refused(m));
        }
        if sim.numeric_expression(1).is_none() && parse_u32(sim.args[1].as_str()).is_none() {
            return Err(analysis_refused(owned("AC points must be a positive integer")));
        }
        return match reading {
            Err(d) => Err(d),
            Ok(()) => Ok(AnalysisKind::Ac),
        };
    }
    if text_is(c, "dc") {
        if n != 4 {
            let mut m = owned("simulate dc expects source, start, stop and step, got ");
            append_str(&mut m, usize_text(n).as_str());
            append_str(&mut m, " arguments");
            return Err(analysis_refused(m));
        }
        if sim.numeric_expression(0).is_some() {
            return Err(analysis_refused(owned("DC sweep target must be a source name, not a numeric expression")));
        }
        let source = sim.args[0].as_str();
        match kind_lookup(components, Ghost(cv), source) {
            None => {
                let mut m = owned("DC sweep source '");
                append_str(&mut m, source);
                append_str(&mut m, "' is not declared");
                return Err(analysis_refused(m));
            },
            Some(k) => {
                if !(k == ComponentKind::VoltageSource || k == ComponentKind::CurrentSource) {
                    let mut m = owned("DC sweep target '");
                    append_str(&mut m, source);
                    append_str(&mut m, "' must be a voltage or current source");
                    return Err(analysis_refused(m));
                }
            },
        }
        return match reading {
            Err(d) => Err(d),
            Ok(()) => Ok(AnalysisKind::DcSweep(owned(source))),
        };
    }
    let mut m = owned("unsupported simulation analysis '");
    append_str(&mut m, sim.cmd.as_str());
    append_str(&mut m, "'; expected op, tran, ac or dc");
    Err(analysis_refused(m))
}

/// The statements lowered, then their analyses read in order and checked
/// for repeats.
pub open spec fn lowered_spec(
    ss: Seq<Statement>,
    checks: Seq<Result<(), SemanticDiagnostic>>,
    entries: Seq<(String, ModelRef)>,
) -> Result<(Lowered, Seq<KindView>), LowerFailure> {
    match lower_spec(ss, checks, entries) {
        Err(e) => Err(e),
        Ok(l) => match analyses_spec(l.3, l.5, l.0) {
            Err(AnalysisFailure::Own(m)) => Err(LowerFailure::Own("KES-C009"@, m, Some("analysis"@))),
            Err(AnalysisFailure::Reading(d)) => Err(LowerFailure::Reading(d)),
            Ok(ks) => match repeat_check(ks) {
                Err(k) => Err(LowerFailure::Own("KES-C009"@, duplicate_message(k), Some("analysis"@))),
                Ok(()) => Ok((l, ks)),
            },
        },
    }
}

/// A module port keeps its interface pins; other components have none.
pub open spec fn port_pins(k: ComponentKind, pins: Seq<Seq<char>>) -> Option<Seq<Seq<char>>> {
    if k == ComponentKind::ModulePort {
        Some(pins)
    } else {
        None
    }
}

pub open spec fn opt_pins_view(o: Option<Vec<String>>) -> Option<Seq<Seq<char>>> {
    match o {
        Some(v) => Some(views(v@)),
        None => None,
    }
}

pub open spec fn component_is(c: LoweredComponent, v: ComponentView, entries: Seq<(String, ModelRef)>) -> bool {
    &&& opt_pins_view(c.module_pins) == v.4
    &&& c.id@ == v.0
    &&& views(c.instance_path@) == v.1
    &&& c.kind == v.2
    &&& match v.3 {
        None => c.model is None,
        Some(i) => c.model matches Some(m) && same_model(m, entries[i].1),
    }
}

/// The upper-cased names of the components' models, each once, ascending.
pub open spec fn model_names(l: Seq<ComponentView>, entries: Seq<(String, ModelRef)>) -> Seq<Seq<char>>
    decreases l.len(),
{
    if l.len() == 0 {
        seq![]
    } else {
        let rest = model_names(l.drop_last(), entries);
        match l.last().3 {
            None => rest,
            Some(i) => {
                let k = upper(entries[i].1.name@);
                if rest.contains(k) {
                    rest
                } else {
                    insert_sorted(rest, k)
                }
            },
        }
    }
}

/// The manifest lists the library's packages and the registered models of
/// the given names, in the order of the names.
pub open spec fn manifest_lists(m: ModelManifest, lib: ModelLibrary, names: Seq<Seq<char>>) -> bool {
    let ix = listed_entries(lib.entries(), names);
    &&& m.schema_version@ == MODEL_MANIFEST_SCHEMA_VERSION@
    &&& m.packages@.len() == lib.package_list().len()
    &&& forall|i: int| 0 <= i < m.packages@.len() ==> same_package(#[trigger] m.packages@[i], lib.package_list()[i])
    &&& m.models@.len() == ix.len()
    &&& forall|i: int| 0 <= i < ix.len() ==> manifest_entry_of(#[trigger] m.models@[i], lib.entries()[ix[i]].1)
}

pub open spec fn circuit_is(c: LoweredCircuit, l: Lowered, ks: Seq<KindView>, lib: ModelLibrary) -> bool {
    let entries = lib.entries();
    &&& c.analysis_kinds@.map_values(|a: AnalysisKind| kind_view(a)) == ks
    &&& manifest_lists(c.model_manifest, lib, model_names(l.0, entries))
    &&& c.components@.len() == l.0.len()
    &&& forall|i: int| 0 <= i < l.0.len() ==> component_is(#[trigger] c.components@[i], l.0[i], entries)
    &&& c.connections@ == l.1
    &&& views(c.nets@) == l.2
    &&& c.analyses@ == l.3
    &&& c.assertions@ == l.4
}

/// The diagnostic that a lowering failure is reported as.
pub open spec fn lower_error(d: SemanticDiagnostic, f: LowerFailure, entries: Seq<(String, ModelRef)>) -> bool {
    match f {
        LowerFailure::Device(name, DeviceFailure::Own(code, message, field)) => model_error(
            d,
            code,
            message,
            Some(name),
            field,
        ),
        LowerFailure::Device(_, DeviceFailure::Pins(i, kind)) => model_error(
            d,
            "KES-C012"@,
            pins_message(entries[i].1, kind),
            Some(entries[i].1.name@),
            "pins"@,
        ),
        LowerFailure::Reading(e) => d == e,
        LowerFailure::Own(code, message, field) => d.code@ == code && d.message@ == message && d.component is None
            && opt_view(d.field) == field,
    }
}

proof fn lemma_lower_stops(
    ss: Seq<Statement>,
    checks: Seq<Result<(), SemanticDiagnostic>>,
    entries: Seq<(String, ModelRef)>,
    k: int,
)
    requires
        0 <= k < ss.len(),
        lower_spec(ss.take(k + 1), checks, entries) is Err,
    ensures
        lower_spec(ss, checks, entries) == lower_spec(ss.take(k + 1), checks, entries),
    decreases ss.len() - k,
{
    if k + 1 < ss.len() {
        assert(ss.drop_last().take(k + 1) =~= ss.take(k + 1));
        lemma_lower_stops(ss.drop_last(), checks, entries, k);
    } else {
        assert(ss.take(k + 1) =~= ss);
    }
}

/// Lowers the statements of a flattened program against a model library.
/// `checks` holds, for each statement in order, what reading its numbers
/// (values, waveforms, instance parameters, assertion arguments and
/// thresholds) gave.
pub fn lower_statements(
    statements: Vec<Statement>,
    library: &ModelLibrary,
    checks: Vec<Result<(), SemanticDiagnostic>>,
) -> (r: Result<LoweredCircuit, SemanticDiagnostic>)
    requires
        checks@.len() == statements@.len(),
    ensures
        match lowered_spec(statements@, checks@, library.entries()) {
            Ok((l, ks)) => r matches Ok(c) && circuit_is(c, l, ks, *library),
            Err(f) => r matches Err(d) && lower_error(d, f, library.entries()),
        },
{
    let ghost sv = statements@;
    let ghost cv = checks@;
    let ghost entries = library.entries();
    let total = statements.len();
    let mut rest = statements;
    let mut pending = checks;
    let mut components: Vec<LoweredComponent> = Vec::new();
    let mut connections: Vec<Connection> = Vec::new();
    let mut nets: Vec<String> = Vec::new();
    let mut analyses: Vec<SimulateStmt> = Vec::new();
    let mut assertions: Vec<AssertStmt> = Vec::new();
    let mut used: Vec<ModelRef> = Vec::new();
    let mut sim_checks: Vec<Result<(), SemanticDiagnostic>> = Vec::new();
    let ghost mut acc: Lowered = (seq![], seq![], seq![], seq![], seq![], seq![]);
    let mut k: usize = 0;
    assert(sv.take(0) =~= Seq::<Statement>::empty());
    assert(sv.skip(0) =~= sv);
    assert(cv.skip(0) =~= cv);
    while k < total
        invariant
            k <= total == sv.len(),
            cv.len() == sv.len(),
            sv == statements@,
            cv == checks@,
            entries == library.entries(),
            rest@ == sv.skip(k as int),
            pending@ == cv.skip(k as int),
            lower_spec(sv.take(k as int), cv, entries) == Ok::<Lowered, LowerFailure>(acc),
            components@.len() == acc.0.len(),
            forall|i: int| 0 <= i < acc.0.len() ==> component_is(#[trigger] components@[i], acc.0[i], entries),
            connections@ == acc.1,
            views(nets@) == acc.2,
            analyses@ == acc.3,
            assertions@ == acc.4,
            sim_checks@ == acc.5,
            acc.3.len() == acc.5.len(),
            used_names(used@) == model_names(acc.0, entries),
        decreases total - k,
    {
        assert(sv.take(k + 1).drop_last() =~= sv.take(k as int));
        assert(sv.take(k + 1).last() == sv[k as int]);
        let s = rest.remove(0);
        let check = pending.remove(0);
        assert(s == sv[k as int]);
        assert(check == cv[k as int]);
        assert(rest@ =~= sv.skip(k + 1));
        assert(pending@ =~= cv.skip(k + 1));
        match s {
            Statement::Param(_) => {},
            Statement::Decl(d) => {
                let ghost ds = device_spec(
                    d.comp_type,
                    d.name@,
                    opt_view(d.subtype),
                    value_text(d.value),
                    d.value_expression is Some,
                    entries,
                );
                let (kind, model) = match component_kind_and_model(&d, library) {
                    Err(e) => {
                        proof {
                            assert(ds is Err);
                            assert(lower_spec(sv.take(k + 1), cv, entries) == Err::<Lowered, LowerFailure>(
                                LowerFailure::Device(d.name@, ds->Err_0),
                            ));
                            lemma_lower_stops(sv, cv, entries, k as int);
                        }
                        return Err(e);
                    },
                    Ok(x) => x,
                };
                assert(ds is Ok);
                match check {
                    Err(e) => {
                        proof {
                            assert(lower_spec(sv.take(k + 1), cv, entries) == Err::<Lowered, LowerFailure>(
                                LowerFailure::Reading(e),
                            ));
                            lemma_lower_stops(sv, cv, entries, k as int);
                        }
                        return Err(e);
                    },
                    Ok(()) => {},
                }
                let ghost mi = device_spec(
                    d.comp_type,
                    d.name@,
                    opt_view(d.subtype),
                    value_text(d.value),
                    d.value_expression is Some,
                    entries,
                )->Ok_0.1;
                let ghost v: ComponentView = (d.name@, views(d.instance_path@), kind, mi, port_pins(kind, views(d.interface_pins@)));
                let module_pins = if kind == ComponentKind::ModulePort {
                    Some(d.interface_pins)
                } else {
                    None
                };
                let ghost before = components@;
                let ghost used_before = used@;
                match &model {
                    Some(m) => {
                        used.push(copy_model(m));
                        assert(used@.drop_last() =~= used_before);
                    },
                    None => {},
                }
                components.push(LoweredComponent { id: d.name, instance_path: d.instance_path, kind, model, module_pins });
                proof {
                    let prev = acc.0;
                    acc = (acc.0.push(v), acc.1, acc.2, acc.3, acc.4, acc.5);
                    assert(acc.0.drop_last() =~= prev);
                    assert forall|i: int| 0 <= i < acc.0.len() implies component_is(
                        #[trigger] components@[i],
                        acc.0[i],
                        entries,
                    ) by {
                        if i < acc.0.len() - 1 {
                            assert(components@[i] == before[i]);
                        }
                    }
                }
            },
            Statement::Connect(c) => {
                connections.push(c);
                proof {
                    acc = (acc.0, acc.1.push(c), acc.2, acc.3, acc.4, acc.5);
                }
            },
            Statement::Net(n) => {
                let ghost name = n.name@;
                nets.push(n.name);
                proof {
                    acc = (acc.0, acc.1, acc.2.push(name), acc.3, acc.4, acc.5);
                    assert(views(nets@) =~= acc.2);
                }
            },
            Statement::Assert(a) => {
                let metric = to_lower(a.metric.as_str());
                if !is_supported_assertion_metric(metric.as_str()) {
                    let mut m = owned("unsupported assertion metric '");
                    append_str(&mut m, a.metric.as_str());
                    append_str(
                        &mut m,
                        "'; expected value, min, max, peak, average, avg, rms, gain, gain_at, lower_cutoff, upper_cutoff, bandwidth, cutoff, frequency, phase, output_power, dissipation, efficiency, thd, clipping, rise_time, fall_time, settling_time, overshoot or energy",
                    );
                    let e = semantic_error("KES-C006", m, None, Some("signal"));
                    proof {
                        assert(!is_supported_metric(crate::text::lower(a.metric@)));
                        assert(lower_spec(sv.take(k + 1), cv, entries) == Err::<Lowered, LowerFailure>(
                            LowerFailure::Own("KES-C006"@, metric_message(a.metric@), Some("signal"@)),
                        ));
                        assert(e.message@ == metric_message(a.metric@));
                        lemma_lower_stops(sv, cv, entries, k as int);
                    }
                    return Err(e);
                }
                match check {
                    Err(e) => {
                        proof {
                            lemma_lower_stops(sv, cv, entries, k as int);
                        }
                        return Err(e);
                    },
                    Ok(()) => {},
                }
                let ghost av = a;
                assertions.push(a);
                proof {
                    acc = (acc.0, acc.1, acc.2, acc.3, acc.4.push(av), acc.5);
                }
            },
            Statement::Simulate(sim) => {
                let ghost simv = sim;
                let ghost checkv = check;
                analyses.push(sim);
                sim_checks.push(check);
                proof {
                    acc = (acc.0, acc.1, acc.2, acc.3.push(simv), acc.4, acc.5.push(checkv));
                }
            },
            Statement::Use(_) => {
                proof {
                    lemma_lower_stops(sv, cv, entries, k as int);
                }
                return Err(
                    semantic_error("KES-C007", owned("use statements must be flattened before IR conversion"), None, None),
                );
            },
        }
        k = k + 1;
    }
    assert(sv.take(k as int) =~= sv);
    let ghost comps = acc.0;
    let ghost sims = acc.3;
    let ghost reads = acc.5;
    let mut kinds: Vec<AnalysisKind> = Vec::new();
    let mut left = sim_checks;
    let na = analyses.len();
    let mut a: usize = 0;
    assert(sims.take(0) =~= Seq::<SimulateStmt>::empty());
    assert(reads.skip(0) =~= reads);
    assert(kinds_view(kinds@) =~= Seq::<KindView>::empty());
    while a < na
        invariant
            a <= na == sims.len() == reads.len(),
            analyses@ == sims,
            sv == statements@,
            cv == checks@,
            entries == library.entries(),
            lower_spec(sv, cv, entries) == Ok::<Lowered, LowerFailure>(acc),
            comps == acc.0,
            sims == acc.3,
            reads == acc.5,
            connections@ == acc.1,
            views(nets@) == acc.2,
            assertions@ == acc.4,
            used_names(used@) == model_names(acc.0, entries),

            left@ == reads.skip(a as int),
            components@.len() == comps.len(),
            forall|i: int| 0 <= i < comps.len() ==> component_is(#[trigger] components@[i], comps[i], entries),
            analyses_spec(sims.take(a as int), reads, comps) == Ok::<Seq<KindView>, AnalysisFailure>(kinds_view(kinds@)),
        decreases na - a,
    {
        assert(sims.take(a + 1).drop_last() =~= sims.take(a as int));
        let reading = left.remove(0);
        assert(reading == reads[a as int]);
        assert(left@ =~= reads.skip(a + 1));
        assert forall|i: int| 0 <= i < comps.len() implies (#[trigger] components@[i]).id@ == comps[i].0
            && components@[i].kind == comps[i].2 by {
            assert(component_is(components@[i], comps[i], entries));
        }
        let kind = match analysis_of(&analyses[a], &components, Ghost(comps), reading) {
            Err(d) => {
                proof {
                    lemma_analyses_stop(sims, reads, comps, a as int);
                }
                return Err(d);
            },
            Ok(x) => x,
        };
        let ghost before = kinds@;
        kinds.push(kind);
        assert(kinds_view(kinds@) =~= kinds_view(before).push(kind_view(kind)));
        a = a + 1;
    }
    assert(sims.take(a as int) =~= sims);
    let ghost kv = kinds_view(kinds@);
    let mut keys: Vec<String> = Vec::new();
    let mut b: usize = 0;
    assert(kv.take(0) =~= Seq::<KindView>::empty());
    assert(views(keys@) =~= Seq::<Seq<char>>::empty());
    while b < kinds.len()
        invariant
            b <= kinds@.len() == kv.len(),
            kv == kinds_view(kinds@),
            analyses@ == sims,
            components@.len() == comps.len(),
            forall|i: int| 0 <= i < comps.len() ==> component_is(#[trigger] components@[i], comps[i], entries),
            analyses_spec(sims, reads, comps) == Ok::<Seq<KindView>, AnalysisFailure>(kv),
            sv == statements@,
            cv == checks@,
            entries == library.entries(),
            lower_spec(sv, cv, entries) == Ok::<Lowered, LowerFailure>(acc),
            comps == acc.0,
            sims == acc.3,
            reads == acc.5,
            connections@ == acc.1,
            views(nets@) == acc.2,
            assertions@ == acc.4,
            used_names(used@) == model_names(acc.0, entries),

            repeat_check(kv.take(b as int)) == Ok::<(), KindView>(()),
            views(keys@) == analysis_keys(kv.take(b as int)),
        decreases kinds.len() - b,
    {
        assert(kv.take(b + 1).drop_last() =~= kv.take(b as int));
        assert(kv.take(b + 1).last() == kind_view(kinds@[b as int]));
        let key = key_of(&kinds[b]);
        if crate::model_resources::has_name(&keys, &key) {
            let d = analysis_refused(duplicate_text(&kinds[b]));
            proof {
                lemma_repeat_stop(kv, b as int);
            }
            return Err(d);
        }
        let ghost before = keys@;
        keys.push(key);
        assert(views(keys@) =~= views(before).push(analysis_key(kv[b as int])));
        assert(analysis_keys(kv.take(b + 1)) =~= analysis_keys(kv.take(b as int)).push(analysis_key(kv[b as int])));
        b = b + 1;
    }
    assert(kv.take(b as int) =~= kv);
    let model_manifest = library.manifest(&used);
    Ok(
        LoweredCircuit {
            components,
            connections,
            nets,
            analyses,
            assertions,
            analysis_kinds: kinds,
            model_manifest,
        },
    )
}

pub open spec fn kinds_view(ks: Seq<AnalysisKind>) -> Seq<KindView> {
    ks.map_values(|a: AnalysisKind| kind_view(a))
}

proof fn lemma_analyses_stop(
    sims: Seq<SimulateStmt>,
    reads: Seq<Result<(), SemanticDiagnostic>>,
    comps: Seq<ComponentView>,
    k: int,
)
    requires
        0 <= k < sims.len(),
        analyses_spec(sims.take(k + 1), reads, comps) is Err,
    ensures
        analyses_spec(sims, reads, comps) == analyses_spec(sims.take(k + 1), reads, comps),
    decreases sims.len() - k,
{
    if k + 1 < sims.len() {
        assert(sims.drop_last().take(k + 1) =~= sims.take(k + 1));
        lemma_analyses_stop(sims.drop_last(), reads, comps, k);
    } else {
        assert(sims.take(k + 1) =~= sims);
    }
}

proof fn lemma_repeat_stop(ks: Seq<KindView>, k: int)
    requires
        0 <= k < ks.len(),
        repeat_check(ks.take(k + 1)) is Err,
    ensures
        repeat_check(ks) == repeat_check(ks.take(k + 1)),
    decreases ks.len() - k,
{
    if k + 1 < ks.len() {
        assert(ks.drop_last().take(k + 1) =~= ks.take(k + 1));
        lemma_repeat_stop(ks.drop_last(), k);
    } else {
        assert(ks.take(k + 1) =~= ks);
    }
}

fn key_of(k: &AnalysisKind) -> (r: String)
    ensures
        r@ == analysis_key(kind_view(*k)),
{
    match k {
        AnalysisKind::OperatingPoint => owned("op"),
        AnalysisKind::Transient => owned("tran"),
        AnalysisKind::Ac => owned("ac"),
        AnalysisKind::DcSweep(s) => {
            let mut r = owned("dc:");
            append_str(&mut r, to_lower(s.as_str()).as_str());
            r
        },
    }
}

fn duplicate_text(k: &AnalysisKind) -> (r: String)
    ensures
        r@ == duplicate_message(kind_view(*k)),
{
    let mut r = owned("duplicate ");
    match k {
        AnalysisKind::OperatingPoint => append_str(&mut r, "'op' analysis"),
        AnalysisKind::Transient => append_str(&mut r, "'tran' analysis"),
        AnalysisKind::Ac => append_str(&mut r, "'ac' analysis"),
        AnalysisKind::DcSweep(s) => {
            let ghost before = r@;
            append_str(&mut r, "dc analysis for source '");
            append_str(&mut r, s.as_str());
            append_str(&mut r, "'");
            assert(r@ =~= before + ("dc analysis for source '"@ + s@ + "'"@));
        },
    }
    append_str(&mut r, "; ambiguous repeated analyses require named analysis selectors");
    r
}

proof fn lemma_analyses_count(sims: Seq<SimulateStmt>, reads: Seq<Result<(), SemanticDiagnostic>>, comps: Seq<ComponentView>)
    requires
        analyses_spec(sims, reads, comps) is Ok,
    ensures
        analyses_spec(sims, reads, comps)->Ok_0.len() == sims.len(),
    decreases sims.len(),
{
    if sims.len() > 0 {
        lemma_analyses_count(sims.drop_last(), reads, comps);
    }
}

proof fn lemma_repeat_free(ks: Seq<KindView>)
    requires
        repeat_check(ks) is Ok,
    ensures
        forall|i: int, j: int| 0 <= i < j < ks.len() ==> analysis_key(#[trigger] ks[i]) != analysis_key(#[trigger] ks[j]),
    decreases ks.len(),
{
    if ks.len() > 0 {
        let front = ks.drop_last();
        lemma_repeat_free(front);
        assert forall|i: int, j: int| 0 <= i < j < ks.len() implies analysis_key(#[trigger] ks[i]) != analysis_key(
            #[trigger] ks[j],
        ) by {
            if j == ks.len() - 1 {
                assert(analysis_keys(front)[i] == analysis_key(ks[i]));
            } else {
                assert(front[i] == ks[i] && front[j] == ks[j]);
            }
        }
    }
}

/// A lowered circuit has one analysis per `simulate` statement, and no two
/// of them alike: no two of one kind, and no two DC sweeps of the same
/// source in any ASCII case.
pub proof fn lemma_lowered_analyses_distinct(
    ss: Seq<Statement>,
    checks: Seq<Result<(), SemanticDiagnostic>>,
    entries: Seq<(String, ModelRef)>,
)
    requires
        lowered_spec(ss, checks, entries) is Ok,
    ensures
        ({
            let (l, ks) = lowered_spec(ss, checks, entries)->Ok_0;
            &&& ks.len() == l.3.len()
            &&& forall|i: int, j: int| 0 <= i < j < ks.len() ==> analysis_key(#[trigger] ks[i]) != analysis_key(#[trigger] ks[j])
        }),
{
    let l = lower_spec(ss, checks, entries)->Ok_0;
    lemma_analyses_count(l.3, l.5, l.0);
    lemma_repeat_free(analyses_spec(l.3, l.5, l.0)->Ok_0);
}

/// The names of the declarations among the statements, in order.
pub open spec fn declared_names(ss: Seq<Statement>) -> Seq<Seq<char>>
    decreases ss.len(),
{
    if ss.len() == 0 {
        seq![]
    } else {
        let front = declared_names(ss.drop_last());
        match ss.last() {
            Statement::Decl(d) => front.push(d.name@),
            _ => front,
        }
    }
}

/// The connections among the statements, in order.
pub open spec fn connections_of(ss: Seq<Statement>) -> Seq<Connection>
    decreases ss.len(),
{
    if ss.len() == 0 {
        seq![]
    } else {
        let front = connections_of(ss.drop_last());
        match ss.last() {
            Statement::Connect(c) => front.push(c),
            _ => front,
        }
    }
}

/// The names of the net statements, in order.
pub open spec fn net_statement_names(ss: Seq<Statement>) -> Seq<Seq<char>>
    decreases ss.len(),
{
    if ss.len() == 0 {
        seq![]
    } else {
        let front = net_statement_names(ss.drop_last());
        match ss.last() {
            Statement::Net(n) => front.push(n.name@),
            _ => front,
        }
    }
}

/// How many assertions the statements hold.
pub open spec fn assert_count(ss: Seq<Statement>) -> nat
    decreases ss.len(),
{
    if ss.len() == 0 {
        0
    } else {
        assert_count(ss.drop_last()) + if ss.last() is Assert {
            1nat
        } else {
            0nat
        }
    }
}

/// How many `simulate` statements the statements hold.
pub open spec fn simulate_count(ss: Seq<Statement>) -> nat
    decreases ss.len(),
{
    if ss.len() == 0 {
        0
    } else {
        simulate_count(ss.drop_last()) + if ss.last() is Simulate {
            1nat
        } else {
            0nat
        }
    }
}

proof fn lemma_statements_follow(ss: Seq<Statement>, checks: Seq<Result<(), SemanticDiagnostic>>, entries: Seq<(String, ModelRef)>)
    requires
        lower_spec(ss, checks, entries) is Ok,
    ensures
        ({
            let l = lower_spec(ss, checks, entries)->Ok_0;
            &&& l.0.map_values(|v: ComponentView| v.0) == declared_names(ss)
            &&& l.1 == connections_of(ss)
            &&& l.2 == net_statement_names(ss)
            &&& l.3.len() == simulate_count(ss)
            &&& l.4.len() == assert_count(ss)
        }),
    decreases ss.len(),
{
    if ss.len() > 0 {
        lemma_statements_follow(ss.drop_last(), checks, entries);
        let before = lower_spec(ss.drop_last(), checks, entries)->Ok_0;
        let after = lower_spec(ss, checks, entries)->Ok_0;
        match ss.last() {
            Statement::Decl(d) => {
                assert(after.0.map_values(|v: ComponentView| v.0) =~= before.0.map_values(|v: ComponentView| v.0).push(
                    d.name@,
                ));
            },
            _ => {
                assert(after.0 == before.0);
            },
        }
    }
}

/// A lowered circuit follows its statements: one component per declaration
/// under the declared name, the connections and net names of the connect
/// and net statements, in order, one assertion per assert statement, and
/// one analysis, with its kind, per `simulate` statement.
pub proof fn lemma_lowered_structure(
    c: LoweredCircuit,
    lib: ModelLibrary,
    ss: Seq<Statement>,
    checks: Seq<Result<(), SemanticDiagnostic>>,
)
    requires
        lowered_as(c, lib, ss, checks),
    ensures
        c.components@.map_values(|x: LoweredComponent| x.id@) == declared_names(ss),
        c.connections@ == connections_of(ss),
        views(c.nets@) == net_statement_names(ss),
        c.assertions@.len() == assert_count(ss),
        c.analyses@.len() == simulate_count(ss),
        c.analysis_kinds@.len() == simulate_count(ss),
{
    let (l, ks) = lowered_spec(ss, checks, lib.entries())->Ok_0;
    lemma_statements_follow(ss, checks, lib.entries());
    lemma_lowered_analyses_distinct(ss, checks, lib.entries());
    assert(c.components@.map_values(|x: LoweredComponent| x.id@) =~= l.0.map_values(|v: ComponentView| v.0)) by {
        assert forall|i: int| 0 <= i < l.0.len() implies c.components@[i].id@ == l.0[i].0 by {
            assert(component_is(c.components@[i], l.0[i], lib.entries()));
        }
    }
    assert(c.analysis_kinds@.map_values(|a: AnalysisKind| kind_view(a)).len() == c.analysis_kinds@.len());
}

/// The circuit is what the statements give against the library.
pub open spec fn lowered_as(c: LoweredCircuit, lib: ModelLibrary, ss: Seq<Statement>, cs: Seq<Result<(), SemanticDiagnostic>>) -> bool {
    lowered_spec(ss, cs, lib.entries()) matches Ok((l, ks)) && circuit_is(c, l, ks, lib)
}

/// The diagnostic is how lowering the statements against the library stops.
pub open spec fn refused_as(d: SemanticDiagnostic, lib: ModelLibrary, ss: Seq<Statement>, cs: Seq<Result<(), SemanticDiagnostic>>) -> bool {
    lowered_spec(ss, cs, lib.entries()) matches Err(f) && lower_error(d, f, lib.entries())
}

/// A parameter failure reported with its code and message, about the field
/// named by the parameter.
pub open spec fn parameter_failure(d: SemanticDiagnostic, e: ParameterError) -> bool {
    d.code@ == e.code@ && d.message@ == e.message@ && d.component is None && opt_view(d.field) == Some(e.name@)
}

/// What lowering `program` gives: see `ast_to_ir_with_resources`.
#[verifier::opaque]
pub open spec fn lowering_of(
    program: Program,
    res: Seq<(Seq<char>, Seq<u8>)>,
    parameters: Result<(), ParameterError>,
    readings: UserReadings,
    checks: Seq<Result<(), SemanticDiagnostic>>,
    r: Result<(LoweredCircuit, ModelLibrary), SemanticDiagnostic>,
) -> bool {
    match parameters {
        Err(e) => r matches Err(d) && parameter_failure(d, e),
        Ok(()) => match resolve_spec(
            crate::ast::include_views(program.model_includes@),
            model_entries(program, readings),
            subcircuit_entries(program, readings),
            crate::ast::external_views(program.external_subcircuits@),
            res,
        ) {
            Err(ResolveFailure::Own(f, c)) => r matches Err(d) && model_error(d, f.0, f.1, c, f.2),
            Ok(st) => match r {
                Ok((c, lib)) => library_is(lib, st) && lowered_as(c, lib, program.statements@, checks),
                Err(d) => exists|lib: ModelLibrary|
                    library_is(lib, st) && #[trigger] refused_as(d, lib, program.statements@, checks),
            },
        },
    }
}

/// Lowers a flattened program: its parameters first (`parameters` is what
/// evaluating them gave), then its models resolved against the bound files
/// with the user declarations' `readings`, then its statements with their
/// `checks`. The circuit comes with the model library it was bound against.
pub fn ast_to_ir_with_resources(
    program: Program,
    resources: &ExternalModelResources,
    parameters: Result<(), ParameterError>,
    readings: &UserReadings,
    checks: Vec<Result<(), SemanticDiagnostic>>,
) -> (r: Result<(LoweredCircuit, ModelLibrary), SemanticDiagnostic>)
    requires
        readings_fit(program, *readings),
        checks@.len() == program.statements@.len(),
    ensures
        match parameters {
            Err(e) => r matches Err(d) && parameter_failure(d, e),
            Ok(()) => match resolve_spec(
                crate::ast::include_views(program.model_includes@),
                model_entries(program, *readings),
                subcircuit_entries(program, *readings),
                crate::ast::external_views(program.external_subcircuits@),
                resources@,
            ) {
                Err(ResolveFailure::Own(f, c)) => r matches Err(d) && model_error(d, f.0, f.1, c, f.2),
                Ok(st) => match r {
                    Ok((c, lib)) => library_is(lib, st) && lowered_as(c, lib, program.statements@, checks@),
                    Err(d) => exists|lib: ModelLibrary|
                        library_is(lib, st) && #[trigger] refused_as(d, lib, program.statements@, checks@),
                },
            },
        },
        lowering_of(program, resources@, parameters, *readings, checks@, r),
{
    proof {
        reveal(lowering_of);
    }
    match parameters {
        Err(e) => {
            return Err(semantic_error(e.code, e.message, None, Some(e.name.as_str())));
        },
        Ok(()) => {},
    }
    let library = match resolve_program_models_with_resources(&program, resources, readings) {
        Err(d) => {
            return Err(d);
        },
        Ok(lib) => lib,
    };
    let ghost st = resolve_spec(
        crate::ast::include_views(program.model_includes@),
        model_entries(program, *readings),
        subcircuit_entries(program, *readings),
        crate::ast::external_views(program.external_subcircuits@),
        resources@,
    )->Ok_0;
    let ghost sv = program.statements@;
    let ghost cv = checks@;
    match lower_statements(program.statements, &library, checks) {
        Err(d) => {
            assert(library_is(library, st) && refused_as(d, library, sv, cv));
            Err(d)
        },
        Ok(c) => Ok((c, library)),
    }
}

/// Lowers a flattened program with no local model files bound.
pub fn ast_to_ir(
    program: Program,
    parameters: Result<(), ParameterError>,
    readings: &UserReadings,
    checks: Vec<Result<(), SemanticDiagnostic>>,
) -> (r: Result<(LoweredCircuit, ModelLibrary), SemanticDiagnostic>)
    requires
        readings_fit(program, *readings),
        checks@.len() == program.statements@.len(),
    ensures
        match parameters {
            Err(e) => r matches Err(d) && parameter_failure(d, e),
            Ok(()) => match resolve_spec(
                crate::ast::include_views(program.model_includes@),
                model_entries(program, *readings),
                subcircuit_entries(program, *readings),
                crate::ast::external_views(program.external_subcircuits@),
                Seq::empty(),
            ) {
                Err(ResolveFailure::Own(f, c)) => r matches Err(d) && model_error(d, f.0, f.1, c, f.2),
                Ok(st) => match r {
                    Ok((c, lib)) => library_is(lib, st) && lowered_as(c, lib, program.statements@, checks@),
                    Err(d) => exists|lib: ModelLibrary|
                        library_is(lib, st) && #[trigger] refused_as(d, lib, program.statements@, checks@),
                },
            },
        },
{
    let none = ExternalModelResources::new();
    ast_to_ir_with_resources(program, &none, parameters, readings, checks)
}

} // verus!
