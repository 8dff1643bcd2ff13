//! Compiling a parsed program: module flattening, lowering to a circuit,
//! connectivity and rule checks, and the outputs that are made only when no
//! error was found.
use crate::ast::{Connection, PinRef, Program};
use crate::compiler::{
    annotated, erc_diagnostics, flatten_diagnostic, from_erc, from_semantic, has_errors, Diagnostic, DiagnosticSeverity,
    GraphSummary, CompileOptions, summary_of, summarizes, net_pins, has_net,
};
use crate::erc::{check_rules, diags_sorted, dviews, erc_findings, all_errors, ErcDiagnostic};
use crate::expression::ParameterError;
use crate::graph::{
    ground_candidate, graph_spec, is_net_name, joined, keys, lemma_graph_nets, lemma_lookup_name, net_name_spec, net_of,
    ground_explicit_spec, lemma_naming_facts, naming_facts, order_ok, shared,
    NetlistGraph, Topology, TopologyComponent,
};
use crate::expression::sorted_names;
use crate::ir::{views, SemanticDiagnostic};
use crate::layout::{layout_is, layout_with_graph, topology_parts, LayoutResult};
use crate::lowering::{ast_to_ir_with_resources, lowering_of, opt_pins_view, LoweredCircuit};
use crate::models::{readings_fit, ExternalModelResources, ModelLibrary, UserReadings};
use crate::text::{owned, utf8_len};
use vstd::prelude::*;

verus! {

/// What compiling a program gives: its diagnostics, and as far as it got,
/// its circuit, the connectivity read from it, the net summary and the
/// layout.
pub struct CompileOutcome {
    pub diagnostics: Vec<Diagnostic>,
    pub circuit: Option<LoweredCircuit>,
    pub topology: Option<Topology>,
    pub graph: Option<GraphSummary>,
    pub layout: Option<LayoutResult>,
}

pub open spec fn pin_ref_view(p: PinRef) -> (Seq<char>, Seq<char>) {
    (p.component@, p.pin@)
}

pub open spec fn connection_view(c: Connection) -> Seq<(Seq<char>, Seq<char>)> {
    c.pins@.map_values(|p: PinRef| pin_ref_view(p))
}

/// The topology reads the circuit: each component's id, kind and module
/// pins, the connections and the named nets.
pub open spec fn topology_of(t: Topology, c: LoweredCircuit) -> bool {
    &&& t.components@.len() == c.components@.len()
    &&& forall|i: int|
        0 <= i < t.components@.len() ==> {
            let a = #[trigger] t.components@[i];
            let b = c.components@[i];
            a.id@ == b.id@ && a.kind == b.kind && opt_pins_view(a.module_pins) == opt_pins_view(b.module_pins)
        }
    &&& t.connections@.len() == c.connections@.len()
    &&& forall|i: int|
        0 <= i < t.connections@.len() ==> connection_view(#[trigger] t.connections@[i]) == connection_view(
            c.connections@[i],
        )
    &&& views(t.nets@) == views(c.nets@)
}

fn copy_texts(v: &Vec<String>) -> (r: Vec<String>)
    ensures
        views(r@) == views(v@),
{
    let mut r: Vec<String> = Vec::new();
    let mut i: usize = 0;
    while i < v.len()
        invariant
            i <= v@.len(),
            views(r@) == views(v@).take(i as int),
        decreases v.len() - i,
    {
        let ghost before = views(r@);
        r.push(owned(v[i].as_str()));
        assert(views(r@) =~= before.push(v@[i as int]@));
        assert(views(v@).take(i + 1) =~= views(v@).take(i as int).push(v@[i as int]@));
        i = i + 1;
    }
    assert(views(v@).take(i as int) =~= views(v@));
    r
}

fn copy_connection(c: &Connection) -> (r: Connection)
    ensures
        connection_view(r) == connection_view(*c),
{
    let mut pins: Vec<PinRef> = Vec::new();
    let mut i: usize = 0;
    while i < c.pins.len()
        invariant
            i <= c.pins@.len(),
            pins@.map_values(|p: PinRef| pin_ref_view(p)) == connection_view(*c).take(i as int),
        decreases c.pins.len() - i,
    {
        let ghost before = pins@.map_values(|p: PinRef| pin_ref_view(p));
        let q = PinRef { component: owned(c.pins[i].component.as_str()), pin: owned(c.pins[i].pin.as_str()) };
        assert(pin_ref_view(q) == pin_ref_view(c.pins@[i as int]));
        pins.push(q);
        assert(pins@.map_values(|p: PinRef| pin_ref_view(p)) =~= before.push(pin_ref_view(q)));
        assert(connection_view(*c).take(i + 1) =~= connection_view(*c).take(i as int).push(pin_ref_view(c.pins@[i as int])));
        i = i + 1;
    }
    assert(connection_view(*c).take(i as int) =~= connection_view(*c));
    Connection { pins }
}

/// The connectivity that the graph and the rule checks read of a circuit.
pub fn topology_from(c: &LoweredCircuit) -> (t: Topology)
    ensures
        topology_of(t, *c),
{
    let mut components: Vec<TopologyComponent> = Vec::new();
    let mut i: usize = 0;
    while i < c.components.len()
        invariant
            i <= c.components@.len(),
            components@.len() == i,
            forall|k: int|
                0 <= k < i ==> {
                    let a = #[trigger] components@[k];
                    let b = c.components@[k];
                    a.id@ == b.id@ && a.kind == b.kind && opt_pins_view(a.module_pins) == opt_pins_view(b.module_pins)
                },
        decreases c.components.len() - i,
    {
        let x = &c.components[i];
        let module_pins = match &x.module_pins {
            Some(p) => Some(copy_texts(p)),
            None => None,
        };
        components.push(TopologyComponent { id: owned(x.id.as_str()), kind: x.kind, module_pins });
        i = i + 1;
    }
    let mut connections: Vec<Connection> = Vec::new();
    let mut j: usize = 0;
    while j < c.connections.len()
        invariant
            j <= c.connections@.len(),
            connections@.len() == j,
            forall|k: int|
                0 <= k < j ==> connection_view(#[trigger] connections@[k]) == connection_view(c.connections@[k]),
        decreases c.connections.len() - j,
    {
        connections.push(copy_connection(&c.connections[j]));
        j = j + 1;
    }
    Topology { components, connections, nets: copy_texts(&c.nets) }
}

/// The netlist graph of the topology (kept opaque for proof performance).
#[verifier::opaque]
pub open spec fn graph_built(t: Topology, g: NetlistGraph) -> bool {
    graph_spec(t, g)
}

/// The layout of the topology over the graph's nets (kept opaque for proof
/// performance).
#[verifier::opaque]
pub open spec fn laid_out(l: LayoutResult, t: Topology, g: NetlistGraph) -> bool {
    layout_is(l, topology_parts(t), g.pin_to_net@)
}

/// The rule checks of a circuit reported as compiler diagnostics, each at
/// its place in the source (kept opaque for proof performance).
#[verifier::opaque]
pub open spec fn checked_as(src: Seq<char>, t: Topology, g: NetlistGraph, ds: Seq<Diagnostic>) -> bool {
    exists|f: Seq<ErcDiagnostic>|
        #![trigger dviews(f)]
        diags_sorted(dviews(f)) && dviews(f).to_multiset() == erc_findings(t, g).to_multiset() && all_errors(f)
            && ds.len() == f.len() && forall|i: int| 0 <= i < f.len() ==> annotated(src, from_erc(f[i]), #[trigger] ds[i])
}

pub open spec fn has_error(ds: Seq<Diagnostic>) -> bool {
    exists|i: int| 0 <= i < ds.len() && (#[trigger] ds[i]).severity == DiagnosticSeverity::Error
}

/// Only the diagnostic, at its place in the source; nothing else made.
pub open spec fn stopped_with(r: CompileOutcome, src: Seq<char>, d: Diagnostic) -> bool {
    &&& r.diagnostics@.len() == 1
    &&& annotated(src, d, r.diagnostics@[0])
    &&& r.circuit is None && r.topology is None && r.graph is None && r.layout is None
}

/// The outcome for a lowered circuit: the circuit with its connectivity,
/// net summary and rule-check diagnostics, and the layout only when asked
/// for and no diagnostic is an error.
pub open spec fn checked_circuit(r: CompileOutcome, src: Seq<char>, c: LoweredCircuit, options: CompileOptions) -> bool {
    &&& r.circuit == Some(c)
    &&& r.topology matches Some(t) && topology_of(t, c)
    &&& exists|g: NetlistGraph|
        #[trigger] graph_built(r.topology->0, g) && checked_as(src, r.topology->0, g, r.diagnostics@) && (r.layout matches Some(
            l,
        ) ==> laid_out(l, r.topology->0, g)) && (r.graph matches Some(s) && summary_of(s, g))
    &&& (r.layout is Some <==> (options.generate_layout && !has_error(r.diagnostics@) && c.components@.len() <= 30_000_000))
}

/// A node that the summary lists on its net `i`.
pub open spec fn summary_lists(s: GraphSummary, i: int, a: Seq<char>) -> bool {
    0 <= i < s.nets@.len() && views(s.nets@[i].pins@).contains(a)
}

proof fn lemma_summary_of_graph(t: Topology, g: NetlistGraph, s: GraphSummary)
    requires
        graph_spec(t, g),
        summary_of(s, g),
    ensures
        forall|a: Seq<char>| shared(t, a) ==> exists|i: int| #[trigger] summary_lists(s, i, a),
        forall|i: int, a: Seq<char>| #[trigger] summary_lists(s, i, a) ==> shared(t, a),
        forall|i: int, a: Seq<char>, b: Seq<char>|
            #[trigger] summary_lists(s, i, a) && #[trigger] summary_lists(s, i, b) ==> joined(t, a, b),
        forall|x: Seq<char>| views(s.ground_candidates@).contains(x) <==> ground_candidate(t, x),
        sorted_names(views(s.ground_candidates@)),
{
    let m = g.pin_to_net@;
    assert forall|a: Seq<char>| shared(t, a) implies exists|i: int| #[trigger] summary_lists(s, i, a) by {
        assert(keys(m).contains(a));
        let k = choose|k: int| 0 <= k < keys(m).len() && keys(m)[k] == a;
        assert(m[k].0@ == a);
        assert(has_net(m, m[k].1));
        let i = choose|i: int| 0 <= i < s.nets@.len() && (#[trigger] s.nets@[i]).id == m[k].1;
        assert(summarizes(s.nets@[i], g));
        assert(net_pins(m, m[k].1).contains(a));
        assert(views(s.nets@[i].pins@).to_set().contains(a));
        assert(summary_lists(s, i, a));
    }
    assert forall|i: int, a: Seq<char>| #[trigger] summary_lists(s, i, a) implies shared(t, a) by {
        assert(summarizes(s.nets@[i], g));
        assert(views(s.nets@[i].pins@).to_set().contains(a));
        assert(net_pins(m, s.nets@[i].id).contains(a));
        let k = choose|k: int| 0 <= k < m.len() && (#[trigger] m[k]).1 == s.nets@[i].id && m[k].0@ == a;
        assert(keys(m)[k] == a);
        assert(keys(m).contains(a));
    }
    assert forall|i: int, a: Seq<char>, b: Seq<char>|
        #[trigger] summary_lists(s, i, a) && #[trigger] summary_lists(s, i, b) implies joined(t, a, b) by {
        let id = s.nets@[i].id;
        assert(summarizes(s.nets@[i], g));
        assert(views(s.nets@[i].pins@).to_set().contains(a));
        assert(views(s.nets@[i].pins@).to_set().contains(b));
        assert(net_pins(m, id).contains(a));
        assert(net_pins(m, id).contains(b));
        let ka = choose|k: int| 0 <= k < m.len() && (#[trigger] m[k]).1 == id && m[k].0@ == a;
        let kb = choose|k: int| 0 <= k < m.len() && (#[trigger] m[k]).1 == id && m[k].0@ == b;
        lemma_graph_nets(t, g, ka, kb);
    }
}

proof fn lemma_summary_names(t: Topology, g: NetlistGraph, s: GraphSummary, i: int, a: Seq<char>)
    requires
        naming_facts(t, g),
        summarizes(s.nets@[i], g),
        summary_lists(s, i, a),
    ensures
        s.nets@[i].id.0 == net_of(t, a),
        s.nets@[i].name@ == if net_of(t, a) == 0 {
            "0"@
        } else {
            net_name_spec(t, a)
        },
{
    reveal(naming_facts);
    let m = g.pin_to_net@;
    let id = s.nets@[i].id;
    assert(views(s.nets@[i].pins@).to_set().contains(a));
    assert(net_pins(m, id).contains(a));
    let k = choose|k: int| 0 <= k < m.len() && (#[trigger] m[k]).1 == id && m[k].0@ == a;
    assert(m[k].1.0 == net_of(t, m[k].0@));
    assert(keys(m)[k] == a);
    assert(shared(t, a));
    lemma_lookup_name(t, g.net_names@, id, a);
}

proof fn lemma_summary_names_all(t: Topology, g: NetlistGraph, s: GraphSummary)
    requires
        naming_facts(t, g),
        forall|i: int| 0 <= i < s.nets@.len() ==> summarizes(#[trigger] s.nets@[i], g),
    ensures
        forall|i: int, a: Seq<char>|
            #[trigger] summary_lists(s, i, a) ==> s.nets@[i].id.0 == net_of(t, a) && s.nets@[i].name@ == if net_of(t, a)
                == 0 {
                "0"@
            } else {
                net_name_spec(t, a)
            },
{
    assert forall|i: int, a: Seq<char>| #[trigger] summary_lists(s, i, a) implies s.nets@[i].id.0 == net_of(t, a)
        && s.nets@[i].name@ == if net_of(t, a) == 0 {
        "0"@
    } else {
        net_name_spec(t, a)
    } by {
        assert(summarizes(s.nets@[i], g));
        lemma_summary_names(t, g, s, i, a);
    }
}

proof fn lemma_summary_law(t: Topology, g: NetlistGraph, s: GraphSummary)
    requires
        graph_spec(t, g),
        summary_of(s, g),
    ensures
        forall|a: Seq<char>| shared(t, a) ==> exists|i: int| #[trigger] summary_lists(s, i, a),
        forall|i: int, a: Seq<char>| #[trigger] summary_lists(s, i, a) ==> shared(t, a),
        forall|i: int, a: Seq<char>, b: Seq<char>|
            #[trigger] summary_lists(s, i, a) && #[trigger] summary_lists(s, i, b) ==> joined(t, a, b),
        forall|x: Seq<char>| views(s.ground_candidates@).contains(x) <==> ground_candidate(t, x),
        sorted_names(views(s.ground_candidates@)),
        s.ground_is_explicit == ground_explicit_spec(t),
        forall|i: int, j: int| 0 <= i < j < s.nets@.len() ==> (#[trigger] s.nets@[i]).id.0 < (#[trigger] s.nets@[j]).id.0,
        forall|i: int| 0 <= i < s.nets@.len() ==> (#[trigger] s.nets@[i]).pins@.len() > 0,
        forall|i: int, a: Seq<char>|
            #[trigger] summary_lists(s, i, a) ==> s.nets@[i].id.0 == net_of(t, a) && s.nets@[i].name@ == if net_of(t, a)
                == 0 {
                "0"@
            } else {
                net_name_spec(t, a)
            },
{
    lemma_summary_of_graph(t, g, s);
    assert forall|i: int| 0 <= i < s.nets@.len() implies (#[trigger] s.nets@[i]).pins@.len() > 0 by {
        assert(summarizes(s.nets@[i], g));
        let k = choose|k: int| 0 <= k < g.pin_to_net@.len() && (#[trigger] g.pin_to_net@[k]).1 == s.nets@[i].id;
        assert(net_pins(g.pin_to_net@, s.nets@[i].id).contains(g.pin_to_net@[k].0@));
        assert(views(s.nets@[i].pins@).to_set().contains(g.pin_to_net@[k].0@));
    }
    lemma_naming_facts(t, g);
    lemma_summary_names_all(t, g, s);
}

/// What the net summary of a compiled circuit says of its connectivity:
/// every node that shares a net is listed, only such nodes are listed, the
/// nodes listed together on one net are joined by the connections, and the
/// ground candidates are exactly the least ground references of their nets,
/// in ascending order.
#[verifier::rlimit(40)]
pub proof fn lemma_compiled_summary(r: CompileOutcome, src: Seq<char>, c: LoweredCircuit, options: CompileOptions)
    requires
        checked_circuit(r, src, c, options),
    ensures
        r.graph is Some && r.topology is Some,
        forall|a: Seq<char>| shared(r.topology->0, a) ==> exists|i: int| #[trigger] summary_lists(r.graph->0, i, a),
        forall|i: int, a: Seq<char>| #[trigger] summary_lists(r.graph->0, i, a) ==> shared(r.topology->0, a),
        forall|i: int, a: Seq<char>, b: Seq<char>|
            #[trigger] summary_lists(r.graph->0, i, a) && #[trigger] summary_lists(r.graph->0, i, b) ==> joined(
                r.topology->0,
                a,
                b,
            ),
        forall|x: Seq<char>| views(r.graph->0.ground_candidates@).contains(x) <==> ground_candidate(r.topology->0, x),
        sorted_names(views(r.graph->0.ground_candidates@)),
        r.graph->0.ground_is_explicit == ground_explicit_spec(r.topology->0),
        forall|i: int, j: int|
            0 <= i < j < r.graph->0.nets@.len() ==> (#[trigger] r.graph->0.nets@[i]).id.0 < (
            #[trigger] r.graph->0.nets@[j]).id.0,
        forall|i: int| 0 <= i < r.graph->0.nets@.len() ==> (#[trigger] r.graph->0.nets@[i]).pins@.len() > 0,
        forall|i: int, a: Seq<char>|
            #[trigger] summary_lists(r.graph->0, i, a) ==> r.graph->0.nets@[i].id.0 == net_of(r.topology->0, a)
                && r.graph->0.nets@[i].name@ == if net_of(r.topology->0, a) == 0 {
                "0"@
            } else {
                net_name_spec(r.topology->0, a)
            },
{
    let t = r.topology->0;
    let g = choose|g: NetlistGraph|
        #[trigger] graph_built(t, g) && checked_as(src, t, g, r.diagnostics@) && (r.layout matches Some(l) ==> laid_out(
            l,
            t,
            g,
        )) && (r.graph matches Some(s) && summary_of(s, g));
    assert(graph_spec(t, g)) by {
        reveal(graph_built);
    }
    lemma_summary_law(t, g, r.graph->0);
}

fn rule_diagnostics(source: &str, t: &Topology, g: &NetlistGraph) -> (ds: Vec<Diagnostic>)
    requires
        utf8_len(source@) < usize::MAX,
    ensures
        checked_as(source@, *t, *g, ds@),
{
    let findings = check_rules(t, g);
    let ghost fv = findings@;
    let mut ds = erc_diagnostics(findings);
    let ghost before = ds@;
    crate::compiler::annotate_source_locations(source, &mut ds);
    proof {
        reveal(checked_as);
        assert forall|i: int| 0 <= i < fv.len() implies annotated(source@, from_erc(fv[i]), #[trigger] ds@[i]) by {
            assert(before[i] == from_erc(fv[i]));
        }
    }
    ds
}

#[verifier::rlimit(40)]
fn check_circuit(source: &str, c: LoweredCircuit, options: CompileOptions) -> (r: CompileOutcome)
    requires
        utf8_len(source@) < usize::MAX,
    ensures
        checked_circuit(r, source@, c, options),
{
    let t = topology_from(&c);
    let g = NetlistGraph::build(&t);
    proof {
        reveal(graph_built);
        assert(graph_built(t, g));
    }
    let ds = rule_diagnostics(source, &t, &g);
    let summary = GraphSummary::from_graph(&g);
    let errors = has_errors(&ds);
    let layout = if options.generate_layout && !errors && t.components.len() <= 30_000_000 {
        let l = layout_with_graph(&t, &g);
        proof {
            reveal(laid_out);
            assert(laid_out(l, t, g));
        }
        Some(l)
    } else {
        None
    };
    let r = CompileOutcome { diagnostics: ds, circuit: Some(c), topology: Some(t), graph: Some(summary), layout };
    proof {
        assert(r.topology->0 == t);
        assert(graph_built(r.topology->0, g) && checked_as(source@, r.topology->0, g, r.diagnostics@) && (r.layout matches Some(
            l,
        ) ==> laid_out(l, r.topology->0, g)) && (r.graph matches Some(s) && summary_of(s, g)));
    }
    r
}

/// Compiles a parsed program whose flattening gave `flat`. `parameters`,
/// `readings` and `checks` are what evaluating its numbers gave (see
/// `ast_to_ir_with_resources`). A flattening or lowering failure is the only
/// diagnostic. Otherwise the circuit, its connectivity and net summary are
/// kept with the rule-check diagnostics, and the layout is made only when
/// asked for and no diagnostic is an error.
#[verifier::rlimit(40)]
pub fn compile_program(
    source: &str,
    flat: Result<Program, String>,
    resources: &ExternalModelResources,
    parameters: Result<(), ParameterError>,
    readings: &UserReadings,
    checks: Vec<Result<(), SemanticDiagnostic>>,
    options: CompileOptions,
) -> (r: CompileOutcome)
    requires
        utf8_len(source@) < usize::MAX,
        flat matches Ok(p) ==> readings_fit(p, *readings) && checks@.len() == p.statements@.len(),
    ensures
        match flat {
            Err(m) => exists|d: Diagnostic|
                crate::compiler::bare_error(d, "KES-C008"@, crate::compiler::DiagnosticStage::Flatten, m@) && #[trigger] stopped_with(r, source@, d),
            Ok(p) => exists|lr: Result<(LoweredCircuit, ModelLibrary), SemanticDiagnostic>|
                #[trigger] lowering_of(p, resources@, parameters, *readings, checks@, lr) && match lr {
                    Err(d) => stopped_with(r, source@, from_semantic(d)),
                    Ok((c, _)) => checked_circuit(r, source@, c, options),
                },
        },
        r.layout is Some ==> !has_error(r.diagnostics@),
{
    let p = match flat {
        Err(m) => {
            let mut ds = vec![flatten_diagnostic(m)];
            let ghost d = ds@[0];
            crate::compiler::annotate_source_locations(source, &mut ds);
            let r = CompileOutcome { diagnostics: ds, circuit: None, topology: None, graph: None, layout: None };
            assert(stopped_with(r, source@, d));
            return r;
        },
        Ok(p) => p,
    };
    let ghost pv = p;
    let ghost params = parameters;
    let ghost cv = checks@;
    let lr = ast_to_ir_with_resources(p, resources, parameters, readings, checks);
    let ghost lrv = lr;
    assert(lowering_of(pv, resources@, params, *readings, cv, lrv));
    let (c, _lib) = match lr {
        Err(d) => {
            let dd = Diagnostic::from(d);
            assert(dd == from_semantic(d));
            let mut ds = vec![dd];
            crate::compiler::annotate_source_locations(source, &mut ds);
            let r = CompileOutcome { diagnostics: ds, circuit: None, topology: None, graph: None, layout: None };
            assert(stopped_with(r, source@, from_semantic(d)));
            return r;
        },
        Ok(x) => x,
    };
    check_circuit(source, c, options)
}

} // verus!
