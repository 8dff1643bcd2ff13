//! Compiler diagnostics, output options, the net summary of a compile report and
//! the validation of root parameter inputs.
use crate::erc::{ErcDiagnostic, Severity as ErcSeverity};
use crate::expression::MAX_PARAMETERS;
use crate::graph::{name_lookup, NetId, NetlistGraph};
use crate::ir::{opt_view, views, SemanticDiagnostic};
use crate::text::{
    append_str, chars_of, eq_ignore_case, find_next, is_alnum_exec, is_ascii_alnum, is_white, is_white_exec,
    lemma_next_char, lemma_utf8_len_bounds, lemma_utf8_len_empty, lemma_utf8_len_push, lemma_utf8_len_subrange,
    lower, lower_all, lower_range, next_char, owned, seq_eq, text_is, text_lt, utf8_len, utf8_width_exec,
};
use vstd::prelude::*;

verus! {

pub const COMPILE_SCHEMA_VERSION: &'static str = "kessetsu.compile.v3";

pub const INPUT_SCHEMA_VERSION: &'static str = "kessetsu.inputs.v1";

#[derive(Debug, Clone, Copy, PartialEq, Eq, Structural)]
pub enum DiagnosticSeverity {
    Error,
    Warning,
    Info,
}

#[derive(Debug, Clone, Copy, PartialEq, Eq, Structural)]
pub enum DiagnosticStage {
    Parse,
    Flatten,
    Semantic,
    Erc,
    Io,
    Cli,
    Simulation,
    Assertion,
    Schematic,
}

#[derive(Debug, Clone)]
pub struct Diagnostic {
    pub code: String,
    pub severity: DiagnosticSeverity,
    pub stage: DiagnosticStage,
    pub message: String,
    pub component: Option<String>,
    pub pin: Option<String>,
    pub field: Option<String>,
    pub line: Option<usize>,
    pub column: Option<usize>,
}

#[derive(Debug, Clone, Copy, PartialEq, Eq, Structural)]
pub struct CompileOptions {
    pub include_ast: bool,
    pub generate_spice: bool,
    pub generate_layout: bool,
    pub generate_kicad: bool,
}

impl Default for CompileOptions {
    /// SPICE only.
    fn default() -> (r: CompileOptions)
        ensures
            r == (CompileOptions {
                include_ast: false,
                generate_spice: true,
                generate_layout: false,
                generate_kicad: false,
            }),
    {
        CompileOptions {
            include_ast: false,
            generate_spice: true,
            generate_layout: false,
            generate_kicad: false,
        }
    }
}

impl CompileOptions {
    /// Every output: the AST, SPICE, the layout and KiCad.
    pub fn all_outputs() -> (r: CompileOptions)
        ensures
            r == (CompileOptions {
                include_ast: true,
                generate_spice: true,
                generate_layout: true,
                generate_kicad: true,
            }),
    {
        CompileOptions { include_ast: true, generate_spice: true, generate_layout: true, generate_kicad: true }
    }
}

/// Whether some diagnostic is an error.
pub fn has_errors(diagnostics: &Vec<Diagnostic>) -> (r: bool)
    ensures
        r == exists|i: int|
            0 <= i < diagnostics@.len() && (#[trigger] diagnostics@[i]).severity == DiagnosticSeverity::Error,
{
    let mut i: usize = 0;
    while i < diagnostics.len()
        invariant
            i <= diagnostics@.len(),
            forall|j: int| 0 <= j < i ==> (#[trigger] diagnostics@[j]).severity != DiagnosticSeverity::Error,
        decreases diagnostics.len() - i,
    {
        if diagnostics[i].severity == DiagnosticSeverity::Error {
            return true;
        }
        i = i + 1;
    }
    false
}

/// An error of the given stage with no location.
pub open spec fn bare_error(
    d: Diagnostic,
    code: Seq<char>,
    stage: DiagnosticStage,
    message: Seq<char>,
) -> bool {
    &&& d.code@ == code
    &&& d.severity == DiagnosticSeverity::Error
    &&& d.stage == stage
    &&& d.message@ == message
    &&& d.component is None && d.pin is None && d.field is None
    &&& d.line is None && d.column is None
}

/// The diagnostic of a failed module elaboration.
pub fn flatten_diagnostic(message: String) -> (d: Diagnostic)
    ensures
        bare_error(d, "KES-C008"@, DiagnosticStage::Flatten, message@),
{
    Diagnostic {
        code: owned("KES-C008"),
        severity: DiagnosticSeverity::Error,
        stage: DiagnosticStage::Flatten,
        message,
        component: None,
        pin: None,
        field: None,
        line: None,
        column: None,
    }
}

pub open spec fn from_semantic(s: SemanticDiagnostic) -> Diagnostic {
    Diagnostic {
        code: s.code,
        severity: DiagnosticSeverity::Error,
        stage: DiagnosticStage::Semantic,
        message: s.message,
        component: s.component,
        pin: None,
        field: s.field,
        line: None,
        column: None,
    }
}

pub open spec fn erc_severity(s: ErcSeverity) -> DiagnosticSeverity {
    match s {
        ErcSeverity::Error => DiagnosticSeverity::Error,
        ErcSeverity::Warning => DiagnosticSeverity::Warning,
        ErcSeverity::Info => DiagnosticSeverity::Info,
    }
}

pub open spec fn from_erc(e: ErcDiagnostic) -> Diagnostic {
    Diagnostic {
        code: e.code,
        severity: erc_severity(e.severity),
        stage: DiagnosticStage::Erc,
        message: e.message,
        component: e.component,
        pin: e.pin,
        field: None,
        line: None,
        column: None,
    }
}

impl From<SemanticDiagnostic> for Diagnostic {
    fn from(diagnostic: SemanticDiagnostic) -> (r: Diagnostic) {
        Diagnostic {
            code: diagnostic.code,
            severity: DiagnosticSeverity::Error,
            stage: DiagnosticStage::Semantic,
            message: diagnostic.message,
            component: diagnostic.component,
            pin: None,
            field: diagnostic.field,
            line: None,
            column: None,
        }
    }
}

impl vstd::std_specs::convert::FromSpecImpl<SemanticDiagnostic> for Diagnostic {
    open spec fn obeys_from_spec() -> bool {
        true
    }

    open spec fn from_spec(v: SemanticDiagnostic) -> Diagnostic {
        from_semantic(v)
    }
}

impl From<ErcDiagnostic> for Diagnostic {
    fn from(diagnostic: ErcDiagnostic) -> (r: Diagnostic) {
        let severity = match diagnostic.severity {
            ErcSeverity::Error => DiagnosticSeverity::Error,
            ErcSeverity::Warning => DiagnosticSeverity::Warning,
            ErcSeverity::Info => DiagnosticSeverity::Info,
        };
        Diagnostic {
            code: diagnostic.code,
            severity,
            stage: DiagnosticStage::Erc,
            message: diagnostic.message,
            component: diagnostic.component,
            pin: diagnostic.pin,
            field: None,
            line: None,
            column: None,
        }
    }
}

impl vstd::std_specs::convert::FromSpecImpl<ErcDiagnostic> for Diagnostic {
    open spec fn obeys_from_spec() -> bool {
        true
    }

    open spec fn from_spec(v: ErcDiagnostic) -> Diagnostic {
        from_erc(v)
    }
}

/// The rule-check findings as compiler diagnostics, in their order.
pub fn erc_diagnostics(findings: Vec<ErcDiagnostic>) -> (r: Vec<Diagnostic>)
    ensures
        r@ == findings@.map_values(|e: ErcDiagnostic| from_erc(e)),
{
    let ghost all = findings@;
    let mut rest = findings;
    let mut reversed: Vec<Diagnostic> = Vec::new();
    while rest.len() > 0
        invariant
            all.len() == rest@.len() + reversed@.len(),
            rest@ == all.take(rest@.len() as int),
            forall|k: int|
                0 <= k < reversed@.len() ==> #[trigger] reversed@[k] == from_erc(all[all.len() - 1 - k]),
        decreases rest.len(),
    {
        let e = rest.pop().unwrap();
        let d = Diagnostic::from(e);
        reversed.push(d);
        proof {
            assert(rest@ =~= all.take(rest@.len() as int));
        }
    }
    let mut r: Vec<Diagnostic> = Vec::new();
    while reversed.len() > 0
        invariant
            all.len() == reversed@.len() + r@.len(),
            forall|k: int|
                0 <= k < reversed@.len() ==> #[trigger] reversed@[k] == from_erc(all[all.len() - 1 - k]),
            forall|k: int| 0 <= k < r@.len() ==> #[trigger] r@[k] == from_erc(all[k]),
        decreases reversed.len(),
    {
        let d = reversed.pop().unwrap();
        r.push(d);
    }
    proof {
        assert(r@ =~= all.map_values(|e: ErcDiagnostic| from_erc(e)));
    }
    r
}

#[derive(Debug, Clone)]
pub struct GraphNetSummary {
    pub id: NetId,
    pub name: String,
    pub pins: Vec<String>,
}

#[derive(Debug, Clone)]
pub struct GraphSummary {
    pub nets: Vec<GraphNetSummary>,
    pub ground_candidates: Vec<String>,
    pub ground_is_explicit: bool,
}

/// The pins recorded on net `id`.
pub open spec fn net_pins(m: Seq<(String, NetId)>, id: NetId) -> Set<Seq<char>> {
    Set::new(|s: Seq<char>| exists|i: int| 0 <= i < m.len() && (#[trigger] m[i]).1 == id && m[i].0@ == s)
}

/// Some summary is of net `id`.
pub open spec fn lists_net(nets: Seq<GraphNetSummary>, id: NetId) -> bool {
    exists|i: int| 0 <= i < nets.len() && (#[trigger] nets[i]).id == id
}

pub open spec fn has_net(m: Seq<(String, NetId)>, id: NetId) -> bool {
    exists|i: int| 0 <= i < m.len() && (#[trigger] m[i]).1 == id
}

/// The summary of one net: its number, its name and its pins in ascending order.
pub open spec fn summarizes(s: GraphNetSummary, g: NetlistGraph) -> bool {
    &&& has_net(g.pin_to_net@, s.id)
    &&& s.name@ == match name_lookup(g.net_names@, s.id) {
        Some(name) => name,
        None => crate::text::nat_text(s.id.0 as nat),
    }
    &&& crate::expression::sorted_names(views(s.pins@))
    &&& views(s.pins@).to_set() == net_pins(g.pin_to_net@, s.id)
}

/// `s` summarizes `g`: one summary per net that carries pins, in ascending
/// net order, each with its name and pins, and the graph's ground candidates.
pub open spec fn summary_of(s: GraphSummary, g: NetlistGraph) -> bool {
    &&& forall|i: int| 0 <= i < s.nets@.len() ==> summarizes(#[trigger] s.nets@[i], g)
    &&& forall|i: int, j: int| 0 <= i < j < s.nets@.len() ==> (#[trigger] s.nets@[i]).id.0 < (#[trigger] s.nets@[j]).id.0
    &&& forall|id: NetId| has_net(g.pin_to_net@, id) ==> lists_net(s.nets@, id)
    &&& views(s.ground_candidates@) == views(g.ground_candidates@)
    &&& s.ground_is_explicit == g.ground_is_explicit
}

impl GraphSummary {
    /// One summary per net that carries pins, in ascending net order, with the
    /// ground candidates of the graph.
    pub fn from_graph(graph: &NetlistGraph) -> (r: GraphSummary)
        ensures
            summary_of(r, *graph),
            forall|i: int| 0 <= i < r.nets@.len() ==> summarizes(#[trigger] r.nets@[i], *graph),
            forall|i: int, j: int| 0 <= i < j < r.nets@.len() ==> (#[trigger] r.nets@[i]).id.0 < (#[trigger] r.nets@[j]).id.0,
            forall|id: NetId| has_net(graph.pin_to_net@, id) ==> lists_net(r.nets@, id),
            views(r.ground_candidates@) == views(graph.ground_candidates@),
            r.ground_is_explicit == graph.ground_is_explicit,
    {
        let mut nets: Vec<GraphNetSummary> = Vec::new();
        // Each pass takes the least net number above the previous one.
        let mut last: Option<usize> = None;
        loop
            invariant
                forall|i: int| 0 <= i < nets@.len() ==> summarizes(#[trigger] nets@[i], *graph),
                forall|i: int, j: int| 0 <= i < j < nets@.len() ==> (#[trigger] nets@[i]).id.0 < (#[trigger] nets@[j]).id.0,
                nets@.len() > 0 ==> last == Some(nets@[nets@.len() - 1].id.0),
                nets@.len() == 0 ==> last is None,
                forall|id: NetId|
                    has_net(graph.pin_to_net@, id) && (last matches Some(l) && id.0 <= l) ==> exists|i: int|
                        0 <= i < nets@.len() && (#[trigger] nets@[i]).id == id,
            ensures
                forall|i: int| 0 <= i < nets@.len() ==> summarizes(#[trigger] nets@[i], *graph),
                forall|i: int, j: int| 0 <= i < j < nets@.len() ==> (#[trigger] nets@[i]).id.0 < (#[trigger] nets@[j]).id.0,
                forall|id: NetId| has_net(graph.pin_to_net@, id) ==> lists_net(nets@, id),
            decreases (if last is Some { usize::MAX - last->0 + 1 } else { usize::MAX as int + 2 }),
        {
            let next = least_net_above(&graph.pin_to_net, last);
            match next {
                None => {
                    proof {
                        assert forall|id: NetId| has_net(graph.pin_to_net@, id) implies lists_net(nets@, id) by {
                            assert(!(last is None || id.0 > last->0));
                        }
                    }
                    break;
                },
                Some(id) => {
                    let pins = pins_of(&graph.pin_to_net, id);
                    let name = graph.get_net_name(NetId(id));
                    let ghost old_nets = nets@;
                    nets.push(GraphNetSummary { id: NetId(id), name, pins });
                    proof {
                        assert forall|i: int| 0 <= i < nets@.len() implies summarizes(#[trigger] nets@[i], *graph) by {
                            if i < old_nets.len() {
                                assert(nets@[i] == old_nets[i]);
                            }
                        }
                        assert forall|x: NetId|
                            has_net(graph.pin_to_net@, x) && x.0 <= id implies exists|i: int|
                                0 <= i < nets@.len() && (#[trigger] nets@[i]).id == x by {
                            if x.0 == id {
                                assert(nets@[old_nets.len() as int].id == x);
                            } else {
                                assert(last matches Some(l) && x.0 <= l);
                                let i = choose|i: int| 0 <= i < old_nets.len() && (#[trigger] old_nets[i]).id == x;
                                assert(nets@[i] == old_nets[i]);
                            }
                        }
                    }
                    last = Some(id);
                },
            }
        }
        GraphSummary {
            nets,
            ground_candidates: clone_texts(&graph.ground_candidates),
            ground_is_explicit: graph.ground_is_explicit,
        }
    }
}

/// The least net number above `last` that some pin carries.
fn least_net_above(m: &Vec<(String, NetId)>, last: Option<usize>) -> (r: Option<usize>)
    ensures
        match r {
            Some(id) => has_net(m@, NetId(id)) && (last is None || id > last->0) && forall|x: NetId|
                has_net(m@, x) && (last is None || x.0 > last->0) ==> id <= x.0,
            None => forall|x: NetId| has_net(m@, x) ==> !(last is None || x.0 > last->0),
        },
{
    let mut best: Option<usize> = None;
    let mut i: usize = 0;
    while i < m.len()
        invariant
            i <= m@.len(),
            match best {
                Some(b) => has_net(m@, NetId(b)) && (last is None || b > last->0) && forall|k: int|
                    0 <= k < i && (last is None || (#[trigger] m@[k]).1.0 > last->0) ==> b <= m@[k].1.0,
                None => forall|k: int| 0 <= k < i ==> !(last is None || (#[trigger] m@[k]).1.0 > last->0),
            },
        decreases m.len() - i,
    {
        let v = m[i].1.0;
        let above = match last {
            None => true,
            Some(l) => v > l,
        };
        if above {
            let better = match best {
                None => true,
                Some(b) => v < b,
            };
            if better {
                best = Some(v);
                proof {
                    assert(m@[i as int].1 == NetId(v));
                }
            }
        }
        i = i + 1;
    }
    proof {
        match best {
            Some(b) => {
                assert forall|x: NetId| has_net(m@, x) && (last is None || x.0 > last->0) implies b <= x.0 by {
                    let k = choose|k: int| 0 <= k < m@.len() && (#[trigger] m@[k]).1 == x;
                }
            },
            None => {
                assert forall|x: NetId| has_net(m@, x) implies !(last is None || x.0 > last->0) by {
                    let k = choose|k: int| 0 <= k < m@.len() && (#[trigger] m@[k]).1 == x;
                }
            },
        }
    }
    best
}

/// The pins on net `id`, ascending and without repeats.
fn pins_of(m: &Vec<(String, NetId)>, id: usize) -> (r: Vec<String>)
    ensures
        crate::expression::sorted_names(views(r@)),
        views(r@).to_set() == net_pins(m@, NetId(id)),
{
    let mut r: Vec<String> = Vec::new();
    let mut i: usize = 0;
    proof {
        assert(views(r@).to_set() =~= net_pins(m@.take(0), NetId(id)));
    }
    while i < m.len()
        invariant
            i <= m@.len(),
            crate::expression::sorted_names(views(r@)),
            views(r@).to_set() == net_pins(m@.take(i as int), NetId(id)),
        decreases m.len() - i,
    {
        let ghost before = views(r@).to_set();
        if m[i].1.0 == id {
            crate::expression::insert_name(&mut r, m[i].0.clone());
        }
        proof {
            let a = m@.take(i as int);
            let b = m@.take(i + 1);
            assert forall|s: Seq<char>| net_pins(b, NetId(id)).contains(s) <==> views(r@).to_set().contains(s) by {
                if net_pins(b, NetId(id)).contains(s) {
                    let k = choose|k: int| 0 <= k < b.len() && (#[trigger] b[k]).1 == NetId(id) && b[k].0@ == s;
                    if k < i {
                        assert(a[k] == b[k]);
                        assert(net_pins(a, NetId(id)).contains(s));
                    }
                }
                if views(r@).to_set().contains(s) && s != m@[i as int].0@ {
                    assert(before.contains(s) || (m@[i as int].1 == NetId(id) && s == m@[i as int].0@));
                    let k = choose|k: int| 0 <= k < a.len() && (#[trigger] a[k]).1 == NetId(id) && a[k].0@ == s;
                    assert(b[k] == a[k]);
                }
                if views(r@).to_set().contains(s) && s == m@[i as int].0@ && !before.contains(s) {
                    assert(b[i as int] == m@[i as int]);
                }
            }
            assert(views(r@).to_set() =~= net_pins(b, NetId(id)));
        }
        i = i + 1;
    }
    proof {
        assert(m@.take(m@.len() as int) =~= m@);
    }
    r
}

fn clone_texts(v: &Vec<String>) -> (r: Vec<String>)
    ensures
        views(r@) == views(v@),
{
    let mut r: Vec<String> = Vec::new();
    let mut i: usize = 0;
    while i < v.len()
        invariant
            i <= v@.len(),
            r@.len() == i,
            forall|k: int| 0 <= k < i ==> (#[trigger] r@[k])@ == v@[k]@,
        decreases v.len() - i,
    {
        r.push(v[i].clone());
        i = i + 1;
    }
    proof {
        assert(views(r@) =~= views(v@));
    }
    r
}

#[derive(Debug, Clone)]
pub struct ParameterInput {
    pub name: String,
    pub value: String,
}

#[derive(Debug, Clone)]
pub struct CompileInputs {
    pub schema_version: String,
    pub parameters: Vec<ParameterInput>,
}

impl Default for CompileInputs {
    /// The current schema and no parameters.
    fn default() -> (r: CompileInputs)
        ensures
            r.schema_version@ == INPUT_SCHEMA_VERSION@,
            r.parameters@.len() == 0,
    {
        CompileInputs { schema_version: owned(INPUT_SCHEMA_VERSION), parameters: Vec::new() }
    }
}

/// A root parameter input failure, about parameter `name` when there is one.
pub fn input_failure(name: Option<&str>, message: String) -> (d: Diagnostic)
    ensures
        d.code@ == "KES-C022"@,
        d.severity == DiagnosticSeverity::Error,
        d.stage == DiagnosticStage::Semantic,
        d.message@ == message@,
        d.component is None && d.pin is None,
        opt_view(d.field) == crate::ir::opt_str_view(name),
        d.line is None && d.column is None,
{
    Diagnostic {
        code: owned("KES-C022"),
        severity: DiagnosticSeverity::Error,
        stage: DiagnosticStage::Semantic,
        message,
        component: None,
        pin: None,
        field: crate::ir::owned_opt(name),
        line: None,
        column: None,
    }
}

/// Accepts inputs of the current schema with at most `MAX_PARAMETERS` parameters.
pub fn validate_inputs(inputs: &CompileInputs) -> (r: Result<(), Diagnostic>)
    ensures
        r is Ok <==> inputs.schema_version@ == INPUT_SCHEMA_VERSION@ && inputs.parameters@.len() <= MAX_PARAMETERS,
        r matches Err(d) ==> d.code@ == "KES-C022"@ && d.field is None && d.message@ == if inputs.schema_version@
            != INPUT_SCHEMA_VERSION@ {
            "Unsupported compile input schema '"@ + inputs.schema_version@ + "'; expected '"@
                + INPUT_SCHEMA_VERSION@ + "'"@
        } else {
            "Root parameter input count limit exceeded"@
        },
{
    if !text_is(inputs.schema_version.as_str(), INPUT_SCHEMA_VERSION) {
        let mut m = owned("Unsupported compile input schema '");
        append_str(&mut m, inputs.schema_version.as_str());
        append_str(&mut m, "'; expected '");
        append_str(&mut m, INPUT_SCHEMA_VERSION);
        append_str(&mut m, "'");
        return Err(input_failure(None, m));
    }
    if inputs.parameters.len() > MAX_PARAMETERS {
        return Err(input_failure(None, owned("Root parameter input count limit exceeded")));
    }
    Ok(())
}


// ---------------------------------------------------------------------------
// Source locations of diagnostics.

/// A character that ends a word of a diagnostic message.
pub open spec fn message_break(c: char) -> bool {
    is_white(c) || c == '\'' || c == '"' || c == ':' || c == ',' || c == '.'
}

/// A character that is not part of a source identifier.
pub open spec fn source_break(c: char) -> bool {
    !(is_ascii_alnum(c) || c == '_')
}

pub open spec fn next_message_break(s: Seq<char>, i: int) -> int
    decreases s.len() - i,
{
    if i < 0 || i >= s.len() {
        s.len() as int
    } else if message_break(s[i]) {
        i
    } else {
        next_message_break(s, i + 1)
    }
}

pub open spec fn next_source_break(s: Seq<char>, i: int) -> int
    decreases s.len() - i,
{
    if i < 0 || i >= s.len() {
        s.len() as int
    } else if source_break(s[i]) {
        i
    } else {
        next_source_break(s, i + 1)
    }
}

pub proof fn lemma_next_breaks(s: Seq<char>, i: int)
    requires
        0 <= i <= s.len(),
    ensures
        i <= next_message_break(s, i) <= s.len(),
        i <= next_source_break(s, i) <= s.len(),
    decreases s.len() - i,
{
    if i < s.len() {
        lemma_next_breaks(s, i + 1);
    }
}

/// Whether `t` equals, ignoring ASCII case, one of the pieces of
/// `s[start..]` between non-identifier characters.
pub open spec fn source_word_from(s: Seq<char>, t: Seq<char>, start: int) -> bool
    decreases s.len() - start,
{
    if start < 0 || start > s.len() {
        false
    } else {
        let k = next_source_break(s, start);
        proof {
            lemma_next_breaks(s, start);
        }
        eq_ignore_case(s.subrange(start, k), t) || (k < s.len() && source_word_from(s, t, k + 1))
    }
}

/// The first word of the message from `start` on, splitting at whitespace,
/// quotes, colons, commas and periods, that is not empty and is a word of
/// the source.
pub open spec fn first_source_token(m: Seq<char>, src: Seq<char>, start: int) -> Option<Seq<char>>
    decreases m.len() - start,
{
    if start < 0 || start > m.len() {
        None
    } else {
        let k = next_message_break(m, start);
        proof {
            lemma_next_breaks(m, start);
        }
        let t = m.subrange(start, k);
        if t.len() > 0 && source_word_from(src, t, 0) {
            Some(t)
        } else if k < m.len() {
            first_source_token(m, src, k + 1)
        } else {
            None
        }
    }
}

/// What a diagnostic is looked up by: its component, else its field, else
/// the first word of its message that the source contains.
pub open spec fn needle_of(d: Diagnostic, src: Seq<char>) -> Option<Seq<char>> {
    match d.component {
        Some(c) => Some(c@),
        None => match d.field {
            Some(f) => Some(f@),
            None => first_source_token(d.message@, src, 0),
        },
    }
}

/// The first position at or after `k` where `n` occurs in `h`.
pub open spec fn first_occurrence(h: Seq<char>, n: Seq<char>, k: int) -> Option<int>
    decreases h.len() + 1 - k,
{
    if k < 0 || k + n.len() > h.len() {
        None
    } else if h.subrange(k, k + n.len()) == n {
        Some(k)
    } else {
        first_occurrence(h, n, k + 1)
    }
}

/// The 1-based line and byte column of the first occurrence of `n`,
/// ignoring ASCII case, in the lines of `s` from `start` on, the first of
/// them being line `row + 1`. Lines are as `str::lines` yields them: split
/// at `\n`, a `\r` before the `\n` dropped, no line after a final `\n`.
pub open spec fn locate_from(s: Seq<char>, n: Seq<char>, start: int, row: nat) -> Option<(nat, nat)>
    decreases s.len() - start,
{
    if start < 0 || start >= s.len() {
        None
    } else {
        let k = next_char(s, '\n', start);
        proof {
            lemma_next_char(s, '\n', start);
        }
        let raw = s.subrange(start, k);
        let line = if k < s.len() && raw.len() > 0 && raw.last() == '\r' {
            raw.drop_last()
        } else {
            raw
        };
        match first_occurrence(lower(line), lower(n), 0) {
            Some(o) => Some((row + 1, utf8_len(line.take(o)) + 1)),
            None => if k < s.len() {
                locate_from(s, n, k + 1, row + 1)
            } else {
                None
            },
        }
    }
}

pub open spec fn location_of(src: Seq<char>, d: Diagnostic) -> Option<(nat, nat)> {
    match needle_of(d, src) {
        Some(n) => locate_from(src, n, 0, 0),
        None => None,
    }
}

pub open spec fn same_but_location(a: Diagnostic, b: Diagnostic) -> bool {
    &&& a.code == b.code
    &&& a.severity == b.severity
    &&& a.stage == b.stage
    &&& a.message == b.message
    &&& a.component == b.component
    &&& a.pin == b.pin
    &&& a.field == b.field
}


/// `after` is `before` with the source location filled in, where `before`
/// had none and its subject is found in the source.
pub open spec fn annotated(src: Seq<char>, before: Diagnostic, after: Diagnostic) -> bool {
    if before.line is Some {
        after == before
    } else {
        match location_of(src, before) {
            Some((l, c)) => after.line == Some(l as usize) && after.column == Some(c as usize)
                && same_but_location(after, before),
            None => after == before,
        }
    }
}

fn next_source_break_exec(cs: &Vec<char>, i: usize) -> (k: usize)
    requires
        i <= cs.len(),
    ensures
        k == next_source_break(cs@, i as int),
{
    let mut k = i;
    while k < cs.len() && (is_alnum_exec(cs[k]) || cs[k] == '_')
        invariant
            i <= k <= cs.len(),
            next_source_break(cs@, i as int) == next_source_break(cs@, k as int),
        decreases cs.len() - k,
    {
        k = k + 1;
    }
    k
}

fn next_message_break_exec(cs: &Vec<char>, i: usize) -> (k: usize)
    requires
        i <= cs.len(),
    ensures
        k == next_message_break(cs@, i as int),
{
    let mut k = i;
    while k < cs.len() && !(is_white_exec(cs[k]) || cs[k] == '\'' || cs[k] == '"' || cs[k] == ':' || cs[k] == ','
        || cs[k] == '.')
        invariant
            i <= k <= cs.len(),
            next_message_break(cs@, i as int) == next_message_break(cs@, k as int),
        decreases cs.len() - k,
    {
        k = k + 1;
    }
    k
}

fn source_has_word(cs: &Vec<char>, t: &Vec<char>) -> (r: bool)
    ensures
        r == source_word_from(cs@, t@, 0),
{
    let lt = lower_all(t);
    let mut start: usize = 0;
    loop
        invariant
            start <= cs.len(),
            lt@ == lower(t@),
            source_word_from(cs@, t@, 0) == source_word_from(cs@, t@, start as int),
        decreases cs.len() - start,
    {
        let k = next_source_break_exec(cs, start);
        proof {
            lemma_next_breaks(cs@, start as int);
        }
        let piece = lower_range(cs, start, k);
        if seq_eq(&piece, &lt) {
            return true;
        }
        if k >= cs.len() {
            return false;
        }
        start = k + 1;
    }
}

fn first_token(m: &Vec<char>, src: &Vec<char>) -> (r: Option<Vec<char>>)
    ensures
        match first_source_token(m@, src@, 0) {
            Some(t) => r matches Some(v) && v@ == t,
            None => r is None,
        },
{
    let mut start: usize = 0;
    loop
        invariant
            start <= m.len(),
            first_source_token(m@, src@, 0) == first_source_token(m@, src@, start as int),
        decreases m.len() - start,
    {
        let k = next_message_break_exec(m, start);
        proof {
            lemma_next_breaks(m@, start as int);
        }
        let mut t: Vec<char> = Vec::new();
        let mut j = start;
        while j < k
            invariant
                start <= j <= k <= m.len(),
                t@ == m@.subrange(start as int, j as int),
            decreases k - j,
        {
            t.push(m[j]);
            assert(t@ =~= m@.subrange(start as int, j + 1));
            j = j + 1;
        }
        if t.len() > 0 && source_has_word(src, &t) {
            return Some(t);
        }
        if k >= m.len() {
            return None;
        }
        start = k + 1;
    }
}

pub proof fn lemma_first_occurrence(h: Seq<char>, n: Seq<char>, k: int)
    ensures
        first_occurrence(h, n, k) matches Some(o) ==> k <= o && o + n.len() <= h.len() && h.subrange(o, o + n.len())
            == n,
    decreases h.len() + 1 - k,
{
    if !(k < 0 || k + n.len() > h.len()) && h.subrange(k, k + n.len()) != n {
        lemma_first_occurrence(h, n, k + 1);
    }
}

fn find_occurrence(h: &Vec<char>, n: &Vec<char>) -> (r: Option<usize>)
    ensures
        match first_occurrence(h@, n@, 0) {
            Some(o) => r == Some(o as usize),
            None => r is None,
        },
{
    if n.len() > h.len() {
        return None;
    }
    let last = h.len() - n.len();
    let mut k: usize = 0;
    while k <= last
        invariant
            n.len() <= h.len(),
            last == h.len() - n.len(),
            k <= last + 1,
            first_occurrence(h@, n@, 0) == first_occurrence(h@, n@, k as int),
        decreases last + 1 - k,
    {
        let mut j: usize = 0;
        while j < n.len() && h[k + j] == n[j]
            invariant
                k <= last,
                last == h.len() - n.len(),
                j <= n.len(),
                forall|q: int| 0 <= q < j ==> h@[k + q] == n@[q],
            decreases n.len() - j,
        {
            j = j + 1;
        }
        if j == n.len() {
            assert(h@.subrange(k as int, k + n.len()) =~= n@);
            return Some(k);
        }
        assert(h@.subrange(k as int, k + n.len())[j as int] != n@[j as int]);
        k = k + 1;
    }
    None
}

/// The UTF-8 byte length of `cs[start..start + o]`.
fn byte_offset(cs: &Vec<char>, start: usize, o: usize) -> (b: usize)
    requires
        start + o <= cs.len(),
        utf8_len(cs@) < usize::MAX,
    ensures
        b == utf8_len(cs@.subrange(start as int, start + o)),
{
    let mut b: usize = 0;
    let mut i: usize = start;
    proof {
        lemma_utf8_len_empty(cs@.subrange(start as int, start as int));
        assert(cs@.subrange(start as int, start as int) =~= Seq::<char>::empty());
    }
    while i < start + o
        invariant
            start <= i <= start + o <= cs.len(),
            utf8_len(cs@) < usize::MAX,
            b == utf8_len(cs@.subrange(start as int, i as int)),
        decreases start + o - i,
    {
        proof {
            lemma_utf8_len_push(cs@.subrange(start as int, i as int), cs@[i as int]);
            assert(cs@.subrange(start as int, i as int).push(cs@[i as int]) =~= cs@.subrange(start as int, i + 1));
            lemma_utf8_len_subrange(cs@, start as int, i + 1);
        }
        b = b + utf8_width_exec(cs[i]);
        i = i + 1;
    }
    b
}

fn locate(cs: &Vec<char>, n: &Vec<char>) -> (r: Option<(usize, usize)>)
    requires
        utf8_len(cs@) < usize::MAX,
    ensures
        match locate_from(cs@, n@, 0, 0) {
            Some((l, c)) => r == Some((l as usize, c as usize)),
            None => r is None,
        },
{
    let ln = lower_all(n);
    let mut start: usize = 0;
    let mut row: usize = 0;
    proof {
        lemma_utf8_len_bounds(cs@);
    }
    loop
        invariant
            start <= cs.len(),
            row <= start,
            cs.len() <= utf8_len(cs@),
            utf8_len(cs@) < usize::MAX,
            ln@ == lower(n@),
            locate_from(cs@, n@, 0, 0) == locate_from(cs@, n@, start as int, row as nat),
        decreases cs.len() - start,
    {
        if start >= cs.len() {
            return None;
        }
        let k = find_next(cs, '\n', start);
        proof {
            lemma_next_char(cs@, '\n', start as int);
        }
        let mut end = k;
        if k < cs.len() && end > start && cs[end - 1] == '\r' {
            end = end - 1;
        }
        proof {
            let raw = cs@.subrange(start as int, k as int);
            if k < cs.len() && raw.len() > 0 && raw.last() == '\r' {
                assert(raw.drop_last() =~= cs@.subrange(start as int, end as int));
            } else {
                assert(raw =~= cs@.subrange(start as int, end as int));
            }
        }
        let line = lower_range(cs, start, end);
        match find_occurrence(&line, &ln) {
            Some(o) => {
                proof {
                    lemma_first_occurrence(line@, ln@, 0);
                    assert(line@.len() == end - start);
                }
                let b = byte_offset(cs, start, o);
                proof {
                    assert(cs@.subrange(start as int, end as int).take(o as int) =~= cs@.subrange(
                        start as int,
                        start + o,
                    ));
                    lemma_utf8_len_subrange(cs@, start as int, start + o);
                }
                return Some((row + 1, b + 1));
            },
            None => {
                if k >= cs.len() {
                    return None;
                }
                start = k + 1;
                row = row + 1;
            },
        }
    }
}

/// Fills in the line and byte column of a diagnostic that has none, at the
/// first line of the source that holds its subject: its component, else its
/// field, else the first word of its message that is a word of the source.
pub fn annotate_source_location(source: &str, diagnostic: &mut Diagnostic)
    requires
        utf8_len(source@) < usize::MAX,
    ensures
        annotated(source@, *old(diagnostic), *final(diagnostic)),
{
    if diagnostic.line.is_some() {
        return;
    }
    let cs = chars_of(source);
    let needle = match &diagnostic.component {
        Some(c) => Some(chars_of(c.as_str())),
        None => match &diagnostic.field {
            Some(f) => Some(chars_of(f.as_str())),
            None => first_token(&chars_of(diagnostic.message.as_str()), &cs),
        },
    };
    let needle = match needle {
        Some(n) => n,
        None => {
            return;
        },
    };
    match locate(&cs, &needle) {
        Some((l, c)) => {
            diagnostic.line = Some(l);
            diagnostic.column = Some(c);
        },
        None => {},
    }
}

/// Fills in the source location of every diagnostic that has none.
pub fn annotate_source_locations(source: &str, diagnostics: &mut Vec<Diagnostic>)
    requires
        utf8_len(source@) < usize::MAX,
    ensures
        final(diagnostics)@.len() == old(diagnostics)@.len(),
        forall|i: int|
            0 <= i < old(diagnostics)@.len() ==> annotated(source@, old(diagnostics)@[i], #[trigger] final(diagnostics)@[i]),
{
    let ghost before = diagnostics@;
    let mut i: usize = 0;
    while i < diagnostics.len()
        invariant
            i <= diagnostics.len(),
            diagnostics@.len() == before.len(),
            utf8_len(source@) < usize::MAX,
            forall|j: int| 0 <= j < i ==> annotated(source@, before[j], #[trigger] diagnostics@[j]),
            forall|j: int| i <= j < diagnostics@.len() ==> diagnostics@[j] == before[j],
        decreases diagnostics.len() - i,
    {
        let mut d = diagnostics.remove(i);
        annotate_source_location(source, &mut d);
        diagnostics.insert(i, d);
        i = i + 1;
    }
}


/// The exit status of a failed compile: 2 where reading or parsing the
/// source failed, else 1.
pub fn compile_failure_exit_code(diagnostics: &Vec<Diagnostic>) -> (code: i32)
    ensures
        code == (if exists|i: int|
            0 <= i < diagnostics@.len() && ((#[trigger] diagnostics@[i]).stage == DiagnosticStage::Parse
                || diagnostics@[i].stage == DiagnosticStage::Io) {
            2i32
        } else {
            1i32
        }),
{
    let mut i: usize = 0;
    while i < diagnostics.len()
        invariant
            i <= diagnostics.len(),
            forall|j: int|
                0 <= j < i ==> (#[trigger] diagnostics@[j]).stage != DiagnosticStage::Parse && diagnostics@[j].stage
                    != DiagnosticStage::Io,
        decreases diagnostics.len() - i,
    {
        match diagnostics[i].stage {
            DiagnosticStage::Parse | DiagnosticStage::Io => {
                return 2;
            },
            _ => {},
        }
        i = i + 1;
    }
    1
}

} // verus!
