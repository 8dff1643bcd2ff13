//! Versioned, machine-readable discovery for agents and automation: contract
//! versions, commands, language vocabulary, export catalog and limits.
use crate::compiler::{COMPILE_SCHEMA_VERSION, INPUT_SCHEMA_VERSION};
use crate::experiment::{EXPERIMENT_SCHEMA, MAX_CASES, RESULTS_SCHEMA};
use crate::exporter::{export_capabilities, format_catalog, describes, ExportDescriptor, EXPORT_SCHEMA_VERSION};
use crate::expression::PARAMETER_SCHEMA_VERSION;
use crate::measurement::{supported_metric_names, MEASUREMENT_SCHEMA_VERSION, SUPPORTED_METRICS};
use crate::models::{MAX_EXTERNAL_MODEL_BYTES, MODEL_LOCK_SCHEMA_VERSION, MODEL_MANIFEST_SCHEMA_VERSION};
use crate::ir::views;
use crate::text::{owned, pair_views};
use vstd::prelude::*;

verus! {

pub const CAPABILITIES_SCHEMA_VERSION: &'static str = "kessetsu.capabilities.v1";

pub const HANDOFF_SCHEMA_VERSION: &'static str = "kessetsu.handoff.v2";

pub const FIT_SCHEMA: &'static str = "kessetsu.fit.v1";

pub const FIT_RESULT_SCHEMA: &'static str = "kessetsu.fit-result.v1";

/// The version of this library, reported as the product version.
pub const PRODUCT_VERSION: &'static str = "0.1.0";

#[derive(Debug, Clone)]
pub struct CapabilityManifest {
    pub schema_version: String,
    pub product: ProductCapability,
    /// Contract name and schema version, in ascending name order.
    pub contracts: Vec<(String, String)>,
    pub commands: Vec<CommandCapability>,
    pub calculators: Vec<String>,
    pub language: LanguageCapability,
    pub exports: Vec<ExportDescriptor>,
    pub limits: CapabilityLimits,
    pub agent_workflow: Vec<WorkflowStep>,
    pub boundaries: Vec<String>,
}

#[derive(Debug, Clone)]
pub struct ProductCapability {
    pub name: String,
    pub version: String,
    pub source_extension: String,
    pub license: String,
    pub documentation: String,
}

#[derive(Debug, Clone)]
pub struct CommandCapability {
    pub name: String,
    pub purpose: String,
    pub accepts_stdin: bool,
    pub may_run_ngspice: bool,
    pub output_policy: String,
}

#[derive(Debug, Clone)]
pub struct LanguageCapability {
    pub component_keywords: Vec<String>,
    pub structural_keywords: Vec<String>,
    pub analyses: Vec<String>,
    pub measurement_metrics: Vec<String>,
    pub source_waveforms: Vec<String>,
    /// Topic and reference address, in ascending topic order.
    pub references: Vec<(String, String)>,
}

#[derive(Debug, Clone, Copy, PartialEq, Eq, Structural)]
pub struct CapabilityLimits {
    pub external_model_bytes: usize,
    pub experiment_cases: usize,
}

#[derive(Debug, Clone)]
pub struct WorkflowStep {
    pub goal: String,
    pub command: String,
    pub note: String,
}

/// The contract versions that this build reports, by contract name.
pub open spec fn contract_table(cli: Seq<char>) -> Seq<(Seq<char>, Seq<char>)> {
    seq![
        ("capabilities"@, CAPABILITIES_SCHEMA_VERSION@),
        ("cli"@, cli),
        ("compile"@, COMPILE_SCHEMA_VERSION@),
        ("compile_inputs"@, INPUT_SCHEMA_VERSION@),
        ("experiment_results"@, RESULTS_SCHEMA@),
        ("experiments"@, EXPERIMENT_SCHEMA@),
        ("exports"@, EXPORT_SCHEMA_VERSION@),
        ("fit"@, FIT_SCHEMA@),
        ("fit_results"@, FIT_RESULT_SCHEMA@),
        ("handoff"@, HANDOFF_SCHEMA_VERSION@),
        ("measurements"@, MEASUREMENT_SCHEMA_VERSION@),
        ("model_lock"@, MODEL_LOCK_SCHEMA_VERSION@),
        ("models"@, MODEL_MANIFEST_SCHEMA_VERSION@),
        ("parameters"@, PARAMETER_SCHEMA_VERSION@),
    ]
}

pub open spec fn command_table() -> Seq<(Seq<char>, Seq<char>, bool, bool, Seq<char>)> {
    seq![
        ("capabilities"@, "Describe this installed build for agents and automation"@, false, false, "stdout_only"@),
        ("import"@, "Convert supported SPICE into editable, recompiled Kessetsu source"@, true, false, "writes_source_when_successful"@),
        ("data"@, "Import and compare explicitly mapped research data"@, false, false, "subcommand_specific"@),
        ("fit"@, "Score finite study candidates against calibration and validation data"@, false, false, "explicit_output"@),
        ("study"@, "Create, plan, run and package bounded parameter studies"@, false, true, "subcommand_specific"@),
        ("tool"@, "Calculate a bounded engineering starting point and emit editable source"@, false, false, "stdout_or_explicit_output"@),
        ("check"@, "Parse, elaborate and run ERC"@, true, false, "stdout_only"@),
        ("compile"@, "Generate the canonical SPICE netlist"@, true, false, "path_input_writes_adjacent;stdin_is_memory_only"@),
        ("simulate"@, "Run declared analyses through Ngspice"@, true, true, "path_input_writes_adjacent;stdin_is_memory_only"@),
        ("test"@, "Simulate and evaluate design-owned or external requirements"@, true, true, "path_input_writes_adjacent;stdin_is_memory_only"@),
        ("render"@, "Render the verified canonical schematic"@, true, false, "explicit_or_path_derived_output"@),
        ("export"@, "Produce a capability-described visual, machine or EDA artifact"@, true, false, "explicit_or_path_derived_output"@),
    ]
}

pub open spec fn command_view(c: CommandCapability) -> (Seq<char>, Seq<char>, bool, bool, Seq<char>) {
    (c.name@, c.purpose@, c.accepts_stdin, c.may_run_ngspice, c.output_policy@)
}

pub open spec fn component_keyword_table() -> Seq<Seq<char>> {
    seq![
        "resistor"@,
        "capacitor"@,
        "inductor"@,
        "diode"@,
        "transistor"@,
        "mosfet"@,
        "opamp"@,
        "device"@,
        "source"@,
        "current_source"@,
    ]
}

pub open spec fn structural_keyword_table() -> Seq<Seq<char>> {
    seq![
        "net"@,
        "param"@,
        "connect"@,
        "module"@,
        "use"@,
        "part"@,
        "model"@,
        "subcircuit"@,
        "external_subcircuit"@,
        "model_include"@,
        "simulate"@,
        "assert"@,
    ]
}

pub open spec fn analysis_table() -> Seq<Seq<char>> {
    seq!["op"@, "tran"@, "ac"@, "dc"@]
}

pub open spec fn waveform_table() -> Seq<Seq<char>> {
    seq!["dc_literal"@, "ac"@, "sine"@, "sine_ac"@, "pulse"@, "pwl"@]
}

pub open spec fn reference_table() -> Seq<(Seq<char>, Seq<char>)> {
    seq![
        ("agent_loop"@, "https://kessetsu.com/docs/reference/cli/#agent-loop"@),
        ("exports"@, "https://kessetsu.com/docs/reference/exports/"@),
        ("language"@, "https://kessetsu.com/docs/reference/language/"@),
        ("measurements"@, "https://kessetsu.com/docs/reference/measurements/"@),
        ("supported_domain"@, "https://kessetsu.com/docs/reference/supported-domain/"@),
    ]
}

pub open spec fn workflow_table() -> Seq<(Seq<char>, Seq<char>, Seq<char>)> {
    seq![
        ("Discover this installed build"@, "kess capabilities --format json"@, "Read contract versions and supported surfaces before generating source."@),
        ("Validate a complete in-memory candidate"@, "kess check - --format json"@, "Send the complete .kess source on stdin; no adjacent artifact is created."@),
        ("Inspect the canonical netlist when needed"@, "kess compile - --format json --include spice"@, "Verbose fields are opt-in; ordinary retries stay compact and deterministic."@),
        ("Evaluate independently owned requirements"@, "kess test - --format json --requirements limits.kessreq"@, "Keep acceptance criteria outside the design agent's editable source."@),
        ("Persist an engineering artifact"@, "kess export design.kess --target kicad --output design.kicad_sch"@, "Existing outputs require explicit --force; inspect returned capability and loss fields."@),
    ]
}

pub open spec fn step_view(s: WorkflowStep) -> (Seq<char>, Seq<char>, Seq<char>) {
    (s.goal@, s.command@, s.note@)
}

pub open spec fn boundary_table() -> Seq<Seq<char>> {
    seq![
        "Simulation and supplied part-limit comparisons are engineering evidence, not physical validation or a hardware-safety guarantee."@,
        "SPICE import accepts a documented fail-closed subset; unsupported constructs never become an apparently complete circuit."@,
        "PCB layout/DRC, RF/EM, thermal/reliability and arbitrary vendor-model portability are outside the current supported domain."@,
    ]
}

fn texts(parts: &[&str]) -> (r: Vec<String>)
    ensures
        views(r@) == parts@.map_values(|s: &str| s@),
{
    let mut r: Vec<String> = Vec::new();
    let mut i: usize = 0;
    while i < parts.len()
        invariant
            i <= parts@.len(),
            r@.len() == i,
            forall|k: int| 0 <= k < i ==> (#[trigger] r@[k])@ == parts@[k]@,
        decreases parts.len() - i,
    {
        r.push(owned(parts[i]));
        i = i + 1;
    }
    proof {
        assert(views(r@) =~= parts@.map_values(|s: &str| s@));
    }
    r
}

fn pairs(parts: &[(&str, &str)]) -> (r: Vec<(String, String)>)
    ensures
        pair_views(r@) == parts@.map_values(|p: (&str, &str)| (p.0@, p.1@)),
{
    let mut r: Vec<(String, String)> = Vec::new();
    let mut i: usize = 0;
    while i < parts.len()
        invariant
            i <= parts@.len(),
            r@.len() == i,
            forall|k: int| 0 <= k < i ==> (#[trigger] r@[k]).0@ == parts@[k].0@ && r@[k].1@ == parts@[k].1@,
        decreases parts.len() - i,
    {
        let (a, b) = parts[i];
        r.push((owned(a), owned(b)));
        i = i + 1;
    }
    proof {
        assert(pair_views(r@) =~= parts@.map_values(|p: (&str, &str)| (p.0@, p.1@)));
    }
    r
}

fn command(name: &str, purpose: &str, accepts_stdin: bool, may_run_ngspice: bool, output_policy: &str) -> (c: CommandCapability)
    ensures
        command_view(c) == (name@, purpose@, accepts_stdin, may_run_ngspice, output_policy@),
{
    CommandCapability {
        name: owned(name),
        purpose: owned(purpose),
        accepts_stdin,
        may_run_ngspice,
        output_policy: owned(output_policy),
    }
}

/// The commands of the command-line front end, in help order.
pub fn command_capabilities() -> (r: Vec<CommandCapability>)
    ensures
        r@.map_values(|c: CommandCapability| command_view(c)) == command_table(),
{
    let mut r: Vec<CommandCapability> = Vec::new();
    r.push(command("capabilities", "Describe this installed build for agents and automation", false, false, "stdout_only"));
    r.push(command("import", "Convert supported SPICE into editable, recompiled Kessetsu source", true, false, "writes_source_when_successful"));
    r.push(command("data", "Import and compare explicitly mapped research data", false, false, "subcommand_specific"));
    r.push(command("fit", "Score finite study candidates against calibration and validation data", false, false, "explicit_output"));
    r.push(command("study", "Create, plan, run and package bounded parameter studies", false, true, "subcommand_specific"));
    r.push(command("tool", "Calculate a bounded engineering starting point and emit editable source", false, false, "stdout_or_explicit_output"));
    r.push(command("check", "Parse, elaborate and run ERC", true, false, "stdout_only"));
    r.push(command("compile", "Generate the canonical SPICE netlist", true, false, "path_input_writes_adjacent;stdin_is_memory_only"));
    r.push(command("simulate", "Run declared analyses through Ngspice", true, true, "path_input_writes_adjacent;stdin_is_memory_only"));
    r.push(command("test", "Simulate and evaluate design-owned or external requirements", true, true, "path_input_writes_adjacent;stdin_is_memory_only"));
    r.push(command("render", "Render the verified canonical schematic", true, false, "explicit_or_path_derived_output"));
    r.push(command("export", "Produce a capability-described visual, machine or EDA artifact", true, false, "explicit_or_path_derived_output"));
    proof {
        assert(r@.map_values(|c: CommandCapability| command_view(c)) =~= command_table());
    }
    r
}

fn step(goal: &str, command: &str, note: &str) -> (s: WorkflowStep)
    ensures
        step_view(s) == (goal@, command@, note@),
{
    WorkflowStep { goal: owned(goal), command: owned(command), note: owned(note) }
}

fn workflow() -> (r: Vec<WorkflowStep>)
    ensures
        r@.map_values(|s: WorkflowStep| step_view(s)) == workflow_table(),
{
    let mut r: Vec<WorkflowStep> = Vec::new();
    r.push(step("Discover this installed build", "kess capabilities --format json", "Read contract versions and supported surfaces before generating source."));
    r.push(step("Validate a complete in-memory candidate", "kess check - --format json", "Send the complete .kess source on stdin; no adjacent artifact is created."));
    r.push(step("Inspect the canonical netlist when needed", "kess compile - --format json --include spice", "Verbose fields are opt-in; ordinary retries stay compact and deterministic."));
    r.push(step("Evaluate independently owned requirements", "kess test - --format json --requirements limits.kessreq", "Keep acceptance criteria outside the design agent's editable source."));
    r.push(step("Persist an engineering artifact", "kess export design.kess --target kicad --output design.kicad_sch", "Existing outputs require explicit --force; inspect returned capability and loss fields."));
    proof {
        assert(r@.map_values(|s: WorkflowStep| step_view(s)) =~= workflow_table());
    }
    r
}

/// Everything a capability manifest states, for the given cli schema version.
pub open spec fn describes_build(m: CapabilityManifest, cli: Seq<char>) -> bool {
    &&& m.schema_version@ == CAPABILITIES_SCHEMA_VERSION@
    &&& m.product.name@ == "Kessetsu"@
    &&& m.product.version@ == PRODUCT_VERSION@
    &&& m.product.source_extension@ == ".kess"@
    &&& m.product.license@ == "AGPL-3.0-only"@
    &&& m.product.documentation@ == "https://kessetsu.com/docs/"@
    &&& pair_views(m.contracts@) =~= contract_table(cli)
    &&& m.commands@.map_values(|c: CommandCapability| command_view(c)) =~= command_table()
    &&& views(m.calculators@) =~= seq!["divider"@, "rc-lowpass"@]
    &&& views(m.language.component_keywords@) =~= component_keyword_table()
    &&& views(m.language.structural_keywords@) =~= structural_keyword_table()
    &&& views(m.language.analyses@) =~= analysis_table()
    &&& m.language.measurement_metrics@.len() == SUPPORTED_METRICS@.len()
    &&& forall|i: int| 0 <= i < SUPPORTED_METRICS@.len() ==> (#[trigger] m.language.measurement_metrics@[i])@ == SUPPORTED_METRICS@[i]@
    &&& views(m.language.source_waveforms@) =~= waveform_table()
    &&& pair_views(m.language.references@) =~= reference_table()
    &&& m.exports@.len() == format_catalog().len()
    &&& forall|i: int| 0 <= i < m.exports@.len() ==> describes(#[trigger] m.exports@[i], format_catalog()[i].0, format_catalog()[i].1)
    &&& m.limits == (CapabilityLimits { external_model_bytes: MAX_EXTERNAL_MODEL_BYTES, experiment_cases: MAX_CASES })
    &&& m.agent_workflow@.map_values(|s: WorkflowStep| step_view(s)) =~= workflow_table()
    &&& views(m.boundaries@) =~= boundary_table()
}

/// What this build offers, for agents and automation.
pub fn capability_manifest(cli_schema_version: &str) -> (m: CapabilityManifest)
    ensures
        m.schema_version@ == CAPABILITIES_SCHEMA_VERSION@,
        m.product.name@ == "Kessetsu"@,
        m.product.version@ == PRODUCT_VERSION@,
        m.product.source_extension@ == ".kess"@,
        m.product.license@ == "AGPL-3.0-only"@,
        m.product.documentation@ == "https://kessetsu.com/docs/"@,
        pair_views(m.contracts@) == contract_table(cli_schema_version@),
        m.commands@.map_values(|c: CommandCapability| command_view(c)) == command_table(),
        views(m.calculators@) == seq!["divider"@, "rc-lowpass"@],
        views(m.language.component_keywords@) == component_keyword_table(),
        views(m.language.structural_keywords@) == structural_keyword_table(),
        views(m.language.analyses@) == analysis_table(),
        m.language.measurement_metrics@.len() == SUPPORTED_METRICS@.len(),
        forall|i: int| 0 <= i < SUPPORTED_METRICS@.len() ==> (#[trigger] m.language.measurement_metrics@[i])@ == SUPPORTED_METRICS@[i]@,
        views(m.language.source_waveforms@) == waveform_table(),
        pair_views(m.language.references@) == reference_table(),
        m.exports@.len() == format_catalog().len(),
        forall|i: int| 0 <= i < m.exports@.len() ==> describes(#[trigger] m.exports@[i], format_catalog()[i].0, format_catalog()[i].1),
        m.limits == (CapabilityLimits { external_model_bytes: MAX_EXTERNAL_MODEL_BYTES, experiment_cases: MAX_CASES }),
        m.agent_workflow@.map_values(|s: WorkflowStep| step_view(s)) == workflow_table(),
        views(m.boundaries@) == boundary_table(),
        describes_build(m, cli_schema_version@),
{
    let contracts = pairs(
        &[
            ("capabilities", CAPABILITIES_SCHEMA_VERSION),
            ("cli", cli_schema_version),
            ("compile", COMPILE_SCHEMA_VERSION),
            ("compile_inputs", INPUT_SCHEMA_VERSION),
            ("experiment_results", RESULTS_SCHEMA),
            ("experiments", EXPERIMENT_SCHEMA),
            ("exports", EXPORT_SCHEMA_VERSION),
            ("fit", FIT_SCHEMA),
            ("fit_results", FIT_RESULT_SCHEMA),
            ("handoff", HANDOFF_SCHEMA_VERSION),
            ("measurements", MEASUREMENT_SCHEMA_VERSION),
            ("model_lock", MODEL_LOCK_SCHEMA_VERSION),
            ("models", MODEL_MANIFEST_SCHEMA_VERSION),
            ("parameters", PARAMETER_SCHEMA_VERSION),
        ],
    );
    let references = pairs(
        &[
            ("agent_loop", "https://kessetsu.com/docs/reference/cli/#agent-loop"),
            ("exports", "https://kessetsu.com/docs/reference/exports/"),
            ("language", "https://kessetsu.com/docs/reference/language/"),
            ("measurements", "https://kessetsu.com/docs/reference/measurements/"),
            ("supported_domain", "https://kessetsu.com/docs/reference/supported-domain/"),
        ],
    );
    CapabilityManifest {
        schema_version: owned(CAPABILITIES_SCHEMA_VERSION),
        product: ProductCapability {
            name: owned("Kessetsu"),
            version: owned(PRODUCT_VERSION),
            source_extension: owned(".kess"),
            license: owned("AGPL-3.0-only"),
            documentation: owned("https://kessetsu.com/docs/"),
        },
        contracts,
        commands: command_capabilities(),
        calculators: texts(&["divider", "rc-lowpass"]),
        language: LanguageCapability {
            component_keywords: texts(
                &[
                    "resistor",
                    "capacitor",
                    "inductor",
                    "diode",
                    "transistor",
                    "mosfet",
                    "opamp",
                    "device",
                    "source",
                    "current_source",
                ],
            ),
            structural_keywords: texts(
                &[
                    "net",
                    "param",
                    "connect",
                    "module",
                    "use",
                    "part",
                    "model",
                    "subcircuit",
                    "external_subcircuit",
                    "model_include",
                    "simulate",
                    "assert",
                ],
            ),
            analyses: texts(&["op", "tran", "ac", "dc"]),
            measurement_metrics: supported_metric_names(),
            source_waveforms: texts(&["dc_literal", "ac", "sine", "sine_ac", "pulse", "pwl"]),
            references,
        },
        exports: export_capabilities(),
        limits: CapabilityLimits { external_model_bytes: MAX_EXTERNAL_MODEL_BYTES, experiment_cases: MAX_CASES },
        agent_workflow: workflow(),
        boundaries: texts(
            &[
                "Simulation and supplied part-limit comparisons are engineering evidence, not physical validation or a hardware-safety guarantee.",
                "SPICE import accepts a documented fail-closed subset; unsupported constructs never become an apparently complete circuit.",
                "PCB layout/DRC, RF/EM, thermal/reliability and arbitrary vendor-model portability are outside the current supported domain.",
            ],
        ),
    }
}

/// Only the cli contract depends on the cli schema version: it is the
/// second contract and reads the version given, and a manifest for another
/// version is the same manifest with that one contract replaced.
pub proof fn lemma_manifest_cli_only(m1: CapabilityManifest, m2: CapabilityManifest, s: Seq<char>, t: Seq<char>)
    requires
        describes_build(m1, s),
    ensures
        pair_views(m1.contracts@)[1] == ("cli"@, s),
        describes_build(m2, t) ==> pair_views(m2.contracts@) == pair_views(m1.contracts@).update(1, ("cli"@, t)),
        ({
            &&& m2.schema_version == m1.schema_version
            &&& m2.product == m1.product
            &&& m2.commands == m1.commands
            &&& m2.calculators == m1.calculators
            &&& m2.language == m1.language
            &&& m2.exports == m1.exports
            &&& m2.limits == m1.limits
            &&& m2.agent_workflow == m1.agent_workflow
            &&& m2.boundaries == m1.boundaries
            &&& pair_views(m2.contracts@) == pair_views(m1.contracts@).update(1, ("cli"@, t))
        }) ==> describes_build(m2, t),
{
    assert(contract_table(t) =~= contract_table(s).update(1, ("cli"@, t)));
}

} // verus!
