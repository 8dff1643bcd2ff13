//! Portable parameter studies: the study vocabulary, case statuses and their
//! tally, and the text escaping of study reports.
use crate::hashing::{sha256_hex, sha256_hex_spec};
use crate::ir::SIUnit;
use crate::text::{append_str, chars_of, is_white, is_white_exec, leading_white, owned, push_char, trim_start};
use vstd::prelude::*;

verus! {

/// A parameter that a fit adjusts, with the bounds of its range as written.
#[derive(Debug, Clone)]
pub struct FitParameter {
    pub name: String,
    pub lower: String,
    pub upper: String,
}

/// Whether an observation calibrates a fit or validates it.
#[derive(Debug, Clone, Copy, PartialEq, Eq)]
pub enum ObservationRole {
    Calibration,
    Validation,
}

pub const EXPERIMENT_SCHEMA: &'static str = "kessetsu.experiment.v1";

pub const RESULTS_SCHEMA: &'static str = "kessetsu.experiment-results.v1";

pub const MAX_CASES: usize = 256;

pub const MAX_SPEC_BYTES: usize = 1048576;

pub const MAX_RESULT_BYTES: usize = 67108864;

pub const MAX_CASE_VALUES: usize = 2000000;

/// The simulation timeout of a study that does not set one, in milliseconds.
pub fn default_timeout() -> (r: u64)
    ensures
        r == 30000,
{
    30000
}

#[derive(Debug, Clone)]
pub struct Axis {
    pub parameter: String,
    pub values: Values,
}

#[derive(Debug, Clone)]
pub enum Values {
    List { values: Vec<String> },
    Linear { start: String, stop: String, points: usize },
    Log { start: String, stop: String, points: usize },
}

#[derive(Debug, Clone)]
pub struct Revision {
    pub name: String,
    pub source: Option<String>,
    /// Parameter overrides, one per name, in ascending name order.
    pub parameters: Vec<(String, String)>,
}

#[derive(Debug, Clone, Copy, PartialEq, Eq, Structural)]
pub enum ToleranceMode {
    Corners,
    MonteCarlo,
}

#[derive(Debug, Clone, Copy, PartialEq, Eq, Structural)]
pub enum Distribution {
    Uniform,
    Normal,
}

impl Default for Distribution {
    fn default() -> (r: Distribution)
        ensures
            r == Distribution::Uniform,
    {
        Distribution::Uniform
    }
}

#[derive(Debug, Clone)]
pub struct Measurement {
    pub name: String,
    pub expression: String,
    pub unit: SIUnit,
}

#[derive(Debug, Clone, Copy, PartialEq, Eq, Structural)]
pub enum Direction {
    Minimize,
    Maximize,
}

#[derive(Debug, Clone)]
pub struct Objective {
    pub measurement: String,
    pub direction: Direction,
}

#[derive(Debug, Clone, Copy, PartialEq, Eq, Structural)]
pub enum CaseStatus {
    Pending,
    Completed,
    Passed,
    Failed,
    Error,
    Cancelled,
}

impl CaseStatus {
    /// A finished case whose result can be kept: neither pending nor cancelled.
    pub fn reusable(self) -> (r: bool)
        ensures
            r == !(self == CaseStatus::Pending || self == CaseStatus::Cancelled),
    {
        !(self == CaseStatus::Pending || self == CaseStatus::Cancelled)
    }
}

#[derive(Debug, Clone, Default)]
pub struct ExperimentSummary {
    pub total: usize,
    pub pending: usize,
    pub completed: usize,
    pub passed: usize,
    pub failed: usize,
    pub errors: usize,
    pub cancelled: usize,
    pub best_case: Option<String>,
}

pub open spec fn count_status(s: Seq<CaseStatus>, st: CaseStatus) -> nat
    decreases s.len(),
{
    if s.len() == 0 {
        0
    } else {
        count_status(s.drop_last(), st) + if s.last() == st {
            1nat
        } else {
            0nat
        }
    }
}

proof fn lemma_count_status_bound(s: Seq<CaseStatus>, st: CaseStatus)
    ensures
        count_status(s, st) <= s.len(),
    decreases s.len(),
{
    if s.len() > 0 {
        lemma_count_status_bound(s.drop_last(), st);
    }
}

/// The tally of case statuses of a study of `total` planned cases; the best case
/// is chosen by the caller from the measured values.
pub fn tally(total: usize, statuses: &Vec<CaseStatus>, best_case: Option<String>) -> (r: ExperimentSummary)
    ensures
        r.total == total,
        r.pending == count_status(statuses@, CaseStatus::Pending),
        r.completed == count_status(statuses@, CaseStatus::Completed),
        r.passed == count_status(statuses@, CaseStatus::Passed),
        r.failed == count_status(statuses@, CaseStatus::Failed),
        r.errors == count_status(statuses@, CaseStatus::Error),
        r.cancelled == count_status(statuses@, CaseStatus::Cancelled),
        r.best_case == best_case,
{
    let mut r = ExperimentSummary {
        total,
        pending: 0,
        completed: 0,
        passed: 0,
        failed: 0,
        errors: 0,
        cancelled: 0,
        best_case,
    };
    let mut i: usize = 0;
    while i < statuses.len()
        invariant
            i <= statuses@.len(),
            r.total == total,
            r.best_case == best_case,
            r.pending == count_status(statuses@.take(i as int), CaseStatus::Pending),
            r.completed == count_status(statuses@.take(i as int), CaseStatus::Completed),
            r.passed == count_status(statuses@.take(i as int), CaseStatus::Passed),
            r.failed == count_status(statuses@.take(i as int), CaseStatus::Failed),
            r.errors == count_status(statuses@.take(i as int), CaseStatus::Error),
            r.cancelled == count_status(statuses@.take(i as int), CaseStatus::Cancelled),
        decreases statuses.len() - i,
    {
        let ghost t = statuses@.take(i + 1);
        proof {
            assert(t.drop_last() =~= statuses@.take(i as int));
            lemma_count_status_bound(statuses@.take(i as int), statuses@[i as int]);
        }
        match statuses[i] {
            CaseStatus::Pending => r.pending = r.pending + 1,
            CaseStatus::Completed => r.completed = r.completed + 1,
            CaseStatus::Passed => r.passed = r.passed + 1,
            CaseStatus::Failed => r.failed = r.failed + 1,
            CaseStatus::Error => r.errors = r.errors + 1,
            CaseStatus::Cancelled => r.cancelled = r.cancelled + 1,
        }
        i = i + 1;
    }
    proof {
        assert(statuses@.take(statuses@.len() as int) =~= statuses@);
    }
    r
}

pub open spec fn unit_suffix_text(unit: SIUnit) -> Seq<char> {
    match unit {
        SIUnit::Ohm => "Ohm"@,
        SIUnit::Farad => "F"@,
        SIUnit::Henry => "H"@,
        SIUnit::Volt => "V"@,
        SIUnit::Ampere => "A"@,
        SIUnit::Hertz => "Hz"@,
        SIUnit::Second => "s"@,
        SIUnit::Watt => "W"@,
        SIUnit::Joule => "J"@,
        SIUnit::Ratio => ""@,
        SIUnit::Percent => "%"@,
        SIUnit::Degree => "deg"@,
    }
}

/// The unit written after a literal value.
pub fn unit_suffix(unit: SIUnit) -> (r: &'static str)
    ensures
        r@ == unit_suffix_text(unit),
{
    match unit {
        SIUnit::Ohm => "Ohm",
        SIUnit::Farad => "F",
        SIUnit::Henry => "H",
        SIUnit::Volt => "V",
        SIUnit::Ampere => "A",
        SIUnit::Hertz => "Hz",
        SIUnit::Second => "s",
        SIUnit::Watt => "W",
        SIUnit::Joule => "J",
        SIUnit::Ratio => "",
        SIUnit::Percent => "%",
        SIUnit::Degree => "deg",
    }
}

/// `sha256:` and the hexadecimal digest of the bytes.
pub fn hash_bytes(bytes: &[u8]) -> (r: String)
    ensures
        r@ == "sha256:"@ + sha256_hex_spec(bytes@),
{
    let hex = sha256_hex(bytes);
    let mut r = owned("sha256:");
    append_str(&mut r, hex.as_str());
    r
}

/// Each double quote doubled.
pub open spec fn double_quotes(s: Seq<char>) -> Seq<char>
    decreases s.len(),
{
    if s.len() == 0 {
        seq![]
    } else {
        double_quotes(s.drop_last()) + if s.last() == '"' {
            seq!['"', '"']
        } else {
            seq![s.last()]
        }
    }
}

/// A cell that a spreadsheet would read as a formula.
pub open spec fn formula_like(s: Seq<char>) -> bool {
    let t = trim_start(s);
    t.len() > 0 && (t[0] == '=' || t[0] == '+' || t[0] == '-' || t[0] == '@')
}

/// A CSV cell: quoted, with quotes doubled and a leading `'` that keeps a
/// formula-like cell from being evaluated.
pub open spec fn csv_quote_spec(s: Seq<char>) -> Seq<char> {
    seq!['"'] + (if formula_like(s) {
        seq!['\'']
    } else {
        seq![]
    }) + double_quotes(s) + seq!['"']
}

fn starts_formula(cs: &Vec<char>) -> (r: bool)
    ensures
        r == formula_like(cs@),
{
    let mut i: usize = 0;
    while i < cs.len() && is_white_exec(cs[i])
        invariant
            i <= cs@.len(),
            forall|j: int| 0 <= j < i ==> is_white(#[trigger] cs@[j]),
        decreases cs.len() - i,
    {
        i = i + 1;
    }
    proof {
        crate::text::lemma_leading_white_unique(cs@, i as int);
    }
    if i < cs.len() {
        let c = cs[i];
        c == '=' || c == '+' || c == '-' || c == '@'
    } else {
        false
    }
}

pub fn csv_quote(text: &str) -> (r: String)
    ensures
        r@ == csv_quote_spec(text@),
{
    let cs = chars_of(text);
    let mut r = String::new();
    push_char(&mut r, '"');
    if starts_formula(&cs) {
        push_char(&mut r, '\'');
    }
    let ghost head = r@;
    let mut i: usize = 0;
    while i < cs.len()
        invariant
            i <= cs@.len(),
            cs@ == text@,
            r@ == head + double_quotes(cs@.take(i as int)),
        decreases cs.len() - i,
    {
        proof {
            assert(cs@.take(i + 1).drop_last() =~= cs@.take(i as int));
        }
        if cs[i] == '"' {
            push_char(&mut r, '"');
            push_char(&mut r, '"');
        } else {
            push_char(&mut r, cs[i]);
        }
        proof {
            let t = cs@.take(i + 1);
            assert(t.last() == cs@[i as int]);
            assert(r@ =~= head + double_quotes(t));
        }
        i = i + 1;
    }
    push_char(&mut r, '"');
    proof {
        assert(cs@.take(cs@.len() as int) =~= cs@);
        assert(r@ =~= csv_quote_spec(text@));
    }
    r
}

pub open spec fn escape_char(c: char) -> Seq<char> {
    if c == '&' {
        "&amp;"@
    } else if c == '<' {
        "&lt;"@
    } else if c == '>' {
        "&gt;"@
    } else if c == '"' {
        "&quot;"@
    } else if c == '\'' {
        "&#39;"@
    } else {
        seq![c]
    }
}

/// Markup-safe text: `& < > " '` written as character references.
pub open spec fn escape_spec(s: Seq<char>) -> Seq<char>
    decreases s.len(),
{
    if s.len() == 0 {
        seq![]
    } else {
        escape_spec(s.drop_last()) + escape_char(s.last())
    }
}

pub fn escape(text: &str) -> (r: String)
    ensures
        r@ == escape_spec(text@),
{
    let cs = chars_of(text);
    let mut r = String::new();
    let mut i: usize = 0;
    while i < cs.len()
        invariant
            i <= cs@.len(),
            cs@ == text@,
            r@ == escape_spec(cs@.take(i as int)),
        decreases cs.len() - i,
    {
        let c = cs[i];
        proof {
            assert(cs@.take(i + 1).drop_last() =~= cs@.take(i as int));
            assert(cs@.take(i + 1).last() == c);
        }
        if c == '&' {
            append_str(&mut r, "&amp;");
        } else if c == '<' {
            append_str(&mut r, "&lt;");
        } else if c == '>' {
            append_str(&mut r, "&gt;");
        } else if c == '"' {
            append_str(&mut r, "&quot;");
        } else if c == '\'' {
            append_str(&mut r, "&#39;");
        } else {
            push_char(&mut r, c);
        }
        proof {
            assert(r@ =~= escape_spec(cs@.take(i + 1)));
        }
        i = i + 1;
    }
    proof {
        assert(cs@.take(cs@.len() as int) =~= cs@);
    }
    r
}

} // verus!
