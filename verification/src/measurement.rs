//! The measurement vocabulary: supported metrics, signal primitives, argument
//! counts and SPICE instance names.
use crate::ir::{first_index, find_char, is_supported_metric, ComponentKind};
use crate::text::{append_str, chars_of, owned, string_of, usize_text};
use vstd::prelude::*;

verus! {

pub const MEASUREMENT_SCHEMA_VERSION: &'static str = "kessetsu.measurement.v3";

/// Every metric that assertions and studies accept.
pub const SUPPORTED_METRICS: [&'static str; 25] = [
    "value",
    "min",
    "max",
    "peak",
    "average",
    "avg",
    "rms",
    "gain",
    "gain_at",
    "lower_cutoff",
    "upper_cutoff",
    "bandwidth",
    "cutoff",
    "frequency",
    "phase",
    "output_power",
    "dissipation",
    "efficiency",
    "thd",
    "clipping",
    "rise_time",
    "fall_time",
    "settling_time",
    "overshoot",
    "energy",
];

/// The supported metrics as owned names, in catalog order.
pub fn supported_metric_names() -> (r: Vec<String>)
    ensures
        r@.len() == 25,
        forall|i: int| 0 <= i < 25 ==> (#[trigger] r@[i])@ == SUPPORTED_METRICS@[i]@,
        forall|i: int| 0 <= i < 25 ==> is_supported_metric(#[trigger] r@[i]@),
{
    let mut r: Vec<String> = Vec::new();
    let mut i: usize = 0;
    while i < 25
        invariant
            i <= 25,
            r@.len() == i,
            forall|k: int| 0 <= k < i ==> (#[trigger] r@[k])@ == SUPPORTED_METRICS@[k]@,
            forall|k: int| 0 <= k < i ==> is_supported_metric(#[trigger] r@[k]@),
        decreases 25 - i,
    {
        r.push(owned(SUPPORTED_METRICS[i]));
        i = i + 1;
    }
    r
}

/// `function(target)` with a non-empty target.
#[verifier::opaque]
pub open spec fn signal_parts(s: Seq<char>) -> Option<(Seq<char>, Seq<char>)> {
    match first_index(s, '(') {
        Some(i) => {
            let rest = s.skip(i + 1);
            if rest.len() > 0 && rest.last() == ')' && rest.len() > 1 {
                Some((s.take(i), rest.drop_last()))
            } else {
                None
            }
        },
        None => None,
    }
}

#[verifier::opaque]
pub open spec fn signal_error(s: Seq<char>) -> Seq<char> {
    match first_index(s, '(') {
        Some(i) => {
            let rest = s.skip(i + 1);
            if rest.len() > 0 && rest.last() == ')' {
                "measurement primitive '"@ + s + "' has an empty target"@
            } else {
                "invalid measurement primitive '"@ + s + "'"@
            }
        },
        None => "invalid measurement primitive '"@ + s + "'"@,
    }
}

proof fn lemma_first_index(s: Seq<char>, c: char, i: int)
    requires
        0 <= i < s.len(),
        s[i] == c,
        forall|j: int| 0 <= j < i ==> s[j] != c,
    ensures
        first_index(s, c) == Some(i),
{
    assert(crate::text::contains_char(s, c));
    let k = choose|k: int| 0 <= k < s.len() && s[k] == c && forall|j: int| 0 <= j < k ==> s[j] != c;
    if k < i {
        assert(s[k] != c);
    } else if k > i {
        assert(s[i] != c);
    }
}

proof fn lemma_signal_at(s: Seq<char>, i: int)
    requires
        0 <= i < s.len(),
        s[i] == '(',
        forall|j: int| 0 <= j < i ==> s[j] != '(',
    ensures
        signal_parts(s) == (if i + 2 < s.len() && s.last() == ')' {
            Some((s.take(i), s.skip(i + 1).drop_last()))
        } else {
            None
        }),
        signal_error(s) == (if i + 1 < s.len() && s.last() == ')' {
            "measurement primitive '"@ + s + "' has an empty target"@
        } else {
            "invalid measurement primitive '"@ + s + "'"@
        }),
{
    reveal(signal_parts);
    reveal(signal_error);
    lemma_first_index(s, '(', i);
    let rest = s.skip(i + 1);
    if rest.len() > 0 {
        assert(rest.last() == s.last());
    }
}

proof fn lemma_signal_none(s: Seq<char>)
    requires
        forall|j: int| 0 <= j < s.len() ==> s[j] != '(',
    ensures
        signal_parts(s) is None,
        signal_error(s) == "invalid measurement primitive '"@ + s + "'"@,
{
    reveal(signal_parts);
    reveal(signal_error);
}

/// Splits a measurement primitive into its function and its target.
#[verifier::rlimit(40)]
pub fn parse_signal(signal: &str) -> (r: Result<(String, String), String>)
    ensures
        match r {
            Ok((f, t)) => signal_parts(signal@) == Some((f@, t@)),
            Err(e) => signal_parts(signal@) is None && e@ == signal_error(signal@),
        },
{
    let cs = chars_of(signal);
    let n = cs.len();
    match find_char(&cs, 0, n, '(') {
        None => {
            proof {
                lemma_signal_none(signal@);
            }
            let mut m = owned("invalid measurement primitive '");
            append_str(&mut m, signal);
            append_str(&mut m, "'");
            Err(m)
        },
        Some(i) => {
            proof {
                lemma_signal_at(signal@, i as int);
            }
            if i + 1 < n && cs[n - 1] == ')' {
                if i + 2 < n {
                    let function = string_of(&cs, 0, i);
                    let target = string_of(&cs, i + 1, n - 1);
                    proof {
                        assert(function@ =~= signal@.take(i as int));
                        assert(target@ =~= signal@.skip(i + 1).drop_last());
                    }
                    Ok((function, target))
                } else {
                    let mut m = owned("measurement primitive '");
                    append_str(&mut m, signal);
                    append_str(&mut m, "' has an empty target");
                    Err(m)
                }
            } else {
                let mut m = owned("invalid measurement primitive '");
                append_str(&mut m, signal);
                append_str(&mut m, "'");
                Err(m)
            }
        },
    }
}

/// A metric takes exactly `expected` arguments.
pub fn require_count(name: &str, count: usize, expected: usize) -> (r: Result<(), String>)
    ensures
        r is Ok <==> count == expected,
        r matches Err(e) ==> e@ == name@ + " expects "@ + crate::text::nat_text(expected as nat)
            + " arguments, got "@ + crate::text::nat_text(count as nat),
{
    if count == expected {
        Ok(())
    } else {
        let mut m = owned(name);
        append_str(&mut m, " expects ");
        append_str(&mut m, usize_text(expected).as_str());
        append_str(&mut m, " arguments, got ");
        append_str(&mut m, usize_text(count).as_str());
        Err(m)
    }
}

pub open spec fn instance_prefix(kind: ComponentKind) -> Seq<char> {
    match kind {
        ComponentKind::Resistor => "r"@,
        ComponentKind::Capacitor => "c"@,
        ComponentKind::Inductor => "l"@,
        ComponentKind::Diode => "d"@,
        ComponentKind::BJT(_) => "q"@,
        ComponentKind::MOSFET(_) => "m"@,
        ComponentKind::OpAmp | ComponentKind::ExternalDevice(_) => "x"@,
        ComponentKind::VoltageSource => "v"@,
        ComponentKind::CurrentSource => "i"@,
        ComponentKind::ModulePort => ""@,
    }
}

/// The lowercase SPICE instance name under which a simulator reports a component.
pub fn spice_instance_name(kind: &ComponentKind, id: &str) -> (r: String)
    ensures
        r@ == instance_prefix(*kind) + "_"@ + id@,
{
    let prefix = match kind {
        ComponentKind::Resistor => "r",
        ComponentKind::Capacitor => "c",
        ComponentKind::Inductor => "l",
        ComponentKind::Diode => "d",
        ComponentKind::BJT(_) => "q",
        ComponentKind::MOSFET(_) => "m",
        ComponentKind::OpAmp | ComponentKind::ExternalDevice(_) => "x",
        ComponentKind::VoltageSource => "v",
        ComponentKind::CurrentSource => "i",
        ComponentKind::ModulePort => "",
    };
    let mut r = owned(prefix);
    append_str(&mut r, "_");
    append_str(&mut r, id);
    r
}

} // verus!
