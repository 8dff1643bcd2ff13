//! Circuit IR vocabulary and the lexical rules for engineering literals and
//! assertion primitives.
use crate::text::{
    append_str, chars_of, contains_char, eq_ignore_case, eq_ignore_case_exec, eq_str, is_ascii_digit,
    is_digit_exec, owned, range_eq_str, string_of, trim, trim_bounds,
};
use vstd::prelude::*;

verus! {

pub const PHYSICAL_PART_SCHEMA_VERSION: &'static str = "kessetsu.physical-parts.v2";

#[derive(Debug, Clone, Copy, PartialEq, Eq, Structural)]
pub enum SIUnit {
    Ohm,
    Farad,
    Henry,
    Volt,
    Ampere,
    Hertz,
    Second,
    Watt,
    Joule,
    Ratio,
    Percent,
    Degree,
}

#[derive(Debug, Clone, Copy, PartialEq, Eq, Structural)]
pub enum ExternalDeviceFamily {
    Comparator,
    TwoTerminal,
}

#[derive(Debug, Clone, Copy, PartialEq, Eq, Structural)]
pub enum BJTPolarity {
    NPN,
    PNP,
}

#[derive(Debug, Clone, Copy, PartialEq, Eq, Structural)]
pub enum FETPolarity {
    NMOS,
    PMOS,
}

#[derive(Debug, Clone, Copy, PartialEq, Eq, Structural)]
pub enum ComponentKind {
    Resistor,
    Capacitor,
    Inductor,
    Diode,
    BJT(BJTPolarity),
    MOSFET(FETPolarity),
    OpAmp,
    ExternalDevice(ExternalDeviceFamily),
    VoltageSource,
    CurrentSource,
    ModulePort,
}

#[derive(Debug, Clone, Copy, PartialEq, Eq, Structural)]
pub enum PartRatingKind {
    PeakVoltage,
    PeakCurrent,
    AverageDissipation,
}

#[derive(Debug, Clone, Copy, PartialEq, Eq, Structural)]
pub enum ModelSource {
    Builtin,
    UserDefined,
    Package,
    External,
}

#[derive(Debug, Clone, Copy, PartialEq, Eq, Structural)]
pub enum SimulatorCompatibility {
    Ngspice,
    NgspicePs,
}

#[derive(Debug, Clone, Copy, PartialEq, Eq, Structural)]
pub enum RedistributionPolicy {
    Permitted,
    Prohibited,
}

#[derive(Debug, Clone, Copy, PartialEq, Eq, Structural)]
pub enum AcScale {
    Decade,
    Octave,
    Linear,
}

#[derive(Debug, Clone)]
pub struct ExternalParameterDefinition {
    pub name: String,
    pub unit: SIUnit,
}

#[derive(Debug, Clone)]
pub struct ExternalModelMetadata {
    pub resource: String,
    pub entry: String,
    pub pins: Vec<String>,
    pub simulator: SimulatorCompatibility,
    pub redistribution: RedistributionPolicy,
    pub instance_parameters: Vec<ExternalParameterDefinition>,
}

#[derive(Debug, Clone)]
pub enum ModelDefinition {
    Device { directive: String },
    Subcircuit { directive: String, pins: Vec<String> },
    ExternalSubcircuit { metadata: ExternalModelMetadata },
}

#[derive(Debug, Clone)]
pub struct ModelProvenance {
    pub source: String,
    pub license: String,
    pub version: String,
    pub content_hash: String,
    pub simulator: String,
}

#[derive(Debug, Clone)]
pub struct ModelRef {
    pub name: String,
    pub kind: ComponentKind,
    pub source: ModelSource,
    pub definition: ModelDefinition,
    pub provenance: ModelProvenance,
}

#[derive(Debug, Clone)]
pub struct ResolvedModelPackage {
    pub name: String,
    pub version: String,
    pub license: String,
    pub content_hash: String,
}

#[derive(Debug, Clone)]
pub struct ModelManifestEntry {
    pub name: String,
    pub kind: ComponentKind,
    pub source: ModelSource,
    pub provenance: ModelProvenance,
    pub external: Option<ExternalModelMetadata>,
}

#[derive(Debug, Clone)]
pub struct ModelManifest {
    pub schema_version: String,
    pub packages: Vec<ResolvedModelPackage>,
    pub models: Vec<ModelManifestEntry>,
}

#[derive(Debug, Clone)]
pub struct SemanticDiagnostic {
    pub code: String,
    pub message: String,
    pub component: Option<String>,
    pub field: Option<String>,
}

pub open spec fn opt_view(o: Option<String>) -> Option<Seq<char>> {
    match o {
        Some(s) => Some(s@),
        None => None,
    }
}

pub open spec fn opt_str_view(o: Option<&str>) -> Option<Seq<char>> {
    match o {
        Some(s) => Some(s@),
        None => None,
    }
}

/// An owned copy of an optional string slice.
pub fn owned_opt(o: Option<&str>) -> (r: Option<String>)
    ensures
        opt_view(r) == opt_str_view(o),
{
    match o {
        Some(s) => Some(owned(s)),
        None => None,
    }
}

/// A semantic diagnostic with the given code, message and optional locations.
pub fn semantic_error(
    code: &str,
    message: String,
    component: Option<&str>,
    field: Option<&str>,
) -> (d: SemanticDiagnostic)
    ensures
        d.code@ == code@,
        d.message@ == message@,
        opt_view(d.component) == opt_str_view(component),
        opt_view(d.field) == opt_str_view(field),
{
    SemanticDiagnostic {
        code: owned(code),
        message,
        component: owned_opt(component),
        field: owned_opt(field),
    }
}

/// Why a literal failed the lexical rules.
pub enum NumberShape {
    Missing,
    NoDigits,
    BadExponent,
}

/// First index at or after `i` that is not an ASCII digit.
pub open spec fn digits_end(s: Seq<char>, i: int) -> int
    decreases s.len() - i,
{
    if 0 <= i < s.len() && is_ascii_digit(s[i]) {
        digits_end(s, i + 1)
    } else {
        i
    }
}

/// Where the numeric part of an already trimmed literal ends:
/// `[+-] digits [. digits] [(e|E) [+-] digits]`, with at least one mantissa digit.
pub open spec fn number_end(s: Seq<char>) -> Result<int, NumberShape> {
    if s.len() == 0 {
        Err(NumberShape::Missing)
    } else {
        let i0: int = if s[0] == '+' || s[0] == '-' { 1 } else { 0 };
        let i1 = digits_end(s, i0);
        let dot = i1 < s.len() && s[i1] == '.';
        let i2 = if dot { digits_end(s, i1 + 1) } else { i1 };
        let has_digits = i1 > i0 || (dot && i2 > i1 + 1);
        if !has_digits {
            Err(NumberShape::NoDigits)
        } else if i2 < s.len() && (s[i2] == 'e' || s[i2] == 'E') {
            let j: int = if i2 + 1 < s.len() && (s[i2 + 1] == '+' || s[i2 + 1] == '-') {
                i2 + 2
            } else {
                i2 + 1
            };
            let k = digits_end(s, j);
            if k == j {
                Err(NumberShape::BadExponent)
            } else {
                Ok(k)
            }
        } else {
            Ok(i2)
        }
    }
}

proof fn lemma_digits_end(s: Seq<char>, i: int)
    requires
        0 <= i <= s.len(),
    ensures
        i <= digits_end(s, i) <= s.len(),
        forall|j: int| i <= j < digits_end(s, i) ==> is_ascii_digit(#[trigger] s[j]),
        digits_end(s, i) < s.len() ==> !is_ascii_digit(s[digits_end(s, i)]),
    decreases s.len() - i,
{
    if i < s.len() && is_ascii_digit(s[i]) {
        lemma_digits_end(s, i + 1);
    }
}

fn digits_end_exec(cs: &Vec<char>, lo: usize, hi: usize, i: usize) -> (r: usize)
    requires
        lo <= i <= hi <= cs.len(),
    ensures
        r == lo + digits_end(cs@.subrange(lo as int, hi as int), i - lo),
        i <= r <= hi,
{
    let ghost s = cs@.subrange(lo as int, hi as int);
    let mut k: usize = i;
    while k < hi && is_digit_exec(cs[k])
        invariant
            lo <= i <= k <= hi <= cs.len(),
            s == cs@.subrange(lo as int, hi as int),
            digits_end(s, i - lo) == digits_end(s, k - lo),
        decreases hi - k,
    {
        assert(s[k - lo] == cs@[k as int]);
        k = k + 1;
    }
    if k < hi {
        assert(s[k - lo] == cs@[k as int]);
    }
    k
}

/// Splits `cs[lo..hi]` (already trimmed) at the end of its numeric part.
pub fn number_end_exec(cs: &Vec<char>, lo: usize, hi: usize) -> (r: Result<usize, NumberShape>)
    requires
        lo <= hi <= cs.len(),
    ensures
        match (r, number_end(cs@.subrange(lo as int, hi as int))) {
            (Ok(a), Ok(b)) => a == lo + b && lo <= a <= hi,
            (Err(NumberShape::Missing), Err(NumberShape::Missing)) => true,
            (Err(NumberShape::NoDigits), Err(NumberShape::NoDigits)) => true,
            (Err(NumberShape::BadExponent), Err(NumberShape::BadExponent)) => true,
            _ => false,
        },
{
    let ghost s = cs@.subrange(lo as int, hi as int);
    if lo == hi {
        return Err(NumberShape::Missing);
    }
    assert(s[0] == cs@[lo as int]);
    let i0: usize = if cs[lo] == '+' || cs[lo] == '-' { lo + 1 } else { lo };
    let i1 = digits_end_exec(cs, lo, hi, i0);
    let dot = i1 < hi && cs[i1] == '.';
    if i1 < hi {
        assert(s[i1 - lo] == cs@[i1 as int]);
    }
    let i2 = if dot { digits_end_exec(cs, lo, hi, i1 + 1) } else { i1 };
    let has_digits = i1 > i0 || (dot && i2 > i1 + 1);
    if !has_digits {
        return Err(NumberShape::NoDigits);
    }
    if i2 < hi && (cs[i2] == 'e' || cs[i2] == 'E') {
        assert(s[i2 - lo] == cs@[i2 as int]);
        if i2 + 1 < hi {
            assert(s[i2 + 1 - lo] == cs@[i2 + 1]);
        }
        let j: usize = if i2 + 1 < hi && (cs[i2 + 1] == '+' || cs[i2 + 1] == '-') {
            i2 + 2
        } else {
            i2 + 1
        };
        let k = digits_end_exec(cs, lo, hi, j);
        if k == j {
            Err(NumberShape::BadExponent)
        } else {
            Ok(k)
        }
    } else {
        if i2 < hi {
            assert(s[i2 - lo] == cs@[i2 as int]);
        }
        Ok(i2)
    }
}

/// The message that `split_number_and_suffix` reports for a malformed literal.
pub open spec fn number_shape_message(shape: NumberShape, trimmed: Seq<char>) -> Seq<char> {
    match shape {
        NumberShape::Missing => "value is missing"@,
        NumberShape::NoDigits => "invalid numeric value '"@ + trimmed + "'"@,
        NumberShape::BadExponent => "invalid exponent in '"@ + trimmed + "'"@,
    }
}

fn quoted_message(prefix: &str, body: &Vec<char>, lo: usize, hi: usize) -> (m: String)
    requires
        lo <= hi <= body.len(),
    ensures
        m@ == prefix@ + body@.subrange(lo as int, hi as int) + "'"@,
{
    let mut m = owned(prefix);
    let inner = string_of(body, lo, hi);
    append_str(&mut m, inner.as_str());
    append_str(&mut m, "'");
    m
}

/// Splits a trimmed literal into its numeric text and its suffix.
pub fn split_number_and_suffix(input: &str) -> (r: Result<(String, String), String>)
    ensures
        match number_end(trim(input@)) {
            Ok(k) => r matches Ok((n, s)) && n@ == trim(input@).take(k) && s@ == trim(
                input@,
            ).skip(k),
            Err(shape) => r matches Err(m) && m@ == number_shape_message(shape, trim(input@)),
        },
{
    let cs = chars_of(input);
    let (lo, hi) = trim_bounds(&cs, 0, cs.len());
    assert(cs@.subrange(0, cs@.len() as int) =~= input@);
    let ghost t = trim(input@);
    assert(t == cs@.subrange(lo as int, hi as int));
    match number_end_exec(&cs, lo, hi) {
        Ok(k) => {
            let n = string_of(&cs, lo, k);
            let s = string_of(&cs, k, hi);
            assert(n@ =~= t.take(k - lo));
            assert(s@ =~= t.skip(k - lo));
            Ok((n, s))
        },
        Err(NumberShape::Missing) => Err(owned("value is missing")),
        Err(NumberShape::NoDigits) => Err(quoted_message("invalid numeric value '", &cs, lo, hi)),
        Err(NumberShape::BadExponent) => Err(quoted_message("invalid exponent in '", &cs, lo, hi)),
    }
}

/// SI prefix of a literal suffix, as a power of ten, and the rest of the suffix.
pub open spec fn si_prefix(s: Seq<char>) -> (int, Seq<char>) {
    if s.len() >= 3 && s.take(3) == "meg"@ {
        (6, s.skip(3))
    } else if s.len() >= 1 && s[0] == 'T' {
        (12, s.skip(1))
    } else if s.len() >= 1 && s[0] == 'G' {
        (9, s.skip(1))
    } else if s.len() >= 1 && s[0] == 'M' {
        (6, s.skip(1))
    } else if s.len() >= 1 && (s[0] == 'k' || s[0] == 'K') {
        (3, s.skip(1))
    } else if s.len() >= 1 && s[0] == 'm' {
        (-3, s.skip(1))
    } else if s.len() >= 1 && (s[0] == 'u' || s[0] == 'µ') {
        (-6, s.skip(1))
    } else if s.len() >= 1 && s[0] == 'n' {
        (-9, s.skip(1))
    } else if s.len() >= 1 && s[0] == 'p' {
        (-12, s.skip(1))
    } else {
        (0, s)
    }
}

/// The unit that a literal's unit text names, if the text is accepted.
pub open spec fn unit_text(u: Seq<char>) -> Option<Option<SIUnit>> {
    if u.len() == 0 {
        Some(None)
    } else if u == "Ohm"@ || u == "ohm"@ || u == "OHM"@ || u == "Ω"@ {
        Some(Some(SIUnit::Ohm))
    } else if u == "F"@ {
        Some(Some(SIUnit::Farad))
    } else if u == "H"@ {
        Some(Some(SIUnit::Henry))
    } else if u == "V"@ || u == "v"@ {
        Some(Some(SIUnit::Volt))
    } else if u == "A"@ || u == "a"@ {
        Some(Some(SIUnit::Ampere))
    } else if u == "Hz"@ || u == "hz"@ || u == "HZ"@ {
        Some(Some(SIUnit::Hertz))
    } else if u == "s"@ || u == "S"@ {
        Some(Some(SIUnit::Second))
    } else if u == "W"@ || u == "w"@ {
        Some(Some(SIUnit::Watt))
    } else if u == "J"@ || u == "j"@ {
        Some(Some(SIUnit::Joule))
    } else if u == "%"@ {
        Some(Some(SIUnit::Percent))
    } else if u == "deg"@ || u == "degree"@ || u == "degrees"@ {
        Some(Some(SIUnit::Degree))
    } else {
        None
    }
}

/// The decimal scale and unit of a literal suffix.
pub open spec fn unit_suffix_spec(s: Seq<char>) -> Option<(int, Option<SIUnit>)> {
    match unit_text(si_prefix(s).1) {
        Some(unit) => Some((si_prefix(s).0, unit)),
        None => None,
    }
}

fn unit_text_exec(u: &Vec<char>, lo: usize) -> (r: Option<Option<SIUnit>>)
    requires
        lo <= u.len(),
    ensures
        r == unit_text(u@.skip(lo as int)),
{
    let n = u.len();
    assert(u@.subrange(lo as int, n as int) =~= u@.skip(lo as int));
    if lo == n {
        Some(None)
    } else if range_eq_str(u, lo, n, "Ohm") || range_eq_str(u, lo, n, "ohm") || range_eq_str(
        u,
        lo,
        n,
        "OHM",
    ) || range_eq_str(u, lo, n, "Ω") {
        Some(Some(SIUnit::Ohm))
    } else if range_eq_str(u, lo, n, "F") {
        Some(Some(SIUnit::Farad))
    } else if range_eq_str(u, lo, n, "H") {
        Some(Some(SIUnit::Henry))
    } else if range_eq_str(u, lo, n, "V") || range_eq_str(u, lo, n, "v") {
        Some(Some(SIUnit::Volt))
    } else if range_eq_str(u, lo, n, "A") || range_eq_str(u, lo, n, "a") {
        Some(Some(SIUnit::Ampere))
    } else if range_eq_str(u, lo, n, "Hz") || range_eq_str(u, lo, n, "hz") || range_eq_str(
        u,
        lo,
        n,
        "HZ",
    ) {
        Some(Some(SIUnit::Hertz))
    } else if range_eq_str(u, lo, n, "s") || range_eq_str(u, lo, n, "S") {
        Some(Some(SIUnit::Second))
    } else if range_eq_str(u, lo, n, "W") || range_eq_str(u, lo, n, "w") {
        Some(Some(SIUnit::Watt))
    } else if range_eq_str(u, lo, n, "J") || range_eq_str(u, lo, n, "j") {
        Some(Some(SIUnit::Joule))
    } else if range_eq_str(u, lo, n, "%") {
        Some(Some(SIUnit::Percent))
    } else if range_eq_str(u, lo, n, "deg") || range_eq_str(u, lo, n, "degree") || range_eq_str(
        u,
        lo,
        n,
        "degrees",
    ) {
        Some(Some(SIUnit::Degree))
    } else {
        None
    }
}

/// Reads the SI prefix and unit of a literal suffix. The scale is returned as
/// the power of ten that the prefix denotes (`k` is 3, `meg` and `M` are 6).
pub fn parse_unit_suffix(suffix: &str) -> (r: Result<(i8, Option<SIUnit>), String>)
    ensures
        match unit_suffix_spec(suffix@) {
            Some((e, u)) => r matches Ok((e2, u2)) && e2 == e && u2 == u,
            None => r matches Err(m) && m@ == "unsupported unit or trailing text '"@ + suffix@
                + "'"@,
        },
{
    let cs = chars_of(suffix);
    let n = cs.len();
    let ghost s = suffix@;
    let (e, lo): (i8, usize) = if n >= 3 && range_eq_str(&cs, 0, 3, "meg") {
        (6, 3)
    } else if n >= 1 && cs[0] == 'T' {
        (12, 1)
    } else if n >= 1 && cs[0] == 'G' {
        (9, 1)
    } else if n >= 1 && cs[0] == 'M' {
        (6, 1)
    } else if n >= 1 && (cs[0] == 'k' || cs[0] == 'K') {
        (3, 1)
    } else if n >= 1 && cs[0] == 'm' {
        (-3, 1)
    } else if n >= 1 && (cs[0] == 'u' || cs[0] == 'µ') {
        (-6, 1)
    } else if n >= 1 && cs[0] == 'n' {
        (-9, 1)
    } else if n >= 1 && cs[0] == 'p' {
        (-12, 1)
    } else {
        (0, 0)
    };
    assert(cs@.subrange(0, 3) =~= s.take(3) || n < 3);
    assert(cs@.skip(0) =~= s);
    assert(e as int == si_prefix(s).0 && cs@.skip(lo as int) =~= si_prefix(s).1);
    match unit_text_exec(&cs, lo) {
        Some(u) => Ok((e, u)),
        None => Err(quoted_message("unsupported unit or trailing text '", &cs, 0, n)),
    }
}

/// The lexical verdict of `parse_value` on a literal: the decimal scale of its
/// prefix and its explicit unit, or the message that rejects it.
pub open spec fn literal_spec(input: Seq<char>) -> Result<(int, Option<SIUnit>), Seq<char>> {
    match number_end(trim(input)) {
        Err(shape) => Err(number_shape_message(shape, trim(input))),
        Ok(k) => match unit_suffix_spec(trim(input).skip(k)) {
            Some(v) => Ok(v),
            None => Err("unsupported unit or trailing text '"@ + trim(input).skip(k) + "'"@),
        },
    }
}

/// Checks the shape of an engineering literal (`10k`, `4.7uF`, `-3e-2V`) and
/// reports its prefix scale and explicit unit.
pub fn check_literal(input: &str) -> (r: Result<(i8, Option<SIUnit>), String>)
    ensures
        match literal_spec(input@) {
            Ok((e, u)) => r matches Ok((e2, u2)) && e2 == e && u2 == u,
            Err(m) => r matches Err(m2) && m2@ == m,
        },
{
    let (_number, suffix) = split_number_and_suffix(input)?;
    parse_unit_suffix(suffix.as_str())
}

/// The measurement families accepted by assertions.
pub open spec fn is_supported_metric(m: Seq<char>) -> bool {
    ||| m == "value"@
    ||| m == "min"@
    ||| m == "max"@
    ||| m == "peak"@
    ||| m == "average"@
    ||| m == "avg"@
    ||| m == "rms"@
    ||| m == "gain"@
    ||| m == "gain_at"@
    ||| m == "lower_cutoff"@
    ||| m == "upper_cutoff"@
    ||| m == "bandwidth"@
    ||| m == "cutoff"@
    ||| m == "frequency"@
    ||| m == "phase"@
    ||| m == "output_power"@
    ||| m == "dissipation"@
    ||| m == "efficiency"@
    ||| m == "thd"@
    ||| m == "clipping"@
    ||| m == "rise_time"@
    ||| m == "fall_time"@
    ||| m == "settling_time"@
    ||| m == "overshoot"@
    ||| m == "energy"@
}

pub fn is_supported_assertion_metric(metric: &str) -> (r: bool)
    ensures
        r == is_supported_metric(metric@),
{
    let m = chars_of(metric);
    eq_str(&m, "value") || eq_str(&m, "min") || eq_str(&m, "max") || eq_str(&m, "peak") || eq_str(
        &m,
        "average",
    ) || eq_str(&m, "avg") || eq_str(&m, "rms") || eq_str(&m, "gain") || eq_str(&m, "gain_at")
        || eq_str(&m, "lower_cutoff") || eq_str(&m, "upper_cutoff") || eq_str(&m, "bandwidth")
        || eq_str(&m, "cutoff") || eq_str(&m, "frequency") || eq_str(&m, "phase") || eq_str(
        &m,
        "output_power",
    ) || eq_str(&m, "dissipation") || eq_str(&m, "efficiency") || eq_str(&m, "thd") || eq_str(
        &m,
        "clipping",
    ) || eq_str(&m, "rise_time") || eq_str(&m, "fall_time") || eq_str(&m, "settling_time")
        || eq_str(&m, "overshoot") || eq_str(&m, "energy")
}

/// Index of the first occurrence of `c`, if any.
pub open spec fn first_index(s: Seq<char>, c: char) -> Option<int> {
    if contains_char(s, c) {
        Some(choose|i: int| 0 <= i < s.len() && s[i] == c && forall|j: int| 0 <= j < i ==> s[j] != c)
    } else {
        None
    }
}

/// Index of the first `c` in `cs[lo..hi]`, relative to `lo`.
pub fn find_char(cs: &Vec<char>, lo: usize, hi: usize, c: char) -> (r: Option<usize>)
    requires
        lo <= hi <= cs.len(),
    ensures
        match r {
            Some(i) => lo + i < hi && cs@[lo + i] == c && forall|j: int|
                lo <= j < lo + i ==> cs@[j] != c,
            None => forall|j: int| lo <= j < hi ==> cs@[j] != c,
        },
        match first_index(cs@.subrange(lo as int, hi as int), c) {
            Some(i) => r == Some(i as usize),
            None => r is None,
        },
{
    let ghost s = cs@.subrange(lo as int, hi as int);
    let mut i: usize = lo;
    while i < hi
        invariant
            lo <= i <= hi <= cs.len(),
            s == cs@.subrange(lo as int, hi as int),
            forall|j: int| lo <= j < i ==> cs@[j] != c,
        decreases hi - i,
    {
        if cs[i] == c {
            proof {
                assert(s[i - lo] == c);
                let k = choose|k: int|
                    0 <= k < s.len() && s[k] == c && forall|j: int| 0 <= j < k ==> s[j] != c;
                assert(s[k] == cs@[lo + k]);
                if k < i - lo {
                    assert(cs@[lo + k] != c);
                }
                if k > i - lo {
                    assert(s[i - lo] != c);
                }
            }
            return Some(i - lo);
        }
        i = i + 1;
    }
    proof {
        assert forall|j: int| 0 <= j < s.len() implies s[j] != c by {
            assert(s[j] == cs@[lo + j]);
        }
    }
    None
}

/// The function name of a measurement primitive (`V(out)` names `V`).
pub open spec fn signal_function(s: Seq<char>) -> Option<Seq<char>> {
    match first_index(s, '(') {
        Some(i) => Some(s.take(i)),
        None => None,
    }
}

/// The quantity that a `V(..)`, `I(..)` or `P(..)` primitive measures.
pub open spec fn signal_unit_spec(s: Seq<char>) -> Option<SIUnit> {
    match signal_function(s) {
        Some(f) => if eq_ignore_case(f, "V"@) {
            Some(SIUnit::Volt)
        } else if eq_ignore_case(f, "I"@) {
            Some(SIUnit::Ampere)
        } else if eq_ignore_case(f, "P"@) {
            Some(SIUnit::Watt)
        } else {
            None
        },
        None => None,
    }
}

pub fn signal_unit(signal: &str) -> (r: Option<SIUnit>)
    ensures
        r == signal_unit_spec(signal@),
{
    let cs = chars_of(signal);
    assert(cs@.subrange(0, cs@.len() as int) =~= cs@);
    let Some(k) = find_char(&cs, 0, cs.len(), '(') else {
        return None;
    };
    let function = string_of(&cs, 0, k);
    assert(function@ =~= signal@.take(k as int));
    if eq_ignore_case_exec(function.as_str(), "V") {
        Some(SIUnit::Volt)
    } else if eq_ignore_case_exec(function.as_str(), "I") {
        Some(SIUnit::Ampere)
    } else if eq_ignore_case_exec(function.as_str(), "P") {
        Some(SIUnit::Watt)
    } else {
        None
    }
}

/// One argument piece: the trimmed text if it is not empty.
pub open spec fn piece(s: Seq<char>, start: int, end: int) -> Seq<Seq<char>> {
    if trim(s.subrange(start, end)).len() > 0 {
        seq![trim(s.subrange(start, end))]
    } else {
        seq![]
    }
}

/// Comma splitting at parenthesis depth zero, from position `i` with the
/// current depth and the start of the pending argument.
pub open spec fn split_walk(s: Seq<char>, i: int, depth: nat, start: int) -> Seq<Seq<char>>
    decreases s.len() - i,
{
    if i >= s.len() || i < 0 {
        piece(s, start, s.len() as int)
    } else if s[i] == '(' {
        split_walk(s, i + 1, depth + 1, start)
    } else if s[i] == ')' {
        split_walk(s, i + 1, if depth > 0 { (depth - 1) as nat } else { 0 }, start)
    } else if s[i] == ',' && depth == 0 {
        piece(s, start, i) + split_walk(s, i + 1, 0, i + 1)
    } else {
        split_walk(s, i + 1, depth, start)
    }
}

/// Top-level comma-separated arguments, trimmed, empty ones dropped.
pub open spec fn split_arguments_spec(s: Seq<char>) -> Seq<Seq<char>> {
    split_walk(s, 0, 0, 0)
}

pub open spec fn views(v: Seq<String>) -> Seq<Seq<char>> {
    v.map_values(|x: String| x@)
}

fn push_piece(out: &mut Vec<String>, cs: &Vec<char>, start: usize, end: usize)
    requires
        start <= end <= cs.len(),
    ensures
        views(final(out)@) == views(old(out)@) + piece(cs@, start as int, end as int),
{
    let (lo, hi) = trim_bounds(cs, start, end);
    if lo < hi {
        out.push(string_of(cs, lo, hi));
        assert(views(final(out)@) =~= views(old(out)@) + piece(cs@, start as int, end as int));
    } else {
        assert(views(final(out)@) =~= views(old(out)@) + piece(cs@, start as int, end as int));
    }
}

/// Splits assertion arguments at top-level commas; nested parentheses, as in
/// `V(a,b)`, stay in one argument.
pub fn split_assertion_arguments(arguments: &str) -> (out: Vec<String>)
    ensures
        views(out@) == split_arguments_spec(arguments@),
{
    let cs = chars_of(arguments);
    let mut out: Vec<String> = Vec::new();
    let mut depth: usize = 0;
    let mut start: usize = 0;
    let mut i: usize = 0;
    while i < cs.len()
        invariant
            cs@ == arguments@,
            start <= i <= cs.len(),
            depth <= i,
            views(out@) + split_walk(cs@, i as int, depth as nat, start as int)
                == split_arguments_spec(arguments@),
        decreases cs.len() - i,
    {
        let c = cs[i];
        if c == '(' {
            depth = depth + 1;
        } else if c == ')' {
            depth = if depth > 0 { depth - 1 } else { 0 };
        } else if c == ',' && depth == 0 {
            let ghost before = views(out@);
            push_piece(&mut out, &cs, start, i);
            assert(before + (piece(cs@, start as int, i as int) + split_walk(
                cs@,
                i + 1,
                0,
                i + 1,
            )) =~= views(out@) + split_walk(cs@, i + 1, 0, i + 1));
            start = i + 1;
        }
        i = i + 1;
    }
    let ghost before = views(out@);
    push_piece(&mut out, &cs, start, cs.len());
    out
}

/// The unit of the numeric argument at `index` of an assertion, if that slot
/// is numeric. For `efficiency` with a time window the window is numeric only
/// when both window arguments are expression slots or time literals.
pub open spec fn numeric_unit_spec(metric: Seq<char>, args: Seq<Seq<char>>, index: int) -> Option<
    SIUnit,
> {
    let count = args.len();
    if (metric == "value"@ || metric == "min"@ || metric == "max"@ || metric == "peak"@ || metric
        == "average"@ || metric == "avg"@ || metric == "rms"@ || metric == "dissipation"@) && count
        == 3 && (index == 1 || index == 2) {
        Some(SIUnit::Second)
    } else if (metric == "gain_at"@ || metric == "lower_cutoff"@ || metric == "upper_cutoff"@
        || metric == "phase"@) && count == 3 && index == 2 {
        Some(SIUnit::Hertz)
    } else if metric == "output_power"@ && count == 4 && (index == 2 || index == 3) {
        Some(SIUnit::Second)
    } else if metric == "efficiency"@ && (count == 6 || count == 8) && index >= count - 2
        && time_window_arg(args[count - 2]) && time_window_arg(args[count - 1]) {
        Some(SIUnit::Second)
    } else if metric == "thd"@ && count == 5 && index == 1 {
        Some(SIUnit::Hertz)
    } else if metric == "thd"@ && count == 5 && (index == 2 || index == 3) {
        Some(SIUnit::Second)
    } else if metric == "clipping"@ && count == 3 && (index == 1 || index == 2) {
        Some(SIUnit::Volt)
    } else if (metric == "rise_time"@ || metric == "fall_time"@ || metric == "settling_time"@
        || metric == "overshoot"@) && count == 5 && (index == 1 || index == 2) {
        Some(SIUnit::Volt)
    } else if (metric == "rise_time"@ || metric == "fall_time"@ || metric == "settling_time"@
        || metric == "overshoot"@) && count == 5 && (index == 3 || index == 4) {
        Some(SIUnit::Second)
    } else if metric == "energy"@ && count == 4 && (index == 2 || index == 3) {
        Some(SIUnit::Second)
    } else {
        None
    }
}

/// An efficiency window argument: an expression slot (`{..}`) or a literal
/// whose explicit unit, if any, is seconds.
pub open spec fn time_window_arg(a: Seq<char>) -> bool {
    (a.len() > 0 && a[0] == '{') || match literal_spec(a) {
        Ok((_, u)) => u is None || u == Some(SIUnit::Second),
        Err(_) => false,
    }
}

fn time_window_arg_exec(a: &String) -> (r: bool)
    ensures
        r == time_window_arg(a@),
{
    let cs = chars_of(a.as_str());
    if cs.len() > 0 && cs[0] == '{' {
        return true;
    }
    match check_literal(a.as_str()) {
        Ok((_, u)) => u.is_none() || u == Some(SIUnit::Second),
        Err(_) => false,
    }
}

pub fn assertion_numeric_unit(metric: &str, arguments: &Vec<String>, index: usize) -> (r: Option<
    SIUnit,
>)
    ensures
        r == numeric_unit_spec(metric@, views(arguments@), index as int),
{
    let ghost args = views(arguments@);
    let m = chars_of(metric);
    let count = arguments.len();
    if (eq_str(&m, "value") || eq_str(&m, "min") || eq_str(&m, "max") || eq_str(&m, "peak")
        || eq_str(&m, "average") || eq_str(&m, "avg") || eq_str(&m, "rms") || eq_str(
        &m,
        "dissipation",
    )) && count == 3 && (index == 1 || index == 2) {
        Some(SIUnit::Second)
    } else if (eq_str(&m, "gain_at") || eq_str(&m, "lower_cutoff") || eq_str(&m, "upper_cutoff")
        || eq_str(&m, "phase")) && count == 3 && index == 2 {
        Some(SIUnit::Hertz)
    } else if eq_str(&m, "output_power") && count == 4 && (index == 2 || index == 3) {
        Some(SIUnit::Second)
    } else if eq_str(&m, "efficiency") && (count == 6 || count == 8) && index >= count - 2
        && time_window_arg_exec(&arguments[count - 2]) && time_window_arg_exec(
        &arguments[count - 1],
    ) {
        Some(SIUnit::Second)
    } else if eq_str(&m, "thd") && count == 5 && index == 1 {
        Some(SIUnit::Hertz)
    } else if eq_str(&m, "thd") && count == 5 && (index == 2 || index == 3) {
        Some(SIUnit::Second)
    } else if eq_str(&m, "clipping") && count == 3 && (index == 1 || index == 2) {
        Some(SIUnit::Volt)
    } else if (eq_str(&m, "rise_time") || eq_str(&m, "fall_time") || eq_str(&m, "settling_time")
        || eq_str(&m, "overshoot")) && count == 5 && (index == 1 || index == 2) {
        Some(SIUnit::Volt)
    } else if (eq_str(&m, "rise_time") || eq_str(&m, "fall_time") || eq_str(&m, "settling_time")
        || eq_str(&m, "overshoot")) && count == 5 && (index == 3 || index == 4) {
        Some(SIUnit::Second)
    } else if eq_str(&m, "energy") && count == 4 && (index == 2 || index == 3) {
        Some(SIUnit::Second)
    } else {
        None
    }
}


/// The built-in model of that name, matched without regard to ASCII case.
pub fn resolve_model(name: &str) -> (r: Option<ModelRef>)
    ensures
        match crate::models::builtin_index(name@) {
            Some(i) => r matches Some(m) && crate::models::is_builtin(m, crate::models::builtin_catalog()[i]),
            None => r is None,
        },
{
    crate::models::builtin_model(name)
}

} // verus!
