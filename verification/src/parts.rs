//! Physical part assignments: the manufactured part, footprint and pad
//! mapping chosen for a circuit component, with the ratings its maker states.
use crate::component::pin_names;
use crate::erc::{join, join_text};
use crate::graph::TopologyComponent;
use crate::ir::{
    opt_view, views, ComponentKind, PartRatingKind, SIUnit, SemanticDiagnostic, PHYSICAL_PART_SCHEMA_VERSION,
};
use crate::models::model_error;
use crate::text::{
    append_str, chars_of, pair_views, find_next, has_control_char, is_alnum_exec, is_ascii_alnum, lemma_next_char,
    lemma_text_lt_total, lemma_text_lt_transitive, lower, nat_text, next_char, owned, string_of, text_is, text_less, text_lt, trim, trim_bounds,
    utf8_len,
};
use vstd::prelude::*;

verus! {

// ---------------------------------------------------------------------------
// Ordering by a text key.

/// `s` with `x` placed before the first entry whose key is larger.
pub open spec fn insert_keyed<T>(s: Seq<(Seq<char>, T)>, x: (Seq<char>, T)) -> Seq<(Seq<char>, T)>
    decreases s.len(),
{
    if s.len() == 0 {
        seq![x]
    } else if text_lt(x.0, s[0].0) {
        seq![x] + s
    } else {
        seq![s[0]] + insert_keyed(s.drop_first(), x)
    }
}

/// The entries of `s` in ascending key order; entries with equal keys keep
/// their order.
pub open spec fn sort_keyed<T>(s: Seq<(Seq<char>, T)>) -> Seq<(Seq<char>, T)>
    decreases s.len(),
{
    if s.len() == 0 {
        seq![]
    } else {
        insert_keyed(sort_keyed(s.drop_last()), s.last())
    }
}

pub proof fn lemma_insert_keyed_split<T>(s: Seq<(Seq<char>, T)>, x: (Seq<char>, T), p: int)
    requires
        0 <= p <= s.len(),
        forall|j: int| 0 <= j < p ==> !text_lt(x.0, #[trigger] s[j].0),
        p < s.len() ==> text_lt(x.0, s[p].0),
    ensures
        insert_keyed(s, x) == s.take(p).push(x) + s.skip(p),
    decreases p,
{
    if p == 0 {
        if s.len() == 0 {
            assert(s.take(0).push(x) + s.skip(0) =~= seq![x]);
        } else {
            assert(s.take(0).push(x) + s.skip(0) =~= seq![x] + s);
        }
    } else {
        let rest = s.drop_first();
        assert(!text_lt(x.0, s[0].0));
        assert forall|j: int| 0 <= j < p - 1 implies !text_lt(x.0, #[trigger] rest[j].0) by {
            assert(rest[j] == s[j + 1]);
        }
        if p < s.len() {
            assert(rest[p - 1] == s[p]);
        }
        lemma_insert_keyed_split(rest, x, p - 1);
        assert(seq![s[0]] + (rest.take(p - 1).push(x) + rest.skip(p - 1)) =~= s.take(p).push(x)
            + s.skip(p));
    }
}

/// Inserts a text pair before the first pair with a larger first text.
fn insert_pair_sorted(v: &mut Vec<(String, String)>, x: (String, String))
    ensures
        pair_views(final(v)@) == insert_keyed(pair_views(old(v)@), (x.0@, x.1@)),
{
    let ghost s = pair_views(v@);
    let mut p: usize = 0;
    while p < v.len() && !text_less(x.0.as_str(), v[p].0.as_str())
        invariant
            p <= v.len(),
            s == pair_views(v@),
            forall|j: int| 0 <= j < p ==> !text_lt(x.0@, #[trigger] s[j].0),
        decreases v.len() - p,
    {
        p = p + 1;
    }
    proof {
        lemma_insert_keyed_split(s, (x.0@, x.1@), p as int);
    }
    v.insert(p, x);
    assert(pair_views(v@) =~= s.take(p as int).push((x.0@, x.1@)) + s.skip(p as int));
}

fn copy_pair(p: &(String, String)) -> (r: (String, String))
    ensures
        r.0@ == p.0@,
        r.1@ == p.1@,
{
    (owned(p.0.as_str()), owned(p.1.as_str()))
}

/// The pairs in ascending order of their first text.
fn sorted_pairs(v: &Vec<(String, String)>) -> (r: Vec<(String, String)>)
    ensures
        pair_views(r@) == sort_keyed(pair_views(v@)),
{
    let mut out: Vec<(String, String)> = Vec::new();
    let mut i: usize = 0;
    while i < v.len()
        invariant
            i <= v.len(),
            pair_views(out@) == sort_keyed(pair_views(v@).take(i as int)),
        decreases v.len() - i,
    {
        let ghost before = pair_views(v@).take(i as int);
        insert_pair_sorted(&mut out, copy_pair(&v[i]));
        proof {
            let after = pair_views(v@).take(i + 1);
            assert(after.drop_last() =~= before);
            assert(after.last() == pair_views(v@)[i as int]);
        }
        i = i + 1;
    }
    assert(pair_views(v@).take(v.len() as int) =~= pair_views(v@));
    out
}

// ---------------------------------------------------------------------------
// Pad mappings.

/// A logical pin and the physical pad it lands on.
pub type PinPair = (Seq<char>, Seq<char>);

/// A character a physical pad name may use.
pub open spec fn pad_char(c: char) -> bool {
    is_ascii_alnum(c) || c == '_' || c == '-' || c == '.'
}

pub open spec fn pad_ok(p: Seq<char>) -> bool {
    p.len() > 0 && forall|i: int| 0 <= i < p.len() ==> pad_char(#[trigger] p[i])
}

pub open spec fn has_key(acc: Seq<PinPair>, k: Seq<char>) -> bool {
    exists|i: int| 0 <= i < acc.len() && (#[trigger] acc[i]).0 == k
}

pub open spec fn has_value(acc: Seq<PinPair>, p: Seq<char>) -> bool {
    exists|i: int| 0 <= i < acc.len() && (#[trigger] acc[i]).1 == p
}

/// Why a pad mapping is refused.
pub enum PinMapFailure {
    /// An entry without `:`.
    Entry(Seq<char>),
    /// A logical pin the component does not have.
    Unknown(Seq<char>),
    /// A pad name with a character outside letters, digits, `_`, `-`, `.`.
    Pad(Seq<char>),
    LogicalTwice(Seq<char>),
    PadTwice(Seq<char>),
    /// The pins left without a pad, in catalog order.
    Missing(Seq<Seq<char>>),
}

/// One `logical:pad` entry added to the pairs read so far.
pub open spec fn pin_entry_step(expected: Seq<Seq<char>>, acc: Seq<PinPair>, entry: Seq<char>) -> Result<
    Seq<PinPair>,
    PinMapFailure,
> {
    let t = trim(entry);
    let k = next_char(t, ':', 0);
    if k >= t.len() {
        Err(PinMapFailure::Entry(entry))
    } else {
        let logical = trim(t.subrange(0, k));
        let pad = trim(t.subrange(k + 1, t.len() as int));
        if !expected.contains(logical) {
            Err(PinMapFailure::Unknown(logical))
        } else if !pad_ok(pad) {
            Err(PinMapFailure::Pad(pad))
        } else if has_key(acc, logical) {
            Err(PinMapFailure::LogicalTwice(logical))
        } else if has_value(acc, pad) {
            Err(PinMapFailure::PadTwice(pad))
        } else {
            Ok(acc.push((logical, pad)))
        }
    }
}

/// The comma-separated entries of `s[start..]` read in order onto `acc`.
pub open spec fn pin_entries_from(
    expected: Seq<Seq<char>>,
    s: Seq<char>,
    start: int,
    acc: Seq<PinPair>,
) -> Result<Seq<PinPair>, PinMapFailure>
    decreases s.len() - start,
{
    if start < 0 || start > s.len() {
        Ok(acc)
    } else {
        let k = next_char(s, ',', start);
        proof {
            lemma_next_char(s, ',', start);
        }
        match pin_entry_step(expected, acc, s.subrange(start, k)) {
            Err(f) => Err(f),
            Ok(next) => if k >= s.len() {
                Ok(next)
            } else {
                pin_entries_from(expected, s, k + 1, next)
            },
        }
    }
}

/// The expected pins, in order, that no pair maps.
pub open spec fn missing_pins(expected: Seq<Seq<char>>, acc: Seq<PinPair>) -> Seq<Seq<char>>
    decreases expected.len(),
{
    if expected.len() == 0 {
        seq![]
    } else {
        let rest = missing_pins(expected.drop_last(), acc);
        if has_key(acc, expected.last()) {
            rest
        } else {
            rest.push(expected.last())
        }
    }
}

/// A `logical:pad, ...` mapping read against the component's pins: every
/// pin mapped once, to pads that are all distinct; the pairs in ascending
/// order of the logical pin.
pub open spec fn pin_map_spec(expected: Seq<Seq<char>>, input: Seq<char>) -> Result<Seq<PinPair>, PinMapFailure> {
    match pin_entries_from(expected, input, 0, seq![]) {
        Err(f) => Err(f),
        Ok(acc) => {
            let missing = missing_pins(expected, acc);
            if missing.len() > 0 {
                Err(PinMapFailure::Missing(missing))
            } else {
                Ok(sort_keyed(acc))
            }
        },
    }
}

pub open spec fn pin_map_message(expected: Seq<Seq<char>>, f: PinMapFailure) -> Seq<char> {
    match f {
        PinMapFailure::Entry(e) => "invalid pin_map entry '"@ + e + "'; expected logical_pin:physical_pad"@,
        PinMapFailure::Unknown(l) => "pin_map names unknown logical pin '"@ + l + "'; expected "@ + join(
            expected,
            ", "@,
        ),
        PinMapFailure::Pad(p) => "physical pad '"@ + p + "' must use letters, digits, '_', '-' or '.'"@,
        PinMapFailure::LogicalTwice(l) => "logical pin '"@ + l + "' is mapped more than once"@,
        PinMapFailure::PadTwice(p) => "physical pad '"@ + p + "' is assigned more than once"@,
        PinMapFailure::Missing(m) => "pin_map is incomplete; add mappings for "@ + join(m, ", "@),
    }
}

fn contains_text(v: &Vec<String>, s: &String) -> (r: bool)
    ensures
        r == views(v@).contains(s@),
{
    let mut i: usize = 0;
    while i < v.len()
        invariant
            i <= v.len(),
            forall|j: int| 0 <= j < i ==> views(v@)[j] != s@,
        decreases v.len() - i,
    {
        if text_is(v[i].as_str(), s.as_str()) {
            assert(views(v@)[i as int] == s@);
            return true;
        }
        i = i + 1;
    }
    false
}

fn pad_is_valid(cs: &Vec<char>, lo: usize, hi: usize) -> (r: bool)
    requires
        lo <= hi <= cs.len(),
    ensures
        r == pad_ok(cs@.subrange(lo as int, hi as int)),
{
    let ghost p = cs@.subrange(lo as int, hi as int);
    if lo == hi {
        return false;
    }
    let mut i: usize = lo;
    while i < hi
        invariant
            lo <= i <= hi <= cs.len(),
            p == cs@.subrange(lo as int, hi as int),
            forall|j: int| 0 <= j < i - lo ==> pad_char(#[trigger] p[j]),
        decreases hi - i,
    {
        let c = cs[i];
        if !(is_alnum_exec(c) || c == '_' || c == '-' || c == '.') {
            assert(!pad_char(p[i - lo]));
            return false;
        }
        i = i + 1;
    }
    true
}

/// Whether some pair has `k` as its logical pin (`first`) or its pad.
fn pairs_have(acc: &Vec<(String, String)>, k: &String, first: bool) -> (r: bool)
    ensures
        first ==> r == has_key(pair_views(acc@), k@),
        !first ==> r == has_value(pair_views(acc@), k@),
{
    let ghost s = pair_views(acc@);
    let mut i: usize = 0;
    while i < acc.len()
        invariant
            i <= acc.len(),
            s == pair_views(acc@),
            first ==> forall|j: int| 0 <= j < i ==> (#[trigger] s[j]).0 != k@,
            !first ==> forall|j: int| 0 <= j < i ==> (#[trigger] s[j]).1 != k@,
        decreases acc.len() - i,
    {
        let hit = if first {
            text_is(acc[i].0.as_str(), k.as_str())
        } else {
            text_is(acc[i].1.as_str(), k.as_str())
        };
        if hit {
            assert(s[i as int] == (acc@[i as int].0@, acc@[i as int].1@));
            return true;
        }
        assert(s[i as int] == (acc@[i as int].0@, acc@[i as int].1@));
        i = i + 1;
    }
    false
}

fn quoted(before: &str, middle: &str, after: &str) -> (m: String)
    ensures
        m@ == before@ + middle@ + after@,
{
    let mut m = owned(before);
    append_str(&mut m, middle);
    append_str(&mut m, after);
    m
}

/// Reads the entry `cs[start..end]` onto `acc`; on refusal, the message.
fn pin_entry(expected: &Vec<String>, acc: &mut Vec<(String, String)>, cs: &Vec<char>, start: usize, end: usize) -> (r:
    Result<(), String>)
    requires
        start <= end <= cs.len(),
    ensures
        match pin_entry_step(views(expected@), pair_views(old(acc)@), cs@.subrange(start as int, end as int)) {
            Ok(next) => r is Ok && pair_views(final(acc)@) == next,
            Err(f) => r matches Err(m) && m@ == pin_map_message(views(expected@), f),
        },
{
    let ghost entry = cs@.subrange(start as int, end as int);
    let (lo, hi) = trim_bounds(cs, start, end);
    let text = string_of(cs, lo, hi);
    let t = chars_of(text.as_str());
    assert(t@ == trim(entry));
    let k = find_next(&t, ':', 0);
    proof {
        lemma_next_char(t@, ':', 0);
    }
    if k >= t.len() {
        let e = string_of(cs, start, end);
        return Err(quoted("invalid pin_map entry '", e.as_str(), "'; expected logical_pin:physical_pad"));
    }
    let (a, b) = trim_bounds(&t, 0, k);
    let logical = string_of(&t, a, b);
    let (c, d) = trim_bounds(&t, k + 1, t.len());
    let pad = string_of(&t, c, d);
    if !contains_text(expected, &logical) {
        let mut m = quoted("pin_map names unknown logical pin '", logical.as_str(), "'; expected ");
        let list = join_text(expected, ", ");
        append_str(&mut m, list.as_str());
        return Err(m);
    }
    if !pad_is_valid(&t, c, d) {
        return Err(quoted("physical pad '", pad.as_str(), "' must use letters, digits, '_', '-' or '.'"));
    }
    if pairs_have(acc, &logical, true) {
        return Err(quoted("logical pin '", logical.as_str(), "' is mapped more than once"));
    }
    if pairs_have(acc, &pad, false) {
        return Err(quoted("physical pad '", pad.as_str(), "' is assigned more than once"));
    }
    let ghost before = pair_views(acc@);
    acc.push((logical, pad));
    assert(pair_views(acc@) =~= before.push((logical@, pad@)));
    Ok(())
}

/// Reads a `logical:pad, ...` mapping for a component of `kind`.
pub fn parse_physical_pin_map(component_id: &str, input: &str, kind: &ComponentKind) -> (r: Result<
    Vec<(String, String)>,
    SemanticDiagnostic,
>)
    ensures
        match pin_map_spec(pin_names(*kind), input@) {
            Ok(m) => r matches Ok(v) && pair_views(v@) == m,
            Err(f) => r matches Err(d) && model_error(
                d,
                "KES-C024"@,
                pin_map_message(pin_names(*kind), f),
                Some(component_id@),
                "pin_map"@,
            ),
        },
{
    let cs = chars_of(input);
    let expected = crate::models::catalog_pin_names(kind);
    let ghost ex = views(expected@);
    let mut acc: Vec<(String, String)> = Vec::new();
    let mut start: usize = 0;
    assert(pair_views(acc@) =~= Seq::<PinPair>::empty());
    loop
        invariant_except_break
            pin_entries_from(ex, cs@, 0, seq![]) == pin_entries_from(ex, cs@, start as int, pair_views(acc@)),
        invariant
            start <= cs.len(),
            cs@ == input@,
            ex == views(expected@),
            ex == pin_names(*kind),
        ensures
            cs@ == input@,
            ex == views(expected@),
            ex == pin_names(*kind),
            pin_entries_from(ex, cs@, 0, seq![]) == Ok::<Seq<PinPair>, PinMapFailure>(pair_views(acc@)),
        decreases cs.len() - start,
    {
        let k = find_next(&cs, ',', start);
        proof {
            lemma_next_char(cs@, ',', start as int);
        }
        let ghost before = pair_views(acc@);
        match pin_entry(&expected, &mut acc, &cs, start, k) {
            Err(m) => {
                return Err(crate::ir::semantic_error("KES-C024", m, Some(component_id), Some("pin_map")));
            },
            Ok(()) => {},
        }
        if k >= cs.len() {
            break;
        }
        start = k + 1;
    }
    let ghost acc_v = pair_views(acc@);
    let mut missing: Vec<String> = Vec::new();
    let mut i: usize = 0;
    while i < expected.len()
        invariant
            i <= expected.len(),
            ex == views(expected@),
            acc_v == pair_views(acc@),
            views(missing@) == missing_pins(ex.take(i as int), acc_v),
        decreases expected.len() - i,
    {
        let present = pairs_have(&acc, &expected[i], true);
        proof {
            assert(ex.take(i + 1).drop_last() =~= ex.take(i as int));
            assert(ex.take(i + 1).last() == expected@[i as int]@);
        }
        if !present {
            missing.push(owned(expected[i].as_str()));
            assert(views(missing@) =~= missing_pins(ex.take(i as int), acc_v).push(expected@[i as int]@));
        }
        i = i + 1;
    }
    assert(ex.take(expected.len() as int) =~= ex);
    if missing.len() > 0 {
        let mut m = owned("pin_map is incomplete; add mappings for ");
        let list = join_text(&missing, ", ");
        append_str(&mut m, list.as_str());
        return Err(crate::ir::semantic_error("KES-C024", m, Some(component_id), Some("pin_map")));
    }
    Ok(sorted_pairs(&acc))
}


// ---------------------------------------------------------------------------
// Part assignments.

/// One `name = value` field of a part assignment.
#[derive(Debug, Clone)]
pub struct PartField {
    pub name: String,
    pub value: String,
}

/// A `part` statement: the component it is for, its fields and where it
/// stands in the source.
#[derive(Debug, Clone)]
pub struct PartAssignmentDecl {
    pub component: String,
    pub fields: Vec<PartField>,
    pub line: usize,
    pub column: usize,
}

/// How a stated rating limit reads as a quantity of its unit: accepted, not
/// readable (with the reason), or not a finite value above zero.
#[derive(Debug, Clone)]
pub enum LimitReading {
    Accepted,
    Unreadable(String),
    NotPositive,
}

/// The readings of an assignment's three rating limits; a reading is only
/// consulted where the limit is stated.
#[derive(Debug, Clone)]
pub struct LimitReadings {
    pub peak_voltage: LimitReading,
    pub peak_current: LimitReading,
    pub average_dissipation: LimitReading,
}

/// A rating stated by the part maker; `limit` is the limit as written.
#[derive(Debug, Clone)]
pub struct ProvidedPartRating {
    pub kind: PartRatingKind,
    pub limit: String,
    pub conditions: String,
    pub source: Option<String>,
}

/// The physical part chosen for a component.
#[derive(Debug, Clone)]
pub struct PhysicalPartAssignment {
    pub component: String,
    pub manufacturer: Option<String>,
    pub mpn: Option<String>,
    pub footprint: Option<String>,
    /// Logical pin to pad, in ascending order of the pin.
    pub pin_map: Vec<(String, String)>,
    pub note: Option<String>,
    pub ratings: Vec<ProvidedPartRating>,
}

#[derive(Debug, Clone)]
pub struct PhysicalPartManifest {
    pub schema_version: String,
    /// In ascending order of component.
    pub assignments: Vec<PhysicalPartAssignment>,
}

pub type FieldPair = (Seq<char>, Seq<char>);

/// Component, fields, line and column of a part statement.
pub type DeclView = (Seq<char>, Seq<FieldPair>, nat, nat);

pub open spec fn field_views(v: Seq<PartField>) -> Seq<FieldPair> {
    v.map_values(|f: PartField| (f.name@, f.value@))
}

pub open spec fn decl_view(d: PartAssignmentDecl) -> DeclView {
    (d.component@, field_views(d.fields@), d.line as nat, d.column as nat)
}

pub open spec fn decl_views(v: Seq<PartAssignmentDecl>) -> Seq<DeclView> {
    v.map_values(|d: PartAssignmentDecl| decl_view(d))
}

pub open spec fn comp_entries(v: Seq<TopologyComponent>) -> Seq<(Seq<char>, ComponentKind)> {
    v.map_values(|c: TopologyComponent| (c.id@, c.kind))
}

/// Kind, limit, conditions and source of a rating.
pub type RatingView = (PartRatingKind, Seq<char>, Seq<char>, Option<Seq<char>>);

/// Component, then manufacturer, part number, footprint, pad mapping, note
/// and ratings.
pub type AssignmentView = (
    Seq<char>,
    (Option<Seq<char>>, Option<Seq<char>>, Option<Seq<char>>, Seq<PinPair>, Option<Seq<char>>, Seq<RatingView>),
);

pub open spec fn rating_view(r: ProvidedPartRating) -> RatingView {
    (r.kind, r.limit@, r.conditions@, opt_view(r.source))
}

pub open spec fn assignment_view(a: PhysicalPartAssignment) -> AssignmentView {
    (
        a.component@,
        (
            opt_view(a.manufacturer),
            opt_view(a.mpn),
            opt_view(a.footprint),
            pair_views(a.pin_map@),
            opt_view(a.note),
            a.ratings@.map_values(|x: ProvidedPartRating| rating_view(x)),
        ),
    )
}

pub open spec fn assignment_views(v: Seq<PhysicalPartAssignment>) -> Seq<AssignmentView> {
    v.map_values(|a: PhysicalPartAssignment| assignment_view(a))
}

/// A refusal: message and the field it points at.
pub type PartFailure = (Seq<char>, Seq<char>);

pub open spec fn allowed_field(k: Seq<char>) -> bool {
    ||| k == "manufacturer"@
    ||| k == "mpn"@
    ||| k == "footprint"@
    ||| k == "pin_map"@
    ||| k == "note"@
    ||| k == "peak_voltage_limit"@
    ||| k == "peak_voltage_conditions"@
    ||| k == "peak_current_limit"@
    ||| k == "peak_current_conditions"@
    ||| k == "average_dissipation_limit"@
    ||| k == "average_dissipation_conditions"@
    ||| k == "rating_source"@
}

/// The fields under their lower-cased names, in the order written; only
/// known names, each once.
pub open spec fn field_table(fields: Seq<FieldPair>) -> Result<Seq<FieldPair>, PartFailure>
    decreases fields.len(),
{
    if fields.len() == 0 {
        Ok(seq![])
    } else {
        match field_table(fields.drop_last()) {
            Err(e) => Err(e),
            Ok(t) => {
                let f = fields.last();
                let key = lower(f.0);
                if !allowed_field(key) {
                    Err(
                        (
                            "unknown physical-part field '"@ + f.0
                                + "'; use identity/footprint fields or an explicit provided rating"@,
                            f.0,
                        ),
                    )
                } else if has_key(t, key) {
                    Err(("duplicate physical-part field '"@ + f.0 + "'"@, f.0))
                } else {
                    Ok(t.push((key, f.1)))
                }
            },
        }
    }
}

pub open spec fn ends_with(s: Seq<char>, p: Seq<char>) -> bool {
    p.len() <= s.len() && s.skip(s.len() - p.len()) == p
}

/// The longest a field's value may be, in bytes.
pub open spec fn field_limit(k: Seq<char>) -> nat {
    if k == "note"@ || k == "rating_source"@ {
        1024
    } else if ends_with(k, "_conditions"@) {
        512
    } else {
        256
    }
}

pub open spec fn field_bad(f: FieldPair) -> bool {
    trim(f.1).len() == 0 || utf8_len(f.1) > field_limit(f.0) || has_control_char(f.1)
}

/// The first field at or after `i` whose value is blank, too long or holds
/// a control character.
pub open spec fn first_bad_field(t: Seq<FieldPair>, i: int) -> Option<FieldPair>
    decreases t.len() - i,
{
    if i < 0 || i >= t.len() {
        None
    } else if field_bad(t[i]) {
        Some(t[i])
    } else {
        first_bad_field(t, i + 1)
    }
}

/// The value under `key`.
pub open spec fn lookup(t: Seq<FieldPair>, key: Seq<char>) -> Option<Seq<char>>
    decreases t.len(),
{
    if t.len() == 0 {
        None
    } else if t[0].0 == key {
        Some(t[0].1)
    } else {
        lookup(t.drop_first(), key)
    }
}

pub open spec fn rating_kinds() -> Seq<PartRatingKind> {
    seq![PartRatingKind::PeakVoltage, PartRatingKind::PeakCurrent, PartRatingKind::AverageDissipation]
}

pub open spec fn limit_field(kind: PartRatingKind) -> Seq<char> {
    match kind {
        PartRatingKind::PeakVoltage => "peak_voltage_limit"@,
        PartRatingKind::PeakCurrent => "peak_current_limit"@,
        PartRatingKind::AverageDissipation => "average_dissipation_limit"@,
    }
}

pub open spec fn conditions_field(kind: PartRatingKind) -> Seq<char> {
    match kind {
        PartRatingKind::PeakVoltage => "peak_voltage_conditions"@,
        PartRatingKind::PeakCurrent => "peak_current_conditions"@,
        PartRatingKind::AverageDissipation => "average_dissipation_conditions"@,
    }
}

pub open spec fn reading_for(r: LimitReadings, kind: PartRatingKind) -> LimitReading {
    match kind {
        PartRatingKind::PeakVoltage => r.peak_voltage,
        PartRatingKind::PeakCurrent => r.peak_current,
        PartRatingKind::AverageDissipation => r.average_dissipation,
    }
}

/// The refusal message a reading gives for the limit field, if any.
pub open spec fn reading_failure(r: LimitReading, field: Seq<char>) -> Option<Seq<char>> {
    match r {
        LimitReading::Accepted => None,
        LimitReading::Unreadable(m) => Some("invalid "@ + field + ": "@ + m@),
        LimitReading::NotPositive => Some(field + " must be finite and greater than zero"@),
    }
}

/// A rating of `kind` added where its limit and conditions are both stated.
pub open spec fn rating_step(
    t: Seq<FieldPair>,
    rs: LimitReadings,
    source: Option<Seq<char>>,
    acc: Seq<RatingView>,
    kind: PartRatingKind,
) -> Result<Seq<RatingView>, PartFailure> {
    let lf = limit_field(kind);
    let cf = conditions_field(kind);
    match (lookup(t, lf), lookup(t, cf)) {
        (Some(l), Some(c)) => match reading_failure(reading_for(rs, kind), lf) {
            Some(m) => Err((m, lf)),
            None => Ok(acc.push((kind, l, c, source))),
        },
        (Some(_), None) => Err((lf + " requires "@ + cf, cf)),
        (None, Some(_)) => Err((cf + " requires "@ + lf, lf)),
        (None, None) => Ok(acc),
    }
}

/// The ratings of the first `n` kinds.
pub open spec fn ratings_upto(t: Seq<FieldPair>, rs: LimitReadings, source: Option<Seq<char>>, n: int) -> Result<
    Seq<RatingView>,
    PartFailure,
>
    decreases n,
{
    if n <= 0 {
        Ok(seq![])
    } else {
        match ratings_upto(t, rs, source, n - 1) {
            Err(e) => Err(e),
            Ok(acc) => rating_step(t, rs, source, acc, rating_kinds()[n - 1]),
        }
    }
}

/// The position of the first statement at or after `i` for component `c`, or -1.
pub open spec fn first_decl_for(prior: Seq<DeclView>, c: Seq<char>, i: int) -> int
    decreases prior.len() - i,
{
    if i < 0 || i >= prior.len() {
        -1
    } else if prior[i].0 == c {
        i
    } else {
        first_decl_for(prior, c, i + 1)
    }
}

/// The kind of the first component named `c`.
pub open spec fn find_component(comps: Seq<(Seq<char>, ComponentKind)>, c: Seq<char>) -> Option<ComponentKind>
    decreases comps.len(),
{
    if comps.len() == 0 {
        None
    } else if comps[0].0 == c {
        Some(comps[0].1)
    } else {
        find_component(comps.drop_first(), c)
    }
}

/// The pad mapping of an assignment, read where a footprint is given.
pub open spec fn decl_pin_map(t: Seq<FieldPair>, kind: ComponentKind) -> Result<Seq<PinPair>, PartFailure> {
    match lookup(t, "pin_map"@) {
        None => Ok(seq![]),
        Some(m) => if lookup(t, "footprint"@) is None {
            Err(("pin_map requires an explicit footprint"@, "pin_map"@))
        } else {
            match pin_map_spec(pin_names(kind), m) {
                Ok(p) => Ok(p),
                Err(f) => Err((pin_map_message(pin_names(kind), f), "pin_map"@)),
            }
        },
    }
}

/// An assignment's fields checked and turned into the assignment.
pub open spec fn decl_body(c: Seq<char>, kind: ComponentKind, fields: Seq<FieldPair>, rs: LimitReadings) -> Result<
    AssignmentView,
    PartFailure,
> {
    match field_table(fields) {
        Err(e) => Err(e),
        Ok(t) => match first_bad_field(sort_keyed(t), 0) {
            Some(b) => Err(
                (
                    "physical-part field '"@ + b.0 + "' must be non-empty, control-free and at most "@
                        + nat_text(field_limit(b.0)) + " bytes"@,
                    b.0,
                ),
            ),
            None => match decl_pin_map(t, kind) {
                Err(e) => Err(e),
                Ok(p) => {
                    let source = lookup(t, "rating_source"@);
                    match ratings_upto(t, rs, source, 3) {
                        Err(e) => Err(e),
                        Ok(r) => if source is Some && r.len() == 0 {
                            Err(("rating_source requires at least one provided rating limit"@, "rating_source"@))
                        } else {
                            Ok(
                                (
                                    c,
                                    (
                                        lookup(t, "manufacturer"@),
                                        lookup(t, "mpn"@),
                                        lookup(t, "footprint"@),
                                        p,
                                        lookup(t, "note"@),
                                        r,
                                    ),
                                ),
                            )
                        },
                    }
                },
            },
        },
    }
}

/// One part statement, after the statements `prior`, against the circuit's
/// components.
pub open spec fn compile_decl(
    prior: Seq<DeclView>,
    comps: Seq<(Seq<char>, ComponentKind)>,
    d: DeclView,
    rs: LimitReadings,
) -> Result<AssignmentView, PartFailure> {
    let c = d.0;
    let j = first_decl_for(prior, c, 0);
    if j >= 0 {
        Err(
            (
                "physical part for '"@ + c + "' is assigned more than once (first assignment at "@ + nat_text(
                    prior[j].2,
                ) + ":"@ + nat_text(prior[j].3) + ")"@,
                "part"@,
            ),
        )
    } else {
        match find_component(comps, c) {
            None => Err(("physical part target '"@ + c + "' is not a declared component"@, "part"@)),
            Some(kind) => if kind == ComponentKind::ModulePort {
                Err(("module interfaces are virtual and cannot receive a physical part"@, "part"@))
            } else if kind == ComponentKind::VoltageSource || kind == ComponentKind::CurrentSource {
                Err(
                    (
                        "independent simulation sources are abstract stimuli and cannot receive a physical part"@,
                        "part"@,
                    ),
                )
            } else {
                decl_body(c, kind, d.1, rs)
            },
        }
    }
}

/// A refused statement: its component, the message and the field.
pub type PartError = (Seq<char>, Seq<char>, Seq<char>);

/// The assignments of the first `n` statements, in statement order.
pub open spec fn parts_upto(
    decls: Seq<DeclView>,
    comps: Seq<(Seq<char>, ComponentKind)>,
    rs: Seq<LimitReadings>,
    n: int,
) -> Result<Seq<AssignmentView>, PartError>
    decreases n,
{
    if n <= 0 {
        Ok(seq![])
    } else {
        match parts_upto(decls, comps, rs, n - 1) {
            Err(e) => Err(e),
            Ok(acc) => match compile_decl(decls.take(n - 1), comps, decls[n - 1], rs[n - 1]) {
                Err(f) => Err((decls[n - 1].0, f.0, f.1)),
                Ok(a) => Ok(acc.push(a)),
            },
        }
    }
}

/// Every statement compiled in turn, the first refusal stopping the rest;
/// the assignments in ascending order of component.
pub open spec fn physical_parts_spec(
    decls: Seq<DeclView>,
    comps: Seq<(Seq<char>, ComponentKind)>,
    rs: Seq<LimitReadings>,
) -> Result<Seq<AssignmentView>, PartError> {
    match parts_upto(decls, comps, rs, decls.len() as int) {
        Err(e) => Err(e),
        Ok(a) => Ok(sort_keyed(a)),
    }
}


// ---------------------------------------------------------------------------
// Compiling part statements.

fn is_allowed_field(k: &str) -> (r: bool)
    ensures
        r == allowed_field(k@),
{
    text_is(k, "manufacturer") || text_is(k, "mpn") || text_is(k, "footprint") || text_is(k, "pin_map")
        || text_is(k, "note") || text_is(k, "peak_voltage_limit") || text_is(k, "peak_voltage_conditions")
        || text_is(k, "peak_current_limit") || text_is(k, "peak_current_conditions") || text_is(
        k,
        "average_dissipation_limit",
    ) || text_is(k, "average_dissipation_conditions") || text_is(k, "rating_source")
}

proof fn lemma_field_table_stops(f: Seq<FieldPair>, n: int)
    requires
        0 <= n <= f.len(),
        field_table(f.take(n)) is Err,
    ensures
        field_table(f) == field_table(f.take(n)),
    decreases f.len() - n,
{
    if n == f.len() {
        assert(f.take(n) =~= f);
    } else {
        assert(f.take(n + 1).drop_last() =~= f.take(n));
        lemma_field_table_stops(f, n + 1);
    }
}

/// The fields under their lower-cased names; on refusal, message and field.
fn build_field_table(fields: &Vec<PartField>) -> (r: Result<Vec<(String, String)>, (String, String)>)
    ensures
        match field_table(field_views(fields@)) {
            Ok(t) => r matches Ok(v) && pair_views(v@) == t,
            Err(e) => r matches Err(x) && x.0@ == e.0 && x.1@ == e.1,
        },
{
    let ghost fv = field_views(fields@);
    let mut t: Vec<(String, String)> = Vec::new();
    let mut i: usize = 0;
    assert(fv.take(0) =~= Seq::<FieldPair>::empty());
    assert(pair_views(t@) =~= Seq::<FieldPair>::empty());
    while i < fields.len()
        invariant
            i <= fields.len(),
            fv == field_views(fields@),
            field_table(fv.take(i as int)) == Ok::<Seq<FieldPair>, PartFailure>(pair_views(t@)),
        decreases fields.len() - i,
    {
        proof {
            assert(fv.take(i + 1).drop_last() =~= fv.take(i as int));
            assert(fv.take(i + 1).last() == (fields@[i as int].name@, fields@[i as int].value@));
        }
        let name = fields[i].name.as_str();
        let key = crate::text::to_lower(name);
        if !is_allowed_field(key.as_str()) {
            proof {
                lemma_field_table_stops(fv, i + 1);
            }
            return Err(
                (
                    quoted(
                        "unknown physical-part field '",
                        name,
                        "'; use identity/footprint fields or an explicit provided rating",
                    ),
                    owned(name),
                ),
            );
        }
        if pairs_have(&t, &key, true) {
            proof {
                lemma_field_table_stops(fv, i + 1);
            }
            return Err((quoted("duplicate physical-part field '", name, "'"), owned(name)));
        }
        let ghost before = pair_views(t@);
        let value = owned(fields[i].value.as_str());
        t.push((key, value));
        assert(pair_views(t@) =~= before.push((key@, value@)));
        i = i + 1;
    }
    assert(fv.take(fields.len() as int) =~= fv);
    Ok(t)
}

fn ends_with_exec(s: &str, p: &str) -> (r: bool)
    ensures
        r == ends_with(s@, p@),
{
    let a = chars_of(s);
    let b = chars_of(p);
    if b.len() > a.len() {
        return false;
    }
    let off = a.len() - b.len();
    let mut i: usize = 0;
    while i < b.len()
        invariant
            i <= b.len(),
            off + b.len() == a.len(),
            a@ == s@,
            b@ == p@,
            forall|j: int| 0 <= j < i ==> a@[off + j] == b@[j],
        decreases b.len() - i,
    {
        if a[off + i] != b[i] {
            assert(a@.skip(off as int)[i as int] != b@[i as int]);
            return false;
        }
        i = i + 1;
    }
    assert(a@.skip(off as int) =~= b@);
    true
}

fn field_limit_exec(k: &str) -> (n: usize)
    ensures
        n == field_limit(k@),
{
    if text_is(k, "note") || text_is(k, "rating_source") {
        1024
    } else if ends_with_exec(k, "_conditions") {
        512
    } else {
        256
    }
}

fn field_is_bad(key: &String, value: &String) -> (r: bool)
    ensures
        r == field_bad((key@, value@)),
{
    let limit = field_limit_exec(key.as_str());
    let cs = chars_of(value.as_str());
    let (lo, hi) = trim_bounds(&cs, 0, cs.len());
    assert(cs@.subrange(0, cs@.len() as int) =~= cs@);
    if lo == hi {
        return true;
    }
    let n = crate::text::byte_len_capped(&cs, limit);
    if n > limit {
        return true;
    }
    crate::text::has_control_exec(value.as_str())
}

/// The value under `key`.
fn lookup_field(t: &Vec<(String, String)>, key: &str) -> (r: Option<String>)
    ensures
        opt_view(r) == lookup(pair_views(t@), key@),
{
    let ghost tv = pair_views(t@);
    let mut i: usize = 0;
    assert(tv.skip(0) =~= tv);
    while i < t.len()
        invariant
            i <= t.len(),
            tv == pair_views(t@),
            lookup(tv, key@) == lookup(tv.skip(i as int), key@),
        decreases t.len() - i,
    {
        assert(tv.skip(i as int)[0] == (t@[i as int].0@, t@[i as int].1@));
        assert(tv.skip(i as int).drop_first() =~= tv.skip(i + 1));
        if text_is(t[i].0.as_str(), key) {
            return Some(owned(t[i].1.as_str()));
        }
        i = i + 1;
    }
    assert(tv.skip(i as int) =~= Seq::<FieldPair>::empty());
    None
}

fn limit_field_exec(kind: PartRatingKind) -> (s: &'static str)
    ensures
        s@ == limit_field(kind),
{
    match kind {
        PartRatingKind::PeakVoltage => "peak_voltage_limit",
        PartRatingKind::PeakCurrent => "peak_current_limit",
        PartRatingKind::AverageDissipation => "average_dissipation_limit",
    }
}

fn conditions_field_exec(kind: PartRatingKind) -> (s: &'static str)
    ensures
        s@ == conditions_field(kind),
{
    match kind {
        PartRatingKind::PeakVoltage => "peak_voltage_conditions",
        PartRatingKind::PeakCurrent => "peak_current_conditions",
        PartRatingKind::AverageDissipation => "average_dissipation_conditions",
    }
}

fn rating_kind_at(i: usize) -> (k: PartRatingKind)
    requires
        i < 3,
    ensures
        k == rating_kinds()[i as int],
{
    if i == 0 {
        PartRatingKind::PeakVoltage
    } else if i == 1 {
        PartRatingKind::PeakCurrent
    } else {
        PartRatingKind::AverageDissipation
    }
}

fn reading_of(rs: &LimitReadings, kind: PartRatingKind) -> (r: &LimitReading)
    ensures
        *r == reading_for(*rs, kind),
{
    match kind {
        PartRatingKind::PeakVoltage => &rs.peak_voltage,
        PartRatingKind::PeakCurrent => &rs.peak_current,
        PartRatingKind::AverageDissipation => &rs.average_dissipation,
    }
}

fn copy_opt(o: &Option<String>) -> (r: Option<String>)
    ensures
        opt_view(r) == opt_view(*o),
{
    match o {
        Some(s) => Some(owned(s.as_str())),
        None => None,
    }
}

proof fn lemma_ratings_stop(t: Seq<FieldPair>, rs: LimitReadings, source: Option<Seq<char>>, n: int, m: int)
    requires
        0 <= n <= m,
        ratings_upto(t, rs, source, n) is Err,
    ensures
        ratings_upto(t, rs, source, m) == ratings_upto(t, rs, source, n),
    decreases m - n,
{
    if m > n {
        lemma_ratings_stop(t, rs, source, n, m - 1);
    }
}

pub open spec fn rating_views(v: Seq<ProvidedPartRating>) -> Seq<RatingView> {
    v.map_values(|x: ProvidedPartRating| rating_view(x))
}

/// The stated ratings; on refusal, message and field.
fn build_ratings(t: &Vec<(String, String)>, rs: &LimitReadings, source: &Option<String>) -> (r: Result<
    Vec<ProvidedPartRating>,
    (String, String),
>)
    ensures
        match ratings_upto(pair_views(t@), *rs, opt_view(*source), 3) {
            Ok(v) => r matches Ok(x) && rating_views(x@) == v,
            Err(e) => r matches Err(x) && x.0@ == e.0 && x.1@ == e.1,
        },
{
    let ghost tv = pair_views(t@);
    let ghost src = opt_view(*source);
    let mut out: Vec<ProvidedPartRating> = Vec::new();
    let mut i: usize = 0;
    assert(rating_views(out@) =~= Seq::<RatingView>::empty());
    while i < 3
        invariant
            i <= 3,
            tv == pair_views(t@),
            src == opt_view(*source),
            ratings_upto(tv, *rs, src, i as int) == Ok::<Seq<RatingView>, PartFailure>(rating_views(out@)),
        decreases 3 - i,
    {
        let kind = rating_kind_at(i);
        let lf = limit_field_exec(kind);
        let cf = conditions_field_exec(kind);
        let limit = lookup_field(t, lf);
        let conditions = lookup_field(t, cf);
        match (limit, conditions) {
            (Some(l), Some(c)) => {
                match reading_of(rs, kind) {
                    LimitReading::Unreadable(m) => {
                        proof {
                            lemma_ratings_stop(tv, *rs, src, i + 1, 3);
                        }
                        let mut msg = quoted("invalid ", lf, ": ");
                        append_str(&mut msg, m.as_str());
                        return Err((msg, owned(lf)));
                    },
                    LimitReading::NotPositive => {
                        proof {
                            lemma_ratings_stop(tv, *rs, src, i + 1, 3);
                        }
                        let mut msg = owned(lf);
                        append_str(&mut msg, " must be finite and greater than zero");
                        return Err((msg, owned(lf)));
                    },
                    LimitReading::Accepted => {
                        let ghost before = rating_views(out@);
                        let x = ProvidedPartRating { kind, limit: l, conditions: c, source: copy_opt(source) };
                        out.push(x);
                        assert(rating_views(out@) =~= before.push(rating_view(x)));
                    },
                }
            },
            (Some(_), None) => {
                proof {
                    lemma_ratings_stop(tv, *rs, src, i + 1, 3);
                }
                let mut msg = owned(lf);
                append_str(&mut msg, " requires ");
                append_str(&mut msg, cf);
                return Err((msg, owned(cf)));
            },
            (None, Some(_)) => {
                proof {
                    lemma_ratings_stop(tv, *rs, src, i + 1, 3);
                }
                let mut msg = owned(cf);
                append_str(&mut msg, " requires ");
                append_str(&mut msg, lf);
                return Err((msg, owned(lf)));
            },
            (None, None) => {},
        }
        i = i + 1;
    }
    Ok(out)
}


/// An assignment's fields checked and turned into the assignment; on
/// refusal, message and field.
fn compile_body(c: &str, kind: &ComponentKind, fields: &Vec<PartField>, rs: &LimitReadings) -> (r: Result<
    PhysicalPartAssignment,
    (String, String),
>)
    ensures
        match decl_body(c@, *kind, field_views(fields@), *rs) {
            Ok(a) => r matches Ok(x) && assignment_view(x) == a,
            Err(e) => r matches Err(x) && x.0@ == e.0 && x.1@ == e.1,
        },
{
    let t = match build_field_table(fields) {
        Err(e) => return Err(e),
        Ok(t) => t,
    };
    let ghost tv = pair_views(t@);
    let st = sorted_pairs(&t);
    let ghost sv = pair_views(st@);
    let mut j: usize = 0;
    while j < st.len()
        invariant
            j <= st.len(),
            sv == pair_views(st@),
            sv == sort_keyed(tv),
            field_table(field_views(fields@)) == Ok::<Seq<FieldPair>, PartFailure>(tv),
            first_bad_field(sv, 0) == first_bad_field(sv, j as int),
        decreases st.len() - j,
    {
        assert(sv[j as int] == (st@[j as int].0@, st@[j as int].1@));
        if field_is_bad(&st[j].0, &st[j].1) {
            assert(first_bad_field(sv, j as int) == Some(sv[j as int]));
            let key = st[j].0.as_str();
            let mut m = quoted("physical-part field '", key, "' must be non-empty, control-free and at most ");
            let limit = crate::text::usize_text(field_limit_exec(key));
            append_str(&mut m, limit.as_str());
            append_str(&mut m, " bytes");
            return Err((m, owned(key)));
        }
        j = j + 1;
    }
    let footprint = lookup_field(&t, "footprint");
    let pin_map = match lookup_field(&t, "pin_map") {
        None => {
            let e: Vec<(String, String)> = Vec::new();
            assert(pair_views(e@) =~= Seq::<PinPair>::empty());
            e
        },
        Some(m) => {
            if footprint.is_none() {
                return Err((owned("pin_map requires an explicit footprint"), owned("pin_map")));
            }
            match parse_physical_pin_map(c, m.as_str(), kind) {
                Ok(p) => p,
                Err(d) => return Err((d.message, owned("pin_map"))),
            }
        },
    };
    assert(decl_pin_map(tv, *kind) == Ok::<Seq<PinPair>, PartFailure>(pair_views(pin_map@)));
    let source = lookup_field(&t, "rating_source");
    let ratings = match build_ratings(&t, rs, &source) {
        Err(e) => return Err(e),
        Ok(x) => x,
    };
    if source.is_some() && ratings.len() == 0 {
        return Err(
            (owned("rating_source requires at least one provided rating limit"), owned("rating_source")),
        );
    }
    assert(ratings.len() == 0 <==> rating_views(ratings@).len() == 0);
    Ok(
        PhysicalPartAssignment {
            component: owned(c),
            manufacturer: lookup_field(&t, "manufacturer"),
            mpn: lookup_field(&t, "mpn"),
            footprint,
            pin_map,
            note: lookup_field(&t, "note"),
            ratings,
        },
    )
}

/// The statement at `i`, after the ones before it; on refusal, message and field.
fn compile_one(
    declarations: &Vec<PartAssignmentDecl>,
    i: usize,
    components: &Vec<TopologyComponent>,
    rs: &LimitReadings,
) -> (r: Result<PhysicalPartAssignment, (String, String)>)
    requires
        i < declarations.len(),
    ensures
        match compile_decl(
            decl_views(declarations@).take(i as int),
            comp_entries(components@),
            decl_view(declarations@[i as int]),
            *rs,
        ) {
            Ok(a) => r matches Ok(x) && assignment_view(x) == a,
            Err(e) => r matches Err(x) && x.0@ == e.0 && x.1@ == e.1,
        },
{
    let d = &declarations[i];
    let ghost prior = decl_views(declarations@).take(i as int);
    let mut j: usize = 0;
    while j < i
        invariant
            j <= i < declarations.len(),
            prior == decl_views(declarations@).take(i as int),
            d == &declarations@[i as int],
            first_decl_for(prior, d.component@, 0) == first_decl_for(prior, d.component@, j as int),
        decreases i - j,
    {
        assert(prior[j as int] == decl_view(declarations@[j as int]));
        if text_is(declarations[j].component.as_str(), d.component.as_str()) {
            let mut m = quoted("physical part for '", d.component.as_str(), "' is assigned more than once (first assignment at ");
            let line = crate::text::usize_text(declarations[j].line);
            append_str(&mut m, line.as_str());
            append_str(&mut m, ":");
            let column = crate::text::usize_text(declarations[j].column);
            append_str(&mut m, column.as_str());
            append_str(&mut m, ")");
            return Err((m, owned("part")));
        }
        j = j + 1;
    }
    let ghost comps = comp_entries(components@);
    let mut k: usize = 0;
    assert(comps.skip(0) =~= comps);
    while k < components.len() && !text_is(components[k].id.as_str(), d.component.as_str())
        invariant
            k <= components.len(),
            comps == comp_entries(components@),
            find_component(comps, d.component@) == find_component(comps.skip(k as int), d.component@),
        decreases components.len() - k,
    {
        assert(comps.skip(k as int)[0] == (components@[k as int].id@, components@[k as int].kind));
        assert(comps.skip(k as int).drop_first() =~= comps.skip(k + 1));
        k = k + 1;
    }
    if k == components.len() {
        assert(comps.skip(k as int) =~= Seq::<(Seq<char>, ComponentKind)>::empty());
        return Err((quoted("physical part target '", d.component.as_str(), "' is not a declared component"), owned("part")));
    }
    assert(comps.skip(k as int)[0] == (components@[k as int].id@, components@[k as int].kind));
    let kind = components[k].kind;
    assert(find_component(comps, d.component@) == Some(kind));
    match kind {
        ComponentKind::ModulePort => {
            return Err(
                (owned("module interfaces are virtual and cannot receive a physical part"), owned("part")),
            );
        },
        ComponentKind::VoltageSource | ComponentKind::CurrentSource => {
            return Err(
                (
                    owned("independent simulation sources are abstract stimuli and cannot receive a physical part"),
                    owned("part"),
                ),
            );
        },
        _ => {},
    }
    compile_body(d.component.as_str(), &kind, &d.fields, rs)
}

/// Inserts an assignment before the first one with a larger component.
fn insert_assignment_sorted(v: &mut Vec<PhysicalPartAssignment>, x: PhysicalPartAssignment)
    ensures
        assignment_views(final(v)@) == insert_keyed(assignment_views(old(v)@), assignment_view(x)),
{
    let ghost s = assignment_views(v@);
    let mut p: usize = 0;
    while p < v.len() && !text_less(x.component.as_str(), v[p].component.as_str())
        invariant
            p <= v.len(),
            s == assignment_views(v@),
            forall|j: int| 0 <= j < p ==> !text_lt(x.component@, #[trigger] s[j].0),
        decreases v.len() - p,
    {
        p = p + 1;
    }
    proof {
        lemma_insert_keyed_split(s, assignment_view(x), p as int);
    }
    let ghost xv = assignment_view(x);
    v.insert(p, x);
    assert(assignment_views(v@) =~= s.take(p as int).push(xv) + s.skip(p as int));
}

proof fn lemma_parts_stop(
    decls: Seq<DeclView>,
    comps: Seq<(Seq<char>, ComponentKind)>,
    rs: Seq<LimitReadings>,
    n: int,
    m: int,
)
    requires
        0 <= n <= m,
        parts_upto(decls, comps, rs, n) is Err,
    ensures
        parts_upto(decls, comps, rs, m) == parts_upto(decls, comps, rs, n),
    decreases m - n,
{
    if m > n {
        lemma_parts_stop(decls, comps, rs, n, m - 1);
    }
}

/// Compiles the part statements of a circuit against its components.
/// `readings` holds, for each statement in turn, how its stated rating
/// limits read as quantities.
pub fn compile_physical_parts(
    declarations: &Vec<PartAssignmentDecl>,
    components: &Vec<TopologyComponent>,
    readings: &Vec<LimitReadings>,
) -> (r: Result<PhysicalPartManifest, SemanticDiagnostic>)
    requires
        readings.len() == declarations.len(),
    ensures
        match physical_parts_spec(decl_views(declarations@), comp_entries(components@), readings@) {
            Ok(a) => r matches Ok(m) && m.schema_version@ == PHYSICAL_PART_SCHEMA_VERSION@
                && assignment_views(m.assignments@) == a,
            Err(e) => r matches Err(d) && model_error(d, "KES-C024"@, e.1, Some(e.0), e.2),
        },
{
    let ghost dv = decl_views(declarations@);
    let ghost comps = comp_entries(components@);
    let ghost mut acc: Seq<AssignmentView> = seq![];
    let mut out: Vec<PhysicalPartAssignment> = Vec::new();
    let mut i: usize = 0;
    assert(assignment_views(out@) =~= Seq::<AssignmentView>::empty());
    while i < declarations.len()
        invariant
            i <= declarations.len(),
            readings.len() == declarations.len(),
            dv == decl_views(declarations@),
            comps == comp_entries(components@),
            parts_upto(dv, comps, readings@, i as int) == Ok::<Seq<AssignmentView>, PartError>(acc),
            assignment_views(out@) == sort_keyed(acc),
        decreases declarations.len() - i,
    {
        assert(dv.take(i as int) == decl_views(declarations@).take(i as int));
        assert(dv[i as int] == decl_view(declarations@[i as int]));
        match compile_one(declarations, i, components, &readings[i]) {
            Err(e) => {
                proof {
                    lemma_parts_stop(dv, comps, readings@, i + 1, dv.len() as int);
                }
                return Err(
                    crate::ir::semantic_error(
                        "KES-C024",
                        e.0,
                        Some(declarations[i].component.as_str()),
                        Some(e.1.as_str()),
                    ),
                );
            },
            Ok(a) => {
                let ghost av = assignment_view(a);
                insert_assignment_sorted(&mut out, a);
                proof {
                    assert(acc.push(av).drop_last() =~= acc);
                    acc = acc.push(av);
                }
            },
        }
        i = i + 1;
    }
    Ok(PhysicalPartManifest { schema_version: owned(PHYSICAL_PART_SCHEMA_VERSION), assignments: out })
}


/// The unit a rating limit is stated in.
pub open spec fn rating_unit_spec(kind: PartRatingKind) -> SIUnit {
    match kind {
        PartRatingKind::PeakVoltage => SIUnit::Volt,
        PartRatingKind::PeakCurrent => SIUnit::Ampere,
        PartRatingKind::AverageDissipation => SIUnit::Watt,
    }
}

pub fn rating_unit(kind: PartRatingKind) -> (u: SIUnit)
    ensures
        u == rating_unit_spec(kind),
{
    match kind {
        PartRatingKind::PeakVoltage => SIUnit::Volt,
        PartRatingKind::PeakCurrent => SIUnit::Ampere,
        PartRatingKind::AverageDissipation => SIUnit::Watt,
    }
}

/// The value of the first field whose lower-cased name is `key`.
pub open spec fn first_field_value(fields: Seq<FieldPair>, key: Seq<char>) -> Option<Seq<char>>
    decreases fields.len(),
{
    if fields.len() == 0 {
        None
    } else if lower(fields[0].0) == key {
        Some(fields[0].1)
    } else {
        first_field_value(fields.drop_first(), key)
    }
}

/// The limit of `kind` as a statement writes it, which its reading is of.
pub fn rating_limit_text(decl: &PartAssignmentDecl, kind: PartRatingKind) -> (r: Option<String>)
    ensures
        opt_view(r) == first_field_value(field_views(decl.fields@), limit_field(kind)),
{
    let lf = limit_field_exec(kind);
    let ghost fv = field_views(decl.fields@);
    let mut i: usize = 0;
    assert(fv.skip(0) =~= fv);
    while i < decl.fields.len()
        invariant
            i <= decl.fields.len(),
            fv == field_views(decl.fields@),
            lf@ == limit_field(kind),
            first_field_value(fv, lf@) == first_field_value(fv.skip(i as int), lf@),
        decreases decl.fields.len() - i,
    {
        assert(fv.skip(i as int)[0] == (decl.fields@[i as int].name@, decl.fields@[i as int].value@));
        assert(fv.skip(i as int).drop_first() =~= fv.skip(i + 1));
        let key = crate::text::to_lower(decl.fields[i].name.as_str());
        if text_is(key.as_str(), lf) {
            return Some(owned(decl.fields[i].value.as_str()));
        }
        i = i + 1;
    }
    assert(fv.skip(i as int) =~= Seq::<FieldPair>::empty());
    None
}


// ---------------------------------------------------------------------------
// One assignment per statement, in ascending order.

pub open spec fn keyed_has<T>(s: Seq<(Seq<char>, T)>, k: Seq<char>) -> bool {
    exists|i: int| 0 <= i < s.len() && (#[trigger] s[i]).0 == k
}

pub open spec fn strictly_ascending<T>(s: Seq<(Seq<char>, T)>) -> bool {
    forall|i: int, j: int| 0 <= i < j < s.len() ==> text_lt((#[trigger] s[i]).0, (#[trigger] s[j]).0)
}

proof fn lemma_insert_keyed_keys<T>(s: Seq<(Seq<char>, T)>, x: (Seq<char>, T))
    ensures
        insert_keyed(s, x).len() == s.len() + 1,
        forall|k: Seq<char>| #[trigger] keyed_has(insert_keyed(s, x), k) == (keyed_has(s, k) || k == x.0),
    decreases s.len(),
{
    let r = insert_keyed(s, x);
    if s.len() == 0 {
        assert forall|k: Seq<char>| keyed_has(r, k) == (keyed_has(s, k) || k == x.0) by {
            if k == x.0 {
                assert(r[0] == x);
            }
        }
    } else if text_lt(x.0, s[0].0) {
        assert forall|k: Seq<char>| keyed_has(r, k) == (keyed_has(s, k) || k == x.0) by {
            if keyed_has(r, k) {
                let i = choose|i: int| 0 <= i < r.len() && (#[trigger] r[i]).0 == k;
                if i > 0 {
                    assert(r[i] == s[i - 1]);
                }
            }
            if keyed_has(s, k) {
                let i = choose|i: int| 0 <= i < s.len() && (#[trigger] s[i]).0 == k;
                assert(r[i + 1] == s[i]);
            }
            if k == x.0 {
                assert(r[0] == x);
            }
        }
    } else {
        let rest = s.drop_first();
        lemma_insert_keyed_keys(rest, x);
        let tail = insert_keyed(rest, x);
        assert forall|k: Seq<char>| keyed_has(r, k) == (keyed_has(s, k) || k == x.0) by {
            if keyed_has(r, k) {
                let i = choose|i: int| 0 <= i < r.len() && (#[trigger] r[i]).0 == k;
                if i > 0 {
                    assert(r[i] == tail[i - 1]);
                    assert(keyed_has(tail, k));
                    if keyed_has(rest, k) {
                        let m = choose|m: int| 0 <= m < rest.len() && (#[trigger] rest[m]).0 == k;
                        assert(s[m + 1] == rest[m]);
                    }
                } else {
                    assert(r[0] == s[0]);
                }
            }
            if keyed_has(s, k) {
                let i = choose|i: int| 0 <= i < s.len() && (#[trigger] s[i]).0 == k;
                if i > 0 {
                    assert(rest[i - 1] == s[i]);
                    assert(keyed_has(rest, k));
                    assert(keyed_has(tail, k));
                    let m = choose|m: int| 0 <= m < tail.len() && (#[trigger] tail[m]).0 == k;
                    assert(r[m + 1] == tail[m]);
                } else {
                    assert(r[0] == s[0]);
                }
            }
            if k == x.0 {
                assert(keyed_has(tail, k));
                let m = choose|m: int| 0 <= m < tail.len() && (#[trigger] tail[m]).0 == k;
                assert(r[m + 1] == tail[m]);
            }
        }
    }
}

proof fn lemma_insert_keyed_ascending<T>(s: Seq<(Seq<char>, T)>, x: (Seq<char>, T))
    requires
        strictly_ascending(s),
        !keyed_has(s, x.0),
    ensures
        strictly_ascending(insert_keyed(s, x)),
    decreases s.len(),
{
    let r = insert_keyed(s, x);
    if s.len() == 0 {
    } else if text_lt(x.0, s[0].0) {
        assert forall|i: int, j: int| 0 <= i < j < r.len() implies text_lt((#[trigger] r[i]).0, (#[trigger] r[j]).0) by {
            assert(r[j] == s[j - 1]);
            if i == 0 {
                if j > 1 {
                    lemma_text_lt_transitive(x.0, s[0].0, s[j - 1].0);
                }
            } else {
                assert(r[i] == s[i - 1]);
            }
        }
    } else {
        let rest = s.drop_first();
        assert(x.0 != s[0].0) by {
            assert(s[0].0 == s[0].0);
        }
        lemma_text_lt_total(x.0, s[0].0);
        assert(strictly_ascending(rest)) by {
            assert forall|i: int, j: int| 0 <= i < j < rest.len() implies text_lt((#[trigger] rest[i]).0, (#[trigger] rest[j]).0) by {
                assert(rest[i] == s[i + 1] && rest[j] == s[j + 1]);
            }
        }
        assert(!keyed_has(rest, x.0)) by {
            if keyed_has(rest, x.0) {
                let m = choose|m: int| 0 <= m < rest.len() && (#[trigger] rest[m]).0 == x.0;
                assert(s[m + 1] == rest[m]);
            }
        }
        lemma_insert_keyed_ascending(rest, x);
        lemma_insert_keyed_keys(rest, x);
        let tail = insert_keyed(rest, x);
        assert forall|i: int, j: int| 0 <= i < j < r.len() implies text_lt((#[trigger] r[i]).0, (#[trigger] r[j]).0) by {
            assert(r[j] == tail[j - 1]);
            if i == 0 {
                assert(r[0] == s[0]);
                let k = tail[j - 1].0;
                assert(r.len() == tail.len() + 1);
                assert(0 <= j - 1 < tail.len() && tail[j - 1].0 == k);
                assert(keyed_has(tail, k));
                if keyed_has(rest, k) {
                    let m = choose|m: int| 0 <= m < rest.len() && (#[trigger] rest[m]).0 == k;
                    assert(s[m + 1] == rest[m]);
                }
            } else {
                assert(r[i] == tail[i - 1]);
            }
        }
    }
}

pub open spec fn keys_distinct<T>(s: Seq<(Seq<char>, T)>) -> bool {
    forall|i: int, j: int| 0 <= i < j < s.len() ==> (#[trigger] s[i]).0 != (#[trigger] s[j]).0
}

proof fn lemma_sort_keyed_ascending<T>(s: Seq<(Seq<char>, T)>)
    requires
        keys_distinct(s),
    ensures
        strictly_ascending(sort_keyed(s)),
        sort_keyed(s).len() == s.len(),
        forall|k: Seq<char>| #[trigger] keyed_has(sort_keyed(s), k) == keyed_has(s, k),
    decreases s.len(),
{
    if s.len() > 0 {
        let front = s.drop_last();
        assert(keys_distinct(front)) by {
            assert forall|i: int, j: int| 0 <= i < j < front.len() implies (#[trigger] front[i]).0 != (#[trigger] front[j]).0 by {
                assert(front[i] == s[i] && front[j] == s[j]);
            }
        }
        lemma_sort_keyed_ascending(front);
        let sf = sort_keyed(front);
        assert(!keyed_has(sf, s.last().0)) by {
            if keyed_has(front, s.last().0) {
                let m = choose|m: int| 0 <= m < front.len() && (#[trigger] front[m]).0 == s.last().0;
                assert(s[m] == front[m]);
            }
        }
        lemma_insert_keyed_ascending(sf, s.last());
        lemma_insert_keyed_keys(sf, s.last());
        assert forall|k: Seq<char>| keyed_has(sort_keyed(s), k) == keyed_has(s, k) by {
            if keyed_has(front, k) {
                let m = choose|m: int| 0 <= m < front.len() && (#[trigger] front[m]).0 == k;
                assert(s[m] == front[m]);
            }
            if keyed_has(s, k) {
                let m = choose|m: int| 0 <= m < s.len() && (#[trigger] s[m]).0 == k;
                if m < s.len() - 1 {
                    assert(front[m] == s[m]);
                }
            }
        }
    }
}

proof fn lemma_first_decl_none(prior: Seq<DeclView>, c: Seq<char>, i: int)
    requires
        0 <= i,
        first_decl_for(prior, c, i) < 0,
    ensures
        forall|j: int| i <= j < prior.len() ==> (#[trigger] prior[j]).0 != c,
    decreases prior.len() - i,
{
    if i < prior.len() {
        lemma_first_decl_none(prior, c, i + 1);
    }
}

proof fn lemma_parts_upto_keys(
    decls: Seq<DeclView>,
    comps: Seq<(Seq<char>, ComponentKind)>,
    rs: Seq<LimitReadings>,
    n: int,
)
    requires
        0 <= n <= decls.len(),
        parts_upto(decls, comps, rs, n) is Ok,
    ensures
        ({
            let acc = parts_upto(decls, comps, rs, n)->Ok_0;
            &&& acc.len() == n
            &&& forall|k: int| 0 <= k < n ==> (#[trigger] acc[k]).0 == decls[k].0
            &&& keys_distinct(acc)
        }),
    decreases n,
{
    if n > 0 {
        lemma_parts_upto_keys(decls, comps, rs, n - 1);
        let prior = decls.take(n - 1);
        let c = decls[n - 1].0;
        lemma_first_decl_none(prior, c, 0);
        let acc = parts_upto(decls, comps, rs, n)->Ok_0;
        assert forall|j: int| 0 <= j < n - 1 implies decls[j].0 != c by {
            assert(prior[j] == decls[j]);
        }
    }
}

/// A part list that compiles holds one assignment for each statement, in
/// strictly ascending order of component.
pub proof fn lemma_parts_one_per_statement_ascending(
    decls: Seq<DeclView>,
    comps: Seq<(Seq<char>, ComponentKind)>,
    rs: Seq<LimitReadings>,
)
    requires
        physical_parts_spec(decls, comps, rs) is Ok,
    ensures
        ({
            let a = physical_parts_spec(decls, comps, rs)->Ok_0;
            &&& a.len() == decls.len()
            &&& strictly_ascending(a)
            &&& forall|k: int| 0 <= k < decls.len() ==> keyed_has(a, (#[trigger] decls[k]).0)
        }),
{
    let n = decls.len() as int;
    lemma_parts_upto_keys(decls, comps, rs, n);
    let acc = parts_upto(decls, comps, rs, n)->Ok_0;
    lemma_sort_keyed_ascending(acc);
    assert forall|k: int| 0 <= k < decls.len() implies keyed_has(physical_parts_spec(decls, comps, rs)->Ok_0, (#[trigger] decls[k]).0) by {
        assert(acc[k].0 == decls[k].0);
        assert(keyed_has(acc, decls[k].0));
    }
}


/// Distinct logical pins, each a pin of the component.
pub open spec fn pairs_fit(expected: Seq<Seq<char>>, acc: Seq<PinPair>) -> bool {
    &&& keys_distinct(acc)
    &&& forall|i: int| 0 <= i < acc.len() ==> expected.contains((#[trigger] acc[i]).0)
}

proof fn lemma_entry_step_fits(expected: Seq<Seq<char>>, acc: Seq<PinPair>, entry: Seq<char>)
    requires
        pairs_fit(expected, acc),
        pin_entry_step(expected, acc, entry) is Ok,
    ensures
        pairs_fit(expected, pin_entry_step(expected, acc, entry)->Ok_0),
{
    let r = pin_entry_step(expected, acc, entry)->Ok_0;
    assert forall|i: int, j: int| 0 <= i < j < r.len() implies (#[trigger] r[i]).0 != (#[trigger] r[j]).0 by {
        if j == acc.len() {
            assert(r[i] == acc[i]);
        } else {
            assert(r[i] == acc[i] && r[j] == acc[j]);
        }
    }
    assert forall|i: int| 0 <= i < r.len() implies expected.contains((#[trigger] r[i]).0) by {
        if i < acc.len() {
            assert(r[i] == acc[i]);
        }
    }
}

proof fn lemma_entries_fit(expected: Seq<Seq<char>>, s: Seq<char>, start: int, acc: Seq<PinPair>)
    requires
        pairs_fit(expected, acc),
        pin_entries_from(expected, s, start, acc) is Ok,
    ensures
        pairs_fit(expected, pin_entries_from(expected, s, start, acc)->Ok_0),
    decreases s.len() - start,
{
    if 0 <= start <= s.len() {
        let k = next_char(s, ',', start);
        lemma_next_char(s, ',', start);
        lemma_entry_step_fits(expected, acc, s.subrange(start, k));
        if k < s.len() {
            lemma_entries_fit(expected, s, k + 1, pin_entry_step(expected, acc, s.subrange(start, k))->Ok_0);
        }
    }
}

proof fn lemma_none_missing(expected: Seq<Seq<char>>, acc: Seq<PinPair>)
    requires
        missing_pins(expected, acc).len() == 0,
    ensures
        forall|i: int| 0 <= i < expected.len() ==> has_key(acc, #[trigger] expected[i]),
    decreases expected.len(),
{
    if expected.len() > 0 {
        let front = expected.drop_last();
        lemma_none_missing(front, acc);
        assert forall|i: int| 0 <= i < expected.len() implies has_key(acc, #[trigger] expected[i]) by {
            if i < front.len() {
                assert(front[i] == expected[i]);
            }
        }
    }
}

/// A pad mapping that is accepted maps exactly the component's pins, each
/// once, in strictly ascending order of pin.
pub proof fn lemma_pin_map_covers_pins(expected: Seq<Seq<char>>, input: Seq<char>)
    requires
        pin_map_spec(expected, input) is Ok,
    ensures
        ({
            let m = pin_map_spec(expected, input)->Ok_0;
            &&& strictly_ascending(m)
            &&& forall|k: Seq<char>| #[trigger] keyed_has(m, k) <==> expected.contains(k)
        }),
{
    let acc = pin_entries_from(expected, input, 0, seq![])->Ok_0;
    lemma_entries_fit(expected, input, 0, seq![]);
    lemma_none_missing(expected, acc);
    lemma_sort_keyed_ascending(acc);
    let m = sort_keyed(acc);
    assert forall|k: Seq<char>| #[trigger] keyed_has(m, k) <==> expected.contains(k) by {
        if keyed_has(acc, k) {
            let i = choose|i: int| 0 <= i < acc.len() && (#[trigger] acc[i]).0 == k;
            assert(expected.contains(acc[i].0));
        }
        if expected.contains(k) {
            let i = choose|i: int| 0 <= i < expected.len() && expected[i] == k;
            assert(has_key(acc, expected[i]));
            let j = choose|j: int| 0 <= j < acc.len() && (#[trigger] acc[j]).0 == expected[i];
            assert(keyed_has(acc, k));
        }
    }
}

} // verus!
