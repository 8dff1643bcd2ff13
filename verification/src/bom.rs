//! The bill of materials: board components grouped by the part they call for,
//! one CSV row per group.
use crate::component::{catalog, component_definition};
use crate::erc::{join, join_text};
use crate::model_resources::insert_sorted;
use crate::experiment::double_quotes;
use crate::expression::{insert_name, sorted_names};
use crate::handoff::{in_bom, included_in_bom};
use crate::ir::{opt_view, views, PartRatingKind};
use crate::lowering::LoweredComponent;
use crate::parts::{PhysicalPartAssignment, PhysicalPartManifest, ProvidedPartRating};
use crate::text::{
    append_str, chars_of, lemma_text_lt_irreflexive, nat_text, push_char, usize_text, lemma_text_lt_total, lemma_text_lt_transitive, owned, text_is, text_less,
    text_lt,
};
use vstd::prelude::*;

verus! {

/// What the schematic shows of a component: the id it is drawn for, its
/// reference designator, and its drawn value, or else its drawn model.
#[derive(Debug, Clone)]
pub struct DrawnComponent {
    pub id: String,
    pub reference: String,
    pub label: Option<String>,
}

/// The drawing of component `id`: the last one made for it.
pub open spec fn drawn_at(d: Seq<DrawnComponent>, id: Seq<char>) -> Option<int>
    decreases d.len(),
{
    if d.len() == 0 {
        None
    } else if d.last().id@ == id {
        Some(d.len() - 1)
    } else {
        drawn_at(d.drop_last(), id)
    }
}

/// The part assignment of component `id`: the first one made for it.
pub open spec fn part_at(a: Seq<PhysicalPartAssignment>, id: Seq<char>) -> Option<int>
    decreases a.len(),
{
    if a.len() == 0 {
        None
    } else {
        match part_at(a.drop_last(), id) {
            Some(i) => Some(i),
            None => if a.last().component@ == id {
                Some(a.len() - 1)
            } else {
                None
            },
        }
    }
}

pub open spec fn text_or_empty(o: Option<Seq<char>>) -> Seq<char> {
    match o {
        Some(s) => s,
        None => seq![],
    }
}

pub open spec fn rating_name(k: PartRatingKind) -> Seq<char> {
    match k {
        PartRatingKind::PeakVoltage => "peak_voltage"@,
        PartRatingKind::PeakCurrent => "peak_current"@,
        PartRatingKind::AverageDissipation => "average_dissipation"@,
    }
}

/// The pad mapping as `pin:pad` pairs separated by `;`.
pub open spec fn pin_map_text(p: PhysicalPartAssignment) -> Seq<char> {
    join(p.pin_map@.map_values(|e: (String, String)| e.0@ + ":"@ + e.1@), ";"@)
}

/// The conditions of each rating as `kind:conditions`, separated by `;`.
pub open spec fn conditions_text(p: PhysicalPartAssignment) -> Seq<char> {
    join(p.ratings@.map_values(|r: ProvidedPartRating| rating_name(r.kind) + ":"@ + r.conditions@), ";"@)
}

/// The sources the ratings cite.
pub open spec fn source_set(p: PhysicalPartAssignment) -> Set<Seq<char>> {
    Set::new(|s: Seq<char>| exists|i: int| 0 <= i < p.ratings@.len() && #[trigger] opt_view(p.ratings@[i].source) == Some(s))
}

/// A finite set of names in ascending order.
pub open spec fn ascending(s: Set<Seq<char>>) -> Seq<Seq<char>> {
    choose|q: Seq<Seq<char>>| sorted_names(q) && q.to_set() == s
}

/// The cited sources, each once, in ascending order, separated by `;`.
pub open spec fn sources_text(p: PhysicalPartAssignment) -> Seq<char> {
    join(ascending(source_set(p)), ";"@)
}

/// Unassigned without a part; incomplete without a maker or part number.
pub open spec fn selection_text(part: Option<PhysicalPartAssignment>) -> Seq<char> {
    match part {
        None => "unassigned"@,
        Some(p) => if text_or_empty(opt_view(p.manufacturer)).len() == 0 || text_or_empty(opt_view(p.mpn)).len() == 0 {
            "incomplete"@
        } else {
            "selected"@
        },
    }
}

/// Whether the part can be placed: a footprint, and pads for its pins.
pub open spec fn eda_text(part: Option<PhysicalPartAssignment>) -> Seq<char> {
    match part {
        None => "no_footprint"@,
        Some(p) => if text_or_empty(opt_view(p.footprint)).len() == 0 {
            "no_footprint"@
        } else if p.pin_map@.len() > 0 {
            "ready"@
        } else {
            "pin_map_missing"@
        },
    }
}

/// The drawn value or model of a component, or else its circuit model.
pub open spec fn electrical_text(c: LoweredComponent, d: Seq<DrawnComponent>) -> Seq<char> {
    match drawn_at(d, c.id@) {
        Some(j) if d[j].label is Some => d[j].label->0@,
        _ => match c.model {
            Some(m) => m.name@,
            None => seq![],
        },
    }
}

/// The drawn reference designator of a component, or else its id.
pub open spec fn reference_text(c: LoweredComponent, d: Seq<DrawnComponent>) -> Seq<char> {
    match drawn_at(d, c.id@) {
        Some(j) => d[j].reference@,
        None => c.id@,
    }
}

/// The columns that a row's components share: kind, electrical value,
/// maker, part number, footprint, pad mapping, selection and placement
/// status, the provided ratings (`limits`, one text per assignment), their
/// conditions and sources, and the note.
pub open spec fn bom_key(
    c: LoweredComponent,
    d: Seq<DrawnComponent>,
    a: Seq<PhysicalPartAssignment>,
    limits: Seq<String>,
) -> Seq<Seq<char>> {
    let part = match part_at(a, c.id@) {
        Some(i) => Some(a[i]),
        None => None,
    };
    match part {
        None => seq![
            catalog(c.kind).1,
            electrical_text(c, d),
            seq![],
            seq![],
            seq![],
            seq![],
            selection_text(part),
            eda_text(part),
            seq![],
            seq![],
            seq![],
            seq![],
        ],
        Some(p) => seq![
            catalog(c.kind).1,
            electrical_text(c, d),
            text_or_empty(opt_view(p.manufacturer)),
            text_or_empty(opt_view(p.mpn)),
            text_or_empty(opt_view(p.footprint)),
            pin_map_text(p),
            selection_text(part),
            eda_text(part),
            limits[part_at(a, c.id@)->0]@,
            conditions_text(p),
            sources_text(p),
            text_or_empty(opt_view(p.note)),
        ],
    }
}

/// A text that is present and not empty.
pub open spec fn stated(o: Option<String>) -> bool {
    o matches Some(x) && x@.len() > 0
}

/// The selection and placement columns of a component's row, over its part
/// assignment: `selected` exactly when the part names both a maker and a
/// part number, `incomplete` when it is assigned but lacks either,
/// `unassigned` when no assignment names it; `ready` exactly when the part
/// has a footprint and pads for its pins, `pin_map_missing` when it has a
/// footprint but no pads, `no_footprint` otherwise.
pub proof fn lemma_bom_statuses(
    c: LoweredComponent,
    d: Seq<DrawnComponent>,
    a: Seq<PhysicalPartAssignment>,
    limits: Seq<String>,
)
    ensures
        bom_key(c, d, a, limits).len() == 12,
        bom_key(c, d, a, limits)[6] == "selected"@ <==> (part_at(a, c.id@) matches Some(i) && stated(a[i].manufacturer)
            && stated(a[i].mpn)),
        bom_key(c, d, a, limits)[6] == "incomplete"@ <==> (part_at(a, c.id@) matches Some(i) && !(stated(
            a[i].manufacturer,
        ) && stated(a[i].mpn))),
        bom_key(c, d, a, limits)[6] == "unassigned"@ <==> part_at(a, c.id@) is None,
        bom_key(c, d, a, limits)[7] == "ready"@ <==> (part_at(a, c.id@) matches Some(i) && stated(a[i].footprint)
            && a[i].pin_map@.len() > 0),
        bom_key(c, d, a, limits)[7] == "pin_map_missing"@ <==> (part_at(a, c.id@) matches Some(i) && stated(
            a[i].footprint,
        ) && a[i].pin_map@.len() == 0),
        bom_key(c, d, a, limits)[7] == "no_footprint"@ <==> match part_at(a, c.id@) {
            None => true,
            Some(i) => !stated(a[i].footprint),
        },
{
    reveal_strlit("selected");
    reveal_strlit("incomplete");
    reveal_strlit("unassigned");
    reveal_strlit("ready");
    reveal_strlit("pin_map_missing");
    reveal_strlit("no_footprint");
    assert("incomplete"@[0] != "unassigned"@[0]);
    assert("ready"@.len() == 5 && "no_footprint"@.len() == 12 && "pin_map_missing"@.len() == 15);
    assert("ready"@ != "no_footprint"@ && "ready"@ != "pin_map_missing"@ && "no_footprint"@ != "pin_map_missing"@);
    let found = part_at(a, c.id@);
    match found {
        Some(i) => {
            let p = a[i];
            assert(text_or_empty(opt_view(p.manufacturer)).len() > 0 <==> stated(p.manufacturer));
            assert(text_or_empty(opt_view(p.mpn)).len() > 0 <==> stated(p.mpn));
            assert(text_or_empty(opt_view(p.footprint)).len() > 0 <==> stated(p.footprint));
        },
        None => {},
    }
}

/// The other columns of a component's row, from its inputs: the kind's
/// catalog name; the drawn value or model, or else the circuit model; and,
/// for the part assigned first to the component, its maker, part number,
/// footprint and note (empty where not given), its pads as `pin:pad` pairs,
/// its provided ratings, each rating's conditions and its cited sources, each
/// once and ascending; with no part, all of these are empty.
pub proof fn lemma_bom_columns(
    c: LoweredComponent,
    d: Seq<DrawnComponent>,
    a: Seq<PhysicalPartAssignment>,
    limits: Seq<String>,
)
    ensures
        bom_key(c, d, a, limits)[0] == catalog(c.kind).1,
        bom_key(c, d, a, limits)[1] == match drawn_at(d, c.id@) {
            Some(j) if d[j].label is Some => d[j].label->0@,
            _ => match c.model {
                Some(m) => m.name@,
                None => seq![],
            },
        },
        part_at(a, c.id@) is None ==> forall|x: int|
            #![trigger bom_key(c, d, a, limits)[x]]
            (2 <= x <= 5 || 8 <= x <= 11) ==> bom_key(c, d, a, limits)[x] == Seq::<char>::empty(),
        part_at(a, c.id@) matches Some(i) ==> {
            let k = bom_key(c, d, a, limits);
            let p = a[i];
            &&& k[2] == (match p.manufacturer {
                Some(x) => x@,
                None => seq![],
            })
            &&& k[3] == (match p.mpn {
                Some(x) => x@,
                None => seq![],
            })
            &&& k[4] == (match p.footprint {
                Some(x) => x@,
                None => seq![],
            })
            &&& k[11] == (match p.note {
                Some(x) => x@,
                None => seq![],
            })
            &&& k[5] == join(p.pin_map@.map_values(|e: (String, String)| e.0@ + ":"@ + e.1@), ";"@)
            &&& k[8] == limits[i]@
            &&& k[9] == join(p.ratings@.map_values(|r: ProvidedPartRating| rating_name(r.kind) + ":"@ + r.conditions@), ";"@)
            &&& exists|q: Seq<Seq<char>>|
                sorted_names(q) && k[10] == join(q, ";"@) && forall|x: Seq<char>|
                    #[trigger] q.contains(x) <==> exists|r: int|
                        0 <= r < p.ratings@.len() && #[trigger] opt_view(p.ratings@[r].source) == Some(x)
        },
{
    match part_at(a, c.id@) {
        Some(i) => {
            let p = a[i];
            let q = ascending(source_set(p));
            lemma_ascending_exists(source_set(p), p);
            assert forall|x: Seq<char>| #[trigger] q.contains(x) <==> exists|r: int|
                0 <= r < p.ratings@.len() && #[trigger] opt_view(p.ratings@[r].source) == Some(x) by {
                assert(q.to_set().contains(x) <==> q.contains(x));
                if q.contains(x) {
                    assert(source_set(p).contains(x));
                }
                if exists|r: int| 0 <= r < p.ratings@.len() && #[trigger] opt_view(p.ratings@[r].source) == Some(x) {
                    let r = choose|r: int| 0 <= r < p.ratings@.len() && #[trigger] opt_view(p.ratings@[r].source) == Some(x);
                    assert(source_set(p).contains(x));
                }
            }
        },
        None => {},
    }
}

proof fn lemma_insert_sorted(s: Seq<Seq<char>>, x: Seq<char>)
    requires
        sorted_names(s),
        !s.contains(x),
    ensures
        sorted_names(insert_sorted(s, x)),
        insert_sorted(s, x).to_set() == s.to_set().insert(x),
    decreases s.len(),
{
    let r = insert_sorted(s, x);
    if s.len() == 0 {
        assert(r =~= seq![x]);
        assert(r[0] == x);
        assert(r.contains(x));
        assert forall|y: Seq<char>| r.contains(y) <==> s.to_set().insert(x).contains(y) by {
            if r.contains(y) {
                let k = choose|k: int| 0 <= k < r.len() && r[k] == y;
                assert(k == 0);
            }
        }
        assert(r.to_set() =~= s.to_set().insert(x));
    } else if text_lt(x, s[0]) {
        assert(r == seq![x] + s);
        assert forall|i: int, j: int| 0 <= i < j < r.len() implies text_lt(r[i], r[j]) by {
            if i == 0 {
                if j > 1 {
                    lemma_text_lt_transitive(x, s[0], s[j - 1]);
                }
            } else {
                assert(r[i] == s[i - 1] && r[j] == s[j - 1]);
            }
        }
        assert forall|y: Seq<char>| r.contains(y) <==> s.to_set().insert(x).contains(y) by {
            if r.contains(y) {
                let k = choose|k: int| 0 <= k < r.len() && r[k] == y;
                if k > 0 {
                    assert(s[k - 1] == y);
                }
            }
            if s.contains(y) {
                let k = choose|k: int| 0 <= k < s.len() && s[k] == y;
                assert(r[k + 1] == y);
            }
            if y == x {
                assert(r[0] == x);
            }
        }
        assert(r.to_set() =~= s.to_set().insert(x));
    } else {
        let t = s.drop_first();
        assert forall|i: int, j: int| 0 <= i < j < t.len() implies text_lt(t[i], t[j]) by {
            assert(t[i] == s[i + 1] && t[j] == s[j + 1]);
        }
        if t.contains(x) {
            let k = choose|k: int| 0 <= k < t.len() && t[k] == x;
            assert(s[k + 1] == x);
        }
        lemma_insert_sorted(t, x);
        let rest = insert_sorted(t, x);
        assert(r == seq![s[0]] + rest);
        assert(s.contains(s[0]));
        assert(x != s[0]);
        lemma_text_lt_total(x, s[0]);
        assert forall|k: int| 0 <= k < rest.len() implies text_lt(s[0], #[trigger] rest[k]) by {
            assert(rest.contains(rest[k]));
            assert(rest.to_set().contains(rest[k]));
            if rest[k] != x {
                assert(t.to_set().contains(rest[k]));
                let m = choose|m: int| 0 <= m < t.len() && t[m] == rest[k];
                assert(s[m + 1] == rest[k]);
            }
        }
        assert forall|i: int, j: int| 0 <= i < j < r.len() implies text_lt(r[i], r[j]) by {
            if i == 0 {
                assert(r[j] == rest[j - 1]);
            } else {
                assert(r[i] == rest[i - 1] && r[j] == rest[j - 1]);
            }
        }
        assert forall|y: Seq<char>| r.contains(y) <==> s.to_set().insert(x).contains(y) by {
            if r.contains(y) {
                let k = choose|k: int| 0 <= k < r.len() && r[k] == y;
                if k > 0 {
                    assert(rest[k - 1] == y);
                    assert(rest.to_set().contains(y));
                    if y != x {
                        assert(t.to_set().contains(y));
                        let m = choose|m: int| 0 <= m < t.len() && t[m] == y;
                        assert(s[m + 1] == y);
                    }
                }
            }
            if s.contains(y) {
                let k = choose|k: int| 0 <= k < s.len() && s[k] == y;
                if k == 0 {
                    assert(r[0] == y);
                } else {
                    assert(t[k - 1] == y);
                    assert(rest.to_set().contains(y));
                    let m = choose|m: int| 0 <= m < rest.len() && rest[m] == y;
                    assert(r[m + 1] == y);
                }
            }
            if y == x {
                assert(rest.to_set().contains(x));
                let m = choose|m: int| 0 <= m < rest.len() && rest[m] == x;
                assert(r[m + 1] == x);
            }
        }
        assert(r.to_set() =~= s.to_set().insert(x));
    }
}

/// The sources of the first `n` ratings, each once, ascending.
proof fn lemma_sources_ascending(p: PhysicalPartAssignment, n: int) -> (q: Seq<Seq<char>>)
    requires
        0 <= n <= p.ratings@.len(),
    ensures
        sorted_names(q),
        q.to_set() == sources_before(p, n),
    decreases n,
{
    if n == 0 {
        let q: Seq<Seq<char>> = seq![];
        assert(q.to_set() =~= sources_before(p, 0));
        q
    } else {
        let q0 = lemma_sources_ascending(p, n - 1);
        match opt_view(p.ratings@[n - 1].source) {
            Some(x) => {
                if q0.contains(x) {
                    assert(q0.to_set().contains(x));
                    assert(q0.to_set() =~= sources_before(p, n));
                    q0
                } else {
                    lemma_insert_sorted(q0, x);
                    let q = insert_sorted(q0, x);
                    assert(q.to_set() =~= sources_before(p, n));
                    q
                }
            },
            None => {
                assert(q0.to_set() =~= sources_before(p, n));
                q0
            },
        }
    }
}

/// Some ascending list holds exactly the cited sources.
proof fn lemma_ascending_exists(srcs: Set<Seq<char>>, p: PhysicalPartAssignment)
    requires
        srcs == source_set(p),
    ensures
        sorted_names(ascending(srcs)) && ascending(srcs).to_set() == srcs,
{
    let q = lemma_sources_ascending(p, p.ratings@.len() as int);
    assert(sources_before(p, p.ratings@.len() as int) =~= srcs);
    assert(sorted_names(q) && q.to_set() == srcs);
}

fn find_drawn(d: &Vec<DrawnComponent>, id: &String) -> (r: Option<usize>)
    ensures
        match drawn_at(d@, id@) {
            Some(j) => r matches Some(x) && x as int == j,
            None => r is None,
        },
        r matches Some(j) ==> j < d@.len(),
{
    let mut k: usize = d.len();
    assert(d@.take(k as int) =~= d@);
    while k > 0
        invariant
            k <= d@.len(),
            drawn_at(d@, id@) == drawn_at(d@.take(k as int), id@),
        decreases k,
    {
        assert(d@.take(k as int).drop_last() =~= d@.take(k - 1));
        if text_is(d[k - 1].id.as_str(), id.as_str()) {
            return Some(k - 1);
        }
        k = k - 1;
    }
    None
}

fn find_part(a: &Vec<PhysicalPartAssignment>, id: &String) -> (r: Option<usize>)
    ensures
        match part_at(a@, id@) {
            Some(i) => r matches Some(x) && x as int == i,
            None => r is None,
        },
        r matches Some(i) ==> i < a@.len(),
{
    let mut k: usize = 0;
    assert(a@.take(0) =~= Seq::<PhysicalPartAssignment>::empty());
    while k < a.len()
        invariant
            k <= a@.len(),
            part_at(a@.take(k as int), id@) is None,
        decreases a@.len() - k,
    {
        assert(a@.take(k + 1).drop_last() =~= a@.take(k as int));
        if text_is(a[k].component.as_str(), id.as_str()) {
            proof {
                lemma_part_at_extends(a@, id@, k as int + 1);
            }
            return Some(k);
        }
        k = k + 1;
    }
    assert(a@.take(k as int) =~= a@);
    None
}

/// The first match among the first `n` assignments is the first match overall.
proof fn lemma_part_at_extends(a: Seq<PhysicalPartAssignment>, id: Seq<char>, n: int)
    requires
        0 <= n <= a.len(),
        part_at(a.take(n), id) is Some,
    ensures
        part_at(a, id) == part_at(a.take(n), id),
    decreases a.len() - n,
{
    if n < a.len() {
        assert(a.take(n + 1).drop_last() =~= a.take(n));
        lemma_part_at_extends(a, id, n + 1);
    } else {
        assert(a.take(n) =~= a);
    }
}

fn rating_name_exec(k: PartRatingKind) -> (r: &'static str)
    ensures
        r@ == rating_name(k),
{
    match k {
        PartRatingKind::PeakVoltage => "peak_voltage",
        PartRatingKind::PeakCurrent => "peak_current",
        PartRatingKind::AverageDissipation => "average_dissipation",
    }
}

fn pin_map_column(p: &PhysicalPartAssignment) -> (r: String)
    ensures
        r@ == pin_map_text(*p),
{
    let ghost want = p.pin_map@.map_values(|e: (String, String)| e.0@ + ":"@ + e.1@);
    let mut parts: Vec<String> = Vec::new();
    let mut i: usize = 0;
    while i < p.pin_map.len()
        invariant
            i <= p.pin_map@.len(),
            want == p.pin_map@.map_values(|e: (String, String)| e.0@ + ":"@ + e.1@),
            views(parts@) == want.take(i as int),
        decreases p.pin_map@.len() - i,
    {
        let mut t = owned(p.pin_map[i].0.as_str());
        append_str(&mut t, ":");
        append_str(&mut t, p.pin_map[i].1.as_str());
        let ghost tv = t@;
        assert(want[i as int] == tv);
        let ghost before = parts@;
        assert(views(before).len() == i);
        parts.push(t);
        assert(views(parts@) =~= want.take(i + 1)) by {
            assert(parts@[i as int]@ == tv);
            assert forall|j: int| 0 <= j < i implies parts@[j]@ == before[j]@ by {}
            assert forall|j: int| 0 <= j < i implies views(before)[j] == want[j] by {}
        }
        i = i + 1;
    }
    assert(want.take(i as int) =~= want);
    join_text(&parts, ";")
}

fn conditions_column(p: &PhysicalPartAssignment) -> (r: String)
    ensures
        r@ == conditions_text(*p),
{
    let ghost want = p.ratings@.map_values(|r: ProvidedPartRating| rating_name(r.kind) + ":"@ + r.conditions@);
    let mut parts: Vec<String> = Vec::new();
    let mut i: usize = 0;
    while i < p.ratings.len()
        invariant
            i <= p.ratings@.len(),
            want == p.ratings@.map_values(|r: ProvidedPartRating| rating_name(r.kind) + ":"@ + r.conditions@),
            views(parts@) == want.take(i as int),
        decreases p.ratings@.len() - i,
    {
        let mut t = owned(rating_name_exec(p.ratings[i].kind));
        append_str(&mut t, ":");
        append_str(&mut t, p.ratings[i].conditions.as_str());
        let ghost tv = t@;
        assert(want[i as int] == tv);
        let ghost before = parts@;
        assert(views(before).len() == i);
        parts.push(t);
        assert(views(parts@) =~= want.take(i + 1)) by {
            assert(parts@[i as int]@ == tv);
            assert forall|j: int| 0 <= j < i implies parts@[j]@ == before[j]@ by {}
            assert forall|j: int| 0 <= j < i implies views(before)[j] == want[j] by {}
        }
        i = i + 1;
    }
    assert(want.take(i as int) =~= want);
    join_text(&parts, ";")
}

/// The first `n` ratings' sources.
pub open spec fn sources_before(p: PhysicalPartAssignment, n: int) -> Set<Seq<char>> {
    Set::new(|s: Seq<char>| exists|i: int| 0 <= i < n && #[trigger] opt_view(p.ratings@[i].source) == Some(s))
}

fn sources_column(p: &PhysicalPartAssignment) -> (r: String)
    ensures
        r@ == sources_text(*p),
{
    let mut names: Vec<String> = Vec::new();
    let mut i: usize = 0;
    assert(views(names@).to_set() =~= sources_before(*p, 0));
    while i < p.ratings.len()
        invariant
            i <= p.ratings@.len(),
            sorted_names(views(names@)),
            views(names@).to_set() == sources_before(*p, i as int),
        decreases p.ratings@.len() - i,
    {
        match &p.ratings[i].source {
            Some(s) => {
                insert_name(&mut names, s.clone());
                assert(views(names@).to_set() =~= sources_before(*p, i + 1)) by {
                    assert(opt_view(p.ratings@[i as int].source) == Some(s@));
                }
            },
            None => {
                assert(views(names@).to_set() =~= sources_before(*p, i + 1));
            },
        }
        i = i + 1;
    }
    proof {
        let v = views(names@);
        assert(sources_before(*p, i as int) =~= source_set(*p));
        let q = ascending(source_set(*p));
        assert(sorted_names(q) && q.to_set() == source_set(*p));
        assert forall|x: Seq<char>| v.contains(x) <==> q.contains(x) by {
            assert(v.to_set().contains(x) <==> v.contains(x));
            assert(q.to_set().contains(x) <==> q.contains(x));
        }
        crate::graph::lemma_sorted_unique(v, q);
    }
    join_text(&names, ";")
}

fn empty_text(s: &String) -> (r: bool)
    ensures
        r == (s@.len() == 0),
{
    crate::text::chars_of(s.as_str()).len() == 0
}

fn text_of(o: &Option<String>) -> (r: String)
    ensures
        r@ == text_or_empty(opt_view(*o)),
{
    match o {
        Some(s) => s.clone(),
        None => String::new(),
    }
}

fn electrical_column(c: &LoweredComponent, d: &Vec<DrawnComponent>) -> (r: String)
    ensures
        r@ == electrical_text(*c, d@),
{
    let model = match &c.model {
        Some(m) => m.name.clone(),
        None => String::new(),
    };
    match find_drawn(d, &c.id) {
        Some(j) => match &d[j].label {
            Some(l) => l.clone(),
            None => model,
        },
        None => model,
    }
}

fn reference_column(c: &LoweredComponent, d: &Vec<DrawnComponent>) -> (r: String)
    ensures
        r@ == reference_text(*c, d@),
{
    match find_drawn(d, &c.id) {
        Some(j) => d[j].reference.clone(),
        None => c.id.clone(),
    }
}

fn component_key(
    c: &LoweredComponent,
    d: &Vec<DrawnComponent>,
    a: &Vec<PhysicalPartAssignment>,
    limits: &Vec<String>,
) -> (k: Vec<String>)
    requires
        limits@.len() == a@.len(),
    ensures
        views(k@) == bom_key(*c, d@, a@, limits@),
{
    let mut k: Vec<String> = Vec::new();
    let def = component_definition(&c.kind);
    k.push(owned(def.display_name));
    k.push(electrical_column(c, d));
    match find_part(a, &c.id) {
        None => {
            k.push(String::new());
            k.push(String::new());
            k.push(String::new());
            k.push(String::new());
            k.push(owned("unassigned"));
            k.push(owned("no_footprint"));
            k.push(String::new());
            k.push(String::new());
            k.push(String::new());
            k.push(String::new());
        },
        Some(i) => {
            let p = &a[i];
            let manufacturer = text_of(&p.manufacturer);
            let mpn = text_of(&p.mpn);
            let footprint = text_of(&p.footprint);
            let selection = if empty_text(&manufacturer) || empty_text(&mpn) {
                "incomplete"
            } else {
                "selected"
            };
            let eda = if empty_text(&footprint) {
                "no_footprint"
            } else if p.pin_map.len() > 0 {
                "ready"
            } else {
                "pin_map_missing"
            };
            k.push(manufacturer);
            k.push(mpn);
            k.push(footprint);
            k.push(pin_map_column(p));
            k.push(owned(selection));
            k.push(owned(eda));
            k.push(limits[i].clone());
            k.push(conditions_column(p));
            k.push(sources_column(p));
            k.push(text_of(&p.note));
        },
    }
    assert(views(k@) =~= bom_key(*c, d@, a@, limits@));
    k
}

// ---------------------------------------------------------------------------
// Rows.

/// Keys in order: column by column, each column by its text.
pub open spec fn key_lt(a: Seq<Seq<char>>, b: Seq<Seq<char>>) -> bool
    decreases a.len(),
{
    if a.len() == 0 || b.len() == 0 {
        a.len() < b.len()
    } else if a[0] != b[0] {
        text_lt(a[0], b[0])
    } else {
        key_lt(a.drop_first(), b.drop_first())
    }
}

pub proof fn lemma_key_lt_irreflexive(a: Seq<Seq<char>>)
    ensures
        !key_lt(a, a),
    decreases a.len(),
{
    if a.len() > 0 {
        lemma_key_lt_irreflexive(a.drop_first());
    }
}

pub proof fn lemma_key_lt_transitive(a: Seq<Seq<char>>, b: Seq<Seq<char>>, c: Seq<Seq<char>>)
    requires
        key_lt(a, b),
        key_lt(b, c),
    ensures
        key_lt(a, c),
    decreases a.len(),
{
    if a.len() > 0 && b.len() > 0 && c.len() > 0 {
        if a[0] != b[0] && b[0] != c[0] {
            lemma_text_lt_transitive(a[0], b[0], c[0]);
            lemma_text_lt_irreflexive(a[0]);
        } else if a[0] != b[0] {
            lemma_text_lt_irreflexive(a[0]);
        } else if b[0] != c[0] {
        } else {
            lemma_key_lt_transitive(a.drop_first(), b.drop_first(), c.drop_first());
        }
    }
}

pub proof fn lemma_key_lt_total(a: Seq<Seq<char>>, b: Seq<Seq<char>>)
    ensures
        a != b ==> (key_lt(a, b) || key_lt(b, a)),
        !(key_lt(a, b) && key_lt(b, a)),
    decreases a.len(),
{
    if a.len() > 0 && b.len() > 0 {
        lemma_key_lt_total(a.drop_first(), b.drop_first());
        lemma_text_lt_total(a[0], b[0]);
        if a[0] == b[0] && a != b {
            assert(a =~= seq![a[0]] + a.drop_first());
            assert(b =~= seq![b[0]] + b.drop_first());
        }
    } else if a.len() == 0 && b.len() == 0 {
        assert(a =~= b);
    }
}

/// Keys of equal length are ordered by the first column where they differ,
/// that column's texts in text order.
pub proof fn lemma_key_lt_first_difference(a: Seq<Seq<char>>, b: Seq<Seq<char>>)
    requires
        a.len() == b.len(),
    ensures
        key_lt(a, b) <==> exists|j: int| 0 <= j < a.len() && a.take(j) == b.take(j) && #[trigger] text_lt(a[j], b[j]),
    decreases a.len(),
{
    if a.len() > 0 {
        lemma_key_lt_first_difference(a.drop_first(), b.drop_first());
        if a[0] != b[0] {
            if text_lt(a[0], b[0]) {
                assert(a.take(0) =~= b.take(0));
            }
            assert forall|j: int| 0 <= j < a.len() && a.take(j) == b.take(j) && #[trigger] text_lt(a[j], b[j]) implies j
                == 0 by {
                if j > 0 {
                    assert(a.take(j)[0] == b.take(j)[0]);
                }
            }
        } else {
            let a1 = a.drop_first();
            let b1 = b.drop_first();
            if key_lt(a1, b1) {
                let j = choose|j: int| 0 <= j < a1.len() && a1.take(j) == b1.take(j) && #[trigger] text_lt(a1[j], b1[j]);
                assert(a.take(j + 1) =~= seq![a[0]] + a1.take(j));
                assert(b.take(j + 1) =~= seq![b[0]] + b1.take(j));
                assert(text_lt(a[j + 1], b[j + 1]));
            }
            if exists|j: int| 0 <= j < a.len() && a.take(j) == b.take(j) && #[trigger] text_lt(a[j], b[j]) {
                let j = choose|j: int| 0 <= j < a.len() && a.take(j) == b.take(j) && #[trigger] text_lt(a[j], b[j]);
                lemma_text_lt_irreflexive(a[0]);
                assert(j > 0);
                assert(a1.take(j - 1) =~= a.take(j).drop_first());
                assert(b1.take(j - 1) =~= b.take(j).drop_first());
                assert(text_lt(a1[j - 1], b1[j - 1]));
            }
        }
    }
}

fn key_less(a: &Vec<String>, b: &Vec<String>) -> (r: bool)
    ensures
        r == key_lt(views(a@), views(b@)),
{
    let ghost va = views(a@);
    let ghost vb = views(b@);
    let mut i: usize = 0;
    assert(va.skip(0) =~= va && vb.skip(0) =~= vb);
    while i < a.len() && i < b.len()
        invariant
            i <= a@.len(),
            i <= b@.len(),
            va == views(a@),
            vb == views(b@),
            key_lt(va, vb) == key_lt(va.skip(i as int), vb.skip(i as int)),
        decreases a@.len() - i,
    {
        assert(va.skip(i as int)[0] == va[i as int]);
        assert(vb.skip(i as int)[0] == vb[i as int]);
        assert(va.skip(i as int).drop_first() =~= va.skip(i + 1));
        assert(vb.skip(i as int).drop_first() =~= vb.skip(i + 1));
        if !text_is(a[i].as_str(), b[i].as_str()) {
            return text_less(a[i].as_str(), b[i].as_str());
        }
        i = i + 1;
    }
    i < b.len()
}

fn same_key(a: &Vec<String>, b: &Vec<String>) -> (r: bool)
    ensures
        r == (views(a@) == views(b@)),
{
    if a.len() != b.len() {
        assert(views(a@).len() != views(b@).len());
        return false;
    }
    let mut i: usize = 0;
    while i < a.len()
        invariant
            i <= a@.len(),
            a@.len() == b@.len(),
            forall|j: int| 0 <= j < i ==> a@[j]@ == b@[j]@,
        decreases a@.len() - i,
    {
        if !text_is(a[i].as_str(), b[i].as_str()) {
            assert(views(a@)[i as int] != views(b@)[i as int]);
            return false;
        }
        i = i + 1;
    }
    assert(views(a@) =~= views(b@));
    true
}

/// One row of the bill: the shared columns and the references of the
/// components that share them.
#[derive(Debug)]
pub struct BomRow {
    pub key: Vec<String>,
    pub references: Vec<String>,
}

pub type RowView = (Seq<Seq<char>>, Seq<Seq<char>>);

pub open spec fn row_views(rows: Seq<BomRow>) -> Seq<RowView> {
    rows.map_values(|r: BomRow| (views(r.key@), views(r.references@)))
}

/// The board components, in circuit order, each as its key and reference.
pub open spec fn bom_entries(
    cs: Seq<LoweredComponent>,
    d: Seq<DrawnComponent>,
    a: Seq<PhysicalPartAssignment>,
    limits: Seq<String>,
) -> Seq<(Seq<Seq<char>>, Seq<char>)>
    decreases cs.len(),
{
    if cs.len() == 0 {
        seq![]
    } else {
        let rest = bom_entries(cs.drop_last(), d, a, limits);
        if in_bom(cs.last().kind) {
            rest.push((bom_key(cs.last(), d, a, limits), reference_text(cs.last(), d)))
        } else {
            rest
        }
    }
}

/// The references of the entries with key `k`, in entry order.
pub open spec fn refs_with(es: Seq<(Seq<Seq<char>>, Seq<char>)>, k: Seq<Seq<char>>) -> Seq<Seq<char>>
    decreases es.len(),
{
    if es.len() == 0 {
        seq![]
    } else if es.last().0 == k {
        refs_with(es.drop_last(), k).push(es.last().1)
    } else {
        refs_with(es.drop_last(), k)
    }
}

/// Names in ascending order, equal ones side by side.
pub open spec fn ascending_refs(s: Seq<Seq<char>>) -> bool {
    forall|i: int, j: int| 0 <= i < j < s.len() ==> !text_lt(#[trigger] s[j], #[trigger] s[i])
}

/// The rows of a bill: one per key that the entries carry, in ascending
/// order of key, each with the references of its entries in ascending order.
pub open spec fn rows_spec(es: Seq<(Seq<Seq<char>>, Seq<char>)>, rows: Seq<RowView>) -> bool {
    &&& forall|i: int, j: int| 0 <= i < j < rows.len() ==> key_lt(#[trigger] rows[i].0, #[trigger] rows[j].0)
    &&& forall|i: int| 0 <= i < rows.len() ==> refs_with(es, (#[trigger] rows[i]).0).len() > 0
    &&& forall|e: int| 0 <= e < es.len() ==> exists|i: int| 0 <= i < rows.len() && (#[trigger] rows[i]).0 == (#[trigger] es[e]).0
    &&& forall|i: int|
        0 <= i < rows.len() ==> ascending_refs((#[trigger] rows[i]).1) && rows[i].1.to_multiset() == refs_with(
            es,
            rows[i].0,
        ).to_multiset()
}

proof fn lemma_refs_with_push(es: Seq<(Seq<Seq<char>>, Seq<char>)>, e: (Seq<Seq<char>>, Seq<char>), k: Seq<Seq<char>>)
    ensures
        refs_with(es.push(e), k) == if e.0 == k {
            refs_with(es, k).push(e.1)
        } else {
            refs_with(es, k)
        },
{
    assert(es.push(e).drop_last() =~= es);
}

proof fn lemma_refs_with_witness(es: Seq<(Seq<Seq<char>>, Seq<char>)>, k: Seq<Seq<char>>)
    requires
        refs_with(es, k).len() > 0,
    ensures
        exists|e: int| 0 <= e < es.len() && (#[trigger] es[e]).0 == k,
    decreases es.len(),
{
    if es.last().0 != k {
        lemma_refs_with_witness(es.drop_last(), k);
        let e = choose|e: int| 0 <= e < es.drop_last().len() && (#[trigger] es.drop_last()[e]).0 == k;
        assert(es[e] == es.drop_last()[e]);
    } else {
        assert(es[es.len() - 1].0 == k);
    }
}

/// Adds a reference to ascending references, after those it does not precede.
fn insert_reference(refs: &mut Vec<String>, r: String)
    requires
        ascending_refs(views(old(refs)@)),
    ensures
        ascending_refs(views(final(refs)@)),
        views(final(refs)@).to_multiset() == views(old(refs)@).to_multiset().insert(r@),
{
    let ghost v = views(refs@);
    let mut q: usize = 0;
    while q < refs.len() && !text_less(r.as_str(), refs[q].as_str())
        invariant
            q <= refs@.len(),
            v == views(refs@),
            refs@ == old(refs)@,
            forall|j: int| 0 <= j < q ==> !text_lt(r@, #[trigger] v[j]),
        decreases refs@.len() - q,
    {
        q = q + 1;
    }
    let ghost rv = r@;
    refs.insert(q, r);
    proof {
        let w = views(refs@);
        assert(w =~= v.insert(q as int, rv));
        vstd::seq_lib::to_multiset_insert(v, q as int, rv);
        assert forall|i: int, j: int| 0 <= i < j < w.len() implies !text_lt(#[trigger] w[j], #[trigger] w[i]) by {
            if j < q {
                assert(w[i] == v[i] && w[j] == v[j]);
            } else if j == q {
                assert(w[i] == v[i] && w[j] == rv);
            } else if i < q {
                assert(w[i] == v[i] && w[j] == v[j - 1]);
            } else if i == q {
                assert(w[i] == rv && w[j] == v[j - 1]);
                assert(text_lt(rv, v[q as int]));
                if text_lt(v[j - 1], rv) {
                    if j - 1 > q {
                        lemma_text_lt_transitive(v[j - 1], rv, v[q as int]);
                    } else {
                        lemma_text_lt_total(rv, v[q as int]);
                    }
                }
            } else {
                assert(w[i] == v[i - 1] && w[j] == v[j - 1]);
            }
        }
    }
}

/// Files one entry under its key: into the row with that key, or into a new
/// row placed before the first larger key.
fn add_entry(
    rows: &mut Vec<BomRow>,
    key: Vec<String>,
    reference: String,
    Ghost(es): Ghost<Seq<(Seq<Seq<char>>, Seq<char>)>>,
)
    requires
        rows_spec(es, row_views(old(rows)@)),
    ensures
        rows_spec(es.push((views(key@), reference@)), row_views(final(rows)@)),
{
    let ghost k = views(key@);
    let ghost e = (k, reference@);
    let ghost es2 = es.push(e);
    let ghost old_rows = row_views(rows@);
    proof {
        assert forall|k2: Seq<Seq<char>>| #[trigger] refs_with(es2, k2) == if k2 == k {
            refs_with(es, k2).push(reference@)
        } else {
            refs_with(es, k2)
        } by {
            lemma_refs_with_push(es, e, k2);
        }
        assert forall|x: int| 0 <= x < es.len() implies (#[trigger] es2[x]) == es[x] by {}
        assert(es2[es.len() as int] == e);
    }
    let mut p: usize = 0;
    while p < rows.len() && key_less(&rows[p].key, &key)
        invariant
            p <= rows@.len(),
            row_views(rows@) == old_rows,
            k == views(key@),
            forall|j: int| 0 <= j < p ==> key_lt(#[trigger] old_rows[j].0, k),
        decreases rows@.len() - p,
    {
        p = p + 1;
    }
    if p < rows.len() && same_key(&rows[p].key, &key) {
        let mut row = rows.remove(p);
        let ghost old_refs = views(row.references@);
        assert(old_rows[p as int] == (views(row.key@), old_refs));
        assert(ascending_refs(old_rows[p as int].1));
        insert_reference(&mut row.references, reference);
        rows.insert(p, row);
        proof {
            let nr = row_views(rows@);
            assert(nr =~= old_rows.update(p as int, (k, nr[p as int].1)));
            assert(nr[p as int].1.to_multiset() == old_refs.to_multiset().insert(e.1));
            assert forall|i: int| 0 <= i < nr.len() && i != p implies (#[trigger] nr[i]).0 != k by {
                assert(nr[i] == old_rows[i]);
                if i < p {
                    assert(key_lt(old_rows[i].0, old_rows[p as int].0));
                } else {
                    assert(key_lt(old_rows[p as int].0, old_rows[i].0));
                }
                lemma_key_lt_irreflexive(k);
            }
            assert(refs_with(es2, k) == refs_with(es, k).push(e.1));
            assert(refs_with(es2, k).to_multiset() == refs_with(es, k).to_multiset().insert(e.1)) by {
                vstd::seq_lib::to_multiset_build(refs_with(es, k), e.1);
            }
            assert forall|x: int| 0 <= x < es2.len() implies exists|i: int| 0 <= i < nr.len() && (#[trigger] nr[i]).0 == (#[trigger] es2[x]).0 by {
                if x < es.len() {
                    let i = choose|i: int| 0 <= i < old_rows.len() && (#[trigger] old_rows[i]).0 == es[x].0;
                    assert(nr[i].0 == old_rows[i].0);
                } else {
                    assert(nr[p as int].0 == es2[x].0);
                }
            }
            assert forall|i: int| 0 <= i < nr.len() implies refs_with(es2, (#[trigger] nr[i]).0).len() > 0 by {
                if i != p {
                    assert(nr[i] == old_rows[i]);
                }
            }
            assert forall|i: int|
                0 <= i < nr.len() implies ascending_refs((#[trigger] nr[i]).1) && nr[i].1.to_multiset() == refs_with(
                es2,
                nr[i].0,
            ).to_multiset() by {
                if i != p {
                    assert(nr[i] == old_rows[i]);
                }
            }
        }
    } else {
        let mut refs: Vec<String> = Vec::new();
        refs.push(reference);
        let ghost new_refs = views(refs@);
        rows.insert(p, BomRow { key, references: refs });
        proof {
            let nr = row_views(rows@);
            assert(nr =~= old_rows.insert(p as int, (k, new_refs)));
            if (p as int) < old_rows.len() {
                lemma_key_lt_total(old_rows[p as int].0, k);
            }
            assert forall|j: int| p <= j < old_rows.len() implies key_lt(k, #[trigger] old_rows[j].0) by {
                if j > p {
                    lemma_key_lt_transitive(k, old_rows[p as int].0, old_rows[j].0);
                }
            }
            assert forall|i: int| 0 <= i < old_rows.len() implies (#[trigger] old_rows[i]).0 != k by {
                lemma_key_lt_irreflexive(k);
            }
            if refs_with(es, k).len() > 0 {
                lemma_refs_with_witness(es, k);
                let x = choose|x: int| 0 <= x < es.len() && (#[trigger] es[x]).0 == k;
                let i = choose|i: int| 0 <= i < old_rows.len() && (#[trigger] old_rows[i]).0 == es[x].0;
                assert(false);
            }
            assert(refs_with(es2, k) =~= new_refs);
            assert forall|i: int, j: int| 0 <= i < j < nr.len() implies key_lt(#[trigger] nr[i].0, #[trigger] nr[j].0) by {
                if j < p {
                    assert(nr[i] == old_rows[i] && nr[j] == old_rows[j]);
                } else if j == p {
                    assert(nr[i] == old_rows[i]);
                } else if i < p {
                    assert(nr[i] == old_rows[i] && nr[j] == old_rows[j - 1]);
                    lemma_key_lt_transitive(old_rows[i].0, k, old_rows[j - 1].0);
                } else if i == p {
                    assert(nr[j] == old_rows[j - 1]);
                } else {
                    assert(nr[i] == old_rows[i - 1] && nr[j] == old_rows[j - 1]);
                }
            }
            assert forall|x: int| 0 <= x < es2.len() implies exists|i: int| 0 <= i < nr.len() && (#[trigger] nr[i]).0 == (#[trigger] es2[x]).0 by {
                if x < es.len() {
                    let i = choose|i: int| 0 <= i < old_rows.len() && (#[trigger] old_rows[i]).0 == es[x].0;
                    if i < p {
                        assert(nr[i] == old_rows[i]);
                    } else {
                        assert(nr[i + 1] == old_rows[i]);
                    }
                } else {
                    assert(nr[p as int].0 == es2[x].0);
                }
            }
            assert forall|i: int|
                0 <= i < nr.len() implies refs_with(es2, (#[trigger] nr[i]).0).len() > 0 && ascending_refs(nr[i].1)
                && nr[i].1.to_multiset() == refs_with(es2, nr[i].0).to_multiset() by {
                if i < p {
                    assert(nr[i] == old_rows[i]);
                } else if i > p {
                    assert(nr[i] == old_rows[i - 1]);
                }
            }
        }
    }
}

/// Groups the board components by key: one row per key, in ascending order
/// of key, holding the references of its components in ascending order.
/// `limits` holds the provided-ratings column of each part assignment.
pub fn bom_rows(
    components: &Vec<LoweredComponent>,
    drawn: &Vec<DrawnComponent>,
    parts: &Vec<PhysicalPartAssignment>,
    limits: &Vec<String>,
) -> (rows: Vec<BomRow>)
    requires
        limits@.len() == parts@.len(),
    ensures
        rows_spec(bom_entries(components@, drawn@, parts@, limits@), row_views(rows@)),
{
    let mut rows: Vec<BomRow> = Vec::new();
    let mut i: usize = 0;
    proof {
        assert(components@.take(0) =~= Seq::<LoweredComponent>::empty());
        assert(row_views(rows@) =~= Seq::<RowView>::empty());
    }
    while i < components.len()
        invariant
            i <= components@.len(),
            limits@.len() == parts@.len(),
            rows_spec(bom_entries(components@.take(i as int), drawn@, parts@, limits@), row_views(rows@)),
        decreases components@.len() - i,
    {
        let ghost es = bom_entries(components@.take(i as int), drawn@, parts@, limits@);
        assert(components@.take(i + 1).drop_last() =~= components@.take(i as int));
        assert(components@.take(i + 1).last() == components@[i as int]);
        if included_in_bom(&components[i].kind) {
            let key = component_key(&components[i], drawn, parts, limits);
            let reference = reference_column(&components[i], drawn);
            add_entry(&mut rows, key, reference, Ghost(es));
        }
        i = i + 1;
    }
    assert(components@.take(i as int) =~= components@);
    rows
}

/// Two strictly increasing sequences of keys with the same keys are equal.
proof fn lemma_keys_unique(a: Seq<Seq<Seq<char>>>, b: Seq<Seq<Seq<char>>>)
    requires
        forall|i: int, j: int| 0 <= i < j < a.len() ==> key_lt(#[trigger] a[i], #[trigger] a[j]),
        forall|i: int, j: int| 0 <= i < j < b.len() ==> key_lt(#[trigger] b[i], #[trigger] b[j]),
        forall|s: Seq<Seq<char>>| a.contains(s) <==> b.contains(s),
    ensures
        a == b,
    decreases a.len(),
{
    if a.len() == 0 {
        if b.len() > 0 {
            assert(b.contains(b[0]));
        }
        assert(a =~= b);
    } else {
        assert(a.contains(a[0]));
        assert(b.contains(b[0]));
        let i = choose|i: int| 0 <= i < b.len() && b[i] == a[0];
        let j = choose|j: int| 0 <= j < a.len() && a[j] == b[0];
        if i > 0 {
            assert(key_lt(b[0], b[i]));
            if j > 0 {
                assert(key_lt(a[0], a[j]));
                lemma_key_lt_total(a[0], b[0]);
            }
            lemma_key_lt_irreflexive(a[0]);
        }
        assert(a[0] == b[0]);
        let a1 = a.drop_first();
        let b1 = b.drop_first();
        assert forall|s: Seq<Seq<char>>| a1.contains(s) <==> b1.contains(s) by {
            if a1.contains(s) {
                let k = choose|k: int| 0 <= k < a1.len() && a1[k] == s;
                assert(a[k + 1] == s);
                assert(b.contains(s));
                let m = choose|m: int| 0 <= m < b.len() && b[m] == s;
                if m == 0 {
                    assert(key_lt(a[0], a[k + 1]));
                    lemma_key_lt_irreflexive(a[0]);
                }
                assert(b1[m - 1] == s);
            }
            if b1.contains(s) {
                let k = choose|k: int| 0 <= k < b1.len() && b1[k] == s;
                assert(b[k + 1] == s);
                assert(a.contains(s));
                let m = choose|m: int| 0 <= m < a.len() && a[m] == s;
                if m == 0 {
                    assert(key_lt(b[0], b[k + 1]));
                    lemma_key_lt_irreflexive(b[0]);
                }
                assert(a1[m - 1] == s);
            }
        }
        assert forall|x: int, y: int| 0 <= x < y < a1.len() implies key_lt(#[trigger] a1[x], #[trigger] a1[y]) by {
            assert(a1[x] == a[x + 1] && a1[y] == a[y + 1]);
        }
        assert forall|x: int, y: int| 0 <= x < y < b1.len() implies key_lt(#[trigger] b1[x], #[trigger] b1[y]) by {
            assert(b1[x] == b[x + 1] && b1[y] == b[y + 1]);
        }
        lemma_keys_unique(a1, b1);
        assert(a =~= seq![a[0]] + a1);
        assert(b =~= seq![b[0]] + b1);
    }
}

/// Two ascending sequences of names with the same names, counted with
/// repetition, are equal.
proof fn lemma_ascending_unique(a: Seq<Seq<char>>, b: Seq<Seq<char>>)
    requires
        ascending_refs(a),
        ascending_refs(b),
        a.to_multiset() == b.to_multiset(),
    ensures
        a == b,
    decreases a.len(),
{
    broadcast use vstd::seq_lib::to_multiset_contains;

    if a.len() == 0 {
        if b.len() > 0 {
            assert(b.contains(b[0]));
            assert(b.to_multiset().count(b[0]) > 0);
            assert(a.to_multiset().count(b[0]) > 0);
            assert(a.contains(b[0]));
        }
        assert(a =~= b);
    } else {
        assert(a.contains(a[0]));
        assert(a.to_multiset().count(a[0]) > 0);
        assert(b.to_multiset().count(a[0]) > 0);
        assert(b.contains(a[0]));
        assert(b.len() > 0);
        assert(b.contains(b[0]));
        assert(b.to_multiset().count(b[0]) > 0);
        assert(a.contains(b[0]));
        let i = choose|i: int| 0 <= i < b.len() && b[i] == a[0];
        let j = choose|j: int| 0 <= j < a.len() && a[j] == b[0];
        if i > 0 {
            assert(!text_lt(b[i], b[0]));
        }
        if j > 0 {
            assert(!text_lt(a[j], a[0]));
        }
        lemma_text_lt_total(a[0], b[0]);
        assert(a[0] == b[0]);
        let a1 = a.drop_first();
        let b1 = b.drop_first();
        vstd::seq_lib::to_multiset_remove(a, 0);
        vstd::seq_lib::to_multiset_remove(b, 0);
        assert(a.remove(0) =~= a1);
        assert(b.remove(0) =~= b1);
        assert forall|x: int, y: int| 0 <= x < y < a1.len() implies !text_lt(#[trigger] a1[y], #[trigger] a1[x]) by {
            assert(a1[x] == a[x + 1] && a1[y] == a[y + 1]);
        }
        assert forall|x: int, y: int| 0 <= x < y < b1.len() implies !text_lt(#[trigger] b1[y], #[trigger] b1[x]) by {
            assert(b1[x] == b[x + 1] && b1[y] == b[y + 1]);
        }
        lemma_ascending_unique(a1, b1);
        assert(a =~= seq![a[0]] + a1);
        assert(b =~= seq![b[0]] + b1);
    }
}

/// The rows of a bill are determined by its entries: two row lists that both
/// meet `rows_spec` for the same entries are the same list.
pub proof fn lemma_rows_unique(
    es: Seq<(Seq<Seq<char>>, Seq<char>)>,
    r1: Seq<RowView>,
    r2: Seq<RowView>,
)
    requires
        rows_spec(es, r1),
        rows_spec(es, r2),
    ensures
        r1 == r2,
{
    let k1 = r1.map_values(|r: RowView| r.0);
    let k2 = r2.map_values(|r: RowView| r.0);
    assert forall|i: int, j: int| 0 <= i < j < k1.len() implies key_lt(#[trigger] k1[i], #[trigger] k1[j]) by {
        assert(key_lt(r1[i].0, r1[j].0));
    }
    assert forall|i: int, j: int| 0 <= i < j < k2.len() implies key_lt(#[trigger] k2[i], #[trigger] k2[j]) by {
        assert(key_lt(r2[i].0, r2[j].0));
    }
    assert forall|s: Seq<Seq<char>>| k1.contains(s) <==> k2.contains(s) by {
        if k1.contains(s) {
            let i = choose|i: int| 0 <= i < k1.len() && k1[i] == s;
            assert(refs_with(es, r1[i].0).len() > 0);
            lemma_refs_with_witness(es, s);
            let e = choose|e: int| 0 <= e < es.len() && (#[trigger] es[e]).0 == s;
            let j = choose|j: int| 0 <= j < r2.len() && (#[trigger] r2[j]).0 == es[e].0;
            assert(k2[j] == s);
        }
        if k2.contains(s) {
            let i = choose|i: int| 0 <= i < k2.len() && k2[i] == s;
            assert(refs_with(es, r2[i].0).len() > 0);
            lemma_refs_with_witness(es, s);
            let e = choose|e: int| 0 <= e < es.len() && (#[trigger] es[e]).0 == s;
            let j = choose|j: int| 0 <= j < r1.len() && (#[trigger] r1[j]).0 == es[e].0;
            assert(k1[j] == s);
        }
    }
    lemma_keys_unique(k1, k2);
    assert(r1.len() == r2.len());
    assert forall|i: int| 0 <= i < r1.len() implies r1[i] == r2[i] by {
        assert(k1[i] == k2[i]);
        assert(ascending_refs(r1[i].1) && ascending_refs(r2[i].1));
        lemma_ascending_unique(r1[i].1, r2[i].1);
    }
    assert(r1 =~= r2);
}

// ---------------------------------------------------------------------------
// The CSV text.

pub open spec fn bom_header() -> Seq<char> {
    "item,quantity,references,component_kind,electrical,manufacturer,mpn,footprint,pin_map,selection_status,eda_status,provided_ratings,rating_conditions,rating_sources,note\r\n"@
}

/// A cell: quoted, with quotes doubled.
pub open spec fn csv_cell(s: Seq<char>) -> Seq<char> {
    seq!['"'] + double_quotes(s) + seq!['"']
}

/// Cells separated by commas, ending the line.
pub open spec fn csv_line(cells: Seq<Seq<char>>) -> Seq<char> {
    join(cells.map_values(|c: Seq<char>| csv_cell(c)), ","@) + "\r\n"@
}

/// The cells of row `i` (counted from 0): item number, quantity, the
/// references separated by `;`, then the shared columns.
pub open spec fn row_cells(i: int, r: RowView) -> Seq<Seq<char>> {
    seq![nat_text((i + 1) as nat), nat_text(r.1.len()), join(r.1, ";"@)] + r.0
}

/// The header, then one line per row.
pub open spec fn bom_text(rows: Seq<RowView>) -> Seq<char>
    decreases rows.len(),
{
    if rows.len() == 0 {
        bom_header()
    } else {
        bom_text(rows.drop_last()) + csv_line(row_cells(rows.len() - 1, rows.last()))
    }
}

fn csv_cell_exec(text: &str) -> (r: String)
    ensures
        r@ == csv_cell(text@),
{
    let cs = chars_of(text);
    let mut r = String::new();
    push_char(&mut r, '"');
    let ghost head = r@;
    let mut i: usize = 0;
    assert(cs@.take(0) =~= Seq::<char>::empty());
    while i < cs.len()
        invariant
            i <= cs@.len(),
            cs@ == text@,
            head == seq!['"'],
            r@ == head + double_quotes(cs@.take(i as int)),
        decreases cs.len() - i,
    {
        assert(cs@.take(i + 1).drop_last() =~= cs@.take(i as int));
        if cs[i] == '"' {
            push_char(&mut r, '"');
            push_char(&mut r, '"');
        } else {
            push_char(&mut r, cs[i]);
        }
        assert(r@ =~= head + double_quotes(cs@.take(i + 1)));
        i = i + 1;
    }
    assert(cs@.take(i as int) =~= cs@);
    push_char(&mut r, '"');
    r
}

fn csv_line_exec(cells: &Vec<String>) -> (r: String)
    ensures
        r@ == csv_line(views(cells@)),
{
    let ghost want = views(cells@).map_values(|c: Seq<char>| csv_cell(c));
    let mut quoted: Vec<String> = Vec::new();
    let mut i: usize = 0;
    while i < cells.len()
        invariant
            i <= cells@.len(),
            want == views(cells@).map_values(|c: Seq<char>| csv_cell(c)),
            views(quoted@) == want.take(i as int),
        decreases cells@.len() - i,
    {
        let q = csv_cell_exec(cells[i].as_str());
        let ghost qv = q@;
        let ghost before = quoted@;
        assert(views(before).len() == i);
        quoted.push(q);
        assert(views(quoted@) =~= want.take(i + 1)) by {
            assert(quoted@[i as int]@ == qv);
            assert forall|j: int| 0 <= j < i implies quoted@[j]@ == before[j]@ by {}
            assert forall|j: int| 0 <= j < i implies views(before)[j] == want[j] by {}
        }
        i = i + 1;
    }
    assert(want.take(i as int) =~= want);
    let mut r = join_text(&quoted, ",");
    append_str(&mut r, "\r\n");
    r
}

/// The bill's text for its rows.
pub fn bom_csv_text(rows: &Vec<BomRow>) -> (r: String)
    ensures
        r@ == bom_text(row_views(rows@)),
{
    let mut out = owned("item,quantity,references,component_kind,electrical,manufacturer,mpn,footprint,pin_map,selection_status,eda_status,provided_ratings,rating_conditions,rating_sources,note\r\n");
    let ghost rv = row_views(rows@);
    let mut i: usize = 0;
    assert(rv.take(0) =~= Seq::<RowView>::empty());
    while i < rows.len()
        invariant
            i <= rows@.len(),
            rv == row_views(rows@),
            out@ == bom_text(rv.take(i as int)),
        decreases rows@.len() - i,
    {
        let row = &rows[i];
        let mut cells: Vec<String> = Vec::new();
        cells.push(usize_text(i + 1));
        cells.push(usize_text(row.references.len()));
        cells.push(join_text(&row.references, ";"));
        let mut j: usize = 0;
        while j < row.key.len()
            invariant
                j <= row.key@.len(),
                cells@.len() == 3 + j,
                forall|x: int| 0 <= x < j ==> (#[trigger] cells@[3 + x])@ == row.key@[x]@,
                cells@[0]@ == nat_text((i + 1) as nat),
                cells@[1]@ == nat_text(row.references@.len()),
                cells@[2]@ == join(views(row.references@), ";"@),
            decreases row.key@.len() - j,
        {
            cells.push(row.key[j].clone());
            j = j + 1;
        }
        assert(views(cells@) =~= row_cells(i as int, rv[i as int])) by {
            let rc = row_cells(i as int, rv[i as int]);
            assert(rv[i as int] == (views(row.key@), views(row.references@)));
            assert(views(row.references@).len() == row.references@.len());
            assert(rc.len() == cells@.len());
            assert forall|x: int| 0 <= x < cells@.len() implies views(cells@)[x] == rc[x] by {
                if x >= 3 {
                    assert(cells@[3 + (x - 3)]@ == row.key@[x - 3]@);
                }
            }
        }
        let line = csv_line_exec(&cells);
        append_str(&mut out, line.as_str());
        assert(rv.take(i + 1).drop_last() =~= rv.take(i as int));
        i = i + 1;
    }
    assert(rv.take(i as int) =~= rv);
    out
}

/// The bill of materials as CSV bytes: a header line, then one line per
/// group of board components that share kind, electrical value, part,
/// footprint, pad mapping, statuses, ratings and note, in ascending order of
/// those columns; each line numbers its group, counts it and lists its
/// references in ascending order. `drawn` is what the schematic shows of the
/// components; `limits` holds the provided-ratings column of each part
/// assignment. The rows are the only ones that `rows_spec` admits
/// (`lemma_rows_unique`).
pub fn generate_bom_csv(
    components: &Vec<LoweredComponent>,
    parts: &PhysicalPartManifest,
    drawn: &Vec<DrawnComponent>,
    limits: &Vec<String>,
) -> (r: Vec<u8>)
    requires
        limits@.len() == parts.assignments@.len(),
    ensures
        exists|rows: Seq<RowView>|
            rows_spec(bom_entries(components@, drawn@, parts.assignments@, limits@), rows) && r@
                == vstd::utf8::encode_utf8(#[trigger] bom_text(rows)),
{
    let rows = bom_rows(components, drawn, &parts.assignments, limits);
    let text = bom_csv_text(&rows);
    let bytes = text.as_str().as_bytes_vec();
    assert(rows_spec(bom_entries(components@, drawn@, parts.assignments@, limits@), row_views(rows@)));
    assert(bytes@ == vstd::utf8::encode_utf8(bom_text(row_views(rows@))));
    bytes
}

} // verus!
