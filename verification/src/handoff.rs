//! The manufacturing handoff: which footprints and external model files a
//! circuit depends on, which electrical components still lack a physical
//! part, and what the receiver must be warned about.
use crate::capabilities::{HANDOFF_SCHEMA_VERSION, PRODUCT_VERSION};
use crate::graph::TopologyComponent;
use crate::hashing::{sha256_hex, sha256_hex_spec};
use crate::ir::{views, ComponentKind, ModelManifest, ModelManifestEntry, RedistributionPolicy};
use crate::parts::{
    assignment_views, comp_entries, insert_keyed, keyed_has, lemma_insert_keyed_split, sort_keyed,
    AssignmentView, PhysicalPartManifest, PinPair,
};
use crate::text::{append_str, owned, pair_views, text_is, text_less, text_lt};
use vstd::prelude::*;

verus! {

/// Said of every handoff that carries maker-stated ratings.
pub const PART_STRESS_DISCLAIMER: &'static str =
    "Provided part ratings are copied as stated; compare simulated stress against the part maker's data before release.";

#[derive(Debug, Clone)]
pub struct HandoffCounts {
    pub electrical_components: usize,
    pub assigned_parts: usize,
    pub eda_ready_footprints: usize,
    pub external_model_dependencies: usize,
    pub provided_part_ratings: usize,
}

/// A footprint an assignment names; ready for EDA when its pads are mapped.
#[derive(Debug, Clone)]
pub struct FootprintDependency {
    pub component: String,
    pub footprint: String,
    pub pin_map: Vec<(String, String)>,
    pub eda_ready: bool,
}

/// An external model file the circuit needs, bound by its digest.
#[derive(Debug, Clone)]
pub struct ModelDependency {
    pub model: String,
    pub resource: String,
    pub entry: String,
    pub sha256: String,
    pub simulator: String,
    pub redistribution: String,
}

#[derive(Debug, Clone)]
pub struct HandoffManifest {
    pub schema_version: String,
    pub generator: String,
    pub generator_version: String,
    pub compile_schema_version: String,
    pub circuit_ir_sha256: String,
    pub counts: HandoffCounts,
    pub physical_parts: PhysicalPartManifest,
    pub footprints: Vec<FootprintDependency>,
    pub model_dependencies: Vec<ModelDependency>,
    pub unresolved_components: Vec<String>,
    pub warnings: Vec<String>,
}

/// The kinds that stand for a part on the board: not module interfaces and
/// not independent sources.
pub open spec fn in_bom(k: ComponentKind) -> bool {
    k != ComponentKind::ModulePort && k != ComponentKind::VoltageSource && k != ComponentKind::CurrentSource
}

pub fn included_in_bom(kind: &ComponentKind) -> (r: bool)
    ensures
        r == in_bom(*kind),
{
    match kind {
        ComponentKind::ModulePort | ComponentKind::VoltageSource | ComponentKind::CurrentSource => false,
        _ => true,
    }
}

/// Component, then footprint, pad mapping and readiness.
pub type FootprintView = (Seq<char>, (Seq<char>, Seq<PinPair>, bool));

pub open spec fn footprint_views(v: Seq<FootprintDependency>) -> Seq<FootprintView> {
    v.map_values(|f: FootprintDependency| (f.component@, (f.footprint@, pair_views(f.pin_map@), f.eda_ready)))
}

/// The footprints of the assignments that name one, in assignment order.
pub open spec fn footprints_of(a: Seq<AssignmentView>) -> Seq<FootprintView>
    decreases a.len(),
{
    if a.len() == 0 {
        seq![]
    } else {
        let rest = footprints_of(a.drop_last());
        let x = a.last();
        match x.1.2 {
            Some(fp) => rest.push((x.0, (fp, x.1.3, x.1.3.len() > 0))),
            None => rest,
        }
    }
}

/// Model, then resource, entry, digest, simulator and redistribution.
pub type DependencyView = (Seq<char>, (Seq<char>, Seq<char>, Seq<char>, Seq<char>, Seq<char>));

pub open spec fn dependency_views(v: Seq<ModelDependency>) -> Seq<DependencyView> {
    v.map_values(
        |d: ModelDependency| (d.model@, (d.resource@, d.entry@, d.sha256@, d.simulator@, d.redistribution@)),
    )
}

pub open spec fn redistribution_text(p: RedistributionPolicy) -> Seq<char> {
    match p {
        RedistributionPolicy::Permitted => "permitted"@,
        RedistributionPolicy::Prohibited => "prohibited"@,
    }
}

/// The external models of a manifest, in manifest order.
pub open spec fn dependencies_of(m: Seq<ModelManifestEntry>) -> Seq<DependencyView>
    decreases m.len(),
{
    if m.len() == 0 {
        seq![]
    } else {
        let rest = dependencies_of(m.drop_last());
        let e = m.last();
        match e.external {
            Some(x) => rest.push(
                (
                    e.name@,
                    (
                        x.resource@,
                        x.entry@,
                        e.provenance.content_hash@,
                        e.provenance.simulator@,
                        redistribution_text(x.redistribution),
                    ),
                ),
            ),
            None => rest,
        }
    }
}

/// The board components, in circuit order, that no assignment covers.
pub open spec fn unresolved_of(c: Seq<(Seq<char>, ComponentKind)>, a: Seq<AssignmentView>) -> Seq<Seq<char>>
    decreases c.len(),
{
    if c.len() == 0 {
        seq![]
    } else {
        let rest = unresolved_of(c.drop_last(), a);
        if in_bom(c.last().1) && !keyed_has(a, c.last().0) {
            rest.push(c.last().0)
        } else {
            rest
        }
    }
}

pub open spec fn bom_count(c: Seq<(Seq<char>, ComponentKind)>) -> nat
    decreases c.len(),
{
    if c.len() == 0 {
        0
    } else {
        bom_count(c.drop_last()) + if in_bom(c.last().1) { 1nat } else { 0nat }
    }
}

pub open spec fn ready_count(f: Seq<FootprintView>) -> nat
    decreases f.len(),
{
    if f.len() == 0 {
        0
    } else {
        ready_count(f.drop_last()) + if f.last().1.2 { 1nat } else { 0nat }
    }
}

/// The number of maker-stated ratings over all assignments.
pub open spec fn ratings_total(a: Seq<AssignmentView>) -> nat
    decreases a.len(),
{
    if a.len() == 0 {
        0
    } else {
        ratings_total(a.drop_last()) + a.last().1.5.len()
    }
}

pub open spec fn any_unready(f: Seq<FootprintView>) -> bool {
    exists|i: int| 0 <= i < f.len() && !(#[trigger] f[i]).1.2
}

pub open spec fn any_prohibited(d: Seq<DependencyView>) -> bool {
    exists|i: int| 0 <= i < d.len() && (#[trigger] d[i]).1.4 == "prohibited"@
}

pub open spec fn warnings_spec(
    unresolved: Seq<Seq<char>>,
    f: Seq<FootprintView>,
    d: Seq<DependencyView>,
    ratings: nat,
) -> Seq<Seq<char>> {
    let w1: Seq<Seq<char>> = if unresolved.len() > 0 {
        seq!["Unassigned electrical components remain; the BOM is not procurement-complete."@]
    } else {
        seq![]
    };
    let w2 = if any_unready(f) {
        w1.push("A footprint without a complete pin map is recorded but not safe for automatic EDA attachment."@)
    } else {
        w1
    };
    let w3 = if any_prohibited(d) {
        w2.push(
            "One or more external model bodies cannot be redistributed; provide the exact hash-bound files separately."@,
        )
    } else {
        w2
    };
    if ratings > 0 {
        w3.push(PART_STRESS_DISCLAIMER@)
    } else {
        w3
    }
}


fn copy_pairs(v: &Vec<(String, String)>) -> (r: Vec<(String, String)>)
    ensures
        pair_views(r@) == pair_views(v@),
{
    let mut r: Vec<(String, String)> = Vec::new();
    let mut i: usize = 0;
    while i < v.len()
        invariant
            i <= v.len(),
            pair_views(r@) == pair_views(v@).take(i as int),
        decreases v.len() - i,
    {
        let ghost before = pair_views(r@);
        let x = (owned(v[i].0.as_str()), owned(v[i].1.as_str()));
        r.push(x);
        assert(pair_views(r@) =~= before.push((x.0@, x.1@)));
        assert(pair_views(v@).take(i + 1) =~= pair_views(v@).take(i as int).push((v@[i as int].0@, v@[i as int].1@)));
        i = i + 1;
    }
    assert(pair_views(v@).take(v.len() as int) =~= pair_views(v@));
    r
}

fn insert_footprint(v: &mut Vec<FootprintDependency>, x: FootprintDependency)
    ensures
        footprint_views(final(v)@) == insert_keyed(
            footprint_views(old(v)@),
            (x.component@, (x.footprint@, pair_views(x.pin_map@), x.eda_ready)),
        ),
{
    let ghost s = footprint_views(v@);
    let ghost xv: FootprintView = (x.component@, (x.footprint@, pair_views(x.pin_map@), x.eda_ready));
    let mut p: usize = 0;
    while p < v.len() && !text_less(x.component.as_str(), v[p].component.as_str())
        invariant
            p <= v.len(),
            s == footprint_views(v@),
            forall|j: int| 0 <= j < p ==> !text_lt(x.component@, #[trigger] s[j].0),
        decreases v.len() - p,
    {
        p = p + 1;
    }
    proof {
        lemma_insert_keyed_split(s, xv, p as int);
    }
    v.insert(p, x);
    assert(footprint_views(v@) =~= s.take(p as int).push(xv) + s.skip(p as int));
}

/// The footprints the assignments name, in ascending order of component.
fn collect_footprints(parts: &PhysicalPartManifest) -> (r: Vec<FootprintDependency>)
    ensures
        footprint_views(r@) == sort_keyed(footprints_of(assignment_views(parts.assignments@))),
{
    let ghost av = assignment_views(parts.assignments@);
    let mut r: Vec<FootprintDependency> = Vec::new();
    let mut i: usize = 0;
    assert(footprint_views(r@) =~= Seq::<FootprintView>::empty());
    while i < parts.assignments.len()
        invariant
            i <= parts.assignments.len(),
            av == assignment_views(parts.assignments@),
            footprint_views(r@) == sort_keyed(footprints_of(av.take(i as int))),
        decreases parts.assignments.len() - i,
    {
        let a = &parts.assignments[i];
        proof {
            assert(av.take(i + 1).drop_last() =~= av.take(i as int));
            assert(av.take(i + 1).last() == crate::parts::assignment_view(*a));
        }
        match &a.footprint {
            Some(fp) => {
                let x = FootprintDependency {
                    component: owned(a.component.as_str()),
                    footprint: owned(fp.as_str()),
                    pin_map: copy_pairs(&a.pin_map),
                    eda_ready: a.pin_map.len() > 0,
                };
                proof {
                    let f = footprints_of(av.take(i as int));
                    let xv: FootprintView = (x.component@, (x.footprint@, pair_views(x.pin_map@), x.eda_ready));
                    assert(f.push(xv).drop_last() =~= f);
                }
                insert_footprint(&mut r, x);
            },
            None => {},
        }
        i = i + 1;
    }
    assert(av.take(parts.assignments.len() as int) =~= av);
    r
}

fn insert_dependency(v: &mut Vec<ModelDependency>, x: ModelDependency)
    ensures
        dependency_views(final(v)@) == insert_keyed(
            dependency_views(old(v)@),
            (x.model@, (x.resource@, x.entry@, x.sha256@, x.simulator@, x.redistribution@)),
        ),
{
    let ghost s = dependency_views(v@);
    let ghost xv: DependencyView = (x.model@, (x.resource@, x.entry@, x.sha256@, x.simulator@, x.redistribution@));
    let mut p: usize = 0;
    while p < v.len() && !text_less(x.model.as_str(), v[p].model.as_str())
        invariant
            p <= v.len(),
            s == dependency_views(v@),
            forall|j: int| 0 <= j < p ==> !text_lt(x.model@, #[trigger] s[j].0),
        decreases v.len() - p,
    {
        p = p + 1;
    }
    proof {
        lemma_insert_keyed_split(s, xv, p as int);
    }
    v.insert(p, x);
    assert(dependency_views(v@) =~= s.take(p as int).push(xv) + s.skip(p as int));
}

fn redistribution_name(p: RedistributionPolicy) -> (s: &'static str)
    ensures
        s@ == redistribution_text(p),
{
    match p {
        RedistributionPolicy::Permitted => "permitted",
        RedistributionPolicy::Prohibited => "prohibited",
    }
}

/// The external models of the manifest, in ascending order of model name.
fn collect_dependencies(models: &ModelManifest) -> (r: Vec<ModelDependency>)
    ensures
        dependency_views(r@) == sort_keyed(dependencies_of(models.models@)),
{
    let ghost mv = models.models@;
    let mut r: Vec<ModelDependency> = Vec::new();
    let mut i: usize = 0;
    assert(dependency_views(r@) =~= Seq::<DependencyView>::empty());
    while i < models.models.len()
        invariant
            i <= models.models.len(),
            mv == models.models@,
            dependency_views(r@) == sort_keyed(dependencies_of(mv.take(i as int))),
        decreases models.models.len() - i,
    {
        let e = &models.models[i];
        proof {
            assert(mv.take(i + 1).drop_last() =~= mv.take(i as int));
            assert(mv.take(i + 1).last() == *e);
        }
        match &e.external {
            Some(x) => {
                let d = ModelDependency {
                    model: owned(e.name.as_str()),
                    resource: owned(x.resource.as_str()),
                    entry: owned(x.entry.as_str()),
                    sha256: owned(e.provenance.content_hash.as_str()),
                    simulator: owned(e.provenance.simulator.as_str()),
                    redistribution: owned(redistribution_name(x.redistribution)),
                };
                proof {
                    let f = dependencies_of(mv.take(i as int));
                    let dv: DependencyView = (d.model@, (d.resource@, d.entry@, d.sha256@, d.simulator@, d.redistribution@));
                    assert(f.push(dv).drop_last() =~= f);
                }
                insert_dependency(&mut r, d);
            },
            None => {},
        }
        i = i + 1;
    }
    assert(mv.take(models.models.len() as int) =~= mv);
    r
}

fn is_assigned(parts: &PhysicalPartManifest, id: &String) -> (r: bool)
    ensures
        r == keyed_has(assignment_views(parts.assignments@), id@),
{
    let ghost av = assignment_views(parts.assignments@);
    let mut i: usize = 0;
    while i < parts.assignments.len()
        invariant
            i <= parts.assignments.len(),
            av == assignment_views(parts.assignments@),
            forall|j: int| 0 <= j < i ==> (#[trigger] av[j]).0 != id@,
        decreases parts.assignments.len() - i,
    {
        assert(av[i as int].0 == parts.assignments@[i as int].component@);
        if text_is(parts.assignments[i].component.as_str(), id.as_str()) {
            return true;
        }
        i = i + 1;
    }
    false
}

/// Builds the handoff for a circuit: its components, its model manifest,
/// its compiled part assignments and the bytes of its serialized form,
/// which the handoff binds by digest.
pub fn generate_handoff_manifest(
    components: &Vec<TopologyComponent>,
    models: &ModelManifest,
    parts: PhysicalPartManifest,
    compile_schema_version: &str,
    circuit_json: &[u8],
) -> (m: HandoffManifest)
    requires
        ratings_total(assignment_views(parts.assignments@)) <= usize::MAX,
    ensures
        ({
            let av = assignment_views(parts.assignments@);
            let cv = comp_entries(components@);
            let fps = sort_keyed(footprints_of(av));
            let deps = sort_keyed(dependencies_of(models.models@));
            let unresolved = unresolved_of(cv, av);
            &&& m.schema_version@ == HANDOFF_SCHEMA_VERSION@
            &&& m.generator@ == "kessetsu-handoff"@
            &&& m.generator_version@ == PRODUCT_VERSION@
            &&& m.compile_schema_version@ == compile_schema_version@
            &&& m.circuit_ir_sha256@ == "sha256:"@ + sha256_hex_spec(circuit_json@)
            &&& m.physical_parts == parts
            &&& footprint_views(m.footprints@) == fps
            &&& dependency_views(m.model_dependencies@) == deps
            &&& views(m.unresolved_components@) == unresolved
            &&& m.counts.electrical_components == bom_count(cv)
            &&& m.counts.assigned_parts == parts.assignments@.len()
            &&& m.counts.eda_ready_footprints == ready_count(fps)
            &&& m.counts.external_model_dependencies == deps.len()
            &&& m.counts.provided_part_ratings == ratings_total(av)
            &&& views(m.warnings@) == warnings_spec(unresolved, fps, deps, ratings_total(av))
        }),
{
    let ghost av = assignment_views(parts.assignments@);
    let ghost cv = comp_entries(components@);
    let footprints = collect_footprints(&parts);
    let model_dependencies = collect_dependencies(models);
    let ghost fps = footprint_views(footprints@);
    let ghost deps = dependency_views(model_dependencies@);

    let mut unresolved: Vec<String> = Vec::new();
    let mut electrical: usize = 0;
    let mut i: usize = 0;
    assert(views(unresolved@) =~= Seq::<Seq<char>>::empty());
    while i < components.len()
        invariant
            i <= components.len(),
            cv == comp_entries(components@),
            av == assignment_views(parts.assignments@),
            views(unresolved@) == unresolved_of(cv.take(i as int), av),
            electrical == bom_count(cv.take(i as int)),
            electrical <= i,
        decreases components.len() - i,
    {
        let c = &components[i];
        proof {
            assert(cv.take(i + 1).drop_last() =~= cv.take(i as int));
            assert(cv.take(i + 1).last() == (c.id@, c.kind));
        }
        if included_in_bom(&c.kind) {
            electrical = electrical + 1;
            if !is_assigned(&parts, &c.id) {
                let ghost before = views(unresolved@);
                unresolved.push(owned(c.id.as_str()));
                assert(views(unresolved@) =~= before.push(c.id@));
            }
        }
        i = i + 1;
    }
    assert(cv.take(components.len() as int) =~= cv);

    let mut ready: usize = 0;
    let mut unready = false;
    let mut j: usize = 0;
    while j < footprints.len()
        invariant
            j <= footprints.len(),
            fps == footprint_views(footprints@),
            ready == ready_count(fps.take(j as int)),
            ready <= j,
            unready == exists|k: int| 0 <= k < j && !(#[trigger] fps[k]).1.2,
        decreases footprints.len() - j,
    {
        proof {
            assert(fps.take(j + 1).drop_last() =~= fps.take(j as int));
            assert(fps.take(j + 1).last() == fps[j as int]);
        }
        if footprints[j].eda_ready {
            ready = ready + 1;
        } else {
            unready = true;
        }
        j = j + 1;
    }
    assert(fps.take(footprints.len() as int) =~= fps);

    let mut prohibited = false;
    let mut k: usize = 0;
    while k < model_dependencies.len()
        invariant
            k <= model_dependencies.len(),
            deps == dependency_views(model_dependencies@),
            prohibited == exists|q: int| 0 <= q < k && (#[trigger] deps[q]).1.4 == "prohibited"@,
        decreases model_dependencies.len() - k,
    {
        assert(deps[k as int].1.4 == model_dependencies@[k as int].redistribution@);
        if text_is(model_dependencies[k].redistribution.as_str(), "prohibited") {
            prohibited = true;
        }
        k = k + 1;
    }

    let mut ratings: usize = 0;
    let mut n: usize = 0;
    while n < parts.assignments.len()
        invariant
            n <= parts.assignments.len(),
            av == assignment_views(parts.assignments@),
            ratings == ratings_total(av.take(n as int)),
            ratings_total(av) <= usize::MAX,
        decreases parts.assignments.len() - n,
    {
        proof {
            assert(av.take(n + 1).drop_last() =~= av.take(n as int));
            assert(av.take(n + 1).last() == crate::parts::assignment_view(parts.assignments@[n as int]));
            lemma_ratings_total_prefix(av, n + 1);
        }
        ratings = ratings + parts.assignments[n].ratings.len();
        n = n + 1;
    }
    assert(av.take(parts.assignments.len() as int) =~= av);

    let mut warnings: Vec<String> = Vec::new();
    if unresolved.len() > 0 {
        warnings.push(owned("Unassigned electrical components remain; the BOM is not procurement-complete."));
    }
    if unready {
        warnings.push(
            owned("A footprint without a complete pin map is recorded but not safe for automatic EDA attachment."),
        );
    }
    if prohibited {
        warnings.push(
            owned(
                "One or more external model bodies cannot be redistributed; provide the exact hash-bound files separately.",
            ),
        );
    }
    if ratings > 0 {
        warnings.push(owned(PART_STRESS_DISCLAIMER));
    }
    assert(views(warnings@) =~= warnings_spec(views(unresolved@), fps, deps, ratings_total(av)));

    let mut digest = owned("sha256:");
    let hex = sha256_hex(circuit_json);
    append_str(&mut digest, hex.as_str());
    let counts = HandoffCounts {
        electrical_components: electrical,
        assigned_parts: parts.assignments.len(),
        eda_ready_footprints: ready,
        external_model_dependencies: model_dependencies.len(),
        provided_part_ratings: ratings,
    };
    HandoffManifest {
        schema_version: owned(HANDOFF_SCHEMA_VERSION),
        generator: owned("kessetsu-handoff"),
        generator_version: owned(PRODUCT_VERSION),
        compile_schema_version: owned(compile_schema_version),
        circuit_ir_sha256: digest,
        counts,
        physical_parts: parts,
        footprints,
        model_dependencies,
        unresolved_components: unresolved,
        warnings,
    }
}

proof fn lemma_ratings_total_prefix(a: Seq<AssignmentView>, n: int)
    requires
        0 <= n <= a.len(),
    ensures
        ratings_total(a.take(n)) <= ratings_total(a),
    decreases a.len() - n,
{
    if n < a.len() {
        lemma_ratings_total_prefix(a, n + 1);
        assert(a.take(n + 1).drop_last() =~= a.take(n));
    } else {
        assert(a.take(n) =~= a);
    }
}

} // verus!
