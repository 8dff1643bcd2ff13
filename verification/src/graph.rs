//! Netlist connectivity: pins joined by `connect` statements form nets; nets
//! are numbered, a ground net is selected and every net receives a name.
use crate::ast::{Connection, PinRef};
use crate::component::{component_definition, definition_matches, pin_names, pin_view, PinDefinition, PinSpec};
use crate::expression::{insert_name, sorted_names};
use crate::ir::{views, ComponentKind};
use crate::text::{append_str, owned, text_lt};
use vstd::prelude::*;

verus! {

/// What the connectivity and rule checks read of a component.
#[derive(Debug, Clone)]
pub struct TopologyComponent {
    pub id: String,
    pub kind: ComponentKind,
    /// Interface pins of a module-port instance.
    pub module_pins: Option<Vec<String>>,
}

/// What the connectivity and rule checks read of a circuit.
#[derive(Debug, Clone)]
pub struct Topology {
    pub components: Vec<TopologyComponent>,
    pub connections: Vec<Connection>,
    /// User-named nets.
    pub nets: Vec<String>,
}

/// `component.pin`.
pub open spec fn qualified(component: Seq<char>, pin: Seq<char>) -> Seq<char> {
    component + "."@ + pin
}

/// The graph identity of a connection endpoint: a bare net name, or `component.pin`.
pub open spec fn ref_id(p: PinRef) -> Seq<char> {
    if p.component@.len() == 0 {
        p.pin@
    } else {
        qualified(p.component@, p.pin@)
    }
}

/// A connection that joins something: one with at least two endpoints.
pub open spec fn wiring(t: Topology, c: int) -> bool {
    0 <= c < t.connections@.len() && t.connections@[c].pins@.len() >= 2
}

pub open spec fn endpoint(t: Topology, c: int, k: int) -> Seq<char> {
    ref_id(t.connections@[c].pins@[k])
}

pub open spec fn is_catalog_pin(t: Topology, s: Seq<char>) -> bool {
    exists|i: int, j: int|
        0 <= i < t.components@.len() && 0 <= j < pin_names(t.components@[i].kind).len() && s
            == qualified(t.components@[i].id@, #[trigger] pin_names(t.components@[i].kind)[j])
}

pub open spec fn is_wired(t: Topology, s: Seq<char>) -> bool {
    exists|c: int, k: int|
        wiring(t, c) && 0 <= k < t.connections@[c].pins@.len() && s == #[trigger] endpoint(t, c, k)
}

/// Every node of the connectivity graph: catalog pins of all components and
/// the endpoints of joining connections.
pub open spec fn is_pin(t: Topology, s: Seq<char>) -> bool {
    is_catalog_pin(t, s) || is_wired(t, s)
}

/// A labeling that gives all endpoints of each joining connection one label.
pub open spec fn respects(t: Topology, l: spec_fn(Seq<char>) -> int) -> bool {
    forall|c: int, i: int, j: int|
        wiring(t, c) && 0 <= i < t.connections@[c].pins@.len() && 0 <= j
            < t.connections@[c].pins@.len() ==> l(#[trigger] endpoint(t, c, i)) == l(
            #[trigger] endpoint(t, c, j),
        )
}

/// Two graph nodes are on one net: no labeling that respects the connections separates them.
pub open spec fn joined(t: Topology, a: Seq<char>, b: Seq<char>) -> bool {
    forall|l: spec_fn(Seq<char>) -> int| #[trigger] respects(t, l) ==> l(a) == l(b)
}

pub proof fn lemma_joined_trans(t: Topology, a: Seq<char>, b: Seq<char>, c: Seq<char>)
    requires
        joined(t, a, b),
        joined(t, b, c),
    ensures
        joined(t, a, c),
{
}

pub proof fn lemma_joined_sym(t: Topology, a: Seq<char>, b: Seq<char>)
    requires
        joined(t, a, b),
    ensures
        joined(t, b, a),
{
}

pub proof fn lemma_joined_refl(t: Topology, a: Seq<char>)
    ensures
        joined(t, a, a),
{
}

pub proof fn lemma_endpoints_joined(t: Topology, c: int, i: int, j: int)
    requires
        wiring(t, c),
        0 <= i < t.connections@[c].pins@.len(),
        0 <= j < t.connections@[c].pins@.len(),
    ensures
        joined(t, endpoint(t, c, i), endpoint(t, c, j)),
{
    assert forall|l: spec_fn(Seq<char>) -> int| #[trigger] respects(t, l) implies l(
        endpoint(t, c, i),
    ) == l(endpoint(t, c, j)) by {
        assert(l(endpoint(t, c, i)) == l(endpoint(t, c, j)));
    }
}

fn qualify_exec(component: &str, pin: &str) -> (r: String)
    ensures
        r@ == qualified(component@, pin@),
{
    let mut r = owned(component);
    append_str(&mut r, ".");
    append_str(&mut r, pin);
    r
}

fn ref_id_exec(p: &PinRef) -> (r: String)
    ensures
        r@ == ref_id(*p),
{
    if p.component.as_str().is_empty() {
        p.pin.clone()
    } else {
        qualify_exec(p.component.as_str(), p.pin.as_str())
    }
}

/// Endpoints of the joining connections before index `c`.
pub open spec fn wired_before(t: Topology, c: int, s: Seq<char>) -> bool {
    exists|x: int, m: int|
        0 <= x < c && wiring(t, x) && 0 <= m < t.connections@[x].pins@.len() && s == #[trigger] endpoint(t, x, m)
}

/// The first `k` endpoints of connection `c`.
pub open spec fn conn_prefix(t: Topology, c: int, k: int, s: Seq<char>) -> bool {
    exists|m: int| 0 <= m < k && s == #[trigger] endpoint(t, c, m)
}

proof fn lemma_conn_prefix_step(t: Topology, c: int, k: int, s: Seq<char>)
    requires
        0 <= k,
    ensures
        conn_prefix(t, c, k + 1, s) == (conn_prefix(t, c, k, s) || s == endpoint(t, c, k)),
{
    if conn_prefix(t, c, k + 1, s) {
        let m = choose|m: int| 0 <= m < k + 1 && s == #[trigger] endpoint(t, c, m);
        if m < k {
            assert(conn_prefix(t, c, k, s));
        }
    }
    if s == endpoint(t, c, k) {
        assert(0 <= k < k + 1 && s == endpoint(t, c, k));
    }
}

proof fn lemma_wired_before_step(t: Topology, c: int, s: Seq<char>)
    requires
        0 <= c < t.connections@.len(),
    ensures
        wired_before(t, c + 1, s) == (wired_before(t, c, s) || (wiring(t, c) && conn_prefix(
            t,
            c,
            t.connections@[c].pins@.len() as int,
            s,
        ))),
{
    if wired_before(t, c + 1, s) {
        let (x, m) = choose|x: int, m: int|
            0 <= x < c + 1 && wiring(t, x) && 0 <= m < t.connections@[x].pins@.len() && s
                == #[trigger] endpoint(t, x, m);
        if x < c {
            assert(wired_before(t, c, s));
        } else {
            assert(conn_prefix(t, c, t.connections@[c].pins@.len() as int, s));
        }
    }
    if wiring(t, c) && conn_prefix(t, c, t.connections@[c].pins@.len() as int, s) {
        let m = choose|m: int| 0 <= m < t.connections@[c].pins@.len() && s == #[trigger] endpoint(t, c, m);
        assert(0 <= c < c + 1 && wiring(t, c) && 0 <= m < t.connections@[c].pins@.len() && s == endpoint(t, c, m));
    }
    if wired_before(t, c, s) {
        let (x, m) = choose|x: int, m: int|
            0 <= x < c && wiring(t, x) && 0 <= m < t.connections@[x].pins@.len() && s
                == #[trigger] endpoint(t, x, m);
        assert(0 <= x < c + 1 && wiring(t, x) && 0 <= m < t.connections@[x].pins@.len() && s == endpoint(t, x, m));
    }
}

proof fn lemma_wired_before_all(t: Topology, s: Seq<char>)
    ensures
        wired_before(t, t.connections@.len() as int, s) == is_wired(t, s),
{
}

/// The sorted set of graph nodes.
fn collect_pins(t: &Topology) -> (p: Vec<String>)
    ensures
        sorted_names(views(p@)),
        forall|s: Seq<char>| views(p@).contains(s) <==> is_pin(*t, s),
{
    let mut p: Vec<String> = Vec::new();
    let mut i: usize = 0;
    while i < t.components.len()
        invariant
            i <= t.components.len(),
            sorted_names(views(p@)),
            forall|s: Seq<char>|
                views(p@).contains(s) <==> exists|a: int, j: int|
                    0 <= a < i && 0 <= j < pin_names(t.components@[a].kind).len() && s
                        == qualified(t.components@[a].id@, #[trigger] pin_names(t.components@[a].kind)[j]),
        decreases t.components.len() - i,
    {
        let comp = &t.components[i];
        let d = component_definition(&comp.kind);
        let ghost names = pin_names(comp.kind);
        let mut j: usize = 0;
        while j < d.pins.len()
            invariant
                i < t.components.len(),
                comp == t.components@[i as int],
                j <= d.pins.len(),
                definition_matches(d, comp.kind),
                names == pin_names(comp.kind),
                sorted_names(views(p@)),
                forall|s: Seq<char>|
                    views(p@).contains(s) <==> (exists|a: int, k: int|
                        0 <= a < i && 0 <= k < pin_names(t.components@[a].kind).len() && s
                            == qualified(t.components@[a].id@, #[trigger] pin_names(t.components@[a].kind)[k]))
                        || (exists|k: int| 0 <= k < j && s == qualified(comp.id@, #[trigger] names[k])),
            decreases d.pins.len() - j,
        {
            assert(names[j as int] == d.pins@[j as int].name@);
            let id = qualify_exec(comp.id.as_str(), d.pins[j].name);
            let ghost before = views(p@);
            insert_name(&mut p, id);
            proof {
                assert forall|s: Seq<char>| views(p@).contains(s) <==> (exists|a: int, k: int|
                    0 <= a < i && 0 <= k < pin_names(t.components@[a].kind).len() && s
                        == qualified(t.components@[a].id@, #[trigger] pin_names(t.components@[a].kind)[k]))
                    || (exists|k: int| 0 <= k < j + 1 && s == qualified(comp.id@, #[trigger] names[k])) by {
                    assert(views(p@).contains(s) == views(p@).to_set().contains(s));
                    assert(before.contains(s) == before.to_set().contains(s));
                    if s == qualified(comp.id@, names[j as int]) {
                    }
                    if exists|k: int| 0 <= k < j + 1 && s == qualified(comp.id@, #[trigger] names[k]) {
                        let k = choose|k: int| 0 <= k < j + 1 && s == qualified(comp.id@, #[trigger] names[k]);
                        if k < j {
                        }
                    }
                }
            }
            j = j + 1;
        }
        proof {
            assert forall|s: Seq<char>| views(p@).contains(s) <==> exists|a: int, k: int|
                0 <= a < i + 1 && 0 <= k < pin_names(t.components@[a].kind).len() && s
                    == qualified(t.components@[a].id@, #[trigger] pin_names(t.components@[a].kind)[k]) by {
                if exists|k: int| 0 <= k < j && s == qualified(comp.id@, #[trigger] names[k]) {
                    let k = choose|k: int| 0 <= k < j && s == qualified(comp.id@, #[trigger] names[k]);
                    assert(0 <= (i as int) < i + 1 && 0 <= k < pin_names(t.components@[i as int].kind).len());
                }
                if exists|a: int, k: int|
                    0 <= a < i + 1 && 0 <= k < pin_names(t.components@[a].kind).len() && s
                        == qualified(t.components@[a].id@, #[trigger] pin_names(t.components@[a].kind)[k]) {
                    let (a, k) = choose|a: int, k: int|
                        0 <= a < i + 1 && 0 <= k < pin_names(t.components@[a].kind).len() && s
                            == qualified(t.components@[a].id@, #[trigger] pin_names(t.components@[a].kind)[k]);
                    if a == i {
                        assert(0 <= k < j && s == qualified(comp.id@, names[k]));
                    }
                }
            }
        }
        i = i + 1;
    }
    let mut c: usize = 0;
    proof {
        assert forall|s: Seq<char>| !wired_before(*t, 0, s) by {}
        assert forall|s: Seq<char>| #[trigger] is_catalog_pin(*t, s) == exists|a: int, k: int|
            0 <= a < t.components@.len() && 0 <= k < pin_names(t.components@[a].kind).len() && s
                == qualified(t.components@[a].id@, #[trigger] pin_names(t.components@[a].kind)[k]) by {}
    }
    while c < t.connections.len()
        invariant
            c <= t.connections.len(),
            sorted_names(views(p@)),
            forall|s: Seq<char>|
                #![trigger views(p@).contains(s)]
                views(p@).contains(s) <==> is_catalog_pin(*t, s) || wired_before(*t, c as int, s),
        decreases t.connections.len() - c,
    {
        let conn = &t.connections[c];
        if conn.pins.len() >= 2 {
            let mut k: usize = 0;
            while k < conn.pins.len()
                invariant
                    c < t.connections.len(),
                    conn == t.connections@[c as int],
                    wiring(*t, c as int),
                    k <= conn.pins.len(),
                    sorted_names(views(p@)),
                    forall|s: Seq<char>|
                        #![trigger views(p@).contains(s)]
                        views(p@).contains(s) <==> is_catalog_pin(*t, s) || wired_before(
                            *t,
                            c as int,
                            s,
                        ) || conn_prefix(*t, c as int, k as int, s),
                decreases conn.pins.len() - k,
            {
                let id = ref_id_exec(&conn.pins[k]);
                let ghost before = views(p@);
                insert_name(&mut p, id);
                proof {
                    assert forall|s: Seq<char>| views(p@).contains(s) <==> is_catalog_pin(*t, s)
                        || wired_before(*t, c as int, s) || conn_prefix(
                        *t,
                        c as int,
                        k + 1,
                        s,
                    ) by {
                        assert(views(p@).contains(s) == views(p@).to_set().contains(s));
                        assert(before.contains(s) == before.to_set().contains(s));
                        lemma_conn_prefix_step(*t, c as int, k as int, s);
                    }
                }
                k = k + 1;
            }
            proof {
                assert forall|s: Seq<char>| views(p@).contains(s) <==> is_catalog_pin(*t, s)
                    || wired_before(*t, c + 1, s) by {
                    lemma_wired_before_step(*t, c as int, s);
                }
            }
        } else {
            proof {
                assert(!wiring(*t, c as int));
                assert forall|s: Seq<char>| views(p@).contains(s) <==> is_catalog_pin(*t, s)
                    || wired_before(*t, c + 1, s) by {
                    lemma_wired_before_step(*t, c as int, s);
                    assert(wired_before(*t, c + 1, s) == wired_before(*t, c as int, s));
                    assert(views(p@).contains(s) <==> is_catalog_pin(*t, s) || wired_before(*t, c as int, s));
                }
            }
        }
        c = c + 1;
    }
    proof {
        assert forall|s: Seq<char>| views(p@).contains(s) <==> is_pin(*t, s) by {
            lemma_wired_before_all(*t, s);
        }
    }
    p
}


/// Distinct positions of a strictly increasing name sequence hold distinct names.
pub proof fn lemma_sorted_distinct(v: Seq<Seq<char>>, i: int, j: int)
    requires
        sorted_names(v),
        0 <= i < v.len(),
        0 <= j < v.len(),
        v[i] == v[j],
    ensures
        i == j,
{
    if i < j {
        crate::text::lemma_text_lt_irreflexive(v[i]);
    } else if j < i {
        crate::text::lemma_text_lt_irreflexive(v[i]);
    }
}

/// Position of a name in a vector of strings.
pub fn index_of(p: &Vec<String>, s: &String) -> (r: Option<usize>)
    ensures
        match r {
            Some(k) => k < p.len() && p@[k as int]@ == s@,
            None => !views(p@).contains(s@),
        },
{
    let mut k: usize = 0;
    while k < p.len()
        invariant
            k <= p.len(),
            forall|j: int| 0 <= j < k ==> p@[j]@ != s@,
        decreases p.len() - k,
    {
        if p[k] == *s {
            return Some(k);
        }
        k = k + 1;
    }
    proof {
        if views(p@).contains(s@) {
            let j = choose|j: int| 0 <= j < views(p@).len() && views(p@)[j] == s@;
            assert(p@[j]@ == s@);
        }
    }
    None
}

/// Processed connections: every joining connection before `c` has one label.
pub open spec fn merged_before(t: Topology, p: Seq<String>, labels: Seq<usize>, c: int) -> bool {
    forall|x: int, i: int, j: int, k1: int, k2: int|
        #![trigger endpoint(t, x, i), endpoint(t, x, j), labels[k1], labels[k2]]
        0 <= x < c && wiring(t, x) && 0 <= i < t.connections@[x].pins@.len() && 0 <= j
            < t.connections@[x].pins@.len() && 0 <= k1 < p.len() && 0 <= k2 < p.len() && p[k1]@
            == endpoint(t, x, i) && p[k2]@ == endpoint(t, x, j) ==> labels[k1] == labels[k2]
}

/// Equal labels only for joined nodes.
pub open spec fn labels_sound(t: Topology, p: Seq<String>, labels: Seq<usize>) -> bool {
    forall|k1: int, k2: int|
        0 <= k1 < p.len() && 0 <= k2 < p.len() && #[trigger] labels[k1] == #[trigger] labels[k2]
            ==> joined(t, p[k1]@, p[k2]@)
}

pub open spec fn labels_range(p: Seq<String>, labels: Seq<usize>) -> bool {
    labels.len() == p.len() && forall|k: int| 0 <= k < labels.len() ==> #[trigger] labels[k]
        < p.len()
}

/// Every `src` label becomes `tgt`.
pub open spec fn relabel(labels: Seq<usize>, src: usize, tgt: usize) -> Seq<usize> {
    labels.map_values(|l: usize| if l == src { tgt } else { l })
}

fn relabel_exec(labels: &mut Vec<usize>, src: usize, tgt: usize)
    ensures
        final(labels)@ == relabel(old(labels)@, src, tgt),
{
    let ghost before = labels@;
    let mut m: usize = 0;
    while m < labels.len()
        invariant
            labels.len() == before.len(),
            m <= labels.len(),
            forall|k: int| 0 <= k < m ==> labels@[k] == (if before[k] == src { tgt } else { before[k] }),
            forall|k: int| m <= k < labels.len() ==> labels@[k] == before[k],
        decreases labels.len() - m,
    {
        if labels[m] == src {
            labels.set(m, tgt);
        }
        m = m + 1;
    }
    assert(labels@ =~= relabel(before, src, tgt));
}

fn endpoint_index(t: &Topology, p: &Vec<String>, c: usize, i: usize) -> (k: usize)
    requires
        forall|s: Seq<char>| #![trigger views(p@).contains(s)] views(p@).contains(s) <==> is_pin(*t, s),
        wiring(*t, c as int),
        i < t.connections@[c as int].pins@.len(),
    ensures
        k < p.len(),
        p@[k as int]@ == endpoint(*t, c as int, i as int),
{
    let id = ref_id_exec(&t.connections[c].pins[i]);
    proof {
        assert(id@ == endpoint(*t, c as int, i as int));
        assert(is_wired(*t, id@));
        assert(views(p@).contains(id@));
    }
    match index_of(p, &id) {
        Some(k) => k,
        None => {
            proof {
                assert(false);
            }
            0
        },
    }
}

/// Labels each graph node with a class index so that two nodes share a label
/// exactly when they are joined.
fn union_labels(t: &Topology, p: &Vec<String>) -> (labels: Vec<usize>)
    requires
        sorted_names(views(p@)),
        forall|s: Seq<char>| #![trigger views(p@).contains(s)] views(p@).contains(s) <==> is_pin(*t, s),
    ensures
        labels_range(p@, labels@),
        labels_sound(*t, p@, labels@),
        merged_before(*t, p@, labels@, t.connections@.len() as int),
{
    let n = p.len();
    let mut labels: Vec<usize> = Vec::new();
    let mut k: usize = 0;
    while k < n
        invariant
            k <= n,
            n == p.len(),
            labels@.len() == k,
            forall|j: int| 0 <= j < k ==> labels@[j] == j,
        decreases n - k,
    {
        labels.push(k);
        k = k + 1;
    }
    proof {
        assert forall|k1: int, k2: int|
            0 <= k1 < p@.len() && 0 <= k2 < p@.len() && #[trigger] labels@[k1] == #[trigger] labels@[k2]
                implies joined(*t, p@[k1]@, p@[k2]@) by {
            lemma_joined_refl(*t, p@[k1]@);
        }
    }
    let mut c: usize = 0;
    while c < t.connections.len()
        invariant
            c <= t.connections.len(),
            n == p.len(),
            sorted_names(views(p@)),
            forall|s: Seq<char>| #![trigger views(p@).contains(s)] views(p@).contains(s) <==> is_pin(*t, s),
            labels_range(p@, labels@),
            labels_sound(*t, p@, labels@),
            merged_before(*t, p@, labels@, c as int),
        decreases t.connections.len() - c,
    {
        if t.connections[c].pins.len() >= 2 {
            let k0 = endpoint_index(t, p, c, 0);
            let tgt = labels[k0];
            let mut j: usize = 1;
            proof {
                assert forall|i: int, k: int|
                    #![trigger endpoint(*t, c as int, i), labels@[k]]
                    0 <= i < 1 && 0 <= k < n && p@[k]@ == endpoint(*t, c as int, i) implies labels@[k] == tgt by {
                    lemma_sorted_distinct(views(p@), k, k0 as int);
                }
            }
            while j < t.connections[c].pins.len()
                invariant
                    c < t.connections.len(),
                    wiring(*t, c as int),
                    1 <= j <= t.connections@[c as int].pins@.len(),
                    n == p.len(),
                    k0 < n,
                    p@[k0 as int]@ == endpoint(*t, c as int, 0),
                    sorted_names(views(p@)),
                    forall|s: Seq<char>| #![trigger views(p@).contains(s)] views(p@).contains(s) <==> is_pin(*t, s),
                    labels_range(p@, labels@),
                    labels_sound(*t, p@, labels@),
                    merged_before(*t, p@, labels@, c as int),
                    labels@[k0 as int] == tgt,
                    forall|i: int, k: int|
                        #![trigger endpoint(*t, c as int, i), labels@[k]]
                        0 <= i < j && 0 <= k < n && p@[k]@ == endpoint(*t, c as int, i) ==> labels@[k] == tgt,
                decreases t.connections@[c as int].pins@.len() - j,
            {
                let kj = endpoint_index(t, p, c, j);
                let src = labels[kj];
                if src != tgt {
                    let ghost before = labels@;
                    relabel_exec(&mut labels, src, tgt);
                    proof {
                        lemma_endpoints_joined(*t, c as int, j as int, 0);
                        assert forall|k1: int, k2: int|
                            0 <= k1 < p@.len() && 0 <= k2 < p@.len() && #[trigger] labels@[k1]
                                == #[trigger] labels@[k2] implies joined(*t, p@[k1]@, p@[k2]@) by {
                            let a = before[k1];
                            let b = before[k2];
                            if a == b {
                                assert(before[k1] == before[k2]);
                            } else if a == src {
                                assert(before[k1] == before[kj as int]);
                                assert(before[k2] == before[k0 as int]);
                                lemma_joined_trans(*t, p@[k1]@, p@[kj as int]@, p@[k0 as int]@);
                                lemma_joined_trans(*t, p@[k1]@, p@[k0 as int]@, p@[k2]@);
                            } else {
                                assert(b == src && a == tgt);
                                assert(before[k2] == before[kj as int]);
                                assert(before[k1] == before[k0 as int]);
                                lemma_joined_trans(*t, p@[k2]@, p@[kj as int]@, p@[k0 as int]@);
                                lemma_joined_trans(*t, p@[k2]@, p@[k0 as int]@, p@[k1]@);
                                lemma_joined_sym(*t, p@[k2]@, p@[k1]@);
                            }
                        }
                        assert forall|x: int, i: int, i2: int, k1: int, k2: int|
                            #![trigger endpoint(*t, x, i), endpoint(*t, x, i2), labels@[k1], labels@[k2]]
                            0 <= x < c && wiring(*t, x) && 0 <= i < t.connections@[x].pins@.len()
                                && 0 <= i2 < t.connections@[x].pins@.len() && 0 <= k1 < p@.len()
                                && 0 <= k2 < p@.len() && p@[k1]@ == endpoint(*t, x, i) && p@[k2]@
                                == endpoint(*t, x, i2) implies labels@[k1] == labels@[k2] by {
                            assert(before[k1] == before[k2]);
                        }
                    }
                }
                proof {
                    assert forall|i: int, k: int|
                        #![trigger endpoint(*t, c as int, i), labels@[k]]
                        0 <= i < j + 1 && 0 <= k < n && p@[k]@ == endpoint(*t, c as int, i) implies labels@[k] == tgt by {
                        if i == j {
                            lemma_sorted_distinct(views(p@), k, kj as int);
                        }
                    }
                }
                j = j + 1;
            }
            proof {
                assert forall|x: int, i: int, i2: int, k1: int, k2: int|
                    #![trigger endpoint(*t, x, i), endpoint(*t, x, i2), labels@[k1], labels@[k2]]
                    0 <= x < c + 1 && wiring(*t, x) && 0 <= i < t.connections@[x].pins@.len()
                        && 0 <= i2 < t.connections@[x].pins@.len() && 0 <= k1 < p@.len()
                        && 0 <= k2 < p@.len() && p@[k1]@ == endpoint(*t, x, i) && p@[k2]@
                        == endpoint(*t, x, i2) implies labels@[k1] == labels@[k2] by {
                    if x == c {
                        assert(labels@[k1] == tgt);
                        assert(labels@[k2] == tgt);
                    }
                }
            }
        }
        c = c + 1;
    }
    labels
}


/// With every joining connection merged, joined nodes share a label.
proof fn lemma_labels_complete(t: Topology, p: Seq<String>, labels: Seq<usize>, k1: int, k2: int)
    requires
        sorted_names(views(p)),
        forall|s: Seq<char>| #![trigger views(p).contains(s)] views(p).contains(s) <==> is_pin(t, s),
        labels_range(p, labels),
        merged_before(t, p, labels, t.connections@.len() as int),
        0 <= k1 < p.len(),
        0 <= k2 < p.len(),
        joined(t, p[k1]@, p[k2]@),
    ensures
        labels[k1] == labels[k2],
{
    let l = |s: Seq<char>|
        if exists|k: int| 0 <= k < p.len() && p[k]@ == s {
            labels[choose|k: int| 0 <= k < p.len() && p[k]@ == s] as int
        } else {
            -1
        };
    assert forall|c: int, i: int, j: int|
        wiring(t, c) && 0 <= i < t.connections@[c].pins@.len() && 0 <= j
            < t.connections@[c].pins@.len() implies l(#[trigger] endpoint(t, c, i)) == l(
        #[trigger] endpoint(t, c, j),
    ) by {
        let a = endpoint(t, c, i);
        let b = endpoint(t, c, j);
        assert(is_wired(t, a));
        assert(is_wired(t, b));
        assert(views(p).contains(a));
        assert(views(p).contains(b));
        let ia = choose|k: int| 0 <= k < views(p).len() && views(p)[k] == a;
        let ib = choose|k: int| 0 <= k < views(p).len() && views(p)[k] == b;
        assert(p[ia]@ == a);
        assert(p[ib]@ == b);
        let ka = choose|k: int| 0 <= k < p.len() && p[k]@ == a;
        let kb = choose|k: int| 0 <= k < p.len() && p[k]@ == b;
        assert(labels[ka] == labels[kb]);
    }
    assert(respects(t, l));
    assert(l(p[k1]@) == l(p[k2]@));
    let c1 = choose|k: int| 0 <= k < p.len() && p[k]@ == p[k1]@;
    let c2 = choose|k: int| 0 <= k < p.len() && p[k]@ == p[k2]@;
    lemma_sorted_distinct(views(p), c1, k1);
    lemma_sorted_distinct(views(p), c2, k2);
}

/// Two strictly increasing sequences with the same elements are equal.
pub proof fn lemma_sorted_unique(a: Seq<Seq<char>>, b: Seq<Seq<char>>)
    requires
        sorted_names(a),
        sorted_names(b),
        forall|s: Seq<char>| a.contains(s) <==> b.contains(s),
    ensures
        a == b,
    decreases a.len(),
{
    if a.len() == 0 {
        if b.len() > 0 {
            assert(b.contains(b[0]));
        }
        assert(a =~= b);
    } else {
        assert(a.contains(a[0]));
        assert(b.len() > 0);
        assert(b.contains(b[0]));
        let i = choose|i: int| 0 <= i < b.len() && b[i] == a[0];
        let j = choose|j: int| 0 <= j < a.len() && a[j] == b[0];
        if i > 0 {
            assert(text_lt(b[0], b[i]));
            if j > 0 {
                assert(text_lt(a[0], a[j]));
                crate::text::lemma_text_lt_total(a[0], b[0]);
            }
            crate::text::lemma_text_lt_irreflexive(a[0]);
        }
        assert(a[0] == b[0]);
        let a1 = a.drop_first();
        let b1 = b.drop_first();
        assert forall|s: Seq<char>| a1.contains(s) <==> b1.contains(s) by {
            if a1.contains(s) {
                let k = choose|k: int| 0 <= k < a1.len() && a1[k] == s;
                assert(a[k + 1] == s);
                assert(b.contains(s));
                let m = choose|m: int| 0 <= m < b.len() && b[m] == s;
                if m == 0 {
                    assert(text_lt(a[0], a[k + 1]));
                    crate::text::lemma_text_lt_irreflexive(a[0]);
                }
                assert(b1[m - 1] == s);
            }
            if b1.contains(s) {
                let k = choose|k: int| 0 <= k < b1.len() && b1[k] == s;
                assert(b[k + 1] == s);
                assert(a.contains(s));
                let m = choose|m: int| 0 <= m < a.len() && a[m] == s;
                if m == 0 {
                    assert(text_lt(b[0], b[k + 1]));
                    crate::text::lemma_text_lt_irreflexive(b[0]);
                }
                assert(a1[m - 1] == s);
            }
        }
        lemma_sorted_unique(a1, b1);
        assert(a =~= seq![a[0]] + a1);
        assert(b =~= seq![b[0]] + b1);
    }
}


/// The graph nodes in ascending order.
pub open spec fn node_order(t: Topology) -> Seq<Seq<char>> {
    choose|q: Seq<Seq<char>>| sorted_names(q) && forall|s: Seq<char>| q.contains(s) <==> is_pin(t, s)
}

/// A node that shares its net with another node; lone pins belong to no net.
pub open spec fn shared(t: Topology, a: Seq<char>) -> bool {
    is_pin(t, a) && exists|b: Seq<char>| is_pin(t, b) && b != a && #[trigger] joined(t, a, b)
}

pub open spec fn in_nets(t: Topology, s: Seq<char>) -> bool {
    exists|i: int| 0 <= i < t.nets@.len() && #[trigger] t.nets@[i]@ == s
}

/// No earlier node in `q` is joined with `q[k]`: `q[k]` is the least node of its net.
pub open spec fn is_leader(t: Topology, q: Seq<Seq<char>>, k: int) -> bool {
    forall|j: int| 0 <= j < k ==> !joined(t, #[trigger] q[j], q[k])
}

pub open spec fn leaders_before(t: Topology, q: Seq<Seq<char>>, k: int) -> nat
    decreases k,
{
    if k <= 0 {
        0
    } else {
        leaders_before(t, q, k - 1) + if is_leader(t, q, k - 1) {
            1nat
        } else {
            0nat
        }
    }
}

/// Position in `q` of the least node joined with `a`.
pub open spec fn class_first(t: Topology, q: Seq<Seq<char>>, a: Seq<char>) -> int {
    choose|k: int|
        0 <= k < q.len() && joined(t, q[k], a) && forall|j: int| 0 <= j < k ==> !joined(t, #[trigger] q[j], a)
}

/// Nets are numbered from 1 in the order of their least node.
pub open spec fn raw_net(t: Topology, a: Seq<char>) -> int {
    1 + leaders_before(t, node_order(t), class_first(t, node_order(t), a)) as int
}

pub open spec fn explicit_ground(t: Topology, s: Seq<char>) -> bool {
    in_nets(t, s) && crate::text::eq_ignore_case(s, "gnd"@) && shared(t, s)
}

pub open spec fn ends_with_minus(s: Seq<char>) -> bool {
    s.len() >= 6 && s.skip(s.len() - 6) == ".minus"@
}

pub open spec fn minus_ground(t: Topology, s: Seq<char>) -> bool {
    shared(t, s) && ends_with_minus(s)
}

/// Some user net named like `GND` is connected.
pub open spec fn ground_explicit_spec(t: Topology) -> bool {
    exists|s: Seq<char>| explicit_ground(t, s)
}

/// Ground references: connected `GND` nets, or else source `.minus` pins.
pub open spec fn eligible_ground(t: Topology, s: Seq<char>) -> bool {
    if ground_explicit_spec(t) {
        explicit_ground(t, s)
    } else {
        minus_ground(t, s)
    }
}

/// The least ground reference of its net.
pub open spec fn ground_candidate(t: Topology, s: Seq<char>) -> bool {
    eligible_ground(t, s) && forall|s2: Seq<char>|
        eligible_ground(t, s2) && joined(t, s, s2) ==> !text_lt(s2, s)
}

/// The least ground candidate, whose net becomes net 0.
pub open spec fn ground_pin(t: Topology) -> Option<Seq<char>> {
    if exists|s: Seq<char>| ground_candidate(t, s) {
        Some(
            choose|s: Seq<char>|
                ground_candidate(t, s) && forall|s2: Seq<char>| ground_candidate(t, s2) ==> !text_lt(s2, s),
        )
    } else {
        None
    }
}

/// The net number of a connected node: 0 for the ground net.
pub open spec fn net_of(t: Topology, a: Seq<char>) -> int {
    match ground_pin(t) {
        Some(g) => if joined(t, a, g) {
            0
        } else {
            raw_net(t, a)
        },
        None => raw_net(t, a),
    }
}

/// User net names among the first `m` nodes that are joined with `a`, ascending.
pub open spec fn class_users(t: Topology, q: Seq<Seq<char>>, a: Seq<char>, m: int) -> Seq<Seq<char>>
    decreases m,
{
    if m <= 0 {
        seq![]
    } else if joined(t, q[m - 1], a) && in_nets(t, q[m - 1]) {
        class_users(t, q, a, m - 1).push(q[m - 1])
    } else {
        class_users(t, q, a, m - 1)
    }
}

pub open spec fn users(t: Topology, a: Seq<char>) -> Seq<Seq<char>> {
    class_users(t, node_order(t), a, node_order(t).len() as int)
}

pub open spec fn underscores(s: Seq<char>) -> Seq<char> {
    s.map_values(|c: char| if c == '.' { '_' } else { c })
}

/// A net is named by its least user net name, or else `N_` and its least pin
/// with `.` written as `_`.
pub open spec fn net_name_spec(t: Topology, a: Seq<char>) -> Seq<char> {
    if users(t, a).len() > 0 {
        users(t, a)[0]
    } else {
        "N_"@ + underscores(node_order(t)[class_first(t, node_order(t), a)])
    }
}

#[derive(Debug, Clone, Copy, PartialEq, Eq, Structural, PartialOrd, Ord, Hash)]
pub struct NetId(pub usize);

impl NetId {
    /// The ground net.
    pub fn ground() -> (r: NetId)
        ensures
            r.0 == 0,
    {
        NetId(0)
    }
}

/// User net names that the connections put on one physical net.
#[derive(Debug, Clone)]
pub struct NetNameConflict {
    pub net: NetId,
    pub names: Vec<String>,
}

#[derive(Debug)]
pub struct NetlistGraph {
    /// Each connected node with its net, in ascending node order.
    pub pin_to_net: Vec<(String, NetId)>,
    /// Net 0 named `0`, then each other net with its name.
    pub net_names: Vec<(NetId, String)>,
    pub ground_candidates: Vec<String>,
    pub ground_is_explicit: bool,
    pub net_name_conflicts: Vec<NetNameConflict>,
}

pub open spec fn keys(v: Seq<(String, NetId)>) -> Seq<Seq<char>> {
    v.map_values(|e: (String, NetId)| e.0@)
}

/// `id` and `name` are the number and the name of some connected, non-ground net.
pub open spec fn is_net_name(t: Topology, id: int, name: Seq<char>) -> bool {
    exists|a: Seq<char>| shared(t, a) && net_of(t, a) != 0 && id == net_of(t, a) && name == net_name_spec(t, a)
}

/// `id` and `names` are the number and the user names of some connected net
/// that carries several user names.
pub open spec fn is_conflict(t: Topology, id: int, names: Seq<Seq<char>>) -> bool {
    exists|a: Seq<char>| shared(t, a) && users(t, a).len() >= 2 && id == net_of(t, a) && names == users(t, a)
}

/// What `NetlistGraph::build` computes for a topology.
pub open spec fn graph_spec(t: Topology, g: NetlistGraph) -> bool {
    &&& order_ok(t)
    &&& sorted_names(views(g.ground_candidates@))
    &&& forall|s: Seq<char>| views(g.ground_candidates@).contains(s) <==> ground_candidate(t, s)
    &&& g.ground_is_explicit == ground_explicit_spec(t)
    &&& sorted_names(keys(g.pin_to_net@))
    &&& forall|s: Seq<char>| keys(g.pin_to_net@).contains(s) <==> shared(t, s)
    &&& forall|i: int|
        #![trigger g.pin_to_net@[i]]
        0 <= i < g.pin_to_net@.len() ==> g.pin_to_net@[i].1.0 == net_of(
            t,
            g.pin_to_net@[i].0@,
        )
    &&& g.net_names@.len() >= 1
    &&& g.net_names@[0].0.0 == 0 && g.net_names@[0].1@ == "0"@
    &&& forall|i: int|
        1 <= i < g.net_names@.len() ==> is_net_name(
            t,
            (#[trigger] g.net_names@[i]).0.0 as int,
            g.net_names@[i].1@,
        )
    &&& forall|a: Seq<char>|
        shared(t, a) && net_of(t, a) != 0 ==> exists|i: int|
            1 <= i < g.net_names@.len() && (#[trigger] g.net_names@[i]).0.0 == net_of(t, a)
    &&& forall|i: int, j: int|
        0 <= i < j < g.net_names@.len() ==> (#[trigger] g.net_names@[i]).0 != (
        #[trigger] g.net_names@[j]).0
    &&& forall|i: int|
        0 <= i < g.net_name_conflicts@.len() ==> is_conflict(
            t,
            (#[trigger] g.net_name_conflicts@[i]).net.0 as int,
            views(g.net_name_conflicts@[i].names@),
        )
    &&& forall|a: Seq<char>|
        shared(t, a) && users(t, a).len() >= 2 ==> exists|i: int|
            0 <= i < g.net_name_conflicts@.len() && (#[trigger] g.net_name_conflicts@[i]).net.0
                == net_of(t, a) && views(g.net_name_conflicts@[i].names@) == users(t, a)
}


/// `first[k]` is the least position with the label of `k`.
pub open spec fn firsts_ok(labels: Seq<usize>, first: Seq<usize>) -> bool {
    &&& first.len() == labels.len()
    &&& forall|k: int|
        0 <= k < labels.len() ==> #[trigger] first[k] <= k && labels[first[k] as int] == labels[k]
            && forall|j: int| 0 <= j < first[k] ==> labels[j] != labels[k]
}

fn first_indices(labels: &Vec<usize>) -> (first: Vec<usize>)
    ensures
        firsts_ok(labels@, first@),
{
    let n = labels.len();
    let mut first: Vec<usize> = Vec::new();
    let mut k: usize = 0;
    while k < n
        invariant
            n == labels.len(),
            k <= n,
            first@.len() == k,
            forall|a: int|
                0 <= a < k ==> #[trigger] first@[a] <= a && labels@[first@[a] as int] == labels@[a]
                    && forall|j: int| 0 <= j < first@[a] ==> labels@[j] != labels@[a],
        decreases n - k,
    {
        let mut j: usize = 0;
        while labels[j] != labels[k]
            invariant
                n == labels.len(),
                k < n,
                j <= k,
                forall|i: int| 0 <= i < j ==> labels@[i] != labels@[k as int],
            decreases k - j,
        {
            j = j + 1;
        }
        first.push(j);
        k = k + 1;
    }
    first
}

/// Whether another position carries the same label.
fn shared_flags(labels: &Vec<usize>) -> (flags: Vec<bool>)
    ensures
        flags@.len() == labels@.len(),
        forall|k: int|
            0 <= k < labels@.len() ==> (#[trigger] flags@[k] <==> exists|m: int|
                0 <= m < labels@.len() && m != k && labels@[m] == labels@[k]),
{
    let n = labels.len();
    let mut flags: Vec<bool> = Vec::new();
    let mut k: usize = 0;
    while k < n
        invariant
            n == labels.len(),
            k <= n,
            flags@.len() == k,
            forall|a: int|
                0 <= a < k ==> (#[trigger] flags@[a] <==> exists|m: int|
                    0 <= m < n && m != a && labels@[m] == labels@[a]),
        decreases n - k,
    {
        let mut found = false;
        let mut m: usize = 0;
        while m < n
            invariant
                n == labels.len(),
                k < n,
                m <= n,
                found <==> exists|i: int| 0 <= i < m && i != k && labels@[i] == labels@[k as int],
            decreases n - m,
        {
            if m != k && labels[m] == labels[k] {
                found = true;
            }
            m = m + 1;
        }
        flags.push(found);
        k = k + 1;
    }
    flags
}

pub open spec fn count_leaders(first: Seq<usize>, k: int) -> nat
    decreases k,
{
    if k <= 0 {
        0
    } else {
        count_leaders(first, k - 1) + if first[k - 1] == k - 1 {
            1nat
        } else {
            0nat
        }
    }
}

fn leader_prefix(first: &Vec<usize>) -> (pre: Vec<usize>)
    ensures
        pre@.len() == first@.len() + 1,
        forall|k: int| 0 <= k <= first@.len() ==> #[trigger] pre@[k] == count_leaders(first@, k),
        forall|k: int| 0 <= k <= first@.len() ==> #[trigger] pre@[k] <= k,
{
    let mut pre: Vec<usize> = Vec::new();
    pre.push(0);
    let mut k: usize = 0;
    while k < first.len()
        invariant
            k <= first.len(),
            pre@.len() == k + 1,
            forall|a: int| 0 <= a <= k ==> #[trigger] pre@[a] == count_leaders(first@, a),
            forall|a: int| 0 <= a <= k ==> #[trigger] pre@[a] <= a,
        decreases first.len() - k,
    {
        let last = pre[k];
        let next = if first[k] == k { last + 1 } else { last };
        pre.push(next);
        k = k + 1;
    }
    pre
}

fn nets_contain(t: &Topology, s: &String) -> (r: bool)
    ensures
        r == in_nets(*t, s@),
{
    let mut i: usize = 0;
    while i < t.nets.len()
        invariant
            i <= t.nets.len(),
            forall|j: int| 0 <= j < i ==> t.nets@[j]@ != s@,
        decreases t.nets.len() - i,
    {
        if t.nets[i] == *s {
            assert(t.nets@[i as int]@ == s@);
            return true;
        }
        i = i + 1;
    }
    false
}

fn ends_with_minus_exec(s: &String) -> (r: bool)
    ensures
        r == ends_with_minus(s@),
{
    let cs = crate::text::chars_of(s.as_str());
    let n = cs.len();
    if n < 6 {
        return false;
    }
    let r = crate::text::range_eq_str(&cs, n - 6, n, ".minus");
    assert(cs@.subrange(n - 6, n as int) =~= s@.skip(s@.len() - 6));
    r
}

fn underscored(s: &String) -> (r: String)
    ensures
        r@ == "N_"@ + underscores(s@),
{
    let cs = crate::text::chars_of(s.as_str());
    let mut r = owned("N_");
    let mut i: usize = 0;
    while i < cs.len()
        invariant
            i <= cs.len(),
            cs@ == s@,
            r@ == "N_"@ + underscores(s@).take(i as int),
        decreases cs.len() - i,
    {
        let c = if cs[i] == '.' { '_' } else { cs[i] };
        crate::text::push_char(&mut r, c);
        assert(underscores(s@).take(i + 1) =~= underscores(s@).take(i as int).push(c));
        i = i + 1;
    }
    assert(underscores(s@).take(cs.len() as int) =~= underscores(s@));
    r
}


/// Nodes in order, labeled by net.
pub open spec fn classes_ok(t: Topology, p: Seq<String>, labels: Seq<usize>) -> bool {
    &&& sorted_names(views(p))
    &&& forall|s: Seq<char>| #![trigger views(p).contains(s)] views(p).contains(s) <==> is_pin(t, s)
    &&& labels_range(p, labels)
    &&& forall|k1: int, k2: int|
        0 <= k1 < p.len() && 0 <= k2 < p.len() ==> (#[trigger] labels[k1] == #[trigger] labels[k2]
            <==> joined(t, p[k1]@, p[k2]@))
    &&& views(p) == node_order(t)
}

proof fn lemma_node_order(t: Topology, q: Seq<Seq<char>>)
    requires
        sorted_names(q),
        forall|s: Seq<char>| #![trigger q.contains(s)] q.contains(s) <==> is_pin(t, s),
    ensures
        q == node_order(t),
{
    assert(sorted_names(q) && forall|s: Seq<char>| q.contains(s) <==> is_pin(t, s));
    let o = node_order(t);
    lemma_sorted_unique(q, o);
}

fn node_classes(t: &Topology) -> (r: (Vec<String>, Vec<usize>))
    ensures
        classes_ok(*t, r.0@, r.1@),
{
    let p = collect_pins(t);
    let labels = union_labels(t, &p);
    proof {
        assert forall|k1: int, k2: int|
            0 <= k1 < p@.len() && 0 <= k2 < p@.len() implies (#[trigger] labels@[k1]
            == #[trigger] labels@[k2] <==> joined(*t, p@[k1]@, p@[k2]@)) by {
            if joined(*t, p@[k1]@, p@[k2]@) {
                lemma_labels_complete(*t, p@, labels@, k1, k2);
            }
        }
        lemma_node_order(*t, views(p@));
    }
    (p, labels)
}

/// A node of the graph sits at some position of the node order.
proof fn lemma_pin_position(t: Topology, p: Seq<String>, labels: Seq<usize>, s: Seq<char>) -> (k: int)
    requires
        classes_ok(t, p, labels),
        is_pin(t, s),
    ensures
        0 <= k < p.len(),
        p[k]@ == s,
{
    assert(views(p).contains(s));
    let k = choose|k: int| 0 <= k < views(p).len() && views(p)[k] == s;
    k
}

proof fn lemma_order_index(p: Seq<String>, j: int, k: int)
    requires
        sorted_names(views(p)),
        0 <= j < p.len(),
        0 <= k < p.len(),
    ensures
        text_lt(p[j]@, p[k]@) <==> j < k,
{
    assert(views(p)[j] == p[j]@);
    assert(views(p)[k] == p[k]@);
    if j < k {
        assert(text_lt(views(p)[j], views(p)[k]));
    } else if j == k {
        crate::text::lemma_text_lt_irreflexive(p[j]@);
    } else {
        assert(text_lt(views(p)[k], views(p)[j]));
        crate::text::lemma_text_lt_total(p[j]@, p[k]@);
    }
}

proof fn lemma_shared(t: Topology, p: Seq<String>, labels: Seq<usize>, k: int)
    requires
        classes_ok(t, p, labels),
        0 <= k < p.len(),
    ensures
        shared(t, p[k]@) <==> exists|m: int|
            0 <= m < labels.len() && m != k && labels[m] == labels[k],
{
    assert(views(p)[k] == p[k]@);
    assert(views(p).contains(p[k]@));
    if shared(t, p[k]@) {
        let b = choose|b: Seq<char>| is_pin(t, b) && b != p[k]@ && #[trigger] joined(t, p[k]@, b);
        let m = lemma_pin_position(t, p, labels, b);
        assert(labels[m] == labels[k]);
    }
    if exists|m: int| 0 <= m < labels.len() && m != k && labels[m] == labels[k] {
        let m = choose|m: int| 0 <= m < labels.len() && m != k && labels[m] == labels[k];
        assert(joined(t, p[k]@, p[m]@));
        assert(views(p)[k] == p[k]@ && views(p)[m] == p[m]@);
        if p[m]@ == p[k]@ {
            lemma_sorted_distinct(views(p), k, m);
        }
        assert(views(p).contains(p[m]@));
        assert(is_pin(t, p[m]@));
    }
}

proof fn lemma_leader(t: Topology, p: Seq<String>, labels: Seq<usize>, first: Seq<usize>, k: int)
    requires
        classes_ok(t, p, labels),
        firsts_ok(labels, first),
        0 <= k < p.len(),
    ensures
        is_leader(t, views(p), k) <==> first[k] == k,
{
    let q = views(p);
    if first[k] == k {
        assert forall|j: int| 0 <= j < k implies !joined(t, #[trigger] q[j], q[k]) by {
            assert(q[j] == p[j]@);
            assert(q[k] == p[k]@);
            assert(labels[j] != labels[k]);
        }
    } else {
        let j = first[k] as int;
        assert(q[j] == p[j]@ && q[k] == p[k]@);
        assert(joined(t, q[j], q[k]));
    }
}

proof fn lemma_leaders_before(t: Topology, p: Seq<String>, labels: Seq<usize>, first: Seq<usize>, k: int)
    requires
        classes_ok(t, p, labels),
        firsts_ok(labels, first),
        0 <= k <= p.len(),
    ensures
        leaders_before(t, views(p), k) == count_leaders(first, k),
    decreases k,
{
    if k > 0 {
        lemma_leaders_before(t, p, labels, first, k - 1);
        lemma_leader(t, p, labels, first, k - 1);
    }
}

proof fn lemma_class_first(t: Topology, p: Seq<String>, labels: Seq<usize>, first: Seq<usize>, k: int)
    requires
        classes_ok(t, p, labels),
        firsts_ok(labels, first),
        0 <= k < p.len(),
    ensures
        class_first(t, views(p), p[k]@) == first[k],
{
    let q = views(p);
    let f = first[k] as int;
    assert(q[f] == p[f]@);
    assert(joined(t, q[f], p[k]@));
    assert forall|j: int| 0 <= j < f implies !joined(t, #[trigger] q[j], p[k]@) by {
        assert(q[j] == p[j]@);
        assert(labels[j] != labels[k]);
    }
    let c = class_first(t, q, p[k]@);
    assert(0 <= c < q.len() && joined(t, q[c], p[k]@));
    assert(q[c] == p[c]@);
    if c < f {
        assert(labels[c] == labels[k]);
    }
    if c > f {
        assert(!joined(t, q[f], p[k]@));
    }
}

/// Net numbers before ground selection, and which nodes are connected.
fn raw_nets(t: &Topology, p: &Vec<String>, labels: &Vec<usize>) -> (r: (Vec<usize>, Vec<bool>, Vec<usize>))
    requires
        classes_ok(*t, p@, labels@),
    ensures
        firsts_ok(labels@, r.0@),
        r.1@.len() == p@.len(),
        r.2@.len() == p@.len(),
        forall|k: int| 0 <= k < p@.len() ==> (#[trigger] r.1@[k] <==> shared(*t, p@[k]@)),
        forall|k: int| 0 <= k < p@.len() ==> #[trigger] r.2@[k] == raw_net(*t, p@[k]@),
        forall|k: int| 0 <= k < p@.len() ==> 1 <= #[trigger] r.2@[k] <= p@.len(),
{
    let first = first_indices(labels);
    let flags = shared_flags(labels);
    let pre = leader_prefix(&first);
    let mut raw: Vec<usize> = Vec::new();
    let mut k: usize = 0;
    while k < p.len()
        invariant
            classes_ok(*t, p@, labels@),
            firsts_ok(labels@, first@),
            pre@.len() == first@.len() + 1,
            forall|a: int| 0 <= a <= first@.len() ==> #[trigger] pre@[a] == count_leaders(first@, a),
            forall|a: int| 0 <= a <= first@.len() ==> #[trigger] pre@[a] <= a,
            k <= p.len(),
            raw@.len() == k,
            forall|a: int| 0 <= a < k ==> #[trigger] raw@[a] == raw_net(*t, p@[a]@),
            forall|a: int| 0 <= a < k ==> 1 <= #[trigger] raw@[a] <= p@.len(),
        decreases p.len() - k,
    {
        let f = first[k];
        proof {
            lemma_class_first(*t, p@, labels@, first@, k as int);
            lemma_leaders_before(*t, p@, labels@, first@, f as int);
        }
        raw.push(1 + pre[f]);
        k = k + 1;
    }
    proof {
        assert forall|a: int| 0 <= a < p@.len() implies (#[trigger] flags@[a] <==> shared(*t, p@[a]@)) by {
            lemma_shared(*t, p@, labels@, a);
        }
    }
    (first, flags, raw)
}


/// Ground references by position, and whether they come from `GND` nets.
fn ground_select(t: &Topology, p: &Vec<String>, labels: &Vec<usize>, flags: &Vec<bool>) -> (r: (
    Vec<usize>,
    bool,
))
    requires
        classes_ok(*t, p@, labels@),
        flags@.len() == p@.len(),
        forall|k: int| 0 <= k < p@.len() ==> (#[trigger] flags@[k] <==> shared(*t, p@[k]@)),
    ensures
        r.1 == ground_explicit_spec(*t),
        forall|i: int| 0 <= i < r.0@.len() ==> #[trigger] r.0@[i] < p@.len(),
        forall|i: int, j: int| 0 <= i < j < r.0@.len() ==> #[trigger] r.0@[i] < #[trigger] r.0@[j],
        forall|k: int|
            0 <= k < p@.len() ==> (ground_candidate(*t, #[trigger] p@[k]@) <==> r.0@.contains(
                k as usize,
            )),
{
    let n = p.len();
    let gnd = owned("gnd");
    let mut explicit_flags: Vec<bool> = Vec::new();
    let mut explicit = false;
    let mut k: usize = 0;
    while k < n
        invariant
            n == p.len(),
            flags@.len() == n,
            gnd@ == "gnd"@,
            k <= n,
            explicit_flags@.len() == k,
            forall|a: int| 0 <= a < k ==> (#[trigger] explicit_flags@[a] <==> explicit_ground(*t, p@[a]@)),
            explicit <==> exists|a: int| 0 <= a < k && explicit_flags@[a],
            forall|k: int| 0 <= k < p@.len() ==> (#[trigger] flags@[k] <==> shared(*t, p@[k]@)),
        decreases n - k,
    {
        let e = flags[k] && nets_contain(t, &p[k]) && crate::text::eq_ignore_case_exec(
            p[k].as_str(),
            gnd.as_str(),
        );
        let ghost old_f = explicit_flags@;
        explicit_flags.push(e);
        explicit = explicit || e;
        proof {
            assert(explicit_flags@[k as int] == e);
            if exists|b: int| 0 <= b < k && old_f[b] {
                let b = choose|b: int| 0 <= b < k && old_f[b];
                assert(explicit_flags@[b]);
            }
            if e {
                assert(0 <= k < k + 1 && explicit_flags@[k as int]);
            }
            if exists|a: int| 0 <= a < k + 1 && explicit_flags@[a] {
                let a = choose|a: int| 0 <= a < k + 1 && explicit_flags@[a];
                if a < k {
                    assert(exists|b: int| 0 <= b < k && explicit_flags@[b]);
                }
            }
        }
        k = k + 1;
    }
    proof {
        if ground_explicit_spec(*t) {
            let s = choose|s: Seq<char>| explicit_ground(*t, s);
            let a = lemma_pin_position(*t, p@, labels@, s);
            assert(explicit_flags@[a]);
        }
    }
    let mut elig: Vec<bool> = Vec::new();
    k = 0;
    while k < n
        invariant
            n == p.len(),
            flags@.len() == n,
            explicit_flags@.len() == n,
            explicit == ground_explicit_spec(*t),
            forall|a: int| 0 <= a < n ==> (#[trigger] explicit_flags@[a] <==> explicit_ground(*t, p@[a]@)),
            forall|k: int| 0 <= k < p@.len() ==> (#[trigger] flags@[k] <==> shared(*t, p@[k]@)),
            k <= n,
            elig@.len() == k,
            forall|a: int| 0 <= a < k ==> (#[trigger] elig@[a] <==> eligible_ground(*t, p@[a]@)),
        decreases n - k,
    {
        let e = if explicit {
            explicit_flags[k]
        } else {
            flags[k] && ends_with_minus_exec(&p[k])
        };
        elig.push(e);
        k = k + 1;
    }
    let mut cands: Vec<usize> = Vec::new();
    k = 0;
    while k < n
        invariant
            classes_ok(*t, p@, labels@),
            n == p.len(),
            elig@.len() == n,
            forall|a: int| 0 <= a < n ==> (#[trigger] elig@[a] <==> eligible_ground(*t, p@[a]@)),
            k <= n,
            forall|i: int| 0 <= i < cands@.len() ==> #[trigger] cands@[i] < k,
            forall|i: int, j: int| 0 <= i < j < cands@.len() ==> #[trigger] cands@[i] < #[trigger] cands@[j],
            forall|a: int|
                0 <= a < k ==> (ground_candidate(*t, #[trigger] p@[a]@) <==> cands@.contains(a as usize)),
        decreases n - k,
    {
        let mut lead = elig[k];
        let mut j: usize = 0;
        while j < k
            invariant
                n == p.len(),
                elig@.len() == n,
                labels@.len() == n,
                k < n,
                j <= k,
                lead <==> elig@[k as int] && forall|i: int| 0 <= i < j ==> !(elig@[i] && labels@[i] == labels@[k as int]),
            decreases k - j,
        {
            if elig[j] && labels[j] == labels[k] {
                lead = false;
            }
            j = j + 1;
        }
        proof {
            let a = k as int;
            assert(ground_candidate(*t, p@[a]@) <==> lead) by {
                if lead {
                    assert forall|s2: Seq<char>| eligible_ground(*t, s2) && joined(*t, p@[a]@, s2)
                        implies !text_lt(s2, p@[a]@) by {
                        let m = lemma_pin_position(*t, p@, labels@, s2);
                        assert(labels@[a] == labels@[m]);
                        lemma_order_index(p@, m, a);
                        if m < a {
                            assert(!(elig@[m] && labels@[m] == labels@[a]));
                        }
                    }
                }
                if ground_candidate(*t, p@[a]@) {
                    assert forall|i: int| 0 <= i < k implies !(elig@[i] && labels@[i] == labels@[a]) by {
                        if elig@[i] && labels@[i] == labels@[a] {
                            assert(joined(*t, p@[a]@, p@[i]@));
                            lemma_order_index(p@, i, a);
                        }
                    }
                }
            }
        }
        let ghost old_c = cands@;
        if lead {
            cands.push(k);
        }
        proof {
            assert forall|a: int|
                0 <= a < k + 1 implies (ground_candidate(*t, #[trigger] p@[a]@) <==> cands@.contains(a as usize)) by {
                if cands@.contains(a as usize) {
                    let i = choose|i: int| 0 <= i < cands@.len() && cands@[i] == a as usize;
                    if i < old_c.len() {
                        assert(old_c[i] == a as usize);
                        assert(old_c.contains(a as usize));
                    }
                }
                if a < k && ground_candidate(*t, p@[a]@) {
                    assert(old_c.contains(a as usize));
                    let i = choose|i: int| 0 <= i < old_c.len() && old_c[i] == a as usize;
                    assert(cands@[i] == a as usize);
                }
                if a == k && lead {
                    assert(cands@[cands@.len() - 1] == k);
                }
            }
        }
        k = k + 1;
    }
    (cands, explicit)
}


proof fn lemma_ground_pin(t: Topology, p: Seq<String>, labels: Seq<usize>, cands: Seq<usize>)
    requires
        classes_ok(t, p, labels),
        forall|i: int| 0 <= i < cands.len() ==> #[trigger] cands[i] < p.len(),
        forall|i: int, j: int| 0 <= i < j < cands.len() ==> #[trigger] cands[i] < #[trigger] cands[j],
        forall|k: int| 0 <= k < p.len() ==> (ground_candidate(t, #[trigger] p[k]@) <==> cands.contains(k as usize)),
    ensures
        cands.len() == 0 ==> ground_pin(t) is None,
        cands.len() > 0 ==> ground_pin(t) == Some(p[cands[0] as int]@),
{
    if cands.len() == 0 {
        if exists|s: Seq<char>| ground_candidate(t, s) {
            let s = choose|s: Seq<char>| ground_candidate(t, s);
            let k = lemma_pin_position(t, p, labels, s);
            assert(cands.contains(k as usize));
        }
    } else {
        let g = cands[0] as int;
        assert(cands.contains(cands[0]));
        let s0 = p[g]@;
        assert(ground_candidate(t, s0));
        assert forall|s2: Seq<char>| ground_candidate(t, s2) implies !text_lt(s2, s0) by {
            let j = lemma_pin_position(t, p, labels, s2);
            assert(cands.contains(j as usize));
            let i = choose|i: int| 0 <= i < cands.len() && cands[i] == j as usize;
            if i > 0 {
                assert(cands[0] < cands[i]);
            }
            lemma_order_index(p, j, g);
        }
        let s = choose|s: Seq<char>|
            ground_candidate(t, s) && forall|s2: Seq<char>| ground_candidate(t, s2) ==> !text_lt(s2, s);
        assert(!text_lt(s, s0));
        assert(!text_lt(s0, s));
        crate::text::lemma_text_lt_total(s, s0);
    }
}

/// User net names joined with `p[k]`, in node order.
fn class_user_list(t: &Topology, p: &Vec<String>, labels: &Vec<usize>, k: usize) -> (r: Vec<String>)
    requires
        classes_ok(*t, p@, labels@),
        k < p.len(),
    ensures
        views(r@) == class_users(*t, views(p@), p@[k as int]@, p@.len() as int),
{
    let mut r: Vec<String> = Vec::new();
    let mut m: usize = 0;
    while m < p.len()
        invariant
            classes_ok(*t, p@, labels@),
            k < p.len(),
            m <= p.len(),
            views(r@) == class_users(*t, views(p@), p@[k as int]@, m as int),
        decreases p.len() - m,
    {
        assert(views(p@)[m as int] == p@[m as int]@);
        if labels[m] == labels[k] && nets_contain(t, &p[m]) {
            r.push(p[m].clone());
            assert(views(r@) =~= class_users(*t, views(p@), p@[k as int]@, m as int).push(p@[m as int]@));
        }
        m = m + 1;
    }
    r
}

/// The user names joined with a node depend only on its net.
proof fn lemma_class_users_same(t: Topology, q: Seq<Seq<char>>, a: Seq<char>, b: Seq<char>, m: int)
    requires
        joined(t, a, b),
        0 <= m <= q.len(),
    ensures
        class_users(t, q, a, m) == class_users(t, q, b, m),
    decreases m,
{
    if m > 0 {
        lemma_class_users_same(t, q, a, b, m - 1);
        if joined(t, q[m - 1], a) {
            lemma_joined_trans(t, q[m - 1], a, b);
        }
        if joined(t, q[m - 1], b) {
            lemma_joined_sym(t, a, b);
            lemma_joined_trans(t, q[m - 1], b, a);
        }
    }
}

/// Net numbers after ground selection: the ground net becomes 0.
fn final_nets(t: &Topology, p: &Vec<String>, labels: &Vec<usize>, raw: &Vec<usize>, cands: &Vec<usize>) -> (fin: Vec<usize>)
    requires
        classes_ok(*t, p@, labels@),
        raw@.len() == p@.len(),
        forall|a: int| 0 <= a < p@.len() ==> #[trigger] raw@[a] == raw_net(*t, p@[a]@),
        cands@.len() == 0 ==> ground_pin(*t) is None,
        cands@.len() > 0 ==> cands@[0] < p@.len() && ground_pin(*t) == Some(p@[cands@[0] as int]@),
    ensures
        fin@.len() == p@.len(),
        forall|a: int| 0 <= a < p@.len() ==> #[trigger] fin@[a] == net_of(*t, p@[a]@),
{
    let n = p.len();
    let has_ground = cands.len() > 0;
    let g0: usize = if has_ground { cands[0] } else { 0 };
    let mut fin: Vec<usize> = Vec::new();
    let mut k: usize = 0;
    while k < n
        invariant
            classes_ok(*t, p@, labels@),
            n == p.len(),
            raw@.len() == n,
            forall|a: int| 0 <= a < n ==> #[trigger] raw@[a] == raw_net(*t, p@[a]@),
            has_ground ==> g0 < n && ground_pin(*t) == Some(p@[g0 as int]@),
            !has_ground ==> ground_pin(*t) is None,
            k <= n,
            fin@.len() == k,
            forall|a: int| 0 <= a < k ==> #[trigger] fin@[a] == net_of(*t, p@[a]@),
        decreases n - k,
    {
        let v = if has_ground && labels[k] == labels[g0] { 0 } else { raw[k] };
        fin.push(v);
        k = k + 1;
    }
    fin
}

/// The ground candidates by name, in ascending order.
fn candidate_names(t: &Topology, p: &Vec<String>, labels: &Vec<usize>, cands: &Vec<usize>) -> (gc: Vec<String>)
    requires
        classes_ok(*t, p@, labels@),
        forall|i: int| 0 <= i < cands@.len() ==> #[trigger] cands@[i] < p@.len(),
        forall|i: int, j: int| 0 <= i < j < cands@.len() ==> #[trigger] cands@[i] < #[trigger] cands@[j],
        forall|k: int|
            0 <= k < p@.len() ==> (ground_candidate(*t, #[trigger] p@[k]@) <==> cands@.contains(k as usize)),
    ensures
        sorted_names(views(gc@)),
        forall|s: Seq<char>| views(gc@).contains(s) <==> ground_candidate(*t, s),
{
    let mut gc: Vec<String> = Vec::new();
    let mut i: usize = 0;
    while i < cands.len()
        invariant
            forall|i: int| 0 <= i < cands@.len() ==> #[trigger] cands@[i] < p@.len(),
            i <= cands.len(),
            gc@.len() == i,
            forall|j: int| 0 <= j < i ==> (#[trigger] gc@[j])@ == p@[cands@[j] as int]@,
        decreases cands.len() - i,
    {
        gc.push(p[cands[i]].clone());
        i = i + 1;
    }
    proof {
        let gv = views(gc@);
        assert forall|a: int, b: int| 0 <= a < b < gv.len() implies text_lt(gv[a], gv[b]) by {
            assert(gv[a] == p@[cands@[a] as int]@);
            assert(gv[b] == p@[cands@[b] as int]@);
            lemma_order_index(p@, cands@[a] as int, cands@[b] as int);
        }
        assert forall|s: Seq<char>| gv.contains(s) <==> ground_candidate(*t, s) by {
            if gv.contains(s) {
                let j = choose|j: int| 0 <= j < gv.len() && gv[j] == s;
                assert(gv[j] == p@[cands@[j] as int]@);
                assert(cands@.contains(cands@[j]));
            }
            if ground_candidate(*t, s) {
                let kk = lemma_pin_position(*t, p@, labels@, s);
                assert(cands@.contains(kk as usize));
                let j = choose|j: int| 0 <= j < cands@.len() && cands@[j] == kk as usize;
                assert(gc@[j]@ == p@[cands@[j] as int]@);
                assert(kk < p.len());
                assert(gv[j] == gc@[j]@);
                assert(gv.contains(s));
            }
        }
    }
    gc
}

/// Each connected node with its net, in ascending node order.
fn connected_nets(t: &Topology, p: &Vec<String>, labels: &Vec<usize>, flags: &Vec<bool>, fin: &Vec<usize>) -> (m: Vec<(String, NetId)>)
    requires
        classes_ok(*t, p@, labels@),
        flags@.len() == p@.len(),
        fin@.len() == p@.len(),
        forall|a: int| 0 <= a < p@.len() ==> (#[trigger] flags@[a] <==> shared(*t, p@[a]@)),
        forall|a: int| 0 <= a < p@.len() ==> #[trigger] fin@[a] == net_of(*t, p@[a]@),
    ensures
        sorted_names(keys(m@)),
        forall|s: Seq<char>| keys(m@).contains(s) <==> shared(*t, s),
        forall|i: int| 0 <= i < m@.len() ==> (#[trigger] m@[i]).1.0 == net_of(*t, m@[i].0@),
{
    let n = p.len();
    let mut m: Vec<(String, NetId)> = Vec::new();
    let ghost mut idx: Seq<int> = seq![];
    let mut k: usize = 0;
    while k < n
        invariant
            n == p.len(),
            flags@.len() == n,
            fin@.len() == n,
            k <= n,
            idx.len() == m@.len(),
            forall|j: int| 0 <= j < idx.len() ==> 0 <= #[trigger] idx[j] < k,
            forall|j: int| 0 <= j < idx.len() ==> (#[trigger] m@[j]).0@ == p@[idx[j]]@ && m@[j].1.0 == fin@[idx[j]] && flags@[idx[j]],
            forall|i: int, j: int| 0 <= i < j < idx.len() ==> #[trigger] idx[i] < #[trigger] idx[j],
            forall|a: int| 0 <= a < k && #[trigger] flags@[a] ==> idx.contains(a),
        decreases n - k,
    {
        if flags[k] {
            m.push((p[k].clone(), NetId(fin[k])));
            proof {
                let old_idx = idx;
                idx = idx.push(k as int);
                assert forall|a: int| 0 <= a < k + 1 && #[trigger] flags@[a] implies idx.contains(a) by {
                    if a < k {
                        let j = choose|j: int| 0 <= j < old_idx.len() && old_idx[j] == a;
                        assert(idx[j] == a);
                    } else {
                        assert(idx[idx.len() - 1] == a);
                    }
                }
            }
        }
        k = k + 1;
    }
    proof {
        let km = keys(m@);
        assert forall|a: int, b: int| 0 <= a < b < km.len() implies text_lt(km[a], km[b]) by {
            assert(km[a] == p@[idx[a]]@);
            assert(km[b] == p@[idx[b]]@);
            lemma_order_index(p@, idx[a], idx[b]);
        }
        assert forall|s: Seq<char>| km.contains(s) <==> shared(*t, s) by {
            if km.contains(s) {
                let j = choose|j: int| 0 <= j < km.len() && km[j] == s;
                assert(m@[j].0@ == p@[idx[j]]@);
                assert(flags@[idx[j]]);
            }
            if shared(*t, s) {
                let a = lemma_pin_position(*t, p@, labels@, s);
                assert(flags@[a]);
                let j = choose|j: int| 0 <= j < idx.len() && idx[j] == a;
                assert(km[j] == s);
            }
        }
        assert forall|i: int| 0 <= i < m@.len() implies (#[trigger] m@[i]).1.0 == net_of(*t, m@[i].0@) by {
            assert(fin@[idx[i]] == net_of(*t, p@[idx[i]]@));
        }
    }
    m
}

/// `a` is connected and its net carries several user names.
#[verifier::opaque]
spec fn many_users(t: Topology, a: Seq<char>) -> bool {
    shared(t, a) && users(t, a).len() >= 2
}

/// `id` and `names` are the net number and the user names of the net of `a`,
/// which carries several of them.
#[verifier::opaque]
spec fn reported(t: Topology, a: Seq<char>, id: int, names: Seq<Seq<char>>) -> bool {
    many_users(t, a) && id == net_of(t, a) && names == users(t, a)
}

/// Net names after the first `k` nodes: net 0 is `0`, the others carry their
/// name in ascending order of net number.
#[verifier::opaque]
spec fn names_ok(
    t: Topology,
    first: Seq<usize>,
    flags: Seq<bool>,
    fin: Seq<usize>,
    names: Seq<(NetId, String)>,
    k: int,
) -> bool {
    &&& names.len() >= 1
    &&& names[0].0.0 == 0 && names[0].1@ == "0"@
    &&& forall|i: int| 1 <= i < names.len() ==> is_net_name(t, (#[trigger] names[i]).0.0 as int, names[i].1@)
    &&& forall|i: int| 1 <= i < names.len() ==> 1 <= (#[trigger] names[i]).0.0 <= count_leaders(first, k)
    &&& forall|i: int, j: int| 1 <= i < j < names.len() ==> (#[trigger] names[i]).0.0 < (#[trigger] names[j]).0.0
    &&& forall|a: int|
        #![trigger fin[a]]
        0 <= a < k && first[a] == a && flags[a] && fin[a] != 0 ==> exists|i: int|
            1 <= i < names.len() && (#[trigger] names[i]).0.0 == fin[a]
}

/// Conflicting user names after the first `k` nodes.
#[verifier::opaque]
spec fn conflicts_ok(
    t: Topology,
    p: Seq<String>,
    first: Seq<usize>,
    flags: Seq<bool>,
    fin: Seq<usize>,
    c: Seq<NetNameConflict>,
    k: int,
) -> bool {
    &&& forall|i: int| 0 <= i < c.len() ==> is_conflict(t, (#[trigger] c[i]).net.0 as int, views(c[i].names@))
    &&& forall|a: int|
        #![trigger p[a]]
        0 <= a < k && first[a] == a && flags[a] && many_users(t, p[a]@) ==> exists|i: int|
            0 <= i < c.len() && reported(t, p[a]@, (#[trigger] c[i]).net.0 as int, views(c[i].names@))
}

/// The facts about positions that naming relies on.
spec fn positions_ok(
    t: Topology,
    p: Seq<String>,
    labels: Seq<usize>,
    first: Seq<usize>,
    flags: Seq<bool>,
    fin: Seq<usize>,
    raw: Seq<usize>,
) -> bool {
    &&& classes_ok(t, p, labels)
    &&& firsts_ok(labels, first)
    &&& flags.len() == p.len()
    &&& fin.len() == p.len()
    &&& raw.len() == p.len()
    &&& forall|a: int| 0 <= a < p.len() ==> (#[trigger] flags[a] <==> shared(t, p[a]@))
    &&& forall|a: int| 0 <= a < p.len() ==> #[trigger] fin[a] == net_of(t, p[a]@)
    &&& forall|a: int| 0 <= a < p.len() ==> #[trigger] raw[a] == raw_net(t, p[a]@)
}

/// What naming needs to know of the node at position `k`.
proof fn lemma_leader_facts(
    t: Topology,
    p: Seq<String>,
    labels: Seq<usize>,
    first: Seq<usize>,
    flags: Seq<bool>,
    fin: Seq<usize>,
    raw: Seq<usize>,
    k: int,
    u: Seq<Seq<char>>,
)
    requires
        positions_ok(t, p, labels, first, flags, fin, raw),
        0 <= k < p.len(),
        u == users(t, p[k]@),
    ensures
        first[k] == k && flags[k] && fin[k] != 0 ==> fin[k] == 1 + count_leaders(first, k) && is_net_name(
            t,
            fin[k] as int,
            if u.len() > 0 {
                u[0]
            } else {
                "N_"@ + underscores(p[k]@)
            },
        ),
        first[k] == k && flags[k] ==> (many_users(t, p[k]@) <==> u.len() >= 2),
        first[k] == k && flags[k] && u.len() >= 2 ==> reported(t, p[k]@, fin[k] as int, u) && is_conflict(
            t,
            fin[k] as int,
            u,
        ),
{
    reveal(many_users);
    reveal(reported);
    if first[k] == k {
        lemma_class_first(t, p, labels, first, k);
        lemma_leaders_before(t, p, labels, first, k);
        assert(views(p)[k] == p[k]@);
        let a = p[k]@;
        if flags[k] && fin[k] != 0 {
            let name = if u.len() > 0 {
                u[0]
            } else {
                "N_"@ + underscores(p[k]@)
            };
            assert(shared(t, a) && net_of(t, a) != 0 && fin[k] == net_of(t, a) && name == net_name_spec(t, a));
        }
        if flags[k] && u.len() >= 2 {
            assert(shared(t, a) && users(t, a).len() >= 2 && fin[k] == net_of(t, a) && u == users(t, a));
        }
    }
}

/// Names the net of the node at position `k` when that node is the least node
/// of a connected, non-ground net.
fn add_name(
    first: &Vec<usize>,
    flags: &Vec<bool>,
    fin: &Vec<usize>,
    k: usize,
    node: &String,
    user_names: &Vec<String>,
    names: &mut Vec<(NetId, String)>,
    Ghost(t): Ghost<Topology>,
)
    requires
        k < first@.len(),
        flags@.len() == first@.len(),
        fin@.len() == first@.len(),
        first@[k as int] == k && flags@[k as int] && fin@[k as int] != 0 ==> fin@[k as int] == 1
            + count_leaders(first@, k as int) && is_net_name(
            t,
            fin@[k as int] as int,
            if user_names@.len() > 0 {
                user_names@[0]@
            } else {
                "N_"@ + underscores(node@)
            },
        ),
        names_ok(t, first@, flags@, fin@, old(names)@, k as int),
    ensures
        names_ok(t, first@, flags@, fin@, final(names)@, k + 1),
{
    proof {
        reveal(names_ok);
        assert(count_leaders(first@, k + 1) >= count_leaders(first@, k as int));
    }
    if first[k] == k && flags[k] && fin[k] != 0 {
        let name = if user_names.len() > 0 {
            user_names[0].clone()
        } else {
            underscored(node)
        };
        let ghost old_n = names@;
        names.push((NetId(fin[k]), name));
        proof {
            assert forall|i: int| 1 <= i < names@.len() implies is_net_name(t, (#[trigger] names@[i]).0.0 as int, names@[i].1@) by {
                if i < old_n.len() {
                    assert(names@[i] == old_n[i]);
                }
            }
            assert forall|i: int| 1 <= i < names@.len() implies 1 <= (#[trigger] names@[i]).0.0 <= count_leaders(first@, k + 1) by {
                if i < old_n.len() {
                    assert(names@[i] == old_n[i]);
                }
            }
            assert forall|i: int, j: int| 1 <= i < j < names@.len() implies (#[trigger] names@[i]).0.0 < (#[trigger] names@[j]).0.0 by {
                assert(names@[i] == old_n[i]);
                if j < old_n.len() {
                    assert(names@[j] == old_n[j]);
                }
            }
            assert forall|a: int|
                #![trigger fin@[a]]
                0 <= a < k + 1 && first@[a] == a && flags@[a] && fin@[a] != 0 implies exists|i: int|
                    1 <= i < names@.len() && (#[trigger] names@[i]).0.0 == fin@[a] by {
                if a < k {
                    let i = choose|i: int| 1 <= i < old_n.len() && (#[trigger] old_n[i]).0.0 == fin@[a];
                    assert(names@[i] == old_n[i]);
                } else {
                    assert(names@[old_n.len() as int].0.0 == fin@[a]);
                }
            }
        }
    }
}

/// Reports the user names of the net of the node at position `k` when that node
/// is the least node of a connected net that carries several of them.
fn add_conflict(
    first: &Vec<usize>,
    flags: &Vec<bool>,
    fin: &Vec<usize>,
    k: usize,
    user_names: Vec<String>,
    conflicts: &mut Vec<NetNameConflict>,
    Ghost(t): Ghost<Topology>,
    Ghost(p): Ghost<Seq<String>>,
)
    requires
        k < first@.len(),
        p.len() == first@.len(),
        flags@.len() == first@.len(),
        fin@.len() == first@.len(),
        first@[k as int] == k && flags@[k as int] ==> (many_users(t, p[k as int]@) <==> user_names@.len() >= 2),
        first@[k as int] == k && flags@[k as int] && user_names@.len() >= 2 ==> reported(
            t,
            p[k as int]@,
            fin@[k as int] as int,
            views(user_names@),
        ) && is_conflict(t, fin@[k as int] as int, views(user_names@)),
        conflicts_ok(t, p, first@, flags@, fin@, old(conflicts)@, k as int),
    ensures
        conflicts_ok(t, p, first@, flags@, fin@, final(conflicts)@, k + 1),
{
    proof {
        reveal(conflicts_ok);
    }
    if first[k] == k && flags[k] && user_names.len() >= 2 {
        let ghost old_c = conflicts@;
        let ghost u = views(user_names@);
        conflicts.push(NetNameConflict { net: NetId(fin[k]), names: user_names });
        proof {
            assert(views(conflicts@[old_c.len() as int].names@) == u);
            assert forall|i: int| 0 <= i < conflicts@.len() implies is_conflict(t, (#[trigger] conflicts@[i]).net.0 as int, views(conflicts@[i].names@)) by {
                if i < old_c.len() {
                    assert(conflicts@[i] == old_c[i]);
                }
            }
            assert forall|a: int|
                #![trigger p[a]]
                0 <= a < k + 1 && first@[a] == a && flags@[a] && many_users(t, p[a]@) implies exists|i: int|
                    0 <= i < conflicts@.len() && reported(t, p[a]@, (#[trigger] conflicts@[i]).net.0 as int, views(conflicts@[i].names@)) by {
                if a < k {
                    let i = choose|i: int|
                        0 <= i < old_c.len() && reported(t, p[a]@, (#[trigger] old_c[i]).net.0 as int, views(old_c[i].names@));
                    assert(conflicts@[i] == old_c[i]);
                } else {
                    assert(reported(t, p[a]@, conflicts@[old_c.len() as int].net.0 as int, views(conflicts@[old_c.len() as int].names@)));
                }
            }
        }
    }
}

/// Names every net and reports every net with several user names.
fn name_nets(
    t: &Topology,
    p: &Vec<String>,
    labels: &Vec<usize>,
    first: &Vec<usize>,
    flags: &Vec<bool>,
    fin: &Vec<usize>,
    raw: &Vec<usize>,
) -> (r: (Vec<(NetId, String)>, Vec<NetNameConflict>))
    requires
        positions_ok(*t, p@, labels@, first@, flags@, fin@, raw@),
    ensures
        names_ok(*t, first@, flags@, fin@, r.0@, p@.len() as int),
        conflicts_ok(*t, p@, first@, flags@, fin@, r.1@, p@.len() as int),
{
    let n = p.len();
    let mut names: Vec<(NetId, String)> = Vec::new();
    names.push((NetId(0), owned("0")));
    let mut conflicts: Vec<NetNameConflict> = Vec::new();
    proof {
        reveal(names_ok);
        reveal(conflicts_ok);
    }
    let mut k: usize = 0;
    while k < n
        invariant
            positions_ok(*t, p@, labels@, first@, flags@, fin@, raw@),
            n == p.len(),
            k <= n,
            names_ok(*t, first@, flags@, fin@, names@, k as int),
            conflicts_ok(*t, p@, first@, flags@, fin@, conflicts@, k as int),
        decreases n - k,
    {
        let user_names = class_user_list(t, p, labels, k);
        proof {
            assert(views(p@) == node_order(*t));
            lemma_leader_facts(*t, p@, labels@, first@, flags@, fin@, raw@, k as int, views(user_names@));
            assert(views(user_names@).len() == user_names@.len());
            if user_names@.len() > 0 {
                assert(views(user_names@)[0] == user_names@[0]@);
            }
        }
        add_name(first, flags, fin, k, &p[k], &user_names, &mut names, Ghost(*t));
        add_conflict(first, flags, fin, k, user_names, &mut conflicts, Ghost(*t), Ghost(p@));
        k = k + 1;
    }
    (names, conflicts)
}

/// Every connected non-ground net is named and every net with several user
/// names is reported.
proof fn lemma_names_complete(
    t: Topology,
    p: Seq<String>,
    labels: Seq<usize>,
    first: Seq<usize>,
    flags: Seq<bool>,
    fin: Seq<usize>,
    raw: Seq<usize>,
    names: Seq<(NetId, String)>,
    c: Seq<NetNameConflict>,
)
    requires
        positions_ok(t, p, labels, first, flags, fin, raw),
        names_ok(t, first, flags, fin, names, p.len() as int),
        conflicts_ok(t, p, first, flags, fin, c, p.len() as int),
    ensures
        names.len() >= 1,
        names[0].0.0 == 0 && names[0].1@ == "0"@,
        forall|i: int| 1 <= i < names.len() ==> is_net_name(t, (#[trigger] names[i]).0.0 as int, names[i].1@),
        forall|a: Seq<char>|
            shared(t, a) && net_of(t, a) != 0 ==> exists|i: int|
                1 <= i < names.len() && (#[trigger] names[i]).0.0 == net_of(t, a),
        forall|i: int, j: int| 0 <= i < j < names.len() ==> (#[trigger] names[i]).0 != (#[trigger] names[j]).0,
        forall|i: int| 0 <= i < c.len() ==> is_conflict(t, (#[trigger] c[i]).net.0 as int, views(c[i].names@)),
        forall|a: Seq<char>|
            shared(t, a) && users(t, a).len() >= 2 ==> exists|i: int|
                0 <= i < c.len() && (#[trigger] c[i]).net.0 == net_of(t, a) && views(c[i].names@) == users(t, a),
{
    reveal(names_ok);
    reveal(conflicts_ok);
    assert forall|a: Seq<char>| shared(t, a) && net_of(t, a) != 0 implies exists|i: int|
        1 <= i < names.len() && (#[trigger] names[i]).0.0 == net_of(t, a) by {
        let f = lemma_net_leader(t, p, labels, first, flags, fin, raw, a);
        assert(fin[f] != 0);
    }
    assert forall|a: Seq<char>| shared(t, a) && users(t, a).len() >= 2 implies exists|i: int|
        0 <= i < c.len() && (#[trigger] c[i]).net.0 == net_of(t, a) && views(c[i].names@) == users(t, a) by {
        let f = lemma_net_leader(t, p, labels, first, flags, fin, raw, a);
        assert(many_users(t, p[f]@)) by {
            reveal(many_users);
        }
        let i = choose|i: int| 0 <= i < c.len() && reported(t, p[f]@, (#[trigger] c[i]).net.0 as int, views(c[i].names@));
        assert(c[i].net.0 == net_of(t, a) && views(c[i].names@) == users(t, a)) by {
            reveal(reported);
        }
    }
    assert forall|i: int, j: int| 0 <= i < j < names.len() implies (#[trigger] names[i]).0 != (#[trigger] names[j]).0 by {
        if i == 0 {
            assert(1 <= names[j].0.0);
        }
    }
}

/// A connected node shares its net, its user names and its conflicts with the
/// least node of its net, which is itself connected.
proof fn lemma_net_leader(
    t: Topology,
    p: Seq<String>,
    labels: Seq<usize>,
    first: Seq<usize>,
    flags: Seq<bool>,
    fin: Seq<usize>,
    raw: Seq<usize>,
    a: Seq<char>,
) -> (f: int)
    requires
        positions_ok(t, p, labels, first, flags, fin, raw),
        shared(t, a),
    ensures
        0 <= f < p.len(),
        first[f] == f,
        flags[f],
        fin[f] == net_of(t, a),
        users(t, p[f]@) == users(t, a),
{
    let k = lemma_pin_position(t, p, labels, a);
    let f = first[k] as int;
    assert(labels[f] == labels[k]);
    assert(joined(t, p[f]@, p[k]@));
    lemma_joined_sym(t, p[f]@, p[k]@);
    lemma_class_users_same(t, node_order(t), a, p[f]@, node_order(t).len() as int);
    lemma_same_class_net(t, p, labels, first, k, f);
    if f != k {
        lemma_shared(t, p, labels, f);
        assert(labels[k] == labels[f]);
    }
    let ff = first[f] as int;
    assert(labels[ff] == labels[f]);
    if ff < f {
        assert(labels[ff] != labels[k]);
    }
    f
}

/// Joined nodes have the same net number.
proof fn lemma_same_class_net(t: Topology, p: Seq<String>, labels: Seq<usize>, first: Seq<usize>, k: int, f: int)
    requires
        classes_ok(t, p, labels),
        firsts_ok(labels, first),
        0 <= k < p.len(),
        0 <= f < p.len(),
        labels[k] == labels[f],
    ensures
        net_of(t, p[k]@) == net_of(t, p[f]@),
{
    lemma_class_first(t, p, labels, first, k);
    lemma_class_first(t, p, labels, first, f);
    let fk = first[k] as int;
    let ff = first[f] as int;
    if fk < ff {
        assert(labels[fk] == labels[f]);
    }
    if ff < fk {
        assert(labels[ff] == labels[k]);
    }
    match ground_pin(t) {
        Some(gp) => {
            if joined(t, p[k]@, gp) {
                assert(joined(t, p[f]@, p[k]@));
                lemma_joined_trans(t, p[f]@, p[k]@, gp);
            }
            if joined(t, p[f]@, gp) {
                assert(joined(t, p[k]@, p[f]@));
                lemma_joined_trans(t, p[k]@, p[f]@, gp);
            }
        },
        None => {},
    }
}

impl NetlistGraph {
    /// Joins pins into nets, numbers the nets, selects ground and names every net.
    pub fn build(t: &Topology) -> (g: NetlistGraph)
        ensures
            graph_spec(*t, g),
    {
        let (p, labels) = node_classes(t);
        let (first, flags, raw) = raw_nets(t, &p, &labels);
        let (cands, explicit) = ground_select(t, &p, &labels, &flags);
        proof {
            lemma_ground_pin(*t, p@, labels@, cands@);
        }
        let fin = final_nets(t, &p, &labels, &raw, &cands);
        let ground_candidates = candidate_names(t, &p, &labels, &cands);
        let pin_to_net = connected_nets(t, &p, &labels, &flags, &fin);
        let (net_names, conflicts) = name_nets(t, &p, &labels, &first, &flags, &fin, &raw);
        let g = NetlistGraph {
            pin_to_net,
            net_names,
            ground_candidates,
            ground_is_explicit: explicit,
            net_name_conflicts: conflicts,
        };
        proof {
            lemma_names_complete(*t, p@, labels@, first@, flags@, fin@, raw@, g.net_names@, g.net_name_conflicts@);
        }
        g
    }
}



/// The first entry of `m` for graph node `key`.
pub open spec fn first_net_entry(m: Seq<(String, NetId)>, key: Seq<char>, i: int) -> bool {
    0 <= i < m.len() && m[i].0@ == key && forall|j: int| 0 <= j < i ==> (#[trigger] m[j]).0@ != key
}

/// The net recorded for a graph node, if the node is connected.
pub open spec fn net_lookup(m: Seq<(String, NetId)>, key: Seq<char>) -> Option<NetId> {
    if exists|i: int| 0 <= i < m.len() && (#[trigger] m[i]).0@ == key {
        Some(m[choose|i: int| first_net_entry(m, key, i)].1)
    } else {
        None
    }
}

/// The first entry of `m` for net `id`.
pub open spec fn first_name_entry(m: Seq<(NetId, String)>, id: NetId, i: int) -> bool {
    0 <= i < m.len() && m[i].0 == id && forall|j: int| 0 <= j < i ==> (#[trigger] m[j]).0 != id
}

/// The name recorded for a net, if any.
pub open spec fn name_lookup(m: Seq<(NetId, String)>, id: NetId) -> Option<Seq<char>> {
    if exists|i: int| 0 <= i < m.len() && (#[trigger] m[i]).0 == id {
        Some(m[choose|i: int| first_name_entry(m, id, i)].1@)
    } else {
        None
    }
}

proof fn lemma_lookup_first(nn: Seq<(NetId, String)>, id: NetId, j: int)
    requires
        0 <= j < nn.len(),
        nn[j].0 == id,
    ensures
        exists|f: int| first_name_entry(nn, id, f),
        name_lookup(nn, id) == Some(nn[choose|f: int| first_name_entry(nn, id, f)].1@),
    decreases j,
{
    if exists|k: int| 0 <= k < j && (#[trigger] nn[k]).0 == id {
        let k = choose|k: int| 0 <= k < j && (#[trigger] nn[k]).0 == id;
        lemma_lookup_first(nn, id, k);
    } else {
        assert(first_name_entry(nn, id, j));
    }
}

pub proof fn lemma_lookup_name(t: Topology, nn: Seq<(NetId, String)>, id: NetId, a: Seq<char>)
    requires
        order_ok(t),
        shared(t, a),
        id.0 == net_of(t, a),
        nn.len() >= 1,
        nn[0].0.0 == 0 && nn[0].1@ == "0"@,
        forall|i: int| 1 <= i < nn.len() ==> is_net_name(t, (#[trigger] nn[i]).0.0 as int, nn[i].1@),
        forall|b: Seq<char>|
            shared(t, b) && net_of(t, b) != 0 ==> exists|i: int| 1 <= i < nn.len() && (#[trigger] nn[i]).0.0 == net_of(t, b),
    ensures
        name_lookup(nn, id) == Some(
            if net_of(t, a) == 0 {
                "0"@
            } else {
                net_name_spec(t, a)
            },
        ),
{
    if id.0 == 0 {
        assert(nn[0].0 == id);
        lemma_lookup_first(nn, id, 0);
        let f = choose|f: int| first_name_entry(nn, id, f);
        if f > 0 {
            assert(nn[0].0 != id);
        }
    } else {
        let j = choose|j: int| 1 <= j < nn.len() && (#[trigger] nn[j]).0.0 == net_of(t, a);
        assert(nn[j].0 == id);
        lemma_lookup_first(nn, id, j);
        let f = choose|f: int| first_name_entry(nn, id, f);
        assert(nn[f].0 == id);
        assert(f != 0);
        assert(is_net_name(t, nn[f].0.0 as int, nn[f].1@));
        lemma_net_name_of_node(t, a, nn[f].1@);
    }
}

/// What the net summary reads of a built graph: the node order, which
/// nodes carry nets and with what number, and the net-name table (kept
/// opaque for proof performance).
#[verifier::opaque]
pub open spec fn naming_facts(t: Topology, g: NetlistGraph) -> bool {
    &&& order_ok(t)
    &&& forall|x: Seq<char>| keys(g.pin_to_net@).contains(x) <==> shared(t, x)
    &&& forall|k: int|
        #![trigger g.pin_to_net@[k]]
        0 <= k < g.pin_to_net@.len() ==> g.pin_to_net@[k].1.0 == net_of(t, g.pin_to_net@[k].0@)
    &&& g.net_names@.len() >= 1
    &&& g.net_names@[0].0.0 == 0 && g.net_names@[0].1@ == "0"@
    &&& forall|j: int|
        1 <= j < g.net_names@.len() ==> is_net_name(t, (#[trigger] g.net_names@[j]).0.0 as int, g.net_names@[j].1@)
    &&& forall|b: Seq<char>|
        shared(t, b) && net_of(t, b) != 0 ==> exists|j: int|
            1 <= j < g.net_names@.len() && (#[trigger] g.net_names@[j]).0.0 == net_of(t, b)
}

pub proof fn lemma_naming_facts(t: Topology, g: NetlistGraph)
    requires
        graph_spec(t, g),
    ensures
        naming_facts(t, g),
{
    reveal(naming_facts);
}

impl NetlistGraph {
    /// The net of pin `pin` of component `component`, if that pin is connected.
    pub fn get_net(&self, component: &str, pin: &str) -> (r: Option<NetId>)
        ensures
            r == net_lookup(self.pin_to_net@, qualified(component@, pin@)),
    {
        let key = qualify_exec(component, pin);
        let mut i: usize = 0;
        while i < self.pin_to_net.len()
            invariant
                i <= self.pin_to_net@.len(),
                key@ == qualified(component@, pin@),
                forall|j: int| 0 <= j < i ==> (#[trigger] self.pin_to_net@[j]).0@ != key@,
            decreases self.pin_to_net.len() - i,
        {
            if crate::text::text_is(self.pin_to_net[i].0.as_str(), key.as_str()) {
                proof {
                    let m = self.pin_to_net@;
                    assert(first_net_entry(m, key@, i as int));
                    let c = choose|j: int| first_net_entry(m, key@, j);
                    if c < i {
                        assert(m[c].0@ != key@);
                    } else if c > i {
                        assert(m[i as int].0@ != key@);
                    }
                }
                return Some(self.pin_to_net[i].1);
            }
            i = i + 1;
        }
        None
    }

    /// The name of net `net_id`, or its number written out when it has no name.
    pub fn get_net_name(&self, net_id: NetId) -> (r: String)
        ensures
            r@ == match name_lookup(self.net_names@, net_id) {
                Some(name) => name,
                None => crate::text::nat_text(net_id.0 as nat),
            },
    {
        let mut i: usize = 0;
        while i < self.net_names.len()
            invariant
                i <= self.net_names@.len(),
                forall|j: int| 0 <= j < i ==> (#[trigger] self.net_names@[j]).0 != net_id,
            decreases self.net_names.len() - i,
        {
            if self.net_names[i].0.0 == net_id.0 {
                proof {
                    let m = self.net_names@;
                    assert(first_name_entry(m, net_id, i as int));
                    let c = choose|j: int| first_name_entry(m, net_id, j);
                    if c < i {
                        assert(m[c].0 != net_id);
                    } else if c > i {
                        assert(m[i as int].0 != net_id);
                    }
                }
                return self.net_names[i].1.clone();
            }
            i = i + 1;
        }
        crate::text::usize_text(net_id.0)
    }
}

/// The node order is sorted and holds exactly the graph nodes.
pub open spec fn order_ok(t: Topology) -> bool {
    sorted_names(node_order(t)) && forall|s: Seq<char>| #[trigger] node_order(t).contains(s) <==> is_pin(t, s)
}

/// `f` is the least position in `q` of a node joined with `a`.
pub open spec fn least_joined(t: Topology, q: Seq<Seq<char>>, a: Seq<char>, f: int) -> bool {
    0 <= f < q.len() && joined(t, q[f], a) && forall|j: int| 0 <= j < f ==> !joined(t, #[trigger] q[j], a)
}

proof fn lemma_least_exists(t: Topology, q: Seq<Seq<char>>, a: Seq<char>, k: int) -> (f: int)
    requires
        0 <= k < q.len(),
        joined(t, q[k], a),
    ensures
        least_joined(t, q, a, f),
    decreases k,
{
    if exists|j: int| 0 <= j < k && joined(t, #[trigger] q[j], a) {
        let j = choose|j: int| 0 <= j < k && joined(t, #[trigger] q[j], a);
        lemma_least_exists(t, q, a, j)
    } else {
        k
    }
}

proof fn lemma_class_first_least(t: Topology, a: Seq<char>)
    requires
        order_ok(t),
        is_pin(t, a),
    ensures
        least_joined(t, node_order(t), a, class_first(t, node_order(t), a)),
{
    let q = node_order(t);
    assert(q.contains(a));
    let k = choose|k: int| 0 <= k < q.len() && q[k] == a;
    lemma_joined_refl(t, a);
    let f = lemma_least_exists(t, q, a, k);
    assert(least_joined(t, q, a, f));
}

proof fn lemma_leaders_grow(t: Topology, q: Seq<Seq<char>>, f: int, m: int)
    requires
        0 <= f < m <= q.len(),
        is_leader(t, q, f),
    ensures
        leaders_before(t, q, m) >= leaders_before(t, q, f) + 1,
    decreases m - f,
{
    if m > f + 1 {
        lemma_leaders_grow(t, q, f, m - 1);
    }
}

/// Two connected nodes get one net number exactly when the connections join them.
pub proof fn lemma_same_net_iff_joined(t: Topology, a: Seq<char>, b: Seq<char>)
    requires
        order_ok(t),
        shared(t, a),
        shared(t, b),
    ensures
        net_of(t, a) == net_of(t, b) <==> joined(t, a, b),
{
    let q = node_order(t);
    lemma_class_first_least(t, a);
    lemma_class_first_least(t, b);
    let fa = class_first(t, q, a);
    let fb = class_first(t, q, b);
    if joined(t, a, b) {
        lemma_joined_sym(t, a, b);
        lemma_joined_trans(t, q[fa], a, b);
        lemma_joined_trans(t, q[fb], b, a);
        if fa < fb {
            assert(!joined(t, q[fa], b));
        }
        if fb < fa {
            assert(!joined(t, q[fb], a));
        }
        match ground_pin(t) {
            Some(g) => {
                if joined(t, a, g) {
                    lemma_joined_trans(t, b, a, g);
                }
                if joined(t, b, g) {
                    lemma_joined_trans(t, a, b, g);
                }
            },
            None => {},
        }
    } else {
        assert(fa != fb) by {
            if fa == fb {
                lemma_joined_sym(t, q[fa], a);
                lemma_joined_trans(t, a, q[fa], b);
            }
        }
        assert forall|j: int| 0 <= j < fa implies !joined(t, #[trigger] q[j], q[fa]) by {
            if joined(t, q[j], q[fa]) {
                lemma_joined_trans(t, q[j], q[fa], a);
            }
        }
        assert forall|j: int| 0 <= j < fb implies !joined(t, #[trigger] q[j], q[fb]) by {
            if joined(t, q[j], q[fb]) {
                lemma_joined_trans(t, q[j], q[fb], b);
            }
        }
        if fa < fb {
            lemma_leaders_grow(t, q, fa, fb);
        } else {
            lemma_leaders_grow(t, q, fb, fa);
        }
        match ground_pin(t) {
            Some(g) => {
                if joined(t, a, g) && joined(t, b, g) {
                    lemma_joined_sym(t, b, g);
                    lemma_joined_trans(t, a, g, b);
                }
            },
            None => {},
        }
    }
}

/// In a built graph, two connected nodes share a net number exactly when the
/// connections join them.
pub proof fn lemma_graph_nets(t: Topology, g: NetlistGraph, i: int, j: int)
    requires
        graph_spec(t, g),
        0 <= i < g.pin_to_net@.len(),
        0 <= j < g.pin_to_net@.len(),
    ensures
        g.pin_to_net@[i].1 == g.pin_to_net@[j].1 <==> joined(t, g.pin_to_net@[i].0@, g.pin_to_net@[j].0@),
{
    let k = keys(g.pin_to_net@);
    assert(k[i] == g.pin_to_net@[i].0@ && k.contains(k[i]));
    assert(k[j] == g.pin_to_net@[j].0@ && k.contains(k[j]));
    lemma_same_net_iff_joined(t, g.pin_to_net@[i].0@, g.pin_to_net@[j].0@);
}

proof fn lemma_count_leaders_grows(first: Seq<usize>, k: int, a: int)
    requires
        0 <= k < a <= first.len(),
        first[k] == k,
    ensures
        count_leaders(first, a) >= count_leaders(first, k) + 1,
    decreases a - k,
{
    if a > k + 1 {
        lemma_count_leaders_grows(first, k, a - 1);
    }
}


/// The name of the net at `component.pin`, or `NC_<component>_<pin>` where
/// the pin is on no net.
pub open spec fn pin_net_name(g: NetlistGraph, component: Seq<char>, pin: Seq<char>) -> Seq<char> {
    match net_lookup(g.pin_to_net@, qualified(component, pin)) {
        Some(net) => match name_lookup(g.net_names@, net) {
            Some(name) => name,
            None => crate::text::nat_text(net.0 as nat),
        },
        None => "NC_"@ + component + "_"@ + pin,
    }
}

/// The net names at a component's catalog pins, in catalog order.
pub fn component_net_names(graph: &NetlistGraph, component: &TopologyComponent) -> (r: Vec<String>)
    ensures
        views(r@) == pin_names(component.kind).map_values(|p: Seq<char>| pin_net_name(*graph, component.id@, p)),
{
    let d = component_definition(&component.kind);
    let ghost names = pin_names(component.kind);
    let ghost want = names.map_values(|p: Seq<char>| pin_net_name(*graph, component.id@, p));
    let mut r: Vec<String> = Vec::new();
    let mut i: usize = 0;
    while i < d.pins.len()
        invariant
            i <= d.pins.len(),
            d.pins@.map_values(|p: PinDefinition| pin_view(p)) == crate::component::catalog(component.kind).5,
            names == pin_names(component.kind),
            want == names.map_values(|p: Seq<char>| pin_net_name(*graph, component.id@, p)),
            r.len() == i,
            forall|k: int| 0 <= k < i ==> (#[trigger] r@[k])@ == want[k],
        decreases d.pins.len() - i,
    {
        let pin = d.pins[i].name;
        assert(names[i as int] == pin_view(d.pins@[i as int]).0);
        let name = match graph.get_net(component.id.as_str(), pin) {
            Some(net) => graph.get_net_name(net),
            None => {
                let mut m = owned("NC_");
                append_str(&mut m, component.id.as_str());
                append_str(&mut m, "_");
                append_str(&mut m, pin);
                m
            },
        };
        r.push(name);
        i = i + 1;
    }
    assert(views(r@) =~= want);
    r
}


/// Two graphs built from one topology agree: the same connected pins in the
/// same order, each on the same net, the same ground candidates and the same
/// ground kind, and net 0 named `0`.
#[verifier::rlimit(50)]
pub proof fn lemma_graph_determined(t: Topology, g1: NetlistGraph, g2: NetlistGraph)
    requires
        graph_spec(t, g1),
        graph_spec(t, g2),
    ensures
        keys(g1.pin_to_net@) == keys(g2.pin_to_net@),
        forall|i: int| 0 <= i < g1.pin_to_net@.len() ==> (#[trigger] g1.pin_to_net@[i]).1 == g2.pin_to_net@[i].1,
        views(g1.ground_candidates@) == views(g2.ground_candidates@),
        g1.ground_is_explicit == g2.ground_is_explicit,
        g1.net_names@[0].0 == g2.net_names@[0].0,
        g1.net_names@[0].1@ == g2.net_names@[0].1@,
{
    let c1 = views(g1.ground_candidates@);
    let c2 = views(g2.ground_candidates@);
    assert forall|x: Seq<char>| c1.contains(x) <==> c2.contains(x) by {
        assert(c1.contains(x) <==> ground_candidate(t, x));
        assert(c2.contains(x) <==> ground_candidate(t, x));
    }
    lemma_sorted_unique(c1, c2);
    let p1 = keys(g1.pin_to_net@);
    let p2 = keys(g2.pin_to_net@);
    assert forall|x: Seq<char>| p1.contains(x) <==> p2.contains(x) by {
        assert(p1.contains(x) <==> shared(t, x));
        assert(p2.contains(x) <==> shared(t, x));
    }
    lemma_sorted_unique(p1, p2);
    let k1 = keys(g1.pin_to_net@);
    let k2 = keys(g2.pin_to_net@);
    assert forall|i: int| 0 <= i < g1.pin_to_net@.len() implies (#[trigger] g1.pin_to_net@[i]).1 == g2.pin_to_net@[i].1 by {
        assert(k1[i] == g1.pin_to_net@[i].0@);
        assert(k2[i] == g2.pin_to_net@[i].0@);
        assert(g1.pin_to_net@[i].1.0 == net_of(t, g1.pin_to_net@[i].0@));
        assert(g2.pin_to_net@[i].1.0 == net_of(t, g2.pin_to_net@[i].0@));
    }
}

/// Every net of the pin map holds at least two pins.
pub proof fn lemma_nets_hold_two_pins(t: Topology, g: NetlistGraph, i: int)
    requires
        graph_spec(t, g),
        0 <= i < g.pin_to_net@.len(),
    ensures
        exists|j: int| 0 <= j < g.pin_to_net@.len() && j != i && (#[trigger] g.pin_to_net@[j]).1 == g.pin_to_net@[i].1,
{
    let k = keys(g.pin_to_net@);
    let a = g.pin_to_net@[i].0@;
    assert(k[i] == a && k.contains(a));
    assert(shared(t, a));
    let b = choose|b: Seq<char>| is_pin(t, b) && b != a && #[trigger] joined(t, a, b);
    lemma_joined_sym(t, a, b);
    assert(shared(t, b));
    assert(k.contains(b));
    let j = choose|j: int| 0 <= j < k.len() && k[j] == b;
    assert(g.pin_to_net@[j].0@ == b);
    lemma_graph_nets(t, g, i, j);
}

/// The least of ascending ground candidates is the ground pin.
proof fn lemma_first_candidate_grounds(t: Topology, c: Seq<Seq<char>>)
    requires
        sorted_names(c),
        c.len() > 0,
        forall|s: Seq<char>| c.contains(s) <==> ground_candidate(t, s),
    ensures
        ground_pin(t) == Some(c[0]),
{
    let c0 = c[0];
    assert(c.contains(c0));
    assert forall|s2: Seq<char>| ground_candidate(t, s2) implies !text_lt(s2, c0) by {
        assert(c.contains(s2));
        let j = choose|j: int| 0 <= j < c.len() && c[j] == s2;
        if j > 0 {
            assert(text_lt(c[0], c[j]));
            crate::text::lemma_text_lt_total(c0, s2);
        } else {
            crate::text::lemma_text_lt_irreflexive(c0);
        }
    }
    let p = choose|s: Seq<char>| ground_candidate(t, s) && forall|s2: Seq<char>| ground_candidate(t, s2) ==> !text_lt(s2, s);
    assert(ground_pin(t) == Some(p));
    assert(!text_lt(p, c0) && !text_lt(c0, p));
    crate::text::lemma_text_lt_total(p, c0);
}

/// Another pin of the pin map shares the net of pin `i`.
pub open spec fn has_partner(g: NetlistGraph, i: int) -> bool {
    exists|j: int| 0 <= j < g.pin_to_net@.len() && j != i && (#[trigger] g.pin_to_net@[j]).1 == g.pin_to_net@[i].1
}

/// Pins of the pin map named like the first ground candidate are on net 0.
pub open spec fn first_candidate_on_ground(g: NetlistGraph) -> bool {
    g.ground_candidates@.len() > 0 ==> forall|k: int|
        0 <= k < g.pin_to_net@.len() && (#[trigger] g.pin_to_net@[k]).0@ == g.ground_candidates@[0]@
            ==> g.pin_to_net@[k].1.0 == 0
}

proof fn lemma_all_nets_hold_two_pins(t: Topology, g: NetlistGraph)
    requires
        graph_spec(t, g),
    ensures
        forall|i: int| 0 <= i < g.pin_to_net@.len() ==> #[trigger] has_partner(g, i),
{
    assert forall|i: int| 0 <= i < g.pin_to_net@.len() implies #[trigger] has_partner(g, i) by {
        lemma_nets_hold_two_pins(t, g, i);
    }
}

proof fn lemma_first_on_ground(t: Topology, g: NetlistGraph)
    requires
        graph_spec(t, g),
    ensures
        first_candidate_on_ground(g),
{
    if g.ground_candidates@.len() > 0 {
        let c = views(g.ground_candidates@);
        lemma_first_candidate_grounds(t, c);
        lemma_joined_refl(t, c[0]);
        assert forall|k: int|
            0 <= k < g.pin_to_net@.len() && (#[trigger] g.pin_to_net@[k]).0@ == g.ground_candidates@[0]@ implies g.pin_to_net@[k].1.0
                == 0 by {
            assert(c[0] == g.ground_candidates@[0]@);
            assert(net_of(t, c[0]) == 0);
        }
    }
}

/// The net-name table of `g` holds net `id` under `name`.
pub open spec fn names_net(g: NetlistGraph, id: int, name: Seq<char>) -> bool {
    exists|i: int| 0 <= i < g.net_names@.len() && (#[trigger] g.net_names@[i]).0.0 == id && g.net_names@[i].1@ == name
}

/// Nodes that the connections join get one net name.
pub proof fn lemma_joined_same_name(t: Topology, a: Seq<char>, b: Seq<char>)
    requires
        order_ok(t),
        is_pin(t, a),
        is_pin(t, b),
        joined(t, a, b),
    ensures
        net_name_spec(t, a) == net_name_spec(t, b),
{
    let q = node_order(t);
    lemma_class_users_same(t, q, a, b, q.len() as int);
    lemma_class_first_least(t, a);
    lemma_class_first_least(t, b);
    let fa = class_first(t, q, a);
    let fb = class_first(t, q, b);
    lemma_joined_sym(t, a, b);
    lemma_joined_trans(t, q[fa], a, b);
    lemma_joined_trans(t, q[fb], b, a);
    if fa < fb {
        assert(!joined(t, q[fa], b));
    }
    if fb < fa {
        assert(!joined(t, q[fb], a));
    }
}

/// The name that the table may give the net of a connected node is that
/// node's net name.
pub proof fn lemma_net_name_of_node(t: Topology, a: Seq<char>, name: Seq<char>)
    requires
        order_ok(t),
        shared(t, a),
        is_net_name(t, net_of(t, a), name),
    ensures
        name == net_name_spec(t, a),
{
    let b = choose|b: Seq<char>| shared(t, b) && net_of(t, b) != 0 && net_of(t, a) == net_of(t, b) && name == net_name_spec(t, b);
    lemma_same_net_iff_joined(t, a, b);
    lemma_joined_same_name(t, a, b);
}

proof fn lemma_name_entry_found(t: Topology, g1: NetlistGraph, g2: NetlistGraph, i: int)
    requires
        order_ok(t),
        0 <= i < g1.net_names@.len(),
        g1.net_names@[0].0.0 == 0 && g1.net_names@[0].1@ == "0"@,
        g2.net_names@.len() >= 1,
        g2.net_names@[0].0.0 == 0 && g2.net_names@[0].1@ == "0"@,
        i >= 1 ==> is_net_name(t, g1.net_names@[i].0.0 as int, g1.net_names@[i].1@),
        forall|j: int|
            1 <= j < g2.net_names@.len() ==> is_net_name(
                t,
                (#[trigger] g2.net_names@[j]).0.0 as int,
                g2.net_names@[j].1@,
            ),
        forall|a: Seq<char>|
            shared(t, a) && net_of(t, a) != 0 ==> exists|j: int|
                1 <= j < g2.net_names@.len() && (#[trigger] g2.net_names@[j]).0.0 == net_of(t, a),
    ensures
        names_net(g2, g1.net_names@[i].0.0 as int, g1.net_names@[i].1@),
{
    if i == 0 {
        assert(g2.net_names@[0].0.0 == g1.net_names@[0].0.0 && g2.net_names@[0].1@ == g1.net_names@[0].1@);
    } else {
        let id = g1.net_names@[i].0.0 as int;
        let name = g1.net_names@[i].1@;
        assert(is_net_name(t, id, name));
        let a = choose|a: Seq<char>| shared(t, a) && net_of(t, a) != 0 && id == net_of(t, a) && name == net_name_spec(t, a);
        let j = choose|j: int| 1 <= j < g2.net_names@.len() && (#[trigger] g2.net_names@[j]).0.0 == net_of(t, a);
        assert(is_net_name(t, g2.net_names@[j].0.0 as int, g2.net_names@[j].1@));
        let b = choose|b: Seq<char>| shared(t, b) && net_of(t, b) != 0 && g2.net_names@[j].0.0 as int == net_of(t, b)
            && g2.net_names@[j].1@ == net_name_spec(t, b);
        lemma_same_net_iff_joined(t, a, b);
        lemma_joined_same_name(t, a, b);
    }
}

proof fn lemma_names_carry_over(t: Topology, g1: NetlistGraph, g2: NetlistGraph)
    requires
        order_ok(t),
        g1.net_names@.len() >= 1,
        g1.net_names@[0].0.0 == 0 && g1.net_names@[0].1@ == "0"@,
        g2.net_names@.len() >= 1,
        g2.net_names@[0].0.0 == 0 && g2.net_names@[0].1@ == "0"@,
        forall|j: int|
            1 <= j < g1.net_names@.len() ==> is_net_name(
                t,
                (#[trigger] g1.net_names@[j]).0.0 as int,
                g1.net_names@[j].1@,
            ),
        forall|j: int|
            1 <= j < g2.net_names@.len() ==> is_net_name(
                t,
                (#[trigger] g2.net_names@[j]).0.0 as int,
                g2.net_names@[j].1@,
            ),
        forall|a: Seq<char>|
            shared(t, a) && net_of(t, a) != 0 ==> exists|j: int|
                1 <= j < g2.net_names@.len() && (#[trigger] g2.net_names@[j]).0.0 == net_of(t, a),
    ensures
        forall|id: int, name: Seq<char>| #[trigger] names_net(g1, id, name) ==> names_net(g2, id, name),
{
    assert forall|id: int, name: Seq<char>| #[trigger] names_net(g1, id, name) implies names_net(g2, id, name) by {
        let i = choose|i: int| 0 <= i < g1.net_names@.len() && (#[trigger] g1.net_names@[i]).0.0 == id && g1.net_names@[i].1@ == name;
        lemma_name_entry_found(t, g1, g2, i);
    }
}

/// Two builds of one topology give the same net-name table: each net number
/// is named alike in both, and neither names a net that the other lacks.
pub proof fn lemma_net_names_determined(t: Topology, g1: NetlistGraph, g2: NetlistGraph)
    requires
        graph_spec(t, g1),
        graph_spec(t, g2),
    ensures
        forall|id: int, name: Seq<char>| #[trigger] names_net(g1, id, name) <==> names_net(g2, id, name),
{
    lemma_names_carry_over(t, g1, g2);
    lemma_names_carry_over(t, g2, g1);
}

/// What building a netlist graph promises as a whole: the ground net is
/// net 0, named `0`; every net of the pin map holds at least two pins; the
/// ground candidates come in ascending order, the first of them on ground;
/// and a second build of the same topology gives the same pin map, ground
/// candidates and net-name table.
#[verifier::rlimit(40)]
pub proof fn lemma_graph_build_law(t: Topology, g: NetlistGraph, g2: NetlistGraph)
    requires
        graph_spec(t, g),
        graph_spec(t, g2),
    ensures
        g.net_names@.len() >= 1 && g.net_names@[0].0.0 == 0 && g.net_names@[0].1@ == "0"@,
        forall|i: int| 0 <= i < g.pin_to_net@.len() ==> #[trigger] has_partner(g, i),
        sorted_names(views(g.ground_candidates@)),
        first_candidate_on_ground(g),
        keys(g.pin_to_net@) == keys(g2.pin_to_net@),
        forall|i: int| 0 <= i < g.pin_to_net@.len() ==> (#[trigger] g.pin_to_net@[i]).1 == g2.pin_to_net@[i].1,
        views(g.ground_candidates@) == views(g2.ground_candidates@),
        g.net_names@[0].1@ == g2.net_names@[0].1@,
        forall|id: int, name: Seq<char>| #[trigger] names_net(g, id, name) <==> names_net(g2, id, name),
{
    lemma_all_nets_hold_two_pins(t, g);
    lemma_first_on_ground(t, g);
    lemma_graph_determined(t, g, g2);
    lemma_net_names_determined(t, g, g2);
}
} // verus!
