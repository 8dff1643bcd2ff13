//! Automatic schematic placement: the components are stacked in columns that
//! follow the conduction paths from the supply net, and every net is wired
//! with horizontal and vertical segments.
use crate::component::{catalog, component_definition, definition_matches, pin_view, through_spec, PinSpec};
use crate::graph::{net_lookup, qualified, NetId, NetlistGraph, Topology};
use crate::ir::ComponentKind;
use crate::text::{next_char, pair_views, text_lt};
use vstd::prelude::*;

verus! {

/// Where a component sits: grid position, catalog display name and size,
/// and a quarter-turn rotation.
#[derive(Debug, Clone)]
pub struct ComponentPos {
    pub x: i32,
    pub y: i32,
    pub comp_type: String,
    pub width: i32,
    pub height: i32,
    pub rotation: i32,
}

/// A wire of a net through grid points.
#[derive(Debug, Clone)]
pub struct Wire {
    pub net_id: NetId,
    pub points: Vec<(i32, i32)>,
}

/// Each component under its identifier, in the order the circuit first
/// names it, and the wires.
#[derive(Debug, Clone)]
pub struct LayoutResult {
    pub components: Vec<(String, ComponentPos)>,
    pub wires: Vec<Wire>,
}

// ---------------------------------------------------------------------------
// Components and nets as the layout reads them.

/// A component identifier and its kind.
pub type Part = (Seq<char>, ComponentKind);

/// The position of `id` among the parts at or after `i`, or -1.
pub open spec fn find_part_from(parts: Seq<Part>, id: Seq<char>, i: int) -> int
    decreases parts.len() - i,
{
    if i < 0 || i >= parts.len() {
        -1
    } else if parts[i].0 == id {
        i
    } else {
        find_part_from(parts, id, i + 1)
    }
}

pub open spec fn find_part(parts: Seq<Part>, id: Seq<char>) -> int {
    find_part_from(parts, id, 0)
}

pub open spec fn is_part(parts: Seq<Part>, id: Seq<char>) -> bool {
    find_part(parts, id) >= 0
}

pub open spec fn kind_of(parts: Seq<Part>, id: Seq<char>) -> ComponentKind {
    parts[find_part(parts, id)].1
}

/// A component added to the parts: a repeated identifier takes the later kind.
pub open spec fn add_part(parts: Seq<Part>, c: Part) -> Seq<Part> {
    let k = find_part(parts, c.0);
    if k < 0 {
        parts.push(c)
    } else {
        parts.update(k, c)
    }
}

/// The distinct components of a circuit, in first-appearance order.
pub open spec fn parts_of(cs: Seq<Part>) -> Seq<Part>
    decreases cs.len(),
{
    if cs.len() == 0 {
        seq![]
    } else {
        add_part(parts_of(cs.drop_last()), cs.last())
    }
}

pub open spec fn topology_parts(t: Topology) -> Seq<Part> {
    parts_of(t.components@.map_values(|c: crate::graph::TopologyComponent| (c.id@, c.kind)))
}

/// A graph node `component.pin`, split at its only `.`.
pub open spec fn dot_split(k: Seq<char>) -> Option<(Seq<char>, Seq<char>)> {
    let i = next_char(k, '.', 0);
    if i >= k.len() || next_char(k, '.', i + 1) < k.len() {
        None
    } else {
        Some((k.take(i), k.skip(i + 1)))
    }
}

/// Each net with its component pins, nets in first-appearance order.
pub type NetPins = Seq<(nat, Seq<(Seq<char>, Seq<char>)>)>;

pub open spec fn find_net_from(nets: NetPins, id: nat, i: int) -> int
    decreases nets.len() - i,
{
    if i < 0 || i >= nets.len() {
        -1
    } else if nets[i].0 == id {
        i
    } else {
        find_net_from(nets, id, i + 1)
    }
}

pub open spec fn add_net_pin(nets: NetPins, id: nat, p: (Seq<char>, Seq<char>)) -> NetPins {
    let k = find_net_from(nets, id, 0);
    if k < 0 {
        nets.push((id, seq![p]))
    } else {
        nets.update(k, (id, nets[k].1.push(p)))
    }
}

/// The component pins of the graph's nodes, grouped by net.
pub open spec fn net_pins(es: Seq<(Seq<char>, nat)>) -> NetPins
    decreases es.len(),
{
    if es.len() == 0 {
        seq![]
    } else {
        match dot_split(es.last().0) {
            Some(p) => add_net_pin(net_pins(es.drop_last()), es.last().1, p),
            None => net_pins(es.drop_last()),
        }
    }
}

pub open spec fn pin_entries(g: Seq<(String, NetId)>) -> Seq<(Seq<char>, nat)> {
    g.map_values(|e: (String, NetId)| (e.0@, e.1.0 as nat))
}

/// The pins of net `id`.
pub open spec fn pins_of_net(nets: NetPins, id: nat) -> Seq<(Seq<char>, Seq<char>)> {
    let k = find_net_from(nets, id, 0);
    if k < 0 {
        seq![]
    } else {
        nets[k].1
    }
}

/// The net of a component pin.
pub open spec fn net_at(g: Seq<(String, NetId)>, c: Seq<char>, p: Seq<char>) -> Option<nat> {
    match net_lookup(g, qualified(c, p)) {
        Some(n) => Some(n.0 as nat),
        None => None,
    }
}

/// The supply net, the ground net and the supply source: taken from the
/// voltage source pins, nets in order and pins in order, the last one found
/// deciding.
pub type Rails = (Option<nat>, Option<nat>, Option<Seq<char>>);

pub open spec fn rail_pin(r: Rails, parts: Seq<Part>, net: nat, p: (Seq<char>, Seq<char>)) -> Rails {
    if is_part(parts, p.0) && kind_of(parts, p.0) == ComponentKind::VoltageSource {
        (
            if p.1 == "plus"@ { Some(net) } else { r.0 },
            if p.1 == "minus"@ { Some(net) } else { r.1 },
            Some(p.0),
        )
    } else {
        r
    }
}

pub open spec fn rails_in(r: Rails, parts: Seq<Part>, net: nat, ps: Seq<(Seq<char>, Seq<char>)>) -> Rails
    decreases ps.len(),
{
    if ps.len() == 0 {
        r
    } else {
        rail_pin(rails_in(r, parts, net, ps.drop_last()), parts, net, ps.last())
    }
}

pub open spec fn rails_of(parts: Seq<Part>, nets: NetPins) -> Rails
    decreases nets.len(),
{
    if nets.len() == 0 {
        (None, None, None)
    } else {
        rails_in(rails_of(parts, nets.drop_last()), parts, nets.last().0, nets.last().1)
    }
}


// ---------------------------------------------------------------------------
// Chains of components along conduction paths.

/// Whether a catalog pin of the kind carries a signal input.
pub open spec fn signal_pin(kind: ComponentKind, pin: Seq<char>) -> bool {
    exists|i: int| 0 <= i < catalog(kind).5.len() && catalog(kind).5[i].0 == pin && catalog(kind).5[i].3
}

/// Pin `q` belongs to another component that a conduction path can enter.
pub open spec fn feeds(parts: Seq<Part>, from: Seq<char>, q: (Seq<char>, Seq<char>)) -> bool {
    q.0 != from && is_part(parts, q.0) && !signal_pin(kind_of(parts, q.0), q.1)
}

/// Some pin of `ps` can continue a path from `from`.
pub open spec fn any_feeds(parts: Seq<Part>, from: Seq<char>, ps: Seq<(Seq<char>, Seq<char>)>) -> bool {
    exists|j: int| 0 <= j < ps.len() && feeds(parts, from, #[trigger] ps[j])
}

/// The path entering component `e.0` by pin `e.1` leaves on a net that
/// another component continues.
pub open spec fn has_through(parts: Seq<Part>, g: Seq<(String, NetId)>, nets: NetPins, e: (Seq<char>, Seq<char>)) -> bool {
    match through_spec(kind_of(parts, e.0), e.1) {
        None => false,
        Some(exit) => match net_at(g, e.0, exit) {
            None => false,
            Some(n) => any_feeds(parts, e.0, pins_of_net(nets, n)),
        },
    }
}

/// `s` with `x` placed before the first element that `gt` puts after it.
pub open spec fn stable_insert<T>(s: Seq<T>, x: T, gt: spec_fn(T, T) -> bool) -> Seq<T>
    decreases s.len(),
{
    if s.len() == 0 {
        seq![x]
    } else if gt(s[0], x) {
        seq![x] + s
    } else {
        seq![s[0]] + stable_insert(s.drop_first(), x, gt)
    }
}

/// The stable sort of `s` by the order `gt`.
pub open spec fn stable_sort<T>(s: Seq<T>, gt: spec_fn(T, T) -> bool) -> Seq<T>
    decreases s.len(),
{
    if s.len() == 0 {
        seq![]
    } else {
        stable_insert(stable_sort(s.drop_last(), gt), s.last(), gt)
    }
}

/// A supply pin with a continuing path, then by component name.
pub open spec fn supply_after(a: (Seq<char>, Seq<char>, bool), b: (Seq<char>, Seq<char>, bool)) -> bool {
    (!a.2 && b.2) || (a.2 == b.2 && text_lt(b.0, a.0))
}

/// A pin of a part not yet in a chain.
pub open spec fn open_pin(parts: Seq<Part>, used: Seq<Seq<char>>) -> spec_fn((Seq<char>, Seq<char>)) -> bool {
    |q: (Seq<char>, Seq<char>)| is_part(parts, q.0) && !used.contains(q.0)
}

/// A pin with whether a path continues through its component.
pub open spec fn with_through(parts: Seq<Part>, g: Seq<(String, NetId)>, nets: NetPins) -> spec_fn(
    (Seq<char>, Seq<char>),
) -> (Seq<char>, Seq<char>, bool) {
    |q: (Seq<char>, Seq<char>)| (q.0, q.1, has_through(parts, g, nets, q))
}

pub open spec fn supply_order() -> spec_fn((Seq<char>, Seq<char>, bool), (Seq<char>, Seq<char>, bool)) -> bool {
    |a: (Seq<char>, Seq<char>, bool), b: (Seq<char>, Seq<char>, bool)| supply_after(a, b)
}

/// The supply net's pins on components not yet placed, with whether a
/// path continues through them, in the order chains are started.
pub open spec fn supply_entries(parts: Seq<Part>, g: Seq<(String, NetId)>, nets: NetPins, vcc: nat, used: Seq<Seq<char>>) -> Seq<
    (Seq<char>, Seq<char>, bool),
> {
    stable_sort(pins_of_net(nets, vcc).filter(open_pin(parts, used)).map_values(with_through(parts, g, nets)), supply_order())
}

/// A path continues into a non-signal pin before a signal pin, then by name.
pub open spec fn candidate_before(parts: Seq<Part>, a: (Seq<char>, Seq<char>), b: (Seq<char>, Seq<char>)) -> bool {
    let sa = signal_pin(kind_of(parts, a.0), a.1);
    let sb = signal_pin(kind_of(parts, b.0), b.1);
    (!sa && sb) || (sa == sb && text_lt(a.0, b.0))
}

/// The first candidate that no later candidate strictly precedes.
pub open spec fn best_candidate(parts: Seq<Part>, cs: Seq<(Seq<char>, Seq<char>)>) -> Option<(Seq<char>, Seq<char>)>
    decreases cs.len(),
{
    if cs.len() == 0 {
        None
    } else {
        match best_candidate(parts, cs.drop_last()) {
            None => Some(cs.last()),
            Some(b) => if candidate_before(parts, cs.last(), b) {
                Some(cs.last())
            } else {
                Some(b)
            },
        }
    }
}

/// A pin where a path leaving `current` can continue.
pub open spec fn continuing(parts: Seq<Part>, current: Seq<char>, used: Seq<Seq<char>>) -> spec_fn((Seq<char>, Seq<char>)) -> bool {
    |q: (Seq<char>, Seq<char>)| q.0 != current && !used.contains(q.0) && is_part(parts, q.0)
}

/// The pins where a path leaving `current` can continue.
pub open spec fn candidates(parts: Seq<Part>, ps: Seq<(Seq<char>, Seq<char>)>, current: Seq<char>, used: Seq<Seq<char>>) -> Seq<
    (Seq<char>, Seq<char>),
> {
    ps.filter(continuing(parts, current, used))
}

/// Follows a conduction path from `current`, entered by `entry`, adding each
/// component to the chain until the path ends, reaches ground or meets a
/// placed component.
pub open spec fn walk(
    parts: Seq<Part>,
    g: Seq<(String, NetId)>,
    nets: NetPins,
    gnd: Option<nat>,
    current: Seq<char>,
    entry: Seq<char>,
    chain: Seq<(Seq<char>, Seq<char>)>,
    used: Seq<Seq<char>>,
) -> (Seq<(Seq<char>, Seq<char>)>, Seq<Seq<char>>)
    decreases parts.len() - used.len(),
{
    if used.contains(current) || used.len() >= parts.len() {
        (chain, used)
    } else {
        let used2 = used.push(current);
        let chain2 = chain.push((current, entry));
        match through_spec(kind_of(parts, current), entry) {
            None => (chain2, used2),
            Some(exit) => match net_at(g, current, exit) {
                None => (chain2, used2),
                Some(n) => if gnd == Some(n) {
                    (chain2, used2)
                } else {
                    match best_candidate(parts, candidates(parts, pins_of_net(nets, n), current, used2)) {
                        None => (chain2, used2),
                        Some(c) => walk(parts, g, nets, gnd, c.0, c.1, chain2, used2),
                    }
                },
            },
        }
    }
}

pub type Chain = Seq<(Seq<char>, Seq<char>)>;

/// Chains started from the supply entries from the `k`-th on.
pub open spec fn supply_chains(
    parts: Seq<Part>,
    g: Seq<(String, NetId)>,
    nets: NetPins,
    gnd: Option<nat>,
    es: Seq<(Seq<char>, Seq<char>, bool)>,
    k: int,
    chains: Seq<Chain>,
    used: Seq<Seq<char>>,
) -> (Seq<Chain>, Seq<Seq<char>>)
    decreases es.len() - k,
{
    if k < 0 || k >= es.len() {
        (chains, used)
    } else if used.contains(es[k].0) {
        supply_chains(parts, g, nets, gnd, es, k + 1, chains, used)
    } else {
        let w = walk(parts, g, nets, gnd, es[k].0, es[k].1, seq![], used);
        supply_chains(parts, g, nets, gnd, es, k + 1, if w.0.len() > 0 { chains.push(w.0) } else { chains }, w.1)
    }
}

pub open spec fn name_order() -> spec_fn(Seq<char>, Seq<char>) -> bool {
    |a: Seq<char>, b: Seq<char>| text_lt(b, a)
}

pub open spec fn unused_part(used: Seq<Seq<char>>) -> spec_fn(Part) -> bool {
    |p: Part| !used.contains(p.0)
}

pub open spec fn part_name() -> spec_fn(Part) -> Seq<char> {
    |p: Part| p.0
}

/// The names of the parts that no chain holds, in ascending order.
pub open spec fn unplaced(parts: Seq<Part>, used: Seq<Seq<char>>) -> Seq<Seq<char>> {
    stable_sort(parts.filter(unused_part(used)).map_values(part_name()), name_order())
}

/// The first catalog pin, from the `i`-th on, whose net is `target`.
pub open spec fn first_pin_on(g: Seq<(String, NetId)>, id: Seq<char>, pins: Seq<PinSpec>, target: Option<nat>, i: int) -> Option<
    Seq<char>,
>
    decreases pins.len() - i,
{
    if i < 0 || i >= pins.len() {
        None
    } else if net_at(g, id, pins[i].0) == target {
        Some(pins[i].0)
    } else {
        first_pin_on(g, id, pins, target, i + 1)
    }
}

/// The pin an unchained component is drawn as entered by: the first pin on
/// the supply net; else the far side of the first pin on ground; else its
/// first pin.
pub open spec fn lone_entry(parts: Seq<Part>, g: Seq<(String, NetId)>, r: Rails, id: Seq<char>) -> Seq<char> {
    let kind = kind_of(parts, id);
    let pins = catalog(kind).5;
    match first_pin_on(g, id, pins, r.0, 0) {
        Some(p) => p,
        None => match first_pin_on(g, id, pins, r.1, 0) {
            Some(p) => match through_spec(kind, p) {
                Some(x) => x,
                None => p,
            },
            None => if pins.len() > 0 {
                pins[0].0
            } else {
                ""@
            },
        },
    }
}

/// Whether the chain holds a transistor.
pub open spec fn active_chain(parts: Seq<Part>, c: Chain) -> bool {
    exists|i: int|
        0 <= i < c.len() && is_part(parts, (#[trigger] c[i]).0) && (kind_of(parts, c[i].0) is BJT || kind_of(
            parts,
            c[i].0,
        ) is MOSFET)
}

pub open spec fn lone_chain(parts: Seq<Part>, g: Seq<(String, NetId)>, r: Rails) -> spec_fn(Seq<char>) -> Chain {
    |id: Seq<char>| seq![(id, lone_entry(parts, g, r, id))]
}

pub open spec fn passive(parts: Seq<Part>) -> spec_fn(Chain) -> bool {
    |c: Chain| !active_chain(parts, c)
}

pub open spec fn active(parts: Seq<Part>) -> spec_fn(Chain) -> bool {
    |c: Chain| active_chain(parts, c)
}

/// The chains started from the supply and what they use.
pub open spec fn supply_walks(parts: Seq<Part>, g: Seq<(String, NetId)>, nets: NetPins, r: Rails) -> (Seq<Chain>, Seq<Seq<char>>) {
    let used0: Seq<Seq<char>> = match r.2 {
        Some(b) => seq![b],
        None => seq![],
    };
    match r.0 {
        Some(v) => supply_chains(parts, g, nets, r.1, supply_entries(parts, g, nets, v, used0), 0, seq![], used0),
        None => (seq![], used0),
    }
}

/// Every chain: from the supply, then one per unchained component; chains
/// without a transistor first, each group in order.
pub open spec fn all_chains(parts: Seq<Part>, g: Seq<(String, NetId)>, nets: NetPins, r: Rails) -> Seq<Chain> {
    let from_supply = supply_walks(parts, g, nets, r);
    let chains = from_supply.0 + unplaced(parts, from_supply.1).map_values(lone_chain(parts, g, r));
    chains.filter(passive(parts)) + chains.filter(active(parts))
}

// ---------------------------------------------------------------------------
// Placement.

/// A position and rotation for each part, by part position.
pub type Places = Seq<(int, int, int)>;

pub open spec fn col_spacing(n: int) -> int {
    if n <= 2 {
        7
    } else if n <= 4 {
        5
    } else {
        4
    }
}

/// Transistors sit two columns left of their chain's axis, unrotated.
pub open spec fn offset_symbol(kind: ComponentKind) -> bool {
    catalog(kind).1 == "Transistor"@ || catalog(kind).1 == "Mosfet"@
}

/// The members of a chain from the `j`-th on, three rows apart from row 2.
pub open spec fn place_chain(parts: Seq<Part>, ps: Places, c: Chain, axis: int, j: int) -> Places
    decreases c.len() - j,
{
    if j < 0 || j >= c.len() {
        ps
    } else {
        let k = find_part(parts, c[j].0);
        let y = 2 + 3 * j;
        let ps2 = if k < 0 {
            ps
        } else if offset_symbol(parts[k].1) {
            ps.update(k, (axis - 2, y, 0))
        } else {
            ps.update(k, (axis, y, if c[j].1 == "p2"@ || c[j].1 == "minus"@ { 3 } else { 1 }))
        };
        place_chain(parts, ps2, c, axis, j + 1)
    }
}

/// The chains from the `i`-th on, each on its own column.
pub open spec fn place_chains(parts: Seq<Part>, ps: Places, cs: Seq<Chain>, spacing: int, i: int) -> Places
    decreases cs.len() - i,
{
    if i < 0 || i >= cs.len() {
        ps
    } else {
        place_chains(parts, place_chain(parts, ps, cs[i], (i + 1) * spacing, 0), cs, spacing, i + 1)
    }
}

/// Positions before normalising: the supply source at (0, 3) turned a
/// quarter, the chains in columns, anything else at the origin.
pub open spec fn raw_places(parts: Seq<Part>, r: Rails, cs: Seq<Chain>) -> Places {
    let start = Seq::new(parts.len(), |i: int| (0int, 0int, 0int));
    let with_source = match r.2 {
        Some(b) => if find_part(parts, b) >= 0 {
            start.update(find_part(parts, b), (0int, 3int, 1int))
        } else {
            start
        },
        None => start,
    };
    place_chains(parts, with_source, cs, col_spacing(cs.len() as int), 0)
}

/// The box a rotated symbol covers around its position: x from, x to,
/// y from, y to.
pub open spec fn bbox(w: int, h: int, rot: int) -> (int, int, int, int) {
    if rot == 1 {
        (-h, 0, 0, w)
    } else if rot == 2 {
        (-w, 0, -h, 0)
    } else if rot == 3 {
        (0, h, -w, 0)
    } else {
        (0, w, 0, h)
    }
}

pub open spec fn part_box(parts: Seq<Part>, ps: Places, i: int) -> (int, int, int, int) {
    bbox(catalog(parts[i].1).3, catalog(parts[i].1).4, ps[i].2)
}

/// The least left edge and top edge of the parts before the `n`-th, from
/// the largest `i32`.
pub open spec fn min_corner(parts: Seq<Part>, ps: Places, n: int) -> (int, int)
    decreases n,
{
    if n <= 0 {
        (0x7fff_ffff, 0x7fff_ffff)
    } else {
        let m = min_corner(parts, ps, n - 1);
        let b = part_box(parts, ps, n - 1);
        let x = ps[n - 1].0 + b.0;
        let y = ps[n - 1].1 + b.2;
        (if x < m.0 { x } else { m.0 }, if y < m.1 { y } else { m.1 })
    }
}

/// Positions shifted so the boxes start two cells from the top-left.
pub open spec fn final_places(parts: Seq<Part>, g: Seq<(String, NetId)>) -> Places {
    let nets = net_pins(pin_entries(g));
    let r = rails_of(parts, nets);
    let ps = raw_places(parts, r, all_chains(parts, g, nets, r));
    let m = min_corner(parts, ps, parts.len() as int);
    Seq::new(ps.len(), |i: int| (ps[i].0 - (m.0 - 2), ps[i].1 - (m.1 - 2), ps[i].2))
}

// ---------------------------------------------------------------------------
// Wires.

/// The first catalog pin of that name.
pub open spec fn find_pin(pins: Seq<PinSpec>, name: Seq<char>, i: int) -> Option<PinSpec>
    decreases pins.len() - i,
{
    if i < 0 || i >= pins.len() {
        None
    } else if pins[i].0 == name {
        Some(pins[i])
    } else {
        find_pin(pins, name, i + 1)
    }
}

/// A pin offset turned with its symbol.
pub open spec fn turned(p: (int, int, int), px: int, py: int) -> (int, int) {
    if p.2 == 1 {
        (p.0 - py, p.1 + px)
    } else if p.2 == 2 {
        (p.0 - px, p.1 - py)
    } else if p.2 == 3 {
        (p.0 + py, p.1 - px)
    } else {
        (p.0 + px, p.1 + py)
    }
}

/// Grid points ordered by x, then y.
pub open spec fn point_lt(a: (int, int), b: (int, int)) -> bool {
    a.0 < b.0 || (a.0 == b.0 && a.1 < b.1)
}

/// A pin offset turned with its symbol by `r` quarter turns about the origin.
pub open spec fn offset_turned(r: int, px: int, py: int) -> (int, int) {
    turned((0, 0, r), px, py)
}

/// Turning a pin offset is a rotation of the grid, placed at the symbol:
/// every rotation moves the offset and then adds the position; rotation 0
/// keeps it; rotation 1 is a quarter turn (twice over it reverses the
/// offset) that turns from x towards y; rotations 2 and 3 are one quarter
/// turn applied two and three times; and rotation 3 undoes rotation 1.
pub proof fn lemma_turned_rotates(x: int, y: int, r: int, px: int, py: int)
    ensures
        turned((x, y, r), px, py) == (x + offset_turned(r, px, py).0, y + offset_turned(r, px, py).1),
        offset_turned(0, px, py) == (px, py),
        offset_turned(1, offset_turned(1, px, py).0, offset_turned(1, px, py).1) == (-px, -py),
        px * offset_turned(1, px, py).1 - py * offset_turned(1, px, py).0 == px * px + py * py,
        offset_turned(2, px, py) == offset_turned(1, offset_turned(1, px, py).0, offset_turned(1, px, py).1),
        offset_turned(3, px, py) == offset_turned(1, offset_turned(2, px, py).0, offset_turned(2, px, py).1),
        offset_turned(3, offset_turned(1, px, py).0, offset_turned(1, px, py).1) == (px, py),
        offset_turned(1, offset_turned(3, px, py).0, offset_turned(3, px, py).1) == (px, py),
{
    assert(px * px + py * py == px * px - py * (-py)) by (nonlinear_arith);
}

/// `s`, ascending and without repeats, with `x` added.
pub open spec fn insert_point(s: Seq<(int, int)>, x: (int, int)) -> Seq<(int, int)>
    decreases s.len(),
{
    if s.len() == 0 {
        seq![x]
    } else if s[0] == x {
        s
    } else if point_lt(x, s[0]) {
        seq![x] + s
    } else {
        seq![s[0]] + insert_point(s.drop_first(), x)
    }
}

/// The distinct grid points of a net's catalog pins, ascending.
pub open spec fn net_points(parts: Seq<Part>, ps: Places, pins: Seq<(Seq<char>, Seq<char>)>) -> Seq<(int, int)>
    decreases pins.len(),
{
    if pins.len() == 0 {
        seq![]
    } else {
        let rest = net_points(parts, ps, pins.drop_last());
        let q = pins.last();
        let k = find_part(parts, q.0);
        if k < 0 {
            rest
        } else {
            match find_pin(catalog(parts[k].1).5, q.1, 0) {
                None => rest,
                Some(pin) => insert_point(rest, turned(ps[k], pin.1, pin.2)),
            }
        }
    }
}

pub open spec fn min_x_of(s: Seq<(int, int)>) -> int
    decreases s.len(),
{
    if s.len() <= 1 {
        s[0].0
    } else if s.last().0 < min_x_of(s.drop_last()) {
        s.last().0
    } else {
        min_x_of(s.drop_last())
    }
}

pub open spec fn max_x_of(s: Seq<(int, int)>) -> int
    decreases s.len(),
{
    if s.len() <= 1 {
        s[0].0
    } else if s.last().0 > max_x_of(s.drop_last()) {
        s.last().0
    } else {
        max_x_of(s.drop_last())
    }
}

pub open spec fn min_y_of(s: Seq<(int, int)>) -> int
    decreases s.len(),
{
    if s.len() <= 1 {
        s[0].1
    } else if s.last().1 < min_y_of(s.drop_last()) {
        s.last().1
    } else {
        min_y_of(s.drop_last())
    }
}

pub open spec fn max_y_of(s: Seq<(int, int)>) -> int
    decreases s.len(),
{
    if s.len() <= 1 {
        s[0].1
    } else if s.last().1 > max_y_of(s.drop_last()) {
        s.last().1
    } else {
        max_y_of(s.drop_last())
    }
}

/// A wire as its net and points.
pub type WireView = (nat, Seq<(int, int)>);

/// Drops from a rail to the points not on it, from the `i`-th point on; a
/// supply drop runs from the rail down, a ground drop from the pin down.
pub open spec fn rail_drops(net: nat, pts: Seq<(int, int)>, rail: int, supply: bool, i: int) -> Seq<WireView>
    decreases pts.len() - i,
{
    if i < 0 || i >= pts.len() {
        seq![]
    } else {
        let p = pts[i];
        let here: Seq<WireView> = if p.1 == rail {
            seq![]
        } else if supply {
            seq![(net, seq![(p.0, rail), p])]
        } else {
            seq![(net, seq![p, (p.0, rail)])]
        };
        here + rail_drops(net, pts, rail, supply, i + 1)
    }
}

/// Links between consecutive points from the `i`-th on: straight when they
/// share a row or column, else across then down.
pub open spec fn links(net: nat, pts: Seq<(int, int)>, i: int) -> Seq<WireView>
    decreases pts.len() - i,
{
    if i < 1 || i >= pts.len() {
        seq![]
    } else {
        let a = pts[i - 1];
        let b = pts[i];
        let w: WireView = if a.0 == b.0 || a.1 == b.1 {
            (net, seq![a, b])
        } else {
            (net, seq![a, (b.0, a.1), b])
        };
        seq![w] + links(net, pts, i + 1)
    }
}

/// The wires of one net with at least two points: a rail above the supply
/// net's points, a rail below the ground net's, else a path through them.
pub open spec fn net_wires(net: nat, pts: Seq<(int, int)>, r: Rails) -> Seq<WireView> {
    if r.0 == Some(net) {
        let rail = min_y_of(pts) - 1;
        seq![(net, seq![(min_x_of(pts), rail), (max_x_of(pts), rail)])] + rail_drops(net, pts, rail, true, 0)
    } else if r.1 == Some(net) {
        let rail = max_y_of(pts) + 1;
        seq![(net, seq![(min_x_of(pts), rail), (max_x_of(pts), rail)])] + rail_drops(net, pts, rail, false, 0)
    } else {
        links(net, pts, 1)
    }
}

/// The wires of the nets from the `i`-th on that reach two or more points.
pub open spec fn wires_from(parts: Seq<Part>, ps: Places, nets: NetPins, r: Rails, i: int) -> Seq<WireView>
    decreases nets.len() - i,
{
    if i < 0 || i >= nets.len() {
        seq![]
    } else {
        let pts = net_points(parts, ps, nets[i].1);
        (if pts.len() >= 2 { net_wires(nets[i].0, pts, r) } else { seq![] }) + wires_from(parts, ps, nets, r, i + 1)
    }
}

/// The wires of the layout.
pub open spec fn final_wires(parts: Seq<Part>, g: Seq<(String, NetId)>) -> Seq<WireView> {
    let nets = net_pins(pin_entries(g));
    wires_from(parts, final_places(parts, g), nets, rails_of(parts, nets), 0)
}


// ---------------------------------------------------------------------------
// Computing the layout.

pub open spec fn part_views(v: Seq<(String, ComponentKind)>) -> Seq<Part> {
    v.map_values(|p: (String, ComponentKind)| (p.0@, p.1))
}

pub open spec fn net_views(v: Seq<(usize, Vec<(String, String)>)>) -> NetPins {
    v.map_values(|n: (usize, Vec<(String, String)>)| (n.0 as nat, pair_views(n.1@)))
}

proof fn lemma_find_part_from(parts: Seq<Part>, id: Seq<char>, i: int)
    requires
        0 <= i <= parts.len(),
        forall|j: int| 0 <= j < i ==> (#[trigger] parts[j]).0 != id,
    ensures
        find_part(parts, id) == find_part_from(parts, id, i),
    decreases i,
{
    if i > 0 {
        lemma_find_part_from(parts, id, i - 1);
    }
}

proof fn lemma_find_part_range(parts: Seq<Part>, id: Seq<char>, i: int)
    requires
        0 <= i,
    ensures
        -1 <= find_part_from(parts, id, i) < parts.len(),
        find_part_from(parts, id, i) >= 0 ==> parts[find_part_from(parts, id, i)].0 == id,
        find_part_from(parts, id, i) >= 0 ==> find_part_from(parts, id, i) >= i,
        find_part_from(parts, id, i) < 0 ==> forall|j: int| i <= j < parts.len() ==> (#[trigger] parts[j]).0 != id,
    decreases parts.len() - i,
{
    if 0 <= i < parts.len() && parts[i].0 != id {
        lemma_find_part_range(parts, id, i + 1);
    }
}

/// Position of a part by identifier.
fn part_position(parts: &Vec<(String, ComponentKind)>, id: &str) -> (r: Option<usize>)
    ensures
        match r {
            Some(k) => k < parts@.len() && find_part(part_views(parts@), id@) == k as int,
            None => find_part(part_views(parts@), id@) < 0,
        },
{
    let ghost pv = part_views(parts@);
    let mut i: usize = 0;
    while i < parts.len()
        invariant
            i <= parts.len(),
            pv == part_views(parts@),
            forall|j: int| 0 <= j < i ==> (#[trigger] pv[j]).0 != id@,
        decreases parts.len() - i,
    {
        if crate::text::text_is(parts[i].0.as_str(), id) {
            proof {
                lemma_find_part_from(pv, id@, i as int);
            }
            return Some(i);
        }
        i = i + 1;
    }
    proof {
        lemma_find_part_from(pv, id@, i as int);
    }
    None
}

/// The distinct components of the topology.
fn collect_parts(t: &Topology) -> (r: Vec<(String, ComponentKind)>)
    ensures
        part_views(r@) == topology_parts(*t),
{
    let ghost cv = t.components@.map_values(|c: crate::graph::TopologyComponent| (c.id@, c.kind));
    let mut parts: Vec<(String, ComponentKind)> = Vec::new();
    let mut k: usize = 0;
    assert(cv.take(0) =~= Seq::<Part>::empty());
    assert(part_views(parts@) =~= Seq::<Part>::empty());
    while k < t.components.len()
        invariant
            k <= t.components.len(),
            cv == t.components@.map_values(|c: crate::graph::TopologyComponent| (c.id@, c.kind)),
            part_views(parts@) == parts_of(cv.take(k as int)),
        decreases t.components.len() - k,
    {
        assert(cv.take(k + 1).drop_last() =~= cv.take(k as int));
        assert(cv.take(k + 1).last() == (t.components@[k as int].id@, t.components@[k as int].kind));
        let c = &t.components[k];
        let ghost before = part_views(parts@);
        match part_position(&parts, c.id.as_str()) {
            Some(i) => {
                parts.set(i, (crate::text::owned(c.id.as_str()), c.kind));
                assert(part_views(parts@) =~= before.update(i as int, (c.id@, c.kind)));
            },
            None => {
                parts.push((crate::text::owned(c.id.as_str()), c.kind));
                assert(part_views(parts@) =~= before.push((c.id@, c.kind)));
            },
        }
        k = k + 1;
    }
    assert(cv.take(k as int) =~= cv);
    parts
}


proof fn lemma_find_net_from(nets: NetPins, id: nat, i: int)
    requires
        0 <= i <= nets.len(),
        forall|j: int| 0 <= j < i ==> (#[trigger] nets[j]).0 != id,
    ensures
        find_net_from(nets, id, 0) == find_net_from(nets, id, i),
    decreases i,
{
    if i > 0 {
        lemma_find_net_from(nets, id, i - 1);
    }
}

fn net_position(nets: &Vec<(usize, Vec<(String, String)>)>, id: usize) -> (r: Option<usize>)
    ensures
        match r {
            Some(k) => k < nets@.len() && find_net_from(net_views(nets@), id as nat, 0) == k as int,
            None => find_net_from(net_views(nets@), id as nat, 0) < 0,
        },
{
    let ghost nv = net_views(nets@);
    let mut i: usize = 0;
    while i < nets.len()
        invariant
            i <= nets.len(),
            nv == net_views(nets@),
            forall|j: int| 0 <= j < i ==> (#[trigger] nv[j]).0 != id as nat,
        decreases nets.len() - i,
    {
        if nets[i].0 == id {
            proof {
                lemma_find_net_from(nv, id as nat, i as int);
            }
            return Some(i);
        }
        i = i + 1;
    }
    proof {
        lemma_find_net_from(nv, id as nat, i as int);
    }
    None
}

fn copy_pairs(v: &Vec<(String, String)>) -> (r: Vec<(String, String)>)
    ensures
        pair_views(r@) == pair_views(v@),
{
    let mut r: Vec<(String, String)> = Vec::new();
    let mut i: usize = 0;
    while i < v.len()
        invariant
            i <= v.len(),
            pair_views(r@) == pair_views(v@).take(i as int),
        decreases v.len() - i,
    {
        let ghost before = pair_views(r@);
        r.push((crate::text::owned(v[i].0.as_str()), crate::text::owned(v[i].1.as_str())));
        assert(pair_views(r@) =~= before.push(pair_views(v@)[i as int]));
        assert(pair_views(v@).take(i + 1) =~= pair_views(v@).take(i as int).push(pair_views(v@)[i as int]));
        i = i + 1;
    }
    assert(pair_views(v@).take(i as int) =~= pair_views(v@));
    r
}

fn split_node(k: &String) -> (r: Option<(String, String)>)
    ensures
        match dot_split(k@) {
            Some(p) => r matches Some(x) && (x.0@, x.1@) == p,
            None => r is None,
        },
{
    let cs = crate::text::chars_of(k.as_str());
    let i = crate::text::find_next(&cs, '.', 0);
    proof {
        crate::text::lemma_next_char(cs@, '.', 0);
    }
    if i >= cs.len() {
        return None;
    }
    let j = crate::text::find_next(&cs, '.', i + 1);
    if j < cs.len() {
        return None;
    }
    let a = crate::text::string_of(&cs, 0, i);
    let b = crate::text::string_of(&cs, i + 1, cs.len());
    assert(cs@.subrange(0, i as int) =~= cs@.take(i as int));
    assert(cs@.subrange(i + 1, cs@.len() as int) =~= cs@.skip(i + 1));
    Some((a, b))
}

/// The component pins of the graph's nodes, grouped by net.
fn group_nets(g: &NetlistGraph) -> (r: Vec<(usize, Vec<(String, String)>)>)
    ensures
        net_views(r@) == net_pins(pin_entries(g.pin_to_net@)),
{
    let ghost es = pin_entries(g.pin_to_net@);
    let mut nets: Vec<(usize, Vec<(String, String)>)> = Vec::new();
    let mut k: usize = 0;
    assert(es.take(0) =~= Seq::<(Seq<char>, nat)>::empty());
    assert(net_views(nets@) =~= Seq::<(nat, Seq<(Seq<char>, Seq<char>)>)>::empty());
    while k < g.pin_to_net.len()
        invariant
            k <= g.pin_to_net.len(),
            es == pin_entries(g.pin_to_net@),
            net_views(nets@) == net_pins(es.take(k as int)),
        decreases g.pin_to_net.len() - k,
    {
        assert(es.take(k + 1).drop_last() =~= es.take(k as int));
        assert(es.take(k + 1).last() == (g.pin_to_net@[k as int].0@, g.pin_to_net@[k as int].1.0 as nat));
        let id = g.pin_to_net[k].1.0;
        match split_node(&g.pin_to_net[k].0) {
            None => {},
            Some(p) => {
                let ghost pv = (p.0@, p.1@);
                let ghost before = net_views(nets@);
                match net_position(&nets, id) {
                    None => {
                        let mut ps: Vec<(String, String)> = Vec::new();
                        ps.push(p);
                        nets.push((id, ps));
                        assert(pair_views(ps@) =~= seq![pv]);
                        assert(net_views(nets@) =~= before.push((id as nat, seq![pv])));
                    },
                    Some(i) => {
                        let mut ps = copy_pairs(&nets[i].1);
                        let ghost old_ps = pair_views(ps@);
                        ps.push(p);
                        assert(pair_views(ps@) =~= old_ps.push(pv));
                        nets.set(i, (id, ps));
                        assert(net_views(nets@) =~= before.update(i as int, (id as nat, before[i as int].1.push(pv))));
                    },
                }
            },
        }
        k = k + 1;
    }
    assert(es.take(k as int) =~= es);
    nets
}


pub open spec fn rails_view(r: (Option<usize>, Option<usize>, Option<String>)) -> Rails {
    (
        match r.0 {
            Some(v) => Some(v as nat),
            None => None,
        },
        match r.1 {
            Some(v) => Some(v as nat),
            None => None,
        },
        match r.2 {
            Some(b) => Some(b@),
            None => None,
        },
    )
}

/// The supply net, ground net and supply source.
fn find_rails(parts: &Vec<(String, ComponentKind)>, nets: &Vec<(usize, Vec<(String, String)>)>) -> (r: (
    Option<usize>,
    Option<usize>,
    Option<String>,
))
    ensures
        rails_view(r) == rails_of(part_views(parts@), net_views(nets@)),
{
    let ghost pv = part_views(parts@);
    let ghost nv = net_views(nets@);
    let mut r: (Option<usize>, Option<usize>, Option<String>) = (None, None, None);
    let mut k: usize = 0;
    assert(nv.take(0) =~= Seq::<(nat, Seq<(Seq<char>, Seq<char>)>)>::empty());
    while k < nets.len()
        invariant
            k <= nets.len(),
            pv == part_views(parts@),
            nv == net_views(nets@),
            rails_view(r) == rails_of(pv, nv.take(k as int)),
        decreases nets.len() - k,
    {
        assert(nv.take(k + 1).drop_last() =~= nv.take(k as int));
        assert(nv.take(k + 1).last() == nv[k as int]);
        let ghost r0 = rails_view(r);
        let ps = &nets[k].1;
        let net = nets[k].0;
        let ghost qs = pair_views(ps@);
        assert(nv[k as int] == (net as nat, qs));
        let mut j: usize = 0;
        assert(qs.take(0) =~= Seq::<(Seq<char>, Seq<char>)>::empty());
        while j < ps.len()
            invariant
                j <= ps.len(),
                pv == part_views(parts@),
                qs == pair_views(ps@),
                rails_view(r) == rails_in(r0, pv, net as nat, qs.take(j as int)),
            decreases ps.len() - j,
        {
            assert(qs.take(j + 1).drop_last() =~= qs.take(j as int));
            assert(qs.take(j + 1).last() == (ps@[j as int].0@, ps@[j as int].1@));
            match part_position(parts, ps[j].0.as_str()) {
                Some(i) => {
                    if parts[i].1 == ComponentKind::VoltageSource {
                        let plus = crate::text::text_is(ps[j].1.as_str(), "plus");
                        let minus = crate::text::text_is(ps[j].1.as_str(), "minus");
                        let vcc = if plus { Some(net) } else { r.0 };
                        let gnd = if minus { Some(net) } else { r.1 };
                        r = (vcc, gnd, Some(crate::text::owned(ps[j].0.as_str())));
                    }
                },
                None => {},
            }
            j = j + 1;
        }
        assert(qs.take(j as int) =~= qs);
        k = k + 1;
    }
    assert(nv.take(k as int) =~= nv);
    r
}


/// Whether pin `q` of another placed-or-not part can continue a path from `from`.
fn feeds_exec(parts: &Vec<(String, ComponentKind)>, from: &String, q: &(String, String)) -> (r: bool)
    ensures
        r == feeds(part_views(parts@), from@, (q.0@, q.1@)),
{
    if crate::text::text_is(q.0.as_str(), from.as_str()) {
        return false;
    }
    match part_position(parts, q.0.as_str()) {
        None => false,
        Some(i) => !crate::component::is_signal_pin(&parts[i].1, q.1.as_str()),
    }
}

fn has_through_exec(
    parts: &Vec<(String, ComponentKind)>,
    g: &NetlistGraph,
    nets: &Vec<(usize, Vec<(String, String)>)>,
    comp: &String,
    pin: &String,
) -> (r: bool)
    requires
        is_part(part_views(parts@), comp@),
    ensures
        r == has_through(part_views(parts@), g.pin_to_net@, net_views(nets@), (comp@, pin@)),
{
    let ghost pv = part_views(parts@);
    let ghost nv = net_views(nets@);
    let k = match part_position(parts, comp.as_str()) {
        Some(k) => k,
        None => {
            return false;
        },
    };
    let exit = match crate::component::through_pin(&parts[k].1, pin.as_str()) {
        None => {
            return false;
        },
        Some(x) => x,
    };
    let n = match g.get_net(comp.as_str(), exit) {
        None => {
            return false;
        },
        Some(n) => n,
    };
    let i = match net_position(nets, n.0) {
        None => {
            assert(pins_of_net(nv, n.0 as nat) =~= Seq::<(Seq<char>, Seq<char>)>::empty());
            return false;
        },
        Some(i) => i,
    };
    let ps = &nets[i].1;
    assert(pins_of_net(nv, n.0 as nat) == pair_views(ps@));
    let ghost th = has_through(pv, g.pin_to_net@, nv, (comp@, pin@));
    assert(th == any_feeds(pv, comp@, pair_views(ps@)));
    let mut j: usize = 0;
    while j < ps.len()
        invariant
            j <= ps.len(),
            pv == part_views(parts@),
            nv == net_views(nets@),
            th == has_through(pv, g.pin_to_net@, nv, (comp@, pin@)),
            th == any_feeds(pv, comp@, pair_views(ps@)),
            forall|t: int| 0 <= t < j ==> !feeds(pv, comp@, #[trigger] pair_views(ps@)[t]),
        decreases ps.len() - j,
    {
        if feeds_exec(parts, comp, &ps[j]) {
            assert(feeds(pv, comp@, pair_views(ps@)[j as int]));
            return true;
        }
        j = j + 1;
    }
    false
}


pub open spec fn triple_views(v: Seq<(String, String, bool)>) -> Seq<(Seq<char>, Seq<char>, bool)> {
    v.map_values(|e: (String, String, bool)| (e.0@, e.1@, e.2))
}

proof fn lemma_stable_insert_at<T>(s: Seq<T>, x: T, gt: spec_fn(T, T) -> bool, j: int)
    requires
        0 <= j <= s.len(),
        forall|i: int| 0 <= i < j ==> !gt(#[trigger] s[i], x),
        j < s.len() ==> gt(s[j], x),
    ensures
        stable_insert(s, x, gt) == s.take(j).push(x) + s.skip(j),
    decreases j,
{
    if j == 0 {
        if s.len() == 0 {
            assert(s.take(0).push(x) + s.skip(0) =~= seq![x]);
        } else {
            assert(s.take(0).push(x) + s.skip(0) =~= seq![x] + s);
        }
    } else {
        let rest = s.drop_first();
        assert(!gt(s[0], x));
        assert forall|i: int| 0 <= i < j - 1 implies !gt(#[trigger] rest[i], x) by {
            assert(rest[i] == s[i + 1]);
        }
        if j < s.len() {
            assert(rest[j - 1] == s[j]);
        }
        lemma_stable_insert_at(rest, x, gt, j - 1);
        assert(seq![s[0]] + (rest.take(j - 1).push(x) + rest.skip(j - 1)) =~= s.take(j).push(x) + s.skip(j));
    }
}

proof fn lemma_filter_step<T>(s: Seq<T>, p: spec_fn(T) -> bool, k: int)
    requires
        0 <= k < s.len(),
    ensures
        s.take(k + 1).filter(p) == if p(s[k]) {
            s.take(k).filter(p).push(s[k])
        } else {
            s.take(k).filter(p)
        },
{
    reveal(Seq::filter);
    assert(s.take(k + 1).drop_last() =~= s.take(k));
    assert(s.take(k + 1).last() == s[k]);
}

pub(crate) fn contains_name(v: &Vec<String>, x: &str) -> (r: bool)
    ensures
        r == crate::ir::views(v@).contains(x@),
{
    let mut i: usize = 0;
    while i < v.len()
        invariant
            i <= v.len(),
            forall|j: int| 0 <= j < i ==> crate::ir::views(v@)[j] != x@,
        decreases v.len() - i,
    {
        if crate::text::text_is(v[i].as_str(), x) {
            assert(crate::ir::views(v@)[i as int] == x@);
            return true;
        }
        i = i + 1;
    }
    false
}

fn supply_entries_exec(
    parts: &Vec<(String, ComponentKind)>,
    g: &NetlistGraph,
    nets: &Vec<(usize, Vec<(String, String)>)>,
    vcc: usize,
    used: &Vec<String>,
) -> (r: Vec<(String, String, bool)>)
    ensures
        triple_views(r@) == supply_entries(
            part_views(parts@),
            g.pin_to_net@,
            net_views(nets@),
            vcc as nat,
            crate::ir::views(used@),
        ),
        forall|i: int| 0 <= i < r@.len() ==> is_part(part_views(parts@), (#[trigger] r@[i]).0@),
{
    let ghost pv = part_views(parts@);
    let ghost nv = net_views(nets@);
    let ghost uv = crate::ir::views(used@);
    let empty: Vec<(String, String)> = Vec::new();
    let ps: &Vec<(String, String)> = match net_position(nets, vcc) {
        Some(i) => &nets[i].1,
        None => &empty,
    };
    let ghost qs = pair_views(ps@);
    assert(qs == pins_of_net(nv, vcc as nat));
    let ghost pred = open_pin(pv, uv);
    let ghost f = with_through(pv, g.pin_to_net@, nv);
    let mut list: Vec<(String, String, bool)> = Vec::new();
    let mut j: usize = 0;
    assert(qs.take(0).filter(pred) =~= Seq::<(Seq<char>, Seq<char>)>::empty()) by {
        reveal(Seq::filter);
    }
    assert(triple_views(list@) =~= qs.take(0).filter(pred).map_values(f));
    while j < ps.len()
        invariant
            j <= ps.len(),
            pv == part_views(parts@),
            nv == net_views(nets@),
            uv == crate::ir::views(used@),
            qs == pair_views(ps@),
            pred == open_pin(pv, uv),
            f == with_through(pv, g.pin_to_net@, nv),
            triple_views(list@) == qs.take(j as int).filter(pred).map_values(f),
            forall|i: int| 0 <= i < list@.len() ==> is_part(pv, (#[trigger] list@[i]).0@),
        decreases ps.len() - j,
    {
        proof {
            lemma_filter_step(qs, pred, j as int);
        }
        let q = &ps[j];
        assert(qs[j as int] == (q.0@, q.1@));
        let keep = part_position(parts, q.0.as_str()).is_some() && !contains_name(used, q.0.as_str());
        if keep {
            let th = has_through_exec(parts, g, nets, &q.0, &q.1);
            let ghost before = triple_views(list@);
            list.push((crate::text::owned(q.0.as_str()), crate::text::owned(q.1.as_str()), th));
            assert(triple_views(list@) =~= before.push(f(qs[j as int])));
            assert(qs.take(j + 1).filter(pred).map_values(f) =~= qs.take(j as int).filter(pred).map_values(f).push(
                f(qs[j as int]),
            ));
        }
        j = j + 1;
    }
    assert(qs.take(j as int) =~= qs);
    let ghost items = qs.filter(pred).map_values(f);
    let ghost order = supply_order();
    let mut sorted: Vec<(String, String, bool)> = Vec::new();
    let mut m: usize = 0;
    assert(triple_views(sorted@) =~= stable_sort(items.take(0), order));
    while m < list.len()
        invariant
            m <= list.len(),
            items == triple_views(list@),
            order == supply_order(),
            triple_views(sorted@) == stable_sort(items.take(m as int), order),
            pv == part_views(parts@),
            forall|i: int| 0 <= i < list@.len() ==> is_part(pv, (#[trigger] list@[i]).0@),
            forall|i: int| 0 <= i < sorted@.len() ==> is_part(pv, (#[trigger] sorted@[i]).0@),
        decreases list.len() - m,
    {
        let x = &list[m];
        let ghost xv = (x.0@, x.1@, x.2);
        assert(items[m as int] == xv);
        let ghost sv = triple_views(sorted@);
        let mut p: usize = 0;
        while p < sorted.len() && !(
            (!sorted[p].2 && x.2) || (sorted[p].2 == x.2 && crate::text::text_less(x.0.as_str(), sorted[p].0.as_str()))
        )
            invariant
                p <= sorted.len(),
                sv == triple_views(sorted@),
                order == supply_order(),
                xv == (x.0@, x.1@, x.2),
                forall|i: int| 0 <= i < p ==> !order(#[trigger] sv[i], xv),
            decreases sorted.len() - p,
        {
            assert(sv[p as int] == (sorted@[p as int].0@, sorted@[p as int].1@, sorted@[p as int].2));
            p = p + 1;
        }
        proof {
            if p < sorted.len() {
                assert(sv[p as int] == (sorted@[p as int].0@, sorted@[p as int].1@, sorted@[p as int].2));
            }
            lemma_stable_insert_at(sv, xv, order, p as int);
            assert(items.take(m + 1).drop_last() =~= items.take(m as int));
            assert(items.take(m + 1).last() == xv);
        }
        let ghost before = sorted@;
        sorted.insert(p, (crate::text::owned(x.0.as_str()), crate::text::owned(x.1.as_str()), x.2));
        assert(triple_views(sorted@) =~= sv.take(p as int).push(xv) + sv.skip(p as int));
        assert forall|i: int| 0 <= i < sorted@.len() implies is_part(pv, (#[trigger] sorted@[i]).0@) by {
            if i < p {
                assert(sorted@[i] == before[i]);
            } else if i > p {
                assert(sorted@[i] == before[i - 1]);
            }
        }
        m = m + 1;
    }
    assert(items.take(m as int) =~= items);
    sorted
}


pub open spec fn opt_nat(o: Option<usize>) -> Option<nat> {
    match o {
        Some(v) => Some(v as nat),
        None => None,
    }
}

fn signal_of(parts: &Vec<(String, ComponentKind)>, q: &(String, String)) -> (r: bool)
    requires
        is_part(part_views(parts@), q.0@),
    ensures
        r == signal_pin(kind_of(part_views(parts@), q.0@), q.1@),
{
    match part_position(parts, q.0.as_str()) {
        Some(i) => crate::component::is_signal_pin(&parts[i].1, q.1.as_str()),
        None => false,
    }
}

/// The best pin to continue a path leaving `current`, among the pins of a net.
fn best_candidate_exec(
    parts: &Vec<(String, ComponentKind)>,
    ps: &Vec<(String, String)>,
    current: &String,
    used: &Vec<String>,
) -> (r: Option<(String, String)>)
    ensures
        match best_candidate(
            part_views(parts@),
            candidates(part_views(parts@), pair_views(ps@), current@, crate::ir::views(used@)),
        ) {
            Some(c) => r matches Some(x) && (x.0@, x.1@) == c && is_part(part_views(parts@), c.0),
            None => r is None,
        },
{
    let ghost pv = part_views(parts@);
    let ghost qs = pair_views(ps@);
    let ghost pred = continuing(pv, current@, crate::ir::views(used@));
    let mut best: Option<(String, String)> = None;
    let mut best_signal = false;
    let mut j: usize = 0;
    assert(qs.take(0).filter(pred) =~= Seq::<(Seq<char>, Seq<char>)>::empty()) by {
        reveal(Seq::filter);
    }
    while j < ps.len()
        invariant
            j <= ps.len(),
            pv == part_views(parts@),
            qs == pair_views(ps@),
            pred == continuing(pv, current@, crate::ir::views(used@)),
            match best_candidate(pv, qs.take(j as int).filter(pred)) {
                Some(c) => best matches Some(x) && (x.0@, x.1@) == c && is_part(pv, c.0) && best_signal == signal_pin(
                    kind_of(pv, c.0),
                    c.1,
                ),
                None => best is None,
            },
        decreases ps.len() - j,
    {
        proof {
            lemma_filter_step(qs, pred, j as int);
        }
        let q = &ps[j];
        assert(qs[j as int] == (q.0@, q.1@));
        let keep = !crate::text::text_is(q.0.as_str(), current.as_str()) && !contains_name(used, q.0.as_str())
            && part_position(parts, q.0.as_str()).is_some();
        if keep {
            let sq = signal_of(parts, q);
            let ghost prev = qs.take(j as int).filter(pred);
            assert(qs.take(j + 1).filter(pred) == prev.push(qs[j as int]));
            assert(qs.take(j + 1).filter(pred).drop_last() =~= prev);
            let replace = match &best {
                None => true,
                Some(b) => (!sq && best_signal) || (sq == best_signal && crate::text::text_less(q.0.as_str(), b.0.as_str())),
            };
            if replace {
                best = Some((crate::text::owned(q.0.as_str()), crate::text::owned(q.1.as_str())));
                best_signal = sq;
            }
        }
        j = j + 1;
    }
    assert(qs.take(j as int) =~= qs);
    best
}

/// Follows a conduction path, as `walk` describes.
fn walk_exec(
    parts: &Vec<(String, ComponentKind)>,
    g: &NetlistGraph,
    nets: &Vec<(usize, Vec<(String, String)>)>,
    gnd: Option<usize>,
    current: &String,
    entry: &String,
    chain: &mut Vec<(String, String)>,
    used: &mut Vec<String>,
)
    requires
        is_part(part_views(parts@), current@),
    ensures
        (pair_views(final(chain)@), crate::ir::views(final(used)@)) == walk(
            part_views(parts@),
            g.pin_to_net@,
            net_views(nets@),
            opt_nat(gnd),
            current@,
            entry@,
            pair_views(old(chain)@),
            crate::ir::views(old(used)@),
        ),
    decreases parts@.len() - old(used)@.len(),
{
    let ghost pv = part_views(parts@);
    let ghost nv = net_views(nets@);
    if contains_name(used, current.as_str()) || used.len() >= parts.len() {
        return;
    }
    let ghost c0 = pair_views(chain@);
    let ghost u0 = crate::ir::views(used@);
    used.push(crate::text::owned(current.as_str()));
    chain.push((crate::text::owned(current.as_str()), crate::text::owned(entry.as_str())));
    assert(crate::ir::views(used@) =~= u0.push(current@));
    assert(pair_views(chain@) =~= c0.push((current@, entry@)));
    let k = match part_position(parts, current.as_str()) {
        Some(k) => k,
        None => {
            return;
        },
    };
    let exit = match crate::component::through_pin(&parts[k].1, entry.as_str()) {
        None => {
            return;
        },
        Some(x) => x,
    };
    let n = match g.get_net(current.as_str(), exit) {
        None => {
            return;
        },
        Some(n) => n,
    };
    if gnd == Some(n.0) {
        return;
    }
    let empty: Vec<(String, String)> = Vec::new();
    let ps: &Vec<(String, String)> = match net_position(nets, n.0) {
        Some(i) => &nets[i].1,
        None => &empty,
    };
    assert(pair_views(ps@) == pins_of_net(nv, n.0 as nat));
    match best_candidate_exec(parts, ps, current, used) {
        None => {},
        Some(c) => {
            walk_exec(parts, g, nets, gnd, &c.0, &c.1, chain, used);
        },
    }
}


pub open spec fn chain_views(v: Seq<Vec<(String, String)>>) -> Seq<Chain> {
    v.map_values(|c: Vec<(String, String)>| pair_views(c@))
}

/// Chains from the supply entries, as `supply_chains` describes.
fn supply_chains_exec(
    parts: &Vec<(String, ComponentKind)>,
    g: &NetlistGraph,
    nets: &Vec<(usize, Vec<(String, String)>)>,
    gnd: Option<usize>,
    es: &Vec<(String, String, bool)>,
    chains: &mut Vec<Vec<(String, String)>>,
    used: &mut Vec<String>,
)
    requires
        forall|i: int| 0 <= i < es@.len() ==> is_part(part_views(parts@), (#[trigger] es@[i]).0@),
    ensures
        (chain_views(final(chains)@), crate::ir::views(final(used)@)) == supply_chains(
            part_views(parts@),
            g.pin_to_net@,
            net_views(nets@),
            opt_nat(gnd),
            triple_views(es@),
            0,
            chain_views(old(chains)@),
            crate::ir::views(old(used)@),
        ),
{
    let ghost pv = part_views(parts@);
    let ghost nv = net_views(nets@);
    let ghost ev = triple_views(es@);
    let ghost target = supply_chains(pv, g.pin_to_net@, nv, opt_nat(gnd), ev, 0, chain_views(chains@), crate::ir::views(used@));
    let mut k: usize = 0;
    while k < es.len()
        invariant
            k <= es.len(),
            pv == part_views(parts@),
            nv == net_views(nets@),
            ev == triple_views(es@),
            forall|i: int| 0 <= i < es@.len() ==> is_part(pv, (#[trigger] es@[i]).0@),
            supply_chains(pv, g.pin_to_net@, nv, opt_nat(gnd), ev, k as int, chain_views(chains@), crate::ir::views(used@))
                == target,
        decreases es.len() - k,
    {
        assert(ev[k as int] == (es@[k as int].0@, es@[k as int].1@, es@[k as int].2));
        if !contains_name(used, es[k].0.as_str()) {
            let mut chain: Vec<(String, String)> = Vec::new();
            assert(pair_views(chain@) =~= Seq::<(Seq<char>, Seq<char>)>::empty());
            walk_exec(parts, g, nets, gnd, &es[k].0, &es[k].1, &mut chain, used);
            if chain.len() > 0 {
                let ghost before = chain_views(chains@);
                chains.push(chain);
                assert(chain_views(chains@) =~= before.push(pair_views(chain@)));
            }
        }
        k = k + 1;
    }
}

fn unplaced_exec(parts: &Vec<(String, ComponentKind)>, used: &Vec<String>) -> (r: Vec<String>)
    ensures
        crate::ir::views(r@) == unplaced(part_views(parts@), crate::ir::views(used@)),
        forall|i: int| 0 <= i < r@.len() ==> is_part(part_views(parts@), (#[trigger] r@[i])@),
{
    let ghost pv = part_views(parts@);
    let ghost pred = unused_part(crate::ir::views(used@));
    let mut names: Vec<String> = Vec::new();
    let mut j: usize = 0;
    assert(pv.take(0).filter(pred) =~= Seq::<Part>::empty()) by {
        reveal(Seq::filter);
    }
    assert(crate::ir::views(names@) =~= pv.take(0).filter(pred).map_values(part_name()));
    while j < parts.len()
        invariant
            j <= parts.len(),
            pv == part_views(parts@),
            pred == unused_part(crate::ir::views(used@)),
            crate::ir::views(names@) == pv.take(j as int).filter(pred).map_values(part_name()),
            forall|i: int| 0 <= i < names@.len() ==> is_part(pv, (#[trigger] names@[i])@),
        decreases parts.len() - j,
    {
        proof {
            lemma_filter_step(pv, pred, j as int);
        }
        assert(pv[j as int] == (parts@[j as int].0@, parts@[j as int].1));
        if !contains_name(used, parts[j].0.as_str()) {
            let ghost before = crate::ir::views(names@);
            proof {
                lemma_find_part_range(pv, pv[j as int].0, 0);
                if find_part(pv, pv[j as int].0) < 0 {
                    assert(pv[j as int].0 != pv[j as int].0);
                }
            }
            names.push(crate::text::owned(parts[j].0.as_str()));
            assert(crate::ir::views(names@) =~= before.push(parts@[j as int].0@));
            assert(pv.take(j + 1).filter(pred).map_values(part_name()) =~= pv.take(j as int).filter(pred).map_values(
                part_name(),
            ).push(parts@[j as int].0@));
        }
        j = j + 1;
    }
    assert(pv.take(j as int) =~= pv);
    let ghost items = crate::ir::views(names@);
    let ghost order = name_order();
    let mut sorted: Vec<String> = Vec::new();
    let mut m: usize = 0;
    assert(crate::ir::views(sorted@) =~= stable_sort(items.take(0), order));
    while m < names.len()
        invariant
            m <= names.len(),
            items == crate::ir::views(names@),
            order == name_order(),
            crate::ir::views(sorted@) == stable_sort(items.take(m as int), order),
            pv == part_views(parts@),
            forall|i: int| 0 <= i < names@.len() ==> is_part(pv, (#[trigger] names@[i])@),
            forall|i: int| 0 <= i < sorted@.len() ==> is_part(pv, (#[trigger] sorted@[i])@),
        decreases names.len() - m,
    {
        let x = &names[m];
        let ghost sv = crate::ir::views(sorted@);
        let mut p: usize = 0;
        while p < sorted.len() && !crate::text::text_less(x.as_str(), sorted[p].as_str())
            invariant
                p <= sorted.len(),
                sv == crate::ir::views(sorted@),
                order == name_order(),
                forall|i: int| 0 <= i < p ==> !order(#[trigger] sv[i], x@),
            decreases sorted.len() - p,
        {
            p = p + 1;
        }
        proof {
            lemma_stable_insert_at(sv, x@, order, p as int);
            assert(items.take(m + 1).drop_last() =~= items.take(m as int));
            assert(items.take(m + 1).last() == x@);
        }
        let ghost before = sorted@;
        sorted.insert(p, crate::text::owned(x.as_str()));
        assert(crate::ir::views(sorted@) =~= sv.take(p as int).push(x@) + sv.skip(p as int));
        assert forall|i: int| 0 <= i < sorted@.len() implies is_part(pv, (#[trigger] sorted@[i])@) by {
            if i < p {
                assert(sorted@[i] == before[i]);
            } else if i > p {
                assert(sorted@[i] == before[i - 1]);
            }
        }
        m = m + 1;
    }
    assert(items.take(m as int) =~= items);
    sorted
}

/// The first catalog pin of `kind` on net `target`.
fn first_pin_on_exec(g: &NetlistGraph, id: &String, kind: &ComponentKind, target: Option<usize>) -> (r: Option<&'static str>)
    ensures
        match first_pin_on(g.pin_to_net@, id@, catalog(*kind).5, opt_nat(target), 0) {
            Some(p) => r matches Some(x) && x@ == p,
            None => r is None,
        },
{
    let d = component_definition(kind);
    let ghost pins = catalog(*kind).5;
    let mut i: usize = 0;
    while i < d.pins.len()
        invariant
            i <= d.pins.len(),
            definition_matches(d, *kind),
            pins == catalog(*kind).5,
            pins.len() == d.pins@.len(),
            first_pin_on(g.pin_to_net@, id@, pins, opt_nat(target), 0) == first_pin_on(
                g.pin_to_net@,
                id@,
                pins,
                opt_nat(target),
                i as int,
            ),
        decreases d.pins.len() - i,
    {
        assert(pins[i as int] == pin_view(d.pins@[i as int]));
        let n = g.get_net(id.as_str(), d.pins[i].name);
        let hit = match (n, target) {
            (Some(a), Some(b)) => a.0 == b,
            (None, None) => true,
            _ => false,
        };
        if hit {
            return Some(d.pins[i].name);
        }
        i = i + 1;
    }
    None
}

fn lone_entry_exec(parts: &Vec<(String, ComponentKind)>, g: &NetlistGraph, r: &(Option<usize>, Option<usize>, Option<String>), id: &String) -> (e: String)
    requires
        is_part(part_views(parts@), id@),
    ensures
        e@ == lone_entry(part_views(parts@), g.pin_to_net@, rails_view(*r), id@),
{
    let k = match part_position(parts, id.as_str()) {
        Some(k) => k,
        None => {
            return String::new();
        },
    };
    let kind = parts[k].1;
    assert(rails_view(*r).0 == opt_nat(r.0));
    assert(rails_view(*r).1 == opt_nat(r.1));
    assert(kind_of(part_views(parts@), id@) == kind);
    let ghost pins = catalog(kind).5;
    let ghost want = lone_entry(part_views(parts@), g.pin_to_net@, rails_view(*r), id@);
    match first_pin_on_exec(g, id, &kind, r.0) {
        Some(p) => {
            assert(first_pin_on(g.pin_to_net@, id@, pins, rails_view(*r).0, 0) == Some(p@));
            assert(want == p@);
            crate::text::owned(p)
        },
        None => match first_pin_on_exec(g, id, &kind, r.1) {
            Some(p) => {
                assert(first_pin_on(g.pin_to_net@, id@, pins, rails_view(*r).0, 0) is None);
                assert(first_pin_on(g.pin_to_net@, id@, pins, rails_view(*r).1, 0) == Some(p@));
                match crate::component::through_pin(&kind, p) {
                    Some(x) => crate::text::owned(x),
                    None => crate::text::owned(p),
                }
            },
            None => {
                let d = component_definition(&kind);
                assert(d.pins@.map_values(|p: crate::component::PinDefinition| pin_view(p)).len() == d.pins@.len());
                assert(catalog(kind).5.len() == d.pins@.len());
                if d.pins.len() > 0 {
                    assert(catalog(kind).5[0] == pin_view(d.pins@[0]));
                    crate::text::owned(d.pins[0].name)
                } else {
                    proof {
                        reveal_strlit("");
                    }
                    String::new()
                }
            },
        },
    }
}


fn active_chain_exec(parts: &Vec<(String, ComponentKind)>, c: &Vec<(String, String)>) -> (r: bool)
    ensures
        r == active_chain(part_views(parts@), pair_views(c@)),
{
    let ghost pv = part_views(parts@);
    let ghost cv = pair_views(c@);
    let mut i: usize = 0;
    while i < c.len()
        invariant
            i <= c.len(),
            pv == part_views(parts@),
            cv == pair_views(c@),
            forall|t: int| 0 <= t < i ==> !(is_part(pv, (#[trigger] cv[t]).0) && (kind_of(pv, cv[t].0) is BJT || kind_of(pv, cv[t].0) is MOSFET)),
        decreases c.len() - i,
    {
        assert(cv[i as int] == (c@[i as int].0@, c@[i as int].1@));
        match part_position(parts, c[i].0.as_str()) {
            Some(k) => {
                let hit = match parts[k].1 {
                    ComponentKind::BJT(_) => true,
                    ComponentKind::MOSFET(_) => true,
                    _ => false,
                };
                if hit {
                    return true;
                }
            },
            None => {},
        }
        i = i + 1;
    }
    false
}

fn copy_chain(c: &Vec<(String, String)>) -> (r: Vec<(String, String)>)
    ensures
        pair_views(r@) == pair_views(c@),
{
    copy_pairs(c)
}

/// Every chain, as `all_chains` describes.
fn all_chains_exec(
    parts: &Vec<(String, ComponentKind)>,
    g: &NetlistGraph,
    nets: &Vec<(usize, Vec<(String, String)>)>,
    r: &(Option<usize>, Option<usize>, Option<String>),
) -> (cs: Vec<Vec<(String, String)>>)
    ensures
        chain_views(cs@) == all_chains(part_views(parts@), g.pin_to_net@, net_views(nets@), rails_view(*r)),
{
    let ghost pv = part_views(parts@);
    let ghost nv = net_views(nets@);
    let ghost rv = rails_view(*r);
    let mut used: Vec<String> = Vec::new();
    match &r.2 {
        Some(b) => used.push(crate::text::owned(b.as_str())),
        None => {},
    }
    let ghost used0 = crate::ir::views(used@);
    assert(used0 =~= match rv.2 {
        Some(b) => seq![b],
        None => Seq::<Seq<char>>::empty(),
    });
    let mut chains: Vec<Vec<(String, String)>> = Vec::new();
    assert(chain_views(chains@) =~= Seq::<Chain>::empty());
    match r.0 {
        Some(v) => {
            let es = supply_entries_exec(parts, g, nets, v, &used);
            assert(rv.1 == opt_nat(r.1));
            supply_chains_exec(parts, g, nets, r.1, &es, &mut chains, &mut used);
        },
        None => {},
    }
    let ghost from_supply = supply_walks(pv, g.pin_to_net@, nv, rv);
    assert(from_supply == (chain_views(chains@), crate::ir::views(used@)));
    let lone = unplaced_exec(parts, &used);
    let ghost lv = crate::ir::views(lone@);
    let ghost f = lone_chain(pv, g.pin_to_net@, rv);
    let ghost c0 = chain_views(chains@);
    let mut j: usize = 0;
    while j < lone.len()
        invariant
            j <= lone.len(),
            pv == part_views(parts@),
            rv == rails_view(*r),
            lv == crate::ir::views(lone@),
            f == lone_chain(pv, g.pin_to_net@, rv),
            forall|i: int| 0 <= i < lone@.len() ==> is_part(pv, (#[trigger] lone@[i])@),
            chain_views(chains@) == c0 + lv.take(j as int).map_values(f),
        decreases lone.len() - j,
    {
        let e = lone_entry_exec(parts, g, r, &lone[j]);
        let mut one: Vec<(String, String)> = Vec::new();
        one.push((crate::text::owned(lone[j].as_str()), e));
        let ghost before = chain_views(chains@);
        chains.push(one);
        assert(pair_views(one@) =~= f(lv[j as int]));
        assert(chain_views(chains@) =~= before.push(f(lv[j as int])));
        assert(lv.take(j + 1).map_values(f) =~= lv.take(j as int).map_values(f).push(f(lv[j as int])));
        j = j + 1;
    }
    assert(lv.take(j as int) =~= lv);
    let ghost all = chain_views(chains@);
    let ghost pas = passive(pv);
    let ghost act = active(pv);
    let mut first: Vec<Vec<(String, String)>> = Vec::new();
    let mut second: Vec<Vec<(String, String)>> = Vec::new();
    let mut k: usize = 0;
    assert(all.take(0).filter(pas) =~= Seq::<Chain>::empty() && all.take(0).filter(act) =~= Seq::<Chain>::empty()) by {
        reveal(Seq::filter);
    }
    assert(chain_views(first@) =~= Seq::<Chain>::empty());
    assert(chain_views(second@) =~= Seq::<Chain>::empty());
    while k < chains.len()
        invariant
            k <= chains.len(),
            pv == part_views(parts@),
            all == chain_views(chains@),
            pas == passive(pv),
            act == active(pv),
            chain_views(first@) == all.take(k as int).filter(pas),
            chain_views(second@) == all.take(k as int).filter(act),
        decreases chains.len() - k,
    {
        proof {
            lemma_filter_step(all, pas, k as int);
            lemma_filter_step(all, act, k as int);
        }
        assert(all[k as int] == pair_views(chains@[k as int]@));
        let c = copy_chain(&chains[k]);
        if active_chain_exec(parts, &chains[k]) {
            let ghost before = chain_views(second@);
            second.push(c);
            assert(chain_views(second@) =~= before.push(all[k as int]));
        } else {
            let ghost before = chain_views(first@);
            first.push(c);
            assert(chain_views(first@) =~= before.push(all[k as int]));
        }
        k = k + 1;
    }
    assert(all.take(k as int) =~= all);
    let ghost fv = chain_views(first@);
    let ghost sv = chain_views(second@);
    let mut m: usize = 0;
    while m < second.len()
        invariant
            m <= second.len(),
            sv == chain_views(second@),
            chain_views(first@) == fv + sv.take(m as int),
        decreases second.len() - m,
    {
        let ghost before = chain_views(first@);
        first.push(copy_chain(&second[m]));
        assert(chain_views(first@) =~= before.push(sv[m as int]));
        assert(sv.take(m + 1) =~= sv.take(m as int).push(sv[m as int]));
        m = m + 1;
    }
    assert(sv.take(m as int) =~= sv);
    first
}


// ---------------------------------------------------------------------------
// Sizes of the chains, which keep the grid arithmetic small.

proof fn lemma_walk_sizes(
    parts: Seq<Part>,
    g: Seq<(String, NetId)>,
    nets: NetPins,
    gnd: Option<nat>,
    current: Seq<char>,
    entry: Seq<char>,
    chain: Chain,
    used: Seq<Seq<char>>,
)
    ensures
        ({
            let w = walk(parts, g, nets, gnd, current, entry, chain, used);
            &&& w.0.len() - chain.len() == w.1.len() - used.len()
            &&& w.1.len() >= used.len()
            &&& w.1.len() <= parts.len() || w.1.len() == used.len()
        }),
    decreases parts.len() - used.len(),
{
    if used.contains(current) || used.len() >= parts.len() {
    } else {
        let used2 = used.push(current);
        let chain2 = chain.push((current, entry));
        match through_spec(kind_of(parts, current), entry) {
            None => {},
            Some(exit) => match net_at(g, current, exit) {
                None => {},
                Some(n) => if gnd != Some(n) {
                    match best_candidate(parts, candidates(parts, pins_of_net(nets, n), current, used2)) {
                        None => {},
                        Some(c) => lemma_walk_sizes(parts, g, nets, gnd, c.0, c.1, chain2, used2),
                    }
                },
            },
        }
    }
}

proof fn lemma_supply_sizes(
    parts: Seq<Part>,
    g: Seq<(String, NetId)>,
    nets: NetPins,
    gnd: Option<nat>,
    es: Seq<(Seq<char>, Seq<char>, bool)>,
    k: int,
    chains: Seq<Chain>,
    used: Seq<Seq<char>>,
)
    requires
        0 <= k,
        used.len() <= parts.len() + 1,
        forall|i: int| 0 <= i < chains.len() ==> (#[trigger] chains[i]).len() <= parts.len(),
    ensures
        ({
            let r = supply_chains(parts, g, nets, gnd, es, k, chains, used);
            &&& r.0.len() - chains.len() <= r.1.len() - used.len()
            &&& r.1.len() <= parts.len() + 1
            &&& forall|i: int| 0 <= i < r.0.len() ==> (#[trigger] r.0[i]).len() <= parts.len()
        }),
    decreases es.len() - k,
{
    if k >= es.len() {
    } else if used.contains(es[k].0) {
        lemma_supply_sizes(parts, g, nets, gnd, es, k + 1, chains, used);
    } else {
        let w = walk(parts, g, nets, gnd, es[k].0, es[k].1, seq![], used);
        lemma_walk_sizes(parts, g, nets, gnd, es[k].0, es[k].1, seq![], used);
        let c2 = if w.0.len() > 0 { chains.push(w.0) } else { chains };
        assert forall|i: int| 0 <= i < c2.len() implies (#[trigger] c2[i]).len() <= parts.len() by {
            if i < chains.len() {
                assert(c2[i] == chains[i]);
            }
        }
        lemma_supply_sizes(parts, g, nets, gnd, es, k + 1, c2, w.1);
    }
}

proof fn lemma_stable_sort_len<T>(s: Seq<T>, gt: spec_fn(T, T) -> bool)
    ensures
        stable_sort(s, gt).len() == s.len(),
    decreases s.len(),
{
    if s.len() > 0 {
        lemma_stable_sort_len(s.drop_last(), gt);
        lemma_stable_insert_len(stable_sort(s.drop_last(), gt), s.last(), gt);
    }
}

proof fn lemma_stable_insert_len<T>(s: Seq<T>, x: T, gt: spec_fn(T, T) -> bool)
    ensures
        stable_insert(s, x, gt).len() == s.len() + 1,
    decreases s.len(),
{
    if s.len() > 0 && !gt(s[0], x) {
        lemma_stable_insert_len(s.drop_first(), x, gt);
    }
}

/// Every chain holds at most as many components as the circuit, and there
/// are at most four times as many chains as components, plus two.
proof fn lemma_chain_sizes(parts: Seq<Part>, g: Seq<(String, NetId)>, nets: NetPins, r: Rails)
    ensures
        all_chains(parts, g, nets, r).len() <= 4 * parts.len() + 2,
        forall|i: int| 0 <= i < all_chains(parts, g, nets, r).len() ==> (#[trigger] all_chains(parts, g, nets, r)[i]).len()
            <= parts.len() + 1,
{
    let used0: Seq<Seq<char>> = match r.2 {
        Some(b) => seq![b],
        None => seq![],
    };
    let fs = supply_walks(parts, g, nets, r);
    match r.0 {
        Some(v) => {
            lemma_supply_sizes(parts, g, nets, r.1, supply_entries(parts, g, nets, v, used0), 0, seq![], used0);
        },
        None => {},
    }
    let un = unplaced(parts, fs.1);
    lemma_stable_sort_len(parts.filter(unused_part(fs.1)).map_values(part_name()), name_order());
    parts.lemma_filter_len(unused_part(fs.1));
    let lone = un.map_values(lone_chain(parts, g, r));
    let chains = fs.0 + lone;
    assert forall|i: int| 0 <= i < chains.len() implies (#[trigger] chains[i]).len() <= parts.len() + 1 by {
        if i >= fs.0.len() {
            assert(chains[i] == lone[i - fs.0.len()]);
        }
    }
    chains.lemma_filter_len(passive(parts));
    chains.lemma_filter_len(active(parts));
    let all = all_chains(parts, g, nets, r);
    assert forall|i: int| 0 <= i < all.len() implies (#[trigger] all[i]).len() <= parts.len() + 1 by {
        let a = chains.filter(passive(parts));
        let b = chains.filter(active(parts));
        if i < a.len() {
            assert(all[i] == a[i]);
            assert(a.contains(a[i]));
            chains.lemma_filter_contains_rev(passive(parts), a[i]);
            assert(chains.contains(a[i]));
        } else {
            assert(all[i] == b[i - a.len()]);
            assert(b.contains(b[i - a.len()]));
            chains.lemma_filter_contains_rev(active(parts), b[i - a.len()]);
            assert(chains.contains(b[i - a.len()]));
        }
    }
}


// ---------------------------------------------------------------------------
// Placing the chains.

pub open spec fn places_view(v: Seq<(i32, i32, i32)>) -> Places {
    v.map_values(|p: (i32, i32, i32)| (p.0 as int, p.1 as int, p.2 as int))
}

/// Catalog symbols are at most four cells wide and tall, with pins at most
/// one cell outside them.
proof fn lemma_catalog_small(kind: ComponentKind)
    ensures
        0 <= catalog(kind).3 <= 4,
        0 <= catalog(kind).4 <= 4,
        forall|i: int| 0 <= i < catalog(kind).5.len() ==> -4 <= (#[trigger] catalog(kind).5[i]).1 <= 4 && -4
            <= catalog(kind).5[i].2 <= 4,
{
}

/// Places whose coordinates lie within `b` of the origin.
pub open spec fn places_bounded(ps: Places, b: int) -> bool {
    forall|i: int| 0 <= i < ps.len() ==> -b <= (#[trigger] ps[i]).0 <= b && -b <= ps[i].1 <= b && 0 <= ps[i].2 <= 3
}

/// Places within a band that keeps every grid computation inside `i32`.
pub open spec fn places_small(ps: Places, bound: int) -> bool {
    forall|i: int|
        0 <= i < ps.len() ==> -2 <= (#[trigger] ps[i]).0 <= bound && 0 <= ps[i].1 <= bound && 0 <= ps[i].2 <= 3
}

proof fn lemma_place_chain_small(parts: Seq<Part>, ps: Places, c: Chain, axis: int, j: int, bound: int)
    requires
        ps.len() == parts.len(),
        places_small(ps, bound),
        0 <= axis <= bound,
        2 + 3 * c.len() <= bound,
        0 <= j,
    ensures
        places_small(place_chain(parts, ps, c, axis, j), bound),
        place_chain(parts, ps, c, axis, j).len() == ps.len(),
    decreases c.len() - j,
{
    if j < c.len() {
        let k = find_part(parts, c[j].0);
        lemma_find_part_range(parts, c[j].0, 0);
        let y = 2 + 3 * j;
        let ps2 = if k < 0 {
            ps
        } else if offset_symbol(parts[k].1) {
            ps.update(k, (axis - 2, y, 0))
        } else {
            ps.update(k, (axis, y, if c[j].1 == "p2"@ || c[j].1 == "minus"@ { 3 } else { 1 }))
        };
        assert(places_small(ps2, bound)) by {
            assert forall|i: int| 0 <= i < ps2.len() implies -2 <= (#[trigger] ps2[i]).0 <= bound && 0 <= ps2[i].1
                <= bound && 0 <= ps2[i].2 <= 3 by {
                if i != k {
                    assert(ps2[i] == ps[i]);
                }
            }
        }
        lemma_place_chain_small(parts, ps2, c, axis, j + 1, bound);
    }
}

proof fn lemma_place_chains_small(parts: Seq<Part>, ps: Places, cs: Seq<Chain>, spacing: int, i: int, bound: int)
    requires
        ps.len() == parts.len(),
        places_small(ps, bound),
        0 <= spacing <= 7,
        7 * (cs.len() + 1) <= bound,
        forall|t: int| 0 <= t < cs.len() ==> 2 + 3 * (#[trigger] cs[t]).len() <= bound,
        0 <= i,
    ensures
        places_small(place_chains(parts, ps, cs, spacing, i), bound),
        place_chains(parts, ps, cs, spacing, i).len() == ps.len(),
    decreases cs.len() - i,
{
    if i < cs.len() {
        assert((i + 1) * spacing <= 7 * (cs.len() + 1)) by (nonlinear_arith)
            requires
                0 <= i < cs.len(),
                0 <= spacing <= 7,
        ;
        assert((i + 1) * spacing >= 0) by (nonlinear_arith)
            requires
                0 <= i,
                0 <= spacing,
        ;
        lemma_place_chain_small(parts, ps, cs[i], (i + 1) * spacing, 0, bound);
        lemma_place_chains_small(parts, place_chain(parts, ps, cs[i], (i + 1) * spacing, 0), cs, spacing, i + 1, bound);
    }
}

/// The band that raw grid positions keep to; the shifted positions and the
/// wire points stay within twice it, inside the `i32` range.
pub open spec fn grid_bound() -> int {
    1_000_000_000
}

/// Raw positions for at most thirty million components stay in the grid band.
proof fn lemma_raw_places_small(parts: Seq<Part>, g: Seq<(String, NetId)>, nets: NetPins, r: Rails)
    requires
        parts.len() <= 30_000_000,
    ensures
        places_small(raw_places(parts, r, all_chains(parts, g, nets, r)), grid_bound()),
        raw_places(parts, r, all_chains(parts, g, nets, r)).len() == parts.len(),
{
    let cs = all_chains(parts, g, nets, r);
    lemma_chain_sizes(parts, g, nets, r);
    if r.2 is Some {
        lemma_find_part_range(parts, r.2->0, 0);
    }
    let start = Seq::new(parts.len(), |i: int| (0int, 0int, 0int));
    let with_source = match r.2 {
        Some(b) => if find_part(parts, b) >= 0 {
            start.update(find_part(parts, b), (0int, 3int, 1int))
        } else {
            start
        },
        None => start,
    };
    assert(places_small(with_source, grid_bound())) by {
        assert forall|i: int| 0 <= i < with_source.len() implies -2 <= (#[trigger] with_source[i]).0 <= grid_bound()
            && 0 <= with_source[i].1 <= grid_bound() && 0 <= with_source[i].2 <= 3 by {
            if r.2 is Some && find_part(parts, r.2->0) >= 0 && i == find_part(parts, r.2->0) {
            } else {
                assert(with_source[i] == start[i]);
            }
        }
    }
    assert forall|t: int| 0 <= t < cs.len() implies 2 + 3 * (#[trigger] cs[t]).len() <= grid_bound() by {}
    lemma_place_chains_small(parts, with_source, cs, col_spacing(cs.len() as int), 0, grid_bound());
}


fn offset_symbol_exec(kind: &ComponentKind) -> (r: bool)
    ensures
        r == offset_symbol(*kind),
{
    let d = component_definition(kind);
    crate::text::text_is(d.display_name, "Transistor") || crate::text::text_is(d.display_name, "Mosfet")
}

/// Positions before normalising, as `raw_places` describes.
fn raw_places_exec(
    parts: &Vec<(String, ComponentKind)>,
    chains: &Vec<Vec<(String, String)>>,
    r: &(Option<usize>, Option<usize>, Option<String>),
) -> (ps: Vec<(i32, i32, i32)>)
    requires
        7 * (chains@.len() + 1) <= grid_bound(),
        forall|t: int| 0 <= t < chains@.len() ==> 2 + 3 * (#[trigger] chains@[t])@.len() <= grid_bound(),
    ensures
        places_view(ps@) == raw_places(part_views(parts@), rails_view(*r), chain_views(chains@)),
{
    let ghost pv = part_views(parts@);
    let ghost cv = chain_views(chains@);
    let mut ps: Vec<(i32, i32, i32)> = Vec::new();
    let mut i: usize = 0;
    while i < parts.len()
        invariant
            i <= parts.len(),
            ps@.len() == i,
            forall|t: int| 0 <= t < i ==> (#[trigger] ps@[t]) == (0i32, 0i32, 0i32),
        decreases parts.len() - i,
    {
        ps.push((0, 0, 0));
        i = i + 1;
    }
    let ghost start = Seq::new(pv.len(), |i: int| (0int, 0int, 0int));
    assert(places_view(ps@) =~= start);
    match &r.2 {
        Some(b) => match part_position(parts, b.as_str()) {
            Some(k) => {
                ps.set(k, (0, 3, 1));
                assert(places_view(ps@) =~= start.update(k as int, (0int, 3int, 1int)));
            },
            None => {},
        },
        None => {},
    }
    let n = chains.len();
    let spacing: i32 = if n <= 2 {
        7
    } else if n <= 4 {
        5
    } else {
        4
    };
    assert(spacing as int == col_spacing(n as int));
    let ghost target = raw_places(pv, rails_view(*r), cv);
    let mut c: usize = 0;
    while c < n
        invariant
            c <= n == chains@.len(),
            cv == chain_views(chains@),
            pv == part_views(parts@),
            ps@.len() == pv.len(),
            spacing as int == col_spacing(n as int),
            1 <= spacing <= 7,
            7 * (n + 1) <= grid_bound(),
            forall|t: int| 0 <= t < chains@.len() ==> 2 + 3 * (#[trigger] chains@[t])@.len() <= grid_bound(),
            place_chains(pv, places_view(ps@), cv, spacing as int, c as int) == target,
        decreases n - c,
    {
        assert((c + 1) * spacing <= 7 * (n + 1)) by (nonlinear_arith)
            requires
                c < n,
                1 <= spacing <= 7,
        ;
        let axis: i32 = ((c + 1) as i32) * spacing;
        let chain = &chains[c];
        assert(cv[c as int] == pair_views(chain@));
        let ghost before = places_view(ps@);
        let mut j: usize = 0;
        while j < chain.len()
            invariant
                j <= chain.len(),
                pv == part_views(parts@),
                ps@.len() == pv.len(),
                2 + 3 * chain@.len() <= grid_bound(),
                0 <= axis <= grid_bound(),
                place_chain(pv, places_view(ps@), pair_views(chain@), axis as int, j as int) == place_chain(
                    pv,
                    before,
                    pair_views(chain@),
                    axis as int,
                    0,
                ),
            decreases chain.len() - j,
        {
            let y: i32 = 2 + 3 * (j as i32);
            let ghost pv_now = places_view(ps@);
            assert(pair_views(chain@)[j as int] == (chain@[j as int].0@, chain@[j as int].1@));
            match part_position(parts, chain[j].0.as_str()) {
                None => {},
                Some(k) => {
                    if offset_symbol_exec(&parts[k].1) {
                        ps.set(k, (axis - 2, y, 0));
                        assert(places_view(ps@) =~= pv_now.update(k as int, (axis - 2, y as int, 0int)));
                    } else {
                        let rot: i32 = if crate::text::text_is(chain[j].1.as_str(), "p2") || crate::text::text_is(
                            chain[j].1.as_str(),
                            "minus",
                        ) {
                            3
                        } else {
                            1
                        };
                        ps.set(k, (axis, y, rot));
                        assert(places_view(ps@) =~= pv_now.update(k as int, (axis as int, y as int, rot as int)));
                    }
                },
            }
            j = j + 1;
        }
        c = c + 1;
    }
    ps
}


proof fn lemma_min_corner_bounds(parts: Seq<Part>, ps: Places, n: int)
    requires
        0 <= n <= ps.len() == parts.len(),
        places_small(ps, grid_bound()),
    ensures
        -6 <= min_corner(parts, ps, n).0 <= 0x7fff_ffff,
        -6 <= min_corner(parts, ps, n).1 <= 0x7fff_ffff,
        n > 0 ==> min_corner(parts, ps, n).0 <= grid_bound() && min_corner(parts, ps, n).1 <= grid_bound(),
    decreases n,
{
    if n > 0 {
        lemma_min_corner_bounds(parts, ps, n - 1);
        lemma_catalog_small(parts[n - 1].1);
        assert(-2 <= ps[n - 1].0 <= grid_bound() && 0 <= ps[n - 1].1 <= grid_bound());
    }
}

fn bbox_exec(w: i32, h: i32, rot: i32) -> (r: (i32, i32, i32, i32))
    requires
        0 <= w <= 4,
        0 <= h <= 4,
    ensures
        (r.0 as int, r.1 as int, r.2 as int, r.3 as int) == bbox(w as int, h as int, rot as int),
{
    if rot == 1 {
        (-h, 0, 0, w)
    } else if rot == 2 {
        (-w, 0, -h, 0)
    } else if rot == 3 {
        (0, h, -w, 0)
    } else {
        (0, w, 0, h)
    }
}

/// Positions shifted so the boxes start two cells from the top-left.
fn normalize_exec(parts: &Vec<(String, ComponentKind)>, ps: &Vec<(i32, i32, i32)>) -> (out: Vec<(i32, i32, i32)>)
    requires
        ps@.len() == parts@.len(),
        places_small(places_view(ps@), grid_bound()),
    ensures
        ({
            let m = min_corner(part_views(parts@), places_view(ps@), parts@.len() as int);
            places_view(out@) == Seq::new(
                ps@.len(),
                |i: int| (places_view(ps@)[i].0 - (m.0 - 2), places_view(ps@)[i].1 - (m.1 - 2), places_view(ps@)[i].2),
            )
        }),
        places_bounded(places_view(out@), 2 * grid_bound() + 16),
{
    let ghost pv = part_views(parts@);
    let ghost sv = places_view(ps@);
    let mut mx: i32 = 0x7fff_ffff;
    let mut my: i32 = 0x7fff_ffff;
    let mut i: usize = 0;
    while i < ps.len()
        invariant
            i <= ps@.len() == parts@.len(),
            pv == part_views(parts@),
            sv == places_view(ps@),
            places_small(sv, grid_bound()),
            (mx as int, my as int) == min_corner(pv, sv, i as int),
        decreases ps.len() - i,
    {
        proof {
            lemma_min_corner_bounds(pv, sv, i as int);
            lemma_catalog_small(parts@[i as int].1);
        }
        let d = component_definition(&parts[i].1);
        assert(pv[i as int].1 == parts@[i as int].1);
        assert(sv[i as int] == (ps@[i as int].0 as int, ps@[i as int].1 as int, ps@[i as int].2 as int));
        let b = bbox_exec(d.width, d.height, ps[i].2);
        assert(-4 <= b.0 <= 0 && -4 <= b.2 <= 0);
        let x = ps[i].0 + b.0;
        let y = ps[i].1 + b.2;
        if x < mx {
            mx = x;
        }
        if y < my {
            my = y;
        }
        i = i + 1;
    }
    proof {
        lemma_min_corner_bounds(pv, sv, ps@.len() as int);
    }
    let mut out: Vec<(i32, i32, i32)> = Vec::new();
    if ps.len() == 0 {
        assert(places_view(out@) =~= Seq::new(ps@.len(), |i: int| (sv[i].0 - (mx - 2), sv[i].1 - (my - 2), sv[i].2)));
        return out;
    }
    let sx = mx - 2;
    let sy = my - 2;
    let mut k: usize = 0;
    while k < ps.len()
        invariant
            k <= ps@.len(),
            sv == places_view(ps@),
            places_small(sv, grid_bound()),
            -8 <= sx <= grid_bound(),
            -8 <= sy <= grid_bound(),
            places_view(out@) == Seq::new(k as nat, |i: int| (sv[i].0 - sx, sv[i].1 - sy, sv[i].2)),
            places_bounded(places_view(out@), 2 * grid_bound() + 16),
        decreases ps.len() - k,
    {
        let p = ps[k];
        assert(sv[k as int] == (p.0 as int, p.1 as int, p.2 as int));
        let ghost before = places_view(out@);
        out.push((p.0 - sx, p.1 - sy, p.2));
        assert(places_view(out@) =~= before.push((sv[k as int].0 - sx, sv[k as int].1 - sy, sv[k as int].2)));
        assert(places_view(out@) =~= Seq::new((k + 1) as nat, |i: int| (sv[i].0 - sx, sv[i].1 - sy, sv[i].2)));
        assert forall|i: int| 0 <= i < places_view(out@).len() implies -(2 * grid_bound() + 16) <= (
        #[trigger] places_view(out@)[i]).0 <= 2 * grid_bound() + 16 && -(2 * grid_bound() + 16) <= places_view(
            out@,
        )[i].1 <= 2 * grid_bound() + 16 && 0 <= places_view(out@)[i].2 <= 3 by {
            if i < k {
                assert(places_view(out@)[i] == before[i]);
            }
        }
        k = k + 1;
    }
    out
}


// ---------------------------------------------------------------------------
// Wiring the nets.

pub open spec fn point_views(v: Seq<(i32, i32)>) -> Seq<(int, int)> {
    v.map_values(|p: (i32, i32)| (p.0 as int, p.1 as int))
}

pub open spec fn wire_view(w: Wire) -> WireView {
    (w.net_id.0 as nat, point_views(w.points@))
}

pub open spec fn wire_views(v: Seq<Wire>) -> Seq<WireView> {
    v.map_values(|w: Wire| wire_view(w))
}

proof fn lemma_insert_point_at(s: Seq<(int, int)>, x: (int, int), p: int)
    requires
        0 <= p <= s.len(),
        forall|j: int| 0 <= j < p ==> point_lt(#[trigger] s[j], x),
        p < s.len() ==> !point_lt(s[p], x),
    ensures
        p < s.len() && s[p] == x ==> insert_point(s, x) == s,
        !(p < s.len() && s[p] == x) ==> insert_point(s, x) == s.take(p).push(x) + s.skip(p),
    decreases p,
{
    if p == 0 {
        if s.len() == 0 {
            assert(s.take(0).push(x) + s.skip(0) =~= seq![x]);
        } else {
            assert(s.take(0).push(x) + s.skip(0) =~= seq![x] + s);
        }
    } else {
        let rest = s.drop_first();
        assert(point_lt(s[0], x));
        assert forall|j: int| 0 <= j < p - 1 implies point_lt(#[trigger] rest[j], x) by {
            assert(rest[j] == s[j + 1]);
        }
        if p < s.len() {
            assert(rest[p - 1] == s[p]);
        }
        lemma_insert_point_at(rest, x, p - 1);
        if p < s.len() && s[p] == x {
            assert(seq![s[0]] + rest =~= s);
        } else {
            assert(seq![s[0]] + (rest.take(p - 1).push(x) + rest.skip(p - 1)) =~= s.take(p).push(x) + s.skip(p));
        }
    }
}

fn insert_point_exec(v: &mut Vec<(i32, i32)>, x: (i32, i32))
    ensures
        point_views(final(v)@) == insert_point(point_views(old(v)@), (x.0 as int, x.1 as int)),
{
    let ghost sv = point_views(v@);
    let ghost xv = (x.0 as int, x.1 as int);
    let mut p: usize = 0;
    while p < v.len() && (v[p].0 < x.0 || (v[p].0 == x.0 && v[p].1 < x.1))
        invariant
            p <= v.len(),
            sv == point_views(v@),
            xv == (x.0 as int, x.1 as int),
            forall|j: int| 0 <= j < p ==> point_lt(#[trigger] sv[j], xv),
        decreases v.len() - p,
    {
        assert(sv[p as int] == (v@[p as int].0 as int, v@[p as int].1 as int));
        p = p + 1;
    }
    if p < v.len() {
        assert(sv[p as int] == (v@[p as int].0 as int, v@[p as int].1 as int));
    }
    proof {
        lemma_insert_point_at(sv, xv, p as int);
    }
    if p < v.len() && v[p].0 == x.0 && v[p].1 == x.1 {
        return;
    }
    v.insert(p, x);
    assert(point_views(v@) =~= sv.take(p as int).push(xv) + sv.skip(p as int));
}

/// The grid offset of a catalog pin of `kind`, if it has one of that name.
fn pin_offset(kind: &ComponentKind, name: &str) -> (r: Option<(i32, i32)>)
    ensures
        match find_pin(catalog(*kind).5, name@, 0) {
            Some(pin) => r matches Some(o) && o.0 as int == pin.1 && o.1 as int == pin.2,
            None => r is None,
        },
{
    let d = component_definition(kind);
    let ghost pins = catalog(*kind).5;
    let mut i: usize = 0;
    while i < d.pins.len()
        invariant
            i <= d.pins.len(),
            definition_matches(d, *kind),
            pins == catalog(*kind).5,
            pins.len() == d.pins@.len(),
            find_pin(pins, name@, 0) == find_pin(pins, name@, i as int),
        decreases d.pins.len() - i,
    {
        assert(pins[i as int] == pin_view(d.pins@[i as int]));
        if crate::text::text_is(d.pins[i].name, name) {
            return Some((d.pins[i].x, d.pins[i].y));
        }
        i = i + 1;
    }
    None
}

fn turned_exec(p: (i32, i32, i32), px: i32, py: i32) -> (r: (i32, i32))
    requires
        -(2 * grid_bound() + 16) <= p.0 <= 2 * grid_bound() + 16,
        -(2 * grid_bound() + 16) <= p.1 <= 2 * grid_bound() + 16,
        -4 <= px <= 4,
        -4 <= py <= 4,
    ensures
        (r.0 as int, r.1 as int) == turned((p.0 as int, p.1 as int, p.2 as int), px as int, py as int),
{
    if p.2 == 1 {
        (p.0 - py, p.1 + px)
    } else if p.2 == 2 {
        (p.0 - px, p.1 - py)
    } else if p.2 == 3 {
        (p.0 + py, p.1 - px)
    } else {
        (p.0 + px, p.1 + py)
    }
}

pub open spec fn points_small(s: Seq<(int, int)>) -> bool {
    forall|i: int| 0 <= i < s.len() ==> -(2 * grid_bound() + 20) <= (#[trigger] s[i]).0 <= 2 * grid_bound() + 20 && -(2
        * grid_bound() + 20) <= s[i].1 <= 2 * grid_bound() + 20
}

/// The grid points of a net's pins, as `net_points` describes.
fn net_points_exec(
    parts: &Vec<(String, ComponentKind)>,
    ps: &Vec<(i32, i32, i32)>,
    pins: &Vec<(String, String)>,
) -> (r: Vec<(i32, i32)>)
    requires
        ps@.len() == parts@.len(),
        places_bounded(places_view(ps@), 2 * grid_bound() + 16),
    ensures
        point_views(r@) == net_points(part_views(parts@), places_view(ps@), pair_views(pins@)),
        points_small(point_views(r@)),
{
    let ghost pv = part_views(parts@);
    let ghost sv = places_view(ps@);
    let ghost qs = pair_views(pins@);
    let mut out: Vec<(i32, i32)> = Vec::new();
    let mut j: usize = 0;
    assert(point_views(out@) =~= net_points(pv, sv, qs.take(0)));
    while j < pins.len()
        invariant
            j <= pins.len(),
            pv == part_views(parts@),
            sv == places_view(ps@),
            qs == pair_views(pins@),
            ps@.len() == parts@.len(),
            places_bounded(sv, 2 * grid_bound() + 16),
            point_views(out@) == net_points(pv, sv, qs.take(j as int)),
            points_small(point_views(out@)),
        decreases pins.len() - j,
    {
        assert(qs.take(j + 1).drop_last() =~= qs.take(j as int));
        assert(qs.take(j + 1).last() == (pins@[j as int].0@, pins@[j as int].1@));
        match part_position(parts, pins[j].0.as_str()) {
            None => {},
            Some(k) => {
                proof {
                    lemma_catalog_small(parts@[k as int].1);
                }
                assert(pv[k as int].1 == parts@[k as int].1);
                match pin_offset(&parts[k].1, pins[j].1.as_str()) {
                    None => {},
                    Some(o) => {
                        proof {
                            let pin = find_pin(catalog(parts@[k as int].1).5, pins@[j as int].1@, 0)->0;
                            lemma_find_pin_in(catalog(parts@[k as int].1).5, pins@[j as int].1@, 0);
                        }
                        assert(sv[k as int] == (ps@[k as int].0 as int, ps@[k as int].1 as int, ps@[k as int].2 as int));
                        let t = turned_exec(ps[k], o.0, o.1);
                        let ghost before = point_views(out@);
                        insert_point_exec(&mut out, t);
                        proof {
                            lemma_insert_point_small(before, (t.0 as int, t.1 as int));
                        }
                    },
                }
            },
        }
        j = j + 1;
    }
    assert(qs.take(j as int) =~= qs);
    out
}

proof fn lemma_find_pin_in(pins: Seq<PinSpec>, name: Seq<char>, i: int)
    requires
        0 <= i,
    ensures
        find_pin(pins, name, i) matches Some(p) ==> exists|t: int| 0 <= t < pins.len() && pins[t] == p,
    decreases pins.len() - i,
{
    if i < pins.len() && pins[i].0 != name {
        lemma_find_pin_in(pins, name, i + 1);
    }
}

proof fn lemma_insert_point_small(s: Seq<(int, int)>, x: (int, int))
    requires
        points_small(s),
        -(2 * grid_bound() + 20) <= x.0 <= 2 * grid_bound() + 20,
        -(2 * grid_bound() + 20) <= x.1 <= 2 * grid_bound() + 20,
    ensures
        points_small(insert_point(s, x)),
    decreases s.len(),
{
    if s.len() > 0 && s[0] != x && !point_lt(x, s[0]) {
        let rest = s.drop_first();
        assert forall|i: int| 0 <= i < rest.len() implies -(2 * grid_bound() + 20) <= (#[trigger] rest[i]).0 <= 2
            * grid_bound() + 20 && -(2 * grid_bound() + 20) <= rest[i].1 <= 2 * grid_bound() + 20 by {
            assert(rest[i] == s[i + 1]);
        }
        lemma_insert_point_small(rest, x);
        let r = insert_point(s, x);
        assert forall|i: int| 0 <= i < r.len() implies -(2 * grid_bound() + 20) <= (#[trigger] r[i]).0 <= 2
            * grid_bound() + 20 && -(2 * grid_bound() + 20) <= r[i].1 <= 2 * grid_bound() + 20 by {
            if i > 0 {
                assert(r[i] == insert_point(rest, x)[i - 1]);
            }
        }
    } else if s.len() > 0 && s[0] != x {
        let r = insert_point(s, x);
        assert forall|i: int| 0 <= i < r.len() implies -(2 * grid_bound() + 20) <= (#[trigger] r[i]).0 <= 2
            * grid_bound() + 20 && -(2 * grid_bound() + 20) <= r[i].1 <= 2 * grid_bound() + 20 by {
            if i > 0 {
                assert(r[i] == s[i - 1]);
            }
        }
    }
}


/// Least and greatest x and y of the points.
fn extremes(v: &Vec<(i32, i32)>) -> (r: (i32, i32, i32, i32))
    requires
        v@.len() >= 1,
    ensures
        r.0 as int == min_x_of(point_views(v@)),
        r.1 as int == max_x_of(point_views(v@)),
        r.2 as int == min_y_of(point_views(v@)),
        r.3 as int == max_y_of(point_views(v@)),
{
    let ghost sv = point_views(v@);
    let mut a = v[0].0;
    let mut b = v[0].0;
    let mut c = v[0].1;
    let mut d = v[0].1;
    let mut i: usize = 1;
    assert(sv.take(1) =~= seq![sv[0]]);
    while i < v.len()
        invariant
            1 <= i <= v.len(),
            sv == point_views(v@),
            a as int == min_x_of(sv.take(i as int)),
            b as int == max_x_of(sv.take(i as int)),
            c as int == min_y_of(sv.take(i as int)),
            d as int == max_y_of(sv.take(i as int)),
        decreases v.len() - i,
    {
        assert(sv.take(i + 1).drop_last() =~= sv.take(i as int));
        assert(sv.take(i + 1).last() == (v@[i as int].0 as int, v@[i as int].1 as int));
        let p = v[i];
        if p.0 < a {
            a = p.0;
        }
        if p.0 > b {
            b = p.0;
        }
        if p.1 < c {
            c = p.1;
        }
        if p.1 > d {
            d = p.1;
        }
        i = i + 1;
    }
    assert(sv.take(i as int) =~= sv);
    (a, b, c, d)
}

proof fn lemma_extremes_in(s: Seq<(int, int)>)
    requires
        s.len() >= 1,
    ensures
        exists|i: int| 0 <= i < s.len() && s[i].0 == min_x_of(s),
        exists|i: int| 0 <= i < s.len() && s[i].0 == max_x_of(s),
        exists|i: int| 0 <= i < s.len() && s[i].1 == min_y_of(s),
        exists|i: int| 0 <= i < s.len() && s[i].1 == max_y_of(s),
    decreases s.len(),
{
    let n = s.len() - 1;
    if s.len() > 1 {
        let t = s.drop_last();
        lemma_extremes_in(t);
        let a = choose|i: int| 0 <= i < t.len() && t[i].0 == min_x_of(t);
        let b = choose|i: int| 0 <= i < t.len() && t[i].0 == max_x_of(t);
        let c = choose|i: int| 0 <= i < t.len() && t[i].1 == min_y_of(t);
        let d = choose|i: int| 0 <= i < t.len() && t[i].1 == max_y_of(t);
        assert(t[a] == s[a] && t[b] == s[b] && t[c] == s[c] && t[d] == s[d]);
        if s[n].0 < min_x_of(t) {
            assert(s[n].0 == min_x_of(s));
        } else {
            assert(s[a].0 == min_x_of(s));
        }
        if s[n].0 > max_x_of(t) {
            assert(s[n].0 == max_x_of(s));
        } else {
            assert(s[b].0 == max_x_of(s));
        }
        if s[n].1 < min_y_of(t) {
            assert(s[n].1 == min_y_of(s));
        } else {
            assert(s[c].1 == min_y_of(s));
        }
        if s[n].1 > max_y_of(t) {
            assert(s[n].1 == max_y_of(s));
        } else {
            assert(s[d].1 == max_y_of(s));
        }
    } else {
        assert(s[0].0 == min_x_of(s) && s[0].0 == max_x_of(s) && s[0].1 == min_y_of(s) && s[0].1 == max_y_of(s));
    }
}

fn push_wire(out: &mut Vec<Wire>, net: usize, pts: Vec<(i32, i32)>)
    ensures
        wire_views(final(out)@) == wire_views(old(out)@).push((net as nat, point_views(pts@))),
{
    let ghost before = wire_views(out@);
    out.push(Wire { net_id: NetId(net), points: pts });
    assert(wire_views(out@) =~= before.push((net as nat, point_views(pts@))));
}

/// The wires of one net, as `net_wires` describes.
fn net_wires_exec(out: &mut Vec<Wire>, net: usize, pts: &Vec<(i32, i32)>, r: &(Option<usize>, Option<usize>, Option<String>))
    requires
        pts@.len() >= 2,
        points_small(point_views(pts@)),
    ensures
        wire_views(final(out)@) == wire_views(old(out)@) + net_wires(net as nat, point_views(pts@), rails_view(*r)),
{
    let ghost sv = point_views(pts@);
    let ghost rv = rails_view(*r);
    let ghost start = wire_views(out@);
    assert(rv.0 == opt_nat(r.0) && rv.1 == opt_nat(r.1));
    proof {
        lemma_extremes_in(sv);
    }
    let (min_x, max_x, min_y, max_y) = extremes(pts);
    let supply = r.0 == Some(net);
    let ground = r.1 == Some(net);
    if supply || ground {
        let rail: i32 = if supply { min_y - 1 } else { max_y + 1 };
        let mut first: Vec<(i32, i32)> = Vec::new();
        first.push((min_x, rail));
        first.push((max_x, rail));
        assert(point_views(first@) =~= seq![(min_x as int, rail as int), (max_x as int, rail as int)]);
        push_wire(out, net, first);
        let ghost head = wire_views(out@);
        let mut i: usize = 0;
        assert(head =~= head + Seq::<WireView>::empty());
        while i < pts.len()
            invariant
                i <= pts.len(),
                sv == point_views(pts@),
                points_small(sv),
                wire_views(out@) + rail_drops(net as nat, sv, rail as int, supply, i as int) == head + rail_drops(
                    net as nat,
                    sv,
                    rail as int,
                    supply,
                    0,
                ),
            decreases pts.len() - i,
        {
            let p = pts[i];
            assert(sv[i as int] == (p.0 as int, p.1 as int));
            let ghost w0 = wire_views(out@);
            if p.1 != rail {
                let mut w: Vec<(i32, i32)> = Vec::new();
                if supply {
                    w.push((p.0, rail));
                    w.push(p);
                    assert(point_views(w@) =~= seq![(p.0 as int, rail as int), (p.0 as int, p.1 as int)]);
                } else {
                    w.push(p);
                    w.push((p.0, rail));
                    assert(point_views(w@) =~= seq![(p.0 as int, p.1 as int), (p.0 as int, rail as int)]);
                }
                push_wire(out, net, w);
                assert(w0.push((net as nat, point_views(w@))) + rail_drops(net as nat, sv, rail as int, supply, i + 1)
                    =~= w0 + rail_drops(net as nat, sv, rail as int, supply, i as int));
            } else {
                assert(w0 + rail_drops(net as nat, sv, rail as int, supply, i + 1) =~= w0 + rail_drops(
                    net as nat,
                    sv,
                    rail as int,
                    supply,
                    i as int,
                ));
            }
            i = i + 1;
        }
        assert(wire_views(out@) + Seq::<WireView>::empty() =~= wire_views(out@));
        assert(start + net_wires(net as nat, sv, rv) =~= head + rail_drops(net as nat, sv, rail as int, supply, 0));
    } else {
        let mut i: usize = 1;
        assert(start + Seq::<WireView>::empty() =~= start);
        while i < pts.len()
            invariant
                1 <= i <= pts.len(),
                sv == point_views(pts@),
                wire_views(out@) + links(net as nat, sv, i as int) == start + links(net as nat, sv, 1),
            decreases pts.len() - i,
        {
            let a = pts[i - 1];
            let b = pts[i];
            assert(sv[i - 1] == (a.0 as int, a.1 as int));
            assert(sv[i as int] == (b.0 as int, b.1 as int));
            let ghost w0 = wire_views(out@);
            let mut w: Vec<(i32, i32)> = Vec::new();
            if a.0 == b.0 || a.1 == b.1 {
                w.push(a);
                w.push(b);
                assert(point_views(w@) =~= seq![sv[i - 1], sv[i as int]]);
            } else {
                w.push(a);
                w.push((b.0, a.1));
                w.push(b);
                assert(point_views(w@) =~= seq![sv[i - 1], (sv[i as int].0, sv[i - 1].1), sv[i as int]]);
            }
            push_wire(out, net, w);
            assert(w0.push((net as nat, point_views(w@))) + links(net as nat, sv, i + 1) =~= w0 + links(
                net as nat,
                sv,
                i as int,
            ));
            i = i + 1;
        }
        assert(wire_views(out@) + Seq::<WireView>::empty() =~= wire_views(out@));
    }
}


/// The wires of every net, as `wires_from` describes.
fn wires_exec(
    parts: &Vec<(String, ComponentKind)>,
    ps: &Vec<(i32, i32, i32)>,
    nets: &Vec<(usize, Vec<(String, String)>)>,
    r: &(Option<usize>, Option<usize>, Option<String>),
) -> (out: Vec<Wire>)
    requires
        ps@.len() == parts@.len(),
        places_bounded(places_view(ps@), 2 * grid_bound() + 16),
    ensures
        wire_views(out@) == wires_from(part_views(parts@), places_view(ps@), net_views(nets@), rails_view(*r), 0),
{
    let ghost pv = part_views(parts@);
    let ghost sv = places_view(ps@);
    let ghost nv = net_views(nets@);
    let ghost rv = rails_view(*r);
    let mut out: Vec<Wire> = Vec::new();
    let mut i: usize = 0;
    assert(wire_views(out@) + wires_from(pv, sv, nv, rv, 0) =~= wires_from(pv, sv, nv, rv, 0));
    while i < nets.len()
        invariant
            i <= nets.len(),
            pv == part_views(parts@),
            sv == places_view(ps@),
            nv == net_views(nets@),
            rv == rails_view(*r),
            ps@.len() == parts@.len(),
            places_bounded(sv, 2 * grid_bound() + 16),
            wire_views(out@) + wires_from(pv, sv, nv, rv, i as int) == wires_from(pv, sv, nv, rv, 0),
        decreases nets.len() - i,
    {
        assert(nv[i as int] == (nets@[i as int].0 as nat, pair_views(nets@[i as int].1@)));
        let pts = net_points_exec(parts, ps, &nets[i].1);
        let ghost w0 = wire_views(out@);
        if pts.len() >= 2 {
            net_wires_exec(&mut out, nets[i].0, &pts, r);
        }
        assert(wire_views(out@) + wires_from(pv, sv, nv, rv, i + 1) =~= w0 + wires_from(pv, sv, nv, rv, i as int));
        i = i + 1;
    }
    assert(wire_views(out@) + Seq::<WireView>::empty() =~= wire_views(out@));
    out
}

proof fn lemma_parts_len(cs: Seq<Part>)
    ensures
        parts_of(cs).len() <= cs.len(),
    decreases cs.len(),
{
    if cs.len() > 0 {
        lemma_parts_len(cs.drop_last());
        lemma_find_part_range(parts_of(cs.drop_last()), cs.last().0, 0);
    }
}

/// The layout `r` places each part at its final position with its catalog
/// name and size, in part order, and has the final wires.
pub open spec fn layout_is(r: LayoutResult, parts: Seq<Part>, g: Seq<(String, NetId)>) -> bool {
    let ps = final_places(parts, g);
    &&& r.components@.len() == parts.len()
    &&& forall|i: int|
        0 <= i < parts.len() ==> {
            let c = #[trigger] r.components@[i];
            &&& c.0@ == parts[i].0
            &&& (c.1.x as int, c.1.y as int, c.1.rotation as int) == ps[i]
            &&& c.1.comp_type@ == catalog(parts[i].1).1
            &&& c.1.width as int == catalog(parts[i].1).3
            &&& c.1.height as int == catalog(parts[i].1).4
        }
    &&& wire_views(r.wires@) == final_wires(parts, g)
}

/// Lays out a circuit whose connectivity graph is `graph`: components in
/// columns along the conduction paths from the supply net, nets wired with
/// horizontal and vertical segments. Where several voltage sources exist,
/// the nets and pins are read in graph order and the last source pin found
/// decides the supply, ground and source.
pub fn layout_with_graph(topology: &Topology, graph: &NetlistGraph) -> (r: LayoutResult)
    requires
        topology.components@.len() <= 30_000_000,
    ensures
        layout_is(r, topology_parts(*topology), graph.pin_to_net@),
{
    let parts = collect_parts(topology);
    let ghost pv = part_views(parts@);
    proof {
        lemma_parts_len(topology.components@.map_values(|c: crate::graph::TopologyComponent| (c.id@, c.kind)));
    }
    let nets = group_nets(graph);
    let rails = find_rails(&parts, &nets);
    let chains = all_chains_exec(&parts, graph, &nets, &rails);
    let ghost nv = net_views(nets@);
    let ghost rv = rails_view(rails);
    proof {
        lemma_chain_sizes(pv, graph.pin_to_net@, nv, rv);
        lemma_raw_places_small(pv, graph.pin_to_net@, nv, rv);
        let cv = chain_views(chains@);
        assert forall|t: int| 0 <= t < chains@.len() implies 2 + 3 * (#[trigger] chains@[t])@.len() <= grid_bound() by {
            assert(cv[t] == pair_views(chains@[t]@));
        }
    }
    let raw = raw_places_exec(&parts, &chains, &rails);
    assert(places_view(raw@).len() == raw@.len());
    assert(raw@.len() == parts@.len());
    let ps = normalize_exec(&parts, &raw);
    assert(places_view(ps@).len() == ps@.len());
    assert(ps@.len() == parts@.len());
    let wires = wires_exec(&parts, &ps, &nets, &rails);
    let mut components: Vec<(String, ComponentPos)> = Vec::new();
    let mut i: usize = 0;
    while i < parts.len()
        invariant
            i <= parts.len(),
            pv == part_views(parts@),
            ps@.len() == parts@.len(),
            places_view(ps@) == final_places(pv, graph.pin_to_net@),
            components@.len() == i,
            forall|t: int|
                0 <= t < i ==> {
                    let c = #[trigger] components@[t];
                    &&& c.0@ == pv[t].0
                    &&& (c.1.x as int, c.1.y as int, c.1.rotation as int) == final_places(pv, graph.pin_to_net@)[t]
                    &&& c.1.comp_type@ == catalog(pv[t].1).1
                    &&& c.1.width as int == catalog(pv[t].1).3
                    &&& c.1.height as int == catalog(pv[t].1).4
                },
        decreases parts.len() - i,
    {
        let d = component_definition(&parts[i].1);
        let p = ps[i];
        assert(places_view(ps@)[i as int] == (p.0 as int, p.1 as int, p.2 as int));
        components.push(
            (
                crate::text::owned(parts[i].0.as_str()),
                ComponentPos {
                    x: p.0,
                    y: p.1,
                    comp_type: crate::text::owned(d.display_name),
                    width: d.width,
                    height: d.height,
                    rotation: p.2,
                },
            ),
        );
        i = i + 1;
    }
    LayoutResult { components, wires }
}

/// Lays out a circuit: builds its connectivity graph and places and wires
/// it as `layout_with_graph` describes. Up to thirty million components,
/// every grid coordinate fits an `i32`.
pub fn generate_layout(topology: &Topology) -> (r: LayoutResult)
    requires
        topology.components@.len() <= 30_000_000,
    ensures
        exists|g: NetlistGraph| crate::graph::graph_spec(*topology, g) && layout_is(r, topology_parts(*topology), g.pin_to_net@),
{
    let graph = NetlistGraph::build(topology);
    layout_with_graph(topology, &graph)
}


// ---------------------------------------------------------------------------
// Wires run along the grid.

/// Two or more points, each step staying in its row or its column.
pub open spec fn rectilinear(pts: Seq<(int, int)>) -> bool {
    &&& pts.len() >= 2
    &&& forall|i: int| 1 <= i < pts.len() ==> pts[i - 1].0 == pts[i].0 || pts[i - 1].1 == #[trigger] pts[i].1
}

pub open spec fn all_rectilinear(ws: Seq<WireView>) -> bool {
    forall|i: int| 0 <= i < ws.len() ==> rectilinear(#[trigger] ws[i].1)
}

proof fn lemma_concat_rectilinear(a: Seq<WireView>, b: Seq<WireView>)
    requires
        all_rectilinear(a),
        all_rectilinear(b),
    ensures
        all_rectilinear(a + b),
{
    assert forall|i: int| 0 <= i < (a + b).len() implies rectilinear(#[trigger] (a + b)[i].1) by {
        if i < a.len() {
            assert((a + b)[i] == a[i]);
        } else {
            assert((a + b)[i] == b[i - a.len()]);
        }
    }
}

proof fn lemma_drops_rectilinear(net: nat, pts: Seq<(int, int)>, rail: int, supply: bool, i: int)
    ensures
        all_rectilinear(rail_drops(net, pts, rail, supply, i)),
    decreases pts.len() - i,
{
    if 0 <= i < pts.len() {
        let p = pts[i];
        let here: Seq<WireView> = if p.1 == rail {
            seq![]
        } else if supply {
            seq![(net, seq![(p.0, rail), p])]
        } else {
            seq![(net, seq![p, (p.0, rail)])]
        };
        assert(all_rectilinear(here)) by {
            if p.1 != rail {
                assert(rectilinear(here[0].1));
            }
        }
        lemma_drops_rectilinear(net, pts, rail, supply, i + 1);
        lemma_concat_rectilinear(here, rail_drops(net, pts, rail, supply, i + 1));
    }
}

proof fn lemma_links_rectilinear(net: nat, pts: Seq<(int, int)>, i: int)
    ensures
        all_rectilinear(links(net, pts, i)),
    decreases pts.len() - i,
{
    if 1 <= i < pts.len() {
        let a = pts[i - 1];
        let b = pts[i];
        let w: WireView = if a.0 == b.0 || a.1 == b.1 {
            (net, seq![a, b])
        } else {
            (net, seq![a, (b.0, a.1), b])
        };
        assert(rectilinear(w.1));
        assert(all_rectilinear(seq![w])) by {
            assert(seq![w][0] == w);
        }
        lemma_links_rectilinear(net, pts, i + 1);
        lemma_concat_rectilinear(seq![w], links(net, pts, i + 1));
    }
}

proof fn lemma_net_wires_rectilinear(net: nat, pts: Seq<(int, int)>, r: Rails)
    ensures
        all_rectilinear(net_wires(net, pts, r)),
{
    if r.0 == Some(net) || r.1 == Some(net) {
        let rail = if r.0 == Some(net) { min_y_of(pts) - 1 } else { max_y_of(pts) + 1 };
        let top: Seq<WireView> = seq![(net, seq![(min_x_of(pts), rail), (max_x_of(pts), rail)])];
        assert(all_rectilinear(top)) by {
            assert(rectilinear(top[0].1));
        }
        lemma_drops_rectilinear(net, pts, rail, r.0 == Some(net), 0);
        lemma_concat_rectilinear(top, rail_drops(net, pts, rail, r.0 == Some(net), 0));
    } else {
        lemma_links_rectilinear(net, pts, 1);
    }
}

proof fn lemma_wires_from_rectilinear(parts: Seq<Part>, ps: Places, nets: NetPins, r: Rails, i: int)
    ensures
        all_rectilinear(wires_from(parts, ps, nets, r, i)),
    decreases nets.len() - i,
{
    if 0 <= i < nets.len() {
        let pts = net_points(parts, ps, nets[i].1);
        let here = if pts.len() >= 2 { net_wires(nets[i].0, pts, r) } else { seq![] };
        lemma_net_wires_rectilinear(nets[i].0, pts, r);
        lemma_wires_from_rectilinear(parts, ps, nets, r, i + 1);
        lemma_concat_rectilinear(here, wires_from(parts, ps, nets, r, i + 1));
    }
}

/// Every wire of a layout runs through two or more grid points, each step
/// horizontal or vertical.
pub proof fn lemma_layout_wires_rectilinear(r: LayoutResult, parts: Seq<Part>, g: Seq<(String, NetId)>)
    requires
        layout_is(r, parts, g),
    ensures
        forall|i: int| 0 <= i < r.wires@.len() ==> rectilinear(#[trigger] wire_views(r.wires@)[i].1),
{
    let nets = net_pins(pin_entries(g));
    lemma_wires_from_rectilinear(parts, final_places(parts, g), nets, rails_of(parts, nets), 0);
    assert forall|i: int| 0 <= i < r.wires@.len() implies rectilinear(#[trigger] wire_views(r.wires@)[i].1) by {
        assert(wire_views(r.wires@)[i] == final_wires(parts, g)[i]);
    }
}

} // verus!
