use kessetsu::ast::{Connection, PinRef};
use kessetsu::graph::{NetId, NetlistGraph, Topology, TopologyComponent};
use kessetsu::ir::ComponentKind;
use kessetsu::layout::{generate_layout, layout_with_graph, ComponentPos, LayoutResult};

fn pin(component: &str, pin: &str) -> PinRef {
    PinRef { component: component.to_string(), pin: pin.to_string() }
}

fn part(id: &str, kind: ComponentKind) -> TopologyComponent {
    TopologyComponent { id: id.to_string(), kind, module_pins: None }
}

fn position<'a>(layout: &'a LayoutResult, id: &str) -> &'a ComponentPos {
    &layout.components.iter().find(|(name, _)| name == id).expect("placed").1
}

fn divider() -> Topology {
    Topology {
        components: vec![part("R1", ComponentKind::Resistor), part("V1", ComponentKind::VoltageSource)],
        connections: vec![
            Connection { pins: vec![pin("V1", "plus"), pin("R1", "p1")] },
            Connection { pins: vec![pin("R1", "p2"), pin("V1", "minus")] },
        ],
        nets: vec![],
    }
}

fn wire_points(layout: &LayoutResult) -> Vec<(usize, Vec<(i32, i32)>)> {
    layout.wires.iter().map(|w| (w.net_id.0, w.points.clone())).collect()
}

#[test]
fn empty_circuit_has_empty_layout() {
    let topology = Topology { components: vec![], connections: vec![], nets: vec![] };
    let layout = generate_layout(&topology);
    assert!(layout.components.is_empty());
    assert!(layout.wires.is_empty());
}

#[test]
fn divider_places_source_left_and_resistor_in_first_column() {
    let layout = generate_layout(&divider());
    assert_eq!(layout.components.len(), 2);
    assert_eq!(layout.components[0].0, "R1");
    assert_eq!(layout.components[1].0, "V1");

    let r1 = position(&layout, "R1");
    assert_eq!((r1.x, r1.y, r1.rotation), (10, 2, 1));
    assert_eq!((r1.comp_type.as_str(), r1.width, r1.height), ("Resistor", 2, 1));

    let v1 = position(&layout, "V1");
    assert_eq!((v1.x, v1.y, v1.rotation), (3, 3, 1));
    assert_eq!((v1.comp_type.as_str(), v1.width, v1.height), ("Source", 2, 1));
}

#[test]
fn divider_supply_and_ground_rails() {
    let layout = generate_layout(&divider());
    assert_eq!(
        wire_points(&layout),
        vec![
            (1, vec![(3, 1), (10, 1)]),
            (1, vec![(3, 1), (3, 3)]),
            (1, vec![(10, 1), (10, 2)]),
            (0, vec![(3, 6), (10, 6)]),
            (0, vec![(3, 5), (3, 6)]),
            (0, vec![(10, 4), (10, 6)]),
        ]
    );
}

#[test]
fn series_resistors_form_one_chain() {
    let topology = Topology {
        components: vec![
            part("V1", ComponentKind::VoltageSource),
            part("R1", ComponentKind::Resistor),
            part("R2", ComponentKind::Resistor),
        ],
        connections: vec![
            Connection { pins: vec![pin("V1", "plus"), pin("R1", "p1")] },
            Connection { pins: vec![pin("R1", "p2"), pin("R2", "p1")] },
            Connection { pins: vec![pin("R2", "p2"), pin("V1", "minus")] },
        ],
        nets: vec![],
    };
    let graph = NetlistGraph::build(&topology);
    let layout = layout_with_graph(&topology, &graph);

    let r1 = position(&layout, "R1");
    assert_eq!((r1.x, r1.y, r1.rotation), (10, 2, 1));
    let r2 = position(&layout, "R2");
    assert_eq!((r2.x, r2.y, r2.rotation), (10, 5, 1));
    let v1 = position(&layout, "V1");
    assert_eq!((v1.x, v1.y, v1.rotation), (3, 3, 1));

    let middle: NetId = graph.get_net("R1", "p2").expect("joined");
    let middle_wires: Vec<Vec<(i32, i32)>> =
        layout.wires.iter().filter(|w| w.net_id == middle).map(|w| w.points.clone()).collect();
    assert_eq!(middle_wires, vec![vec![(10, 4), (10, 5)]]);
}

#[test]
fn unconnected_resistor_keeps_its_own_column() {
    let topology = Topology {
        components: vec![part("R9", ComponentKind::Resistor)],
        connections: vec![],
        nets: vec![],
    };
    let layout = generate_layout(&topology);
    let r9 = position(&layout, "R9");
    // One column at x = 7 with rotation 1; the box starts at (6, 2), so the shift is (-4, 0).
    assert_eq!((r9.x, r9.y, r9.rotation), (3, 2, 1));
    assert!(layout.wires.is_empty());
}
