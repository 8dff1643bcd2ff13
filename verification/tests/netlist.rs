use kessetsu::ast::{Connection, PinRef};
use kessetsu::erc::{check_rules, Severity};
use kessetsu::graph::{NetId, NetlistGraph, Topology, TopologyComponent};
use kessetsu::ir::ComponentKind;

fn pin(component: &str, pin: &str) -> PinRef {
    PinRef { component: component.to_string(), pin: pin.to_string() }
}

fn part(id: &str, kind: ComponentKind) -> TopologyComponent {
    TopologyComponent { id: id.to_string(), kind, module_pins: None }
}

fn divider() -> Topology {
    Topology {
        components: vec![part("R1", ComponentKind::Resistor), part("V1", ComponentKind::VoltageSource)],
        connections: vec![
            Connection { pins: vec![pin("V1", "plus"), pin("R1", "p1")] },
            Connection { pins: vec![pin("R1", "p2"), pin("V1", "minus")] },
        ],
        nets: vec![],
    }
}

#[test]
fn source_minus_becomes_ground_and_other_net_is_numbered() {
    let graph = NetlistGraph::build(&divider());
    assert_eq!(graph.get_net("V1", "minus"), Some(NetId(0)));
    assert_eq!(graph.get_net("R1", "p2"), Some(NetId(0)));
    assert_eq!(graph.get_net("R1", "p1"), Some(NetId(1)));
    assert_eq!(graph.get_net("V1", "plus"), Some(NetId(1)));
    assert_eq!(graph.get_net("R1", "p3"), None);
    assert_eq!(graph.get_net_name(NetId(0)), "0");
    assert_eq!(graph.get_net_name(NetId(1)), "N_R1_p1");
    assert_eq!(graph.get_net_name(NetId(7)), "7");
    assert!(!graph.ground_is_explicit);
    assert_eq!(graph.ground_candidates, vec!["V1.minus".to_string()]);
    assert!(graph.net_name_conflicts.is_empty());
}

#[test]
fn joined_pins_share_a_net_and_separate_pins_do_not() {
    let graph = NetlistGraph::build(&divider());
    let plus = graph.get_net("V1", "plus");
    let minus = graph.get_net("V1", "minus");
    assert_eq!(plus, graph.get_net("R1", "p1"));
    assert_ne!(plus, minus);
}

#[test]
fn clean_divider_has_no_findings() {
    let topology = divider();
    let graph = NetlistGraph::build(&topology);
    assert!(check_rules(&topology, &graph).is_empty());
}

#[test]
fn explicit_gnd_net_is_ground_and_names_nets() {
    let topology = Topology {
        components: vec![part("R1", ComponentKind::Resistor), part("V1", ComponentKind::VoltageSource)],
        connections: vec![
            Connection { pins: vec![pin("V1", "plus"), pin("", "VIN"), pin("R1", "p1")] },
            Connection { pins: vec![pin("R1", "p2"), pin("V1", "minus"), pin("", "GND")] },
        ],
        nets: vec!["VIN".to_string(), "GND".to_string()],
    };
    let graph = NetlistGraph::build(&topology);
    assert!(graph.ground_is_explicit);
    assert_eq!(graph.ground_candidates, vec!["GND".to_string()]);
    assert_eq!(graph.get_net("V1", "minus"), Some(NetId(0)));
    let vin = graph.get_net("R1", "p1").unwrap();
    assert_eq!(graph.get_net_name(vin), "VIN");
    assert!(check_rules(&topology, &graph).is_empty());
}

#[test]
fn floating_pins_and_shorted_source_are_reported_in_order() {
    let topology = Topology {
        components: vec![part("V1", ComponentKind::VoltageSource), part("R1", ComponentKind::Resistor)],
        connections: vec![Connection { pins: vec![pin("V1", "plus"), pin("V1", "minus")] }],
        nets: vec![],
    };
    let graph = NetlistGraph::build(&topology);
    let findings = check_rules(&topology, &graph);
    let codes: Vec<&str> = findings.iter().map(|d| d.code.as_str()).collect();
    assert_eq!(codes, vec!["KES-E003", "KES-E003", "KES-E004"]);
    assert_eq!(findings[0].message, "Floating Pin: R1.p1 is not connected to anything.");
    assert_eq!(findings[1].pin.as_deref(), Some("p2"));
    assert_eq!(
        findings[2].message,
        "CRITICAL SHORT CIRCUIT: Source V1 plus and minus are connected together!"
    );
    assert!(findings.iter().all(|d| d.severity == Severity::Error));
}

#[test]
fn declaration_and_reference_errors() {
    let topology = Topology {
        components: vec![part("R1", ComponentKind::Resistor), part("R1", ComponentKind::Resistor)],
        connections: vec![Connection { pins: vec![pin("R1", "p9"), pin("X9", "a"), pin("R1", "p1"), pin("R1", "p2")] }],
        nets: vec!["N1".to_string(), "N1".to_string(), "R1".to_string()],
    };
    let graph = NetlistGraph::build(&topology);
    let findings = check_rules(&topology, &graph);
    let codes: Vec<&str> = findings.iter().map(|d| d.code.as_str()).collect();
    assert_eq!(codes, vec!["KES-E001", "KES-E002", "KES-E005", "KES-E006", "KES-E009"]);
    assert_eq!(findings[0].message, "Duplicate component declaration: R1");
    assert_eq!(findings[1].message, "Connection refers to undeclared component: X9");
    assert_eq!(findings[2].message, "Invalid pin reference: R1.p9 does not exist.");
    assert_eq!(
        findings[3].message,
        "Namespace collision: 'R1' is declared as both a component and a net."
    );
    assert_eq!(findings[4].message, "Duplicate net declaration: N1");
}

#[test]
fn conflicting_names_and_ambiguous_ground() {
    let topology = Topology {
        components: vec![
            part("V1", ComponentKind::VoltageSource),
            part("V2", ComponentKind::VoltageSource),
            part("R1", ComponentKind::Resistor),
        ],
        connections: vec![
            Connection { pins: vec![pin("V1", "plus"), pin("R1", "p1"), pin("", "A"), pin("", "B")] },
            Connection { pins: vec![pin("V1", "minus"), pin("V2", "plus")] },
            Connection { pins: vec![pin("V2", "minus"), pin("R1", "p2")] },
        ],
        nets: vec!["A".to_string(), "B".to_string()],
    };
    let graph = NetlistGraph::build(&topology);
    assert_eq!(graph.net_name_conflicts.len(), 1);
    assert_eq!(graph.net_name_conflicts[0].names, vec!["A".to_string(), "B".to_string()]);
    assert_eq!(graph.ground_candidates, vec!["V1.minus".to_string(), "V2.minus".to_string()]);
    let findings = check_rules(&topology, &graph);
    let codes: Vec<&str> = findings.iter().map(|d| d.code.as_str()).collect();
    assert_eq!(codes, vec!["KES-E007", "KES-E008"]);
    assert_eq!(
        findings[0].message,
        "Conflicting user net names refer to the same physical net: A, B."
    );
    assert_eq!(findings[0].pin.as_deref(), Some("A"));
    assert_eq!(
        findings[1].message,
        "Ambiguous source-minus ground candidates: V1.minus, V2.minus. Connect the intended reference to a single explicit 'net GND'."
    );
}

#[test]
fn component_net_names_follow_catalog_pins() {
    let graph = NetlistGraph::build(&divider());
    let r1 = part("R1", ComponentKind::Resistor);
    assert_eq!(
        kessetsu::graph::component_net_names(&graph, &r1),
        vec!["N_R1_p1".to_string(), "0".to_string()]
    );
    let v1 = part("V1", ComponentKind::VoltageSource);
    assert_eq!(kessetsu::graph::component_net_names(&graph, &v1), vec!["N_R1_p1".to_string(), "0".to_string()]);
    let stray = part("R9", ComponentKind::Resistor);
    assert_eq!(
        kessetsu::graph::component_net_names(&graph, &stray),
        vec!["NC_R9_p1".to_string(), "NC_R9_p2".to_string()]
    );
}

#[test]
fn two_builds_name_every_net_alike() {
    let topology = Topology {
        components: vec![
            part("R1", ComponentKind::Resistor),
            part("R2", ComponentKind::Resistor),
            part("V1", ComponentKind::VoltageSource),
        ],
        connections: vec![
            Connection { pins: vec![pin("V1", "plus"), pin("", "VIN"), pin("R1", "p1")] },
            Connection { pins: vec![pin("R1", "p2"), pin("R2", "p1")] },
            Connection { pins: vec![pin("R2", "p2"), pin("V1", "minus")] },
        ],
        nets: vec!["VIN".to_string()],
    };
    let first = NetlistGraph::build(&topology);
    let second = NetlistGraph::build(&topology);
    let mut a: Vec<(usize, String)> = first.net_names.iter().map(|(id, name)| (id.0, name.clone())).collect();
    let mut b: Vec<(usize, String)> = second.net_names.iter().map(|(id, name)| (id.0, name.clone())).collect();
    a.sort();
    b.sort();
    assert_eq!(a, b);
    assert_eq!(a[0], (0, "0".to_string()));
    assert!(a.contains(&(first.get_net("R1", "p1").unwrap().0, "VIN".to_string())));
    assert!(a.contains(&(first.get_net("R1", "p2").unwrap().0, "N_R1_p2".to_string())));
}
