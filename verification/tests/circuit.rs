use relaysim::net::{Netlist, Relay, Switch};
use relaysim::compile;

#[test]
fn test_multivibrator() {
    let netlist = Netlist {
        relays: vec![
            Relay {
                coil: "N1".to_string(),
                a: "R1.A".to_string(),
                b: "R1.B".to_string(),
            },
        ],
        switches: vec![
            Switch {
                state: "R1.B".to_string(),
                l: "V+".to_string(),
                r: "N1".to_string(),
            },
        ],
    };
    let circuit_spec = compile(&netlist);
    let mut circuit = circuit_spec.build();
    circuit.simulate();
    assert_eq!(Some(true), circuit.get_net("N1"));
    circuit.simulate();
    assert_eq!(Some(false), circuit.get_net("N1"));
}

#[test]
fn test_cyclic() {
    let netlist = Netlist {
        relays: vec![],
        switches: vec![
            Switch {
                state: "SW1.A".to_string(),
                l: "V+".to_string(),
                r: "N2".to_string(),
            },
            Switch {
                state: "SW2.A".to_string(),
                l: "V+".to_string(),
                r: "N5".to_string(),
            },
            Switch {
                state: "SW3.A".to_string(),
                l: "N2".to_string(),
                r: "N5".to_string(),
            },
        ],
    };
    let circuit_spec = compile(&netlist);
    let mut circuit = circuit_spec.build();
    circuit.simulate();
    assert_eq!(Some(false), circuit.get_net("N2"));
    assert_eq!(Some(false), circuit.get_net("N5"));

    circuit.set_state("SW1.A", true);
    circuit.simulate();
    assert_eq!(Some(true), circuit.get_net("N2"));
    assert_eq!(Some(false), circuit.get_net("N5"));

    circuit.set_state("SW3.A", true);
    circuit.simulate();
    assert_eq!(Some(true), circuit.get_net("N2"));
    assert_eq!(Some(true), circuit.get_net("N5"));

    circuit.set_state("SW2.A", true);
    circuit.simulate();
    assert_eq!(Some(true), circuit.get_net("N2"));
    assert_eq!(Some(true), circuit.get_net("N5"));

    circuit.set_state("SW1.A", false);
    circuit.simulate();
    assert_eq!(Some(true), circuit.get_net("N2"));
    assert_eq!(Some(true), circuit.get_net("N5"));

    circuit.set_state("SW3.A", false);
    circuit.simulate();
    assert_eq!(Some(false), circuit.get_net("N2"));
    assert_eq!(Some(true), circuit.get_net("N5"));

    circuit.set_state("SW2.A", false);
    circuit.simulate();
    assert_eq!(Some(false), circuit.get_net("N2"));
    assert_eq!(Some(false), circuit.get_net("N5"));
}

#[test]
fn test_empty_netlist() {
    let netlist = Netlist { relays: vec![], switches: vec![] };
    let spec = compile(&netlist);
    let mut circuit = spec.build();
    // before any tick, every net reads de-energized
    assert_eq!(Some(false), circuit.get_net("V+"));
    circuit.simulate();
    // the power rail is always energized after a propagation pass
    assert_eq!(Some(true), circuit.get_net("V+"));
    // unknown names resolve to absent values, not errors
    assert_eq!(None, circuit.get_net("N1"));
    assert_eq!(None, circuit.get_state("SW1.A"));
}

#[test]
fn test_unknown_set_state_is_noop() {
    let netlist = Netlist {
        relays: vec![],
        switches: vec![
            Switch {
                state: "SW1.A".to_string(),
                l: "V+".to_string(),
                r: "N1".to_string(),
            },
        ],
    };
    let spec = compile(&netlist);
    let mut circuit = spec.build();
    circuit.set_state("NOPE", true);
    circuit.simulate();
    // the unknown name changed nothing: SW1.A is still open
    assert_eq!(Some(false), circuit.get_net("N1"));
    assert_eq!(Some(false), circuit.get_state("SW1.A"));
    circuit.set_state("SW1.A", true);
    circuit.simulate();
    assert_eq!(Some(true), circuit.get_net("N1"));
}

#[test]
fn test_relay_actuation_delay() {
    // a relay whose coil is driven directly by an external switch
    let netlist = Netlist {
        relays: vec![
            Relay {
                coil: "N1".to_string(),
                a: "R1.A".to_string(),
                b: "R1.B".to_string(),
            },
        ],
        switches: vec![
            Switch {
                state: "SW1.A".to_string(),
                l: "V+".to_string(),
                r: "N1".to_string(),
            },
        ],
    };
    let spec = compile(&netlist);
    let mut circuit = spec.build();
    // settled low: b conducts, a does not
    assert_eq!(Some(false), circuit.get_state("R1.A"));
    assert_eq!(Some(true), circuit.get_state("R1.B"));
    circuit.simulate();
    assert_eq!(Some(false), circuit.get_state("R1.A"));
    assert_eq!(Some(true), circuit.get_state("R1.B"));
    // the coil changes on this tick: both contacts drop out
    circuit.set_state("SW1.A", true);
    circuit.simulate();
    assert_eq!(Some(true), circuit.get_net("N1"));
    assert_eq!(Some(false), circuit.get_state("R1.A"));
    assert_eq!(Some(false), circuit.get_state("R1.B"));
    // next tick: settled high, only the matching contact conducts
    circuit.simulate();
    assert_eq!(Some(true), circuit.get_state("R1.A"));
    assert_eq!(Some(false), circuit.get_state("R1.B"));
    // and it stays that way while the coil holds
    circuit.simulate();
    assert_eq!(Some(true), circuit.get_state("R1.A"));
    assert_eq!(Some(false), circuit.get_state("R1.B"));
}

#[test]
fn test_simulate_idempotent_without_relays() {
    let netlist = Netlist {
        relays: vec![],
        switches: vec![
            Switch {
                state: "SW1.A".to_string(),
                l: "V+".to_string(),
                r: "N2".to_string(),
            },
            Switch {
                state: "SW2.A".to_string(),
                l: "N2".to_string(),
                r: "N3".to_string(),
            },
        ],
    };
    let spec = compile(&netlist);
    let mut circuit = spec.build();
    circuit.set_state("SW1.A", true);
    circuit.simulate();
    let first = (circuit.get_net("V+"), circuit.get_net("N2"), circuit.get_net("N3"));
    circuit.simulate();
    let second = (circuit.get_net("V+"), circuit.get_net("N2"), circuit.get_net("N3"));
    assert_eq!(first, second);
    assert_eq!((Some(true), Some(true), Some(false)), second);
}

#[test]
fn test_simulate_idempotent_with_settled_relay() {
    // the relay's coil is not fed back, so it settles and stays settled
    let netlist = Netlist {
        relays: vec![
            Relay {
                coil: "N1".to_string(),
                a: "R1.A".to_string(),
                b: "R1.B".to_string(),
            },
        ],
        switches: vec![
            Switch {
                state: "SW1.A".to_string(),
                l: "V+".to_string(),
                r: "N1".to_string(),
            },
            Switch {
                state: "R1.A".to_string(),
                l: "V+".to_string(),
                r: "N2".to_string(),
            },
        ],
    };
    let spec = compile(&netlist);
    let mut circuit = spec.build();
    circuit.set_state("SW1.A", true);
    circuit.simulate();
    circuit.simulate();
    circuit.simulate();
    // settled now: N1 high, relay high, N2 powered through contact a
    let first = (circuit.get_net("N1"), circuit.get_net("N2"), circuit.get_state("R1.A"));
    circuit.simulate();
    let second = (circuit.get_net("N1"), circuit.get_net("N2"), circuit.get_state("R1.A"));
    assert_eq!(first, second);
    assert_eq!((Some(true), Some(true), Some(true)), second);
}

#[test]
fn test_duplicate_switch_entries() {
    // the same edge triple twice compiles to a single stored connection
    let sw = |state: &str, l: &str, r: &str| Switch {
        state: state.to_string(),
        l: l.to_string(),
        r: r.to_string(),
    };
    let netlist = Netlist {
        relays: vec![],
        switches: vec![
            sw("SW1.A", "V+", "N2"),
            sw("SW1.A", "V+", "N2"),
            sw("SW2.A", "V+", "N2"),
        ],
    };
    let spec = compile(&netlist);
    let mut circuit = spec.build();
    circuit.simulate();
    assert_eq!(Some(false), circuit.get_net("N2"));
    circuit.set_state("SW1.A", true);
    circuit.simulate();
    assert_eq!(Some(true), circuit.get_net("N2"));
    circuit.set_state("SW1.A", false);
    circuit.set_state("SW2.A", true);
    circuit.simulate();
    // a distinct switch over the same net pair is its own connection
    assert_eq!(Some(true), circuit.get_net("N2"));
    circuit.set_state("SW2.A", false);
    circuit.simulate();
    assert_eq!(Some(false), circuit.get_net("N2"));
}
