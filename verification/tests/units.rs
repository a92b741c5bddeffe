use relaysim::compiler::{NRef, NetMap, SRef, StateMap};
use relaysim::graph::Graph;
use relaysim::relay::Spec;

#[test]
fn test_state_map_first_seen_order() {
    let mut smap = StateMap::default();
    assert_eq!(0, smap.by_name("SW1.A").idx());
    assert_eq!(1, smap.by_name("SW2.A").idx());
    // a repeated name keeps its first index
    assert_eq!(0, smap.by_name("SW1.A").idx());
    assert_eq!(2, smap.by_name("SW3.A").idx());
    assert_eq!(Some(1), smap.lookup("SW2.A").map(|r| r.idx()));
    assert!(smap.lookup("SW4.A").is_none());
}

#[test]
fn test_net_map_reserves_power_rail() {
    let mut nmap = NetMap::default();
    // the power rail is pre-recorded at index 0
    assert_eq!(0, nmap.by_name("V+").idx());
    assert_eq!(1, nmap.by_name("N1").idx());
    assert_eq!(1, nmap.by_name("N1").idx());
    assert_eq!(Some(0), nmap.lookup("V+").map(|r| r.idx()));
    assert!(nmap.lookup("N9").is_none());
}

#[test]
fn test_sref_read_write() {
    let mut state = vec![false, false, false];
    let s = SRef::new(1);
    assert_eq!(1, s.idx());
    assert!(!s.get(&state));
    s.set(&mut state, true);
    assert!(s.get(&state));
    assert_eq!(vec![false, true, false], state);
    let n = NRef::new(2);
    assert_eq!(2, n.idx());
    let net = vec![false, false, true];
    assert!(n.get(&net));
}

#[test]
fn test_graph_flood_fill_cycle() {
    // ring 0-1-2-3-0, all gated by switch 0, plus 4 off on its own
    let mut g = Graph::new(5);
    g.add_edge(0, 1, SRef::new(0));
    g.add_edge(1, 2, SRef::new(0));
    g.add_edge(2, 3, SRef::new(0));
    g.add_edge(3, 0, SRef::new(0));
    let open_state = vec![false];
    let mut net = vec![false; 5];
    g.update(&open_state, &mut net, 0);
    // with the switch open only the start is marked
    assert_eq!(vec![true, false, false, false, false], net);
    let closed_state = vec![true];
    let mut net = vec![false; 5];
    g.update(&closed_state, &mut net, 0);
    // the cycle terminates and marks exactly the reachable ring
    assert_eq!(vec![true, true, true, true, false], net);
}

#[test]
fn test_graph_unreached_nets_stay_false() {
    let mut g = Graph::new(4);
    g.add_edge(0, 1, SRef::new(0));
    g.add_edge(2, 3, SRef::new(1));
    let state = vec![true, true];
    let mut net = vec![false; 4];
    g.update(&state, &mut net, 0);
    // 2 and 3 conduct between themselves but never see power
    assert_eq!(vec![true, true, false, false], net);
}

#[test]
fn test_graph_duplicate_edge_ignored() {
    let mut g = Graph::new(2);
    g.add_edge(0, 1, SRef::new(0));
    g.add_edge(0, 1, SRef::new(0));
    g.add_edge(1, 0, SRef::new(0));
    let state = vec![true];
    let mut net = vec![false; 2];
    g.update(&state, &mut net, 0);
    assert_eq!(vec![true, true], net);
    // a different controlling switch over the same pair is kept distinct
    g.add_edge(0, 1, SRef::new(1));
    let state = vec![false, true];
    let mut net = vec![false; 2];
    g.update(&state, &mut net, 0);
    assert_eq!(vec![true, true], net);
}

#[test]
fn test_relay_state_machine() {
    let spec = Spec { coil: NRef::new(0), a: SRef::new(0), b: SRef::new(1) };
    let mut relay = spec.build();
    let mut state = vec![false, false];
    // coil low, settled low: b alone conducts
    relay.update(&mut state, &vec![false]);
    assert_eq!(vec![false, true], state);
    // coil rises: transitional tick, both contacts open
    relay.update(&mut state, &vec![true]);
    assert_eq!(vec![false, false], state);
    // coil still high: settles high, a alone conducts
    relay.update(&mut state, &vec![true]);
    assert_eq!(vec![true, false], state);
    // unchanged coil: stable
    relay.update(&mut state, &vec![true]);
    assert_eq!(vec![true, false], state);
    // coil drops: transitional tick again
    relay.update(&mut state, &vec![false]);
    assert_eq!(vec![false, false], state);
    relay.update(&mut state, &vec![false]);
    assert_eq!(vec![false, true], state);
}

#[test]
fn test_relay_contact_drives() {
    let spec = Spec { coil: NRef::new(0), a: SRef::new(0), b: SRef::new(1) };
    let relay = spec.build();
    // fresh runtime: settled low
    assert!(!relay.a());
    assert!(relay.b());
}
