use agent_hub::ports::get_available_ports;
use agent_hub::sandbox::{Container, SandboxList};

fn record(agent: &str, vnc: u16, bridge: u16) -> Container {
    Container {
        id: agent.to_string(),
        vnc_port: vnc,
        bridge_port: bridge,
        number: 0,
        agent_type: "desktop".to_string(),
        agent_name: agent.to_string(),
        message_ids: vec![],
        agent_id: agent.to_string(),
        system_prompt: String::new(),
    }
}

#[test]
fn first_pair_of_each_band_when_everything_is_free() {
    let list = SandboxList::new();
    let ports = get_available_ports(&list, &vec![]).expect("bands are free");
    assert_eq!(ports, vec![5900, 6080]);
}

#[test]
fn probed_busy_ports_are_skipped() {
    let list = SandboxList::new();
    let busy = vec![5900, 5901, 6080];
    let ports = get_available_ports(&list, &busy).expect("later candidates are free");
    assert_eq!(ports, vec![5902, 6081]);
}

#[test]
fn assigned_ports_are_never_returned() {
    let mut list = SandboxList::new();
    list.add(record("a1", 5900, 6080)).unwrap();
    list.add(record("a2", 5901, 6081)).unwrap();
    let ports = get_available_ports(&list, &vec![]).expect("free pair exists");
    assert_eq!(ports, vec![5902, 6082]);
    for c in &list.items {
        assert!(ports[0] != c.vnc_port && ports[0] != c.bridge_port);
        assert!(ports[1] != c.vnc_port && ports[1] != c.bridge_port);
    }
}

#[test]
fn an_exhausted_band_is_an_error() {
    let list = SandboxList::new();
    let busy: Vec<u16> = (5900..6000).collect();
    let err = get_available_ports(&list, &busy).expect_err("no free pair");
    assert_eq!(err, "Not enough available ports");
}

#[test]
fn an_exhausted_bridge_band_is_also_an_error() {
    let list = SandboxList::new();
    let busy: Vec<u16> = (6080..6180).collect();
    let err = get_available_ports(&list, &busy).expect_err("no free pair");
    assert_eq!(err, "Not enough available ports");
}
