use agent_hub::json::{from_text, Json};
use agent_hub::sandbox::{clone_container, container_name_for, container_of_json,
    container_to_json, containers_from_document, containers_to_document, machine_needs_start,
    sandbox_list_from_records, Container, SandboxList};

fn record(agent: &str, vnc: u16, bridge: u16) -> Container {
    Container {
        id: format!("cid-{agent}"),
        vnc_port: vnc,
        bridge_port: bridge,
        number: 1,
        agent_type: "desktop".to_string(),
        agent_name: format!("Agent {agent}"),
        message_ids: vec!["m1".to_string(), "m2".to_string()],
        agent_id: agent.to_string(),
        system_prompt: "be nice".to_string(),
    }
}

fn same(a: &Container, b: &Container) -> bool {
    a.id == b.id && a.vnc_port == b.vnc_port && a.bridge_port == b.bridge_port && a.number
        == b.number && a.agent_type == b.agent_type && a.agent_name == b.agent_name
        && a.message_ids == b.message_ids && a.agent_id == b.agent_id && a.system_prompt
        == b.system_prompt
}

#[test]
fn adding_a_record_guards_both_ports() {
    let mut list = SandboxList::new();
    assert!(list.add(record("a1", 5900, 6080)).is_ok());
    assert_eq!(
        list.add(record("a2", 5900, 6081)).expect_err("vnc port is taken"),
        "port already assigned to a sandbox"
    );
    assert!(list.add(record("a2", 5901, 6080)).is_err());
    assert!(list.add(record("a2", 6080, 6180)).is_err());
    assert!(list.add(record("a2", 5901, 6081)).is_ok());
    assert_eq!(list.items.len(), 2);
}

#[test]
fn lookup_finds_the_first_record() {
    let mut list = SandboxList::new();
    list.add(record("a1", 5900, 6080)).unwrap();
    list.add(record("a2", 5901, 6081)).unwrap();
    assert!(list.get_agent_container("a3").is_none());
    let c = list.get_agent_container("a2").expect("known agent");
    assert_eq!(c.vnc_port, 5901);
}

#[test]
fn record_updates_keep_everything_else() {
    let mut list = SandboxList::new();
    list.add(record("a1", 5900, 6080)).unwrap();
    assert!(list.update_system_prompt("a1", "new prompt".to_string()).is_ok());
    assert_eq!(
        list.update_system_prompt("a9", "x".to_string()).expect_err("unknown agent"),
        "Container not found"
    );
    let c = list.get_agent_container("a1").unwrap();
    assert_eq!(c.system_prompt, "new prompt");
    assert_eq!(c.message_ids, vec!["m1".to_string(), "m2".to_string()]);

    let mut list2 = SandboxList { items: list.items };
    assert!(list2.push_message_id("a1", "m3".to_string()));
    assert!(!list2.push_message_id("a9", "m4".to_string()));
    assert_eq!(
        list2.get_agent_container("a1").unwrap().message_ids,
        vec!["m1".to_string(), "m2".to_string(), "m3".to_string()]
    );
    list2.clear_message_ids();
    assert!(list2.get_agent_container("a1").unwrap().message_ids.is_empty());
}

#[test]
fn container_json_round_trip() {
    let c = record("a1", 5903, 6084);
    let j = container_to_json(&c);
    let back = container_of_json(&j).expect("own encoding parses");
    assert!(same(&c, &back));
}

#[test]
fn container_of_json_requires_every_member() {
    let c = record("a1", 5903, 6084);
    let j = container_to_json(&c);
    if let Json::Obj(mut fields) = j {
        fields.retain(|(k, _)| k != "vnc_port");
        assert!(container_of_json(&Json::Obj(fields)).is_none());
    } else {
        panic!("record must encode as an object");
    }
    assert!(container_of_json(&Json::Num(3)).is_none());
    let wrong_type = Json::Obj(vec![("id".to_string(), Json::Num(1))]);
    assert!(container_of_json(&wrong_type).is_none());
}

#[test]
fn sandbox_document_round_trip() {
    let mut list = SandboxList::new();
    list.add(record("a1", 5900, 6080)).unwrap();
    list.add(record("a2", 5901, 6081)).unwrap();
    let doc = containers_to_document(&list);
    let records = containers_from_document(&doc).expect("own document reloads");
    assert_eq!(records.len(), 2);
    assert!(same(&records[0], &list.items[0]));
    assert!(same(&records[1], &list.items[1]));
    let reloaded = sandbox_list_from_records(records).expect("no port conflicts");
    assert_eq!(containers_to_document(&reloaded), doc);
}

#[test]
fn conflicting_records_do_not_load_as_a_list() {
    let cs = vec![record("a1", 5900, 6080), record("a2", 5900, 6081)];
    assert!(sandbox_list_from_records(cs).is_err());
}

#[test]
fn bad_sandbox_documents_are_refused() {
    let not_an_array: Vec<char> = "{}".chars().collect();
    assert!(containers_from_document(&not_an_array).is_none());
    let wrong_records: Vec<char> = "[{\"id\":\"x\"}]".chars().collect();
    assert!(containers_from_document(&wrong_records).is_none());
}

#[test]
fn container_names_derive_from_agent_ids() {
    assert_eq!(container_name_for("a1"), "agent-a1");
    assert_eq!(container_name_for(""), "agent-");
}

#[test]
fn clone_container_copies_every_field() {
    let c = record("a1", 5900, 6080);
    let d = clone_container(&c);
    assert!(same(&c, &d));
}

#[test]
fn machine_start_decision_reads_the_report() {
    let running = from_text(&"[{\"State\":\"running\"}]".chars().collect::<Vec<char>>()).unwrap();
    assert!(!machine_needs_start(&running));
    let stopped = from_text(&"[{\"State\":\"stopped\"}]".chars().collect::<Vec<char>>()).unwrap();
    assert!(machine_needs_start(&stopped));
    let no_state = from_text(&"[{}]".chars().collect::<Vec<char>>()).unwrap();
    assert!(!machine_needs_start(&no_state));
    let empty = from_text(&"[]".chars().collect::<Vec<char>>()).unwrap();
    assert!(!machine_needs_start(&empty));
    assert!(!machine_needs_start(&Json::Null));
}
