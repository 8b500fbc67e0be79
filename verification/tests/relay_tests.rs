use agent_hub::json::{from_text, to_text, obj_get, Json};
use agent_hub::registry::PromptState;
use agent_hub::relay::{get_agent_messages, get_recent_agent_messages, Action, Hub};
use agent_hub::sandbox::Container;

fn chars(s: &str) -> Vec<char> {
    s.chars().collect()
}

fn text_of(v: &Vec<char>) -> String {
    v.iter().collect()
}

fn record(agent: &str, vnc: u16, bridge: u16, system_prompt: &str) -> Container {
    Container {
        id: format!("cid-{agent}"),
        vnc_port: vnc,
        bridge_port: bridge,
        number: 1,
        agent_type: "desktop".to_string(),
        agent_name: agent.to_string(),
        message_ids: vec![],
        agent_id: agent.to_string(),
        system_prompt: system_prompt.to_string(),
    }
}

/// A hub with sandbox `a1`, its agent connected on handle 7 (via
/// connection 7), and the console on handle 1.
fn hub_with_agent() -> Hub {
    let mut hub = Hub::new();
    hub.sandboxes.add(record("a1", 5900, 6080, "be nice")).unwrap();
    let none = hub.handle_frame(
        1,
        &chars("{\"message-type\":\"init\",\"connection-type\":\"client\"}"),
    );
    assert!(none.is_empty());
    let acts = hub.handle_frame(
        7,
        &chars(
            "{\"message-type\":\"init\",\"connection-type\":\"agent\",\"container_id\":\"a1\"}",
        ),
    );
    // the agent init is forwarded to the console
    assert_eq!(acts.len(), 1);
    match &acts[0] {
        Action::SendToClient(h, t) => {
            assert_eq!(*h, 1);
            assert!(text_of(t).contains("\"container_id\":\"a1\""));
        },
        _ => panic!("expected a console forward"),
    }
    hub
}

fn member<'a>(v: &'a Json, key: &str) -> Option<&'a Json> {
    match v {
        Json::Obj(fields) => obj_get(fields, key),
        _ => None,
    }
}

/// Reassembles the payload an agent receives from its chunk frames.
fn reassemble(acts: &[Action], agent_handle: u64) -> Json {
    let mut data = String::new();
    let mut expected_index: i64 = 0;
    let mut total: Option<i64> = None;
    for a in acts {
        if let Action::SendToAgent(h, t) = a {
            assert_eq!(*h, agent_handle);
            let env = from_text(t).expect("chunk frame is JSON");
            match member(&env, "chunk") {
                Some(Json::Num(i)) => {
                    assert_eq!(*i, expected_index, "chunks arrive in index order");
                    expected_index += 1;
                },
                _ => panic!("chunk frame without an index"),
            }
            match member(&env, "total_chunks") {
                Some(Json::Num(n)) => total = Some(*n),
                _ => panic!("chunk frame without a total"),
            }
            match member(&env, "data") {
                Some(Json::Str(s)) => data.push_str(s),
                _ => panic!("chunk frame without data"),
            }
        }
    }
    assert_eq!(total, Some(expected_index), "total_chunks is the number of chunks");
    from_text(&chars(&data)).expect("reassembled payload is JSON")
}

#[test]
fn prompt_without_history_carries_empty_recent_messages() {
    let mut hub = hub_with_agent();
    let acts = hub.handle_frame(
        1,
        &chars("{\"message-type\":\"prompt\",\"agent_id\":\"a1\",\"text\":\"hi\"}"),
    );
    let payload = reassemble(&acts, 7);
    assert_eq!(member(&payload, "recent-messages"), Some(&Json::Arr(vec![])));
    assert_eq!(
        member(&payload, "additional_system_prompt"),
        Some(&Json::Str("be nice".to_string()))
    );
    assert_eq!(member(&payload, "text"), Some(&Json::Str("hi".to_string())));
    assert!(member(&payload, "message_id").is_some());
    // the prompt runs now
    assert_eq!(hub.registry.get_agent("a1").unwrap().1, PromptState::Running);
    // and the stored copy went to the console and to disk
    assert!(acts.iter().any(|a| matches!(a, Action::SendToClient(1, _))));
    assert!(acts.iter().any(|a| matches!(a, Action::PersistMessages(_))));
    assert!(acts.iter().any(|a| matches!(a, Action::PersistSandboxes(_))));
}

#[test]
fn disconnect_while_running_tells_the_console_and_keeps_the_entry() {
    let mut hub = hub_with_agent();
    hub.registry.set_prompt_running("a1", PromptState::Running);
    let acts = hub.handle_disconnect(7);
    assert_eq!(acts.len(), 1);
    match &acts[0] {
        Action::SendToClient(h, t) => {
            assert_eq!(*h, 1);
            assert_eq!(text_of(t), "{\"agent_id\":\"a1\",\"prompt_running\":\"na\"}");
        },
        _ => panic!("expected a console status update"),
    }
    // the stale connection object is still returned, not None
    assert_eq!(hub.registry.get_agent("a1"), Some((7, PromptState::Na)));
}

#[test]
fn agent_payloads_are_tagged_stored_and_forwarded() {
    let mut hub = hub_with_agent();
    let msg = from_text(&chars("{\"agent-message\":\"done\",\"prompt_running\":\"stopped\"}"))
        .unwrap();
    let acts = hub.handle_agent_message(7, msg, "mid-1".to_string());
    assert_eq!(hub.registry.get_agent("a1").unwrap().1, PromptState::Stopped);
    assert_eq!(hub.store.len(), 1);
    let stored = hub.store.get("mid-1").expect("payload stored under its id");
    assert_eq!(member(stored, "agent_id"), Some(&Json::Str("a1".to_string())));
    assert_eq!(member(stored, "message_id"), Some(&Json::Str("mid-1".to_string())));
    assert_eq!(
        hub.sandboxes.get_agent_container("a1").unwrap().message_ids,
        vec!["mid-1".to_string()]
    );
    match &acts[0] {
        Action::SendToClient(1, t) => {
            let fwd = from_text(t).unwrap();
            assert_eq!(member(&fwd, "agent-message"), Some(&Json::Str("done".to_string())));
        },
        _ => panic!("expected a console forward first"),
    }
    assert!(matches!(&acts[1], Action::PersistMessages(_)));
    assert!(matches!(&acts[2], Action::PersistSandboxes(_)));
}

#[test]
fn frames_from_unregistered_connections_are_dropped() {
    let mut hub = hub_with_agent();
    let msg = from_text(&chars("{\"agent-message\":\"x\"}")).unwrap();
    let acts = hub.handle_agent_message(99, msg, "mid-1".to_string());
    assert!(acts.is_empty());
    assert_eq!(hub.store.len(), 0);
}

#[test]
fn malformed_and_unknown_frames_are_dropped() {
    let mut hub = hub_with_agent();
    for frame in [
        "not json at all",
        "{\"no-type\":1}",
        "{\"message-type\":\"dance\"}",
        "{\"message-type\":\"prompt\"}",
        "[1,2,3]",
    ] {
        let acts = hub.handle_frame(1, &chars(frame));
        assert!(acts.is_empty(), "frame was not dropped: {frame}");
    }
    assert_eq!(hub.store.len(), 0);
}

#[test]
fn stop_frames_skip_history_but_reach_the_agent() {
    let mut hub = hub_with_agent();
    let acts = hub.handle_frame(
        1,
        &chars("{\"message-type\":\"stop\",\"agent_id\":\"a1\"}"),
    );
    let payload = reassemble(&acts, 7);
    assert!(member(&payload, "recent-messages").is_none());
    assert!(member(&payload, "additional_system_prompt").is_none());
    assert!(member(&payload, "message_id").is_some());
}

#[test]
fn long_prompts_arrive_in_order_and_reassemble_exactly() {
    let mut hub = hub_with_agent();
    // force several chunks, with multi-byte characters in the text
    let mut big = String::new();
    for _ in 0..600 {
        big.push_str("ab\u{e9}\u{1f680}");
    }
    let frame = format!(
        "{{\"message-type\":\"prompt\",\"agent_id\":\"a1\",\"text\":\"{big}\"}}"
    );
    let acts = hub.handle_frame(1, &chars(&frame));
    let sends = acts.iter().filter(|a| matches!(a, Action::SendToAgent(_, _))).count();
    assert!(sends >= 3, "expected several chunks, got {sends}");
    let payload = reassemble(&acts, 7);
    assert_eq!(member(&payload, "text"), Some(&Json::Str(big)));
}

#[test]
fn recent_messages_are_filtered_ordered_and_capped() {
    let mut hub = hub_with_agent();
    for i in 0..8 {
        let body = if i % 2 == 0 {
            format!("{{\"agent-message\":\"m{i}\"}}")
        } else {
            format!("{{\"status\":\"s{i}\"}}")
        };
        let msg = from_text(&chars(&body)).unwrap();
        hub.handle_agent_message(7, msg, format!("mid-{i}"));
    }
    // of eight stored messages, the four even ones carry agent-message
    let recent = get_recent_agent_messages(&hub.sandboxes, &hub.store, "a1", 5);
    assert_eq!(recent.len(), 4);
    for (k, i) in [0usize, 2, 4, 6].iter().enumerate() {
        assert_eq!(
            member(&recent[k], "agent-message"),
            Some(&Json::Str(format!("m{i}"))),
            "chronological order"
        );
    }
    // a smaller window keeps only the most recent ones
    let capped = get_recent_agent_messages(&hub.sandboxes, &hub.store, "a1", 2);
    assert_eq!(capped.len(), 2);
    assert_eq!(member(&capped[0], "agent-message"), Some(&Json::Str("m4".to_string())));
    assert_eq!(member(&capped[1], "agent-message"), Some(&Json::Str("m6".to_string())));
}

#[test]
fn full_history_replays_every_stored_message() {
    let mut hub = hub_with_agent();
    for i in 0..3 {
        let msg = from_text(&chars(&format!("{{\"n\":{i}}}"))).unwrap();
        hub.handle_agent_message(7, msg, format!("mid-{i}"));
    }
    let all = get_agent_messages(&hub.sandboxes, &hub.store, "a1");
    assert_eq!(all.len(), 3);
    for (k, m) in all.iter().enumerate() {
        assert_eq!(member(m, "n"), Some(&Json::Num(k as i64)));
        assert_eq!(member(m, "message_id"), Some(&Json::Str(format!("mid-{k}"))));
    }
    assert!(get_agent_messages(&hub.sandboxes, &hub.store, "a9").is_empty());
}

#[test]
fn prompts_for_unconnected_agents_are_still_stored() {
    let mut hub = Hub::new();
    hub.sandboxes.add(record("a1", 5900, 6080, "sp")).unwrap();
    let none = hub.handle_frame(
        1,
        &chars("{\"message-type\":\"init\",\"connection-type\":\"client\"}"),
    );
    assert!(none.is_empty());
    let acts = hub.handle_frame(
        1,
        &chars("{\"message-type\":\"prompt\",\"agent_id\":\"a1\",\"text\":\"hi\"}"),
    );
    assert!(!acts.iter().any(|a| matches!(a, Action::SendToAgent(_, _))));
    assert!(acts.iter().any(|a| matches!(a, Action::SendToClient(1, _))));
    assert_eq!(hub.store.len(), 1);
}

#[test]
fn attachments_are_stripped_before_storage_but_sent_to_the_agent() {
    let mut hub = hub_with_agent();
    let acts = hub.handle_frame(
        1,
        &chars(
            "{\"message-type\":\"prompt\",\"agent_id\":\"a1\",\"text\":\"hi\",\"files\":[\"blob\"]}",
        ),
    );
    let payload = reassemble(&acts, 7);
    assert_eq!(
        member(&payload, "files"),
        Some(&Json::Arr(vec![Json::Str("blob".to_string())])),
        "the agent still gets the attachment"
    );
    // the stored and forwarded copy has no files member
    for a in &acts {
        if let Action::SendToClient(_, t) = a {
            let fwd = from_text(t).unwrap();
            assert!(member(&fwd, "files").is_none());
            assert!(member(&fwd, "message_id").is_some());
        }
    }
}
