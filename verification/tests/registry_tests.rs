use agent_hub::registry::{ConnectionRegistry, PromptState};

#[test]
fn most_recent_agent_registration_wins() {
    let mut reg = ConnectionRegistry::new();
    assert_eq!(reg.get_agent("a1"), None);
    reg.register_agent("a1".to_string(), 10, PromptState::Stopped);
    assert_eq!(reg.get_agent("a1"), Some((10, PromptState::Stopped)));
    reg.register_agent("a2".to_string(), 11, PromptState::Loading);
    reg.register_agent("a1".to_string(), 12, PromptState::Running);
    assert_eq!(reg.get_agent("a1"), Some((12, PromptState::Running)));
    assert_eq!(reg.get_agent("a2"), Some((11, PromptState::Loading)));
    assert_eq!(reg.get_agent("a3"), None);
}

#[test]
fn disconnect_keeps_the_stale_entry() {
    let mut reg = ConnectionRegistry::new();
    reg.register_agent("a1".to_string(), 10, PromptState::Running);
    let told = reg.mark_disconnected(10);
    assert_eq!(told, Some("a1".to_string()));
    // the entry survives with its old handle, only the state flips
    assert_eq!(reg.get_agent("a1"), Some((10, PromptState::Na)));
}

#[test]
fn disconnect_of_unknown_connection_changes_nothing() {
    let mut reg = ConnectionRegistry::new();
    reg.register_agent("a1".to_string(), 10, PromptState::Stopped);
    assert_eq!(reg.mark_disconnected(99), None);
    assert_eq!(reg.get_agent("a1"), Some((10, PromptState::Stopped)));
}

#[test]
fn stale_connection_can_still_mark_its_agent() {
    // the old connection's record is never evicted, so its late disconnect
    // still flips the (re-registered) agent's state
    let mut reg = ConnectionRegistry::new();
    reg.register_agent("a1".to_string(), 10, PromptState::Running);
    reg.register_agent("a1".to_string(), 20, PromptState::Running);
    assert_eq!(reg.mark_disconnected(10), Some("a1".to_string()));
    assert_eq!(reg.get_agent("a1"), Some((20, PromptState::Na)));
}

#[test]
fn last_client_registration_wins() {
    let mut reg = ConnectionRegistry::new();
    assert_eq!(reg.get_client(), None);
    reg.register_client(1);
    reg.register_client(2);
    assert_eq!(reg.get_client(), Some(2));
}

#[test]
fn set_prompt_running_touches_only_known_agents() {
    let mut reg = ConnectionRegistry::new();
    assert!(!reg.set_prompt_running("a1", PromptState::Running));
    reg.register_agent("a1".to_string(), 10, PromptState::Stopped);
    assert!(reg.set_prompt_running("a1", PromptState::Running));
    assert_eq!(reg.get_agent("a1"), Some((10, PromptState::Running)));
}
