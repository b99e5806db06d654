use tempmon::client_id::compose_client_id;
use tempmon::client_id::generate_client_id;
use tempmon::config::Config;
use tempmon::events::handle_event;
use tempmon::events::ConnAction;
use tempmon::events::ConnEvent;
use tempmon::events::ConnState;

#[test]
fn compose_id_joins_prefix_host_and_suffix() {
    assert_eq!(compose_client_id("myhost", "ab1De"), "sysmon_myhost_ab1De");
}

#[test]
fn generated_id_has_prefix_and_random_suffix() {
    let id = generate_client_id().expect("host name should be valid Unicode");
    assert!(id.starts_with("sysmon_"));
    let chars: Vec<char> = id.chars().collect();
    let n = chars.len();
    assert!(n >= "sysmon_".len() + 6);
    assert_eq!(chars[n - 6], '_');
    for k in 1..6 {
        assert!(chars[n - k].is_ascii_alphanumeric());
    }
}

#[test]
fn generated_ids_differ_in_their_suffix() {
    let first = generate_client_id().expect("host name should be valid Unicode");
    let mut saw_other = false;
    for _ in 0..64 {
        let next = generate_client_id().expect("host name should be valid Unicode");
        if next != first {
            saw_other = true;
        }
    }
    assert!(saw_other);
}

#[test]
fn running_connection_surfaces_messages() {
    let payload = vec![104u8, 105u8];
    let (state, action) = handle_event(ConnState::Running, ConnEvent::Message(payload.clone()));
    assert_eq!(state, ConnState::Running);
    match action {
        ConnAction::Emit(p) => assert_eq!(p, payload),
        _ => panic!("a message should be surfaced"),
    }
}

#[test]
fn running_connection_ignores_other_events() {
    let (state, action) = handle_event(ConnState::Running, ConnEvent::Other);
    assert_eq!(state, ConnState::Running);
    assert!(matches!(action, ConnAction::Ignore));
}

#[test]
fn failure_stops_the_connection_for_good() {
    let (state, action) = handle_event(ConnState::Running, ConnEvent::Failure);
    assert_eq!(state, ConnState::Stopped);
    assert!(matches!(action, ConnAction::Stop));
    let (state, action) = handle_event(ConnState::Stopped, ConnEvent::Other);
    assert_eq!(state, ConnState::Stopped);
    assert!(matches!(action, ConnAction::Stop));
}

#[test]
fn keep_alive_equals_publish_interval() {
    let cfg = Config {
        file: String::from("/sys/class/thermal/thermal_zone0/temp"),
        address: String::from("localhost"),
        port: 1883,
        username: String::from("user"),
        password: String::from("pw"),
        topic: String::from("sensors/temperature"),
        verbose: false,
        interval_secs: 5,
        retain: false,
    };
    assert_eq!(cfg.keep_alive_secs(), 5);
}
