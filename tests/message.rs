use fsm_runtime::message::StateMachineMessage;

#[test]
fn message_test() {
    let message = StateMachineMessage::new("test".to_string(), 1);
    assert_eq!(message.state_machine_id(), "test");
    assert_eq!(message.unwrap(), 1);
}

#[test]
fn message_keeps_an_empty_id_and_a_string_payload() {
    let message = StateMachineMessage::new(String::new(), "payload".to_string());
    assert_eq!(message.state_machine_id(), "");
    assert_eq!(message.unwrap(), "payload".to_string());
}
