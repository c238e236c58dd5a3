use fsm_runtime::message_channel::create_channel;

#[test]
fn it_sends_and_receives_a_message() {
    let (tx, rx) = create_channel::<u64>();

    tx.try_send(1).unwrap();
    assert_eq!(rx.try_receive().unwrap(), Some(1));
}

#[test]
fn it_handles_multiple_senders() {
    let (tx, rx) = create_channel::<u64>();

    let tx_1 = tx.clone();

    tx.try_send(1).unwrap();
    assert_eq!(rx.try_receive().unwrap(), Some(1));

    tx_1.try_send(2).unwrap();
    tx.try_send(3).unwrap();
    assert_eq!(rx.try_receive().unwrap(), Some(2));
    assert_eq!(rx.try_receive().unwrap(), Some(3));
}

#[test]
fn an_empty_channel_receives_nothing() {
    let (_tx, rx) = create_channel::<u64>();
    assert_eq!(rx.try_receive(), Ok(None));
    assert_eq!(rx.receive_all(), Vec::<u64>::new());
}

#[test]
fn receive_all_takes_everything_in_order() {
    let (tx, rx) = create_channel::<u64>();
    tx.try_send(4).unwrap();
    tx.try_send(5).unwrap();
    tx.try_send(6).unwrap();
    assert_eq!(rx.receive_all(), vec![4, 5, 6]);
    assert_eq!(rx.try_receive(), Ok(None));
}

#[test]
fn try_send_back_keeps_order_with_try_send() {
    let (tx, rx) = create_channel::<u64>();
    assert!(tx.try_send_back(7).is_ok());
    tx.try_send(8).unwrap();
    assert_eq!(rx.try_receive(), Ok(Some(7)));
    assert_eq!(rx.try_receive(), Ok(Some(8)));
}
