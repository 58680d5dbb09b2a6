use sync_service::lossy::LossySlot;
use sync_service::lossy::Notification;
use sync_service::lossy::NotificationHub;

fn notif(number: u64, byte: u8) -> Notification {
    Notification { number, scale_encoded_header: vec![byte] }
}

#[test]
fn an_unread_value_is_overwritten() {
    let mut slot = LossySlot::new();
    slot.send(notif(1, 10));
    slot.send(notif(2, 20));
    let got = slot.take().expect("a value is pending");
    assert_eq!(got.number, 2);
    assert_eq!(got.scale_encoded_header, vec![20]);
    assert!(slot.take().is_none());
}

#[test]
fn a_read_value_is_not_repeated() {
    let mut slot = LossySlot::new();
    slot.send(notif(1, 10));
    assert_eq!(slot.take().expect("pending").number, 1);
    assert!(slot.take().is_none());
    slot.send(notif(2, 20));
    assert_eq!(slot.take().expect("pending").number, 2);
}

#[test]
fn every_subscriber_gets_the_broadcast() {
    let mut hub = NotificationHub::new();
    let a = hub.subscribe();
    let b = hub.subscribe();
    assert_eq!((a, b), (0, 1));
    hub.broadcast(&notif(5, 50));
    assert_eq!(hub.take(a).expect("pending").number, 5);
    assert_eq!(hub.take(b).expect("pending").number, 5);
    assert!(hub.take(a).is_none());
}

#[test]
fn a_slow_subscriber_sees_only_the_newest_value() {
    let mut hub = NotificationHub::new();
    let a = hub.subscribe();
    hub.broadcast(&notif(6, 60));
    hub.broadcast(&notif(7, 70));
    hub.broadcast(&notif(8, 80));
    let got = hub.take(a).expect("pending");
    assert_eq!(got.number, 8);
    assert_eq!(got.scale_encoded_header, vec![80]);
    assert!(hub.take(a).is_none());
}

#[test]
fn a_prompt_subscriber_sees_numbers_in_order() {
    let mut hub = NotificationHub::new();
    let a = hub.subscribe();
    let mut received: Vec<u64> = Vec::new();
    for n in 101..=110u64 {
        hub.broadcast(&notif(n, n as u8));
        if let Some(got) = hub.take(a) {
            received.push(got.number);
        }
    }
    assert_eq!(received, (101..=110).collect::<Vec<u64>>());
}

#[test]
fn a_late_subscriber_starts_empty() {
    let mut hub = NotificationHub::new();
    let a = hub.subscribe();
    hub.broadcast(&notif(5, 50));
    let b = hub.subscribe();
    assert!(hub.take(b).is_none());
    assert_eq!(hub.take(a).expect("pending").number, 5);
    hub.broadcast(&notif(6, 60));
    assert_eq!(hub.take(b).expect("pending").number, 6);
}
