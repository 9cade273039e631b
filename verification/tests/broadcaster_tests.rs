use line_relay::broadcaster::{plan_broadcast, prune_failed};
use line_relay::registry::Registry;

fn three_client_registry() -> Registry<String> {
    let mut reg: Registry<String> = Registry::new();
    reg.register(1, String::from("sink-1"));
    reg.register(2, String::from("sink-2"));
    reg.register(3, String::from("sink-3"));
    reg
}

#[test]
fn plan_reaches_every_other_client_once() {
    let reg = three_client_registry();
    let plan = plan_broadcast(&reg, 1, "hello");
    assert_eq!(plan.message, "MESSAGE:1 hello\n");
    assert_eq!(plan.ack, "ACK:MESSAGE\n");
    let mut recipients = plan.recipients.clone();
    recipients.sort();
    assert_eq!(recipients, vec![2, 3]);
}

#[test]
fn plan_never_echoes_to_the_sender() {
    let reg = three_client_registry();
    let plan = plan_broadcast(&reg, 2, "ping");
    assert!(!plan.recipients.contains(&2));
    assert_eq!(plan.recipients.iter().filter(|&&id| id == 1).count(), 1);
    assert_eq!(plan.recipients.iter().filter(|&&id| id == 3).count(), 1);
}

#[test]
fn lone_sender_still_gets_the_acknowledgement() {
    let mut reg: Registry<String> = Registry::new();
    reg.register(1, String::from("sink-1"));
    let plan = plan_broadcast(&reg, 1, "ping");
    assert_eq!(plan.recipients, Vec::<u16>::new());
    assert_eq!(plan.ack, "ACK:MESSAGE\n");
}

#[test]
fn empty_line_is_still_broadcast() {
    let reg = three_client_registry();
    let plan = plan_broadcast(&reg, 1, "");
    assert_eq!(plan.message, "MESSAGE:1 \n");
    assert_eq!(plan.ack, "ACK:MESSAGE\n");
}

#[test]
fn pruning_a_broken_recipient_spares_the_rest() {
    let mut reg = three_client_registry();
    prune_failed(&mut reg, &vec![2]);
    assert!(!reg.contains(2));
    assert!(reg.contains(1));
    assert!(reg.contains(3));
    let plan = plan_broadcast(&reg, 3, "still here");
    assert_eq!(plan.recipients, vec![1]);
    assert_eq!(plan.ack, "ACK:MESSAGE\n");
    assert_eq!(reg.take(1), Some(String::from("sink-1")));
}

#[test]
fn pruning_nothing_changes_nothing() {
    let mut reg = three_client_registry();
    prune_failed(&mut reg, &Vec::new());
    assert!(reg.contains(1));
    assert!(reg.contains(2));
    assert!(reg.contains(3));
}

#[test]
fn pruning_several_failures_at_once() {
    let mut reg = three_client_registry();
    prune_failed(&mut reg, &vec![1, 3]);
    assert!(!reg.contains(1));
    assert!(reg.contains(2));
    assert!(!reg.contains(3));
    assert_eq!(reg.take(2), Some(String::from("sink-2")));
}

#[test]
fn pruning_an_absent_id_is_harmless() {
    let mut reg = three_client_registry();
    prune_failed(&mut reg, &vec![42, 2, 42]);
    assert!(reg.contains(1));
    assert!(!reg.contains(2));
    assert!(reg.contains(3));
}
