use line_relay::registry::Registry;

#[test]
fn new_registry_is_empty() {
    let reg: Registry<String> = Registry::new();
    assert!(!reg.contains(1));
    assert_eq!(reg.other_ids(1), Vec::<u16>::new());
}

#[test]
fn register_then_contains() {
    let mut reg: Registry<String> = Registry::new();
    reg.register(10, String::from("sink-10"));
    assert!(reg.contains(10));
    assert!(!reg.contains(11));
}

#[test]
fn take_returns_the_sink() {
    let mut reg: Registry<String> = Registry::new();
    reg.register(10, String::from("sink-10"));
    reg.register(20, String::from("sink-20"));
    assert_eq!(reg.take(10), Some(String::from("sink-10")));
    assert!(!reg.contains(10));
    assert!(reg.contains(20));
    assert_eq!(reg.take(10), None);
}

#[test]
fn remove_absent_id_is_a_no_op() {
    let mut reg: Registry<String> = Registry::new();
    reg.register(1, String::from("a"));
    reg.register(2, String::from("b"));
    reg.remove(5);
    reg.remove(5);
    reg.remove(5);
    assert!(reg.contains(1));
    assert!(reg.contains(2));
    assert_eq!(reg.take(1), Some(String::from("a")));
    assert_eq!(reg.take(2), Some(String::from("b")));
}

#[test]
fn remove_is_idempotent_after_a_real_removal() {
    let mut reg: Registry<String> = Registry::new();
    reg.register(1, String::from("a"));
    reg.register(2, String::from("b"));
    reg.remove(1);
    reg.remove(1);
    assert!(!reg.contains(1));
    assert!(reg.contains(2));
    assert_eq!(reg.take(2), Some(String::from("b")));
}

#[test]
fn register_same_id_supersedes() {
    let mut reg: Registry<String> = Registry::new();
    reg.register(4321, String::from("first connection"));
    reg.register(4321, String::from("second connection"));
    assert!(reg.contains(4321));
    let mut others = reg.other_ids(9);
    others.sort();
    assert_eq!(others, vec![4321]);
    assert_eq!(reg.take(4321), Some(String::from("second connection")));
    assert_eq!(reg.take(4321), None);
}

#[test]
fn other_ids_excludes_the_sender() {
    let mut reg: Registry<String> = Registry::new();
    reg.register(1, String::from("a"));
    reg.register(2, String::from("b"));
    reg.register(3, String::from("c"));
    let mut others = reg.other_ids(1);
    others.sort();
    assert_eq!(others, vec![2, 3]);
}

#[test]
fn other_ids_of_unregistered_sender_lists_everyone() {
    let mut reg: Registry<String> = Registry::new();
    reg.register(1, String::from("a"));
    reg.register(2, String::from("b"));
    let mut others = reg.other_ids(7);
    others.sort();
    assert_eq!(others, vec![1, 2]);
}
