use keyboard_daemon::registry::{fresh_board_id, Registry};
use keyboard_daemon::BoardId;

fn key(s: &str) -> Vec<u8> {
    s.as_bytes().to_vec()
}

#[test]
fn starts_empty() {
    let r = Registry::new();
    assert_eq!(r.boards(), Vec::<BoardId>::new());
}

#[test]
fn register_and_find() {
    let mut r = Registry::new();
    assert!(r.register(BoardId(1), None));
    assert!(r.register(BoardId(2), Some(key("usb:1-2"))));
    assert_eq!(r.boards(), vec![BoardId(1), BoardId(2)]);
    assert_eq!(r.find(BoardId(2)), Some(1));
    assert_eq!(r.find(BoardId(3)), None);
    assert!(r.contains_key(&key("usb:1-2")));
    assert!(!r.contains_key(&key("usb:9-9")));
}

#[test]
fn duplicate_id_or_key_is_refused() {
    let mut r = Registry::new();
    assert!(r.register(BoardId(1), Some(key("usb:1-2"))));
    assert!(!r.register(BoardId(1), None));
    assert!(!r.register(BoardId(2), Some(key("usb:1-2"))));
    assert_eq!(r.boards().len(), 1);
}

#[test]
fn hotplug_lifecycle() {
    // An empty registry; a refresh with one matching device attached.
    let mut r = Registry::new();
    let first = fresh_board_id();
    r.refresh(&vec![], &vec![key("usb:1-2")], &vec![true], &vec![first]);
    assert_eq!(r.boards(), vec![first]);

    // Unplugged: the probe fails; a refresh evicts it.
    r.refresh(&vec![false], &vec![], &vec![], &vec![]);
    assert_eq!(r.boards().len(), 0);

    // Replugged: a brand-new board under a fresh identifier.
    let second = fresh_board_id();
    r.refresh(&vec![], &vec![key("usb:1-2")], &vec![true], &vec![second]);
    assert_eq!(r.boards(), vec![second]);
    assert_ne!(first, second);
}

#[test]
fn refresh_is_idempotent_without_physical_change() {
    let mut r = Registry::new();
    let id = fresh_board_id();
    assert!(r.register(BoardId(77), None)); // internal-bus board, no key
    r.refresh(&vec![true], &vec![key("usb:1-2")], &vec![true], &vec![id]);
    let once = r.boards();

    // Same device still attached, probe alive: nothing changes.
    let spare = fresh_board_id();
    r.refresh(
        &vec![true, true],
        &vec![key("usb:1-2")],
        &vec![true],
        &vec![spare],
    );
    assert_eq!(r.boards(), once);

    // And again.
    let spare2 = fresh_board_id();
    r.refresh(
        &vec![true, true],
        &vec![key("usb:1-2")],
        &vec![true],
        &vec![spare2],
    );
    assert_eq!(r.boards(), once);
}

#[test]
fn same_key_enumerated_twice_registers_once() {
    let mut r = Registry::new();
    let a = fresh_board_id();
    let b = fresh_board_id();
    r.refresh(
        &vec![],
        &vec![key("usb:1-2"), key("usb:1-2")],
        &vec![true, true],
        &vec![a, b],
    );
    assert_eq!(r.boards(), vec![a]);
}

#[test]
fn keyless_entries_survive_eviction() {
    let mut r = Registry::new();
    assert!(r.register(BoardId(5), None));
    // The eviction pass asks one probe outcome per entry; a keyless entry
    // ignores its slot.
    r.evict(&vec![false]);
    assert_eq!(r.boards(), vec![BoardId(5)]);
}

#[test]
fn failed_open_skips_only_that_candidate() {
    let mut r = Registry::new();
    let a = fresh_board_id();
    let b = fresh_board_id();
    r.refresh(
        &vec![],
        &vec![key("usb:1-1"), key("usb:1-2")],
        &vec![false, true],
        &vec![a, b],
    );
    assert_eq!(r.boards(), vec![b]);
}

#[test]
fn fresh_ids_differ_between_calls() {
    let a = fresh_board_id();
    let b = fresh_board_id();
    assert_ne!(a, b);
}
