use dtbc::label::LabelManager;

#[test]
fn new_manager_is_empty() {
    let lm = LabelManager::new();
    assert_eq!(lm.lookup(b"cpu0"), None);
    assert_eq!(lm.is_phandle_needed(b"cpu0"), None);
}

#[test]
fn lookup_gives_registered_node() {
    let mut lm = LabelManager::new();
    lm.regist_label(b"cpu0", b"cpu@0".to_vec());
    assert_eq!(lm.lookup(b"cpu0"), Some(b"cpu@0".to_vec()));
    assert_eq!(lm.lookup(b"cpu1"), None);
}

#[test]
fn relabel_keeps_last_node() {
    let mut lm = LabelManager::new();
    lm.regist_label(b"l", b"a".to_vec());
    lm.regist_label(b"l", b"b".to_vec());
    assert_eq!(lm.lookup(b"l"), Some(b"b".to_vec()));
}

#[test]
fn phandles_count_up_from_one() {
    let mut lm = LabelManager::new();
    assert_eq!(lm.regist_phandle(b"intc"), 1);
    assert_eq!(lm.regist_phandle(b"gpio"), 2);
    assert_eq!(lm.regist_phandle(b"clk"), 3);
}

#[test]
fn phandle_registration_is_idempotent() {
    let mut lm = LabelManager::new();
    let first = lm.regist_phandle(b"intc");
    let other = lm.regist_phandle(b"gpio");
    let again = lm.regist_phandle(b"intc");
    assert_eq!(first, again);
    assert_ne!(first, other);
    assert_eq!(lm.regist_phandle(b"uart"), 3);
}

#[test]
fn phandle_needed_goes_through_the_node_name() {
    let mut lm = LabelManager::new();
    lm.regist_label(b"intc", b"interrupt-controller".to_vec());
    assert_eq!(lm.is_phandle_needed(b"intc"), None);
    assert_eq!(lm.regist_phandle(b"interrupt-controller"), 1);
    assert_eq!(lm.is_phandle_needed(b"intc"), Some(1));
    assert_eq!(lm.is_phandle_needed(b"interrupt-controller"), None);
}

#[test]
fn can_regist_phandle_on_fresh_manager() {
    let lm = LabelManager::new();
    assert!(lm.can_regist_phandle(b"x"));
}

#[test]
fn labels_are_trimmed_at_the_start() {
    let mut lm = LabelManager::new();
    lm.regist_label(b"  foo", b"bar".to_vec());
    assert_eq!(lm.lookup(b"foo"), Some(b"bar".to_vec()));
    assert_eq!(lm.lookup(b"  foo"), None);
}

#[test]
fn phandle_labels_are_trimmed_at_the_start() {
    let mut lm = LabelManager::new();
    assert_eq!(lm.regist_phandle(b"  foo"), 1);
    assert_eq!(lm.regist_phandle(b"foo"), 1);
    assert_eq!(lm.regist_phandle(b"\tbar"), 2);
}

#[test]
fn tree_manager_keeps_labels_as_written() {
    let mut lm = dtbc::LabelManager::new();
    lm.regist_label(b"  foo".to_vec(), b"bar".to_vec());
    assert_eq!(lm.lookup(b"foo"), None);
    assert_eq!(lm.lookup(b"  foo"), Some(b"bar".to_vec()));
    assert_eq!(lm.regist_phandle(b"  foo"), 1);
    assert_eq!(lm.regist_phandle(b"foo"), 2);
}

#[test]
fn labels_lose_leading_unicode_whitespace() {
    let mut lm = LabelManager::new();
    lm.regist_label("\u{a0}foo".as_bytes(), b"bar".to_vec());
    assert_eq!(lm.lookup(b"foo"), Some(b"bar".to_vec()));
    assert_eq!(lm.regist_phandle("\u{3000}foo".as_bytes()), 1);
    assert_eq!(lm.regist_phandle(b"foo"), 1);
}
