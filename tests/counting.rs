use agent_mapping::counting::count_keys;

#[test]
fn counts_each_key() {
    let m = count_keys(&[3, 1, 3, 3, 7, 1]);
    assert_eq!(m.len(), 3);
    assert_eq!(m[&3], 3);
    assert_eq!(m[&1], 2);
    assert_eq!(m[&7], 1);
    assert!(!m.contains_key(&2));
}

#[test]
fn counts_nothing() {
    assert!(count_keys(&[]).is_empty());
}
