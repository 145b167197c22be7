use agarlib::id_map::IdMap;

#[test]
fn id_map_insert_replace_remove() {
    let mut m: IdMap<u64> = IdMap::new();
    m.insert(3, 30);
    m.insert(1, 10);
    m.insert(3, 33);
    assert_eq!(m.len(), 2);
    assert_eq!(m.get(3), Some(&33));
    assert_eq!(m.entry(0), &(3, 33));
    assert_eq!(m.remove(3), Some(33));
    assert_eq!(m.remove(3), None);
    assert!(!m.contains_key(3));
    assert!(m.contains_key(1));
    assert_eq!(m.position(1), Some(0));
}
