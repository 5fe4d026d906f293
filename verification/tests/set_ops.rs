use indexed_hash_set::IndexedHashSet;

/// Set with three entries with each usage count equal to zero.
fn standard_set() -> IndexedHashSet {
    let mut set = IndexedHashSet::new();
    let h1 = set.insert("Olaf".to_owned()).unwrap();
    set.drop_index(h1);
    let h2 = set.insert("Eijnar".to_owned()).unwrap();
    set.drop_index(h2);
    let h3 = set.insert("Harald".to_owned()).unwrap();
    set.drop_index(h3);
    set
}

#[test]
fn unused_entries() {
    let mut set = standard_set();
    assert_eq!(set.len(), 3);
    assert_eq!(set.drop_unused(), 3);
    assert_eq!(set.len(), 0);
}

#[test]
fn usage_cnt() {
    let mut set = IndexedHashSet::new();
    let o1 = set.insert("Olaf".to_owned()).unwrap();
    assert_eq!(o1.cnt(&set), Some(1));
    let o2 = set.get_index_by_hash("Olaf").unwrap();
    assert_eq!(o1.cnt(&set), Some(2));
    let o3 = set.clone_index(&o1);
    assert_eq!(o1.cnt(&set), Some(3));
    set.drop_index(o3);
    assert_eq!(o1.cnt(&set), Some(2));
    set.drop_index(o2);
    set.drop_index(o1);
}

#[test]
fn full_handle_lifecycle() {
    let mut set = IndexedHashSet::new();
    let h1 = set.insert("Olaf".to_owned()).unwrap();
    assert_eq!(h1.cnt(&set), Some(1));
    let h2 = set.get_index_by_hash("Olaf").unwrap();
    assert_eq!(h1.cnt(&set), Some(2));
    let h3 = set.clone_index(&h1);
    assert_eq!(h1.cnt(&set), Some(3));
    set.drop_index(h3);
    assert_eq!(h1.cnt(&set), Some(2));
    set.drop_index(h2);
    assert_eq!(h1.cnt(&set), Some(1));
    set.drop_index(h1);
    assert_eq!(set.get_cnt("Olaf"), Some(0));
    assert_eq!(set.drop_unused(), 1);
    assert_eq!(set.len(), 0);
}

#[test]
fn double_insert_returns_absence() {
    let mut set = IndexedHashSet::new();
    let h = set.insert("X".to_owned());
    assert!(h.is_some());
    let again = set.insert("X".to_owned());
    assert!(again.is_none());
    assert_eq!(set.len(), 1);
    set.drop_index(h.unwrap());
}

#[test]
fn foreign_index_is_absent() {
    let mut a = IndexedHashSet::new();
    let b = IndexedHashSet::new();
    let ha = a.insert("Olaf".to_owned()).unwrap();
    assert!(b.get_ref_by_index(&ha).is_none());
    assert!(ha.cnt(&b).is_none());
    assert_eq!(a.get_ref_by_index(&ha).unwrap(), "Olaf");
    a.drop_index(ha);
}

#[test]
fn lookup_is_independent_of_counter() {
    let mut set = IndexedHashSet::new();
    let h = set.insert("Olaf".to_owned()).unwrap();
    assert_eq!(set.get_ref_by_hash("Olaf").unwrap(), "Olaf");
    set.drop_index(h);
    // counter is zero, entry not yet reclaimed: still found
    assert_eq!(set.get_ref_by_hash("Olaf").unwrap(), "Olaf");
    assert!(set.get_ref_by_hash("olaf").is_none());
    assert!(set.get_ref_by_hash("").is_none());
    set.drop_unused();
    // reclaimed: gone
    assert!(set.get_ref_by_hash("Olaf").is_none());
}

#[test]
fn reclaim_keeps_used_entries() {
    let mut set = standard_set();
    let h = set.get_index_by_hash("Eijnar").unwrap();
    assert_eq!(set.len(), 3);
    assert_eq!(set.drop_unused(), 2);
    assert_eq!(set.len(), 1);
    assert_eq!(set.get_ref_by_hash("Eijnar").unwrap(), "Eijnar");
    assert!(set.get_ref_by_hash("Olaf").is_none());
    set.drop_index(h);
}

#[test]
fn get_or_insert_finds_or_creates() {
    let mut set = IndexedHashSet::new();
    let h1 = set.get_or_insert(&"Olaf".to_owned());
    assert_eq!(h1.cnt(&set), Some(1));
    assert_eq!(set.len(), 1);
    let h2 = set.get_or_insert(&"Olaf".to_owned());
    assert_eq!(h1.cnt(&set), Some(2));
    assert_eq!(set.len(), 1);
    let h3 = set.get_or_insert(&"Harald".to_owned());
    assert_eq!(set.len(), 2);
    assert_eq!(h3.cnt(&set), Some(1));
    set.drop_index(h1);
    set.drop_index(h2);
    set.drop_index(h3);
}

#[test]
fn iteration_yields_used_entries_once() {
    let mut set = standard_set();
    // all counters are zero: nothing is yielded
    assert!(set.iter().is_empty());
    let h1 = set.get_index_by_hash("Olaf").unwrap();
    let h2 = set.get_index_by_hash("Harald").unwrap();
    let mut names: Vec<String> = set.iter().iter().map(|s| (*s).clone()).collect();
    names.sort();
    assert_eq!(names, vec!["Harald".to_owned(), "Olaf".to_owned()]);
    // a second pass with no mutation yields the same set
    let mut again: Vec<String> = set.iter().iter().map(|s| (*s).clone()).collect();
    again.sort();
    assert_eq!(names, again);
    set.drop_index(h1);
    set.drop_index(h2);
}

#[test]
fn direct_indexing_on_valid_index() {
    let mut set = IndexedHashSet::new();
    let h = set.insert("Olaf".to_owned()).unwrap();
    assert_eq!(set.index(&h), "Olaf");
    set.drop_index(h);
}

#[test]
fn counts_by_value_and_by_index_agree() {
    let mut set = IndexedHashSet::new();
    let h = set.insert("Olaf".to_owned()).unwrap();
    let h2 = set.clone_index(&h);
    assert_eq!(set.get_cnt("Olaf"), Some(2));
    assert_eq!(h.cnt(&set), Some(2));
    assert_eq!(set.get_cnt("Eijnar"), None);
    set.drop_index(h);
    set.drop_index(h2);
}

#[test]
fn empty_set_behaviour() {
    let mut set = IndexedHashSet::new();
    assert_eq!(set.len(), 0);
    assert!(set.get_ref_by_hash("Olaf").is_none());
    assert_eq!(set.get_cnt(""), None);
    assert_eq!(set.drop_unused(), 0);
    assert!(set.iter().is_empty());
}

#[test]
fn values_that_share_no_hash_prefix() {
    // values of every shape, including the empty string
    let mut set = IndexedHashSet::new();
    let h0 = set.insert(String::new()).unwrap();
    let h1 = set.insert("a".to_owned()).unwrap();
    let h2 = set.insert("ab".to_owned()).unwrap();
    let h3 = set.insert("ba".to_owned()).unwrap();
    assert_eq!(set.len(), 4);
    assert_eq!(set.get_ref_by_hash("").unwrap(), "");
    assert_eq!(set.get_ref_by_hash("ab").unwrap(), "ab");
    assert_eq!(set.get_ref_by_hash("ba").unwrap(), "ba");
    assert!(set.insert("ab".to_owned()).is_none());
    set.drop_index(h0);
    set.drop_index(h1);
    set.drop_index(h2);
    set.drop_index(h3);
    assert_eq!(set.drop_unused(), 4);
}
