use doc_merge::index::{EntryError, SearchIndex};

fn index_of(pairs: &[(&str, &str)]) -> SearchIndex {
    let mut index = SearchIndex::new();
    for (name, record) in pairs {
        assert_eq!(index.insert(name.as_bytes().to_vec(), record.as_bytes().to_vec()), Ok(()));
    }
    index
}

fn names(index: &SearchIndex) -> Vec<String> {
    index.names().into_iter().map(|n| String::from_utf8(n).unwrap()).collect()
}

#[test]
fn a_new_index_is_empty() {
    let index = SearchIndex::new();
    assert_eq!(index.len(), 0);
    assert!(index.is_empty());
    assert!(index.names().is_empty());
    assert!(index.entries().is_empty());
    assert!(index.entry(0).is_none());
    assert!(!index.contains(b"alpha"));
    assert!(index.get(b"alpha").is_none());
}

#[test]
fn insert_keeps_the_names_in_ascending_order() {
    let index = index_of(&[("gamma", "3"), ("alpha", "1"), ("delta", "4"), ("beta", "2")]);
    assert_eq!(names(&index), ["alpha", "beta", "delta", "gamma"]);
    assert_eq!(index.len(), 4);
    assert!(!index.is_empty());
    assert_eq!(index.entry(0).unwrap().name, b"alpha");
    assert_eq!(index.entry(0).unwrap().record, b"1");
    assert_eq!(index.entry(3).unwrap().name, b"gamma");
    assert_eq!(index.entry(3).unwrap().record, b"3");
    assert!(index.entry(4).is_none());
}

#[test]
fn the_order_of_insertion_does_not_show() {
    let a = index_of(&[("alpha", "1"), ("beta", "2"), ("gamma", "3")]);
    let b = index_of(&[("gamma", "3"), ("beta", "2"), ("alpha", "1")]);
    let c = index_of(&[("beta", "2"), ("gamma", "3"), ("alpha", "1")]);
    assert_eq!(names(&a), names(&b));
    assert_eq!(names(&a), names(&c));
    for i in 0..3 {
        assert_eq!(a.entry(i).unwrap().record, b.entry(i).unwrap().record);
        assert_eq!(a.entry(i).unwrap().record, c.entry(i).unwrap().record);
    }
}

#[test]
fn a_prefix_comes_before_the_longer_name() {
    let index = index_of(&[("serde_json", "j"), ("serde", "s"), ("serde1", "1")]);
    assert_eq!(names(&index), ["serde", "serde1", "serde_json"]);
}

#[test]
fn insert_replaces_the_record_of_a_known_name() {
    let mut index = index_of(&[("alpha", "old"), ("beta", "2")]);
    assert_eq!(index.insert(b"alpha".to_vec(), b"new".to_vec()), Ok(()));
    assert_eq!(index.len(), 2);
    assert_eq!(index.get(b"alpha").unwrap(), b"new");
    assert_eq!(index.get(b"beta").unwrap(), b"2");
    assert_eq!(names(&index), ["alpha", "beta"]);
}

#[test]
fn no_name_stands_twice() {
    let index = index_of(&[("b", "1"), ("a", "2"), ("b", "3"), ("a", "4"), ("c", "5"), ("b", "6")]);
    let all = names(&index);
    assert_eq!(all, ["a", "b", "c"]);
    for i in 0..all.len() {
        for j in 0..all.len() {
            if i != j {
                assert_ne!(all[i], all[j]);
            }
        }
    }
    assert_eq!(index.get(b"a").unwrap(), b"4");
    assert_eq!(index.get(b"b").unwrap(), b"6");
    assert_eq!(index.get(b"c").unwrap(), b"5");
}

#[test]
fn get_and_contains_find_what_was_stored() {
    let index = index_of(&[("alpha", "{\"doc\":\"a\"}"), ("beta", ""), ("gamma", "x")]);
    assert!(index.contains(b"alpha"));
    assert!(index.contains(b"beta"));
    assert!(index.contains(b"gamma"));
    assert!(!index.contains(b"delta"));
    assert!(!index.contains(b"alph"));
    assert!(!index.contains(b"alphaa"));
    assert!(!index.contains(b""));
    assert_eq!(index.get(b"alpha").unwrap(), b"{\"doc\":\"a\"}");
    assert_eq!(index.get(b"beta").unwrap(), b"");
    assert!(index.get(b"zeta").is_none());
    assert!(index.get(b"a").is_none());
}

#[test]
fn insert_refuses_a_name_that_is_no_unit_name() {
    let mut index = index_of(&[("alpha", "1")]);
    assert_eq!(index.insert(b"".to_vec(), b"x".to_vec()), Err(EntryError::InvalidName));
    assert_eq!(index.insert(b"Beta".to_vec(), b"x".to_vec()), Err(EntryError::InvalidName));
    assert_eq!(index.insert(b"be-ta".to_vec(), b"x".to_vec()), Err(EntryError::InvalidName));
    assert_eq!(index.insert(b"be\nta".to_vec(), b"x\n".to_vec()), Err(EntryError::InvalidName));
    assert_eq!(names(&index), ["alpha"]);
    assert_eq!(index.get(b"alpha").unwrap(), b"1");
}

#[test]
fn insert_refuses_a_record_of_more_than_one_line() {
    let mut index = index_of(&[("alpha", "1")]);
    assert_eq!(index.insert(b"alpha".to_vec(), b"a\nb".to_vec()), Err(EntryError::InvalidRecord));
    assert_eq!(index.insert(b"beta".to_vec(), b"\n".to_vec()), Err(EntryError::InvalidRecord));
    assert_eq!(names(&index), ["alpha"]);
    assert_eq!(index.get(b"alpha").unwrap(), b"1");
}

#[test]
fn overlay_lets_the_other_index_win() {
    let mut index = index_of(&[("alpha", "a1"), ("beta", "b1"), ("delta", "d1")]);
    let other = index_of(&[("beta", "b2"), ("gamma", "c2"), ("aaa", "z2")]);
    index.overlay(&other);
    assert_eq!(names(&index), ["aaa", "alpha", "beta", "delta", "gamma"]);
    assert_eq!(index.get(b"aaa").unwrap(), b"z2");
    assert_eq!(index.get(b"alpha").unwrap(), b"a1");
    assert_eq!(index.get(b"beta").unwrap(), b"b2");
    assert_eq!(index.get(b"delta").unwrap(), b"d1");
    assert_eq!(index.get(b"gamma").unwrap(), b"c2");
    assert_eq!(names(&other), ["aaa", "beta", "gamma"]);
}

#[test]
fn overlay_with_an_empty_index_changes_nothing() {
    let mut index = index_of(&[("alpha", "a1"), ("beta", "b1")]);
    index.overlay(&SearchIndex::new());
    assert_eq!(names(&index), ["alpha", "beta"]);
    let mut empty = SearchIndex::new();
    empty.overlay(&index);
    assert_eq!(names(&empty), ["alpha", "beta"]);
    assert_eq!(empty.get(b"alpha").unwrap(), b"a1");
    assert_eq!(empty.get(b"beta").unwrap(), b"b1");
}

#[test]
fn overlay_twice_is_overlay_once() {
    let mut once = index_of(&[("alpha", "a1"), ("beta", "b1")]);
    let mut twice = index_of(&[("alpha", "a1"), ("beta", "b1")]);
    let other = index_of(&[("beta", "b2"), ("gamma", "c2")]);
    once.overlay(&other);
    twice.overlay(&other);
    twice.overlay(&other);
    assert_eq!(names(&once), names(&twice));
    for i in 0..once.len() {
        assert_eq!(once.entry(i).unwrap().record, twice.entry(i).unwrap().record);
    }
}

#[test]
fn many_units_stay_sorted_and_findable() {
    let mut index = SearchIndex::new();
    for i in 0..200u32 {
        let n = (i * 73) % 200;
        let name = format!("unit_{}", n);
        let record = format!("{{\"n\":{}}}", n);
        assert_eq!(index.insert(name.into_bytes(), record.into_bytes()), Ok(()));
    }
    assert_eq!(index.len(), 200);
    let all = names(&index);
    let mut sorted = all.clone();
    sorted.sort();
    assert_eq!(all, sorted);
    for n in 0..200u32 {
        let name = format!("unit_{}", n);
        assert_eq!(index.get(name.as_bytes()).unwrap(), format!("{{\"n\":{}}}", n).as_bytes());
    }
    assert!(!index.contains(b"unit_200"));
}
