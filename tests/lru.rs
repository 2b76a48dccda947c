use proxy_cache::lru::LRUCache;

type StringTest = LRUCache<String, 3>;

fn items(cache: &StringTest) -> Vec<String> {
    cache.values().into_iter().cloned().collect()
}

#[test]
fn test_empty() {
    let elements = StringTest::default();
    assert_eq!(elements.len(), 0);
    assert_eq!(items(&elements), Vec::<String>::new());
}

#[test]
fn test_insert() {
    let mut elements = StringTest::default();

    elements.insert("David".to_string());
    elements.insert("Tomas".to_string());
    elements.insert("Danilo".to_string());
    assert_eq!(items(&elements), ["Danilo", "Tomas", "David"]);

    elements.insert("Sebastian".to_string());
    assert_eq!(elements.len(), 3);
    assert_eq!(items(&elements), ["Sebastian", "Danilo", "Tomas"]);

    elements.insert("Daniel".to_string());
    elements.insert("Patata".to_string());
    elements.insert("Isabel".to_string());

    assert_eq!(elements.len(), 3);
    assert_eq!(items(&elements), ["Isabel", "Patata", "Daniel"]);
}

#[test]
fn test_lookup() {
    let mut elements = StringTest::default();

    elements.insert("David".to_string());
    elements.insert("Tomas".to_string());
    elements.insert("Danilo".to_string());

    let result = elements.lookup(|x| if *x == "Sebastian" { Some(()) } else { None });
    assert_eq!(result, None);
    assert_eq!(items(&elements), ["Danilo", "Tomas", "David"]);

    let result = elements.lookup(|x| if *x == "David" { Some("David") } else { None });
    assert_eq!(result, Some("David"));
    assert_eq!(items(&elements), ["David", "Danilo", "Tomas"]);
}

#[test]
fn test_get_front() {
    let mut elements = StringTest::default();
    assert_eq!(elements.get_front(), None);

    elements.insert("David".to_string());
    elements.insert("Tomas".to_string());
    assert_eq!(elements.get_front(), Some(&"Tomas".to_string()));

    elements.call(|x| *x == "David");
    assert_eq!(elements.get_front(), Some(&"David".to_string()));
}

#[test]
fn test_clear() {
    let mut elements = StringTest::default();

    elements.insert("David".to_string());
    elements.clear_elements();
    assert_eq!(elements.len(), 0);
    assert_eq!(items(&elements), Vec::<String>::new());

    elements.insert("David".to_string());
    elements.insert("Tomas".to_string());
    elements.insert("Danilo".to_string());
    assert_eq!(items(&elements), ["Danilo", "Tomas", "David"]);

    elements.clear_elements();
    assert_eq!(items(&elements), Vec::<String>::new());
}

#[test]
fn test_call() {
    let mut elements = StringTest::default();

    elements.insert("David".to_string());
    elements.insert("Tomas".to_string());
    elements.insert("Danilo".to_string());
    assert_eq!(items(&elements), ["Danilo", "Tomas", "David"]);

    elements.call(|x| *x == "Sebastian");
    assert_eq!(items(&elements), ["Danilo", "Tomas", "David"]);

    elements.call(|x| *x == "Tomas");
    assert_eq!(items(&elements), ["Tomas", "Danilo", "David"]);
}

#[test]
fn end_to_end_capacity_three() {
    let mut index: LRUCache<char, 3> = LRUCache::default();
    index.insert('A');
    index.insert('B');
    index.insert('C');
    assert_eq!(index.values(), vec![&'C', &'B', &'A']);
    index.insert('D');
    assert_eq!(index.values(), vec![&'D', &'C', &'B']);
    assert!(index.call(|x| *x == 'B'));
    assert_eq!(index.values(), vec![&'B', &'D', &'C']);
    assert!(!index.call(|x| *x == 'Z'));
    assert_eq!(index.values(), vec![&'B', &'D', &'C']);
}

#[test]
fn never_exceeds_capacity() {
    let mut index: LRUCache<u32, 4> = LRUCache::default();
    for v in 0..50u32 {
        index.insert(v);
        assert!(index.len() <= 4);
        assert_eq!(index.get_front(), Some(&v));
    }
    assert_eq!(index.values(), vec![&49, &48, &47, &46]);
    assert_eq!(index.capacity(), 4);
}

#[test]
fn zero_capacity_stays_empty() {
    let mut index: LRUCache<u32, 0> = LRUCache::default();
    index.insert(1);
    assert!(index.is_empty());
    assert_eq!(index.get_front(), None);
}

#[test]
fn single_slot_replaces_its_value() {
    let mut index: LRUCache<u32, 1> = LRUCache::default();
    index.insert(1);
    index.insert(2);
    assert_eq!(index.values(), vec![&2]);
    assert!(index.call(|x| *x == 2));
    assert_eq!(index.values(), vec![&2]);
}

#[test]
fn access_promotes_first_match_in_recency_order() {
    let mut index: LRUCache<(u32, char), 4> = LRUCache::default();
    index.insert((1, 'a'));
    index.insert((2, 'b'));
    index.insert((1, 'c'));
    // (1, 'c') is more recent than (1, 'a'), so it is the one found.
    let found = index.lookup(|x| if x.0 == 1 { Some(x.1) } else { None });
    assert_eq!(found, Some('c'));
    assert_eq!(index.values(), vec![&(1, 'c'), &(2, 'b'), &(1, 'a')]);
    assert!(index.call(|x| x.1 == 'a'));
    assert_eq!(index.get_front(), Some(&(1, 'a')));
    assert_eq!(index.values(), vec![&(1, 'a'), &(1, 'c'), &(2, 'b')]);
}

#[test]
fn test_remove() {
    let mut elements = StringTest::default();

    elements.insert("David".to_string());
    elements.insert("Tomas".to_string());
    elements.insert("Danilo".to_string());
    assert_eq!(items(&elements), ["Danilo", "Tomas", "David"]);

    elements.remove(0);
    assert_eq!(items(&elements), ["Danilo", "Tomas"]);
}

#[test]
fn remove_then_insert_reuses_the_arena() {
    let mut elements = StringTest::default();
    elements.insert("a".to_string());
    elements.insert("b".to_string());
    elements.insert("c".to_string());
    // slot 1 holds "b", in the middle of the order
    elements.remove(1);
    assert_eq!(items(&elements), ["c", "a"]);
    elements.insert("d".to_string());
    assert_eq!(items(&elements), ["d", "c", "a"]);
    elements.insert("e".to_string());
    assert_eq!(items(&elements), ["e", "d", "c"]);
    assert!(elements.call(|x| *x == "c"));
    assert_eq!(items(&elements), ["c", "e", "d"]);
}

#[test]
fn removing_the_sole_value_empties_the_index() {
    let mut elements = StringTest::default();
    elements.insert("only".to_string());
    elements.remove(0);
    assert!(elements.is_empty());
    assert_eq!(elements.get_front(), None);
    elements.insert("next".to_string());
    assert_eq!(items(&elements), ["next"]);
}

#[test]
fn front_can_be_changed_in_place() {
    let mut elements = StringTest::default();
    assert!(elements.get_front_mut().is_none());
    elements.insert("a".to_string());
    elements.insert("b".to_string());
    if let Some(v) = elements.get_front_mut() {
        v.push('!');
    }
    assert_eq!(items(&elements), ["b!", "a"]);
}
