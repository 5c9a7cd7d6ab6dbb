use beaver::sub_list::{Entry, Level, SubList};

#[test]
fn sublist_level() {
    let mut level = Level::new();
    level.insert(1);
    level.insert(2);
    level.insert(3);

    assert_eq!(level.search(|value| *value == 2), Some(&mut 2));
    level.remove(|value| *value == 1);
}

#[test]
fn sub_entry() {
    let mut entry = Entry::new();

    for item in 0..3 {
        let mut list = vec![b"hellow".to_vec(), b"world".to_vec()];
        entry.subscribe(&mut list, item);
    }

    let mut list = vec![b"hellow".to_vec(), b"world".to_vec()];
    assert_eq!(
        entry.get_subscribe_item(&mut list),
        Some(&mut vec![0, 1, 2])
    );

    let fnc: fn(&usize) -> bool = |item| *item == 1usize;
    entry.remove_subscription(&fnc);

    let mut list = vec![b"hellow".to_vec(), b"world".to_vec()];
    assert_eq!(entry.get_subscribe_item(&mut list), Some(&mut vec![0, 2]));
}

#[test]
fn test_trie() {
    let mut sublist: SubList<usize> = SubList::new();

    let mut sub = Vec::new();
    for item in 0..100usize {
        sub.push(item);
        sublist.subscribe(b"hello.world.fuck", item);
    }

    assert_eq!(
        sublist.get_subscribe_item(b"hello.world.fuck"),
        Some(&mut sub)
    );

    sublist.remove_subscription(|item| *item == 50);
    sub.remove(50);

    assert_eq!(
        sublist.get_subscribe_item(b"hello.world.fuck"),
        Some(&mut sub)
    );
}

#[test]
fn level_search_moves_found_to_front() {
    let mut level = Level::new();
    level.insert(1);
    level.insert(2);
    level.insert(3);
    assert_eq!(level.len(), 3);
    assert_eq!(level.search(|value| *value == 1), Some(&mut 1));
    assert_eq!(level.search(|value| *value == 9), None);
    level.remove(|value| *value == 1);
    assert_eq!(level.len(), 2);
    level.remove(|value| *value == 9);
    assert_eq!(level.len(), 2);
}

#[test]
fn sublist_missing_subject_is_none() {
    let mut sublist: SubList<u32> = SubList::new();
    sublist.subscribe(b"a.b.c", 7);
    assert_eq!(sublist.get_subscribe_item(b"a.b.c"), Some(&mut vec![7]));
    assert_eq!(sublist.get_subscribe_item(b"a.b"), Some(&mut vec![]));
    assert_eq!(sublist.get_subscribe_item(b"a.b.d"), None);
    assert_eq!(sublist.get_subscribe_item(b"a.b.c.d"), None);
}

#[test]
fn sublist_subjects_are_case_sensitive() {
    let mut sublist: SubList<u32> = SubList::new();
    sublist.subscribe(b"foo", 1);
    assert_eq!(sublist.get_subscribe_item(b"FOO"), None);
    assert_eq!(sublist.get_subscribe_item(b"foo"), Some(&mut vec![1]));
}

#[test]
fn sublist_split_keeps_empty_tokens() {
    assert_eq!(
        SubList::<u32>::split(b"a..b"),
        vec![b"a".to_vec(), Vec::new(), b"b".to_vec()]
    );
    assert_eq!(SubList::<u32>::split(b""), vec![Vec::<u8>::new()]);
    assert_eq!(
        SubList::<u32>::split(b"hello.world"),
        vec![b"hello".to_vec(), b"world".to_vec()]
    );
}

#[test]
fn sublist_update_changes_every_node() {
    let mut sublist: SubList<u32> = SubList::new();
    sublist.subscribe(b"a", 1);
    sublist.subscribe(b"a.b", 2);
    sublist.subscribe(b"c", 3);
    sublist.update_subscription(|x| x * 10);
    assert_eq!(sublist.get_subscribe_item(b"a"), Some(&mut vec![10]));
    assert_eq!(sublist.get_subscribe_item(b"a.b"), Some(&mut vec![20]));
    assert_eq!(sublist.get_subscribe_item(b"c"), Some(&mut vec![30]));
}

#[test]
fn sublist_remove_subscription_removes_all_matches() {
    let mut sublist: SubList<u32> = SubList::new();
    sublist.subscribe(b"a", 1);
    sublist.subscribe(b"a", 2);
    sublist.subscribe(b"a", 1);
    sublist.subscribe(b"a.b", 1);
    sublist.remove_subscription(|x| *x == 1);
    assert_eq!(sublist.get_subscribe_item(b"a"), Some(&mut vec![2]));
    assert_eq!(sublist.get_subscribe_item(b"a.b"), Some(&mut vec![]));
}

#[test]
fn sublist_total_counts_leaves() {
    let mut sublist: SubList<u32> = SubList::new();
    assert_eq!(sublist.total(), 1);
    sublist.subscribe(b"a.b", 1);
    sublist.subscribe(b"a.c", 2);
    sublist.subscribe(b"d", 3);
    assert_eq!(sublist.total(), 3);
}

#[test]
fn sublist_remove_prunes_subtree() {
    let mut sublist: SubList<u32> = SubList::new();
    sublist.subscribe(b"a.b", 1);
    sublist.subscribe(b"a.c", 2);
    sublist.remove(b"a.b");
    assert_eq!(sublist.get_subscribe_item(b"a.b"), None);
    assert_eq!(sublist.get_subscribe_item(b"a.c"), Some(&mut vec![2]));
    sublist.remove(b"x.y");
    assert_eq!(sublist.get_subscribe_item(b"a.c"), Some(&mut vec![2]));
    sublist.remove(b"a");
    assert_eq!(sublist.get_subscribe_item(b"a.c"), None);
    assert_eq!(sublist.get_subscribe_item(b"a"), None);
    assert_eq!(sublist.total(), 1);
}

#[test]
fn sublist_total_counts_nodes_not_subscriptions() {
    let mut sublist: SubList<usize> = SubList::new();
    for item in 0..100usize {
        sublist.subscribe(b"hello.world.fuck", item);
    }
    assert_eq!(sublist.total(), 1);
}
