use generational_token_list::{GenerationalTokenList, ItemToken};
use std::collections::{BTreeMap, HashMap};

fn contents(list: &GenerationalTokenList<i32>) -> Vec<i32> {
    let mut data = Vec::new();
    let mut it = list.iter();
    while let Some(v) = it.next() {
        data.push(*v);
    }
    data
}

#[test]
fn forward_iteration_in_push_order() {
    let mut list = GenerationalTokenList::new();
    list.push_back(1);
    list.push_back(2);
    list.push_back(3);
    assert_eq!(contents(&list), vec![1, 2, 3]);
}

#[test]
fn removed_token_resolves_to_absent() {
    let mut list = GenerationalTokenList::new();
    let one = list.push_back(1);
    list.push_back(2);
    list.push_back(3);
    assert_eq!(list.remove(one), Some(1));
    assert_eq!(contents(&list), vec![2, 3]);
    assert_eq!(list.get(one), None);
}

#[test]
fn stale_token_stays_absent_after_slot_reuse() {
    let mut list = GenerationalTokenList::new();
    let one = list.push_back(1);
    list.push_back(2);
    list.push_back(3);
    list.remove(one);
    let zero = list.push_front(0);
    assert_eq!(contents(&list), vec![0, 2, 3]);
    // the slot of `one` may have been reused for `zero`, yet the stale
    // token must not resolve, and the two tokens must differ
    assert_eq!(list.get(one), None);
    assert_ne!(one, zero);
    assert_eq!(list.get(zero), Some(&0));
}

#[test]
fn insert_after_between_two_items() {
    let mut list = GenerationalTokenList::<i32>::new();
    let item1 = list.push_back(10);
    list.push_back(20);
    list.insert_after(item1, 300);
    assert_eq!(contents(&list), vec![10, 300, 20]);
}

#[test]
fn insert_before_trailing_item() {
    let mut list = GenerationalTokenList::<i32>::new();
    list.push_back(20);
    list.push_back(100);
    let item3 = list.push_back(10);
    list.insert_before(item3, 300);
    assert_eq!(contents(&list), vec![20, 100, 300, 10]);
}

#[test]
fn order_fidelity_under_mixed_operations() {
    let mut list = GenerationalTokenList::new();
    let a = list.push_back(1);
    let b = list.push_front(0);
    let c = list.push_back(2);
    // [0, 1, 2]
    let d = list.insert_after(a, 7);
    // [0, 1, 7, 2]
    let e = list.insert_before(a, 5);
    // [0, 5, 1, 7, 2]
    assert_eq!(contents(&list), vec![0, 5, 1, 7, 2]);
    list.remove(a);
    assert_eq!(contents(&list), vec![0, 5, 7, 2]);

    // the backward walk from the tail is the exact mirror
    let mut backwards = Vec::new();
    let mut cur = list.tail_token();
    while let Some(t) = cur {
        backwards.push(*list.index(t));
        cur = list.prev_token(t);
    }
    assert_eq!(backwards, vec![2, 7, 5, 0]);
    let _ = (b, c, d, e);
}

#[test]
fn anchors_agree_with_emptiness() {
    let mut list = GenerationalTokenList::new();
    assert!(list.is_empty());
    assert_eq!(list.head_token(), None);
    assert_eq!(list.tail_token(), None);
    assert_eq!(list.head(), None);
    assert_eq!(list.tail(), None);

    let only = list.push_back(42);
    assert!(!list.is_empty());
    assert_eq!(list.head_token(), Some(only));
    assert_eq!(list.tail_token(), Some(only));
    assert_eq!(list.head(), Some(&42));
    assert_eq!(list.tail(), Some(&42));

    // after removing the sole element both anchors are gone again
    assert_eq!(list.remove(only), Some(42));
    assert!(list.is_empty());
    assert_eq!(list.head_token(), None);
    assert_eq!(list.tail_token(), None);
}

#[test]
fn get2_mut_independent_writes() {
    let mut list = GenerationalTokenList::new();
    let item1 = list.push_back(10);
    let item2 = list.push_back(20);
    let item3 = list.push_back(30);

    let (a, b) = list.get2_mut(item1, item3);
    *a.unwrap() = 11;
    *b.unwrap() = 33;
    assert_eq!(contents(&list), vec![11, 20, 33]);

    // order of the tokens does not matter
    let (c, d) = list.get2_mut(item3, item1);
    *c.unwrap() = 3;
    *d.unwrap() = 1;
    assert_eq!(contents(&list), vec![1, 20, 3]);
    assert_eq!(list.get(item2), Some(&20));
}

#[test]
fn get2_mut_with_invalid_token() {
    let mut list = GenerationalTokenList::new();
    let item1 = list.push_back(vec![0, 1, 2]);
    let item2 = list.push_back(vec![3, 4, 5]);
    list.remove(item2);

    let (item1_data, item2_data) = list.get2_mut(item1, item2);
    assert_eq!(item1_data.unwrap(), &vec![0, 1, 2]);
    assert_eq!(item2_data, None);
}

#[test]
fn idempotent_removal_leaves_list_unchanged() {
    let mut list = GenerationalTokenList::new();
    let a = list.push_back(10);
    let b = list.push_back(20);
    assert_eq!(list.remove(a), Some(10));
    // double remove: absent, no change
    assert_eq!(list.remove(a), None);
    assert_eq!(contents(&list), vec![20]);
    // a token from another list never resolves here
    let mut other = GenerationalTokenList::new();
    let foreign = other.push_back(7);
    let _ = b;
    assert_eq!(list.remove(foreign), None);
    assert_eq!(contents(&list), vec![20]);
}

#[test]
fn consuming_iteration_round_trip() {
    let mut list = GenerationalTokenList::new();
    list.push_back(4);
    list.push_front(3);
    list.push_back(5);
    let before = contents(&list);

    let mut collected = Vec::new();
    let mut it = list.into_iter();
    while let Some(v) = it.next() {
        collected.push(v);
    }
    assert_eq!(collected, before);
    assert!(it.next().is_none());
}

#[test]
fn clear_invalidates_every_token() {
    let mut list = GenerationalTokenList::new();
    list.push_back(String::from("moo"));
    let moo_2 = list.push_back(String::from("moo"));
    list.push_back(String::from("cow"));
    let capacity = list.capacity();
    list.clear();
    assert_eq!(list.get(moo_2), None);
    assert_eq!(list.len(), 0);
    assert!(list.is_empty());
    assert_eq!(list.capacity(), capacity);
    // a slot reused after clear still refuses the stale token
    let fresh = list.push_back(String::from("moo"));
    assert_eq!(list.get(moo_2), None);
    assert_ne!(moo_2, fresh);
}

#[test]
fn with_capacity_preallocates_slots() {
    let mut list = GenerationalTokenList::<String>::with_capacity(10);
    assert_eq!(list.capacity(), 10);
    assert_eq!(list.len(), 0);
    let t = list.push_back(String::from("hi"));
    // the push reused a preallocated slot
    assert_eq!(list.capacity(), 10);
    assert_eq!(list.get(t), Some(&String::from("hi")));
}

#[test]
fn push_with_hands_out_own_token() {
    struct Meta {
        data: u8,
        my_token: ItemToken,
    }

    let mut list = GenerationalTokenList::new();
    let item1 = list.push_back_with(|token| Meta { data: 1, my_token: token });
    let item2 = list.push_front_with(|token| Meta { data: 0, my_token: token });

    let first = list.head().unwrap();
    assert_eq!(item2, first.my_token);
    assert_eq!(first.data, 0);
    let last = list.tail().unwrap();
    assert_eq!(item1, last.my_token);
    assert_eq!(last.data, 1);

    let item3 = list.insert_after_with(item2, |token| Meta { data: 9, my_token: token });
    assert_eq!(list.get(item3).unwrap().my_token, item3);
    let item4 = list.insert_before_with(item3, |token| Meta { data: 8, my_token: token });
    assert_eq!(list.get(item4).unwrap().my_token, item4);

    let mut data = Vec::new();
    let mut it = list.iter();
    while let Some(m) = it.next() {
        data.push(m.data);
    }
    assert_eq!(data, vec![0, 8, 9, 1]);
}

#[test]
fn pop_back_returns_tail_values() {
    let mut list = GenerationalTokenList::new();
    list.push_back(1);
    list.push_back(2);
    list.push_back(3);
    assert_eq!(list.pop_back(), Some(3));
    assert_eq!(list.pop_back(), Some(2));
    assert_eq!(list.pop_back(), Some(1));
    assert_eq!(list.pop_back(), None);
    assert_eq!(list.pop_front(), None);
}

#[test]
fn head_mut_and_tail_mut_write_through() {
    let mut list = GenerationalTokenList::new();
    list.push_back(10);
    list.push_back(20);
    list.push_back(30);
    *list.head_mut().unwrap() = 11;
    *list.tail_mut().unwrap() = 33;
    assert_eq!(contents(&list), vec![11, 20, 33]);

    let mut empty = GenerationalTokenList::<i32>::new();
    assert_eq!(empty.head_mut(), None);
    assert_eq!(empty.tail_mut(), None);
}

#[test]
fn get_mut_writes_only_its_own_slot() {
    let mut list = GenerationalTokenList::new();
    let a = list.push_back(10);
    let b = list.push_back(20);
    *list.get_mut(b).unwrap() = 200;
    assert_eq!(contents(&list), vec![10, 200]);
    list.remove(a);
    assert_eq!(list.get_mut(a), None);
}

#[test]
fn find_token_prefers_earlier_position() {
    let mut list = GenerationalTokenList::<i32>::new();
    list.push_back(5);
    list.push_back(6);
    let seven = list.push_back(7);
    let a_different_seven = list.push_back(7);
    assert_ne!(seven, a_different_seven);

    assert_eq!(list.find_token(&7), Some(seven));
    assert_eq!(list.find_token(&0), None);
    assert!(list.contains(&5));
    assert!(!list.contains(&100));
}

#[test]
fn token_at_walks_from_either_end() {
    let mut list = GenerationalTokenList::<i32>::new();
    let item1 = list.push_back(5);
    let item2 = list.push_back(6);
    let item3 = list.push_back(7);

    assert_eq!(list.token_at(0), Some(item1));
    assert_eq!(list.token_at(1), Some(item2));
    assert_eq!(list.token_at(2), Some(item3));
    assert_eq!(list.token_at(3), None);
    assert_eq!(list.token_at(4), None);

    assert_eq!(list.token_at_back(0), Some(item3));
    assert_eq!(list.token_at_back(1), Some(item2));
    assert_eq!(list.token_at_back(2), Some(item1));
    assert_eq!(list.token_at_back(3), None);
    assert_eq!(list.token_at_back(4), None);
}

#[test]
fn iter_mut_updates_every_value() {
    let mut list = GenerationalTokenList::<i32>::new();
    list.push_back(5);
    list.push_back(6);
    list.push_back(7);

    let mut it = list.iter_mut();
    while let Some(v) = it.next(&mut list) {
        *v += 10;
    }
    assert_eq!(contents(&list), vec![15, 16, 17]);
}

#[test]
fn tokens_key_external_maps() {
    let mut list = GenerationalTokenList::new();
    let a = list.push_back("alpha");
    let b = list.push_back("beta");

    let mut ordered = BTreeMap::new();
    ordered.insert(a, 1u32);
    ordered.insert(b, 2u32);
    assert_eq!(ordered.get(&a), Some(&1));
    assert_eq!(ordered.get(&b), Some(&2));

    let mut hashed = HashMap::new();
    hashed.insert(a, "first");
    hashed.insert(b, "second");
    assert_eq!(hashed.get(&a), Some(&"first"));
    assert_eq!(hashed.get(&b), Some(&"second"));
}

#[test]
fn repeated_reuse_never_revives_a_stale_token() {
    let mut list = GenerationalTokenList::new();
    let first = list.push_back(0);
    list.remove(first);
    // cycle the same slot through many generations
    let mut latest = list.push_back(1);
    for round in 2..50 {
        assert_eq!(list.get(first), None);
        list.remove(latest);
        latest = list.push_back(round);
        assert_ne!(latest, first);
    }
    assert_eq!(list.get(first), None);
    assert_eq!(list.get(latest), Some(&49));
    // storage was reused, never grown past the single slot
    assert_eq!(list.capacity(), 1);
}

#[test]
fn default_is_the_empty_list() {
    let list = GenerationalTokenList::<i32>::default();
    assert!(list.is_empty());
    assert_eq!(list.len(), 0);
    assert_eq!(contents(&list), Vec::<i32>::new());
}
