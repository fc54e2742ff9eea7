use generational_token_list::GenerationalTokenList;

fn contents(list: &GenerationalTokenList<i32>) -> Vec<i32> {
    let mut data = Vec::new();
    let mut it = list.iter();
    while let Some(v) = it.next() {
        data.push(*v);
    }
    data
}

#[test]
fn push_back() {
    let mut list = GenerationalTokenList::new();
    list.push_back(10);
    list.push_back(20);
    list.push_back(30);

    assert_eq!(contents(&list).as_slice(), &[10, 20, 30]);
}

#[test]
fn push_back_internals() {
    let mut list = GenerationalTokenList::new();
    let item1 = list.push_back(10);
    let item2 = list.push_back(20);
    let item3 = list.push_back(30);

    let mut it = list.iter_with_tokens();
    assert_eq!(it.next(), Some((item1, &10)));
    assert_eq!(it.next(), Some((item2, &20)));
    assert_eq!(it.next(), Some((item3, &30)));
    assert_eq!(it.next(), None);
    assert_eq!(list.prev_token(item1), None);
    assert_eq!(list.next_token(item1), Some(item2));
    assert_eq!(list.prev_token(item2), Some(item1));
    assert_eq!(list.next_token(item2), Some(item3));
    assert_eq!(list.prev_token(item3), Some(item2));
    assert_eq!(list.next_token(item3), None);
}

#[test]
fn remove_invalid() {
    let mut list = GenerationalTokenList::new();
    let item1 = list.push_back(10);
    list.push_back(20);
    assert_eq!(contents(&list).as_slice(), &[10, 20]);
    assert_eq!(list.remove(item1), Some(10));
    assert_eq!(contents(&list).as_slice(), &[20]);
    assert_eq!(list.remove(item1), None);
    assert_eq!(contents(&list).as_slice(), &[20]);
}

#[test]
fn remove_only() {
    let mut list = GenerationalTokenList::new();
    let item1 = list.push_back(10);

    assert_eq!(list.head_token(), Some(item1));
    assert_eq!(list.tail_token(), Some(item1));
    let mut it = list.iter_with_tokens();
    assert_eq!(it.next(), Some((item1, &10)));
    assert_eq!(it.next(), None);
    assert_eq!(list.prev_token(item1), None);
    assert_eq!(list.next_token(item1), None);

    list.remove(item1);

    assert_eq!(list.head_token(), None);
    assert_eq!(list.tail_token(), None);
    assert_eq!(list.len(), 0);
    assert_eq!(contents(&list).as_slice(), &[] as &[i32]);
}

#[test]
fn remove_head() {
    let mut list = GenerationalTokenList::new();
    let item1 = list.push_back(10);
    let item2 = list.push_back(20);

    assert_eq!(list.head_token(), Some(item1));
    assert_eq!(list.tail_token(), Some(item2));
    let mut it = list.iter_with_tokens();
    assert_eq!(it.next(), Some((item1, &10)));
    assert_eq!(it.next(), Some((item2, &20)));
    assert_eq!(it.next(), None);
    assert_eq!(list.prev_token(item1), None);
    assert_eq!(list.next_token(item1), Some(item2));
    assert_eq!(list.prev_token(item2), Some(item1));
    assert_eq!(list.next_token(item2), None);

    list.remove(item1);

    assert_eq!(list.head_token(), Some(item2));
    assert_eq!(list.tail_token(), Some(item2));
    let mut it = list.iter_with_tokens();
    assert_eq!(it.next(), Some((item2, &20)));
    assert_eq!(it.next(), None);
    assert_eq!(list.prev_token(item2), None);
    assert_eq!(list.next_token(item2), None);
}

#[test]
fn remove_tail() {
    let mut list = GenerationalTokenList::new();
    let item1 = list.push_back(10);
    let item2 = list.push_back(20);

    assert_eq!(list.head_token(), Some(item1));
    assert_eq!(list.tail_token(), Some(item2));
    let mut it = list.iter_with_tokens();
    assert_eq!(it.next(), Some((item1, &10)));
    assert_eq!(it.next(), Some((item2, &20)));
    assert_eq!(it.next(), None);

    list.remove(item2);

    assert_eq!(list.head_token(), Some(item1));
    assert_eq!(list.tail_token(), Some(item1));
    let mut it = list.iter_with_tokens();
    assert_eq!(it.next(), Some((item1, &10)));
    assert_eq!(it.next(), None);
    assert_eq!(list.prev_token(item1), None);
    assert_eq!(list.next_token(item1), None);
}

#[test]
fn remove_middle() {
    let mut list = GenerationalTokenList::new();
    let item1 = list.push_back(10);
    let item2 = list.push_back(20);
    let item3 = list.push_back(30);
    let item4 = list.push_back(40);

    assert_eq!(list.head_token(), Some(item1));
    assert_eq!(list.tail_token(), Some(item4));
    let mut it = list.iter_with_tokens();
    assert_eq!(it.next(), Some((item1, &10)));
    assert_eq!(it.next(), Some((item2, &20)));
    assert_eq!(it.next(), Some((item3, &30)));
    assert_eq!(it.next(), Some((item4, &40)));
    assert_eq!(it.next(), None);

    list.remove(item2);

    assert_eq!(list.head_token(), Some(item1));
    assert_eq!(list.tail_token(), Some(item4));
    let mut it = list.iter_with_tokens();
    assert_eq!(it.next(), Some((item1, &10)));
    assert_eq!(it.next(), Some((item3, &30)));
    assert_eq!(it.next(), Some((item4, &40)));
    assert_eq!(it.next(), None);
    assert_eq!(list.next_token(item1), Some(item3));
    assert_eq!(list.prev_token(item3), Some(item1));

    list.remove(item3);
    assert_eq!(list.head_token(), Some(item1));
    assert_eq!(list.tail_token(), Some(item4));
    let mut it = list.iter_with_tokens();
    assert_eq!(it.next(), Some((item1, &10)));
    assert_eq!(it.next(), Some((item4, &40)));
    assert_eq!(it.next(), None);
    assert_eq!(list.next_token(item1), Some(item4));
    assert_eq!(list.prev_token(item4), Some(item1));
}

#[test]
fn pop_front() {
    let mut list = GenerationalTokenList::new();
    list.push_back(10);
    list.push_back(20);
    list.push_back(30);
    assert_eq!(contents(&list).as_slice(), &[10, 20, 30]);
    assert_eq!(list.pop_front(), Some(10));
    assert_eq!(contents(&list).as_slice(), &[20, 30]);
    assert_eq!(list.pop_front(), Some(20));
    assert_eq!(contents(&list).as_slice(), &[30]);
    assert_eq!(list.pop_front(), Some(30));
    assert_eq!(contents(&list).as_slice(), &[] as &[i32]);
}

#[test]
fn into_iter() {
    let mut list = GenerationalTokenList::<i32>::new();
    list.push_back(10);
    list.push_back(20);
    list.push_back(30);

    let mut data = Vec::new();
    let mut it = list.into_iter();
    while let Some(v) = it.next() {
        data.push(v);
    }
    assert_eq!(data, vec![10, 20, 30]);
}

#[test]
fn index() {
    let mut list = GenerationalTokenList::<i32>::new();
    let item1 = list.push_back(10);
    let item2 = list.push_back(20);
    let item3 = list.push_back(30);
    assert_eq!(*list.index(item1), 10);
    assert_eq!(*list.index(item2), 20);
    assert_eq!(*list.index(item3), 30);
}

#[test]
fn index_mut() {
    let mut list = GenerationalTokenList::<i32>::new();
    let item1 = list.push_back(10);
    let item2 = list.push_back(20);
    let item3 = list.push_back(30);

    *list.index_mut(item1) = 500;
    *list.index_mut(item3) *= 9;

    assert_eq!(*list.index(item1), 500);
    assert_eq!(*list.index(item2), 20);
    assert_eq!(*list.index(item3), 270);
}

#[test]
fn iter_with_tokens() {
    let mut list = GenerationalTokenList::<i32>::new();
    let item1 = list.push_back(10);
    let item2 = list.push_back(20);
    let item3 = list.push_back(30);

    let mut iter = list.iter_with_tokens();
    assert_eq!(iter.next(), Some((item1, &10)));
    assert_eq!(iter.next(), Some((item2, &20)));
    assert_eq!(iter.next(), Some((item3, &30)));
    assert_eq!(iter.next(), None);
}

#[test]
fn iter_with_tokens_mut() {
    let mut list = GenerationalTokenList::<i32>::new();
    let item1 = list.push_back(10);
    let item2 = list.push_back(20);
    let item3 = list.push_back(30);

    let mut iter = list.iter_with_tokens_mut();
    let i1 = iter.next(&mut list).unwrap();
    assert_eq!(i1.0, item1);
    *i1.1 *= 2;
    let i2 = iter.next(&mut list).unwrap();
    assert_eq!(i2.0, item2);
    *i2.1 *= 3;
    let i3 = iter.next(&mut list).unwrap();
    assert_eq!(i3.0, item3);
    *i3.1 *= 4;
    assert!(iter.next(&mut list).is_none());

    let mut data = Vec::new();
    let mut it = list.into_iter();
    while let Some(v) = it.next() {
        data.push(v);
    }
    assert_eq!(data, vec![20, 60, 120]);
}
