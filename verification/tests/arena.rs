use sized_cache::LRUList;

fn items(list: &LRUList<u32>) -> Vec<u32> {
    list.iter().copied().collect()
}

#[test]
fn arena_starts_empty() {
    let list: LRUList<u32> = LRUList::with_capacity(4);
    assert_eq!(list.len(), 0);
    assert!(items(&list).is_empty());
    let bare: LRUList<u32> = LRUList::new();
    assert_eq!(bare.len(), 0);
}

#[test]
fn arena_push_front_puts_newest_first() {
    let mut list = LRUList::with_capacity(3);
    let a = list.push_front(10);
    let b = list.push_front(20);
    let c = list.push_front(30);
    assert_eq!(items(&list), [30, 20, 10]);
    assert_eq!(list.len(), 3);
    assert_ne!(a, b);
    assert_ne!(b, c);
    assert_ne!(a, c);
    assert_eq!(*list.get(a), 10);
    assert_eq!(*list.get(b), 20);
    assert_eq!(*list.get(c), 30);
    assert_eq!(list.back(), a);
}

#[test]
fn arena_grows_past_its_first_capacity() {
    let mut list = LRUList::with_capacity(1);
    let mut handles = Vec::new();
    for i in 0..100u32 {
        handles.push(list.push_front(i));
    }
    assert_eq!(list.len(), 100);
    for i in 0..100u32 {
        assert_eq!(*list.get(handles[i as usize]), i);
    }
    let expected: Vec<u32> = (0..100u32).rev().collect();
    assert_eq!(items(&list), expected);
}

#[test]
fn arena_move_to_front_keeps_handles_and_items() {
    let mut list = LRUList::with_capacity(3);
    let a = list.push_front(1);
    let b = list.push_front(2);
    let c = list.push_front(3);
    list.move_to_front(a);
    assert_eq!(items(&list), [1, 3, 2]);
    assert_eq!(list.back(), b);
    list.move_to_front(c);
    assert_eq!(items(&list), [3, 1, 2]);
    list.move_to_front(c);
    assert_eq!(items(&list), [3, 1, 2]);
    list.move_to_front(b);
    assert_eq!(items(&list), [2, 3, 1]);
    assert_eq!(*list.get(a), 1);
    assert_eq!(*list.get(b), 2);
    assert_eq!(*list.get(c), 3);
    assert_eq!(list.len(), 3);
}

#[test]
fn arena_remove_unlinks_head_middle_and_tail() {
    let mut list = LRUList::with_capacity(5);
    let a = list.push_front(1);
    let b = list.push_front(2);
    let c = list.push_front(3);
    let d = list.push_front(4);
    let e = list.push_front(5);
    assert_eq!(list.remove(c), 3);
    assert_eq!(items(&list), [5, 4, 2, 1]);
    assert_eq!(list.remove(e), 5);
    assert_eq!(items(&list), [4, 2, 1]);
    assert_eq!(list.remove(a), 1);
    assert_eq!(items(&list), [4, 2]);
    assert_eq!(list.back(), b);
    assert_eq!(list.remove(b), 2);
    assert_eq!(list.remove(d), 4);
    assert_eq!(list.len(), 0);
    assert!(items(&list).is_empty());
}

#[test]
fn arena_uses_freed_slots_again() {
    let mut list = LRUList::with_capacity(2);
    let a = list.push_front(1);
    let b = list.push_front(2);
    assert_eq!(list.remove(a), 1);
    let c = list.push_front(3);
    assert_eq!(c, a);
    assert_eq!(items(&list), [3, 2]);
    assert_eq!(list.remove(b), 2);
    assert_eq!(list.remove(c), 3);
    let d = list.push_front(4);
    let e = list.push_front(5);
    assert!(d == a || d == b);
    assert!(e == a || e == b);
    assert_ne!(d, e);
    assert_eq!(items(&list), [5, 4]);
}

#[test]
fn arena_set_replaces_in_place() {
    let mut list = LRUList::with_capacity(3);
    let a = list.push_front(1);
    let _b = list.push_front(2);
    assert_eq!(list.set(a, 9), Some(1));
    assert_eq!(items(&list), [2, 9]);
    assert_eq!(*list.get(a), 9);
}

#[test]
fn arena_get_mut_changes_one_item() {
    let mut list = LRUList::with_capacity(3);
    let a = list.push_front(1);
    let b = list.push_front(2);
    *list.get_mut(a) += 40;
    assert_eq!(items(&list), [2, 41]);
    assert_eq!(*list.get(b), 2);
}

#[test]
fn arena_clear_drops_everything() {
    let mut list = LRUList::with_capacity(3);
    list.push_front(1);
    list.push_front(2);
    list.clear();
    assert_eq!(list.len(), 0);
    assert!(items(&list).is_empty());
    let a = list.push_front(7);
    assert_eq!(items(&list), [7]);
    assert_eq!(list.back(), a);
}

#[test]
fn arena_to_vec_and_iter_agree() {
    let mut list = LRUList::with_capacity(3);
    list.push_front(1);
    list.push_front(2);
    list.push_front(3);
    let refs: Vec<u32> = list.to_vec().into_iter().copied().collect();
    assert_eq!(refs, [3, 2, 1]);
    assert_eq!(items(&list), [3, 2, 1]);
    // a second walk starts from the front again
    assert_eq!(items(&list), [3, 2, 1]);
}

#[test]
fn arena_duplicate_copies_items_and_order() {
    let mut list = LRUList::with_capacity(3);
    let a = list.push_front(1);
    let b = list.push_front(2);
    let c = list.push_front(3);
    list.remove(b);
    let mut twin = list.duplicate(|x: &u32| *x + 100);
    assert_eq!(items(&twin), [103, 101]);
    assert_eq!(*twin.get(a), 101);
    assert_eq!(*twin.get(c), 103);
    twin.push_front(7);
    assert_eq!(items(&twin), [7, 103, 101]);
    assert_eq!(items(&list), [3, 1]);
}
