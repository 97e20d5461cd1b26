use p1c0_kernel::collections::intrusive_list::{IntrusiveItem, IntrusiveList};
use p1c0_kernel::collections::OwnedMutPtr;

fn values(list: &IntrusiveList<i32>) -> Vec<i32> {
    let mut out = Vec::new();
    let mut iter = list.iter();
    while let Some(item) = iter.next() {
        out.push(*item.get());
    }
    out
}

fn values_rev(list: &IntrusiveList<i32>) -> Vec<i32> {
    let mut out = Vec::new();
    let mut iter = list.iter();
    while let Some(item) = iter.next_back() {
        out.push(*item.get());
    }
    out
}

fn node(value: i32) -> OwnedMutPtr<IntrusiveItem<i32>> {
    OwnedMutPtr::new_from_box(Box::new(IntrusiveItem::new(value)))
}

#[test]
fn can_append_to_list() {
    let a = node(32);
    let b = node(23);
    let c = node(84);

    let mut list = IntrusiveList::<_>::new();
    list.push(a);
    list.push(b);
    list.push(c);

    assert_eq!(values(&list), vec![32, 23, 84]);

    let d = node(843);
    list.push(d);

    assert_eq!(values(&list), vec![32, 23, 84, 843]);
}

#[test]
fn rev_iter() {
    let mut list = IntrusiveList::<_>::new();
    list.push(node(32));
    list.push(node(23));
    list.push(node(84));

    assert_eq!(values_rev(&list), vec![84, 23, 32]);

    list.push(node(843));

    assert_eq!(values_rev(&list), vec![843, 84, 23, 32]);
}

#[test]
fn double_ended_iter() {
    let mut list = IntrusiveList::<_>::new();
    list.push(node(32));
    list.push(node(23));
    list.push(node(84));
    list.push(node(843));

    let mut iter = list.iter();
    assert_eq!(iter.next().map(|item| *item.get()), Some(32));
    assert_eq!(iter.next_back().map(|item| *item.get()), Some(843));
    assert_eq!(iter.next().map(|item| *item.get()), Some(23));
    assert_eq!(iter.next_back().map(|item| *item.get()), Some(84));
    assert_eq!(iter.next().map(|item| *item.get()), None);
    assert_eq!(iter.next_back().map(|item| *item.get()), None);
}

#[test]
fn pop_entry() {
    let mut list = IntrusiveList::<_>::new();
    list.push(node(32));
    list.push(node(23));
    list.push(node(84));

    assert_eq!(values(&list), vec![32, 23, 84]);

    let removed_element = list.pop().expect("There is no element to pop");
    assert_eq!(*removed_element.get().get(), 32);

    let _ = removed_element.into_box();

    assert_eq!(values(&list), vec![23, 84]);
}

#[test]
fn remove_by_index() {
    let mut list = IntrusiveList::<_>::new();
    list.push(node(32));
    list.push(node(23));
    list.push(node(84));

    assert_eq!(values(&list), vec![32, 23, 84]);

    let removed_element = list.remove(1).expect("Could not remove element");
    assert_eq!(*removed_element.get().get(), 23);

    let _ = removed_element.into_box();

    assert_eq!(values(&list), vec![32, 84]);
}

#[test]
fn remove_by_predicate() {
    let mut list = IntrusiveList::<_>::new();
    list.push(node(32));
    list.push(node(23));
    list.push(node(84));
    list.push(node(234));
    list.push(node(84));

    assert_eq!(values(&list), vec![32, 23, 84, 234, 84]);

    let removed_list = list.drain_filter(|element: &i32| *element == 84);

    assert_eq!(values(&list), vec![32, 23, 234]);
    assert_eq!(values(&removed_list), vec![84, 84]);
}

#[test]
fn pop_from_empty_list_gives_nothing() {
    let mut list = IntrusiveList::<i32>::new();
    assert!(list.is_empty());
    assert!(list.pop().is_none());
    assert!(list.remove(0).is_none());
}

#[test]
fn remove_out_of_range_leaves_list() {
    let mut list = IntrusiveList::<_>::new();
    list.push(node(1));
    list.push(node(2));
    assert!(list.remove(2).is_none());
    assert_eq!(values(&list), vec![1, 2]);
    assert!(!list.is_empty());
}

#[test]
fn release_hands_back_every_item_in_order() {
    let mut list = IntrusiveList::<_>::new();
    list.push(node(5));
    list.push(node(6));
    let seen = std::cell::RefCell::new(Vec::new());
    list.release(|item| seen.borrow_mut().push(*item.get().get()));
    assert_eq!(seen.into_inner(), vec![5, 6]);
}

#[test]
fn item_value_can_be_replaced() {
    let mut item = IntrusiveItem::new(3);
    item.set(4);
    assert_eq!(*item.get(), 4);
    let mut owned = node(9);
    owned.set(IntrusiveItem::new(10));
    assert_eq!(*owned.get().get(), 10);
}
