use dsa::linked_list::LinkedList;
use dsa::linked_list::LinkedListT;

#[test]
fn add_pushes_to_front() {
    let mut list: LinkedList<i32> = LinkedList::new();
    list.add(2);
    list.add(1);
    assert_eq!(list.get(0), Some(&1));
    assert_eq!(list.get(1), Some(&2));
    assert_eq!(list.get(2), None);
}

#[test]
fn push_back_appends() {
    let mut list: LinkedList<i32> = LinkedList::new();
    list.push_back(1);
    list.push_back(2);
    list.push_back(3);
    assert_eq!(list.get(0), Some(&1));
    assert_eq!(list.get(1), Some(&2));
    assert_eq!(list.get(2), Some(&3));
    assert_eq!(list.get(3), None);
}

#[test]
fn remove_drops_first_match_only() {
    let mut list: LinkedList<i32> = LinkedList::new();
    list.push_back(1);
    list.push_back(2);
    list.push_back(1);
    list.remove(1);
    assert_eq!(list.get(0), Some(&2));
    assert_eq!(list.get(1), Some(&1));
    assert_eq!(list.get(2), None);
    list.remove(7);
    assert_eq!(list.get(0), Some(&2));
}

#[test]
fn update_replaces_first_match() {
    let mut list: LinkedList<i32> = LinkedList::new();
    list.push_back(1);
    list.push_back(2);
    list.push_back(2);
    list.update(2, 5);
    assert_eq!(list.get(0), Some(&1));
    assert_eq!(list.get(1), Some(&5));
    assert_eq!(list.get(2), Some(&2));
    list.update(9, 0);
    assert_eq!(list.get(0), Some(&1));
}

#[test]
fn empty_list_has_nothing() {
    let list: LinkedList<i32> = LinkedList::new();
    assert_eq!(list.get(0), None);
}
