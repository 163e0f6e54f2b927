//! A singly linked list of heap-allocated nodes, specified by the sequence
//! of values it holds.
//!
//! `remove` and `update` look elements up with `==`, so — as with the
//! searches — what they do is pinned down for element types whose equality
//! obeys its specification (`obeys_eq_spec`), the integers among them.

use vstd::prelude::*;
use vstd::std_specs::cmp::PartialEqSpec;

verus! {

/// `s` with the first element that compares equal to `value` removed.
pub open spec fn remove_first<T: PartialEq>(s: Seq<T>, value: T) -> Seq<T>
    decreases s.len(),
{
    if s.len() == 0 {
        s
    } else if s[0].eq_spec(&value) {
        s.drop_first()
    } else {
        seq![s[0]] + remove_first(s.drop_first(), value)
    }
}

/// `s` with the first element that compares equal to `old_val` replaced by
/// `new_val`.
pub open spec fn update_first<T: PartialEq>(s: Seq<T>, old_val: T, new_val: T) -> Seq<T>
    decreases s.len(),
{
    if s.len() == 0 {
        s
    } else if s[0].eq_spec(&old_val) {
        seq![new_val] + s.drop_first()
    } else {
        seq![s[0]] + update_first(s.drop_first(), old_val, new_val)
    }
}

/// The operations of a singly linked list, specified over the sequence of
/// values the list holds.
pub trait LinkedListT: Sized {
    type Item: PartialEq;

    /// The values held, front to back.
    spec fn model(&self) -> Seq<Self::Item>;

    /// An empty list.
    fn new() -> (r: Self)
        ensures
            r.model() == Seq::<Self::Item>::empty(),
    ;

    /// Pushes `value` at the front.
    fn add(&mut self, value: Self::Item)
        ensures
            final(self).model() == seq![value] + old(self).model(),
    ;

    /// Appends `value` at the back.
    fn push_back(&mut self, value: Self::Item)
        ensures
            final(self).model() == old(self).model().push(value),
    ;

    /// Removes the first element that compares equal to `value`, if any.
    fn remove(&mut self, value: Self::Item)
        ensures
            Self::Item::obeys_eq_spec() ==> final(self).model() == remove_first(
                old(self).model(),
                value,
            ),
    ;

    /// Replaces the first element that compares equal to `old_val` with
    /// `new_val`.
    fn update(&mut self, old_val: Self::Item, new_val: Self::Item)
        ensures
            Self::Item::obeys_eq_spec() ==> final(self).model() == update_first(
                old(self).model(),
                old_val,
                new_val,
            ),
    ;
}

struct Node<T> {
    value: T,
    next: Option<Box<Node<T>>>,
}

impl<T> Node<T> {
    /// A node holding `value` with nothing after it.
    fn new(value: T) -> (r: Self)
        ensures
            r.value == value,
            r.next is None,
    {
        Node { value, next: None }
    }
}

/// The values held by a chain of nodes, front to back.
spec fn link_model<T>(link: Option<Box<Node<T>>>) -> Seq<T>
    decreases link,
{
    match link {
        None => Seq::empty(),
        Some(node) => seq![node.value] + link_model(node.next),
    }
}

fn push_back_link<T>(link: Option<Box<Node<T>>>, value: T) -> (r: Option<Box<Node<T>>>)
    ensures
        link_model(r) == link_model(link).push(value),
    decreases link,
{
    match link {
        None => {
            let r = Some(Box::new(Node::new(value)));
            proof {
                assert(link_model(r) =~= link_model(link).push(value));
            }
            r
        },
        Some(node) => {
            let Node { value: v, next } = *node;
            let new_next = push_back_link(next, value);
            let r = Some(Box::new(Node { value: v, next: new_next }));
            proof {
                assert(link_model(r) =~= link_model(link).push(value));
            }
            r
        },
    }
}

fn remove_link<T: PartialEq>(link: Option<Box<Node<T>>>, value: &T) -> (r: Option<
    Box<Node<T>>,
>)
    ensures
        T::obeys_eq_spec() ==> link_model(r) == remove_first(link_model(link), *value),
    decreases link,
{
    match link {
        None => None,
        Some(node) => {
            let Node { value: v, next } = *node;
            if v.eq(value) {
                proof {
                    if T::obeys_eq_spec() {
                        assert(link_model(next) =~= remove_first(link_model(link), *value));
                    }
                }
                next
            } else {
                let new_next = remove_link(next, value);
                let r = Some(Box::new(Node { value: v, next: new_next }));
                proof {
                    if T::obeys_eq_spec() {
                        assert(link_model(link).drop_first() =~= link_model(next));
                        assert(link_model(r) =~= remove_first(link_model(link), *value));
                    }
                }
                r
            }
        },
    }
}

fn update_link<T: PartialEq>(link: Option<Box<Node<T>>>, old_val: &T, new_val: T) -> (r: Option<
    Box<Node<T>>,
>)
    ensures
        T::obeys_eq_spec() ==> link_model(r) == update_first(
            link_model(link),
            *old_val,
            new_val,
        ),
    decreases link,
{
    match link {
        None => None,
        Some(node) => {
            let Node { value: v, next } = *node;
            if v.eq(old_val) {
                let r = Some(Box::new(Node { value: new_val, next }));
                proof {
                    if T::obeys_eq_spec() {
                        assert(link_model(r) =~= update_first(link_model(link), *old_val, new_val));
                    }
                }
                r
            } else {
                let new_next = update_link(next, old_val, new_val);
                let r = Some(Box::new(Node { value: v, next: new_next }));
                proof {
                    if T::obeys_eq_spec() {
                        assert(link_model(link).drop_first() =~= link_model(next));
                        assert(link_model(r) =~= update_first(link_model(link), *old_val, new_val));
                    }
                }
                r
            }
        },
    }
}

/// A singly linked list whose nodes own their successors.
pub struct LinkedList<T> {
    head: Option<Box<Node<T>>>,
}

impl<T: PartialEq> LinkedList<T> {
    /// A borrow of the value at position `i`, counted from the front, or
    /// nothing when the list is shorter.
    pub fn get(&self, i: usize) -> (r: Option<&T>)
        ensures
            i < self.model().len() ==> (r matches Some(v) && *v == self.model()[i as int]),
            i >= self.model().len() ==> r is None,
    {
        let mut cur: &Option<Box<Node<T>>> = &self.head;
        let mut k: usize = i;
        loop
            invariant
                k <= i,
                i as int - k as int <= self.model().len(),
                link_model(*cur) == self.model().skip(i as int - k as int),
            decreases link_model(*cur).len(),
        {
            match cur {
                None => {
                    return None;
                },
                Some(node) => {
                    if k == 0 {
                        proof {
                            assert(link_model(*cur).len() > 0);
                            assert(i < self.model().len());
                            assert(self.model().skip(i as int)[0] == self.model()[i as int]);
                        }
                        return Some(&node.value);
                    }
                    proof {
                        assert(link_model(*cur).drop_first() =~= link_model(node.next));
                        assert(self.model().skip(i as int - k as int).drop_first()
                            =~= self.model().skip(i as int - (k - 1) as int));
                    }
                    k = k - 1;
                    cur = &node.next;
                },
            }
        }
    }
}

impl<T: PartialEq> LinkedListT for LinkedList<T> {
    type Item = T;

    closed spec fn model(&self) -> Seq<T> {
        link_model(self.head)
    }

    fn new() -> (r: Self) {
        LinkedList { head: None }
    }

    fn add(&mut self, value: T) {
        let next = self.head.take();
        let ghost tail = link_model(next);
        self.head = Some(Box::new(Node { value, next }));
        proof {
            assert(self.model() =~= seq![value] + tail);
        }
    }

    fn push_back(&mut self, value: T) {
        let head = self.head.take();
        self.head = push_back_link(head, value);
    }

    fn remove(&mut self, value: T) {
        let head = self.head.take();
        self.head = remove_link(head, &value);
    }

    fn update(&mut self, old_val: T, new_val: T) {
        let head = self.head.take();
        self.head = update_link(head, &old_val, new_val);
    }
}

} // verus!
