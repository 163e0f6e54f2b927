//! Classic data-structure and algorithm exercises, verified: an
//! infix-to-postfix/prefix expression-notation converter, linear and binary
//! search, three comparison sorts, and a singly linked list.

pub mod linked_list;
pub mod notation;
pub mod searching;
pub mod sorting;
