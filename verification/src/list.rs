//! The doubly linked list of `rcu_list`, holding task ids.
//!
//! Everything here is believed, not proved. The list is made for many
//! parties at once; the registry owns its list alone, and every function
//! here that changes the list takes it by `&mut`, so that between two calls
//! nothing else can have changed it. What the contracts say of the list's
//! content holds of a list that is used in this way only.

use rcu_list::d_list::LinkedList;
use vstd::prelude::*;

verus! {

/// `rcu_list::d_list::LinkedList`, taken as it is: nothing inside a list is
/// seen from here.
#[verifier::external_type_specification]
#[verifier::external_body]
#[verifier::reject_recursive_types(T)]
pub struct ExLinkedList<T>(LinkedList<T>);

/// The ids that a list holds, from its front to its back: the data of the
/// nodes between the list's head and its tail, in the order of the links.
pub uninterp spec fn list_ids(list: LinkedList<u64>) -> Seq<u64>;

/// `LinkedList::new`: the new list holds nothing, its head is linked to its
/// tail.
#[verifier::external_body]
pub(crate) fn list_new() -> (list: LinkedList<u64>)
    ensures
        list_ids(list) == Seq::<u64>::empty(),
{
    LinkedList::new()
}

/// `LinkedList::is_empty`: whether the head's successor is the tail, that is
/// whether the list holds no id.
#[verifier::external_body]
pub(crate) fn list_is_empty(list: &LinkedList<u64>) -> (empty: bool)
    ensures
        empty == (list_ids(*list).len() == 0),
{
    list.is_empty()
}

/// `LinkedList::push_front`: a node with the id is linked in behind the
/// head, so the id becomes the first item and the others keep their order
/// behind it. The entry that the call returns is let go, which changes
/// nothing.
#[verifier::external_body]
pub(crate) fn list_push_front(list: &mut LinkedList<u64>, id: u64)
    ensures
        list_ids(*final(list)) == seq![id] + list_ids(*old(list)),
{
    list.push_front(id);
}

/// `LinkedList::iter`, read to its end: the iterator follows the links from
/// the head and stops at the tail, so it yields the ids from front to back.
/// The list stays as it is.
#[verifier::external_body]
pub(crate) fn list_snapshot(list: &LinkedList<u64>) -> (ids: Vec<u64>)
    ensures
        ids@ == list_ids(*list),
{
    list.iter().map(|entry| *entry).collect()
}

/// `LinkedList::iter` up to the item at position `at`, counted from zero,
/// then `Entry::remove` on it: that node is unlinked and the others keep
/// their order.
#[verifier::external_body]
pub(crate) fn list_remove_at(list: &mut LinkedList<u64>, at: usize)
    requires
        at < list_ids(*old(list)).len(),
    ensures
        list_ids(*final(list)) == list_ids(*old(list)).remove(at as int),
{
    if let Some(entry) = list.iter().nth(at) {
        entry.remove();
    }
}

} // verus!
