use vstd::prelude::*;

use fixed_deque::Deque;

use crate::graph_components::GraphChange;

verus! {

#[verifier::external_type_specification]
#[verifier::external_body]
#[verifier::reject_recursive_types(T)]
pub struct ExDeque<T>(Deque<T>);

/// The change records that a deque holds, oldest first.
pub uninterp spec fn deque_items(d: Deque<GraphChange>) -> Seq<GraphChange>;

/// The maximum length that a deque of change records was made with.
pub uninterp spec fn deque_maxlen(d: Deque<GraphChange>) -> usize;

/// Relies on `fixed_deque::Deque::from_vec`: built from an empty vector it is
/// an empty deque with the given maximum length (unlike `Deque::new`, it
/// reserves no room up front, so no limit makes it fail).
#[verifier::external_body]
fn deque_new(maxlen: usize) -> (r: Deque<GraphChange>)
    ensures
        deque_items(r) == Seq::<GraphChange>::empty(),
        deque_maxlen(r) == maxlen,
{
    Deque::from_vec(Vec::new(), maxlen)
}

/// Relies on `fixed_deque::Deque::push_back`: when the deque already holds
/// its maximum length, the front item is popped (if there is one) and
/// returned before the new item goes to the back; otherwise the item goes to
/// the back and nothing is returned.
#[verifier::external_body]
fn deque_push_back(d: &mut Deque<GraphChange>, value: GraphChange) -> (r: Option<GraphChange>)
    ensures
        deque_maxlen(*final(d)) == deque_maxlen(*old(d)),
        deque_items(*old(d)).len() != deque_maxlen(*old(d)) ==> r is None && deque_items(*final(d))
            == deque_items(*old(d)).push(value),
        deque_items(*old(d)).len() == deque_maxlen(*old(d)) && deque_items(*old(d)).len() > 0 ==> r
            == Some(deque_items(*old(d))[0]) && deque_items(*final(d)) == deque_items(
            *old(d),
        ).drop_first().push(value),
        deque_items(*old(d)).len() == deque_maxlen(*old(d)) && deque_items(*old(d)).len() == 0 ==> r
            is None && deque_items(*final(d)) == seq![value],
{
    d.push_back(value)
}

/// Relies on `fixed_deque::Deque::pop_back`: removes and returns the back
/// item, or returns nothing when the deque is empty.
#[verifier::external_body]
fn deque_pop_back(d: &mut Deque<GraphChange>) -> (r: Option<GraphChange>)
    ensures
        deque_maxlen(*final(d)) == deque_maxlen(*old(d)),
        deque_items(*old(d)).len() == 0 ==> r is None && deque_items(*final(d)) == deque_items(
            *old(d),
        ),
        deque_items(*old(d)).len() > 0 ==> r == Some(deque_items(*old(d)).last()) && deque_items(
            *final(d),
        ) == deque_items(*old(d)).drop_last(),
{
    d.pop_back()
}

/// Relies on `fixed_deque::Deque::clear`: removes every item and keeps the
/// maximum length.
#[verifier::external_body]
fn deque_clear(d: &mut Deque<GraphChange>)
    ensures
        deque_maxlen(*final(d)) == deque_maxlen(*old(d)),
        deque_items(*final(d)) == Seq::<GraphChange>::empty(),
{
    d.clear()
}

/// Relies on `fixed_deque::Deque::len`: the number of items held.
#[verifier::external_body]
fn deque_len(d: &Deque<GraphChange>) -> (r: usize)
    ensures
        r == deque_items(*d).len(),
{
    d.len()
}

/// The number of changes a history keeps unless told otherwise.
pub const UNDO_HISTORY_LIMIT: usize = 100;

/// A bounded record of committed changes, oldest first: appending to a full
/// record discards its oldest entry.
pub struct HistoryDeque {
    deque: Deque<GraphChange>,
}

impl View for HistoryDeque {
    type V = Seq<GraphChange>;

    closed spec fn view(&self) -> Seq<GraphChange> {
        deque_items(self.deque)
    }
}

impl HistoryDeque {
    /// The number of entries kept before the oldest is discarded.
    pub closed spec fn limit(&self) -> nat {
        deque_maxlen(self.deque) as nat
    }

    /// An empty history that keeps the last `limit` changes.
    pub fn new(limit: usize) -> (r: Self)
        ensures
            r@ == Seq::<GraphChange>::empty(),
            r.limit() == limit,
    {
        HistoryDeque { deque: deque_new(limit) }
    }

    /// Appends `change`; when the history is full its oldest entry is
    /// discarded and returned. (A history made with limit zero discards
    /// nothing: it is full only while empty.)
    pub fn register_change(&mut self, change: GraphChange) -> (r: Option<GraphChange>)
        ensures
            final(self).limit() == old(self).limit(),
            old(self)@.len() != old(self).limit() ==> r is None && final(self)@ == old(self)@.push(
                change,
            ),
            old(self)@.len() == old(self).limit() && old(self).limit() > 0 ==> r == Some(
                old(self)@[0],
            ) && final(self)@ == old(self)@.drop_first().push(change),
            old(self)@.len() == old(self).limit() && old(self).limit() == 0 ==> r is None
                && final(self)@ == seq![change],
    {
        deque_push_back(&mut self.deque, change)
    }

    /// Removes and returns the most recent entry, if any.
    pub fn pop_change(&mut self) -> (r: Option<GraphChange>)
        ensures
            final(self).limit() == old(self).limit(),
            old(self)@.len() == 0 ==> r is None && final(self)@ == old(self)@,
            old(self)@.len() > 0 ==> r == Some(old(self)@.last()) && final(self)@ == old(
                self,
            )@.drop_last(),
    {
        deque_pop_back(&mut self.deque)
    }

    /// Erases every entry and keeps the limit.
    pub fn clear_history(&mut self)
        ensures
            final(self).limit() == old(self).limit(),
            final(self)@ == Seq::<GraphChange>::empty(),
    {
        deque_clear(&mut self.deque)
    }

    /// The number of entries held.
    pub fn len(&self) -> (r: usize)
        ensures
            r == self@.len(),
    {
        deque_len(&self.deque)
    }
}

impl Default for HistoryDeque {
    fn default() -> (r: Self)
        ensures
            r@ == Seq::<GraphChange>::empty(),
            r.limit() == UNDO_HISTORY_LIMIT,
    {
        HistoryDeque::new(UNDO_HISTORY_LIMIT)
    }
}

} // verus!
