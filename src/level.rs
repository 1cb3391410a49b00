//! The orders resting at one price, oldest first, held in a
//! `linked_hash_map::LinkedHashMap` keyed by order id.

use vstd::prelude::*;

use linked_hash_map::LinkedHashMap;

use crate::order::OrderId;

verus! {

#[verifier::external_type_specification]
#[verifier::external_body]
#[verifier::reject_recursive_types(K)]
#[verifier::reject_recursive_types(V)]
#[verifier::reject_recursive_types(S)]
pub struct ExLinkedHashMap<K, V, S>(LinkedHashMap<K, V, S>);

/// The ids of the orders resting at one price, in the order they arrived.
pub type OrderIds = LinkedHashMap<OrderId, ()>;

/// The keys that a level holds, from the front (oldest) to the back.
pub uninterp spec fn queued_ids(level: OrderIds) -> Seq<OrderId>;

/// `ids` with every occurrence of `id` taken out.
pub open spec fn without(ids: Seq<OrderId>, id: OrderId) -> Seq<OrderId> {
    ids.filter(|x: OrderId| x != id)
}

/// Taking `id` out keeps exactly the other ids, keeps them unique, and
/// changes nothing where `id` was absent.
pub proof fn lemma_without(ids: Seq<OrderId>, id: OrderId)
    ensures
        forall|x: OrderId| #[trigger] without(ids, id).contains(x) <==> ids.contains(x) && x != id,
        ids.no_duplicates() ==> without(ids, id).no_duplicates(),
        !ids.contains(id) ==> without(ids, id) == ids,
    decreases ids.len(),
{
    if ids.len() > 0 {
        let rest = ids.drop_last();
        let last = ids.last();
        lemma_without(rest, id);
        assert(rest.push(last) == ids);
        reveal(Seq::filter);
        let w = without(rest, id);
        assert(without(ids, id) == if last != id {
            w.push(last)
        } else {
            w
        });
        assert forall|x: OrderId| #[trigger] without(ids, id).contains(x) <==> ids.contains(x) && x
            != id by {
            if ids.contains(x) && x != id {
                let i = choose|i: int| 0 <= i < ids.len() && ids[i] == x;
                if i < ids.len() - 1 {
                    assert(rest[i] == x);
                }
            }
            if without(ids, id).contains(x) && x != last {
                assert(w.push(last)[w.len() as int] == last);
                let k = choose|k: int| 0 <= k < without(ids, id).len() && without(ids, id)[k] == x;
                if last != id {
                    assert(k < w.len());
                    assert(w[k] == x);
                }
                assert(w.contains(x));
                let i = choose|i: int| 0 <= i < rest.len() && rest[i] == x;
                assert(ids[i] == x);
            }
        }
        if ids.no_duplicates() {
            assert(rest.no_duplicates()) by {
                assert forall|i: int, j: int| 0 <= i < rest.len() && 0 <= j < rest.len() && i != j
                    implies rest[i] != rest[j] by {
                    assert(ids[i] == rest[i] && ids[j] == rest[j]);
                }
            }
            if last != id {
                assert(!rest.contains(last)) by {
                    if rest.contains(last) {
                        let i = choose|i: int| 0 <= i < rest.len() && rest[i] == last;
                        assert(ids[i] == ids[ids.len() - 1]);
                    }
                }
                assert(!w.contains(last));
                assert forall|i: int, j: int|
                    0 <= i < w.push(last).len() && 0 <= j < w.push(last).len() && i != j implies w.push(
                    last,
                )[i] != w.push(last)[j] by {
                    if i < w.len() && j < w.len() {
                        assert(w[i] != w[j]);
                    } else if i < w.len() {
                        assert(w.contains(w[i]));
                    } else {
                        assert(w.contains(w[j]));
                    }
                }
            }
        }
        if !ids.contains(id) {
            assert(!rest.contains(id)) by {
                if rest.contains(id) {
                    let i = choose|i: int| 0 <= i < rest.len() && rest[i] == id;
                    assert(ids[i] == id);
                }
            }
        }
    } else {
        assert(without(ids, id) =~= ids) by {
            reveal(Seq::filter);
        }
    }
}

/// Relies on `LinkedHashMap::new`: a new map holds no entry.
#[verifier::external_body]
pub(crate) fn level_new() -> (r: OrderIds)
    ensures
        queued_ids(r) == Seq::<OrderId>::empty(),
{
    LinkedHashMap::new()
}

/// Relies on `LinkedHashMap::insert`: a key that is not in the map is linked
/// in at the back; keys stay unique.
#[verifier::external_body]
pub(crate) fn level_push_back(level: &mut OrderIds, id: OrderId)
    requires
        !queued_ids(*old(level)).contains(id),
    ensures
        queued_ids(*final(level)) == queued_ids(*old(level)).push(id),
{
    level.insert(id, ());
}

/// Relies on `LinkedHashMap::remove`: the entry of `id`, if any, is unlinked;
/// the others keep their order.
#[verifier::external_body]
pub(crate) fn level_remove(level: &mut OrderIds, id: OrderId)
    ensures
        queued_ids(*final(level)) == without(queued_ids(*old(level)), id),
{
    level.remove(&id);
}

/// Relies on `LinkedHashMap::front`: the oldest entry, if the map holds any.
#[verifier::external_body]
pub(crate) fn level_front(level: &OrderIds) -> (r: Option<OrderId>)
    ensures
        queued_ids(*level).len() == 0 ==> r is None,
        queued_ids(*level).len() > 0 ==> r == Some(queued_ids(*level)[0]),
{
    level.front().map(|(id, _)| *id)
}

/// Relies on `LinkedHashMap::is_empty`.
#[verifier::external_body]
pub(crate) fn level_is_empty(level: &OrderIds) -> (r: bool)
    ensures
        r == (queued_ids(*level).len() == 0),
{
    level.is_empty()
}

/// Relies on `LinkedHashMap::keys`: the keys, front to back.
#[verifier::external_body]
pub(crate) fn level_ids(level: &OrderIds) -> (r: Vec<OrderId>)
    ensures
        r@ == queued_ids(*level),
{
    level.keys().copied().collect()
}

} // verus!
