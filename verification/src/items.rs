//! Arrays whose items are told apart by an id: channels, threads, roles,
//! members and voice states.
use crate::json::{lemma_trees, lemma_trees_push, lemma_trees_update, trees, Json, JsonTree};
use crate::text::str_eq;
use vstd::prelude::*;

verus! {

/// Where an item keeps its id.
#[derive(Clone, Copy)]
pub enum IdPlace {
    /// `item["id"]`: channels, threads and roles.
    Own,
    /// `item["user"]["id"]`: members.
    User,
    /// `item["user_id"]`: voice states.
    UserId,
}

impl IdPlace {
    /// The id of an item, where it is a string.
    pub open spec fn id_of(self, item: JsonTree) -> Option<Seq<char>> {
        match self {
            IdPlace::Own => item.at("id"@).as_text(),
            IdPlace::User => item.at("user"@).at("id"@).as_text(),
            IdPlace::UserId => item.at("user_id"@).as_text(),
        }
    }

    /// The test for the items whose id is not `id`.
    pub open spec fn differs(self, id: Seq<char>) -> spec_fn(JsonTree) -> bool {
        |item: JsonTree| self.id_of(item) != Some(id)
    }

    /// The id of an item, where it is a string.
    pub fn read<'a>(self, item: &'a Json) -> (r: Option<&'a str>)
        ensures
            match r {
                Some(id) => self.id_of(item@) == Some(id@),
                None => self.id_of(item@) is None,
            },
    {
        match self {
            IdPlace::Own => item.text_at("id"),
            IdPlace::User => match item.get("user") {
                Some(user) => user.text_at("id"),
                None => None,
            },
            IdPlace::UserId => item.text_at("user_id"),
        }
    }

    /// Whether an item has the id `id`.
    pub fn matches(self, item: &Json, id: &str) -> (r: bool)
        ensures
            r == (self.id_of(item@) == Some(id@)),
    {
        match self.read(item) {
            Some(own) => str_eq(own, id),
            None => false,
        }
    }
}

/// Whether `i` is the first position of an item with the id `id`.
pub open spec fn is_first(items: Seq<JsonTree>, place: IdPlace, id: Seq<char>, i: int) -> bool {
    &&& 0 <= i < items.len()
    &&& place.id_of(items[i]) == Some(id)
    &&& forall|j: int| 0 <= j < i ==> place.id_of(#[trigger] items[j]) != Some(id)
}

/// Whether `i` is the last position of an item with the id `id`.
pub open spec fn is_last(items: Seq<JsonTree>, place: IdPlace, id: Seq<char>, i: int) -> bool {
    &&& 0 <= i < items.len()
    &&& place.id_of(items[i]) == Some(id)
    &&& forall|j: int| i < j < items.len() ==> place.id_of(#[trigger] items[j]) != Some(id)
}

/// Whether some item has the id `id`.
pub open spec fn has_id(items: Seq<JsonTree>, place: IdPlace, id: Seq<char>) -> bool {
    exists|i: int| #[trigger] is_first(items, place, id, i)
}

/// The items without those that have the id `id`.
pub open spec fn dropped(items: Seq<JsonTree>, place: IdPlace, id: Seq<char>) -> Seq<JsonTree> {
    items.filter(place.differs(id))
}

/// The items with the first that has the id `id` replaced.
pub open spec fn replaced(
    items: Seq<JsonTree>,
    place: IdPlace,
    id: Seq<char>,
    item: JsonTree,
) -> Seq<JsonTree> {
    if has_id(items, place, id) {
        items.update(choose|i: int| is_first(items, place, id, i), item)
    } else {
        items
    }
}

/// The items with the first that has the id `id` replaced, or with one more
/// item where none has it.
pub open spec fn upserted(
    items: Seq<JsonTree>,
    place: IdPlace,
    id: Seq<char>,
    item: JsonTree,
) -> Seq<JsonTree> {
    if has_id(items, place, id) {
        replaced(items, place, id, item)
    } else {
        items.push(item)
    }
}

/// The items after an upsert of each of `updates` that has an id, in order.
pub open spec fn all_upserted(
    items: Seq<JsonTree>,
    place: IdPlace,
    updates: Seq<JsonTree>,
) -> Seq<JsonTree>
    decreases updates.len(),
{
    if updates.len() == 0 {
        items
    } else {
        let before = all_upserted(items, place, updates.drop_last());
        match place.id_of(updates.last()) {
            Some(id) => upserted(before, place, id, updates.last()),
            None => before,
        }
    }
}

/// There is at most one first position.
pub proof fn lemma_first_unique(items: Seq<JsonTree>, place: IdPlace, id: Seq<char>, i: int)
    requires
        is_first(items, place, id, i),
    ensures
        has_id(items, place, id),
        (choose|k: int| is_first(items, place, id, k)) == i,
{
    let k = choose|k: int| is_first(items, place, id, k);
    assert(is_first(items, place, id, k));
    assert(place.id_of(items[i]) == Some(id));
    assert(place.id_of(items[k]) == Some(id));
}

/// Drops every item that has the id `id`.
pub fn drop_by_id(items: Vec<Json>, place: IdPlace, id: &str) -> (r: Vec<Json>)
    ensures
        trees(r@) == dropped(trees(items@), place, id@),
{
    let ghost list = items@;
    let mut kept: Vec<Json> = Vec::new();
    proof {
        reveal(Seq::filter);
    }
    for item in it: items
        invariant
            it.seq() == list,
            trees(kept@) == dropped(trees(list.take(it.index())), place, id@),
    {
        proof {
            assert(list.take(it.index() + 1) =~= list.take(it.index()).push(item));
            lemma_trees_push(list.take(it.index()), item);
            trees(list.take(it.index())).lemma_filter_push(item@, place.differs(id@));
            lemma_trees_push(kept@, item);
        }
        if !place.matches(&item, id) {
            kept.push(item);
        }
    }
    assert(list.take(list.len() as int) =~= list);
    kept
}

/// Replaces the first item that has the id `id`. Says whether there was one.
pub fn replace_by_id(items: &mut Vec<Json>, place: IdPlace, id: &str, item: &Json) -> (r: bool)
    ensures
        r == has_id(trees(old(items)@), place, id@),
        trees(final(items)@) == replaced(trees(old(items)@), place, id@, item@),
{
    let ghost list = trees(items@);
    proof {
        lemma_trees(items@);
    }
    let mut i: usize = 0;
    while i < items.len()
        invariant
            i <= items@.len(),
            items@ == old(items)@,
            list == trees(items@),
            list.len() == items@.len(),
            forall|k: int| 0 <= k < items@.len() ==> list[k] == (#[trigger] items@[k])@,
            forall|j: int| 0 <= j < i ==> place.id_of(#[trigger] list[j]) != Some(id@),
        decreases items.len() - i,
    {
        if place.matches(&items[i], id) {
            proof {
                assert(items@[i as int]@ == list[i as int]);
                assert(is_first(list, place, id@, i as int));
                lemma_first_unique(list, place, id@, i as int);
            }
            let copy = item.clone();
            proof {
                lemma_trees_update(items@, i as int, copy);
            }
            items.set(i, copy);
            return true;
        }
        assert(items@[i as int]@ == list[i as int]);
        i += 1;
    }
    false
}

/// Replaces the first item that has the id `id`, or adds one where none has it.
pub fn upsert_by_id(items: &mut Vec<Json>, place: IdPlace, id: &str, item: &Json)
    ensures
        trees(final(items)@) == upserted(trees(old(items)@), place, id@, item@),
{
    if !replace_by_id(items, place, id, item) {
        let copy = item.clone();
        proof {
            lemma_trees_push(items@, copy);
        }
        items.push(copy);
    }
}

/// Upserts each of `updates` that has an id, in order.
pub fn upsert_all(items: &mut Vec<Json>, place: IdPlace, updates: &Vec<Json>)
    ensures
        trees(final(items)@) == all_upserted(trees(old(items)@), place, trees(updates@)),
{
    let mut i: usize = 0;
    while i < updates.len()
        invariant
            i <= updates@.len(),
            trees(items@) == all_upserted(trees(old(items)@), place, trees(updates@.take(i as int))),
        decreases updates.len() - i,
    {
        proof {
            let done = updates@.take(i as int);
            assert(updates@.take(i + 1) =~= done.push(updates@[i as int]));
            lemma_trees_push(done, updates@[i as int]);
            assert(trees(updates@.take(i + 1)).drop_last() =~= trees(done));
        }
        let id: Option<&str> = place.read(&updates[i]);
        match id {
            Some(id) => upsert_by_id(items, place, id, &updates[i]),
            None => {},
        }
        i += 1;
    }
    assert(updates@.take(updates@.len() as int) =~= updates@);
}

// --- What holds of such arrays ---

/// Where an item has the id, there is a first that has it.
pub proof fn lemma_has_id(items: Seq<JsonTree>, place: IdPlace, id: Seq<char>, i: int)
    requires
        0 <= i < items.len(),
        place.id_of(items[i]) == Some(id),
    ensures
        has_id(items, place, id),
    decreases i,
{
    if exists|j: int| 0 <= j < i && place.id_of(#[trigger] items[j]) == Some(id) {
        let j = choose|j: int| 0 <= j < i && place.id_of(#[trigger] items[j]) == Some(id);
        lemma_has_id(items, place, id, j);
    } else {
        assert(is_first(items, place, id, i));
    }
}

/// After a drop no item has the id. Every other item is still there, and nothing
/// else is.
pub proof fn law_dropped_items_are_gone(items: Seq<JsonTree>, place: IdPlace, id: Seq<char>)
    ensures
        !has_id(dropped(items, place, id), place, id),
        forall|item: JsonTree| #[trigger]
            dropped(items, place, id).contains(item) <==> items.contains(item) && place.id_of(item)
                != Some(id),
{
    let left = dropped(items, place, id);
    let keep = place.differs(id);
    if has_id(left, place, id) {
        let i = choose|i: int| is_first(left, place, id, i);
        items.lemma_filter_pred(keep, i);
    }
    assert forall|item: JsonTree| #[trigger] left.contains(item) <==> items.contains(item)
        && place.id_of(item) != Some(id) by {
        if left.contains(item) {
            items.lemma_filter_contains_rev(keep, item);
            let i = choose|i: int| 0 <= i < left.len() && left[i] == item;
            items.lemma_filter_pred(keep, i);
        }
        if items.contains(item) && place.id_of(item) != Some(id) {
            let i = choose|i: int| 0 <= i < items.len() && items[i] == item;
            items.lemma_filter_contains(keep, i);
        }
    }
}

/// Where no item has the id, a drop changes nothing.
pub proof fn law_drop_of_unknown_changes_nothing(
    items: Seq<JsonTree>,
    place: IdPlace,
    id: Seq<char>,
)
    requires
        !has_id(items, place, id),
    ensures
        dropped(items, place, id) == items,
    decreases items.len(),
{
    reveal(Seq::filter);
    if items.len() > 0 {
        let rest = items.drop_last();
        if has_id(rest, place, id) {
            let i = choose|i: int| is_first(rest, place, id, i);
            lemma_has_id(items, place, id, i);
        }
        if place.id_of(items.last()) == Some(id) {
            lemma_has_id(items, place, id, items.len() - 1);
        }
        law_drop_of_unknown_changes_nothing(rest, place, id);
        assert(rest.push(items.last()) =~= items);
    }
}

/// Dropping twice is dropping once.
pub proof fn law_drop_is_idempotent(items: Seq<JsonTree>, place: IdPlace, id: Seq<char>)
    ensures
        dropped(dropped(items, place, id), place, id) == dropped(items, place, id),
{
    law_dropped_items_are_gone(items, place, id);
    law_drop_of_unknown_changes_nothing(dropped(items, place, id), place, id);
}

/// Replacing an item that has the id by one that has it makes no difference to what
/// is left after a drop.
proof fn lemma_dropped_after_update(
    items: Seq<JsonTree>,
    place: IdPlace,
    id: Seq<char>,
    i: int,
    item: JsonTree,
)
    requires
        0 <= i < items.len(),
        place.id_of(items[i]) == Some(id),
        place.id_of(item) == Some(id),
    ensures
        dropped(items.update(i, item), place, id) == dropped(items, place, id),
    decreases items.len(),
{
    reveal(Seq::filter);
    let changed = items.update(i, item);
    if i == items.len() - 1 {
        assert(changed.drop_last() =~= items.drop_last());
    } else {
        assert(changed.drop_last() =~= items.drop_last().update(i, item));
        lemma_dropped_after_update(items.drop_last(), place, id, i, item);
    }
}

/// An upserted item is found by its id, and all items with other ids stay as they
/// are and in their order: a drop leaves what it left before.
pub proof fn law_upserted_item_is_found(
    items: Seq<JsonTree>,
    place: IdPlace,
    id: Seq<char>,
    item: JsonTree,
)
    requires
        place.id_of(item) == Some(id),
    ensures
        exists|i: int| #[trigger]
            is_first(upserted(items, place, id, item), place, id, i) && upserted(
                items,
                place,
                id,
                item,
            )[i] == item,
        dropped(upserted(items, place, id, item), place, id) == dropped(items, place, id),
{
    let after = upserted(items, place, id, item);
    if has_id(items, place, id) {
        let i = choose|i: int| is_first(items, place, id, i);
        assert(is_first(items, place, id, i));
        assert forall|j: int| 0 <= j < i implies place.id_of(#[trigger] after[j]) != Some(id) by {
            assert(after[j] == items[j]);
        }
        assert(is_first(after, place, id, i));
        lemma_dropped_after_update(items, place, id, i, item);
    } else {
        assert forall|j: int| 0 <= j < items.len() implies place.id_of(#[trigger] after[j]) != Some(
            id,
        ) by {
            assert(after[j] == items[j]);
            if place.id_of(items[j]) == Some(id) {
                lemma_has_id(items, place, id, j);
            }
        }
        assert(is_first(after, place, id, items.len() as int));
        items.lemma_filter_push(item, place.differs(id));
    }
}

/// Upserting the same item twice is upserting it once.
pub proof fn law_upsert_is_idempotent(
    items: Seq<JsonTree>,
    place: IdPlace,
    id: Seq<char>,
    item: JsonTree,
)
    requires
        place.id_of(item) == Some(id),
    ensures
        upserted(upserted(items, place, id, item), place, id, item) == upserted(
            items,
            place,
            id,
            item,
        ),
{
    let once = upserted(items, place, id, item);
    law_upserted_item_is_found(items, place, id, item);
    let i = choose|i: int| #[trigger] is_first(once, place, id, i) && once[i] == item;
    lemma_first_unique(once, place, id, i);
    assert(once.update(i, item) =~= once);
}

/// An upsert leaves the first item with any other id as it is, and where it is.
proof fn lemma_upsert_keeps_other(
    items: Seq<JsonTree>,
    place: IdPlace,
    id: Seq<char>,
    item: JsonTree,
    other: Seq<char>,
    i: int,
)
    requires
        place.id_of(item) == Some(id),
        other != id,
        is_first(items, place, other, i),
    ensures
        is_first(upserted(items, place, id, item), place, other, i),
        upserted(items, place, id, item)[i] == items[i],
{
    let after = upserted(items, place, id, item);
    if has_id(items, place, id) {
        let k = choose|k: int| is_first(items, place, id, k);
        assert(is_first(items, place, id, k));
        assert(place.id_of(items[k]) == Some(id));
    }
    assert forall|j: int| 0 <= j < i implies place.id_of(#[trigger] after[j]) != Some(other) by {
        assert(place.id_of(items[j]) != Some(other));
    }
}

/// Of several upserts with the same id the last one counts: the item is found by
/// its id after all of them.
pub proof fn law_last_upsert_counts(
    items: Seq<JsonTree>,
    place: IdPlace,
    updates: Seq<JsonTree>,
    id: Seq<char>,
    n: int,
)
    requires
        is_last(updates, place, id, n),
    ensures
        exists|i: int| #[trigger]
            is_first(all_upserted(items, place, updates), place, id, i) && all_upserted(
                items,
                place,
                updates,
            )[i] == updates[n],
    decreases updates.len(),
{
    let rest = updates.drop_last();
    let before = all_upserted(items, place, rest);
    if n == updates.len() - 1 {
        assert(all_upserted(items, place, updates) == upserted(before, place, id, updates[n]));
        law_upserted_item_is_found(before, place, id, updates[n]);
        let i = choose|i: int| #[trigger]
            is_first(upserted(before, place, id, updates[n]), place, id, i) && upserted(
                before,
                place,
                id,
                updates[n],
            )[i] == updates[n];
        assert(is_first(all_upserted(items, place, updates), place, id, i));
    } else {
        assert(is_last(rest, place, id, n)) by {
            assert(place.id_of(rest[n]) == Some(id));
            assert forall|j: int| n < j < rest.len() implies place.id_of(#[trigger] rest[j])
                != Some(id) by {
                assert(rest[j] == updates[j]);
            }
        }
        law_last_upsert_counts(items, place, rest, id, n);
        let i = choose|i: int| #[trigger]
            is_first(before, place, id, i) && before[i] == rest[n];
        assert(is_first(before, place, id, i) && before[i] == rest[n]);
        let last = updates[updates.len() - 1];
        if let Some(other) = place.id_of(last) {
            lemma_upsert_keeps_other(before, place, other, last, id, i);
        }
        assert(is_first(all_upserted(items, place, updates), place, id, i));
    }
}

/// What is not upserted stays as it is, and where it is.
pub proof fn law_other_items_stay(
    items: Seq<JsonTree>,
    place: IdPlace,
    updates: Seq<JsonTree>,
    id: Seq<char>,
    i: int,
)
    requires
        is_first(items, place, id, i),
        !has_id(updates, place, id),
    ensures
        is_first(all_upserted(items, place, updates), place, id, i),
        all_upserted(items, place, updates)[i] == items[i],
    decreases updates.len(),
{
    if updates.len() > 0 {
        let rest = updates.drop_last();
        let last = updates[updates.len() - 1];
        if has_id(rest, place, id) {
            let k = choose|k: int| is_first(rest, place, id, k);
            assert(rest[k] == updates[k]);
            lemma_has_id(updates, place, id, k);
        }
        law_other_items_stay(items, place, rest, id, i);
        if let Some(other) = place.id_of(last) {
            if other == id {
                lemma_has_id(updates, place, id, updates.len() - 1);
            }
            lemma_upsert_keeps_other(
                all_upserted(items, place, rest),
                place,
                other,
                last,
                id,
                i,
            );
        }
    }
}

/// Whether no two items have the same id.
pub open spec fn distinct_ids(items: Seq<JsonTree>, place: IdPlace) -> bool {
    forall|i: int, j: int|
        0 <= i < j < items.len() && place.id_of(#[trigger] items[i]) is Some ==> place.id_of(
            items[i],
        ) != place.id_of(#[trigger] items[j])
}

/// An upsert keeps the ids distinct.
pub proof fn law_upsert_keeps_ids_distinct(
    items: Seq<JsonTree>,
    place: IdPlace,
    id: Seq<char>,
    item: JsonTree,
)
    requires
        distinct_ids(items, place),
        place.id_of(item) == Some(id),
    ensures
        distinct_ids(upserted(items, place, id, item), place),
{
    let after = upserted(items, place, id, item);
    if has_id(items, place, id) {
        let k = choose|k: int| is_first(items, place, id, k);
        assert(is_first(items, place, id, k));
        assert forall|i: int, j: int|
            0 <= i < j < after.len() && place.id_of(#[trigger] after[i])
                is Some implies place.id_of(after[i]) != place.id_of(#[trigger] after[j]) by {
            assert(place.id_of(after[i]) == place.id_of(items[i]));
            assert(place.id_of(after[j]) == place.id_of(items[j]));
        }
    } else {
        assert forall|i: int, j: int|
            0 <= i < j < after.len() && place.id_of(#[trigger] after[i])
                is Some implies place.id_of(after[i]) != place.id_of(#[trigger] after[j]) by {
            assert(after[i] == items[i]);
            if place.id_of(items[i]) == Some(id) {
                lemma_has_id(items, place, id, i);
            }
        }
    }
}

/// Several upserts keep the ids distinct.
pub proof fn law_upserts_keep_ids_distinct(
    items: Seq<JsonTree>,
    place: IdPlace,
    updates: Seq<JsonTree>,
)
    requires
        distinct_ids(items, place),
    ensures
        distinct_ids(all_upserted(items, place, updates), place),
    decreases updates.len(),
{
    if updates.len() > 0 {
        let before = all_upserted(items, place, updates.drop_last());
        law_upserts_keep_ids_distinct(items, place, updates.drop_last());
        if let Some(id) = place.id_of(updates.last()) {
            law_upsert_keeps_ids_distinct(before, place, id, updates.last());
        }
    }
}

/// The ids of the items, in order.
pub open spec fn ids_of(items: Seq<JsonTree>, place: IdPlace) -> Seq<Option<Seq<char>>> {
    items.map_values(|item: JsonTree| place.id_of(item))
}

/// Of the ids of the updates those that are not known, each once and in the order in
/// which they first come.
pub open spec fn new_ids(
    known: Seq<Option<Seq<char>>>,
    place: IdPlace,
    updates: Seq<JsonTree>,
) -> Seq<Option<Seq<char>>>
    decreases updates.len(),
{
    if updates.len() == 0 {
        Seq::empty()
    } else {
        let before = new_ids(known, place, updates.drop_last());
        let id = place.id_of(updates.last());
        if id is None || known.contains(id) || before.contains(id) {
            before
        } else {
            before.push(id)
        }
    }
}

/// Upserts leave the known items in their places. The new ones follow in the order
/// in which they first come.
pub proof fn law_new_items_follow_in_order(
    items: Seq<JsonTree>,
    place: IdPlace,
    updates: Seq<JsonTree>,
)
    ensures
        ids_of(all_upserted(items, place, updates), place) == ids_of(items, place) + new_ids(
            ids_of(items, place),
            place,
            updates,
        ),
    decreases updates.len(),
{
    let known = ids_of(items, place);
    if updates.len() == 0 {
        assert(known + Seq::<Option<Seq<char>>>::empty() =~= known);
    } else {
        let rest = updates.drop_last();
        let last = updates.last();
        let before = all_upserted(items, place, rest);
        law_new_items_follow_in_order(items, place, rest);
        let added = new_ids(known, place, rest);
        assert(ids_of(before, place) == known + added);
        if let Some(id) = place.id_of(last) {
            let after = upserted(before, place, id, last);
            if has_id(before, place, id) {
                let k = choose|k: int| is_first(before, place, id, k);
                assert(is_first(before, place, id, k));
                assert(ids_of(before, place)[k] == Some(id));
                assert(ids_of(after, place) =~= ids_of(before, place));
                if k < known.len() {
                    assert(known[k] == Some(id));
                } else {
                    assert(added[k - known.len()] == Some(id));
                }
            } else {
                assert(ids_of(after, place) =~= ids_of(before, place).push(Some(id)));
                assert(!ids_of(before, place).contains(Some(id))) by {
                    if ids_of(before, place).contains(Some(id)) {
                        let i = choose|i: int|
                            0 <= i < before.len() && ids_of(before, place)[i] == Some(id);
                        lemma_has_id(before, place, id, i);
                    }
                }
                if known.contains(Some(id)) {
                    let i = choose|i: int| 0 <= i < known.len() && known[i] == Some(id);
                    assert((known + added)[i] == Some(id));
                }
                if added.contains(Some(id)) {
                    let i = choose|i: int| 0 <= i < added.len() && added[i] == Some(id);
                    assert((known + added)[known.len() + i] == Some(id));
                }
                assert((known + added).push(Some(id)) =~= known + added.push(Some(id)));
            }
        }
    }
}

} // verus!
