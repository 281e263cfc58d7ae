//! Properties of the store that relate several operations, proved from
//! their contracts.

use vstd::prelude::*;
use crate::rows::{Tag, Person, EntryWithItems};
use crate::order::Ranked;
use crate::time::at_or_before;
use crate::store::{Database, LogbookError, gets_or_creates_tag, gets_or_creates_person, links_tag, removes_entry,
    removes_item, replaces_tags, names_item, unlinked, texts, tags_names_differ, people_names_differ,
    item_tag_pairs_differ, entries_shown, items_shown};

verus! {

/// Exactly one tag is named `name`.
pub open spec fn one_tag_named(db: Database, name: Seq<char>) -> bool {
    exists|i: int|
        0 <= i < db.tags@.len() && #[trigger] db.tags@[i].name@ == name && forall|j: int|
            0 <= j < db.tags@.len() && #[trigger] db.tags@[j].name@ == name ==> j == i
}

/// Exactly one person is named `name`.
pub open spec fn one_person_named(db: Database, name: Seq<char>) -> bool {
    exists|i: int|
        0 <= i < db.people@.len() && #[trigger] db.people@[i].name@ == name && forall|j: int|
            0 <= j < db.people@.len() && #[trigger] db.people@[j].name@ == name ==> j == i
}

/// Exactly one join row links the item `item` to the tag `tag`.
pub open spec fn one_tag_link(db: Database, item: Seq<char>, tag: Seq<char>) -> bool {
    exists|i: int|
        0 <= i < db.item_tags@.len() && #[trigger] db.item_tags@[i].entry_item_id@ == item && db.item_tags@[i].tag_id@
            == tag && forall|j: int|
            0 <= j < db.item_tags@.len() && #[trigger] db.item_tags@[j].entry_item_id@ == item
                && db.item_tags@[j].tag_id@ == tag ==> j == i
}

/// Looking up a tag name twice, creating the tag the first time if need be,
/// gives the same tag both times; the second lookup changes nothing, and
/// exactly one tag has that name.
pub proof fn law_tag_get_or_create_twice(
    d0: Database,
    d1: Database,
    d2: Database,
    name: Seq<char>,
    r1: Result<Tag, LogbookError>,
    r2: Result<Tag, LogbookError>,
)
    requires
        d0.wf(),
        d1.wf(),
        gets_or_creates_tag(d0, d1, name, r1),
        gets_or_creates_tag(d1, d2, name, r2),
        r1 is Ok,
    ensures
        r2 is Ok,
        r2->Ok_0.id == r1->Ok_0.id,
        d2.tags@ == d1.tags@,
        one_tag_named(d2, name),
{
    let t1 = r1->Ok_0;
    assert(d1.tags@.contains(t1)) by {
        if !d0.has_tag_named(name) {
            assert(d1.tags@[d0.tags@.len() as int] == t1);
        }
    }
    let i = choose|i: int| 0 <= i < d1.tags@.len() && d1.tags@[i] == t1;
    assert(d1.tags@[i].name@ == name);
    assert(d1.has_tag_named(name));
    let t2 = r2->Ok_0;
    let j = choose|j: int| 0 <= j < d1.tags@.len() && d1.tags@[j] == t2;
    if i < j {
        assert(tags_names_differ()(d1.tags@[i], d1.tags@[j]));
    } else if j < i {
        assert(tags_names_differ()(d1.tags@[j], d1.tags@[i]));
    }
    assert forall|k: int| 0 <= k < d2.tags@.len() && #[trigger] d2.tags@[k].name@ == name implies k == i by {
        if k < i {
            assert(tags_names_differ()(d1.tags@[k], d1.tags@[i]));
        } else if i < k {
            assert(tags_names_differ()(d1.tags@[i], d1.tags@[k]));
        }
    }
    assert(d2.tags@[i].name@ == name);
}

/// Looking up a person's name twice, creating the person the first time if
/// need be, gives the same person both times; the second lookup changes
/// nothing, and exactly one person has that name.
pub proof fn law_person_get_or_create_twice(
    d0: Database,
    d1: Database,
    d2: Database,
    name: Seq<char>,
    r1: Result<Person, LogbookError>,
    r2: Result<Person, LogbookError>,
)
    requires
        d0.wf(),
        d1.wf(),
        gets_or_creates_person(d0, d1, name, r1),
        gets_or_creates_person(d1, d2, name, r2),
        r1 is Ok,
    ensures
        r2 is Ok,
        r2->Ok_0.id == r1->Ok_0.id,
        d2.people@ == d1.people@,
        one_person_named(d2, name),
{
    let first = r1->Ok_0;
    assert(d1.people@.contains(first)) by {
        if !d0.has_person_named(name) {
            assert(d1.people@[d0.people@.len() as int] == first);
        }
    }
    let i = choose|i: int| 0 <= i < d1.people@.len() && d1.people@[i] == first;
    assert(d1.people@[i].name@ == name);
    assert(d1.has_person_named(name));
    let second = r2->Ok_0;
    let j = choose|j: int| 0 <= j < d1.people@.len() && d1.people@[j] == second;
    if i < j {
        assert(people_names_differ()(d1.people@[i], d1.people@[j]));
    } else if j < i {
        assert(people_names_differ()(d1.people@[j], d1.people@[i]));
    }
    assert forall|k: int| 0 <= k < d2.people@.len() && #[trigger] d2.people@[k].name@ == name implies k == i by {
        if k < i {
            assert(people_names_differ()(d1.people@[k], d1.people@[i]));
        } else if i < k {
            assert(people_names_differ()(d1.people@[i], d1.people@[k]));
        }
    }
    assert(d2.people@[i].name@ == name);
}

/// Linking the same item to the same tag twice succeeds the second time
/// too, changes nothing then, and leaves exactly one join row for the pair.
pub proof fn law_link_tag_twice(
    d0: Database,
    d1: Database,
    d2: Database,
    item: Seq<char>,
    tag: Seq<char>,
    r1: Result<(), LogbookError>,
    r2: Result<(), LogbookError>,
)
    requires
        d0.wf(),
        d1.wf(),
        d2.wf(),
        links_tag(d0, d1, item, tag, r1),
        links_tag(d1, d2, item, tag, r2),
        r1 is Ok,
    ensures
        r2 is Ok,
        d2.item_tags@ == d1.item_tags@,
        one_tag_link(d2, item, tag),
{
    assert(d0.has_item(item) && d0.has_tag(tag));
    let a = choose|a: int| 0 <= a < d0.items@.len() && #[trigger] d0.items@[a].id@ == item;
    let b = choose|b: int| 0 <= b < d0.tags@.len() && #[trigger] d0.tags@[b].id@ == tag;
    assert(d1.has_tag_link(item, tag));
    assert(d1.has_item(item) && d1.has_tag(tag)) by {
        let i = choose|i: int| 0 <= i < d1.item_tags@.len() && #[trigger] d1.item_tags@[i].entry_item_id@ == item
            && d1.item_tags@[i].tag_id@ == tag;
        assert(d1.has_item(d1.item_tags@[i].entry_item_id@));
        assert(d1.has_tag(d1.item_tags@[i].tag_id@));
    }
    let i = choose|i: int| 0 <= i < d2.item_tags@.len() && #[trigger] d2.item_tags@[i].entry_item_id@ == item
        && d2.item_tags@[i].tag_id@ == tag;
    assert forall|j: int| 0 <= j < d2.item_tags@.len() && #[trigger] d2.item_tags@[j].entry_item_id@ == item
        && d2.item_tags@[j].tag_id@ == tag implies j == i by {
        if j < i {
            assert(item_tag_pairs_differ()(d2.item_tags@[j], d2.item_tags@[i]));
        } else if i < j {
            assert(item_tag_pairs_differ()(d2.item_tags@[i], d2.item_tags@[j]));
        }
    }
}

/// Deleting an entry leaves no item of it, and no issue reference or join
/// row of any of its items; every row that stays refers to rows that exist.
pub proof fn law_delete_entry_leaves_no_orphans(d0: Database, d1: Database, entry_id: Seq<char>)
    requires
        d0.wf(),
        d1.wf(),
        removes_entry(d0, d1, entry_id),
    ensures
        !d1.has_entry(entry_id),
        forall|i: int| 0 <= i < d1.items@.len() ==> (#[trigger] d1.items@[i]).entry_id@ != entry_id,
        forall|i: int| 0 <= i < d1.jira_refs@.len() ==> !d0.item_in_entry((#[trigger] d1.jira_refs@[i]).entry_item_id@, entry_id)
            && d1.has_item(d1.jira_refs@[i].entry_item_id@),
        forall|i: int| 0 <= i < d1.item_tags@.len() ==> !d0.item_in_entry((#[trigger] d1.item_tags@[i]).entry_item_id@, entry_id)
            && d1.has_item(d1.item_tags@[i].entry_item_id@),
        forall|i: int| 0 <= i < d1.item_people@.len() ==> !d0.item_in_entry((#[trigger] d1.item_people@[i]).entry_item_id@, entry_id)
            && d1.has_item(d1.item_people@[i].entry_item_id@),
{
    crate::table::lemma_filter_members(d0.entries@, crate::store::entry_other_than(entry_id));
    if d1.has_entry(entry_id) {
        let i = choose|i: int| 0 <= i < d1.entries@.len() && #[trigger] d1.entries@[i].id@ == entry_id;
        assert(crate::store::entry_other_than(entry_id)(d1.entries@[i]));
    }
    assert forall|i: int| 0 <= i < d1.items@.len() implies (#[trigger] d1.items@[i]).entry_id@ != entry_id by {
        assert(d1.items@.contains(d1.items@[i]));
    }
    assert forall|i: int| 0 <= i < d1.jira_refs@.len() implies !d0.item_in_entry((#[trigger] d1.jira_refs@[i]).entry_item_id@, entry_id)
        && d1.has_item(d1.jira_refs@[i].entry_item_id@) by {
        assert(d1.jira_refs@.contains(d1.jira_refs@[i]));
    }
    assert forall|i: int| 0 <= i < d1.item_tags@.len() implies !d0.item_in_entry((#[trigger] d1.item_tags@[i]).entry_item_id@, entry_id)
        && d1.has_item(d1.item_tags@[i].entry_item_id@) by {
        assert(d1.item_tags@.contains(d1.item_tags@[i]));
    }
    assert forall|i: int| 0 <= i < d1.item_people@.len() implies !d0.item_in_entry((#[trigger] d1.item_people@[i]).entry_item_id@, entry_id)
        && d1.has_item(d1.item_people@[i].entry_item_id@) by {
        assert(d1.item_people@.contains(d1.item_people@[i]));
    }
}

/// Deleting an item keeps every action that named it, in its place, with
/// the same identifier and no item named.
pub proof fn law_delete_item_keeps_actions(d0: Database, d1: Database, item: Seq<char>, k: int)
    requires
        removes_item(d0, d1, item),
        0 <= k < d0.actions@.len(),
        names_item(d0.actions@[k], item),
    ensures
        d1.actions@.len() == d0.actions@.len(),
        d1.actions@[k] == unlinked(d0.actions@[k]),
        d1.actions@[k].id == d0.actions@[k].id,
        d1.actions@[k].entry_item_id is None,
{
}

/// After an item's tags are replaced by a list of names, the item's tags
/// are exactly the tags of those names, whatever tags it had before.
pub proof fn law_tag_set_replaced(after: Database, item: Seq<char>, names: Seq<String>, r: Result<(), LogbookError>)
    requires
        replaces_tags(after, item, names, r),
        r is Ok,
    ensures
        forall|n: Seq<char>| after.tag_named_on(item, n) <==> texts(names).contains(n),
{
    assert forall|n: Seq<char>| after.tag_named_on(item, n) <==> texts(names).contains(n) by {
        assert(after.tag_named_on(item, n) <==> texts(names).contains(n));
    }
}

/// In a listing of all entries, every entry's event time is at or after
/// that of each entry listed later, and within an entry every item was
/// created at or before each item listed after it.
pub proof fn law_listing_order(db: Database, xs: Seq<EntryWithItems>)
    requires
        db.lists_entries(xs),
    ensures
        forall|i: int, j: int| 0 <= i < j < xs.len() ==> at_or_before(
            #[trigger] xs[j].entry.timestamp,
            #[trigger] xs[i].entry.timestamp,
        ),
        forall|e: int, i: int, j: int| 0 <= e < xs.len() && 0 <= i < j < xs[e].items@.len() ==> at_or_before(
            #[trigger] xs[e].items@[i].item.created_at,
            #[trigger] xs[e].items@[j].item.created_at,
        ),
{
    assert forall|i: int, j: int| 0 <= i < j < xs.len() implies at_or_before(
        #[trigger] xs[j].entry.timestamp,
        #[trigger] xs[i].entry.timestamp,
    ) by {
        assert(entries_shown(xs)[i].goes_before(&entries_shown(xs)[j]));
    }
    assert forall|e: int, i: int, j: int| 0 <= e < xs.len() && 0 <= i < j < xs[e].items@.len() implies at_or_before(
        #[trigger] xs[e].items@[i].item.created_at,
        #[trigger] xs[e].items@[j].item.created_at,
    ) by {
        assert(db.describes_entry(xs[e]));
        assert(items_shown(xs[e].items@)[i].goes_before(&items_shown(xs[e].items@)[j]));
    }
}

} // verus!
