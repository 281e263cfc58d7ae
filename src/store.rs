//! The store: one table per kind of row, with its invariant, and the
//! operations that create and look up rows.

use vstd::prelude::*;
use crate::rows::{Entry, EntryItem, Tag, Person, JiraRef, ItemTag, ItemPerson, Project, Meeting,
    MeetingAttendee, MeetingAction, copy_text, owned_text, text_view, str_view};
use crate::table::{keep_where, pairwise, grows, lemma_push_pairwise, lemma_filter_pairwise, lemma_filter_members, lemma_filter_contains_iff, lemma_update_pairwise, lemma_grows_trans, lemma_filter_filter};
use vstd::string::StringExecFns;
use crate::time::{Timestamp, now};
use crate::order::{is_ranked, sort_ranked};
use crate::rows::{EntryWithItems, EntryItemWithMetadata};

verus! {

/// The colour a tag gets when none is given.
pub const DEFAULT_TAG_COLOR: &'static str = "#6c757d";

/// The colour a project gets when none is given.
pub const DEFAULT_PROJECT_COLOR: &'static str = "#0275d8";

/// The kind a meeting gets when none is given.
pub const DEFAULT_MEETING_TYPE: &'static str = "meeting";

/// The status of a new meeting.
pub const MEETING_SCHEDULED: &'static str = "scheduled";

/// The role an attendee gets when none is given.
pub const DEFAULT_ATTENDEE_ROLE: &'static str = "attendee";

/// The status of a new attendee.
pub const ATTENDEE_INVITED: &'static str = "invited";

/// The status of a new action.
pub const ACTION_OPEN: &'static str = "open";

/// The priority an action gets when none is given.
pub const DEFAULT_ACTION_PRIORITY: &'static str = "medium";

/// Why an operation of the store failed.
#[derive(Clone, Copy, Debug, PartialEq, Eq, Structural)]
pub enum LogbookError {
    /// A row names a parent row that does not exist.
    Referential,
    /// The row to update or read does not exist.
    NotFound,
    /// A key or a unique name is already taken.
    Conflict,
}

/// Relies on `uuid::Uuid::new_v4` and its hyphenated text form, which is
/// 36 characters long. Nothing is known of which identifier comes back.
#[verifier::external_body]
pub(crate) fn fresh_id() -> (r: String)
    ensures
        r@.len() == 36,
{
    uuid::Uuid::new_v4().to_string()
}

pub open spec fn entries_ids_differ() -> spec_fn(Entry, Entry) -> bool {
    |a: Entry, b: Entry| a.id@ != b.id@
}

pub open spec fn items_ids_differ() -> spec_fn(EntryItem, EntryItem) -> bool {
    |a: EntryItem, b: EntryItem| a.id@ != b.id@
}

pub open spec fn tags_ids_differ() -> spec_fn(Tag, Tag) -> bool {
    |a: Tag, b: Tag| a.id@ != b.id@
}

pub open spec fn people_ids_differ() -> spec_fn(Person, Person) -> bool {
    |a: Person, b: Person| a.id@ != b.id@
}

pub open spec fn jira_refs_ids_differ() -> spec_fn(JiraRef, JiraRef) -> bool {
    |a: JiraRef, b: JiraRef| a.id@ != b.id@
}

pub open spec fn projects_ids_differ() -> spec_fn(Project, Project) -> bool {
    |a: Project, b: Project| a.id@ != b.id@
}

pub open spec fn meetings_ids_differ() -> spec_fn(Meeting, Meeting) -> bool {
    |a: Meeting, b: Meeting| a.id@ != b.id@
}

pub open spec fn attendees_ids_differ() -> spec_fn(MeetingAttendee, MeetingAttendee) -> bool {
    |a: MeetingAttendee, b: MeetingAttendee| a.id@ != b.id@
}

pub open spec fn actions_ids_differ() -> spec_fn(MeetingAction, MeetingAction) -> bool {
    |a: MeetingAction, b: MeetingAction| a.id@ != b.id@
}

pub open spec fn tags_names_differ() -> spec_fn(Tag, Tag) -> bool {
    |a: Tag, b: Tag| a.name@ != b.name@
}

pub open spec fn people_names_differ() -> spec_fn(Person, Person) -> bool {
    |a: Person, b: Person| a.name@ != b.name@
}

pub open spec fn projects_names_differ() -> spec_fn(Project, Project) -> bool {
    |a: Project, b: Project| a.name@ != b.name@
}

pub open spec fn item_tag_pairs_differ() -> spec_fn(ItemTag, ItemTag) -> bool {
    |a: ItemTag, b: ItemTag| a.entry_item_id@ != b.entry_item_id@ || a.tag_id@ != b.tag_id@
}

pub open spec fn item_person_pairs_differ() -> spec_fn(ItemPerson, ItemPerson) -> bool {
    |a: ItemPerson, b: ItemPerson| a.entry_item_id@ != b.entry_item_id@ || a.person_id@ != b.person_id@
}

/// The join row belongs to the item `item_id`.
pub open spec fn tag_link_of_item(item_id: Seq<char>) -> spec_fn(ItemTag) -> bool {
    |l: ItemTag| l.entry_item_id@ == item_id
}

/// The join row belongs to the item `item_id`.
pub open spec fn person_link_of_item(item_id: Seq<char>) -> spec_fn(ItemPerson) -> bool {
    |l: ItemPerson| l.entry_item_id@ == item_id
}

/// The reference belongs to the item `item_id`.
pub open spec fn jira_ref_of_item(item_id: Seq<char>) -> spec_fn(JiraRef) -> bool {
    |j: JiraRef| j.entry_item_id@ == item_id
}

/// The item belongs to the entry `entry_id`.
pub open spec fn item_of_entry(entry_id: Seq<char>) -> spec_fn(EntryItem) -> bool {
    |it: EntryItem| it.entry_id@ == entry_id
}

/// The join row belongs to another item than `item_id`.
pub open spec fn tag_link_not_of_item(item_id: Seq<char>) -> spec_fn(ItemTag) -> bool {
    |l: ItemTag| l.entry_item_id@ != item_id
}

/// The join row belongs to another item than `item_id`.
pub open spec fn person_link_not_of_item(item_id: Seq<char>) -> spec_fn(ItemPerson) -> bool {
    |l: ItemPerson| l.entry_item_id@ != item_id
}

/// The reference belongs to another item than `item_id`.
pub open spec fn jira_ref_not_of_item(item_id: Seq<char>) -> spec_fn(JiraRef) -> bool {
    |j: JiraRef| j.entry_item_id@ != item_id
}

/// `after` is `before` with the content `content`, updated at `at`.
pub open spec fn is_content_update(before: EntryItem, after: EntryItem, content: Seq<char>, at: Timestamp) -> bool {
    &&& after.id == before.id
    &&& after.entry_id == before.entry_id
    &&& after.item_type == before.item_type
    &&& after.content@ == content
    &&& after.project == before.project
    &&& after.created_at == before.created_at
    &&& after.updated_at == at
}

/// `after` is `before` with the project `project`, updated at `at`.
pub open spec fn is_project_update(before: EntryItem, after: EntryItem, project: Option<Seq<char>>, at: Timestamp) -> bool {
    &&& after.id == before.id
    &&& after.entry_id == before.entry_id
    &&& after.item_type == before.item_type
    &&& after.content == before.content
    &&& text_view(after.project) == project
    &&& after.created_at == before.created_at
    &&& after.updated_at == at
}

/// The item is another than `id`.
pub open spec fn item_other_than(id: Seq<char>) -> spec_fn(EntryItem) -> bool {
    |it: EntryItem| it.id@ != id
}

/// The entry is another than `id`.
pub open spec fn entry_other_than(id: Seq<char>) -> spec_fn(Entry) -> bool {
    |e: Entry| e.id@ != id
}

/// The action names the item `item_id`.
pub open spec fn names_item(a: MeetingAction, item_id: Seq<char>) -> bool {
    a.entry_item_id matches Some(x) && x@ == item_id
}

/// `a` with no item named.
pub open spec fn unlinked(a: MeetingAction) -> MeetingAction {
    MeetingAction {
        id: a.id,
        meeting_id: a.meeting_id,
        entry_item_id: None,
        title: a.title,
        description: a.description,
        assignee: a.assignee,
        due_date: a.due_date,
        status: a.status,
        priority: a.priority,
        created_at: a.created_at,
        updated_at: a.updated_at,
    }
}

/// `a` after the item `item_id` is deleted.
pub open spec fn detached(a: MeetingAction, item_id: Seq<char>) -> MeetingAction {
    if names_item(a, item_id) { unlinked(a) } else { a }
}

/// One of the first `n` items of `ids` has the identifier `x`.
pub open spec fn among(ids: Seq<EntryItem>, n: int, x: Seq<char>) -> bool {
    exists|m: int| 0 <= m < n && #[trigger] ids[m].id@ == x
}

/// The project is another than `id`.
pub open spec fn project_other_than(id: Seq<char>) -> spec_fn(Project) -> bool {
    |p: Project| p.id@ != id
}

/// The tag is another than `id`.
pub open spec fn tag_other_than(id: Seq<char>) -> spec_fn(Tag) -> bool {
    |t: Tag| t.id@ != id
}

/// The join row links to another tag than `tag_id`.
pub open spec fn tag_link_not_to_tag(tag_id: Seq<char>) -> spec_fn(ItemTag) -> bool {
    |l: ItemTag| l.tag_id@ != tag_id
}

/// `after` is `before` with the given fields written, updated at `at`.
pub open spec fn is_tag_revision(
    before: Tag,
    after: Tag,
    name: Option<Seq<char>>,
    description: Option<Seq<char>>,
    color: Option<Seq<char>>,
    category: Option<Seq<char>>,
    at: Timestamp,
) -> bool {
    &&& after.id == before.id
    &&& after.name@ == given_or(name, before.name@)
    &&& text_view(after.description) == given_or_kept(description, before.description)
    &&& after.color@ == given_or(color, before.color@)
    &&& text_view(after.category) == given_or_kept(category, before.category)
    &&& after.created_at == before.created_at
    &&& after.updated_at == at
}

/// The meeting is another than `id`.
pub open spec fn meeting_other_than(id: Seq<char>) -> spec_fn(Meeting) -> bool {
    |m: Meeting| m.id@ != id
}

/// The attendee belongs to the meeting `meeting_id`.
pub open spec fn attendee_of_meeting(meeting_id: Seq<char>) -> spec_fn(MeetingAttendee) -> bool {
    |a: MeetingAttendee| a.meeting_id@ == meeting_id
}

/// The attendee belongs to another meeting than `meeting_id`.
pub open spec fn attendee_not_of_meeting(meeting_id: Seq<char>) -> spec_fn(MeetingAttendee) -> bool {
    |a: MeetingAttendee| a.meeting_id@ != meeting_id
}

/// The action belongs to the meeting `meeting_id`.
pub open spec fn action_of_meeting(meeting_id: Seq<char>) -> spec_fn(MeetingAction) -> bool {
    |a: MeetingAction| a.meeting_id@ == meeting_id
}

/// The action belongs to another meeting than `meeting_id`.
pub open spec fn action_not_of_meeting(meeting_id: Seq<char>) -> spec_fn(MeetingAction) -> bool {
    |a: MeetingAction| a.meeting_id@ != meeting_id
}

/// The given text, or `default` when none is given.
pub open spec fn text_or(o: Option<String>, default: Seq<char>) -> Seq<char> {
    match o {
        Some(s) => s@,
        None => default,
    }
}

/// The given text, or `default` when none is given.
pub open spec fn str_or(o: Option<&str>, default: Seq<char>) -> Seq<char> {
    match o {
        Some(s) => s@,
        None => default,
    }
}

/// A given text, or the text of the row before.
pub open spec fn given_or(o: Option<Seq<char>>, before: Seq<char>) -> Seq<char> {
    match o {
        Some(s) => s,
        None => before,
    }
}

/// A given optional text, or the optional text of the row before.
pub open spec fn given_or_kept(o: Option<Seq<char>>, before: Option<String>) -> Option<Seq<char>> {
    match o {
        Some(s) => Some(s),
        None => text_view(before),
    }
}

/// `after` is `before` with the given fields written, updated at `at`.
pub open spec fn is_project_revision(
    before: Project,
    after: Project,
    name: Option<Seq<char>>,
    description: Option<Seq<char>>,
    color: Option<Seq<char>>,
    at: Timestamp,
) -> bool {
    &&& after.id == before.id
    &&& after.name@ == given_or(name, before.name@)
    &&& text_view(after.description) == given_or_kept(description, before.description)
    &&& after.color@ == given_or(color, before.color@)
    &&& after.created_at == before.created_at
    &&& after.updated_at == at
}

/// `o`, or `default` when it is absent.
pub fn text_or_default(o: Option<String>, default: &str) -> (r: String)
    ensures
        r@ == text_or(o, default@),
{
    match o {
        Some(s) => s,
        None => default.to_owned(),
    }
}

/// `r` and `after` are what looking up the tag `name` in `before` may
/// give: the tag of that name when there is one, else a new default tag
/// under an identifier that was free, or `Conflict` with nothing changed.
pub open spec fn gets_or_creates_tag(before: Database, after: Database, name: Seq<char>, r: Result<Tag, LogbookError>) -> bool {
    &&& before.has_tag_named(name) ==> (r matches Ok(t) && before.tags@.contains(t) && t.name@ == name)
        && after.tags@ == before.tags@
    &&& !before.has_tag_named(name) ==> match r {
        Ok(t) => t.name@ == name && t.description is None && t.color@ == DEFAULT_TAG_COLOR@
            && t.category is None && t.created_at == t.updated_at && !before.has_tag(t.id@)
            && after.tags@ == before.tags@.push(t),
        Err(e) => e == LogbookError::Conflict && after.tags@ == before.tags@,
    }
}

/// `r` and `after` are what looking up the person `name` in `before` may give.
pub open spec fn gets_or_creates_person(before: Database, after: Database, name: Seq<char>, r: Result<Person, LogbookError>) -> bool {
    &&& before.has_person_named(name) ==> (r matches Ok(p) && before.people@.contains(p) && p.name@ == name)
        && after.people@ == before.people@
    &&& !before.has_person_named(name) ==> match r {
        Ok(p) => p.name@ == name && !before.has_person(p.id@) && after.people@ == before.people@.push(p),
        Err(e) => e == LogbookError::Conflict && after.people@ == before.people@,
    }
}

/// `r` and `after` are what linking the item `item` to the tag `tag` in
/// `before` gives.
pub open spec fn links_tag(before: Database, after: Database, item: Seq<char>, tag: Seq<char>, r: Result<(), LogbookError>) -> bool {
    &&& r is Err <==> !before.has_item(item) || !before.has_tag(tag)
    &&& r matches Err(e) ==> e == LogbookError::Referential
    &&& r is Err || before.has_tag_link(item, tag) ==> after.item_tags@ == before.item_tags@
    &&& r is Ok && !before.has_tag_link(item, tag) ==> after.item_tags@.drop_last() == before.item_tags@
        && after.item_tags@.len() == before.item_tags@.len() + 1
        && after.item_tags@.last().entry_item_id@ == item
        && after.item_tags@.last().tag_id@ == tag
    &&& r is Ok ==> after.has_tag_link(item, tag)
}

/// `after` is `before` with the item `id` deleted and its dependents
/// removed or detached.
pub open spec fn removes_item(before: Database, after: Database, id: Seq<char>) -> bool {
    &&& after.items@ == before.items@.filter(item_other_than(id))
    &&& after.jira_refs@ == before.jira_refs@.filter(jira_ref_not_of_item(id))
    &&& after.item_tags@ == before.item_tags@.filter(tag_link_not_of_item(id))
    &&& after.item_people@ == before.item_people@.filter(person_link_not_of_item(id))
    &&& after.actions@ == Seq::new(before.actions@.len(), |k: int| detached(before.actions@[k], id))
}

/// `after` is `before` with the entry `id` deleted and everything below it
/// removed or detached.
pub open spec fn removes_entry(before: Database, after: Database, id: Seq<char>) -> bool {
    &&& after.entries@ == before.entries@.filter(entry_other_than(id))
    &&& forall|it: EntryItem| #[trigger] after.items@.contains(it) <==> before.items@.contains(it) && it.entry_id@ != id
    &&& forall|j: JiraRef| #[trigger] after.jira_refs@.contains(j) <==> before.jira_refs@.contains(j)
        && !before.item_in_entry(j.entry_item_id@, id)
    &&& forall|l: ItemTag| #[trigger] after.item_tags@.contains(l) <==> before.item_tags@.contains(l)
        && !before.item_in_entry(l.entry_item_id@, id)
    &&& forall|l: ItemPerson| #[trigger] after.item_people@.contains(l) <==> before.item_people@.contains(l)
        && !before.item_in_entry(l.entry_item_id@, id)
    &&& after.actions@.len() == before.actions@.len()
    &&& forall|k: int| 0 <= k < before.actions@.len() ==> #[trigger] after.actions@[k] == (
        if before.actions@[k].entry_item_id matches Some(x) && before.item_in_entry(x@, id) {
            unlinked(before.actions@[k])
        } else {
            before.actions@[k]
        })
}

/// The characters of each text.
pub open spec fn texts(s: Seq<String>) -> Seq<Seq<char>> {
    Seq::new(s.len(), |k: int| s[k]@)
}

/// After a successful replacement, the tags of the item `item` are exactly
/// those named in `names`.
pub open spec fn replaces_tags(after: Database, item: Seq<char>, names: Seq<String>, r: Result<(), LogbookError>) -> bool {
    r is Ok ==> forall|n: Seq<char>| #[trigger] after.tag_named_on(item, n) <==> texts(names).contains(n)
}

/// The items that a listing shows, in its order.
pub open spec fn items_shown(s: Seq<EntryItemWithMetadata>) -> Seq<EntryItem> {
    Seq::new(s.len(), |k: int| s[k].item)
}

/// The entries that a listing shows, in its order.
pub open spec fn entries_shown(s: Seq<EntryWithItems>) -> Seq<Entry> {
    Seq::new(s.len(), |k: int| s[k].entry)
}

/// All rows of a logbook. Each table is a sequence of rows; the order of a
/// table is the order of insertion, and listings sort their own copies.
pub struct Database {
    pub entries: Vec<Entry>,
    pub items: Vec<EntryItem>,
    pub tags: Vec<Tag>,
    pub people: Vec<Person>,
    pub jira_refs: Vec<JiraRef>,
    pub item_tags: Vec<ItemTag>,
    pub item_people: Vec<ItemPerson>,
    pub projects: Vec<Project>,
    pub meetings: Vec<Meeting>,
    pub attendees: Vec<MeetingAttendee>,
    pub actions: Vec<MeetingAction>,
}

impl Database {
    pub open spec fn has_entry(self, id: Seq<char>) -> bool {
        exists|i: int| 0 <= i < self.entries@.len() && #[trigger] self.entries@[i].id@ == id
    }

    pub open spec fn has_item(self, id: Seq<char>) -> bool {
        exists|i: int| 0 <= i < self.items@.len() && #[trigger] self.items@[i].id@ == id
    }

    pub open spec fn has_tag(self, id: Seq<char>) -> bool {
        exists|i: int| 0 <= i < self.tags@.len() && #[trigger] self.tags@[i].id@ == id
    }

    pub open spec fn has_person(self, id: Seq<char>) -> bool {
        exists|i: int| 0 <= i < self.people@.len() && #[trigger] self.people@[i].id@ == id
    }

    pub open spec fn has_jira_ref(self, id: Seq<char>) -> bool {
        exists|i: int| 0 <= i < self.jira_refs@.len() && #[trigger] self.jira_refs@[i].id@ == id
    }

    pub open spec fn has_project(self, id: Seq<char>) -> bool {
        exists|i: int| 0 <= i < self.projects@.len() && #[trigger] self.projects@[i].id@ == id
    }

    pub open spec fn has_meeting(self, id: Seq<char>) -> bool {
        exists|i: int| 0 <= i < self.meetings@.len() && #[trigger] self.meetings@[i].id@ == id
    }

    pub open spec fn has_attendee(self, id: Seq<char>) -> bool {
        exists|i: int| 0 <= i < self.attendees@.len() && #[trigger] self.attendees@[i].id@ == id
    }

    pub open spec fn has_action(self, id: Seq<char>) -> bool {
        exists|i: int| 0 <= i < self.actions@.len() && #[trigger] self.actions@[i].id@ == id
    }

    pub open spec fn has_tag_named(self, name: Seq<char>) -> bool {
        exists|i: int| 0 <= i < self.tags@.len() && #[trigger] self.tags@[i].name@ == name
    }

    pub open spec fn has_person_named(self, name: Seq<char>) -> bool {
        exists|i: int| 0 <= i < self.people@.len() && #[trigger] self.people@[i].name@ == name
    }

    pub open spec fn has_project_named(self, name: Seq<char>) -> bool {
        exists|i: int| 0 <= i < self.projects@.len() && #[trigger] self.projects@[i].name@ == name
    }

    /// No entry identifier has the length of a fresh one, so a fresh one
    /// cannot be taken.
    pub open spec fn fresh_entry_id_free(self) -> bool {
        forall|i: int| 0 <= i < self.entries@.len() ==> (#[trigger] self.entries@[i]).id@.len() != 36
    }

    /// No item identifier has the length of a fresh one, so a fresh one
    /// cannot be taken.
    pub open spec fn fresh_item_id_free(self) -> bool {
        forall|i: int| 0 <= i < self.items@.len() ==> (#[trigger] self.items@[i]).id@.len() != 36
    }

    /// No tag identifier has the length of a fresh one, so a fresh one
    /// cannot be taken.
    pub open spec fn fresh_tag_id_free(self) -> bool {
        forall|i: int| 0 <= i < self.tags@.len() ==> (#[trigger] self.tags@[i]).id@.len() != 36
    }

    /// No person identifier has the length of a fresh one, so a fresh one
    /// cannot be taken.
    pub open spec fn fresh_person_id_free(self) -> bool {
        forall|i: int| 0 <= i < self.people@.len() ==> (#[trigger] self.people@[i]).id@.len() != 36
    }

    /// No jira_ref identifier has the length of a fresh one, so a fresh one
    /// cannot be taken.
    pub open spec fn fresh_jira_ref_id_free(self) -> bool {
        forall|i: int| 0 <= i < self.jira_refs@.len() ==> (#[trigger] self.jira_refs@[i]).id@.len() != 36
    }

    /// No project identifier has the length of a fresh one, so a fresh one
    /// cannot be taken.
    pub open spec fn fresh_project_id_free(self) -> bool {
        forall|i: int| 0 <= i < self.projects@.len() ==> (#[trigger] self.projects@[i]).id@.len() != 36
    }

    /// No meeting identifier has the length of a fresh one, so a fresh one
    /// cannot be taken.
    pub open spec fn fresh_meeting_id_free(self) -> bool {
        forall|i: int| 0 <= i < self.meetings@.len() ==> (#[trigger] self.meetings@[i]).id@.len() != 36
    }

    /// No attendee identifier has the length of a fresh one, so a fresh one
    /// cannot be taken.
    pub open spec fn fresh_attendee_id_free(self) -> bool {
        forall|i: int| 0 <= i < self.attendees@.len() ==> (#[trigger] self.attendees@[i]).id@.len() != 36
    }

    /// No action identifier has the length of a fresh one, so a fresh one
    /// cannot be taken.
    pub open spec fn fresh_action_id_free(self) -> bool {
        forall|i: int| 0 <= i < self.actions@.len() ==> (#[trigger] self.actions@[i]).id@.len() != 36
    }

    pub open spec fn has_tag_link(self, item_id: Seq<char>, tag_id: Seq<char>) -> bool {
        exists|i: int|
            0 <= i < self.item_tags@.len() && #[trigger] self.item_tags@[i].entry_item_id@ == item_id
                && self.item_tags@[i].tag_id@ == tag_id
    }

    pub open spec fn has_person_link(self, item_id: Seq<char>, person_id: Seq<char>) -> bool {
        exists|i: int|
            0 <= i < self.item_people@.len() && #[trigger] self.item_people@[i].entry_item_id@ == item_id
                && self.item_people@[i].person_id@ == person_id
    }

    /// Identifiers, tag names, person names, project names and join pairs are unique.
    pub open spec fn keys_unique(self) -> bool {
        &&& pairwise(self.entries@, entries_ids_differ())
        &&& pairwise(self.items@, items_ids_differ())
        &&& pairwise(self.tags@, tags_ids_differ())
        &&& pairwise(self.people@, people_ids_differ())
        &&& pairwise(self.jira_refs@, jira_refs_ids_differ())
        &&& pairwise(self.projects@, projects_ids_differ())
        &&& pairwise(self.meetings@, meetings_ids_differ())
        &&& pairwise(self.attendees@, attendees_ids_differ())
        &&& pairwise(self.actions@, actions_ids_differ())
        &&& pairwise(self.tags@, tags_names_differ())
        &&& pairwise(self.people@, people_names_differ())
        &&& pairwise(self.projects@, projects_names_differ())
        &&& pairwise(self.item_tags@, item_tag_pairs_differ())
        &&& pairwise(self.item_people@, item_person_pairs_differ())
    }

    /// Every reference names a row that exists. An item's project is free
    /// text and names nothing.
    pub open spec fn references_hold(self) -> bool {
        &&& forall|i: int| 0 <= i < self.items@.len() ==> self.has_entry(#[trigger] self.items@[i].entry_id@)
        &&& forall|i: int| 0 <= i < self.jira_refs@.len() ==> self.has_item(#[trigger] self.jira_refs@[i].entry_item_id@)
        &&& forall|i: int| 0 <= i < self.item_tags@.len() ==> self.has_item(#[trigger] self.item_tags@[i].entry_item_id@)
        &&& forall|i: int| 0 <= i < self.item_tags@.len() ==> self.has_tag(#[trigger] self.item_tags@[i].tag_id@)
        &&& forall|i: int| 0 <= i < self.item_people@.len() ==> self.has_item(#[trigger] self.item_people@[i].entry_item_id@)
        &&& forall|i: int| 0 <= i < self.item_people@.len() ==> self.has_person(#[trigger] self.item_people@[i].person_id@)
        &&& forall|i: int| 0 <= i < self.attendees@.len() ==> self.has_meeting(#[trigger] self.attendees@[i].meeting_id@)
        &&& forall|i: int| 0 <= i < self.actions@.len() ==> self.has_meeting(#[trigger] self.actions@[i].meeting_id@)
        &&& forall|i: int| 0 <= i < self.actions@.len() ==> (#[trigger] self.actions@[i].entry_item_id matches Some(x) ==> self.has_item(x@))
    }

    pub open spec fn wf(self) -> bool {
        &&& self.keys_unique()
        &&& self.references_hold()
    }

    /// An empty logbook.
    pub fn new() -> (r: Database)
        ensures
            r.wf(),
            r.entries@.len() == 0,
            r.items@.len() == 0,
            r.tags@.len() == 0,
            r.people@.len() == 0,
            r.jira_refs@.len() == 0,
            r.item_tags@.len() == 0,
            r.item_people@.len() == 0,
            r.projects@.len() == 0,
            r.meetings@.len() == 0,
            r.attendees@.len() == 0,
            r.actions@.len() == 0,
    {
        Database {
            entries: Vec::new(),
            items: Vec::new(),
            tags: Vec::new(),
            people: Vec::new(),
            jira_refs: Vec::new(),
            item_tags: Vec::new(),
            item_people: Vec::new(),
            projects: Vec::new(),
            meetings: Vec::new(),
            attendees: Vec::new(),
            actions: Vec::new(),
        }
    }

    fn find_entry(&self, id: &String) -> (r: Option<usize>)
        ensures
            match r {
                Some(i) => i < self.entries@.len() && self.entries@[i as int].id@ == id@,
                None => !self.has_entry(id@),
            },
    {
        let mut i: usize = 0;
        while i < self.entries.len()
            invariant
                i <= self.entries@.len(),
                forall|m: int| 0 <= m < i ==> self.entries@[m].id@ != id@,
            decreases self.entries@.len() - i,
        {
            if self.entries[i].id == *id {
                return Some(i);
            }
            i = i + 1;
        }
        None
    }

    fn find_item(&self, id: &String) -> (r: Option<usize>)
        ensures
            match r {
                Some(i) => i < self.items@.len() && self.items@[i as int].id@ == id@,
                None => !self.has_item(id@),
            },
    {
        let mut i: usize = 0;
        while i < self.items.len()
            invariant
                i <= self.items@.len(),
                forall|m: int| 0 <= m < i ==> self.items@[m].id@ != id@,
            decreases self.items@.len() - i,
        {
            if self.items[i].id == *id {
                return Some(i);
            }
            i = i + 1;
        }
        None
    }

    fn find_tag(&self, id: &String) -> (r: Option<usize>)
        ensures
            match r {
                Some(i) => i < self.tags@.len() && self.tags@[i as int].id@ == id@,
                None => !self.has_tag(id@),
            },
    {
        let mut i: usize = 0;
        while i < self.tags.len()
            invariant
                i <= self.tags@.len(),
                forall|m: int| 0 <= m < i ==> self.tags@[m].id@ != id@,
            decreases self.tags@.len() - i,
        {
            if self.tags[i].id == *id {
                return Some(i);
            }
            i = i + 1;
        }
        None
    }

    fn find_person(&self, id: &String) -> (r: Option<usize>)
        ensures
            match r {
                Some(i) => i < self.people@.len() && self.people@[i as int].id@ == id@,
                None => !self.has_person(id@),
            },
    {
        let mut i: usize = 0;
        while i < self.people.len()
            invariant
                i <= self.people@.len(),
                forall|m: int| 0 <= m < i ==> self.people@[m].id@ != id@,
            decreases self.people@.len() - i,
        {
            if self.people[i].id == *id {
                return Some(i);
            }
            i = i + 1;
        }
        None
    }

    fn find_jira_ref(&self, id: &String) -> (r: Option<usize>)
        ensures
            match r {
                Some(i) => i < self.jira_refs@.len() && self.jira_refs@[i as int].id@ == id@,
                None => !self.has_jira_ref(id@),
            },
    {
        let mut i: usize = 0;
        while i < self.jira_refs.len()
            invariant
                i <= self.jira_refs@.len(),
                forall|m: int| 0 <= m < i ==> self.jira_refs@[m].id@ != id@,
            decreases self.jira_refs@.len() - i,
        {
            if self.jira_refs[i].id == *id {
                return Some(i);
            }
            i = i + 1;
        }
        None
    }

    fn find_project(&self, id: &String) -> (r: Option<usize>)
        ensures
            match r {
                Some(i) => i < self.projects@.len() && self.projects@[i as int].id@ == id@,
                None => !self.has_project(id@),
            },
    {
        let mut i: usize = 0;
        while i < self.projects.len()
            invariant
                i <= self.projects@.len(),
                forall|m: int| 0 <= m < i ==> self.projects@[m].id@ != id@,
            decreases self.projects@.len() - i,
        {
            if self.projects[i].id == *id {
                return Some(i);
            }
            i = i + 1;
        }
        None
    }

    fn find_meeting(&self, id: &String) -> (r: Option<usize>)
        ensures
            match r {
                Some(i) => i < self.meetings@.len() && self.meetings@[i as int].id@ == id@,
                None => !self.has_meeting(id@),
            },
    {
        let mut i: usize = 0;
        while i < self.meetings.len()
            invariant
                i <= self.meetings@.len(),
                forall|m: int| 0 <= m < i ==> self.meetings@[m].id@ != id@,
            decreases self.meetings@.len() - i,
        {
            if self.meetings[i].id == *id {
                return Some(i);
            }
            i = i + 1;
        }
        None
    }

    fn find_attendee(&self, id: &String) -> (r: Option<usize>)
        ensures
            match r {
                Some(i) => i < self.attendees@.len() && self.attendees@[i as int].id@ == id@,
                None => !self.has_attendee(id@),
            },
    {
        let mut i: usize = 0;
        while i < self.attendees.len()
            invariant
                i <= self.attendees@.len(),
                forall|m: int| 0 <= m < i ==> self.attendees@[m].id@ != id@,
            decreases self.attendees@.len() - i,
        {
            if self.attendees[i].id == *id {
                return Some(i);
            }
            i = i + 1;
        }
        None
    }

    fn find_action(&self, id: &String) -> (r: Option<usize>)
        ensures
            match r {
                Some(i) => i < self.actions@.len() && self.actions@[i as int].id@ == id@,
                None => !self.has_action(id@),
            },
    {
        let mut i: usize = 0;
        while i < self.actions.len()
            invariant
                i <= self.actions@.len(),
                forall|m: int| 0 <= m < i ==> self.actions@[m].id@ != id@,
            decreases self.actions@.len() - i,
        {
            if self.actions[i].id == *id {
                return Some(i);
            }
            i = i + 1;
        }
        None
    }

    fn find_tag_named(&self, name: &String) -> (r: Option<usize>)
        ensures
            match r {
                Some(i) => i < self.tags@.len() && self.tags@[i as int].name@ == name@,
                None => !self.has_tag_named(name@),
            },
    {
        let mut i: usize = 0;
        while i < self.tags.len()
            invariant
                i <= self.tags@.len(),
                forall|m: int| 0 <= m < i ==> self.tags@[m].name@ != name@,
            decreases self.tags@.len() - i,
        {
            if self.tags[i].name == *name {
                return Some(i);
            }
            i = i + 1;
        }
        None
    }

    fn find_person_named(&self, name: &String) -> (r: Option<usize>)
        ensures
            match r {
                Some(i) => i < self.people@.len() && self.people@[i as int].name@ == name@,
                None => !self.has_person_named(name@),
            },
    {
        let mut i: usize = 0;
        while i < self.people.len()
            invariant
                i <= self.people@.len(),
                forall|m: int| 0 <= m < i ==> self.people@[m].name@ != name@,
            decreases self.people@.len() - i,
        {
            if self.people[i].name == *name {
                return Some(i);
            }
            i = i + 1;
        }
        None
    }

    fn find_project_named(&self, name: &String) -> (r: Option<usize>)
        ensures
            match r {
                Some(i) => i < self.projects@.len() && self.projects@[i as int].name@ == name@,
                None => !self.has_project_named(name@),
            },
    {
        let mut i: usize = 0;
        while i < self.projects.len()
            invariant
                i <= self.projects@.len(),
                forall|m: int| 0 <= m < i ==> self.projects@[m].name@ != name@,
            decreases self.projects@.len() - i,
        {
            if self.projects[i].name == *name {
                return Some(i);
            }
            i = i + 1;
        }
        None
    }

    /// Rows that stay in place keep every fact of presence.
    pub proof fn lemma_grown(a: Database, b: Database)
        requires
            grows(a.entries@, b.entries@),
            grows(a.items@, b.items@),
            grows(a.tags@, b.tags@),
            grows(a.people@, b.people@),
            grows(a.jira_refs@, b.jira_refs@),
            grows(a.item_tags@, b.item_tags@),
            grows(a.item_people@, b.item_people@),
            grows(a.projects@, b.projects@),
            grows(a.meetings@, b.meetings@),
            grows(a.attendees@, b.attendees@),
            grows(a.actions@, b.actions@),
        ensures
            forall|x: Seq<char>| a.has_entry(x) ==> #[trigger] b.has_entry(x),
            forall|x: Seq<char>| a.has_item(x) ==> #[trigger] b.has_item(x),
            forall|x: Seq<char>| a.has_tag(x) ==> #[trigger] b.has_tag(x),
            forall|x: Seq<char>| a.has_person(x) ==> #[trigger] b.has_person(x),
            forall|x: Seq<char>| a.has_jira_ref(x) ==> #[trigger] b.has_jira_ref(x),
            forall|x: Seq<char>| a.has_project(x) ==> #[trigger] b.has_project(x),
            forall|x: Seq<char>| a.has_meeting(x) ==> #[trigger] b.has_meeting(x),
            forall|x: Seq<char>| a.has_attendee(x) ==> #[trigger] b.has_attendee(x),
            forall|x: Seq<char>| a.has_action(x) ==> #[trigger] b.has_action(x),
            forall|x: Seq<char>| a.has_tag_named(x) ==> #[trigger] b.has_tag_named(x),
            forall|x: Seq<char>| a.has_person_named(x) ==> #[trigger] b.has_person_named(x),
            forall|x: Seq<char>| a.has_project_named(x) ==> #[trigger] b.has_project_named(x),
            forall|x: Seq<char>, y: Seq<char>| a.has_tag_link(x, y) ==> #[trigger] b.has_tag_link(x, y),
            forall|x: Seq<char>, y: Seq<char>| a.has_person_link(x, y) ==> #[trigger] b.has_person_link(x, y),
    {
        assert forall|x: Seq<char>| a.has_entry(x) implies #[trigger] b.has_entry(x) by {
            let i = choose|i: int| 0 <= i < a.entries@.len() && #[trigger] a.entries@[i].id@ == x;
            assert(b.entries@[i] == a.entries@[i]);
        }
        assert forall|x: Seq<char>| a.has_item(x) implies #[trigger] b.has_item(x) by {
            let i = choose|i: int| 0 <= i < a.items@.len() && #[trigger] a.items@[i].id@ == x;
            assert(b.items@[i] == a.items@[i]);
        }
        assert forall|x: Seq<char>| a.has_tag(x) implies #[trigger] b.has_tag(x) by {
            let i = choose|i: int| 0 <= i < a.tags@.len() && #[trigger] a.tags@[i].id@ == x;
            assert(b.tags@[i] == a.tags@[i]);
        }
        assert forall|x: Seq<char>| a.has_person(x) implies #[trigger] b.has_person(x) by {
            let i = choose|i: int| 0 <= i < a.people@.len() && #[trigger] a.people@[i].id@ == x;
            assert(b.people@[i] == a.people@[i]);
        }
        assert forall|x: Seq<char>| a.has_jira_ref(x) implies #[trigger] b.has_jira_ref(x) by {
            let i = choose|i: int| 0 <= i < a.jira_refs@.len() && #[trigger] a.jira_refs@[i].id@ == x;
            assert(b.jira_refs@[i] == a.jira_refs@[i]);
        }
        assert forall|x: Seq<char>| a.has_project(x) implies #[trigger] b.has_project(x) by {
            let i = choose|i: int| 0 <= i < a.projects@.len() && #[trigger] a.projects@[i].id@ == x;
            assert(b.projects@[i] == a.projects@[i]);
        }
        assert forall|x: Seq<char>| a.has_meeting(x) implies #[trigger] b.has_meeting(x) by {
            let i = choose|i: int| 0 <= i < a.meetings@.len() && #[trigger] a.meetings@[i].id@ == x;
            assert(b.meetings@[i] == a.meetings@[i]);
        }
        assert forall|x: Seq<char>| a.has_attendee(x) implies #[trigger] b.has_attendee(x) by {
            let i = choose|i: int| 0 <= i < a.attendees@.len() && #[trigger] a.attendees@[i].id@ == x;
            assert(b.attendees@[i] == a.attendees@[i]);
        }
        assert forall|x: Seq<char>| a.has_action(x) implies #[trigger] b.has_action(x) by {
            let i = choose|i: int| 0 <= i < a.actions@.len() && #[trigger] a.actions@[i].id@ == x;
            assert(b.actions@[i] == a.actions@[i]);
        }
        assert forall|x: Seq<char>| a.has_tag_named(x) implies #[trigger] b.has_tag_named(x) by {
            let i = choose|i: int| 0 <= i < a.tags@.len() && #[trigger] a.tags@[i].name@ == x;
            assert(b.tags@[i] == a.tags@[i]);
        }
        assert forall|x: Seq<char>| a.has_person_named(x) implies #[trigger] b.has_person_named(x) by {
            let i = choose|i: int| 0 <= i < a.people@.len() && #[trigger] a.people@[i].name@ == x;
            assert(b.people@[i] == a.people@[i]);
        }
        assert forall|x: Seq<char>| a.has_project_named(x) implies #[trigger] b.has_project_named(x) by {
            let i = choose|i: int| 0 <= i < a.projects@.len() && #[trigger] a.projects@[i].name@ == x;
            assert(b.projects@[i] == a.projects@[i]);
        }
        assert forall|x: Seq<char>, y: Seq<char>| a.has_tag_link(x, y) implies #[trigger] b.has_tag_link(x, y) by {
            let i = choose|i: int| 0 <= i < a.item_tags@.len() && #[trigger] a.item_tags@[i].entry_item_id@ == x && a.item_tags@[i].tag_id@ == y;
            assert(b.item_tags@[i] == a.item_tags@[i]);
        }
        assert forall|x: Seq<char>, y: Seq<char>| a.has_person_link(x, y) implies #[trigger] b.has_person_link(x, y) by {
            let i = choose|i: int| 0 <= i < a.item_people@.len() && #[trigger] a.item_people@[i].entry_item_id@ == x && a.item_people@[i].person_id@ == y;
            assert(b.item_people@[i] == a.item_people@[i]);
        }
    }

    /// Adds an entry under `id` for the event time `timestamp`, created and
    /// updated at `at`. Fails with `Conflict` when `id` is taken.
    pub fn insert_entry(&mut self, id: String, timestamp: Timestamp, at: Timestamp) -> (r: Result<Entry, LogbookError>)
        requires
            old(self).wf(),
        ensures
            final(self).wf(),
            r is Err <==> old(self).has_entry(id@),
            r matches Err(e) ==> e == LogbookError::Conflict && final(self).entries@ == old(self).entries@,
            r matches Ok(e) ==> e == (Entry { id: id, timestamp: timestamp, created_at: at, updated_at: at })
                && final(self).entries@ == old(self).entries@.push(e),
            final(self).items@ == old(self).items@,
            final(self).tags@ == old(self).tags@,
            final(self).people@ == old(self).people@,
            final(self).jira_refs@ == old(self).jira_refs@,
            final(self).item_tags@ == old(self).item_tags@,
            final(self).item_people@ == old(self).item_people@,
            final(self).projects@ == old(self).projects@,
            final(self).meetings@ == old(self).meetings@,
            final(self).attendees@ == old(self).attendees@,
            final(self).actions@ == old(self).actions@,
    {
        if self.find_entry(&id).is_some() {
            return Err(LogbookError::Conflict);
        }
        let e = Entry { id, timestamp, created_at: at, updated_at: at };
        let copy = e.clone();
        let ghost before = *self;
        self.entries.push(e);
        proof {
            lemma_push_pairwise(before.entries@, copy, entries_ids_differ());
            Database::lemma_grown(before, *self);
        }
        Ok(copy)
    }

    /// Adds an entry for the event time `timestamp` under a fresh identifier,
    /// created and updated now.
    pub fn create_entry(&mut self, timestamp: Timestamp) -> (r: Result<Entry, LogbookError>)
        requires
            old(self).wf(),
        ensures
            final(self).wf(),
            old(self).fresh_entry_id_free() ==> r is Ok,
            r matches Ok(e) ==> e.timestamp == timestamp && e.created_at == e.updated_at
                && !old(self).has_entry(e.id@) && final(self).entries@ == old(self).entries@.push(e),
            r matches Err(e) ==> e == LogbookError::Conflict && final(self).entries@ == old(self).entries@,
            final(self).items@ == old(self).items@,
            final(self).tags@ == old(self).tags@,
            final(self).people@ == old(self).people@,
            final(self).jira_refs@ == old(self).jira_refs@,
            final(self).item_tags@ == old(self).item_tags@,
            final(self).item_people@ == old(self).item_people@,
            final(self).projects@ == old(self).projects@,
            final(self).meetings@ == old(self).meetings@,
            final(self).attendees@ == old(self).attendees@,
            final(self).actions@ == old(self).actions@,
    {
        let id = fresh_id();
        proof {
            if old(self).fresh_entry_id_free() {
                assert(!old(self).has_entry(id@));
            }
        }
        let at = now();
        self.insert_entry(id, timestamp, at)
    }

    /// Adds an item under `id` to the entry `entry_id`, created and updated
    /// at `at`. Fails with `Referential` when the entry does not exist, else
    /// with `Conflict` when `id` is taken.
    pub fn insert_entry_item(
        &mut self,
        id: String,
        entry_id: String,
        item_type: String,
        content: String,
        project: Option<String>,
        at: Timestamp,
    ) -> (r: Result<EntryItem, LogbookError>)
        requires
            old(self).wf(),
        ensures
            final(self).wf(),
            !old(self).has_entry(entry_id@) ==> r == Err::<EntryItem, LogbookError>(LogbookError::Referential),
            old(self).has_entry(entry_id@) ==> r != Err::<EntryItem, LogbookError>(LogbookError::Referential),
            old(self).has_entry(entry_id@) ==> (r is Err <==> old(self).has_item(id@)),
            r matches Err(e) ==> (e == LogbookError::Referential || e == LogbookError::Conflict)
                && final(self).items@ == old(self).items@,
            r matches Ok(it) ==> it == (EntryItem { id: id, entry_id: entry_id, item_type: item_type, content: content,
                    project: project, created_at: at, updated_at: at })
                && final(self).items@ == old(self).items@.push(it),
            final(self).entries@ == old(self).entries@,
            final(self).tags@ == old(self).tags@,
            final(self).people@ == old(self).people@,
            final(self).jira_refs@ == old(self).jira_refs@,
            final(self).item_tags@ == old(self).item_tags@,
            final(self).item_people@ == old(self).item_people@,
            final(self).projects@ == old(self).projects@,
            final(self).meetings@ == old(self).meetings@,
            final(self).attendees@ == old(self).attendees@,
            final(self).actions@ == old(self).actions@,
    {
        if self.find_entry(&entry_id).is_none() {
            return Err(LogbookError::Referential);
        }
        if self.find_item(&id).is_some() {
            return Err(LogbookError::Conflict);
        }
        let it = EntryItem { id, entry_id, item_type, content, project, created_at: at, updated_at: at };
        let copy = it.clone();
        let ghost before = *self;
        self.items.push(it);
        proof {
            lemma_push_pairwise(before.items@, copy, items_ids_differ());
            Database::lemma_grown(before, *self);
        }
        Ok(copy)
    }

    /// Adds an item to the entry `entry_id` under a fresh identifier, created
    /// and updated now. Fails with `Referential` when the entry does not exist.
    pub fn create_entry_item(&mut self, entry_id: &str, item_type: &str, content: &str, project: Option<&str>) -> (r:
        Result<EntryItem, LogbookError>)
        requires
            old(self).wf(),
        ensures
            final(self).wf(),
            old(self).has_entry(entry_id@) && old(self).fresh_item_id_free() ==> r is Ok,
            !old(self).has_entry(entry_id@) ==> r == Err::<EntryItem, LogbookError>(LogbookError::Referential),
            old(self).has_entry(entry_id@) ==> r != Err::<EntryItem, LogbookError>(LogbookError::Referential),
            r matches Err(e) ==> (e == LogbookError::Referential || e == LogbookError::Conflict)
                && final(self).items@ == old(self).items@,
            r matches Ok(it) ==> it.entry_id@ == entry_id@ && it.item_type@ == item_type@ && it.content@ == content@
                && text_view(it.project) == str_view(project) && it.created_at == it.updated_at
                && !old(self).has_item(it.id@) && final(self).items@ == old(self).items@.push(it),
            final(self).entries@ == old(self).entries@,
            final(self).tags@ == old(self).tags@,
            final(self).people@ == old(self).people@,
            final(self).jira_refs@ == old(self).jira_refs@,
            final(self).item_tags@ == old(self).item_tags@,
            final(self).item_people@ == old(self).item_people@,
            final(self).projects@ == old(self).projects@,
            final(self).meetings@ == old(self).meetings@,
            final(self).attendees@ == old(self).attendees@,
            final(self).actions@ == old(self).actions@,
    {
        let id = fresh_id();
        proof {
            if old(self).fresh_item_id_free() {
                assert(!old(self).has_item(id@));
            }
        }
        let at = now();
        self.insert_entry_item(id, entry_id.to_owned(), item_type.to_owned(), content.to_owned(), owned_text(project), at)
    }

    /// Returns the tag named `name`, or adds one under `id` with the default
    /// colour and no description or category, created and updated at `at`.
    pub fn get_or_insert_tag(&mut self, name: String, id: String, at: Timestamp) -> (r: Result<Tag, LogbookError>)
        requires
            old(self).wf(),
        ensures
            final(self).wf(),
            old(self).has_tag_named(name@) ==> (r matches Ok(t) && old(self).tags@.contains(t) && t.name@ == name@)
                && final(self).tags@ == old(self).tags@,
            !old(self).has_tag_named(name@) && old(self).has_tag(id@) ==> r == Err::<Tag, LogbookError>(LogbookError::Conflict)
                && final(self).tags@ == old(self).tags@,
            !old(self).has_tag_named(name@) && !old(self).has_tag(id@) ==> (r matches Ok(t) && t.id == id && t.name == name
                && t.description is None && t.color@ == DEFAULT_TAG_COLOR@ && t.category is None
                && t.created_at == at && t.updated_at == at && final(self).tags@ == old(self).tags@.push(t)),
            final(self).entries@ == old(self).entries@,
            final(self).items@ == old(self).items@,
            final(self).people@ == old(self).people@,
            final(self).jira_refs@ == old(self).jira_refs@,
            final(self).item_tags@ == old(self).item_tags@,
            final(self).item_people@ == old(self).item_people@,
            final(self).projects@ == old(self).projects@,
            final(self).meetings@ == old(self).meetings@,
            final(self).attendees@ == old(self).attendees@,
            final(self).actions@ == old(self).actions@,
    {
        if let Some(k) = self.find_tag_named(&name) {
            return Ok(self.tags[k].clone());
        }
        if self.find_tag(&id).is_some() {
            return Err(LogbookError::Conflict);
        }
        let t = Tag {
            id,
            name,
            description: None,
            color: String::from_str(DEFAULT_TAG_COLOR),
            category: None,
            created_at: at,
            updated_at: at,
        };
        let copy = t.clone();
        let ghost before = *self;
        self.tags.push(t);
        proof {
            lemma_push_pairwise(before.tags@, copy, tags_ids_differ());
            lemma_push_pairwise(before.tags@, copy, tags_names_differ());
            Database::lemma_grown(before, *self);
        }
        Ok(copy)
    }

    /// Returns the tag named `name`, or adds one with the default colour under
    /// a fresh identifier, created and updated now.
    pub fn get_or_create_tag(&mut self, name: &str) -> (r: Result<Tag, LogbookError>)
        requires
            old(self).wf(),
        ensures
            final(self).wf(),
            !old(self).has_tag_named(name@) && old(self).fresh_tag_id_free() ==> r is Ok,
            gets_or_creates_tag(*old(self), *final(self), name@, r),
            old(self).has_tag_named(name@) ==> (r matches Ok(t) && old(self).tags@.contains(t) && t.name@ == name@)
                && final(self).tags@ == old(self).tags@,
            !old(self).has_tag_named(name@) ==> match r {
                Ok(t) => t.name@ == name@ && t.description is None && t.color@ == DEFAULT_TAG_COLOR@
                    && t.category is None && t.created_at == t.updated_at && !old(self).has_tag(t.id@)
                    && final(self).tags@ == old(self).tags@.push(t),
                Err(e) => e == LogbookError::Conflict && final(self).tags@ == old(self).tags@,
            },
            final(self).entries@ == old(self).entries@,
            final(self).items@ == old(self).items@,
            final(self).people@ == old(self).people@,
            final(self).jira_refs@ == old(self).jira_refs@,
            final(self).item_tags@ == old(self).item_tags@,
            final(self).item_people@ == old(self).item_people@,
            final(self).projects@ == old(self).projects@,
            final(self).meetings@ == old(self).meetings@,
            final(self).attendees@ == old(self).attendees@,
            final(self).actions@ == old(self).actions@,
    {
        let id = fresh_id();
        proof {
            if old(self).fresh_tag_id_free() {
                assert(!old(self).has_tag(id@));
            }
        }
        let at = now();
        self.get_or_insert_tag(name.to_owned(), id, at)
    }

    /// Returns the person named `name`, or adds one under `id`, created at `at`.
    pub fn get_or_insert_person(&mut self, name: String, id: String, at: Timestamp) -> (r: Result<Person, LogbookError>)
        requires
            old(self).wf(),
        ensures
            final(self).wf(),
            old(self).has_person_named(name@) ==> (r matches Ok(p) && old(self).people@.contains(p) && p.name@ == name@)
                && final(self).people@ == old(self).people@,
            !old(self).has_person_named(name@) && old(self).has_person(id@) ==> r == Err::<Person, LogbookError>(LogbookError::Conflict)
                && final(self).people@ == old(self).people@,
            !old(self).has_person_named(name@) && !old(self).has_person(id@) ==> (r matches Ok(p)
                && p == (Person { id: id, name: name, created_at: at }) && final(self).people@ == old(self).people@.push(p)),
            final(self).entries@ == old(self).entries@,
            final(self).items@ == old(self).items@,
            final(self).tags@ == old(self).tags@,
            final(self).jira_refs@ == old(self).jira_refs@,
            final(self).item_tags@ == old(self).item_tags@,
            final(self).item_people@ == old(self).item_people@,
            final(self).projects@ == old(self).projects@,
            final(self).meetings@ == old(self).meetings@,
            final(self).attendees@ == old(self).attendees@,
            final(self).actions@ == old(self).actions@,
    {
        if let Some(k) = self.find_person_named(&name) {
            return Ok(self.people[k].clone());
        }
        if self.find_person(&id).is_some() {
            return Err(LogbookError::Conflict);
        }
        let p = Person { id, name, created_at: at };
        let copy = p.clone();
        let ghost before = *self;
        self.people.push(p);
        proof {
            lemma_push_pairwise(before.people@, copy, people_ids_differ());
            lemma_push_pairwise(before.people@, copy, people_names_differ());
            Database::lemma_grown(before, *self);
        }
        Ok(copy)
    }

    /// Returns the person named `name`, or adds one under a fresh identifier,
    /// created now.
    pub fn get_or_create_person(&mut self, name: &str) -> (r: Result<Person, LogbookError>)
        requires
            old(self).wf(),
        ensures
            final(self).wf(),
            !old(self).has_person_named(name@) && old(self).fresh_person_id_free() ==> r is Ok,
            gets_or_creates_person(*old(self), *final(self), name@, r),
            old(self).has_person_named(name@) ==> (r matches Ok(p) && old(self).people@.contains(p) && p.name@ == name@)
                && final(self).people@ == old(self).people@,
            !old(self).has_person_named(name@) ==> match r {
                Ok(p) => p.name@ == name@ && !old(self).has_person(p.id@) && final(self).people@ == old(self).people@.push(p),
                Err(e) => e == LogbookError::Conflict && final(self).people@ == old(self).people@,
            },
            final(self).entries@ == old(self).entries@,
            final(self).items@ == old(self).items@,
            final(self).tags@ == old(self).tags@,
            final(self).jira_refs@ == old(self).jira_refs@,
            final(self).item_tags@ == old(self).item_tags@,
            final(self).item_people@ == old(self).item_people@,
            final(self).projects@ == old(self).projects@,
            final(self).meetings@ == old(self).meetings@,
            final(self).attendees@ == old(self).attendees@,
            final(self).actions@ == old(self).actions@,
    {
        let id = fresh_id();
        proof {
            if old(self).fresh_person_id_free() {
                assert(!old(self).has_person(id@));
            }
        }
        let at = now();
        self.get_or_insert_person(name.to_owned(), id, at)
    }

    /// Adds a reference from the item `entry_item_id` to the issue key
    /// `jira_key` under `id`, created at `at`. The same key may be attached
    /// more than once.
    pub fn insert_jira_ref(&mut self, id: String, entry_item_id: String, jira_key: String, at: Timestamp) -> (r:
        Result<JiraRef, LogbookError>)
        requires
            old(self).wf(),
        ensures
            final(self).wf(),
            !old(self).has_item(entry_item_id@) ==> r == Err::<JiraRef, LogbookError>(LogbookError::Referential),
            old(self).has_item(entry_item_id@) ==> r != Err::<JiraRef, LogbookError>(LogbookError::Referential),
            old(self).has_item(entry_item_id@) ==> (r is Err <==> old(self).has_jira_ref(id@)),
            r matches Err(e) ==> (e == LogbookError::Referential || e == LogbookError::Conflict)
                && final(self).jira_refs@ == old(self).jira_refs@,
            r matches Ok(j) ==> j == (JiraRef { id: id, entry_item_id: entry_item_id, jira_key: jira_key, created_at: at })
                && final(self).jira_refs@ == old(self).jira_refs@.push(j),
            final(self).entries@ == old(self).entries@,
            final(self).items@ == old(self).items@,
            final(self).tags@ == old(self).tags@,
            final(self).people@ == old(self).people@,
            final(self).item_tags@ == old(self).item_tags@,
            final(self).item_people@ == old(self).item_people@,
            final(self).projects@ == old(self).projects@,
            final(self).meetings@ == old(self).meetings@,
            final(self).attendees@ == old(self).attendees@,
            final(self).actions@ == old(self).actions@,
    {
        if self.find_item(&entry_item_id).is_none() {
            return Err(LogbookError::Referential);
        }
        if self.find_jira_ref(&id).is_some() {
            return Err(LogbookError::Conflict);
        }
        let j = JiraRef { id, entry_item_id, jira_key, created_at: at };
        let copy = j.clone();
        let ghost before = *self;
        self.jira_refs.push(j);
        proof {
            lemma_push_pairwise(before.jira_refs@, copy, jira_refs_ids_differ());
            Database::lemma_grown(before, *self);
        }
        Ok(copy)
    }

    /// Adds a reference from an item to an issue key under a fresh identifier.
    pub fn create_jira_ref(&mut self, entry_item_id: &str, jira_key: &str) -> (r: Result<JiraRef, LogbookError>)
        requires
            old(self).wf(),
        ensures
            final(self).wf(),
            old(self).has_item(entry_item_id@) && old(self).fresh_jira_ref_id_free() ==> r is Ok,
            !old(self).has_item(entry_item_id@) ==> r == Err::<JiraRef, LogbookError>(LogbookError::Referential),
            old(self).has_item(entry_item_id@) ==> r != Err::<JiraRef, LogbookError>(LogbookError::Referential),
            r matches Err(e) ==> (e == LogbookError::Referential || e == LogbookError::Conflict)
                && final(self).jira_refs@ == old(self).jira_refs@,
            r matches Ok(j) ==> j.entry_item_id@ == entry_item_id@ && j.jira_key@ == jira_key@
                && !old(self).has_jira_ref(j.id@) && final(self).jira_refs@ == old(self).jira_refs@.push(j),
            final(self).entries@ == old(self).entries@,
            final(self).items@ == old(self).items@,
            final(self).tags@ == old(self).tags@,
            final(self).people@ == old(self).people@,
            final(self).item_tags@ == old(self).item_tags@,
            final(self).item_people@ == old(self).item_people@,
            final(self).projects@ == old(self).projects@,
            final(self).meetings@ == old(self).meetings@,
            final(self).attendees@ == old(self).attendees@,
            final(self).actions@ == old(self).actions@,
    {
        let id = fresh_id();
        proof {
            if old(self).fresh_jira_ref_id_free() {
                assert(!old(self).has_jira_ref(id@));
            }
        }
        let at = now();
        self.insert_jira_ref(id, entry_item_id.to_owned(), jira_key.to_owned(), at)
    }

    /// Links an item to a tag. Linking a pair that is already linked changes
    /// nothing. Fails with `Referential` when the item or the tag is missing.
    pub fn link_item_tag(&mut self, entry_item_id: &str, tag_id: &str) -> (r: Result<(), LogbookError>)
        requires
            old(self).wf(),
        ensures
            final(self).wf(),
            links_tag(*old(self), *final(self), entry_item_id@, tag_id@, r),
            r is Err <==> !old(self).has_item(entry_item_id@) || !old(self).has_tag(tag_id@),
            r matches Err(e) ==> e == LogbookError::Referential,
            r is Err || old(self).has_tag_link(entry_item_id@, tag_id@) ==> final(self).item_tags@ == old(self).item_tags@,
            r is Ok && !old(self).has_tag_link(entry_item_id@, tag_id@) ==> final(self).item_tags@.drop_last() == old(self).item_tags@
                && final(self).item_tags@.len() == old(self).item_tags@.len() + 1
                && final(self).item_tags@.last().entry_item_id@ == entry_item_id@
                && final(self).item_tags@.last().tag_id@ == tag_id@,
            r is Ok ==> final(self).has_tag_link(entry_item_id@, tag_id@),
            final(self).entries@ == old(self).entries@,
            final(self).items@ == old(self).items@,
            final(self).tags@ == old(self).tags@,
            final(self).people@ == old(self).people@,
            final(self).jira_refs@ == old(self).jira_refs@,
            final(self).item_people@ == old(self).item_people@,
            final(self).projects@ == old(self).projects@,
            final(self).meetings@ == old(self).meetings@,
            final(self).attendees@ == old(self).attendees@,
            final(self).actions@ == old(self).actions@,
    {
        let item = entry_item_id.to_owned();
        let tag = tag_id.to_owned();
        if self.find_item(&item).is_none() || self.find_tag(&tag).is_none() {
            return Err(LogbookError::Referential);
        }
        if self.find_tag_link(&item, &tag) {
            return Ok(());
        }
        let link = ItemTag { entry_item_id: item, tag_id: tag };
        let ghost copy = link;
        let ghost before = *self;
        self.item_tags.push(link);
        proof {
            lemma_push_pairwise(before.item_tags@, copy, item_tag_pairs_differ());
            Database::lemma_grown(before, *self);
            assert(self.item_tags@[before.item_tags@.len() as int] == copy);
            assert forall|i: int| 0 <= i < self.item_tags@.len() implies self.has_item(#[trigger] self.item_tags@[i].entry_item_id@)
                && self.has_tag(self.item_tags@[i].tag_id@) by {
                if i < before.item_tags@.len() {
                    assert(self.item_tags@[i] == before.item_tags@[i]);
                    assert(before.has_item(before.item_tags@[i].entry_item_id@));
                    assert(before.has_tag(before.item_tags@[i].tag_id@));
                }
            }
            assert(self.keys_unique());
            assert(self.references_hold());
            assert(self.item_tags@.drop_last() =~= before.item_tags@);
            assert(self.item_tags@[before.item_tags@.len() as int].entry_item_id@ == item@);
            assert(self.has_tag_link(item@, tag@));
        }
        Ok(())
    }

    /// Links an item to a person. Linking a pair that is already linked
    /// changes nothing. Fails with `Referential` when either is missing.
    pub fn link_item_person(&mut self, entry_item_id: &str, person_id: &str) -> (r: Result<(), LogbookError>)
        requires
            old(self).wf(),
        ensures
            final(self).wf(),
            r is Err <==> !old(self).has_item(entry_item_id@) || !old(self).has_person(person_id@),
            r matches Err(e) ==> e == LogbookError::Referential,
            r is Err || old(self).has_person_link(entry_item_id@, person_id@) ==> final(self).item_people@ == old(self).item_people@,
            r is Ok && !old(self).has_person_link(entry_item_id@, person_id@) ==> final(self).item_people@.drop_last() == old(self).item_people@
                && final(self).item_people@.len() == old(self).item_people@.len() + 1
                && final(self).item_people@.last().entry_item_id@ == entry_item_id@
                && final(self).item_people@.last().person_id@ == person_id@,
            r is Ok ==> final(self).has_person_link(entry_item_id@, person_id@),
            final(self).entries@ == old(self).entries@,
            final(self).items@ == old(self).items@,
            final(self).tags@ == old(self).tags@,
            final(self).people@ == old(self).people@,
            final(self).jira_refs@ == old(self).jira_refs@,
            final(self).item_tags@ == old(self).item_tags@,
            final(self).projects@ == old(self).projects@,
            final(self).meetings@ == old(self).meetings@,
            final(self).attendees@ == old(self).attendees@,
            final(self).actions@ == old(self).actions@,
    {
        let item = entry_item_id.to_owned();
        let person = person_id.to_owned();
        if self.find_item(&item).is_none() || self.find_person(&person).is_none() {
            return Err(LogbookError::Referential);
        }
        if self.find_person_link(&item, &person) {
            return Ok(());
        }
        let link = ItemPerson { entry_item_id: item, person_id: person };
        let ghost copy = link;
        let ghost before = *self;
        self.item_people.push(link);
        proof {
            lemma_push_pairwise(before.item_people@, copy, item_person_pairs_differ());
            Database::lemma_grown(before, *self);
            assert(self.item_people@[before.item_people@.len() as int] == copy);
            assert forall|i: int| 0 <= i < self.item_people@.len() implies self.has_item(#[trigger] self.item_people@[i].entry_item_id@)
                && self.has_person(self.item_people@[i].person_id@) by {
                if i < before.item_people@.len() {
                    assert(self.item_people@[i] == before.item_people@[i]);
                    assert(before.has_item(before.item_people@[i].entry_item_id@));
                    assert(before.has_person(before.item_people@[i].person_id@));
                }
            }
            assert(self.keys_unique());
            assert(self.references_hold());
            assert(self.item_people@.drop_last() =~= before.item_people@);
            assert(self.item_people@[before.item_people@.len() as int].entry_item_id@ == item@);
            assert(self.has_person_link(item@, person@));
        }
        Ok(())
    }

    fn find_tag_link(&self, item: &String, tag: &String) -> (r: bool)
        ensures
            r == self.has_tag_link(item@, tag@),
    {
        let mut i: usize = 0;
        while i < self.item_tags.len()
            invariant
                i <= self.item_tags@.len(),
                forall|m: int| 0 <= m < i ==> !(#[trigger] self.item_tags@[m].entry_item_id@ == item@
                    && self.item_tags@[m].tag_id@ == tag@),
            decreases self.item_tags@.len() - i,
        {
            if self.item_tags[i].entry_item_id == *item && self.item_tags[i].tag_id == *tag {
                return true;
            }
            i = i + 1;
        }
        false
    }

    fn find_person_link(&self, item: &String, person: &String) -> (r: bool)
        ensures
            r == self.has_person_link(item@, person@),
    {
        let mut i: usize = 0;
        while i < self.item_people.len()
            invariant
                i <= self.item_people@.len(),
                forall|m: int| 0 <= m < i ==> !(#[trigger] self.item_people@[m].entry_item_id@ == item@
                    && self.item_people@[m].person_id@ == person@),
            decreases self.item_people@.len() - i,
        {
            if self.item_people[i].entry_item_id == *item && self.item_people[i].person_id == *person {
                return true;
            }
            i = i + 1;
        }
        false
    }

    /// Whether an item has the identifier `id`.
    pub fn contains_item(&self, id: &str) -> (r: bool)
        ensures
            r == self.has_item(id@),
    {
        self.find_item(&id.to_owned()).is_some()
    }

    /// The tag whose identifier is `id`.
    pub open spec fn tag_with_id(self, id: Seq<char>) -> Tag {
        self.tags@[choose|i: int| 0 <= i < self.tags@.len() && #[trigger] self.tags@[i].id@ == id]
    }

    /// The person whose identifier is `id`.
    pub open spec fn person_with_id(self, id: Seq<char>) -> Person {
        self.people@[choose|i: int| 0 <= i < self.people@.len() && #[trigger] self.people@[i].id@ == id]
    }

    /// The entry whose identifier is `id`.
    pub open spec fn entry_with_id(self, id: Seq<char>) -> Entry {
        self.entries@[choose|i: int| 0 <= i < self.entries@.len() && #[trigger] self.entries@[i].id@ == id]
    }

    /// The item whose identifier is `id`.
    pub open spec fn item_with_id(self, id: Seq<char>) -> EntryItem {
        self.items@[choose|i: int| 0 <= i < self.items@.len() && #[trigger] self.items@[i].id@ == id]
    }

    /// The join rows of the item `item_id` with tags, in table order.
    pub open spec fn tag_links_of(self, item_id: Seq<char>) -> Seq<ItemTag> {
        self.item_tags@.filter(tag_link_of_item(item_id))
    }

    /// The tags of the item `item_id`, in the order of its join rows.
    pub open spec fn tags_of(self, item_id: Seq<char>) -> Seq<Tag> {
        Seq::new(self.tag_links_of(item_id).len(), |k: int| self.tag_with_id(self.tag_links_of(item_id)[k].tag_id@))
    }

    /// The join rows of the item `item_id` with people, in table order.
    pub open spec fn person_links_of(self, item_id: Seq<char>) -> Seq<ItemPerson> {
        self.item_people@.filter(person_link_of_item(item_id))
    }

    /// The people of the item `item_id`, in the order of its join rows.
    pub open spec fn people_of(self, item_id: Seq<char>) -> Seq<Person> {
        Seq::new(self.person_links_of(item_id).len(), |k: int| self.person_with_id(self.person_links_of(item_id)[k].person_id@))
    }

    /// The issue references of the item `item_id`, in table order.
    pub open spec fn jira_refs_of(self, item_id: Seq<char>) -> Seq<JiraRef> {
        self.jira_refs@.filter(jira_ref_of_item(item_id))
    }

    /// The items of the entry `entry_id`, in table order.
    pub open spec fn items_of(self, entry_id: Seq<char>) -> Seq<EntryItem> {
        self.items@.filter(item_of_entry(entry_id))
    }

    /// `m` shows its item with exactly the tags, people and issue references
    /// attached to it.
    pub open spec fn describes_item(self, m: EntryItemWithMetadata) -> bool {
        &&& m.tags@ == self.tags_of(m.item.id@)
        &&& m.people@ == self.people_of(m.item.id@)
        &&& m.jira_refs@ == self.jira_refs_of(m.item.id@)
    }

    /// `x` shows its entry with all the items of that entry, earliest created
    /// first, each with its metadata.
    pub open spec fn describes_entry(self, x: EntryWithItems) -> bool {
        &&& items_shown(x.items@).to_multiset() == self.items_of(x.entry.id@).to_multiset()
        &&& is_ranked(items_shown(x.items@))
        &&& forall|k: int| 0 <= k < x.items@.len() ==> self.describes_item(#[trigger] x.items@[k])
    }

    pub proof fn lemma_tag_at(self, k: int)
        requires
            self.wf(),
            0 <= k < self.tags@.len(),
        ensures
            self.tag_with_id(self.tags@[k].id@) == self.tags@[k],
    {
        let id = self.tags@[k].id@;
        assert(self.tags@[k].id@ == id);
        let c = choose|i: int| 0 <= i < self.tags@.len() && #[trigger] self.tags@[i].id@ == id;
        if c < k {
            assert(tags_ids_differ()(self.tags@[c], self.tags@[k]));
        } else if k < c {
            assert(tags_ids_differ()(self.tags@[k], self.tags@[c]));
        }
    }

    pub proof fn lemma_person_at(self, k: int)
        requires
            self.wf(),
            0 <= k < self.people@.len(),
        ensures
            self.person_with_id(self.people@[k].id@) == self.people@[k],
    {
        let id = self.people@[k].id@;
        assert(self.people@[k].id@ == id);
        let c = choose|i: int| 0 <= i < self.people@.len() && #[trigger] self.people@[i].id@ == id;
        if c < k {
            assert(people_ids_differ()(self.people@[c], self.people@[k]));
        } else if k < c {
            assert(people_ids_differ()(self.people@[k], self.people@[c]));
        }
    }

    pub proof fn lemma_entry_at(self, k: int)
        requires
            self.wf(),
            0 <= k < self.entries@.len(),
        ensures
            self.entry_with_id(self.entries@[k].id@) == self.entries@[k],
    {
        let id = self.entries@[k].id@;
        assert(self.entries@[k].id@ == id);
        let c = choose|i: int| 0 <= i < self.entries@.len() && #[trigger] self.entries@[i].id@ == id;
        if c < k {
            assert(entries_ids_differ()(self.entries@[c], self.entries@[k]));
        } else if k < c {
            assert(entries_ids_differ()(self.entries@[k], self.entries@[c]));
        }
    }

    pub proof fn lemma_item_at(self, k: int)
        requires
            self.wf(),
            0 <= k < self.items@.len(),
        ensures
            self.item_with_id(self.items@[k].id@) == self.items@[k],
    {
        let id = self.items@[k].id@;
        assert(self.items@[k].id@ == id);
        let c = choose|i: int| 0 <= i < self.items@.len() && #[trigger] self.items@[i].id@ == id;
        if c < k {
            assert(items_ids_differ()(self.items@[c], self.items@[k]));
        } else if k < c {
            assert(items_ids_differ()(self.items@[k], self.items@[c]));
        }
    }

    /// The tags of an item, in the order of its join rows.
    pub fn get_item_tags(&self, entry_item_id: &String) -> (r: Vec<Tag>)
        requires
            self.wf(),
        ensures
            r@ == self.tags_of(entry_item_id@),
    {
        let ghost p = tag_link_of_item(entry_item_id@);
        let mut out: Vec<Tag> = Vec::new();
        let mut i: usize = 0;
        while i < self.item_tags.len()
            invariant
                self.wf(),
                p == tag_link_of_item(entry_item_id@),
                i <= self.item_tags@.len(),
                out@.len() == self.item_tags@.take(i as int).filter(p).len(),
                forall|k: int| 0 <= k < out@.len() ==> #[trigger] out@[k] == self.tag_with_id(
                    self.item_tags@.take(i as int).filter(p)[k].tag_id@,
                ),
            decreases self.item_tags@.len() - i,
        {
            let ghost prev = self.item_tags@.take(i as int).filter(p);
            proof {
                assert(self.item_tags@.take(i + 1) =~= self.item_tags@.take(i as int).push(self.item_tags@[i as int]));
                self.item_tags@.take(i as int).lemma_filter_push(self.item_tags@[i as int], p);
            }
            if self.item_tags[i].entry_item_id == *entry_item_id {
                let found = self.find_tag(&self.item_tags[i].tag_id);
                proof {
                    assert(self.has_tag(self.item_tags@[i as int].tag_id@));
                }
                let k = found.unwrap();
                proof {
                    self.lemma_tag_at(k as int);
                }
                out.push(self.tags[k].clone());
                proof {
                    assert forall|m: int| 0 <= m < out@.len() implies #[trigger] out@[m] == self.tag_with_id(
                        self.item_tags@.take(i + 1).filter(p)[m].tag_id@,
                    ) by {
                        if m < prev.len() {
                            assert(self.item_tags@.take(i + 1).filter(p)[m] == prev[m]);
                        }
                    }
                }
            }
            i = i + 1;
        }
        proof {
            assert(self.item_tags@.take(i as int) =~= self.item_tags@);
            assert(out@ =~= self.tags_of(entry_item_id@));
        }
        out
    }

    /// The people of an item, in the order of its join rows.
    pub fn get_item_people(&self, entry_item_id: &String) -> (r: Vec<Person>)
        requires
            self.wf(),
        ensures
            r@ == self.people_of(entry_item_id@),
    {
        let ghost p = person_link_of_item(entry_item_id@);
        let mut out: Vec<Person> = Vec::new();
        let mut i: usize = 0;
        while i < self.item_people.len()
            invariant
                self.wf(),
                p == person_link_of_item(entry_item_id@),
                i <= self.item_people@.len(),
                out@.len() == self.item_people@.take(i as int).filter(p).len(),
                forall|k: int| 0 <= k < out@.len() ==> #[trigger] out@[k] == self.person_with_id(
                    self.item_people@.take(i as int).filter(p)[k].person_id@,
                ),
            decreases self.item_people@.len() - i,
        {
            let ghost prev = self.item_people@.take(i as int).filter(p);
            proof {
                assert(self.item_people@.take(i + 1) =~= self.item_people@.take(i as int).push(self.item_people@[i as int]));
                self.item_people@.take(i as int).lemma_filter_push(self.item_people@[i as int], p);
            }
            if self.item_people[i].entry_item_id == *entry_item_id {
                let found = self.find_person(&self.item_people[i].person_id);
                proof {
                    assert(self.has_person(self.item_people@[i as int].person_id@));
                }
                let k = found.unwrap();
                proof {
                    self.lemma_person_at(k as int);
                }
                out.push(self.people[k].clone());
                proof {
                    assert forall|m: int| 0 <= m < out@.len() implies #[trigger] out@[m] == self.person_with_id(
                        self.item_people@.take(i + 1).filter(p)[m].person_id@,
                    ) by {
                        if m < prev.len() {
                            assert(self.item_people@.take(i + 1).filter(p)[m] == prev[m]);
                        }
                    }
                }
            }
            i = i + 1;
        }
        proof {
            assert(self.item_people@.take(i as int) =~= self.item_people@);
            assert(out@ =~= self.people_of(entry_item_id@));
        }
        out
    }

    /// The issue references of an item, in table order.
    pub fn get_item_jira_refs(&self, entry_item_id: &String) -> (r: Vec<JiraRef>)
        ensures
            r@ == self.jira_refs_of(entry_item_id@),
    {
        let ghost p = jira_ref_of_item(entry_item_id@);
        let mut out: Vec<JiraRef> = Vec::new();
        let mut i: usize = 0;
        while i < self.jira_refs.len()
            invariant
                p == jira_ref_of_item(entry_item_id@),
                i <= self.jira_refs@.len(),
                out@ == self.jira_refs@.take(i as int).filter(p),
            decreases self.jira_refs@.len() - i,
        {
            proof {
                assert(self.jira_refs@.take(i + 1) =~= self.jira_refs@.take(i as int).push(self.jira_refs@[i as int]));
                self.jira_refs@.take(i as int).lemma_filter_push(self.jira_refs@[i as int], p);
            }
            if self.jira_refs[i].entry_item_id == *entry_item_id {
                out.push(self.jira_refs[i].clone());
            }
            i = i + 1;
        }
        proof {
            assert(self.jira_refs@.take(i as int) =~= self.jira_refs@);
        }
        out
    }

    /// The items of an entry, in table order.
    fn items_of_entry(&self, entry_id: &String) -> (r: Vec<EntryItem>)
        ensures
            r@ == self.items_of(entry_id@),
    {
        let ghost p = item_of_entry(entry_id@);
        let mut out: Vec<EntryItem> = Vec::new();
        let mut i: usize = 0;
        while i < self.items.len()
            invariant
                p == item_of_entry(entry_id@),
                i <= self.items@.len(),
                out@ == self.items@.take(i as int).filter(p),
            decreases self.items@.len() - i,
        {
            proof {
                assert(self.items@.take(i + 1) =~= self.items@.take(i as int).push(self.items@[i as int]));
                self.items@.take(i as int).lemma_filter_push(self.items@[i as int], p);
            }
            if self.items[i].entry_id == *entry_id {
                out.push(self.items[i].clone());
            }
            i = i + 1;
        }
        proof {
            assert(self.items@.take(i as int) =~= self.items@);
        }
        out
    }

    /// The items of an entry, earliest created first, each with its tags,
    /// people and issue references.
    pub fn get_entry_items_with_metadata(&self, entry_id: &String) -> (r: Vec<EntryItemWithMetadata>)
        requires
            self.wf(),
        ensures
            items_shown(r@).to_multiset() == self.items_of(entry_id@).to_multiset(),
            is_ranked(items_shown(r@)),
            forall|k: int| 0 <= k < r@.len() ==> self.describes_item(#[trigger] r@[k]),
    {
        let sorted = sort_ranked(self.items_of_entry(entry_id));
        let mut out: Vec<EntryItemWithMetadata> = Vec::new();
        let mut i: usize = 0;
        while i < sorted.len()
            invariant
                self.wf(),
                i <= sorted@.len(),
                out@.len() == i,
                items_shown(out@) == sorted@.take(i as int),
                forall|k: int| 0 <= k < out@.len() ==> self.describes_item(#[trigger] out@[k]),
            decreases sorted@.len() - i,
        {
            let item = sorted[i].clone();
            let tags = self.get_item_tags(&item.id);
            let people = self.get_item_people(&item.id);
            let jira_refs = self.get_item_jira_refs(&item.id);
            let m = EntryItemWithMetadata { item, tags, people, jira_refs };
            proof {
                assert(self.describes_item(m));
            }
            let ghost prev = out@;
            out.push(m);
            proof {
                assert forall|k: int| 0 <= k < i + 1 implies #[trigger] items_shown(out@)[k] == sorted@.take(i + 1)[k] by {
                    if k == i {
                        assert(out@[k] == m);
                    } else {
                        assert(items_shown(prev)[k] == sorted@.take(i as int)[k]);
                        assert(out@[k] == prev[k]);
                    }
                }
                assert(items_shown(out@) =~= sorted@.take(i + 1));
                assert forall|k: int| 0 <= k < out@.len() implies self.describes_item(#[trigger] out@[k]) by {
                    if k < out@.len() - 1 {
                        assert(out@[k] == prev[k]);
                    }
                }
            }
            i = i + 1;
        }
        proof {
            assert(sorted@.take(i as int) =~= sorted@);
        }
        out
    }

    /// `xs` shows every entry, latest event first, each with all its items,
    /// earliest created first, and their metadata.
    pub open spec fn lists_entries(self, xs: Seq<EntryWithItems>) -> bool {
        &&& entries_shown(xs).to_multiset() == self.entries@.to_multiset()
        &&& is_ranked(entries_shown(xs))
        &&& forall|k: int| 0 <= k < xs.len() ==> self.describes_entry(#[trigger] xs[k])
    }

    /// Every entry, latest event first, each with its items, earliest
    /// created first, and their metadata.
    pub fn get_all_entries_with_items(&self) -> (r: Vec<EntryWithItems>)
        requires
            self.wf(),
        ensures
            self.lists_entries(r@),
    {
        let mut all: Vec<Entry> = Vec::new();
        let mut i: usize = 0;
        while i < self.entries.len()
            invariant
                i <= self.entries@.len(),
                all@ == self.entries@.take(i as int),
            decreases self.entries@.len() - i,
        {
            all.push(self.entries[i].clone());
            proof {
                assert(all@ =~= self.entries@.take(i + 1));
            }
            i = i + 1;
        }
        proof {
            assert(self.entries@.take(i as int) =~= self.entries@);
        }
        let sorted = sort_ranked(all);
        let mut out: Vec<EntryWithItems> = Vec::new();
        let mut j: usize = 0;
        while j < sorted.len()
            invariant
                self.wf(),
                j <= sorted@.len(),
                out@.len() == j,
                entries_shown(out@) == sorted@.take(j as int),
                forall|k: int| 0 <= k < out@.len() ==> self.describes_entry(#[trigger] out@[k]),
            decreases sorted@.len() - j,
        {
            let entry = sorted[j].clone();
            let items = self.get_entry_items_with_metadata(&entry.id);
            let x = EntryWithItems { entry, items };
            proof {
                assert(self.describes_entry(x));
            }
            let ghost prev = out@;
            out.push(x);
            proof {
                assert forall|k: int| 0 <= k < j + 1 implies #[trigger] entries_shown(out@)[k] == sorted@.take(j + 1)[k] by {
                    if k == j {
                        assert(out@[k] == x);
                    } else {
                        assert(entries_shown(prev)[k] == sorted@.take(j as int)[k]);
                        assert(out@[k] == prev[k]);
                    }
                }
                assert(entries_shown(out@) =~= sorted@.take(j + 1));
                assert forall|k: int| 0 <= k < out@.len() implies self.describes_entry(#[trigger] out@[k]) by {
                    if k < out@.len() - 1 {
                        assert(out@[k] == prev[k]);
                    }
                }
            }
            j = j + 1;
        }
        proof {
            assert(sorted@.take(j as int) =~= sorted@);
        }
        out
    }

    /// The entry that owns the item `entry_item_id`, with all of that entry's
    /// items. Fails with `NotFound` when the item does not exist.
    pub fn get_entry_with_items(&self, entry_item_id: &str) -> (r: Result<EntryWithItems, LogbookError>)
        requires
            self.wf(),
        ensures
            r is Err <==> !self.has_item(entry_item_id@),
            r matches Err(e) ==> e == LogbookError::NotFound,
            r matches Ok(x) ==> x.entry == self.entry_with_id(self.item_with_id(entry_item_id@).entry_id@)
                && self.describes_entry(x),
    {
        let id = entry_item_id.to_owned();
        let found = self.find_item(&id);
        if found.is_none() {
            return Err(LogbookError::NotFound);
        }
        let k = found.unwrap();
        proof {
            self.lemma_item_at(k as int);
            assert(self.has_entry(self.items@[k as int].entry_id@));
        }
        let e = self.find_entry(&self.items[k].entry_id).unwrap();
        proof {
            self.lemma_entry_at(e as int);
        }
        let entry = self.entries[e].clone();
        let items = self.get_entry_items_with_metadata(&entry.id);
        Ok(EntryWithItems { entry, items })
    }

    pub proof fn lemma_same_entries(a: Database, b: Database)
        requires
            a.entries@ == b.entries@,
        ensures
            forall|x: Seq<char>| a.has_entry(x) <==> #[trigger] b.has_entry(x),
    {
        assert forall|x: Seq<char>| a.has_entry(x) <==> #[trigger] b.has_entry(x) by {
            if a.has_entry(x) {
                let w = choose|w: int| 0 <= w < a.entries@.len() && #[trigger] a.entries@[w].id@ == x;
                assert(b.entries@[w].id@ == x);
            }
            if b.has_entry(x) {
                let w = choose|w: int| 0 <= w < b.entries@.len() && #[trigger] b.entries@[w].id@ == x;
                assert(a.entries@[w].id@ == x);
            }
        }
    }

    pub proof fn lemma_same_items(a: Database, b: Database)
        requires
            a.items@ == b.items@,
        ensures
            forall|x: Seq<char>| a.has_item(x) <==> #[trigger] b.has_item(x),
    {
        assert forall|x: Seq<char>| a.has_item(x) <==> #[trigger] b.has_item(x) by {
            if a.has_item(x) {
                let w = choose|w: int| 0 <= w < a.items@.len() && #[trigger] a.items@[w].id@ == x;
                assert(b.items@[w].id@ == x);
            }
            if b.has_item(x) {
                let w = choose|w: int| 0 <= w < b.items@.len() && #[trigger] b.items@[w].id@ == x;
                assert(a.items@[w].id@ == x);
            }
        }
    }

    pub proof fn lemma_same_tags(a: Database, b: Database)
        requires
            a.tags@ == b.tags@,
        ensures
            forall|x: Seq<char>| a.has_tag(x) <==> #[trigger] b.has_tag(x),
    {
        assert forall|x: Seq<char>| a.has_tag(x) <==> #[trigger] b.has_tag(x) by {
            if a.has_tag(x) {
                let w = choose|w: int| 0 <= w < a.tags@.len() && #[trigger] a.tags@[w].id@ == x;
                assert(b.tags@[w].id@ == x);
            }
            if b.has_tag(x) {
                let w = choose|w: int| 0 <= w < b.tags@.len() && #[trigger] b.tags@[w].id@ == x;
                assert(a.tags@[w].id@ == x);
            }
        }
    }

    pub proof fn lemma_same_people(a: Database, b: Database)
        requires
            a.people@ == b.people@,
        ensures
            forall|x: Seq<char>| a.has_person(x) <==> #[trigger] b.has_person(x),
    {
        assert forall|x: Seq<char>| a.has_person(x) <==> #[trigger] b.has_person(x) by {
            if a.has_person(x) {
                let w = choose|w: int| 0 <= w < a.people@.len() && #[trigger] a.people@[w].id@ == x;
                assert(b.people@[w].id@ == x);
            }
            if b.has_person(x) {
                let w = choose|w: int| 0 <= w < b.people@.len() && #[trigger] b.people@[w].id@ == x;
                assert(a.people@[w].id@ == x);
            }
        }
    }

    pub proof fn lemma_same_meetings(a: Database, b: Database)
        requires
            a.meetings@ == b.meetings@,
        ensures
            forall|x: Seq<char>| a.has_meeting(x) <==> #[trigger] b.has_meeting(x),
    {
        assert forall|x: Seq<char>| a.has_meeting(x) <==> #[trigger] b.has_meeting(x) by {
            if a.has_meeting(x) {
                let w = choose|w: int| 0 <= w < a.meetings@.len() && #[trigger] a.meetings@[w].id@ == x;
                assert(b.meetings@[w].id@ == x);
            }
            if b.has_meeting(x) {
                let w = choose|w: int| 0 <= w < b.meetings@.len() && #[trigger] b.meetings@[w].id@ == x;
                assert(a.meetings@[w].id@ == x);
            }
        }
    }

    /// Rows that keep their keys and references in place keep every fact of
    /// presence and the invariant.
    proof fn lemma_same_keys(a: Database, b: Database)
        requires
            a.wf(),
            b.entries@ == a.entries@,
            b.tags@ == a.tags@,
            b.people@ == a.people@,
            b.jira_refs@ == a.jira_refs@,
            b.item_tags@ == a.item_tags@,
            b.item_people@ == a.item_people@,
            b.projects@ == a.projects@,
            b.meetings@ == a.meetings@,
            b.attendees@ == a.attendees@,
            b.items@.len() == a.items@.len(),
            forall|i: int| 0 <= i < a.items@.len() ==> (#[trigger] b.items@[i]).id == a.items@[i].id
                && b.items@[i].entry_id == a.items@[i].entry_id,
            b.actions@.len() == a.actions@.len(),
            forall|i: int| 0 <= i < a.actions@.len() ==> (#[trigger] b.actions@[i]).id == a.actions@[i].id
                && b.actions@[i].meeting_id == a.actions@[i].meeting_id
                && (b.actions@[i].entry_item_id is None || b.actions@[i].entry_item_id == a.actions@[i].entry_item_id),
        ensures
            b.wf(),
            forall|x: Seq<char>| a.has_item(x) <==> #[trigger] b.has_item(x),
    {
        Database::lemma_same_entries(a, b);
        Database::lemma_same_tags(a, b);
        Database::lemma_same_people(a, b);
        Database::lemma_same_meetings(a, b);
        assert forall|x: Seq<char>| a.has_item(x) <==> #[trigger] b.has_item(x) by {
            if a.has_item(x) {
                let i = choose|i: int| 0 <= i < a.items@.len() && #[trigger] a.items@[i].id@ == x;
                assert(b.items@[i].id@ == x);
            }
            if b.has_item(x) {
                let i = choose|i: int| 0 <= i < b.items@.len() && #[trigger] b.items@[i].id@ == x;
                assert(a.items@[i].id@ == x);
            }
        }
        assert(pairwise(b.items@, items_ids_differ())) by {
            assert forall|i: int, j: int| 0 <= i < j < b.items@.len() implies items_ids_differ()(b.items@[i], b.items@[j]) by {
                assert(items_ids_differ()(a.items@[i], a.items@[j]));
            }
        }
        assert(pairwise(b.actions@, actions_ids_differ())) by {
            assert forall|i: int, j: int| 0 <= i < j < b.actions@.len() implies actions_ids_differ()(b.actions@[i], b.actions@[j]) by {
                assert(actions_ids_differ()(a.actions@[i], a.actions@[j]));
            }
        }
        assert forall|i: int| 0 <= i < b.items@.len() implies b.has_entry(#[trigger] b.items@[i].entry_id@) by {
            assert(a.has_entry(a.items@[i].entry_id@));
        }
        assert forall|i: int| 0 <= i < b.actions@.len() implies b.has_meeting(#[trigger] b.actions@[i].meeting_id@) by {
            assert(a.has_meeting(a.actions@[i].meeting_id@));
        }
        assert forall|i: int| 0 <= i < b.actions@.len() implies (#[trigger] b.actions@[i].entry_item_id matches Some(x)
            ==> b.has_item(x@)) by {
            assert(a.actions@[i].entry_item_id matches Some(x) ==> a.has_item(x@));
        }
    }

    /// Sets the content of the item `entry_item_id` and stamps it updated at
    /// `at`. Nothing changes when there is no such item.
    pub fn set_entry_item_content(&mut self, entry_item_id: &str, content: &str, at: Timestamp)
        requires
            old(self).wf(),
        ensures
            final(self).wf(),
            forall|x: Seq<char>| #[trigger] final(self).has_item(x) <==> old(self).has_item(x),
            final(self).items@.len() == old(self).items@.len(),
            forall|k: int| 0 <= k < old(self).items@.len() ==> if old(self).items@[k].id@ == entry_item_id@ {
                is_content_update(old(self).items@[k], #[trigger] final(self).items@[k], content@, at)
            } else {
                final(self).items@[k] == old(self).items@[k]
            },
            final(self).entries@ == old(self).entries@,
            final(self).tags@ == old(self).tags@,
            final(self).people@ == old(self).people@,
            final(self).jira_refs@ == old(self).jira_refs@,
            final(self).item_tags@ == old(self).item_tags@,
            final(self).item_people@ == old(self).item_people@,
            final(self).projects@ == old(self).projects@,
            final(self).meetings@ == old(self).meetings@,
            final(self).attendees@ == old(self).attendees@,
            final(self).actions@ == old(self).actions@,
    {
        let id = entry_item_id.to_owned();
        let ghost before = *self;
        if let Some(k) = self.find_item(&id) {
            let old_row = self.items[k].clone();
            let row = EntryItem {
                id: old_row.id,
                entry_id: old_row.entry_id,
                item_type: old_row.item_type,
                content: content.to_owned(),
                project: old_row.project,
                created_at: old_row.created_at,
                updated_at: at,
            };
            self.items.set(k, row);
            proof {
                Database::lemma_same_keys(before, *self);
                assert forall|m: int| 0 <= m < before.items@.len() && m != k implies before.items@[m].id@ != entry_item_id@ by {
                    if m < k {
                        assert(items_ids_differ()(before.items@[m], before.items@[k as int]));
                    } else {
                        assert(items_ids_differ()(before.items@[k as int], before.items@[m]));
                    }
                }
            }
        }
    }

    /// Sets the content of an item and stamps it updated now.
    pub fn update_entry_item_content(&mut self, entry_item_id: &str, content: &str)
        requires
            old(self).wf(),
        ensures
            final(self).wf(),
            forall|x: Seq<char>| #[trigger] final(self).has_item(x) <==> old(self).has_item(x),
            final(self).items@.len() == old(self).items@.len(),
            forall|k: int| 0 <= k < old(self).items@.len() ==> if old(self).items@[k].id@ == entry_item_id@ {
                is_content_update(old(self).items@[k], #[trigger] final(self).items@[k], content@, final(self).items@[k].updated_at)
            } else {
                final(self).items@[k] == old(self).items@[k]
            },
            final(self).entries@ == old(self).entries@,
            final(self).tags@ == old(self).tags@,
            final(self).people@ == old(self).people@,
            final(self).jira_refs@ == old(self).jira_refs@,
            final(self).item_tags@ == old(self).item_tags@,
            final(self).item_people@ == old(self).item_people@,
            final(self).projects@ == old(self).projects@,
            final(self).meetings@ == old(self).meetings@,
            final(self).attendees@ == old(self).attendees@,
            final(self).actions@ == old(self).actions@,
    {
        let at = now();
        self.set_entry_item_content(entry_item_id, content, at);
    }

    /// Sets the project of the item `entry_item_id` and stamps it updated at
    /// `at`. Nothing changes when there is no such item.
    pub fn set_entry_item_project(&mut self, entry_item_id: &str, project: Option<&str>, at: Timestamp)
        requires
            old(self).wf(),
        ensures
            final(self).wf(),
            forall|x: Seq<char>| #[trigger] final(self).has_item(x) <==> old(self).has_item(x),
            final(self).items@.len() == old(self).items@.len(),
            forall|k: int| 0 <= k < old(self).items@.len() ==> if old(self).items@[k].id@ == entry_item_id@ {
                is_project_update(old(self).items@[k], #[trigger] final(self).items@[k], str_view(project), at)
            } else {
                final(self).items@[k] == old(self).items@[k]
            },
            final(self).entries@ == old(self).entries@,
            final(self).tags@ == old(self).tags@,
            final(self).people@ == old(self).people@,
            final(self).jira_refs@ == old(self).jira_refs@,
            final(self).item_tags@ == old(self).item_tags@,
            final(self).item_people@ == old(self).item_people@,
            final(self).projects@ == old(self).projects@,
            final(self).meetings@ == old(self).meetings@,
            final(self).attendees@ == old(self).attendees@,
            final(self).actions@ == old(self).actions@,
    {
        let id = entry_item_id.to_owned();
        let ghost before = *self;
        if let Some(k) = self.find_item(&id) {
            let old_row = self.items[k].clone();
            let row = EntryItem {
                id: old_row.id,
                entry_id: old_row.entry_id,
                item_type: old_row.item_type,
                content: old_row.content,
                project: owned_text(project),
                created_at: old_row.created_at,
                updated_at: at,
            };
            self.items.set(k, row);
            proof {
                Database::lemma_same_keys(before, *self);
                assert forall|m: int| 0 <= m < before.items@.len() && m != k implies before.items@[m].id@ != entry_item_id@ by {
                    if m < k {
                        assert(items_ids_differ()(before.items@[m], before.items@[k as int]));
                    } else {
                        assert(items_ids_differ()(before.items@[k as int], before.items@[m]));
                    }
                }
            }
        }
    }

    /// Sets the project of an item and stamps it updated now.
    pub fn update_entry_item_project(&mut self, entry_item_id: &str, project: Option<&str>)
        requires
            old(self).wf(),
        ensures
            final(self).wf(),
            forall|x: Seq<char>| #[trigger] final(self).has_item(x) <==> old(self).has_item(x),
            final(self).items@.len() == old(self).items@.len(),
            forall|k: int| 0 <= k < old(self).items@.len() ==> if old(self).items@[k].id@ == entry_item_id@ {
                is_project_update(old(self).items@[k], #[trigger] final(self).items@[k], str_view(project), final(self).items@[k].updated_at)
            } else {
                final(self).items@[k] == old(self).items@[k]
            },
            final(self).entries@ == old(self).entries@,
            final(self).tags@ == old(self).tags@,
            final(self).people@ == old(self).people@,
            final(self).jira_refs@ == old(self).jira_refs@,
            final(self).item_tags@ == old(self).item_tags@,
            final(self).item_people@ == old(self).item_people@,
            final(self).projects@ == old(self).projects@,
            final(self).meetings@ == old(self).meetings@,
            final(self).attendees@ == old(self).attendees@,
            final(self).actions@ == old(self).actions@,
    {
        let at = now();
        self.set_entry_item_project(entry_item_id, project, at);
    }

    /// Unlinks every tag from the item `entry_item_id`. Tags themselves stay.
    pub fn remove_item_tags(&mut self, entry_item_id: &str)
        requires
            old(self).wf(),
        ensures
            final(self).wf(),
            final(self).item_tags@ == old(self).item_tags@.filter(tag_link_not_of_item(entry_item_id@)),
            final(self).entries@ == old(self).entries@,
            final(self).items@ == old(self).items@,
            final(self).tags@ == old(self).tags@,
            final(self).people@ == old(self).people@,
            final(self).jira_refs@ == old(self).jira_refs@,
            final(self).item_people@ == old(self).item_people@,
            final(self).projects@ == old(self).projects@,
            final(self).meetings@ == old(self).meetings@,
            final(self).attendees@ == old(self).attendees@,
            final(self).actions@ == old(self).actions@,
    {
        let id = entry_item_id.to_owned();
        let ghost before = *self;
        let ghost p = tag_link_not_of_item(id@);
        let mut rows: Vec<ItemTag> = Vec::new();
        core::mem::swap(&mut rows, &mut self.item_tags);
        let keep = |l: &ItemTag| -> (b: bool)
            ensures
                b == (l.entry_item_id@ != id@),
            { !(l.entry_item_id == id) };
        self.item_tags = keep_where(rows, keep, Ghost(p));
        proof {
            lemma_filter_pairwise(before.item_tags@, p, item_tag_pairs_differ());
            lemma_filter_members(before.item_tags@, p);
            Database::lemma_same_items(before, *self);
            Database::lemma_same_tags(before, *self);
            Database::lemma_same_people(before, *self);
            assert forall|i: int| 0 <= i < self.item_tags@.len() implies self.has_item(#[trigger] self.item_tags@[i].entry_item_id@)
                && self.has_tag(self.item_tags@[i].tag_id@) by {
                let k = choose|k: int| 0 <= k < before.item_tags@.len() && before.item_tags@[k] == self.item_tags@[i];
                assert(before.has_item(before.item_tags@[k].entry_item_id@));
                assert(before.has_tag(before.item_tags@[k].tag_id@));
            }
            assert(self.keys_unique());
            assert(self.references_hold());
        }
    }

    /// Unlinks every person from the item `entry_item_id`. People themselves stay.
    pub fn remove_item_people(&mut self, entry_item_id: &str)
        requires
            old(self).wf(),
        ensures
            final(self).wf(),
            final(self).item_people@ == old(self).item_people@.filter(person_link_not_of_item(entry_item_id@)),
            final(self).entries@ == old(self).entries@,
            final(self).items@ == old(self).items@,
            final(self).tags@ == old(self).tags@,
            final(self).people@ == old(self).people@,
            final(self).jira_refs@ == old(self).jira_refs@,
            final(self).item_tags@ == old(self).item_tags@,
            final(self).projects@ == old(self).projects@,
            final(self).meetings@ == old(self).meetings@,
            final(self).attendees@ == old(self).attendees@,
            final(self).actions@ == old(self).actions@,
    {
        let id = entry_item_id.to_owned();
        let ghost before = *self;
        let ghost p = person_link_not_of_item(id@);
        let mut rows: Vec<ItemPerson> = Vec::new();
        core::mem::swap(&mut rows, &mut self.item_people);
        let keep = |l: &ItemPerson| -> (b: bool)
            ensures
                b == (l.entry_item_id@ != id@),
            { !(l.entry_item_id == id) };
        self.item_people = keep_where(rows, keep, Ghost(p));
        proof {
            lemma_filter_pairwise(before.item_people@, p, item_person_pairs_differ());
            lemma_filter_members(before.item_people@, p);
            Database::lemma_same_items(before, *self);
            Database::lemma_same_tags(before, *self);
            Database::lemma_same_people(before, *self);
            assert forall|i: int| 0 <= i < self.item_people@.len() implies self.has_item(#[trigger] self.item_people@[i].entry_item_id@)
                && self.has_person(self.item_people@[i].person_id@) by {
                let k = choose|k: int| 0 <= k < before.item_people@.len() && before.item_people@[k] == self.item_people@[i];
                assert(before.has_item(before.item_people@[k].entry_item_id@));
                assert(before.has_person(before.item_people@[k].person_id@));
            }
            assert(self.keys_unique());
            assert(self.references_hold());
        }
    }

    /// Removes every issue reference of the item `entry_item_id`.
    pub fn remove_item_jira_refs(&mut self, entry_item_id: &str)
        requires
            old(self).wf(),
        ensures
            final(self).wf(),
            final(self).jira_refs@ == old(self).jira_refs@.filter(jira_ref_not_of_item(entry_item_id@)),
            final(self).entries@ == old(self).entries@,
            final(self).items@ == old(self).items@,
            final(self).tags@ == old(self).tags@,
            final(self).people@ == old(self).people@,
            final(self).item_tags@ == old(self).item_tags@,
            final(self).item_people@ == old(self).item_people@,
            final(self).projects@ == old(self).projects@,
            final(self).meetings@ == old(self).meetings@,
            final(self).attendees@ == old(self).attendees@,
            final(self).actions@ == old(self).actions@,
    {
        let id = entry_item_id.to_owned();
        let ghost before = *self;
        let ghost p = jira_ref_not_of_item(id@);
        let mut rows: Vec<JiraRef> = Vec::new();
        core::mem::swap(&mut rows, &mut self.jira_refs);
        let keep = |j: &JiraRef| -> (b: bool)
            ensures
                b == (j.entry_item_id@ != id@),
            { !(j.entry_item_id == id) };
        self.jira_refs = keep_where(rows, keep, Ghost(p));
        proof {
            lemma_filter_pairwise(before.jira_refs@, p, jira_refs_ids_differ());
            lemma_filter_members(before.jira_refs@, p);
            Database::lemma_same_items(before, *self);
            Database::lemma_same_tags(before, *self);
            Database::lemma_same_people(before, *self);
            assert forall|i: int| 0 <= i < self.jira_refs@.len() implies self.has_item(#[trigger] self.jira_refs@[i].entry_item_id@) by {
                let k = choose|k: int| 0 <= k < before.jira_refs@.len() && before.jira_refs@[k] == self.jira_refs@[i];
                assert(before.has_item(before.jira_refs@[k].entry_item_id@));
            }
            assert(self.keys_unique());
            assert(self.references_hold());
        }
    }

    proof fn lemma_items_filtered(a: Database, b: Database, id: Seq<char>)
        requires
            b.items@ == a.items@.filter(item_other_than(id)),
        ensures
            forall|x: Seq<char>| #[trigger] b.has_item(x) <==> a.has_item(x) && x != id,
    {
        lemma_filter_members(a.items@, item_other_than(id));
        assert forall|x: Seq<char>| #[trigger] b.has_item(x) <==> a.has_item(x) && x != id by {
            if b.has_item(x) {
                let i = choose|i: int| 0 <= i < b.items@.len() && #[trigger] b.items@[i].id@ == x;
                let k = choose|k: int| 0 <= k < a.items@.len() && a.items@[k] == b.items@[i];
                assert(a.items@[k].id@ == x);
            }
            if a.has_item(x) && x != id {
                let k = choose|k: int| 0 <= k < a.items@.len() && #[trigger] a.items@[k].id@ == x;
                assert(b.items@.contains(a.items@[k]));
                let i = choose|i: int| 0 <= i < b.items@.len() && b.items@[i] == a.items@[k];
                assert(b.items@[i].id@ == x);
            }
        }
    }

    proof fn lemma_entries_filtered(a: Database, b: Database, id: Seq<char>)
        requires
            b.entries@ == a.entries@.filter(entry_other_than(id)),
        ensures
            forall|x: Seq<char>| #[trigger] b.has_entry(x) <==> a.has_entry(x) && x != id,
    {
        lemma_filter_members(a.entries@, entry_other_than(id));
        assert forall|x: Seq<char>| #[trigger] b.has_entry(x) <==> a.has_entry(x) && x != id by {
            if b.has_entry(x) {
                let i = choose|i: int| 0 <= i < b.entries@.len() && #[trigger] b.entries@[i].id@ == x;
                let k = choose|k: int| 0 <= k < a.entries@.len() && a.entries@[k] == b.entries@[i];
                assert(a.entries@[k].id@ == x);
            }
            if a.has_entry(x) && x != id {
                let k = choose|k: int| 0 <= k < a.entries@.len() && #[trigger] a.entries@[k].id@ == x;
                assert(b.entries@.contains(a.entries@[k]));
                let i = choose|i: int| 0 <= i < b.entries@.len() && b.entries@[i] == a.entries@[k];
                assert(b.entries@[i].id@ == x);
            }
        }
    }

    /// Clears every action's reference to the item `entry_item_id`.
    fn unlink_actions(&mut self, entry_item_id: &String)
        requires
            old(self).wf(),
        ensures
            final(self).wf(),
            final(self).actions@ == Seq::new(old(self).actions@.len(), |k: int| detached(old(self).actions@[k], entry_item_id@)),
            final(self).entries@ == old(self).entries@,
            final(self).items@ == old(self).items@,
            final(self).tags@ == old(self).tags@,
            final(self).people@ == old(self).people@,
            final(self).jira_refs@ == old(self).jira_refs@,
            final(self).item_tags@ == old(self).item_tags@,
            final(self).item_people@ == old(self).item_people@,
            final(self).projects@ == old(self).projects@,
            final(self).meetings@ == old(self).meetings@,
            final(self).attendees@ == old(self).attendees@,
    {
        let ghost before = *self;
        let mut rows: Vec<MeetingAction> = Vec::new();
        core::mem::swap(&mut rows, &mut self.actions);
        let mut out: Vec<MeetingAction> = Vec::new();
        let mut k: usize = 0;
        while k < rows.len()
            invariant
                k <= rows@.len(),
                rows@ == before.actions@,
                out@.len() == k,
                forall|m: int| 0 <= m < k ==> #[trigger] out@[m] == detached(rows@[m], entry_item_id@),
            decreases rows@.len() - k,
        {
            let a = &rows[k];
            let points = match &a.entry_item_id {
                Some(x) => *x == *entry_item_id,
                None => false,
            };
            let row = if points {
                MeetingAction {
                    id: a.id.clone(),
                    meeting_id: a.meeting_id.clone(),
                    entry_item_id: None,
                    title: a.title.clone(),
                    description: copy_text(&a.description),
                    assignee: copy_text(&a.assignee),
                    due_date: a.due_date,
                    status: a.status.clone(),
                    priority: a.priority.clone(),
                    created_at: a.created_at,
                    updated_at: a.updated_at,
                }
            } else {
                a.clone()
            };
            let ghost prev = out@;
            out.push(row);
            proof {
                assert forall|m: int| 0 <= m < k + 1 implies #[trigger] out@[m] == detached(rows@[m], entry_item_id@) by {
                    if m < k {
                        assert(out@[m] == prev[m]);
                    }
                }
            }
            k = k + 1;
        }
        self.actions = out;
        proof {
            assert(self.actions@ =~= Seq::new(before.actions@.len(), |k: int| detached(before.actions@[k], entry_item_id@)));
            Database::lemma_same_keys(before, *self);
        }
    }

    /// Deletes the item `entry_item_id` with its issue references and join
    /// rows, and clears the reference of every action that named it. Deleting
    /// an item that does not exist changes nothing.
    pub fn delete_entry_item(&mut self, entry_item_id: &str)
        requires
            old(self).wf(),
        ensures
            final(self).wf(),
            removes_item(*old(self), *final(self), entry_item_id@),
            final(self).items@ == old(self).items@.filter(item_other_than(entry_item_id@)),
            final(self).jira_refs@ == old(self).jira_refs@.filter(jira_ref_not_of_item(entry_item_id@)),
            final(self).item_tags@ == old(self).item_tags@.filter(tag_link_not_of_item(entry_item_id@)),
            final(self).item_people@ == old(self).item_people@.filter(person_link_not_of_item(entry_item_id@)),
            final(self).actions@ == Seq::new(old(self).actions@.len(), |k: int| detached(old(self).actions@[k], entry_item_id@)),
            final(self).entries@ == old(self).entries@,
            final(self).tags@ == old(self).tags@,
            final(self).people@ == old(self).people@,
            final(self).projects@ == old(self).projects@,
            final(self).meetings@ == old(self).meetings@,
            final(self).attendees@ == old(self).attendees@,
    {
        let id = entry_item_id.to_owned();
        self.remove_item_tags(entry_item_id);
        self.remove_item_people(entry_item_id);
        self.remove_item_jira_refs(entry_item_id);
        self.unlink_actions(&id);
        let ghost mid = *self;
        let ghost p = item_other_than(id@);
        let mut rows: Vec<EntryItem> = Vec::new();
        core::mem::swap(&mut rows, &mut self.items);
        let keep = |it: &EntryItem| -> (b: bool)
            ensures
                b == (it.id@ != id@),
            { !(it.id == id) };
        self.items = keep_where(rows, keep, Ghost(p));
        proof {
            lemma_filter_pairwise(mid.items@, p, items_ids_differ());
            lemma_filter_members(mid.items@, p);
            Database::lemma_items_filtered(mid, *self, id@);
            Database::lemma_same_entries(mid, *self);
            Database::lemma_same_tags(mid, *self);
            Database::lemma_same_people(mid, *self);
            Database::lemma_same_meetings(mid, *self);
            lemma_filter_members(mid.jira_refs@, jira_ref_not_of_item(id@));
            assert forall|i: int| 0 <= i < self.items@.len() implies self.has_entry(#[trigger] self.items@[i].entry_id@) by {
                let k = choose|k: int| 0 <= k < mid.items@.len() && mid.items@[k] == self.items@[i];
                assert(mid.has_entry(mid.items@[k].entry_id@));
            }
            assert forall|i: int| 0 <= i < self.jira_refs@.len() implies self.has_item(#[trigger] self.jira_refs@[i].entry_item_id@) by {
                assert(mid.has_item(mid.jira_refs@[i].entry_item_id@));
            }
            assert forall|i: int| 0 <= i < self.item_tags@.len() implies self.has_item(#[trigger] self.item_tags@[i].entry_item_id@) by {
                assert(mid.has_item(mid.item_tags@[i].entry_item_id@));
            }
            assert forall|i: int| 0 <= i < self.item_people@.len() implies self.has_item(#[trigger] self.item_people@[i].entry_item_id@) by {
                assert(mid.has_item(mid.item_people@[i].entry_item_id@));
            }
            assert forall|i: int| 0 <= i < self.actions@.len() implies (#[trigger] self.actions@[i].entry_item_id matches Some(x)
                ==> self.has_item(x@)) by {
                assert(mid.actions@[i].entry_item_id matches Some(x) ==> mid.has_item(x@));
            }
            assert(self.keys_unique());
            assert(self.references_hold());
        }
    }

    /// The item `x` exists and belongs to the entry `entry_id`.
    pub open spec fn item_in_entry(self, x: Seq<char>, entry_id: Seq<char>) -> bool {
        self.has_item(x) && self.item_with_id(x).entry_id@ == entry_id
    }

    proof fn lemma_among_is_in_entry(self, ids: Seq<EntryItem>, entry_id: Seq<char>)
        requires
            self.wf(),
            ids == self.items_of(entry_id),
        ensures
            forall|x: Seq<char>| #[trigger] among(ids, ids.len() as int, x) <==> self.item_in_entry(x, entry_id),
    {
        let p = item_of_entry(entry_id);
        lemma_filter_members(self.items@, p);
        assert forall|x: Seq<char>| #[trigger] among(ids, ids.len() as int, x) <==> self.item_in_entry(x, entry_id) by {
            if among(ids, ids.len() as int, x) {
                let m = choose|m: int| 0 <= m < ids.len() && #[trigger] ids[m].id@ == x;
                let c = choose|c: int| 0 <= c < self.items@.len() && self.items@[c] == ids[m];
                self.lemma_item_at(c);
                assert(self.items@[c].id@ == x);
            }
            if self.item_in_entry(x, entry_id) {
                let c = choose|c: int| 0 <= c < self.items@.len() && #[trigger] self.items@[c].id@ == x;
                self.lemma_item_at(c);
                assert(p(self.items@[c]));
                assert(ids.contains(self.items@[c]));
                let m = choose|m: int| 0 <= m < ids.len() && ids[m] == self.items@[c];
                assert(ids[m].id@ == x);
            }
        }
    }

    /// Deletes the entry `entry_id` with all of its items, their issue
    /// references and join rows, and clears the reference of every action
    /// that named one of those items. Deleting an entry that does not exist
    /// changes nothing.
    pub fn delete_entry(&mut self, entry_id: &str)
        requires
            old(self).wf(),
        ensures
            final(self).wf(),
            removes_entry(*old(self), *final(self), entry_id@),
            final(self).entries@ == old(self).entries@.filter(entry_other_than(entry_id@)),
            forall|it: EntryItem| #[trigger] final(self).items@.contains(it) <==> old(self).items@.contains(it)
                && it.entry_id@ != entry_id@,
            forall|j: JiraRef| #[trigger] final(self).jira_refs@.contains(j) <==> old(self).jira_refs@.contains(j)
                && !old(self).item_in_entry(j.entry_item_id@, entry_id@),
            forall|l: ItemTag| #[trigger] final(self).item_tags@.contains(l) <==> old(self).item_tags@.contains(l)
                && !old(self).item_in_entry(l.entry_item_id@, entry_id@),
            forall|l: ItemPerson| #[trigger] final(self).item_people@.contains(l) <==> old(self).item_people@.contains(l)
                && !old(self).item_in_entry(l.entry_item_id@, entry_id@),
            final(self).actions@.len() == old(self).actions@.len(),
            forall|k: int| 0 <= k < old(self).actions@.len() ==> #[trigger] final(self).actions@[k] == (
                if old(self).actions@[k].entry_item_id matches Some(x) && old(self).item_in_entry(x@, entry_id@) {
                    unlinked(old(self).actions@[k])
                } else {
                    old(self).actions@[k]
                }),
            final(self).tags@ == old(self).tags@,
            final(self).people@ == old(self).people@,
            final(self).projects@ == old(self).projects@,
            final(self).meetings@ == old(self).meetings@,
            final(self).attendees@ == old(self).attendees@,
    {
        let eid = entry_id.to_owned();
        let ghost start = *self;
        let doomed = self.items_of_entry(&eid);
        let mut n: usize = 0;
        proof {
            assert forall|it: EntryItem| #[trigger] self.items@.contains(it) <==> start.items@.contains(it)
                && !among(doomed@, 0, it.id@) by {}
        }
        while n < doomed.len()
            invariant
                self.wf(),
                start.wf(),
                n <= doomed@.len(),
                doomed@ == start.items_of(eid@),
                self.entries@ == start.entries@,
                self.tags@ == start.tags@,
                self.people@ == start.people@,
                self.projects@ == start.projects@,
                self.meetings@ == start.meetings@,
                self.attendees@ == start.attendees@,
                forall|it: EntryItem| #[trigger] self.items@.contains(it) <==> start.items@.contains(it)
                    && !among(doomed@, n as int, it.id@),
                forall|j: JiraRef| #[trigger] self.jira_refs@.contains(j) <==> start.jira_refs@.contains(j)
                    && !among(doomed@, n as int, j.entry_item_id@),
                forall|l: ItemTag| #[trigger] self.item_tags@.contains(l) <==> start.item_tags@.contains(l)
                    && !among(doomed@, n as int, l.entry_item_id@),
                forall|l: ItemPerson| #[trigger] self.item_people@.contains(l) <==> start.item_people@.contains(l)
                    && !among(doomed@, n as int, l.entry_item_id@),
                self.actions@.len() == start.actions@.len(),
                forall|k: int| 0 <= k < start.actions@.len() ==> #[trigger] self.actions@[k] == (
                    if start.actions@[k].entry_item_id matches Some(x) && among(doomed@, n as int, x@) {
                        unlinked(start.actions@[k])
                    } else {
                        start.actions@[k]
                    }),
            decreases doomed@.len() - n,
        {
            let ghost cur = *self;
            let ghost gone = doomed@[n as int].id@;
            self.delete_entry_item(doomed[n].id.as_str());
            proof {
                lemma_filter_contains_iff(cur.items@, item_other_than(gone));
                lemma_filter_contains_iff(cur.jira_refs@, jira_ref_not_of_item(gone));
                lemma_filter_contains_iff(cur.item_tags@, tag_link_not_of_item(gone));
                lemma_filter_contains_iff(cur.item_people@, person_link_not_of_item(gone));
                assert forall|x: Seq<char>| #[trigger] among(doomed@, n + 1, x) <==> among(doomed@, n as int, x) || x == gone by {
                    if among(doomed@, n + 1, x) && !among(doomed@, n as int, x) {
                        let m = choose|m: int| 0 <= m < n + 1 && #[trigger] doomed@[m].id@ == x;
                        assert(m == n);
                    }
                    if x == gone {
                        assert(doomed@[n as int].id@ == x);
                    }
                    if among(doomed@, n as int, x) {
                        let m = choose|m: int| 0 <= m < n && #[trigger] doomed@[m].id@ == x;
                        assert(doomed@[m].id@ == x);
                    }
                }
                assert forall|it: EntryItem| #[trigger] self.items@.contains(it) <==> start.items@.contains(it)
                    && !among(doomed@, n + 1, it.id@) by {
                    assert(cur.items@.contains(it) <==> start.items@.contains(it) && !among(doomed@, n as int, it.id@));
                }
                assert forall|j: JiraRef| #[trigger] self.jira_refs@.contains(j) <==> start.jira_refs@.contains(j)
                    && !among(doomed@, n + 1, j.entry_item_id@) by {
                    assert(cur.jira_refs@.contains(j) <==> start.jira_refs@.contains(j) && !among(doomed@, n as int, j.entry_item_id@));
                }
                assert forall|l: ItemTag| #[trigger] self.item_tags@.contains(l) <==> start.item_tags@.contains(l)
                    && !among(doomed@, n + 1, l.entry_item_id@) by {
                    assert(cur.item_tags@.contains(l) <==> start.item_tags@.contains(l) && !among(doomed@, n as int, l.entry_item_id@));
                }
                assert forall|l: ItemPerson| #[trigger] self.item_people@.contains(l) <==> start.item_people@.contains(l)
                    && !among(doomed@, n + 1, l.entry_item_id@) by {
                    assert(cur.item_people@.contains(l) <==> start.item_people@.contains(l) && !among(doomed@, n as int, l.entry_item_id@));
                }
                assert forall|k: int| 0 <= k < start.actions@.len() implies #[trigger] self.actions@[k] == (
                    if start.actions@[k].entry_item_id matches Some(x) && among(doomed@, n + 1, x@) {
                        unlinked(start.actions@[k])
                    } else {
                        start.actions@[k]
                    }) by {
                    assert(self.actions@[k] == detached(cur.actions@[k], gone));
                }
            }
            n = n + 1;
        }
        proof {
            start.lemma_among_is_in_entry(doomed@, eid@);
            assert forall|it: EntryItem| #[trigger] self.items@.contains(it) <==> start.items@.contains(it)
                && it.entry_id@ != eid@ by {
                if start.items@.contains(it) {
                    let c = choose|c: int| 0 <= c < start.items@.len() && start.items@[c] == it;
                    start.lemma_item_at(c);
                    assert(start.has_item(start.items@[c].id@));
                }
            }
        }
        let ghost mid = *self;
        let ghost p = entry_other_than(eid@);
        let mut rows: Vec<Entry> = Vec::new();
        core::mem::swap(&mut rows, &mut self.entries);
        let keep = |e: &Entry| -> (b: bool)
            ensures
                b == (e.id@ != eid@),
            { !(e.id == eid) };
        self.entries = keep_where(rows, keep, Ghost(p));
        proof {
            lemma_filter_pairwise(mid.entries@, p, entries_ids_differ());
            Database::lemma_entries_filtered(mid, *self, eid@);
            Database::lemma_same_items(mid, *self);
            Database::lemma_same_tags(mid, *self);
            Database::lemma_same_people(mid, *self);
            Database::lemma_same_meetings(mid, *self);
            assert forall|i: int| 0 <= i < self.items@.len() implies self.has_entry(#[trigger] self.items@[i].entry_id@) by {
                assert(mid.items@.contains(self.items@[i]));
                assert(mid.has_entry(mid.items@[i].entry_id@));
            }
            assert(self.keys_unique());
            assert(self.references_hold());
        }
    }

    /// Adds a project under `id`, with `color` or the default colour,
    /// created and updated at `at`. Fails with `Conflict` when the identifier
    /// or the name is taken.
    pub fn insert_project(
        &mut self,
        id: String,
        name: String,
        description: Option<String>,
        color: Option<String>,
        at: Timestamp,
    ) -> (r: Result<Project, LogbookError>)
        requires
            old(self).wf(),
        ensures
            final(self).wf(),
            r is Err <==> old(self).has_project(id@) || old(self).has_project_named(name@),
            r matches Err(e) ==> e == LogbookError::Conflict && final(self).projects@ == old(self).projects@,
            r matches Ok(p) ==> p.id == id && p.name == name && p.description == description
                && p.color@ == text_or(color, DEFAULT_PROJECT_COLOR@) && p.created_at == at && p.updated_at == at
                && final(self).projects@ == old(self).projects@.push(p),
            final(self).entries@ == old(self).entries@,
            final(self).items@ == old(self).items@,
            final(self).tags@ == old(self).tags@,
            final(self).people@ == old(self).people@,
            final(self).jira_refs@ == old(self).jira_refs@,
            final(self).item_tags@ == old(self).item_tags@,
            final(self).item_people@ == old(self).item_people@,
            final(self).meetings@ == old(self).meetings@,
            final(self).attendees@ == old(self).attendees@,
            final(self).actions@ == old(self).actions@,
    {
        if self.find_project(&id).is_some() || self.find_project_named(&name).is_some() {
            return Err(LogbookError::Conflict);
        }
        let p = Project {
            id,
            name,
            description,
            color: text_or_default(color, DEFAULT_PROJECT_COLOR),
            created_at: at,
            updated_at: at,
        };
        let copy = p.clone();
        let ghost before = *self;
        self.projects.push(p);
        proof {
            lemma_push_pairwise(before.projects@, copy, projects_ids_differ());
            lemma_push_pairwise(before.projects@, copy, projects_names_differ());
            Database::lemma_grown(before, *self);
        }
        Ok(copy)
    }

    /// Adds a project under a fresh identifier, created and updated now.
    pub fn create_project(&mut self, name: &str, description: Option<&str>, color: Option<&str>) -> (r: Result<
        Project,
        LogbookError,
    >)
        requires
            old(self).wf(),
        ensures
            final(self).wf(),
            !old(self).has_project_named(name@) && old(self).fresh_project_id_free() ==> r is Ok,
            old(self).has_project_named(name@) ==> r == Err::<Project, LogbookError>(LogbookError::Conflict),
            r matches Err(e) ==> e == LogbookError::Conflict && final(self).projects@ == old(self).projects@,
            r matches Ok(p) ==> p.name@ == name@ && text_view(p.description) == str_view(description)
                && p.color@ == str_or(color, DEFAULT_PROJECT_COLOR@) && p.created_at == p.updated_at
                && !old(self).has_project(p.id@) && final(self).projects@ == old(self).projects@.push(p),
            final(self).entries@ == old(self).entries@,
            final(self).items@ == old(self).items@,
            final(self).tags@ == old(self).tags@,
            final(self).people@ == old(self).people@,
            final(self).jira_refs@ == old(self).jira_refs@,
            final(self).item_tags@ == old(self).item_tags@,
            final(self).item_people@ == old(self).item_people@,
            final(self).meetings@ == old(self).meetings@,
            final(self).attendees@ == old(self).attendees@,
            final(self).actions@ == old(self).actions@,
    {
        let id = fresh_id();
        proof {
            if old(self).fresh_project_id_free() {
                assert(!old(self).has_project(id@));
            }
        }
        let at = now();
        self.insert_project(id, name.to_owned(), owned_text(description), owned_text(color), at)
    }

    /// Every project, by name.
    pub fn get_all_projects(&self) -> (r: Vec<Project>)
        ensures
            r@.to_multiset() == self.projects@.to_multiset(),
            is_ranked(r@),
    {
        let mut all: Vec<Project> = Vec::new();
        let mut i: usize = 0;
        while i < self.projects.len()
            invariant
                i <= self.projects@.len(),
                all@ == self.projects@.take(i as int),
            decreases self.projects@.len() - i,
        {
            all.push(self.projects[i].clone());
            proof {
                assert(all@ =~= self.projects@.take(i + 1));
            }
            i = i + 1;
        }
        proof {
            assert(self.projects@.take(i as int) =~= self.projects@);
        }
        sort_ranked(all)
    }

    /// The project named `name`, if there is one.
    pub fn get_project_by_name(&self, name: &str) -> (r: Option<Project>)
        ensures
            r is None <==> !self.has_project_named(name@),
            r matches Some(p) ==> self.projects@.contains(p) && p.name@ == name@,
    {
        match self.find_project_named(&name.to_owned()) {
            Some(k) => Some(self.projects[k].clone()),
            None => None,
        }
    }

    /// Another project than `id` is named `name`.
    pub open spec fn project_name_clash(self, id: Seq<char>, name: Seq<char>) -> bool {
        exists|i: int| 0 <= i < self.projects@.len() && #[trigger] self.projects@[i].name@ == name
            && self.projects@[i].id@ != id
    }

    /// Writes the given fields of the project `id`, leaves the others, and
    /// stamps it updated at `at`. Fails with `NotFound` when there is no such
    /// project, else with `Conflict` when the new name belongs to another one.
    pub fn set_project(
        &mut self,
        id: &str,
        name: Option<&str>,
        description: Option<&str>,
        color: Option<&str>,
        at: Timestamp,
    ) -> (r: Result<Project, LogbookError>)
        requires
            old(self).wf(),
        ensures
            final(self).wf(),
            !old(self).has_project(id@) ==> r == Err::<Project, LogbookError>(LogbookError::NotFound),
            old(self).has_project(id@) ==> (r is Err <==> (name matches Some(n) && old(self).project_name_clash(id@, n@))),
            r matches Err(e) ==> final(self).projects@ == old(self).projects@,
            r matches Ok(p) ==> final(self).projects@.len() == old(self).projects@.len() && forall|k: int|
                0 <= k < old(self).projects@.len() ==> if old(self).projects@[k].id@ == id@ {
                    #[trigger] final(self).projects@[k] == p && is_project_revision(old(self).projects@[k], p,
                        str_view(name), str_view(description), str_view(color), at)
                } else {
                    final(self).projects@[k] == old(self).projects@[k]
                },
            final(self).entries@ == old(self).entries@,
            final(self).items@ == old(self).items@,
            final(self).tags@ == old(self).tags@,
            final(self).people@ == old(self).people@,
            final(self).jira_refs@ == old(self).jira_refs@,
            final(self).item_tags@ == old(self).item_tags@,
            final(self).item_people@ == old(self).item_people@,
            final(self).meetings@ == old(self).meetings@,
            final(self).attendees@ == old(self).attendees@,
            final(self).actions@ == old(self).actions@,
    {
        let key = id.to_owned();
        let found = self.find_project(&key);
        if found.is_none() {
            return Err(LogbookError::NotFound);
        }
        let k = found.unwrap();
        if let Some(n) = name {
            if let Some(j) = self.find_project_named(&n.to_owned()) {
                if j != k {
                    return Err(LogbookError::Conflict);
                }
            }
        }
        let ghost before = *self;
        proof {
            assert forall|m: int| 0 <= m < before.projects@.len() && m != k implies before.projects@[m].id@ != id@ by {
                if m < k {
                    assert(projects_ids_differ()(before.projects@[m], before.projects@[k as int]));
                } else {
                    assert(projects_ids_differ()(before.projects@[k as int], before.projects@[m]));
                }
            }
            if let Some(n) = name {
                if before.project_name_clash(id@, n@) {
                    let c = choose|c: int| 0 <= c < before.projects@.len() && #[trigger] before.projects@[c].name@ == n@
                        && before.projects@[c].id@ != id@;
                    assert(before.has_project_named(n@));
                }
            }
        }
        let old_row = self.projects[k].clone();
        let row = Project {
            id: old_row.id,
            name: match name {
                Some(n) => n.to_owned(),
                None => old_row.name,
            },
            description: match description {
                Some(d) => Some(d.to_owned()),
                None => old_row.description,
            },
            color: match color {
                Some(c) => c.to_owned(),
                None => old_row.color,
            },
            created_at: old_row.created_at,
            updated_at: at,
        };
        let copy = row.clone();
        proof {
            assert forall|m: int| 0 <= m < before.projects@.len() && m != k implies #[trigger] before.projects@[m].name@
                != copy.name@ by {
                if m < k {
                    assert(projects_names_differ()(before.projects@[m], before.projects@[k as int]));
                } else {
                    assert(projects_names_differ()(before.projects@[k as int], before.projects@[m]));
                }
            }
            lemma_update_pairwise(before.projects@, k as int, copy, projects_ids_differ());
            lemma_update_pairwise(before.projects@, k as int, copy, projects_names_differ());
        }
        self.projects.set(k, row);
        proof {
            Database::lemma_same_items(before, *self);
            Database::lemma_same_entries(before, *self);
            Database::lemma_same_tags(before, *self);
            Database::lemma_same_people(before, *self);
            Database::lemma_same_meetings(before, *self);
            assert(self.keys_unique());
            assert(self.references_hold());
        }
        Ok(copy)
    }

    /// Writes the given fields of a project and stamps it updated now.
    pub fn update_project(&mut self, id: &str, name: Option<&str>, description: Option<&str>, color: Option<&str>) -> (r:
        Result<Project, LogbookError>)
        requires
            old(self).wf(),
        ensures
            final(self).wf(),
            !old(self).has_project(id@) ==> r == Err::<Project, LogbookError>(LogbookError::NotFound),
            old(self).has_project(id@) ==> (r is Err <==> (name matches Some(n) && old(self).project_name_clash(id@, n@))),
            r matches Err(e) ==> final(self).projects@ == old(self).projects@,
            r matches Ok(p) ==> final(self).projects@.len() == old(self).projects@.len() && forall|k: int|
                0 <= k < old(self).projects@.len() ==> if old(self).projects@[k].id@ == id@ {
                    #[trigger] final(self).projects@[k] == p && is_project_revision(old(self).projects@[k], p,
                        str_view(name), str_view(description), str_view(color), p.updated_at)
                } else {
                    final(self).projects@[k] == old(self).projects@[k]
                },
            final(self).entries@ == old(self).entries@,
            final(self).items@ == old(self).items@,
            final(self).tags@ == old(self).tags@,
            final(self).people@ == old(self).people@,
            final(self).jira_refs@ == old(self).jira_refs@,
            final(self).item_tags@ == old(self).item_tags@,
            final(self).item_people@ == old(self).item_people@,
            final(self).meetings@ == old(self).meetings@,
            final(self).attendees@ == old(self).attendees@,
            final(self).actions@ == old(self).actions@,
    {
        let at = now();
        self.set_project(id, name, description, color, at)
    }

    /// Deletes the project `id`. Items that name it keep their text.
    pub fn delete_project(&mut self, id: &str)
        requires
            old(self).wf(),
        ensures
            final(self).wf(),
            final(self).projects@ == old(self).projects@.filter(project_other_than(id@)),
            final(self).entries@ == old(self).entries@,
            final(self).items@ == old(self).items@,
            final(self).tags@ == old(self).tags@,
            final(self).people@ == old(self).people@,
            final(self).jira_refs@ == old(self).jira_refs@,
            final(self).item_tags@ == old(self).item_tags@,
            final(self).item_people@ == old(self).item_people@,
            final(self).meetings@ == old(self).meetings@,
            final(self).attendees@ == old(self).attendees@,
            final(self).actions@ == old(self).actions@,
    {
        let key = id.to_owned();
        let ghost before = *self;
        let ghost p = project_other_than(key@);
        let mut rows: Vec<Project> = Vec::new();
        core::mem::swap(&mut rows, &mut self.projects);
        let keep = |x: &Project| -> (b: bool)
            ensures
                b == (x.id@ != key@),
            { !(x.id == key) };
        self.projects = keep_where(rows, keep, Ghost(p));
        proof {
            lemma_filter_pairwise(before.projects@, p, projects_ids_differ());
            lemma_filter_pairwise(before.projects@, p, projects_names_differ());
            Database::lemma_same_items(before, *self);
            Database::lemma_same_entries(before, *self);
            Database::lemma_same_tags(before, *self);
            Database::lemma_same_people(before, *self);
            Database::lemma_same_meetings(before, *self);
            assert(self.keys_unique());
            assert(self.references_hold());
        }
    }

    /// Adds a tag under `id`, with `color` or the default colour,
    /// created and updated at `at`. Fails with `Conflict` when the identifier
    /// or the name is taken.
    pub fn insert_tag(
        &mut self,
        id: String,
        name: String,
        description: Option<String>,
        color: Option<String>,
        category: Option<String>,
        at: Timestamp,
    ) -> (r: Result<Tag, LogbookError>)
        requires
            old(self).wf(),
        ensures
            final(self).wf(),
            r is Err <==> old(self).has_tag(id@) || old(self).has_tag_named(name@),
            r matches Err(e) ==> e == LogbookError::Conflict && final(self).tags@ == old(self).tags@,
            r matches Ok(p) ==> p.id == id && p.name == name && p.description == description
                && p.color@ == text_or(color, DEFAULT_TAG_COLOR@) && p.category == category && p.created_at == at && p.updated_at == at
                && final(self).tags@ == old(self).tags@.push(p),
            final(self).entries@ == old(self).entries@,
            final(self).items@ == old(self).items@,
            final(self).people@ == old(self).people@,
            final(self).jira_refs@ == old(self).jira_refs@,
            final(self).item_tags@ == old(self).item_tags@,
            final(self).item_people@ == old(self).item_people@,
            final(self).projects@ == old(self).projects@,
            final(self).meetings@ == old(self).meetings@,
            final(self).attendees@ == old(self).attendees@,
            final(self).actions@ == old(self).actions@,
    {
        if self.find_tag(&id).is_some() || self.find_tag_named(&name).is_some() {
            return Err(LogbookError::Conflict);
        }
        let p = Tag {
            id,
            name,
            description,
            color: text_or_default(color, DEFAULT_TAG_COLOR),
            category,
            created_at: at,
            updated_at: at,
        };
        let copy = p.clone();
        let ghost before = *self;
        self.tags.push(p);
        proof {
            lemma_push_pairwise(before.tags@, copy, tags_ids_differ());
            lemma_push_pairwise(before.tags@, copy, tags_names_differ());
            Database::lemma_grown(before, *self);
        }
        Ok(copy)
    }

    /// Adds a tag under a fresh identifier, created and updated now.
    pub fn create_tag(
        &mut self,
        name: &str,
        description: Option<&str>,
        color: Option<&str>,
        category: Option<&str>,
    ) -> (r: Result<Tag, LogbookError>)
        requires
            old(self).wf(),
        ensures
            final(self).wf(),
            !old(self).has_tag_named(name@) && old(self).fresh_tag_id_free() ==> r is Ok,
            old(self).has_tag_named(name@) ==> r == Err::<Tag, LogbookError>(LogbookError::Conflict),
            r matches Err(e) ==> e == LogbookError::Conflict && final(self).tags@ == old(self).tags@,
            r matches Ok(p) ==> p.name@ == name@ && text_view(p.description) == str_view(description)
                && p.color@ == str_or(color, DEFAULT_TAG_COLOR@) && text_view(p.category) == str_view(category)
                && p.created_at == p.updated_at
                && !old(self).has_tag(p.id@) && final(self).tags@ == old(self).tags@.push(p),
            final(self).entries@ == old(self).entries@,
            final(self).items@ == old(self).items@,
            final(self).people@ == old(self).people@,
            final(self).jira_refs@ == old(self).jira_refs@,
            final(self).item_tags@ == old(self).item_tags@,
            final(self).item_people@ == old(self).item_people@,
            final(self).projects@ == old(self).projects@,
            final(self).meetings@ == old(self).meetings@,
            final(self).attendees@ == old(self).attendees@,
            final(self).actions@ == old(self).actions@,
    {
        let id = fresh_id();
        proof {
            if old(self).fresh_tag_id_free() {
                assert(!old(self).has_tag(id@));
            }
        }
        let at = now();
        self.insert_tag(id, name.to_owned(), owned_text(description), owned_text(color), owned_text(category), at)
    }

    /// Every tag, by name.
    pub fn get_all_tags(&self) -> (r: Vec<Tag>)
        ensures
            r@.to_multiset() == self.tags@.to_multiset(),
            is_ranked(r@),
    {
        let mut all: Vec<Tag> = Vec::new();
        let mut i: usize = 0;
        while i < self.tags.len()
            invariant
                i <= self.tags@.len(),
                all@ == self.tags@.take(i as int),
            decreases self.tags@.len() - i,
        {
            all.push(self.tags[i].clone());
            proof {
                assert(all@ =~= self.tags@.take(i + 1));
            }
            i = i + 1;
        }
        proof {
            assert(self.tags@.take(i as int) =~= self.tags@);
        }
        sort_ranked(all)
    }

    /// The tag named `name`, if there is one.
    pub fn get_tag_by_name(&self, name: &str) -> (r: Option<Tag>)
        ensures
            r is None <==> !self.has_tag_named(name@),
            r matches Some(p) ==> self.tags@.contains(p) && p.name@ == name@,
    {
        match self.find_tag_named(&name.to_owned()) {
            Some(k) => Some(self.tags[k].clone()),
            None => None,
        }
    }

    /// Another tag than `id` is named `name`.
    pub open spec fn tag_name_clash(self, id: Seq<char>, name: Seq<char>) -> bool {
        exists|i: int| 0 <= i < self.tags@.len() && #[trigger] self.tags@[i].name@ == name
            && self.tags@[i].id@ != id
    }

    /// Writes the given fields of the tag `id`, leaves the others, and
    /// stamps it updated at `at`. Fails with `NotFound` when there is no such
    /// tag, else with `Conflict` when the new name belongs to another one.
    pub fn set_tag(
        &mut self,
        id: &str,
        name: Option<&str>,
        description: Option<&str>,
        color: Option<&str>,
        category: Option<&str>,
        at: Timestamp,
    ) -> (r: Result<Tag, LogbookError>)
        requires
            old(self).wf(),
        ensures
            final(self).wf(),
            !old(self).has_tag(id@) ==> r == Err::<Tag, LogbookError>(LogbookError::NotFound),
            old(self).has_tag(id@) ==> (r is Err <==> (name matches Some(n) && old(self).tag_name_clash(id@, n@))),
            r matches Err(e) ==> final(self).tags@ == old(self).tags@,
            r matches Ok(p) ==> final(self).tags@.len() == old(self).tags@.len() && forall|k: int|
                0 <= k < old(self).tags@.len() ==> if old(self).tags@[k].id@ == id@ {
                    #[trigger] final(self).tags@[k] == p && is_tag_revision(old(self).tags@[k], p,
                        str_view(name), str_view(description), str_view(color), str_view(category), at)
                } else {
                    final(self).tags@[k] == old(self).tags@[k]
                },
            final(self).entries@ == old(self).entries@,
            final(self).items@ == old(self).items@,
            final(self).people@ == old(self).people@,
            final(self).jira_refs@ == old(self).jira_refs@,
            final(self).item_tags@ == old(self).item_tags@,
            final(self).item_people@ == old(self).item_people@,
            final(self).projects@ == old(self).projects@,
            final(self).meetings@ == old(self).meetings@,
            final(self).attendees@ == old(self).attendees@,
            final(self).actions@ == old(self).actions@,
    {
        let key = id.to_owned();
        let found = self.find_tag(&key);
        if found.is_none() {
            return Err(LogbookError::NotFound);
        }
        let k = found.unwrap();
        if let Some(n) = name {
            if let Some(j) = self.find_tag_named(&n.to_owned()) {
                if j != k {
                    return Err(LogbookError::Conflict);
                }
            }
        }
        let ghost before = *self;
        proof {
            assert forall|m: int| 0 <= m < before.tags@.len() && m != k implies before.tags@[m].id@ != id@ by {
                if m < k {
                    assert(tags_ids_differ()(before.tags@[m], before.tags@[k as int]));
                } else {
                    assert(tags_ids_differ()(before.tags@[k as int], before.tags@[m]));
                }
            }
            if let Some(n) = name {
                if before.tag_name_clash(id@, n@) {
                    let c = choose|c: int| 0 <= c < before.tags@.len() && #[trigger] before.tags@[c].name@ == n@
                        && before.tags@[c].id@ != id@;
                    assert(before.has_tag_named(n@));
                }
            }
        }
        let old_row = self.tags[k].clone();
        let row = Tag {
            id: old_row.id,
            name: match name {
                Some(n) => n.to_owned(),
                None => old_row.name,
            },
            description: match description {
                Some(d) => Some(d.to_owned()),
                None => old_row.description,
            },
            color: match color {
                Some(c) => c.to_owned(),
                None => old_row.color,
            },
            category: match category {
                Some(c) => Some(c.to_owned()),
                None => old_row.category,
            },
            created_at: old_row.created_at,
            updated_at: at,
        };
        let copy = row.clone();
        proof {
            assert forall|m: int| 0 <= m < before.tags@.len() && m != k implies #[trigger] before.tags@[m].name@
                != copy.name@ by {
                if m < k {
                    assert(tags_names_differ()(before.tags@[m], before.tags@[k as int]));
                } else {
                    assert(tags_names_differ()(before.tags@[k as int], before.tags@[m]));
                }
            }
            lemma_update_pairwise(before.tags@, k as int, copy, tags_ids_differ());
            lemma_update_pairwise(before.tags@, k as int, copy, tags_names_differ());
        }
        self.tags.set(k, row);
        proof {
            Database::lemma_same_items(before, *self);
            Database::lemma_same_entries(before, *self);
            assert forall|x: Seq<char>| before.has_tag(x) <==> #[trigger] self.has_tag(x) by {
                if before.has_tag(x) {
                    let w = choose|w: int| 0 <= w < before.tags@.len() && #[trigger] before.tags@[w].id@ == x;
                    assert(self.tags@[w].id@ == x);
                }
                if self.has_tag(x) {
                    let w = choose|w: int| 0 <= w < self.tags@.len() && #[trigger] self.tags@[w].id@ == x;
                    assert(before.tags@[w].id@ == x);
                }
            }
            assert forall|i: int| 0 <= i < self.item_tags@.len() implies self.has_tag(#[trigger] self.item_tags@[i].tag_id@) by {
                assert(before.has_tag(before.item_tags@[i].tag_id@));
            }
            Database::lemma_same_people(before, *self);
            Database::lemma_same_meetings(before, *self);
            assert(self.keys_unique());
            assert(self.references_hold());
        }
        Ok(copy)
    }

    /// Writes the given fields of a tag and stamps it updated now.
    pub fn update_tag(
        &mut self,
        id: &str,
        name: Option<&str>,
        description: Option<&str>,
        color: Option<&str>,
        category: Option<&str>,
    ) -> (r: Result<Tag, LogbookError>)
        requires
            old(self).wf(),
        ensures
            final(self).wf(),
            !old(self).has_tag(id@) ==> r == Err::<Tag, LogbookError>(LogbookError::NotFound),
            old(self).has_tag(id@) ==> (r is Err <==> (name matches Some(n) && old(self).tag_name_clash(id@, n@))),
            r matches Err(e) ==> final(self).tags@ == old(self).tags@,
            r matches Ok(p) ==> final(self).tags@.len() == old(self).tags@.len() && forall|k: int|
                0 <= k < old(self).tags@.len() ==> if old(self).tags@[k].id@ == id@ {
                    #[trigger] final(self).tags@[k] == p && is_tag_revision(old(self).tags@[k], p,
                        str_view(name), str_view(description), str_view(color), str_view(category), p.updated_at)
                } else {
                    final(self).tags@[k] == old(self).tags@[k]
                },
            final(self).entries@ == old(self).entries@,
            final(self).items@ == old(self).items@,
            final(self).people@ == old(self).people@,
            final(self).jira_refs@ == old(self).jira_refs@,
            final(self).item_tags@ == old(self).item_tags@,
            final(self).item_people@ == old(self).item_people@,
            final(self).projects@ == old(self).projects@,
            final(self).meetings@ == old(self).meetings@,
            final(self).attendees@ == old(self).attendees@,
            final(self).actions@ == old(self).actions@,
    {
        let at = now();
        self.set_tag(id, name, description, color, category, at)
    }

    /// Deletes the tag `id` and every join row that links an item to it.
    pub fn delete_tag(&mut self, id: &str)
        requires
            old(self).wf(),
        ensures
            final(self).wf(),
            final(self).tags@ == old(self).tags@.filter(tag_other_than(id@)),
            final(self).item_tags@ == old(self).item_tags@.filter(tag_link_not_to_tag(id@)),
            final(self).entries@ == old(self).entries@,
            final(self).items@ == old(self).items@,
            final(self).people@ == old(self).people@,
            final(self).jira_refs@ == old(self).jira_refs@,
            final(self).item_people@ == old(self).item_people@,
            final(self).projects@ == old(self).projects@,
            final(self).meetings@ == old(self).meetings@,
            final(self).attendees@ == old(self).attendees@,
            final(self).actions@ == old(self).actions@,
    {
        let key = id.to_owned();
        let ghost before = *self;
        let ghost q = tag_link_not_to_tag(key@);
        let mut links: Vec<ItemTag> = Vec::new();
        core::mem::swap(&mut links, &mut self.item_tags);
        let keep_link = |l: &ItemTag| -> (b: bool)
            ensures
                b == (l.tag_id@ != key@),
            { !(l.tag_id == key) };
        self.item_tags = keep_where(links, keep_link, Ghost(q));
        let ghost p = tag_other_than(key@);
        let mut rows: Vec<Tag> = Vec::new();
        core::mem::swap(&mut rows, &mut self.tags);
        let keep = |x: &Tag| -> (b: bool)
            ensures
                b == (x.id@ != key@),
            { !(x.id == key) };
        self.tags = keep_where(rows, keep, Ghost(p));
        proof {
            lemma_filter_pairwise(before.tags@, p, tags_ids_differ());
            lemma_filter_pairwise(before.tags@, p, tags_names_differ());
            lemma_filter_pairwise(before.item_tags@, q, item_tag_pairs_differ());
            lemma_filter_members(before.item_tags@, q);
            lemma_filter_contains_iff(before.tags@, p);
            Database::lemma_same_items(before, *self);
            Database::lemma_same_entries(before, *self);
            Database::lemma_same_people(before, *self);
            Database::lemma_same_meetings(before, *self);
            assert forall|i: int| 0 <= i < self.item_tags@.len() implies self.has_item(#[trigger] self.item_tags@[i].entry_item_id@)
                && self.has_tag(self.item_tags@[i].tag_id@) by {
                let k = choose|k: int| 0 <= k < before.item_tags@.len() && before.item_tags@[k] == self.item_tags@[i];
                assert(before.has_item(before.item_tags@[k].entry_item_id@));
                assert(before.has_tag(before.item_tags@[k].tag_id@));
                let c = choose|c: int| 0 <= c < before.tags@.len() && #[trigger] before.tags@[c].id@ == before.item_tags@[k].tag_id@;
                assert(p(before.tags@[c]));
                assert(self.tags@.contains(before.tags@[c]));
                let w = choose|w: int| 0 <= w < self.tags@.len() && self.tags@[w] == before.tags@[c];
                assert(self.tags@[w].id@ == self.item_tags@[i].tag_id@);
            }
            assert forall|i: int| 0 <= i < self.item_tags@.len() implies self.has_tag(#[trigger] self.item_tags@[i].tag_id@) by {
                assert(self.has_item(self.item_tags@[i].entry_item_id@));
            }
            assert(self.keys_unique());
            assert(self.references_hold());
        }
    }

    /// Adds a meeting under `id`, of kind `meeting_type` or the default kind,
    /// scheduled, created and updated at `at`. Fails with `Conflict` when the
    /// identifier is taken.
    pub fn insert_meeting(
        &mut self,
        id: String,
        title: String,
        description: Option<String>,
        start_time: Option<Timestamp>,
        end_time: Option<Timestamp>,
        location: Option<String>,
        meeting_type: Option<String>,
        at: Timestamp,
    ) -> (r: Result<Meeting, LogbookError>)
        requires
            old(self).wf(),
        ensures
            final(self).wf(),
            r is Err <==> old(self).has_meeting(id@),
            r matches Err(e) ==> e == LogbookError::Conflict && final(self).meetings@ == old(self).meetings@,
            r matches Ok(m) ==> m.id == id && m.title == title && m.description == description
                && m.start_time == start_time && m.end_time == end_time && m.location == location
                && m.meeting_type@ == text_or(meeting_type, DEFAULT_MEETING_TYPE@)
                && m.status@ == MEETING_SCHEDULED@ && m.created_at == at && m.updated_at == at
                && final(self).meetings@ == old(self).meetings@.push(m),
            final(self).entries@ == old(self).entries@,
            final(self).items@ == old(self).items@,
            final(self).tags@ == old(self).tags@,
            final(self).people@ == old(self).people@,
            final(self).jira_refs@ == old(self).jira_refs@,
            final(self).item_tags@ == old(self).item_tags@,
            final(self).item_people@ == old(self).item_people@,
            final(self).projects@ == old(self).projects@,
            final(self).attendees@ == old(self).attendees@,
            final(self).actions@ == old(self).actions@,
    {
        if self.find_meeting(&id).is_some() {
            return Err(LogbookError::Conflict);
        }
        let m = Meeting {
            id,
            title,
            description,
            start_time,
            end_time,
            location,
            meeting_type: text_or_default(meeting_type, DEFAULT_MEETING_TYPE),
            status: MEETING_SCHEDULED.to_owned(),
            created_at: at,
            updated_at: at,
        };
        let copy = m.clone();
        let ghost before = *self;
        self.meetings.push(m);
        proof {
            lemma_push_pairwise(before.meetings@, copy, meetings_ids_differ());
            Database::lemma_grown(before, *self);
        }
        Ok(copy)
    }

    /// Adds a scheduled meeting under a fresh identifier, created and updated now.
    pub fn create_meeting(
        &mut self,
        title: &str,
        description: Option<&str>,
        start_time: Option<Timestamp>,
        end_time: Option<Timestamp>,
        location: Option<&str>,
        meeting_type: Option<&str>,
    ) -> (r: Result<Meeting, LogbookError>)
        requires
            old(self).wf(),
        ensures
            final(self).wf(),
            old(self).fresh_meeting_id_free() ==> r is Ok,
            r matches Err(e) ==> e == LogbookError::Conflict && final(self).meetings@ == old(self).meetings@,
            r matches Ok(m) ==> m.title@ == title@ && text_view(m.description) == str_view(description)
                && m.start_time == start_time && m.end_time == end_time && text_view(m.location) == str_view(location)
                && m.meeting_type@ == str_or(meeting_type, DEFAULT_MEETING_TYPE@) && m.status@ == MEETING_SCHEDULED@
                && m.created_at == m.updated_at && !old(self).has_meeting(m.id@)
                && final(self).meetings@ == old(self).meetings@.push(m),
            final(self).entries@ == old(self).entries@,
            final(self).items@ == old(self).items@,
            final(self).tags@ == old(self).tags@,
            final(self).people@ == old(self).people@,
            final(self).jira_refs@ == old(self).jira_refs@,
            final(self).item_tags@ == old(self).item_tags@,
            final(self).item_people@ == old(self).item_people@,
            final(self).projects@ == old(self).projects@,
            final(self).attendees@ == old(self).attendees@,
            final(self).actions@ == old(self).actions@,
    {
        let id = fresh_id();
        proof {
            if old(self).fresh_meeting_id_free() {
                assert(!old(self).has_meeting(id@));
            }
        }
        let at = now();
        self.insert_meeting(id, title.to_owned(), owned_text(description), start_time, end_time, owned_text(location),
            owned_text(meeting_type), at)
    }

    /// Every meeting, latest start first, those without a start last.
    pub fn get_all_meetings(&self) -> (r: Vec<Meeting>)
        ensures
            r@.to_multiset() == self.meetings@.to_multiset(),
            is_ranked(r@),
    {
        let mut all: Vec<Meeting> = Vec::new();
        let mut i: usize = 0;
        while i < self.meetings.len()
            invariant
                i <= self.meetings@.len(),
                all@ == self.meetings@.take(i as int),
            decreases self.meetings@.len() - i,
        {
            all.push(self.meetings[i].clone());
            proof {
                assert(all@ =~= self.meetings@.take(i + 1));
            }
            i = i + 1;
        }
        proof {
            assert(self.meetings@.take(i as int) =~= self.meetings@);
        }
        sort_ranked(all)
    }

    /// Adds an attendee under `id` to the meeting `meeting_id`, with `role`
    /// or the default role, invited, created at `at`. Fails with
    /// `Referential` when the meeting does not exist, else with `Conflict`
    /// when the identifier is taken.
    pub fn insert_attendee(
        &mut self,
        id: String,
        meeting_id: String,
        name: String,
        email: Option<String>,
        role: Option<String>,
        at: Timestamp,
    ) -> (r: Result<MeetingAttendee, LogbookError>)
        requires
            old(self).wf(),
        ensures
            final(self).wf(),
            !old(self).has_meeting(meeting_id@) ==> r == Err::<MeetingAttendee, LogbookError>(LogbookError::Referential),
            old(self).has_meeting(meeting_id@) ==> r != Err::<MeetingAttendee, LogbookError>(LogbookError::Referential),
            old(self).has_meeting(meeting_id@) ==> (r is Err <==> old(self).has_attendee(id@)),
            r matches Err(e) ==> (e == LogbookError::Referential || e == LogbookError::Conflict)
                && final(self).attendees@ == old(self).attendees@,
            r matches Ok(a) ==> a.id == id && a.meeting_id == meeting_id && a.name == name && a.email == email
                && a.role@ == text_or(role, DEFAULT_ATTENDEE_ROLE@) && a.status@ == ATTENDEE_INVITED@
                && a.created_at == at && final(self).attendees@ == old(self).attendees@.push(a),
            final(self).entries@ == old(self).entries@,
            final(self).items@ == old(self).items@,
            final(self).tags@ == old(self).tags@,
            final(self).people@ == old(self).people@,
            final(self).jira_refs@ == old(self).jira_refs@,
            final(self).item_tags@ == old(self).item_tags@,
            final(self).item_people@ == old(self).item_people@,
            final(self).projects@ == old(self).projects@,
            final(self).meetings@ == old(self).meetings@,
            final(self).actions@ == old(self).actions@,
    {
        if self.find_meeting(&meeting_id).is_none() {
            return Err(LogbookError::Referential);
        }
        if self.find_attendee(&id).is_some() {
            return Err(LogbookError::Conflict);
        }
        let a = MeetingAttendee {
            id,
            meeting_id,
            name,
            email,
            role: text_or_default(role, DEFAULT_ATTENDEE_ROLE),
            status: ATTENDEE_INVITED.to_owned(),
            created_at: at,
        };
        let copy = a.clone();
        let ghost before = *self;
        self.attendees.push(a);
        proof {
            lemma_push_pairwise(before.attendees@, copy, attendees_ids_differ());
            Database::lemma_grown(before, *self);
        }
        Ok(copy)
    }

    /// Adds an invited attendee to a meeting under a fresh identifier.
    pub fn add_meeting_attendee(&mut self, meeting_id: &str, name: &str, email: Option<&str>, role: Option<&str>) -> (r:
        Result<MeetingAttendee, LogbookError>)
        requires
            old(self).wf(),
        ensures
            final(self).wf(),
            old(self).has_meeting(meeting_id@) && old(self).fresh_attendee_id_free() ==> r is Ok,
            !old(self).has_meeting(meeting_id@) ==> r == Err::<MeetingAttendee, LogbookError>(LogbookError::Referential),
            old(self).has_meeting(meeting_id@) ==> r != Err::<MeetingAttendee, LogbookError>(LogbookError::Referential),
            r matches Err(e) ==> (e == LogbookError::Referential || e == LogbookError::Conflict)
                && final(self).attendees@ == old(self).attendees@,
            r matches Ok(a) ==> a.meeting_id@ == meeting_id@ && a.name@ == name@ && text_view(a.email) == str_view(email)
                && a.role@ == str_or(role, DEFAULT_ATTENDEE_ROLE@) && a.status@ == ATTENDEE_INVITED@
                && !old(self).has_attendee(a.id@) && final(self).attendees@ == old(self).attendees@.push(a),
            final(self).entries@ == old(self).entries@,
            final(self).items@ == old(self).items@,
            final(self).tags@ == old(self).tags@,
            final(self).people@ == old(self).people@,
            final(self).jira_refs@ == old(self).jira_refs@,
            final(self).item_tags@ == old(self).item_tags@,
            final(self).item_people@ == old(self).item_people@,
            final(self).projects@ == old(self).projects@,
            final(self).meetings@ == old(self).meetings@,
            final(self).actions@ == old(self).actions@,
    {
        let id = fresh_id();
        proof {
            if old(self).fresh_attendee_id_free() {
                assert(!old(self).has_attendee(id@));
            }
        }
        let at = now();
        self.insert_attendee(id, meeting_id.to_owned(), name.to_owned(), owned_text(email), owned_text(role), at)
    }

    /// The attendees of a meeting, by name.
    pub fn get_meeting_attendees(&self, meeting_id: &str) -> (r: Vec<MeetingAttendee>)
        ensures
            r@.to_multiset() == self.attendees@.filter(attendee_of_meeting(meeting_id@)).to_multiset(),
            is_ranked(r@),
    {
        let key = meeting_id.to_owned();
        let ghost p = attendee_of_meeting(key@);
        let mut out: Vec<MeetingAttendee> = Vec::new();
        let mut i: usize = 0;
        while i < self.attendees.len()
            invariant
                p == attendee_of_meeting(key@),
                i <= self.attendees@.len(),
                out@ == self.attendees@.take(i as int).filter(p),
            decreases self.attendees@.len() - i,
        {
            proof {
                assert(self.attendees@.take(i + 1) =~= self.attendees@.take(i as int).push(self.attendees@[i as int]));
                self.attendees@.take(i as int).lemma_filter_push(self.attendees@[i as int], p);
            }
            if self.attendees[i].meeting_id == key {
                out.push(self.attendees[i].clone());
            }
            i = i + 1;
        }
        proof {
            assert(self.attendees@.take(i as int) =~= self.attendees@);
        }
        sort_ranked(out)
    }

    /// Adds an open action under `id` to the meeting `meeting_id`, tied to no
    /// item, with `priority` or the default priority, created and updated at
    /// `at`. Fails with `Referential` when the meeting does not exist, else
    /// with `Conflict` when the identifier is taken.
    pub fn insert_meeting_action(
        &mut self,
        id: String,
        meeting_id: String,
        title: String,
        description: Option<String>,
        assignee: Option<String>,
        due_date: Option<Timestamp>,
        priority: Option<String>,
        at: Timestamp,
    ) -> (r: Result<MeetingAction, LogbookError>)
        requires
            old(self).wf(),
        ensures
            final(self).wf(),
            !old(self).has_meeting(meeting_id@) ==> r == Err::<MeetingAction, LogbookError>(LogbookError::Referential),
            old(self).has_meeting(meeting_id@) ==> r != Err::<MeetingAction, LogbookError>(LogbookError::Referential),
            old(self).has_meeting(meeting_id@) ==> (r is Err <==> old(self).has_action(id@)),
            r matches Err(e) ==> (e == LogbookError::Referential || e == LogbookError::Conflict)
                && final(self).actions@ == old(self).actions@,
            r matches Ok(a) ==> a.id == id && a.meeting_id == meeting_id && a.entry_item_id is None && a.title == title
                && a.description == description && a.assignee == assignee && a.due_date == due_date
                && a.status@ == ACTION_OPEN@ && a.priority@ == text_or(priority, DEFAULT_ACTION_PRIORITY@)
                && a.created_at == at && a.updated_at == at && final(self).actions@ == old(self).actions@.push(a),
            final(self).entries@ == old(self).entries@,
            final(self).items@ == old(self).items@,
            final(self).tags@ == old(self).tags@,
            final(self).people@ == old(self).people@,
            final(self).jira_refs@ == old(self).jira_refs@,
            final(self).item_tags@ == old(self).item_tags@,
            final(self).item_people@ == old(self).item_people@,
            final(self).projects@ == old(self).projects@,
            final(self).meetings@ == old(self).meetings@,
            final(self).attendees@ == old(self).attendees@,
    {
        if self.find_meeting(&meeting_id).is_none() {
            return Err(LogbookError::Referential);
        }
        if self.find_action(&id).is_some() {
            return Err(LogbookError::Conflict);
        }
        let a = MeetingAction {
            id,
            meeting_id,
            entry_item_id: None,
            title,
            description,
            assignee,
            due_date,
            status: ACTION_OPEN.to_owned(),
            priority: text_or_default(priority, DEFAULT_ACTION_PRIORITY),
            created_at: at,
            updated_at: at,
        };
        let copy = a.clone();
        let ghost before = *self;
        self.actions.push(a);
        proof {
            lemma_push_pairwise(before.actions@, copy, actions_ids_differ());
            Database::lemma_grown(before, *self);
        }
        Ok(copy)
    }

    /// Adds an open action to a meeting under a fresh identifier, created and
    /// updated now.
    pub fn create_meeting_action(
        &mut self,
        meeting_id: &str,
        title: &str,
        description: Option<&str>,
        assignee: Option<&str>,
        due_date: Option<Timestamp>,
        priority: Option<&str>,
    ) -> (r: Result<MeetingAction, LogbookError>)
        requires
            old(self).wf(),
        ensures
            final(self).wf(),
            old(self).has_meeting(meeting_id@) && old(self).fresh_action_id_free() ==> r is Ok,
            !old(self).has_meeting(meeting_id@) ==> r == Err::<MeetingAction, LogbookError>(LogbookError::Referential),
            old(self).has_meeting(meeting_id@) ==> r != Err::<MeetingAction, LogbookError>(LogbookError::Referential),
            r matches Err(e) ==> (e == LogbookError::Referential || e == LogbookError::Conflict)
                && final(self).actions@ == old(self).actions@,
            r matches Ok(a) ==> a.meeting_id@ == meeting_id@ && a.entry_item_id is None && a.title@ == title@
                && text_view(a.description) == str_view(description) && text_view(a.assignee) == str_view(assignee)
                && a.due_date == due_date && a.status@ == ACTION_OPEN@ && a.priority@ == str_or(priority, DEFAULT_ACTION_PRIORITY@)
                && a.created_at == a.updated_at && !old(self).has_action(a.id@)
                && final(self).actions@ == old(self).actions@.push(a),
            final(self).entries@ == old(self).entries@,
            final(self).items@ == old(self).items@,
            final(self).tags@ == old(self).tags@,
            final(self).people@ == old(self).people@,
            final(self).jira_refs@ == old(self).jira_refs@,
            final(self).item_tags@ == old(self).item_tags@,
            final(self).item_people@ == old(self).item_people@,
            final(self).projects@ == old(self).projects@,
            final(self).meetings@ == old(self).meetings@,
            final(self).attendees@ == old(self).attendees@,
    {
        let id = fresh_id();
        proof {
            if old(self).fresh_action_id_free() {
                assert(!old(self).has_action(id@));
            }
        }
        let at = now();
        self.insert_meeting_action(id, meeting_id.to_owned(), title.to_owned(), owned_text(description),
            owned_text(assignee), due_date, owned_text(priority), at)
    }

    /// The actions of a meeting, latest created first.
    pub fn get_meeting_actions(&self, meeting_id: &str) -> (r: Vec<MeetingAction>)
        ensures
            r@.to_multiset() == self.actions@.filter(action_of_meeting(meeting_id@)).to_multiset(),
            is_ranked(r@),
    {
        let key = meeting_id.to_owned();
        let ghost p = action_of_meeting(key@);
        let mut out: Vec<MeetingAction> = Vec::new();
        let mut i: usize = 0;
        while i < self.actions.len()
            invariant
                p == action_of_meeting(key@),
                i <= self.actions@.len(),
                out@ == self.actions@.take(i as int).filter(p),
            decreases self.actions@.len() - i,
        {
            proof {
                assert(self.actions@.take(i + 1) =~= self.actions@.take(i as int).push(self.actions@[i as int]));
                self.actions@.take(i as int).lemma_filter_push(self.actions@[i as int], p);
            }
            if self.actions[i].meeting_id == key {
                out.push(self.actions[i].clone());
            }
            i = i + 1;
        }
        proof {
            assert(self.actions@.take(i as int) =~= self.actions@);
        }
        sort_ranked(out)
    }

    /// Deletes the meeting `id` with its attendees and its actions.
    pub fn delete_meeting(&mut self, id: &str)
        requires
            old(self).wf(),
        ensures
            final(self).wf(),
            final(self).meetings@ == old(self).meetings@.filter(meeting_other_than(id@)),
            final(self).attendees@ == old(self).attendees@.filter(attendee_not_of_meeting(id@)),
            final(self).actions@ == old(self).actions@.filter(action_not_of_meeting(id@)),
            final(self).entries@ == old(self).entries@,
            final(self).items@ == old(self).items@,
            final(self).tags@ == old(self).tags@,
            final(self).people@ == old(self).people@,
            final(self).jira_refs@ == old(self).jira_refs@,
            final(self).item_tags@ == old(self).item_tags@,
            final(self).item_people@ == old(self).item_people@,
            final(self).projects@ == old(self).projects@,
    {
        let key = id.to_owned();
        let ghost before = *self;
        let ghost pa = attendee_not_of_meeting(key@);
        let mut attendees: Vec<MeetingAttendee> = Vec::new();
        core::mem::swap(&mut attendees, &mut self.attendees);
        let keep_attendee = |a: &MeetingAttendee| -> (b: bool)
            ensures
                b == (a.meeting_id@ != key@),
            { !(a.meeting_id == key) };
        self.attendees = keep_where(attendees, keep_attendee, Ghost(pa));
        let ghost pc = action_not_of_meeting(key@);
        let mut actions: Vec<MeetingAction> = Vec::new();
        core::mem::swap(&mut actions, &mut self.actions);
        let keep_action = |a: &MeetingAction| -> (b: bool)
            ensures
                b == (a.meeting_id@ != key@),
            { !(a.meeting_id == key) };
        self.actions = keep_where(actions, keep_action, Ghost(pc));
        let ghost pm = meeting_other_than(key@);
        let mut meetings: Vec<Meeting> = Vec::new();
        core::mem::swap(&mut meetings, &mut self.meetings);
        let keep_meeting = |m: &Meeting| -> (b: bool)
            ensures
                b == (m.id@ != key@),
            { !(m.id == key) };
        self.meetings = keep_where(meetings, keep_meeting, Ghost(pm));
        proof {
            lemma_filter_pairwise(before.meetings@, pm, meetings_ids_differ());
            lemma_filter_pairwise(before.attendees@, pa, attendees_ids_differ());
            lemma_filter_pairwise(before.actions@, pc, actions_ids_differ());
            lemma_filter_members(before.attendees@, pa);
            lemma_filter_members(before.actions@, pc);
            lemma_filter_contains_iff(before.meetings@, pm);
            Database::lemma_same_items(before, *self);
            Database::lemma_same_entries(before, *self);
            Database::lemma_same_tags(before, *self);
            Database::lemma_same_people(before, *self);
            assert forall|x: Seq<char>| before.has_meeting(x) && x != key@ implies #[trigger] self.has_meeting(x) by {
                let c = choose|c: int| 0 <= c < before.meetings@.len() && #[trigger] before.meetings@[c].id@ == x;
                assert(pm(before.meetings@[c]));
                assert(self.meetings@.contains(before.meetings@[c]));
                let w = choose|w: int| 0 <= w < self.meetings@.len() && self.meetings@[w] == before.meetings@[c];
                assert(self.meetings@[w].id@ == x);
            }
            assert forall|i: int| 0 <= i < self.attendees@.len() implies self.has_meeting(#[trigger] self.attendees@[i].meeting_id@) by {
                let k = choose|k: int| 0 <= k < before.attendees@.len() && before.attendees@[k] == self.attendees@[i];
                assert(before.has_meeting(before.attendees@[k].meeting_id@));
            }
            assert forall|i: int| 0 <= i < self.actions@.len() implies self.has_meeting(#[trigger] self.actions@[i].meeting_id@) by {
                let k = choose|k: int| 0 <= k < before.actions@.len() && before.actions@[k] == self.actions@[i];
                assert(before.has_meeting(before.actions@[k].meeting_id@));
            }
            assert forall|i: int| 0 <= i < self.actions@.len() implies (#[trigger] self.actions@[i].entry_item_id matches Some(x)
                ==> self.has_item(x@)) by {
                let k = choose|k: int| 0 <= k < before.actions@.len() && before.actions@[k] == self.actions@[i];
                assert(before.actions@[k].entry_item_id matches Some(x) ==> before.has_item(x@));
            }
            assert(self.keys_unique());
            assert(self.references_hold());
        }
    }

    /// Some tag of the item `item` is named `name`.
    pub open spec fn tag_named_on(self, item: Seq<char>, name: Seq<char>) -> bool {
        exists|i: int|
            0 <= i < self.item_tags@.len() && #[trigger] self.item_tags@[i].entry_item_id@ == item
                && self.tag_with_id(self.item_tags@[i].tag_id@).name@ == name
    }

    pub proof fn lemma_tag_ids_stable(a: Database, b: Database)
        requires
            a.wf(),
            b.wf(),
            grows(a.tags@, b.tags@),
        ensures
            forall|x: Seq<char>| a.has_tag(x) ==> #[trigger] b.tag_with_id(x) == a.tag_with_id(x),
    {
        assert forall|x: Seq<char>| a.has_tag(x) implies #[trigger] b.tag_with_id(x) == a.tag_with_id(x) by {
            let c = choose|c: int| 0 <= c < a.tags@.len() && #[trigger] a.tags@[c].id@ == x;
            a.lemma_tag_at(c);
            assert(b.tags@[c] == a.tags@[c]);
            b.lemma_tag_at(c);
        }
    }

    /// Replaces the tags of the item `entry_item_id` by those named in
    /// `names`, creating any that do not exist yet. Tags are never deleted.
    pub fn replace_item_tags(&mut self, entry_item_id: &str, names: &Vec<String>) -> (r: Result<(), LogbookError>)
        requires
            old(self).wf(),
        ensures
            final(self).wf(),
            old(self).has_item(entry_item_id@) && (forall|k: int| 0 <= k < names@.len() ==> old(self).has_tag_named(#[trigger] names@[k]@))
                ==> r is Ok && final(self).tags@ == old(self).tags@,
            grows(old(self).tags@, final(self).tags@),
            replaces_tags(*final(self), entry_item_id@, names@, r),
            r is Ok ==> forall|n: Seq<char>| #[trigger] final(self).tag_named_on(entry_item_id@, n)
                <==> texts(names@).contains(n),
            r is Ok ==> forall|i: int| 0 <= i < final(self).item_tags@.len() && #[trigger] final(self).item_tags@[i].entry_item_id@ == entry_item_id@
                ==> final(self).has_tag(final(self).item_tags@[i].tag_id@),
            forall|l: ItemTag| l.entry_item_id@ != entry_item_id@ ==> (#[trigger] final(self).item_tags@.contains(l)
                <==> old(self).item_tags@.contains(l)),
            old(self).has_item(entry_item_id@) && r is Err ==> r == Err::<(), LogbookError>(LogbookError::Conflict),
            !old(self).has_item(entry_item_id@) && names@.len() > 0 ==> r is Err,
            final(self).entries@ == old(self).entries@,
            final(self).items@ == old(self).items@,
            final(self).people@ == old(self).people@,
            final(self).jira_refs@ == old(self).jira_refs@,
            final(self).item_people@ == old(self).item_people@,
            final(self).projects@ == old(self).projects@,
            final(self).meetings@ == old(self).meetings@,
            final(self).attendees@ == old(self).attendees@,
            final(self).actions@ == old(self).actions@,
    {
        let ghost start = *self;
        self.remove_item_tags(entry_item_id);
        proof {
            lemma_filter_contains_iff(start.item_tags@, tag_link_not_of_item(entry_item_id@));
            lemma_filter_members(start.item_tags@, tag_link_not_of_item(entry_item_id@));
            assert forall|n: Seq<char>| #[trigger] self.tag_named_on(entry_item_id@, n)
                <==> exists|k: int| 0 <= k < 0 && names@[k]@ == n by {
                if self.tag_named_on(entry_item_id@, n) {
                    let i = choose|i: int| 0 <= i < self.item_tags@.len() && #[trigger] self.item_tags@[i].entry_item_id@ == entry_item_id@
                        && self.tag_with_id(self.item_tags@[i].tag_id@).name@ == n;
                    assert(tag_link_not_of_item(entry_item_id@)(self.item_tags@[i]));
                }
            }
        }
        let mut k: usize = 0;
        while k < names.len()
            invariant
                self.wf(),
                start.wf(),
                start == *old(self),
                k <= names@.len(),
                self.items@ == start.items@,
                grows(start.tags@, self.tags@),
                self.entries@ == start.entries@,
                self.people@ == start.people@,
                self.jira_refs@ == start.jira_refs@,
                self.item_people@ == start.item_people@,
                self.projects@ == start.projects@,
                self.meetings@ == start.meetings@,
                self.attendees@ == start.attendees@,
                self.actions@ == start.actions@,
                start.has_item(entry_item_id@) && (forall|m: int| 0 <= m < names@.len() ==> start.has_tag_named(#[trigger] names@[m]@))
                    ==> self.tags@ == start.tags@,
                k > 0 ==> start.has_item(entry_item_id@),
                forall|l: ItemTag| l.entry_item_id@ != entry_item_id@ ==> (#[trigger] self.item_tags@.contains(l)
                    <==> start.item_tags@.contains(l)),
                forall|n: Seq<char>| #[trigger] self.tag_named_on(entry_item_id@, n)
                    <==> exists|m: int| 0 <= m < k && names@[m]@ == n,
            decreases names@.len() - k,
        {
            let ghost cur = *self;
            proof {
                if start.has_item(entry_item_id@) && (forall|m: int| 0 <= m < names@.len() ==> start.has_tag_named(#[trigger] names@[m]@)) {
                    assert(start.has_tag_named(names@[k as int]@));
                    let w = choose|w: int| 0 <= w < start.tags@.len() && #[trigger] start.tags@[w].name@ == names@[k as int]@;
                    assert(cur.tags@[w].name@ == names@[k as int]@);
                }
            }
            let found = self.get_or_create_tag(names[k].as_str());
            let t = match found {
                Ok(t) => t,
                Err(e) => {
                    proof {
                        Database::lemma_same_items(start, cur);
                        assert(!cur.has_tag_named(names@[k as int]@));
                        assert(self.tags@ == cur.tags@);
                        assert(grows(start.tags@, self.tags@));
                        assert(e == LogbookError::Conflict);
                    }
                    return Err(e);
                },
            };
            let ghost mid = *self;
            proof {
                if cur.has_tag_named(names@[k as int]@) {
                    assert(mid.tags@ == cur.tags@);
                } else {
                    assert(mid.tags@[cur.tags@.len() as int] == t);
                }
                assert(grows(cur.tags@, mid.tags@));
                lemma_grows_trans(start.tags@, cur.tags@, mid.tags@);
            }
            let linked = self.link_item_tag(entry_item_id, t.id.as_str());
            proof {
                Database::lemma_same_items(start, cur);
                Database::lemma_same_items(cur, mid);
                Database::lemma_tag_ids_stable(cur, mid);
                let c = choose|c: int| 0 <= c < mid.tags@.len() && mid.tags@[c] == t;
                mid.lemma_tag_at(c);
                assert(mid.has_tag(t.id@));
            }
            proof {
                assert forall|l: ItemTag| l.entry_item_id@ != entry_item_id@ implies (#[trigger] self.item_tags@.contains(l)
                    <==> cur.item_tags@.contains(l)) by {
                    if linked.is_ok() && !mid.has_tag_link(entry_item_id@, t.id@) {
                        assert(self.item_tags@ == mid.item_tags@.push(self.item_tags@.last())) by {
                            assert(self.item_tags@ =~= self.item_tags@.drop_last().push(self.item_tags@.last()));
                        }
                        if self.item_tags@.contains(l) {
                            let i = choose|i: int| 0 <= i < self.item_tags@.len() && self.item_tags@[i] == l;
                            if i < mid.item_tags@.len() {
                                assert(mid.item_tags@[i] == l);
                            }
                        }
                        if mid.item_tags@.contains(l) {
                            let i = choose|i: int| 0 <= i < mid.item_tags@.len() && mid.item_tags@[i] == l;
                            assert(self.item_tags@[i] == l);
                        }
                    }
                }
            }
            if linked.is_err() {
                proof {
                    assert(!mid.has_item(entry_item_id@));
                    assert(!start.has_item(entry_item_id@));
                    assert(grows(start.tags@, self.tags@));
                }
                return Err(LogbookError::Referential);
            }
            proof {
                let gone = names@[k as int]@;
                assert(self.tags@ == mid.tags@);
                Database::lemma_same_tags(mid, *self);
                assert forall|n: Seq<char>| #[trigger] self.tag_named_on(entry_item_id@, n)
                    <==> exists|m: int| 0 <= m < k + 1 && names@[m]@ == n by {
                    if self.tag_named_on(entry_item_id@, n) {
                        let i = choose|i: int| 0 <= i < self.item_tags@.len() && #[trigger] self.item_tags@[i].entry_item_id@ == entry_item_id@
                            && self.tag_with_id(self.item_tags@[i].tag_id@).name@ == n;
                        if i < cur.item_tags@.len() {
                            assert(self.item_tags@[i] == cur.item_tags@[i]);
                            assert(cur.has_tag(cur.item_tags@[i].tag_id@));
                            assert(cur.tag_named_on(entry_item_id@, n));
                            let m = choose|m: int| 0 <= m < k && names@[m]@ == n;
                            assert(0 <= m < k + 1 && names@[m]@ == n);
                        } else {
                            assert(self.item_tags@[i].tag_id@ == t.id@);
                            assert(names@[k as int]@ == n);
                        }
                    }
                    if exists|m: int| 0 <= m < k + 1 && names@[m]@ == n {
                        let m = choose|m: int| 0 <= m < k + 1 && names@[m]@ == n;
                        if m < k {
                            assert(cur.tag_named_on(entry_item_id@, n));
                            let i = choose|i: int| 0 <= i < cur.item_tags@.len() && #[trigger] cur.item_tags@[i].entry_item_id@ == entry_item_id@
                                && cur.tag_with_id(cur.item_tags@[i].tag_id@).name@ == n;
                            assert(cur.has_tag(cur.item_tags@[i].tag_id@));
                            assert(self.item_tags@[i] == cur.item_tags@[i]);
                            assert(self.tag_with_id(self.item_tags@[i].tag_id@).name@ == n);
                        } else {
                            assert(self.has_tag_link(entry_item_id@, t.id@));
                            let i = choose|i: int| 0 <= i < self.item_tags@.len() && #[trigger] self.item_tags@[i].entry_item_id@ == entry_item_id@
                                && self.item_tags@[i].tag_id@ == t.id@;
                            assert(self.tag_with_id(self.item_tags@[i].tag_id@).name@ == n);
                        }
                    }
                }
            }
            k = k + 1;
        }
        proof {
            assert forall|i: int| 0 <= i < self.item_tags@.len() && #[trigger] self.item_tags@[i].entry_item_id@ == entry_item_id@
                implies self.has_tag(self.item_tags@[i].tag_id@) by {
            }
        }
        proof {
            assert forall|n: Seq<char>| #[trigger] self.tag_named_on(entry_item_id@, n) <==> texts(names@).contains(n) by {
                if exists|m: int| 0 <= m < names@.len() && names@[m]@ == n {
                    let m = choose|m: int| 0 <= m < names@.len() && names@[m]@ == n;
                    assert(texts(names@)[m] == n);
                }
                if texts(names@).contains(n) {
                    let m = choose|m: int| 0 <= m < texts(names@).len() && texts(names@)[m] == n;
                    assert(names@[m]@ == n);
                }
            }
        }
        Ok(())
    }

    /// Some person of the item `item` is named `name`.
    pub open spec fn person_named_on(self, item: Seq<char>, name: Seq<char>) -> bool {
        exists|i: int|
            0 <= i < self.item_people@.len() && #[trigger] self.item_people@[i].entry_item_id@ == item
                && self.person_with_id(self.item_people@[i].person_id@).name@ == name
    }

    pub proof fn lemma_person_ids_stable(a: Database, b: Database)
        requires
            a.wf(),
            b.wf(),
            grows(a.people@, b.people@),
        ensures
            forall|x: Seq<char>| a.has_person(x) ==> #[trigger] b.person_with_id(x) == a.person_with_id(x),
    {
        assert forall|x: Seq<char>| a.has_person(x) implies #[trigger] b.person_with_id(x) == a.person_with_id(x) by {
            let c = choose|c: int| 0 <= c < a.people@.len() && #[trigger] a.people@[c].id@ == x;
            a.lemma_person_at(c);
            assert(b.people@[c] == a.people@[c]);
            b.lemma_person_at(c);
        }
    }

    /// Replaces the people of the item `entry_item_id` by those named in
    /// `names`, creating any that do not exist yet. People are never deleted.
    pub fn replace_item_people(&mut self, entry_item_id: &str, names: &Vec<String>) -> (r: Result<(), LogbookError>)
        requires
            old(self).wf(),
        ensures
            final(self).wf(),
            old(self).has_item(entry_item_id@) && (forall|k: int| 0 <= k < names@.len() ==> old(self).has_person_named(#[trigger] names@[k]@))
                ==> r is Ok && final(self).people@ == old(self).people@,
            grows(old(self).people@, final(self).people@),
            r is Ok ==> forall|n: Seq<char>| #[trigger] final(self).person_named_on(entry_item_id@, n)
                <==> texts(names@).contains(n),
            r is Ok ==> forall|i: int| 0 <= i < final(self).item_people@.len() && #[trigger] final(self).item_people@[i].entry_item_id@ == entry_item_id@
                ==> final(self).has_person(final(self).item_people@[i].person_id@),
            forall|l: ItemPerson| l.entry_item_id@ != entry_item_id@ ==> (#[trigger] final(self).item_people@.contains(l)
                <==> old(self).item_people@.contains(l)),
            old(self).has_item(entry_item_id@) && r is Err ==> r == Err::<(), LogbookError>(LogbookError::Conflict),
            !old(self).has_item(entry_item_id@) && names@.len() > 0 ==> r is Err,
            final(self).entries@ == old(self).entries@,
            final(self).items@ == old(self).items@,
            final(self).tags@ == old(self).tags@,
            final(self).jira_refs@ == old(self).jira_refs@,
            final(self).item_tags@ == old(self).item_tags@,
            final(self).projects@ == old(self).projects@,
            final(self).meetings@ == old(self).meetings@,
            final(self).attendees@ == old(self).attendees@,
            final(self).actions@ == old(self).actions@,
    {
        let ghost start = *self;
        self.remove_item_people(entry_item_id);
        proof {
            lemma_filter_contains_iff(start.item_people@, person_link_not_of_item(entry_item_id@));
            lemma_filter_members(start.item_people@, person_link_not_of_item(entry_item_id@));
            assert forall|n: Seq<char>| #[trigger] self.person_named_on(entry_item_id@, n)
                <==> exists|k: int| 0 <= k < 0 && names@[k]@ == n by {
                if self.person_named_on(entry_item_id@, n) {
                    let i = choose|i: int| 0 <= i < self.item_people@.len() && #[trigger] self.item_people@[i].entry_item_id@ == entry_item_id@
                        && self.person_with_id(self.item_people@[i].person_id@).name@ == n;
                    assert(person_link_not_of_item(entry_item_id@)(self.item_people@[i]));
                }
            }
        }
        let mut k: usize = 0;
        while k < names.len()
            invariant
                self.wf(),
                start.wf(),
                start == *old(self),
                k <= names@.len(),
                self.items@ == start.items@,
                grows(start.people@, self.people@),
                self.entries@ == start.entries@,
                self.tags@ == start.tags@,
                self.jira_refs@ == start.jira_refs@,
                self.item_tags@ == start.item_tags@,
                self.projects@ == start.projects@,
                self.meetings@ == start.meetings@,
                self.attendees@ == start.attendees@,
                self.actions@ == start.actions@,
                start.has_item(entry_item_id@) && (forall|m: int| 0 <= m < names@.len() ==> start.has_person_named(#[trigger] names@[m]@))
                    ==> self.people@ == start.people@,
                k > 0 ==> start.has_item(entry_item_id@),
                forall|l: ItemPerson| l.entry_item_id@ != entry_item_id@ ==> (#[trigger] self.item_people@.contains(l)
                    <==> start.item_people@.contains(l)),
                forall|n: Seq<char>| #[trigger] self.person_named_on(entry_item_id@, n)
                    <==> exists|m: int| 0 <= m < k && names@[m]@ == n,
            decreases names@.len() - k,
        {
            let ghost cur = *self;
            proof {
                if start.has_item(entry_item_id@) && (forall|m: int| 0 <= m < names@.len() ==> start.has_person_named(#[trigger] names@[m]@)) {
                    assert(start.has_person_named(names@[k as int]@));
                    let w = choose|w: int| 0 <= w < start.people@.len() && #[trigger] start.people@[w].name@ == names@[k as int]@;
                    assert(cur.people@[w].name@ == names@[k as int]@);
                }
            }
            let found = self.get_or_create_person(names[k].as_str());
            let t = match found {
                Ok(t) => t,
                Err(e) => {
                    proof {
                        Database::lemma_same_items(start, cur);
                        assert(!cur.has_person_named(names@[k as int]@));
                        assert(self.people@ == cur.people@);
                        assert(grows(start.people@, self.people@));
                        assert(e == LogbookError::Conflict);
                    }
                    return Err(e);
                },
            };
            let ghost mid = *self;
            proof {
                if cur.has_person_named(names@[k as int]@) {
                    assert(mid.people@ == cur.people@);
                } else {
                    assert(mid.people@[cur.people@.len() as int] == t);
                }
                assert(grows(cur.people@, mid.people@));
                lemma_grows_trans(start.people@, cur.people@, mid.people@);
            }
            let linked = self.link_item_person(entry_item_id, t.id.as_str());
            proof {
                Database::lemma_same_items(start, cur);
                Database::lemma_same_items(cur, mid);
                Database::lemma_person_ids_stable(cur, mid);
                let c = choose|c: int| 0 <= c < mid.people@.len() && mid.people@[c] == t;
                mid.lemma_person_at(c);
                assert(mid.has_person(t.id@));
            }
            proof {
                assert forall|l: ItemPerson| l.entry_item_id@ != entry_item_id@ implies (#[trigger] self.item_people@.contains(l)
                    <==> cur.item_people@.contains(l)) by {
                    if linked.is_ok() && !mid.has_person_link(entry_item_id@, t.id@) {
                        assert(self.item_people@ == mid.item_people@.push(self.item_people@.last())) by {
                            assert(self.item_people@ =~= self.item_people@.drop_last().push(self.item_people@.last()));
                        }
                        if self.item_people@.contains(l) {
                            let i = choose|i: int| 0 <= i < self.item_people@.len() && self.item_people@[i] == l;
                            if i < mid.item_people@.len() {
                                assert(mid.item_people@[i] == l);
                            }
                        }
                        if mid.item_people@.contains(l) {
                            let i = choose|i: int| 0 <= i < mid.item_people@.len() && mid.item_people@[i] == l;
                            assert(self.item_people@[i] == l);
                        }
                    }
                }
            }
            if linked.is_err() {
                proof {
                    assert(!mid.has_item(entry_item_id@));
                    assert(!start.has_item(entry_item_id@));
                    assert(grows(start.people@, self.people@));
                }
                return Err(LogbookError::Referential);
            }
            proof {
                let gone = names@[k as int]@;
                assert(self.people@ == mid.people@);
                Database::lemma_same_people(mid, *self);
                assert forall|n: Seq<char>| #[trigger] self.person_named_on(entry_item_id@, n)
                    <==> exists|m: int| 0 <= m < k + 1 && names@[m]@ == n by {
                    if self.person_named_on(entry_item_id@, n) {
                        let i = choose|i: int| 0 <= i < self.item_people@.len() && #[trigger] self.item_people@[i].entry_item_id@ == entry_item_id@
                            && self.person_with_id(self.item_people@[i].person_id@).name@ == n;
                        if i < cur.item_people@.len() {
                            assert(self.item_people@[i] == cur.item_people@[i]);
                            assert(cur.has_person(cur.item_people@[i].person_id@));
                            assert(cur.person_named_on(entry_item_id@, n));
                            let m = choose|m: int| 0 <= m < k && names@[m]@ == n;
                            assert(0 <= m < k + 1 && names@[m]@ == n);
                        } else {
                            assert(self.item_people@[i].person_id@ == t.id@);
                            assert(names@[k as int]@ == n);
                        }
                    }
                    if exists|m: int| 0 <= m < k + 1 && names@[m]@ == n {
                        let m = choose|m: int| 0 <= m < k + 1 && names@[m]@ == n;
                        if m < k {
                            assert(cur.person_named_on(entry_item_id@, n));
                            let i = choose|i: int| 0 <= i < cur.item_people@.len() && #[trigger] cur.item_people@[i].entry_item_id@ == entry_item_id@
                                && cur.person_with_id(cur.item_people@[i].person_id@).name@ == n;
                            assert(cur.has_person(cur.item_people@[i].person_id@));
                            assert(self.item_people@[i] == cur.item_people@[i]);
                            assert(self.person_with_id(self.item_people@[i].person_id@).name@ == n);
                        } else {
                            assert(self.has_person_link(entry_item_id@, t.id@));
                            let i = choose|i: int| 0 <= i < self.item_people@.len() && #[trigger] self.item_people@[i].entry_item_id@ == entry_item_id@
                                && self.item_people@[i].person_id@ == t.id@;
                            assert(self.person_with_id(self.item_people@[i].person_id@).name@ == n);
                        }
                    }
                }
            }
            k = k + 1;
        }
        proof {
            assert forall|i: int| 0 <= i < self.item_people@.len() && #[trigger] self.item_people@[i].entry_item_id@ == entry_item_id@
                implies self.has_person(self.item_people@[i].person_id@) by {
            }
        }
        proof {
            assert forall|n: Seq<char>| #[trigger] self.person_named_on(entry_item_id@, n) <==> texts(names@).contains(n) by {
                if exists|m: int| 0 <= m < names@.len() && names@[m]@ == n {
                    let m = choose|m: int| 0 <= m < names@.len() && names@[m]@ == n;
                    assert(texts(names@)[m] == n);
                }
                if texts(names@).contains(n) {
                    let m = choose|m: int| 0 <= m < texts(names@).len() && texts(names@)[m] == n;
                    assert(names@[m]@ == n);
                }
            }
        }
        Ok(())
    }

    /// The issue keys of the item `item`, in table order.
    pub open spec fn jira_keys_of(self, item: Seq<char>) -> Seq<Seq<char>> {
        Seq::new(self.jira_refs_of(item).len(), |k: int| self.jira_refs_of(item)[k].jira_key@)
    }

    /// Replaces the issue references of the item `entry_item_id` by one for
    /// each key of `keys`, in that order.
    pub fn replace_item_jira_refs(&mut self, entry_item_id: &str, keys: &Vec<String>) -> (r: Result<(), LogbookError>)
        requires
            old(self).wf(),
        ensures
            final(self).wf(),
            keys@.len() == 0 ==> r is Ok,
            r is Ok ==> final(self).jira_keys_of(entry_item_id@) == texts(keys@),
            forall|j: JiraRef| j.entry_item_id@ != entry_item_id@ ==> (#[trigger] final(self).jira_refs@.contains(j)
                <==> old(self).jira_refs@.contains(j)),
            forall|x: Seq<char>| x != entry_item_id@ ==> #[trigger] final(self).jira_refs_of(x) == old(self).jira_refs_of(x),
            old(self).has_item(entry_item_id@) && r is Err ==> r == Err::<(), LogbookError>(LogbookError::Conflict),
            !old(self).has_item(entry_item_id@) && keys@.len() > 0 ==> r == Err::<(), LogbookError>(LogbookError::Referential),
            final(self).entries@ == old(self).entries@,
            final(self).items@ == old(self).items@,
            final(self).tags@ == old(self).tags@,
            final(self).people@ == old(self).people@,
            final(self).item_tags@ == old(self).item_tags@,
            final(self).item_people@ == old(self).item_people@,
            final(self).projects@ == old(self).projects@,
            final(self).meetings@ == old(self).meetings@,
            final(self).attendees@ == old(self).attendees@,
            final(self).actions@ == old(self).actions@,
    {
        let ghost start = *self;
        self.remove_item_jira_refs(entry_item_id);
        proof {
            assert forall|x: Seq<char>| x != entry_item_id@ implies #[trigger] self.jira_refs_of(x) == start.jira_refs_of(x) by {
                lemma_filter_filter(start.jira_refs@, jira_ref_of_item(x), jira_ref_not_of_item(entry_item_id@));
            }
            lemma_filter_contains_iff(start.jira_refs@, jira_ref_not_of_item(entry_item_id@));
            let p = jira_ref_not_of_item(entry_item_id@);
            lemma_filter_members(start.jira_refs@, p);
            lemma_filter_members(self.jira_refs@, jira_ref_of_item(entry_item_id@));
            if self.jira_refs_of(entry_item_id@).len() > 0 {
                let j = self.jira_refs_of(entry_item_id@)[0];
                assert(self.jira_refs@.contains(j));
                let c = choose|c: int| 0 <= c < self.jira_refs@.len() && self.jira_refs@[c] == j;
                assert(p(self.jira_refs@[c]));
            }
            assert(self.jira_keys_of(entry_item_id@) =~= texts(keys@).take(0));
        }
        let mut k: usize = 0;
        while k < keys.len()
            invariant
                self.wf(),
                start.wf(),
                start == *old(self),
                k <= keys@.len(),
                self.items@ == start.items@,
                self.entries@ == start.entries@,
                self.tags@ == start.tags@,
                self.people@ == start.people@,
                self.item_tags@ == start.item_tags@,
                self.item_people@ == start.item_people@,
                self.projects@ == start.projects@,
                self.meetings@ == start.meetings@,
                self.attendees@ == start.attendees@,
                self.actions@ == start.actions@,
                k > 0 ==> start.has_item(entry_item_id@),
                forall|j: JiraRef| j.entry_item_id@ != entry_item_id@ ==> (#[trigger] self.jira_refs@.contains(j)
                    <==> start.jira_refs@.contains(j)),
                forall|x: Seq<char>| x != entry_item_id@ ==> #[trigger] self.jira_refs_of(x) == start.jira_refs_of(x),
                self.jira_keys_of(entry_item_id@) == texts(keys@).take(k as int),
            decreases keys@.len() - k,
        {
            let ghost cur = *self;
            proof {
                Database::lemma_same_items(start, cur);
            }
            let made = self.create_jira_ref(entry_item_id, keys[k].as_str());
            match made {
                Ok(j) => {
                    proof {
                        let item = entry_item_id@;
                        cur.jira_refs@.lemma_filter_push(j, jira_ref_of_item(item));
                        let f0 = cur.jira_refs_of(item);
                        assert(self.jira_refs_of(item) == f0.push(j));
                        assert(cur.jira_keys_of(item).len() == k);
                        assert forall|m: int| 0 <= m < k + 1 implies #[trigger] self.jira_keys_of(item)[m] == texts(keys@).take(k + 1)[m] by {
                            if m < k {
                                assert(self.jira_refs_of(item)[m] == f0[m]);
                                assert(cur.jira_keys_of(item)[m] == texts(keys@).take(k as int)[m]);
                            }
                        }
                        assert(self.jira_keys_of(item) =~= texts(keys@).take(k + 1));
                        assert forall|x: Seq<char>| x != item implies #[trigger] self.jira_refs_of(x) == cur.jira_refs_of(x) by {
                            cur.jira_refs@.lemma_filter_push(j, jira_ref_of_item(x));
                        }
                        assert forall|x: JiraRef| x.entry_item_id@ != item implies (#[trigger] self.jira_refs@.contains(x)
                            <==> cur.jira_refs@.contains(x)) by {
                            if self.jira_refs@.contains(x) {
                                let i = choose|i: int| 0 <= i < self.jira_refs@.len() && self.jira_refs@[i] == x;
                                if i < cur.jira_refs@.len() {
                                    assert(cur.jira_refs@[i] == x);
                                }
                            }
                            if cur.jira_refs@.contains(x) {
                                let i = choose|i: int| 0 <= i < cur.jira_refs@.len() && cur.jira_refs@[i] == x;
                                assert(self.jira_refs@[i] == x);
                            }
                        }
                    }
                },
                Err(e) => {
                    proof {
                        assert forall|x: Seq<char>| x != entry_item_id@ implies #[trigger] self.jira_refs_of(x)
                            == start.jira_refs_of(x) by {
                            assert(cur.jira_refs_of(x) == start.jira_refs_of(x));
                        }
                    }
                    return Err(e);
                },
            }
            k = k + 1;
        }
        proof {
            assert(texts(keys@).take(k as int) =~= texts(keys@));
        }
        Ok(())
    }

    /// Adding tags and keeping the item's tag links keeps the names of the
    /// tags of the item `x`.
    pub proof fn lemma_tag_names_kept(a: Database, b: Database, x: Seq<char>)
        requires
            a.wf(),
            b.wf(),
            grows(a.tags@, b.tags@),
            forall|l: ItemTag| l.entry_item_id@ == x ==> (#[trigger] b.item_tags@.contains(l) <==> a.item_tags@.contains(l)),
        ensures
            forall|n: Seq<char>| #[trigger] b.tag_named_on(x, n) <==> a.tag_named_on(x, n),
    {
        Database::lemma_tag_ids_stable(a, b);
        assert forall|n: Seq<char>| #[trigger] b.tag_named_on(x, n) <==> a.tag_named_on(x, n) by {
            if a.tag_named_on(x, n) {
                let i = choose|i: int| 0 <= i < a.item_tags@.len() && #[trigger] a.item_tags@[i].entry_item_id@ == x
                    && a.tag_with_id(a.item_tags@[i].tag_id@).name@ == n;
                let l = a.item_tags@[i];
                assert(a.item_tags@.contains(l));
                assert(a.has_tag(l.tag_id@));
                assert(b.item_tags@.contains(l));
                let j = choose|j: int| 0 <= j < b.item_tags@.len() && b.item_tags@[j] == l;
                assert(b.item_tags@[j].entry_item_id@ == x);
            }
            if b.tag_named_on(x, n) {
                let j = choose|j: int| 0 <= j < b.item_tags@.len() && #[trigger] b.item_tags@[j].entry_item_id@ == x
                    && b.tag_with_id(b.item_tags@[j].tag_id@).name@ == n;
                let l = b.item_tags@[j];
                assert(b.item_tags@.contains(l));
                assert(a.item_tags@.contains(l));
                let i = choose|i: int| 0 <= i < a.item_tags@.len() && a.item_tags@[i] == l;
                assert(a.has_tag(a.item_tags@[i].tag_id@));
                assert(a.item_tags@[i].entry_item_id@ == x);
            }
        }
    }

    /// Adding people and keeping the item's person links keeps the names of
    /// the people of the item `x`.
    pub proof fn lemma_person_names_kept(a: Database, b: Database, x: Seq<char>)
        requires
            a.wf(),
            b.wf(),
            grows(a.people@, b.people@),
            forall|l: ItemPerson| l.entry_item_id@ == x ==> (#[trigger] b.item_people@.contains(l) <==> a.item_people@.contains(l)),
        ensures
            forall|n: Seq<char>| #[trigger] b.person_named_on(x, n) <==> a.person_named_on(x, n),
    {
        Database::lemma_person_ids_stable(a, b);
        assert forall|n: Seq<char>| #[trigger] b.person_named_on(x, n) <==> a.person_named_on(x, n) by {
            if a.person_named_on(x, n) {
                let i = choose|i: int| 0 <= i < a.item_people@.len() && #[trigger] a.item_people@[i].entry_item_id@ == x
                    && a.person_with_id(a.item_people@[i].person_id@).name@ == n;
                let l = a.item_people@[i];
                assert(a.item_people@.contains(l));
                assert(a.has_person(l.person_id@));
                assert(b.item_people@.contains(l));
                let j = choose|j: int| 0 <= j < b.item_people@.len() && b.item_people@[j] == l;
                assert(b.item_people@[j].entry_item_id@ == x);
            }
            if b.person_named_on(x, n) {
                let j = choose|j: int| 0 <= j < b.item_people@.len() && #[trigger] b.item_people@[j].entry_item_id@ == x
                    && b.person_with_id(b.item_people@[j].person_id@).name@ == n;
                let l = b.item_people@[j];
                assert(b.item_people@.contains(l));
                assert(a.item_people@.contains(l));
                let i = choose|i: int| 0 <= i < a.item_people@.len() && a.item_people@[i] == l;
                assert(a.has_person(a.item_people@[i].person_id@));
                assert(a.item_people@[i].entry_item_id@ == x);
            }
        }
    }

    /// Adding items keeps the item `x` as it was.
    pub proof fn lemma_item_row_kept(a: Database, b: Database, x: Seq<char>)
        requires
            a.wf(),
            b.wf(),
            grows(a.items@, b.items@),
            a.has_item(x),
        ensures
            b.has_item(x),
            b.item_with_id(x) == a.item_with_id(x),
    {
        let c = choose|c: int| 0 <= c < a.items@.len() && #[trigger] a.items@[c].id@ == x;
        a.lemma_item_at(c);
        assert(b.items@[c] == a.items@[c]);
        b.lemma_item_at(c);
    }

    /// Operations that only add rows and keep the links of the item `x` keep
    /// everything known of that item.
    pub proof fn lemma_item_kept(a: Database, b: Database, x: Seq<char>)
        requires
            a.wf(),
            b.wf(),
            grows(a.items@, b.items@),
            grows(a.tags@, b.tags@),
            grows(a.people@, b.people@),
            forall|l: ItemTag| l.entry_item_id@ == x ==> (#[trigger] b.item_tags@.contains(l) <==> a.item_tags@.contains(l)),
            forall|l: ItemPerson| l.entry_item_id@ == x ==> (#[trigger] b.item_people@.contains(l) <==> a.item_people@.contains(l)),
            b.jira_refs_of(x) == a.jira_refs_of(x),
            a.has_item(x),
        ensures
            b.has_item(x),
            b.item_with_id(x) == a.item_with_id(x),
            forall|n: Seq<char>| #[trigger] b.tag_named_on(x, n) <==> a.tag_named_on(x, n),
            forall|n: Seq<char>| #[trigger] b.person_named_on(x, n) <==> a.person_named_on(x, n),
            b.jira_keys_of(x) == a.jira_keys_of(x),
    {
        Database::lemma_item_row_kept(a, b, x);
        Database::lemma_tag_names_kept(a, b, x);
        Database::lemma_person_names_kept(a, b, x);
        assert(b.jira_keys_of(x) =~= a.jira_keys_of(x));
    }

}

} // verus!
