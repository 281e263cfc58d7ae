//! The rows of the store's tables and of its aggregated views.

use vstd::prelude::*;
use crate::time::{Timestamp, at_or_before, is_at_or_before, lemma_instant_order};
use crate::order::{Ranked, text_at_or_before, text_is_at_or_before, lemma_text_total, lemma_text_transitive};

verus! {

/// The characters of an optional text.
pub open spec fn text_view(o: Option<String>) -> Option<Seq<char>> {
    match o {
        Some(s) => Some(s@),
        None => None,
    }
}

/// The characters of an optional borrowed text.
pub open spec fn str_view(o: Option<&str>) -> Option<Seq<char>> {
    match o {
        Some(s) => Some(s@),
        None => None,
    }
}

/// An owned copy of an optional borrowed text.
pub fn owned_text(o: Option<&str>) -> (r: Option<String>)
    ensures
        text_view(r) == str_view(o),
{
    match o {
        Some(s) => Some(s.to_owned()),
        None => None,
    }
}

/// A copy of an optional text.
pub fn copy_text(o: &Option<String>) -> (r: Option<String>)
    ensures
        r == *o,
{
    match o {
        Some(s) => Some(s.clone()),
        None => None,
    }
}

/// A timestamped container of logbook items.
#[derive(Debug)]
pub struct Entry {
    pub id: String,
    pub timestamp: Timestamp,
    pub created_at: Timestamp,
    pub updated_at: Timestamp,
}

impl Clone for Entry {
    fn clone(&self) -> (r: Self)
        ensures
            r == *self,
    {
        Entry {
            id: self.id.clone(),
            timestamp: self.timestamp,
            created_at: self.created_at,
            updated_at: self.updated_at,
        }
    }
}

/// One typed note, action, decision or meeting reference of an entry.
#[derive(Debug)]
pub struct EntryItem {
    pub id: String,
    pub entry_id: String,
    pub item_type: String,
    pub content: String,
    pub project: Option<String>,
    pub created_at: Timestamp,
    pub updated_at: Timestamp,
}

impl Clone for EntryItem {
    fn clone(&self) -> (r: Self)
        ensures
            r == *self,
    {
        EntryItem {
            id: self.id.clone(),
            entry_id: self.entry_id.clone(),
            item_type: self.item_type.clone(),
            content: self.content.clone(),
            project: copy_text(&self.project),
            created_at: self.created_at,
            updated_at: self.updated_at,
        }
    }
}

/// A label attached to items; its name is unique.
#[derive(Debug)]
pub struct Tag {
    pub id: String,
    pub name: String,
    pub description: Option<String>,
    pub color: String,
    pub category: Option<String>,
    pub created_at: Timestamp,
    pub updated_at: Timestamp,
}

impl Clone for Tag {
    fn clone(&self) -> (r: Self)
        ensures
            r == *self,
    {
        Tag {
            id: self.id.clone(),
            name: self.name.clone(),
            description: copy_text(&self.description),
            color: self.color.clone(),
            category: copy_text(&self.category),
            created_at: self.created_at,
            updated_at: self.updated_at,
        }
    }
}

/// A person mentioned by items; the name is unique.
#[derive(Debug)]
pub struct Person {
    pub id: String,
    pub name: String,
    pub created_at: Timestamp,
}

impl Clone for Person {
    fn clone(&self) -> (r: Self)
        ensures
            r == *self,
    {
        Person {
            id: self.id.clone(),
            name: self.name.clone(),
            created_at: self.created_at,
        }
    }
}

/// A reference from an item to an issue-tracker key.
#[derive(Debug)]
pub struct JiraRef {
    pub id: String,
    pub entry_item_id: String,
    pub jira_key: String,
    pub created_at: Timestamp,
}

impl Clone for JiraRef {
    fn clone(&self) -> (r: Self)
        ensures
            r == *self,
    {
        JiraRef {
            id: self.id.clone(),
            entry_item_id: self.entry_item_id.clone(),
            jira_key: self.jira_key.clone(),
            created_at: self.created_at,
        }
    }
}

/// A row of the item-to-tag join table.
#[derive(Debug)]
pub struct ItemTag {
    pub entry_item_id: String,
    pub tag_id: String,
}

impl Clone for ItemTag {
    fn clone(&self) -> (r: Self)
        ensures
            r == *self,
    {
        ItemTag {
            entry_item_id: self.entry_item_id.clone(),
            tag_id: self.tag_id.clone(),
        }
    }
}

/// A row of the item-to-person join table.
#[derive(Debug)]
pub struct ItemPerson {
    pub entry_item_id: String,
    pub person_id: String,
}

impl Clone for ItemPerson {
    fn clone(&self) -> (r: Self)
        ensures
            r == *self,
    {
        ItemPerson {
            entry_item_id: self.entry_item_id.clone(),
            person_id: self.person_id.clone(),
        }
    }
}

/// A project; items name projects as free text.
#[derive(Debug)]
pub struct Project {
    pub id: String,
    pub name: String,
    pub description: Option<String>,
    pub color: String,
    pub created_at: Timestamp,
    pub updated_at: Timestamp,
}

impl Clone for Project {
    fn clone(&self) -> (r: Self)
        ensures
            r == *self,
    {
        Project {
            id: self.id.clone(),
            name: self.name.clone(),
            description: copy_text(&self.description),
            color: self.color.clone(),
            created_at: self.created_at,
            updated_at: self.updated_at,
        }
    }
}

/// A meeting, which owns its attendees and its actions.
#[derive(Debug)]
pub struct Meeting {
    pub id: String,
    pub title: String,
    pub description: Option<String>,
    pub start_time: Option<Timestamp>,
    pub end_time: Option<Timestamp>,
    pub location: Option<String>,
    pub meeting_type: String,
    pub status: String,
    pub created_at: Timestamp,
    pub updated_at: Timestamp,
}

impl Clone for Meeting {
    fn clone(&self) -> (r: Self)
        ensures
            r == *self,
    {
        Meeting {
            id: self.id.clone(),
            title: self.title.clone(),
            description: copy_text(&self.description),
            start_time: self.start_time,
            end_time: self.end_time,
            location: copy_text(&self.location),
            meeting_type: self.meeting_type.clone(),
            status: self.status.clone(),
            created_at: self.created_at,
            updated_at: self.updated_at,
        }
    }
}

/// Someone invited to a meeting.
#[derive(Debug)]
pub struct MeetingAttendee {
    pub id: String,
    pub meeting_id: String,
    pub name: String,
    pub email: Option<String>,
    pub role: String,
    pub status: String,
    pub created_at: Timestamp,
}

impl Clone for MeetingAttendee {
    fn clone(&self) -> (r: Self)
        ensures
            r == *self,
    {
        MeetingAttendee {
            id: self.id.clone(),
            meeting_id: self.meeting_id.clone(),
            name: self.name.clone(),
            email: copy_text(&self.email),
            role: self.role.clone(),
            status: self.status.clone(),
            created_at: self.created_at,
        }
    }
}

/// A follow-up of a meeting, possibly tied to an entry item.
#[derive(Debug)]
pub struct MeetingAction {
    pub id: String,
    pub meeting_id: String,
    pub entry_item_id: Option<String>,
    pub title: String,
    pub description: Option<String>,
    pub assignee: Option<String>,
    pub due_date: Option<Timestamp>,
    pub status: String,
    pub priority: String,
    pub created_at: Timestamp,
    pub updated_at: Timestamp,
}

impl Clone for MeetingAction {
    fn clone(&self) -> (r: Self)
        ensures
            r == *self,
    {
        MeetingAction {
            id: self.id.clone(),
            meeting_id: self.meeting_id.clone(),
            entry_item_id: copy_text(&self.entry_item_id),
            title: self.title.clone(),
            description: copy_text(&self.description),
            assignee: copy_text(&self.assignee),
            due_date: self.due_date,
            status: self.status.clone(),
            priority: self.priority.clone(),
            created_at: self.created_at,
            updated_at: self.updated_at,
        }
    }
}

/// An item together with the tags, people and issue references attached to it.
#[derive(Debug)]
pub struct EntryItemWithMetadata {
    pub item: EntryItem,
    pub tags: Vec<Tag>,
    pub people: Vec<Person>,
    pub jira_refs: Vec<JiraRef>,
}

/// An entry together with its items.
#[derive(Debug)]
pub struct EntryWithItems {
    pub entry: Entry,
    pub items: Vec<EntryItemWithMetadata>,
}

/// Entries list the latest event first.
impl Ranked for Entry {
    open spec fn goes_before(&self, other: &Self) -> bool {
        at_or_before(other.timestamp, self.timestamp)
    }

    proof fn lemma_total(a: &Self, b: &Self) {
        lemma_instant_order(a.timestamp, b.timestamp, b.timestamp);
    }

    proof fn lemma_transitive(a: &Self, b: &Self, c: &Self) {
        lemma_instant_order(a.timestamp, b.timestamp, c.timestamp);
        lemma_instant_order(c.timestamp, b.timestamp, a.timestamp);
    }

    fn may_go_before(&self, other: &Self) -> (r: bool) {
        is_at_or_before(&other.timestamp, &self.timestamp)
    }
}

/// Items list the earliest created first.
impl Ranked for EntryItem {
    open spec fn goes_before(&self, other: &Self) -> bool {
        at_or_before(self.created_at, other.created_at)
    }

    proof fn lemma_total(a: &Self, b: &Self) {
        lemma_instant_order(a.created_at, b.created_at, b.created_at);
    }

    proof fn lemma_transitive(a: &Self, b: &Self, c: &Self) {
        lemma_instant_order(a.created_at, b.created_at, c.created_at);
        lemma_instant_order(c.created_at, b.created_at, a.created_at);
    }

    fn may_go_before(&self, other: &Self) -> (r: bool) {
        is_at_or_before(&self.created_at, &other.created_at)
    }
}

/// Tags list by name.
impl Ranked for Tag {
    open spec fn goes_before(&self, other: &Self) -> bool {
        text_at_or_before(self.name@, other.name@)
    }

    proof fn lemma_total(a: &Self, b: &Self) {
        lemma_text_total(a.name@, b.name@);
    }

    proof fn lemma_transitive(a: &Self, b: &Self, c: &Self) {
        lemma_text_transitive(a.name@, b.name@, c.name@);
    }

    fn may_go_before(&self, other: &Self) -> (r: bool) {
        text_is_at_or_before(self.name.as_str(), other.name.as_str())
    }
}

/// Projects list by name.
impl Ranked for Project {
    open spec fn goes_before(&self, other: &Self) -> bool {
        text_at_or_before(self.name@, other.name@)
    }

    proof fn lemma_total(a: &Self, b: &Self) {
        lemma_text_total(a.name@, b.name@);
    }

    proof fn lemma_transitive(a: &Self, b: &Self, c: &Self) {
        lemma_text_transitive(a.name@, b.name@, c.name@);
    }

    fn may_go_before(&self, other: &Self) -> (r: bool) {
        text_is_at_or_before(self.name.as_str(), other.name.as_str())
    }
}

/// Attendees list by name.
impl Ranked for MeetingAttendee {
    open spec fn goes_before(&self, other: &Self) -> bool {
        text_at_or_before(self.name@, other.name@)
    }

    proof fn lemma_total(a: &Self, b: &Self) {
        lemma_text_total(a.name@, b.name@);
    }

    proof fn lemma_transitive(a: &Self, b: &Self, c: &Self) {
        lemma_text_transitive(a.name@, b.name@, c.name@);
    }

    fn may_go_before(&self, other: &Self) -> (r: bool) {
        text_is_at_or_before(self.name.as_str(), other.name.as_str())
    }
}

/// Actions list the latest created first.
impl Ranked for MeetingAction {
    open spec fn goes_before(&self, other: &Self) -> bool {
        at_or_before(other.created_at, self.created_at)
    }

    proof fn lemma_total(a: &Self, b: &Self) {
        lemma_instant_order(a.created_at, b.created_at, b.created_at);
    }

    proof fn lemma_transitive(a: &Self, b: &Self, c: &Self) {
        lemma_instant_order(a.created_at, b.created_at, c.created_at);
        lemma_instant_order(c.created_at, b.created_at, a.created_at);
    }

    fn may_go_before(&self, other: &Self) -> (r: bool) {
        is_at_or_before(&other.created_at, &self.created_at)
    }
}

/// Meetings list the latest start first; those without a start come last.
impl Ranked for Meeting {
    open spec fn goes_before(&self, other: &Self) -> bool {
        match (self.start_time, other.start_time) {
            (Some(x), Some(y)) => at_or_before(y, x),
            (Some(_), None) => true,
            (None, Some(_)) => false,
            (None, None) => true,
        }
    }

    proof fn lemma_total(a: &Self, b: &Self) {
        if let (Some(x), Some(y)) = (a.start_time, b.start_time) {
            lemma_instant_order(x, y, y);
        }
    }

    proof fn lemma_transitive(a: &Self, b: &Self, c: &Self) {
        if let (Some(x), Some(y), Some(z)) = (a.start_time, b.start_time, c.start_time) {
            lemma_instant_order(z, y, x);
        }
    }

    fn may_go_before(&self, other: &Self) -> (r: bool) {
        match (&self.start_time, &other.start_time) {
            (Some(x), Some(y)) => is_at_or_before(y, x),
            (Some(_), None) => true,
            (None, Some(_)) => false,
            (None, None) => true,
        }
    }
}

} // verus!
