//! The command surface: one call per logical operation, taking requests
//! and giving responses or a message that names the step that failed.
//! Callers serialise calls; each command runs against the store alone.

use vstd::prelude::*;
use vstd::string::StringExecFns;
use crate::rows::{Tag, Project, Meeting, MeetingAttendee, MeetingAction, EntryItemWithMetadata,
    EntryWithItems, copy_text, text_view};
use crate::store::{Database, LogbookError, texts};
use crate::rows::{ItemTag, ItemPerson};
use crate::table::{grows, lemma_grows_trans};
use crate::time::{Timestamp, rfc3339_text, rfc3339_instant, format_rfc3339, parse_rfc3339};
use crate::export::{tag_names, person_names, jira_keys, names_of_tags, names_of_people, keys_of_jira_refs,
    csv_text, markdown_text, entries_csv, entries_markdown};

verus! {

/// A new entry: its event time as RFC 3339 text, and its items.
#[derive(Debug)]
pub struct CreateEntryRequest {
    pub timestamp: String,
    pub items: Vec<CreateItemRequest>,
}

/// A new item with the names of its tags and people and its issue keys.
#[derive(Debug)]
pub struct CreateItemRequest {
    pub item_type: String,
    pub content: String,
    pub project: Option<String>,
    pub tags: Vec<String>,
    pub jira: Vec<String>,
    pub people: Vec<String>,
}

/// An entry as the command surface shows it.
#[derive(Debug)]
pub struct EntryResponse {
    pub id: String,
    pub timestamp: String,
    pub items: Vec<ItemResponse>,
}

/// An item as the command surface shows it.
#[derive(Debug)]
pub struct ItemResponse {
    pub id: String,
    pub item_type: String,
    pub content: String,
    pub project: Option<String>,
    pub tags: Vec<String>,
    pub jira: Vec<String>,
    pub people: Vec<String>,
}

/// A new project.
#[derive(Debug)]
pub struct CreateProjectRequest {
    pub name: String,
    pub description: Option<String>,
    pub color: Option<String>,
}

/// The fields of a project to write; absent ones stay.
#[derive(Debug)]
pub struct UpdateProjectRequest {
    pub id: String,
    pub name: Option<String>,
    pub description: Option<String>,
    pub color: Option<String>,
}

/// A project as the command surface shows it.
#[derive(Debug)]
pub struct ProjectResponse {
    pub id: String,
    pub name: String,
    pub description: Option<String>,
    pub color: String,
    pub created_at: String,
    pub updated_at: String,
}

/// A new tag.
#[derive(Debug)]
pub struct CreateTagRequest {
    pub name: String,
    pub description: Option<String>,
    pub color: Option<String>,
    pub category: Option<String>,
}

/// The fields of a tag to write; absent ones stay.
#[derive(Debug)]
pub struct UpdateTagRequest {
    pub id: String,
    pub name: Option<String>,
    pub description: Option<String>,
    pub color: Option<String>,
    pub category: Option<String>,
}

/// A tag as the command surface shows it.
#[derive(Debug)]
pub struct TagResponse {
    pub id: String,
    pub name: String,
    pub description: Option<String>,
    pub color: String,
    pub category: Option<String>,
    pub created_at: String,
    pub updated_at: String,
}

/// The parts of an item to change; tag, issue and people lists replace the old ones.
#[derive(Debug)]
pub struct UpdateEntryItemRequest {
    pub content: Option<String>,
    pub project: Option<String>,
    pub tags: Option<Vec<String>>,
    pub jira: Option<Vec<String>>,
    pub people: Option<Vec<String>>,
}

/// A new meeting; its times are RFC 3339 text.
#[derive(Debug)]
pub struct CreateMeetingRequest {
    pub title: String,
    pub description: Option<String>,
    pub start_time: Option<String>,
    pub end_time: Option<String>,
    pub location: Option<String>,
    pub meeting_type: Option<String>,
}

/// A meeting as the command surface shows it.
#[derive(Debug)]
pub struct MeetingResponse {
    pub id: String,
    pub title: String,
    pub description: Option<String>,
    pub start_time: Option<String>,
    pub end_time: Option<String>,
    pub location: Option<String>,
    pub meeting_type: String,
    pub status: String,
    pub created_at: String,
    pub updated_at: String,
}

/// A new attendee of a meeting.
#[derive(Debug)]
pub struct AddAttendeeRequest {
    pub meeting_id: String,
    pub name: String,
    pub email: Option<String>,
    pub role: Option<String>,
}

/// An attendee as the command surface shows it.
#[derive(Debug)]
pub struct AttendeeResponse {
    pub id: String,
    pub meeting_id: String,
    pub name: String,
    pub email: Option<String>,
    pub role: String,
    pub status: String,
    pub created_at: String,
}

/// A new action of a meeting; its due date is RFC 3339 text.
#[derive(Debug)]
pub struct CreateActionRequest {
    pub meeting_id: String,
    pub title: String,
    pub description: Option<String>,
    pub assignee: Option<String>,
    pub due_date: Option<String>,
    pub priority: Option<String>,
}

/// An action as the command surface shows it.
#[derive(Debug)]
pub struct ActionResponse {
    pub id: String,
    pub meeting_id: String,
    pub entry_item_id: Option<String>,
    pub title: String,
    pub description: Option<String>,
    pub assignee: Option<String>,
    pub due_date: Option<String>,
    pub status: String,
    pub priority: String,
    pub created_at: String,
    pub updated_at: String,
}

impl LogbookError {
    pub open spec fn text(self) -> Seq<char> {
        match self {
            LogbookError::Referential => "a referenced row does not exist"@,
            LogbookError::NotFound => "no such row"@,
            LogbookError::Conflict => "an identifier or name is already taken"@,
        }
    }

    /// What went wrong, in words.
    pub fn describe(&self) -> (r: &'static str)
        ensures
            r@ == self.text(),
    {
        match self {
            LogbookError::Referential => "a referenced row does not exist",
            LogbookError::NotFound => "no such row",
            LogbookError::Conflict => "an identifier or name is already taken",
        }
    }
}

/// The message for a failed step: `Failed to <step>: <cause>`.
pub open spec fn failure_text(step: Seq<char>, e: LogbookError) -> Seq<char> {
    "Failed to "@ + step + ": "@ + e.text()
}

pub fn failure(step: &str, e: LogbookError) -> (r: String)
    ensures
        r@ == failure_text(step@, e),
{
    let mut s = String::from_str("Failed to ");
    s.append(step);
    s.append(": ");
    s.append(e.describe());
    s
}

/// An RFC 3339 text of an optional instant.
pub open spec fn instant_text(t: Option<Timestamp>) -> Option<Seq<char>> {
    match t {
        Some(x) => Some(rfc3339_text(x)),
        None => None,
    }
}

fn format_instant(t: &Option<Timestamp>) -> (r: Option<String>)
    ensures
        text_view(r) == instant_text(*t),
{
    match t {
        Some(x) => Some(format_rfc3339(x)),
        None => None,
    }
}

/// The instant an optional RFC 3339 text gives; absent or unreadable text
/// gives none.
pub open spec fn instant_of(s: Option<String>) -> Option<Timestamp> {
    match s {
        Some(t) => rfc3339_instant(t@),
        None => None,
    }
}

fn parse_instant(s: &Option<String>) -> (r: Option<Timestamp>)
    ensures
        r == instant_of(*s),
{
    match s {
        Some(t) => parse_rfc3339(t.as_str()),
        None => None,
    }
}

/// A copy of a list of texts.
pub fn copy_texts(v: &Vec<String>) -> (r: Vec<String>)
    ensures
        r@ == v@,
{
    let mut out: Vec<String> = Vec::new();
    let mut i: usize = 0;
    while i < v.len()
        invariant
            i <= v@.len(),
            out@ == v@.take(i as int),
        decreases v@.len() - i,
    {
        out.push(v[i].clone());
        proof {
            assert(out@ =~= v@.take(i + 1));
        }
        i = i + 1;
    }
    proof {
        assert(v@.take(i as int) =~= v@);
    }
    out
}

/// `resp` shows the project `p`.
pub open spec fn shows_project(resp: ProjectResponse, p: Project) -> bool {
    &&& resp.id == p.id
    &&& resp.name == p.name
    &&& resp.description == p.description
    &&& resp.color == p.color
    &&& resp.created_at@ == rfc3339_text(p.created_at)
    &&& resp.updated_at@ == rfc3339_text(p.updated_at)
}

pub fn project_response(p: &Project) -> (r: ProjectResponse)
    ensures
        shows_project(r, *p),
{
    ProjectResponse {
        id: p.id.clone(),
        name: p.name.clone(),
        description: copy_text(&p.description),
        color: p.color.clone(),
        created_at: format_rfc3339(&p.created_at),
        updated_at: format_rfc3339(&p.updated_at),
    }
}

/// `resp` shows the tag `t`.
pub open spec fn shows_tag(resp: TagResponse, t: Tag) -> bool {
    &&& resp.id == t.id
    &&& resp.name == t.name
    &&& resp.description == t.description
    &&& resp.color == t.color
    &&& resp.category == t.category
    &&& resp.created_at@ == rfc3339_text(t.created_at)
    &&& resp.updated_at@ == rfc3339_text(t.updated_at)
}

pub fn tag_response(t: &Tag) -> (r: TagResponse)
    ensures
        shows_tag(r, *t),
{
    TagResponse {
        id: t.id.clone(),
        name: t.name.clone(),
        description: copy_text(&t.description),
        color: t.color.clone(),
        category: copy_text(&t.category),
        created_at: format_rfc3339(&t.created_at),
        updated_at: format_rfc3339(&t.updated_at),
    }
}

/// `resp` shows the meeting `m`.
pub open spec fn shows_meeting(resp: MeetingResponse, m: Meeting) -> bool {
    &&& resp.id == m.id
    &&& resp.title == m.title
    &&& resp.description == m.description
    &&& text_view(resp.start_time) == instant_text(m.start_time)
    &&& text_view(resp.end_time) == instant_text(m.end_time)
    &&& resp.location == m.location
    &&& resp.meeting_type == m.meeting_type
    &&& resp.status == m.status
    &&& resp.created_at@ == rfc3339_text(m.created_at)
    &&& resp.updated_at@ == rfc3339_text(m.updated_at)
}

pub fn meeting_response(m: &Meeting) -> (r: MeetingResponse)
    ensures
        shows_meeting(r, *m),
{
    MeetingResponse {
        id: m.id.clone(),
        title: m.title.clone(),
        description: copy_text(&m.description),
        start_time: format_instant(&m.start_time),
        end_time: format_instant(&m.end_time),
        location: copy_text(&m.location),
        meeting_type: m.meeting_type.clone(),
        status: m.status.clone(),
        created_at: format_rfc3339(&m.created_at),
        updated_at: format_rfc3339(&m.updated_at),
    }
}

/// `resp` shows the attendee `a`.
pub open spec fn shows_attendee(resp: AttendeeResponse, a: MeetingAttendee) -> bool {
    &&& resp.id == a.id
    &&& resp.meeting_id == a.meeting_id
    &&& resp.name == a.name
    &&& resp.email == a.email
    &&& resp.role == a.role
    &&& resp.status == a.status
    &&& resp.created_at@ == rfc3339_text(a.created_at)
}

pub fn attendee_response(a: &MeetingAttendee) -> (r: AttendeeResponse)
    ensures
        shows_attendee(r, *a),
{
    AttendeeResponse {
        id: a.id.clone(),
        meeting_id: a.meeting_id.clone(),
        name: a.name.clone(),
        email: copy_text(&a.email),
        role: a.role.clone(),
        status: a.status.clone(),
        created_at: format_rfc3339(&a.created_at),
    }
}

/// `resp` shows the action `a`.
pub open spec fn shows_action(resp: ActionResponse, a: MeetingAction) -> bool {
    &&& resp.id == a.id
    &&& resp.meeting_id == a.meeting_id
    &&& resp.entry_item_id == a.entry_item_id
    &&& resp.title == a.title
    &&& resp.description == a.description
    &&& resp.assignee == a.assignee
    &&& text_view(resp.due_date) == instant_text(a.due_date)
    &&& resp.status == a.status
    &&& resp.priority == a.priority
    &&& resp.created_at@ == rfc3339_text(a.created_at)
    &&& resp.updated_at@ == rfc3339_text(a.updated_at)
}

pub fn action_response(a: &MeetingAction) -> (r: ActionResponse)
    ensures
        shows_action(r, *a),
{
    ActionResponse {
        id: a.id.clone(),
        meeting_id: a.meeting_id.clone(),
        entry_item_id: copy_text(&a.entry_item_id),
        title: a.title.clone(),
        description: copy_text(&a.description),
        assignee: copy_text(&a.assignee),
        due_date: format_instant(&a.due_date),
        status: a.status.clone(),
        priority: a.priority.clone(),
        created_at: format_rfc3339(&a.created_at),
        updated_at: format_rfc3339(&a.updated_at),
    }
}

/// `resp` shows the item `m` with the names of its tags and people and its
/// issue keys.
pub open spec fn shows_item(resp: ItemResponse, m: EntryItemWithMetadata) -> bool {
    &&& resp.id == m.item.id
    &&& resp.item_type == m.item.item_type
    &&& resp.content == m.item.content
    &&& resp.project == m.item.project
    &&& texts(resp.tags@) == tag_names(m.tags@)
    &&& texts(resp.jira@) == jira_keys(m.jira_refs@)
    &&& texts(resp.people@) == person_names(m.people@)
}

pub fn item_response(m: &EntryItemWithMetadata) -> (r: ItemResponse)
    ensures
        shows_item(r, *m),
{
    ItemResponse {
        id: m.item.id.clone(),
        item_type: m.item.item_type.clone(),
        content: m.item.content.clone(),
        project: copy_text(&m.item.project),
        tags: names_of_tags(&m.tags),
        jira: keys_of_jira_refs(&m.jira_refs),
        people: names_of_people(&m.people),
    }
}

/// `resp` shows the entry `x` with its items in their order.
pub open spec fn shows_entry(resp: EntryResponse, x: EntryWithItems) -> bool {
    &&& resp.id == x.entry.id
    &&& resp.timestamp@ == rfc3339_text(x.entry.timestamp)
    &&& resp.items@.len() == x.items@.len()
    &&& forall|k: int| 0 <= k < x.items@.len() ==> shows_item(#[trigger] resp.items@[k], x.items@[k])
}

pub fn entry_response(x: &EntryWithItems) -> (r: EntryResponse)
    ensures
        shows_entry(r, *x),
{
    let mut items: Vec<ItemResponse> = Vec::new();
    let mut i: usize = 0;
    while i < x.items.len()
        invariant
            i <= x.items@.len(),
            items@.len() == i,
            forall|k: int| 0 <= k < i ==> shows_item(#[trigger] items@[k], x.items@[k]),
        decreases x.items@.len() - i,
    {
        let ghost prev = items@;
        items.push(item_response(&x.items[i]));
        proof {
            assert forall|k: int| 0 <= k < i + 1 implies shows_item(#[trigger] items@[k], x.items@[k]) by {
                if k < i {
                    assert(items@[k] == prev[k]);
                }
            }
        }
        i = i + 1;
    }
    EntryResponse { id: x.entry.id.clone(), timestamp: format_rfc3339(&x.entry.timestamp), items }
}

/// Every entry with its items, latest event first.
pub fn get_all_entries(db: &Database) -> (r: Result<Vec<EntryResponse>, String>)
    requires
        db.wf(),
    ensures
        r matches Ok(v) && exists|xs: Seq<EntryWithItems>| #[trigger] db.lists_entries(xs) && v@.len() == xs.len()
            && forall|k: int| 0 <= k < xs.len() ==> shows_entry(#[trigger] v@[k], xs[k]),
{
    let xs = db.get_all_entries_with_items();
    let mut out: Vec<EntryResponse> = Vec::new();
    let mut i: usize = 0;
    while i < xs.len()
        invariant
            i <= xs@.len(),
            out@.len() == i,
            forall|k: int| 0 <= k < i ==> shows_entry(#[trigger] out@[k], xs@[k]),
        decreases xs@.len() - i,
    {
        let ghost prev = out@;
        out.push(entry_response(&xs[i]));
        proof {
            assert forall|k: int| 0 <= k < i + 1 implies shows_entry(#[trigger] out@[k], xs@[k]) by {
                if k < i {
                    assert(out@[k] == prev[k]);
                }
            }
        }
        i = i + 1;
    }
    Ok(out)
}

/// Every entry as CSV.
pub fn export_entries_csv(db: &Database) -> (r: Result<String, String>)
    requires
        db.wf(),
    ensures
        r matches Ok(s) && exists|xs: Seq<EntryWithItems>| #[trigger] db.lists_entries(xs) && s@ == csv_text(xs),
{
    let xs = db.get_all_entries_with_items();
    Ok(entries_csv(&xs))
}

/// Every entry as Markdown.
pub fn export_entries_markdown(db: &Database) -> (r: Result<String, String>)
    requires
        db.wf(),
    ensures
        r matches Ok(s) && exists|xs: Seq<EntryWithItems>| #[trigger] db.lists_entries(xs) && s@ == markdown_text(xs),
{
    let xs = db.get_all_entries_with_items();
    Ok(entries_markdown(&xs))
}

/// Deletes an item with its dependents.
pub fn delete_entry_item(db: &mut Database, entry_item_id: String) -> (r: Result<(), String>)
    requires
        old(db).wf(),
    ensures
        final(db).wf(),
        r is Ok,
        crate::store::removes_item(*old(db), *final(db), entry_item_id@),
{
    db.delete_entry_item(entry_item_id.as_str());
    Ok(())
}

/// Deletes an entry with everything below it.
pub fn delete_entry(db: &mut Database, entry_id: String) -> (r: Result<(), String>)
    requires
        old(db).wf(),
    ensures
        final(db).wf(),
        r is Ok,
        crate::store::removes_entry(*old(db), *final(db), entry_id@),
{
    db.delete_entry(entry_id.as_str());
    Ok(())
}

/// Creates a project.
pub fn create_project(db: &mut Database, request: CreateProjectRequest) -> (r: Result<ProjectResponse, String>)
    requires
        old(db).wf(),
    ensures
        final(db).wf(),
        !old(db).has_project_named(request.name@) && old(db).fresh_project_id_free() ==> r is Ok,
        old(db).has_project_named(request.name@) ==> r is Err,
        r matches Err(m) ==> m@ == failure_text("create project"@, LogbookError::Conflict)
            && final(db).projects@ == old(db).projects@,
        r matches Ok(resp) ==> exists|p: Project| #[trigger] shows_project(resp, p) && p.name@ == request.name@
            && text_view(p.description) == text_view(request.description)
            && final(db).projects@ == old(db).projects@.push(p),
{
    let made = db.create_project(request.name.as_str(), as_text(&request.description), as_text(&request.color));
    match made {
        Ok(p) => Ok(project_response(&p)),
        Err(e) => Err(failure("create project", e)),
    }
}

/// Every project, by name.
pub fn get_all_projects(db: &Database) -> (r: Result<Vec<ProjectResponse>, String>)
    ensures
        r matches Ok(v) && exists|ps: Seq<Project>| #[trigger] ps.to_multiset() == db.projects@.to_multiset()
            && crate::order::is_ranked(ps) && v@.len() == ps.len()
            && forall|k: int| 0 <= k < ps.len() ==> shows_project(#[trigger] v@[k], ps[k]),
{
    let ps = db.get_all_projects();
    let mut out: Vec<ProjectResponse> = Vec::new();
    let mut i: usize = 0;
    while i < ps.len()
        invariant
            i <= ps@.len(),
            out@.len() == i,
            forall|k: int| 0 <= k < i ==> shows_project(#[trigger] out@[k], ps@[k]),
        decreases ps@.len() - i,
    {
        let ghost prev = out@;
        out.push(project_response(&ps[i]));
        proof {
            assert forall|k: int| 0 <= k < i + 1 implies shows_project(#[trigger] out@[k], ps@[k]) by {
                if k < i {
                    assert(out@[k] == prev[k]);
                }
            }
        }
        i = i + 1;
    }
    Ok(out)
}

/// Writes the given fields of a project.
pub fn update_project(db: &mut Database, request: UpdateProjectRequest) -> (r: Result<ProjectResponse, String>)
    requires
        old(db).wf(),
    ensures
        final(db).wf(),
        !old(db).has_project(request.id@) ==> (r matches Err(m)
            && m@ == failure_text("update project"@, LogbookError::NotFound)),
        r is Err ==> final(db).projects@ == old(db).projects@,
        r matches Ok(resp) ==> resp.id@ == request.id@ && (request.name matches Some(n) ==> resp.name@ == n@)
            && (request.color matches Some(c) ==> resp.color@ == c@),
{
    let done = db.update_project(request.id.as_str(), as_text(&request.name), as_text(&request.description),
        as_text(&request.color));
    match done {
        Ok(p) => {
            proof {
                let k = choose|k: int| 0 <= k < old(db).projects@.len() && #[trigger] old(db).projects@[k].id@ == request.id@;
                assert(final(db).projects@[k] == p);
            }
            Ok(project_response(&p))
        },
        Err(e) => Err(failure("update project", e)),
    }
}

/// Deletes a project.
pub fn delete_project(db: &mut Database, project_id: String) -> (r: Result<(), String>)
    requires
        old(db).wf(),
    ensures
        final(db).wf(),
        r is Ok,
        final(db).projects@ == old(db).projects@.filter(crate::store::project_other_than(project_id@)),
{
    db.delete_project(project_id.as_str());
    Ok(())
}

/// Creates a tag.
pub fn create_tag(db: &mut Database, request: CreateTagRequest) -> (r: Result<TagResponse, String>)
    requires
        old(db).wf(),
    ensures
        final(db).wf(),
        !old(db).has_tag_named(request.name@) && old(db).fresh_tag_id_free() ==> r is Ok,
        old(db).has_tag_named(request.name@) ==> r is Err,
        r matches Err(m) ==> m@ == failure_text("create tag"@, LogbookError::Conflict) && final(db).tags@ == old(db).tags@,
        r matches Ok(resp) ==> exists|t: Tag| #[trigger] shows_tag(resp, t) && t.name@ == request.name@
            && text_view(t.category) == text_view(request.category) && final(db).tags@ == old(db).tags@.push(t),
{
    let made = db.create_tag(request.name.as_str(), as_text(&request.description), as_text(&request.color),
        as_text(&request.category));
    match made {
        Ok(t) => Ok(tag_response(&t)),
        Err(e) => Err(failure("create tag", e)),
    }
}

/// Every tag, by name.
pub fn get_all_tags(db: &Database) -> (r: Result<Vec<TagResponse>, String>)
    ensures
        r matches Ok(v) && exists|ts: Seq<Tag>| #[trigger] ts.to_multiset() == db.tags@.to_multiset()
            && crate::order::is_ranked(ts) && v@.len() == ts.len()
            && forall|k: int| 0 <= k < ts.len() ==> shows_tag(#[trigger] v@[k], ts[k]),
{
    let ts = db.get_all_tags();
    let mut out: Vec<TagResponse> = Vec::new();
    let mut i: usize = 0;
    while i < ts.len()
        invariant
            i <= ts@.len(),
            out@.len() == i,
            forall|k: int| 0 <= k < i ==> shows_tag(#[trigger] out@[k], ts@[k]),
        decreases ts@.len() - i,
    {
        let ghost prev = out@;
        out.push(tag_response(&ts[i]));
        proof {
            assert forall|k: int| 0 <= k < i + 1 implies shows_tag(#[trigger] out@[k], ts@[k]) by {
                if k < i {
                    assert(out@[k] == prev[k]);
                }
            }
        }
        i = i + 1;
    }
    Ok(out)
}

/// Writes the given fields of a tag.
pub fn update_tag(db: &mut Database, request: UpdateTagRequest) -> (r: Result<TagResponse, String>)
    requires
        old(db).wf(),
    ensures
        final(db).wf(),
        !old(db).has_tag(request.id@) ==> (r matches Err(m)
            && m@ == failure_text("update tag"@, LogbookError::NotFound)),
        r is Err ==> final(db).tags@ == old(db).tags@,
        r matches Ok(resp) ==> resp.id@ == request.id@ && (request.name matches Some(n) ==> resp.name@ == n@)
            && (request.color matches Some(c) ==> resp.color@ == c@),
{
    let done = db.update_tag(request.id.as_str(), as_text(&request.name), as_text(&request.description),
        as_text(&request.color), as_text(&request.category));
    match done {
        Ok(t) => {
            proof {
                let k = choose|k: int| 0 <= k < old(db).tags@.len() && #[trigger] old(db).tags@[k].id@ == request.id@;
                assert(final(db).tags@[k] == t);
            }
            Ok(tag_response(&t))
        },
        Err(e) => Err(failure("update tag", e)),
    }
}

/// Deletes a tag and unlinks it from every item.
pub fn delete_tag(db: &mut Database, tag_id: String) -> (r: Result<(), String>)
    requires
        old(db).wf(),
    ensures
        final(db).wf(),
        r is Ok,
        final(db).tags@ == old(db).tags@.filter(crate::store::tag_other_than(tag_id@)),
        final(db).item_tags@ == old(db).item_tags@.filter(crate::store::tag_link_not_to_tag(tag_id@)),
{
    db.delete_tag(tag_id.as_str());
    Ok(())
}

/// Creates a meeting. A start or end time that does not parse is taken as
/// absent.
pub fn create_meeting(db: &mut Database, request: CreateMeetingRequest) -> (r: Result<MeetingResponse, String>)
    requires
        old(db).wf(),
    ensures
        final(db).wf(),
        old(db).fresh_meeting_id_free() ==> r is Ok,
        r matches Err(m) ==> m@ == failure_text("create meeting"@, LogbookError::Conflict)
            && final(db).meetings@ == old(db).meetings@,
        r matches Ok(resp) ==> exists|m: Meeting| #[trigger] shows_meeting(resp, m) && m.title@ == request.title@
            && m.start_time == instant_of(request.start_time) && m.end_time == instant_of(request.end_time)
            && final(db).meetings@ == old(db).meetings@.push(m),
{
    let start_time = parse_instant(&request.start_time);
    let end_time = parse_instant(&request.end_time);
    let made = db.create_meeting(request.title.as_str(), as_text(&request.description), start_time, end_time,
        as_text(&request.location), as_text(&request.meeting_type));
    match made {
        Ok(m) => Ok(meeting_response(&m)),
        Err(e) => Err(failure("create meeting", e)),
    }
}

/// Every meeting, latest start first.
pub fn get_all_meetings(db: &Database) -> (r: Result<Vec<MeetingResponse>, String>)
    ensures
        r matches Ok(v) && exists|ms: Seq<Meeting>| #[trigger] ms.to_multiset() == db.meetings@.to_multiset()
            && crate::order::is_ranked(ms) && v@.len() == ms.len()
            && forall|k: int| 0 <= k < ms.len() ==> shows_meeting(#[trigger] v@[k], ms[k]),
{
    let ms = db.get_all_meetings();
    let mut out: Vec<MeetingResponse> = Vec::new();
    let mut i: usize = 0;
    while i < ms.len()
        invariant
            i <= ms@.len(),
            out@.len() == i,
            forall|k: int| 0 <= k < i ==> shows_meeting(#[trigger] out@[k], ms@[k]),
        decreases ms@.len() - i,
    {
        let ghost prev = out@;
        out.push(meeting_response(&ms[i]));
        proof {
            assert forall|k: int| 0 <= k < i + 1 implies shows_meeting(#[trigger] out@[k], ms@[k]) by {
                if k < i {
                    assert(out@[k] == prev[k]);
                }
            }
        }
        i = i + 1;
    }
    Ok(out)
}

/// Adds an attendee to a meeting.
pub fn add_meeting_attendee(db: &mut Database, request: AddAttendeeRequest) -> (r: Result<AttendeeResponse, String>)
    requires
        old(db).wf(),
    ensures
        final(db).wf(),
        old(db).has_meeting(request.meeting_id@) && old(db).fresh_attendee_id_free() ==> r is Ok,
        !old(db).has_meeting(request.meeting_id@) ==> (r matches Err(m)
            && m@ == failure_text("add attendee"@, LogbookError::Referential)),
        r is Err ==> final(db).attendees@ == old(db).attendees@,
        r matches Ok(resp) ==> exists|a: MeetingAttendee| #[trigger] shows_attendee(resp, a)
            && a.meeting_id@ == request.meeting_id@ && a.name@ == request.name@
            && final(db).attendees@ == old(db).attendees@.push(a),
{
    let made = db.add_meeting_attendee(request.meeting_id.as_str(), request.name.as_str(), as_text(&request.email),
        as_text(&request.role));
    match made {
        Ok(a) => Ok(attendee_response(&a)),
        Err(e) => Err(failure("add attendee", e)),
    }
}

/// The attendees of a meeting, by name.
pub fn get_meeting_attendees(db: &Database, meeting_id: String) -> (r: Result<Vec<AttendeeResponse>, String>)
    ensures
        r matches Ok(v) && exists|az: Seq<MeetingAttendee>| #[trigger] az.to_multiset() == db.attendees@.filter(
            crate::store::attendee_of_meeting(meeting_id@),
        ).to_multiset() && crate::order::is_ranked(az) && v@.len() == az.len()
            && forall|k: int| 0 <= k < az.len() ==> shows_attendee(#[trigger] v@[k], az[k]),
{
    let az = db.get_meeting_attendees(meeting_id.as_str());
    let mut out: Vec<AttendeeResponse> = Vec::new();
    let mut i: usize = 0;
    while i < az.len()
        invariant
            i <= az@.len(),
            out@.len() == i,
            forall|k: int| 0 <= k < i ==> shows_attendee(#[trigger] out@[k], az@[k]),
        decreases az@.len() - i,
    {
        let ghost prev = out@;
        out.push(attendee_response(&az[i]));
        proof {
            assert forall|k: int| 0 <= k < i + 1 implies shows_attendee(#[trigger] out@[k], az@[k]) by {
                if k < i {
                    assert(out@[k] == prev[k]);
                }
            }
        }
        i = i + 1;
    }
    Ok(out)
}

/// Adds an action to a meeting. A due date that does not parse is taken as
/// absent.
pub fn create_meeting_action(db: &mut Database, request: CreateActionRequest) -> (r: Result<ActionResponse, String>)
    requires
        old(db).wf(),
    ensures
        final(db).wf(),
        old(db).has_meeting(request.meeting_id@) && old(db).fresh_action_id_free() ==> r is Ok,
        !old(db).has_meeting(request.meeting_id@) ==> (r matches Err(m)
            && m@ == failure_text("create action"@, LogbookError::Referential)),
        r is Err ==> final(db).actions@ == old(db).actions@,
        r matches Ok(resp) ==> exists|a: MeetingAction| #[trigger] shows_action(resp, a)
            && a.meeting_id@ == request.meeting_id@ && a.title@ == request.title@ && a.entry_item_id is None
            && a.status@ == crate::store::ACTION_OPEN@ && a.priority@ == crate::store::text_or(request.priority, crate::store::DEFAULT_ACTION_PRIORITY@)
            && a.due_date == instant_of(request.due_date) && final(db).actions@ == old(db).actions@.push(a),
{
    let due_date = parse_instant(&request.due_date);
    let made = db.create_meeting_action(request.meeting_id.as_str(), request.title.as_str(),
        as_text(&request.description), as_text(&request.assignee), due_date, as_text(&request.priority));
    match made {
        Ok(a) => Ok(action_response(&a)),
        Err(e) => Err(failure("create action", e)),
    }
}

/// The actions of a meeting, latest created first.
pub fn get_meeting_actions(db: &Database, meeting_id: String) -> (r: Result<Vec<ActionResponse>, String>)
    ensures
        r matches Ok(v) && exists|az: Seq<MeetingAction>| #[trigger] az.to_multiset() == db.actions@.filter(
            crate::store::action_of_meeting(meeting_id@),
        ).to_multiset() && crate::order::is_ranked(az) && v@.len() == az.len()
            && forall|k: int| 0 <= k < az.len() ==> shows_action(#[trigger] v@[k], az[k]),
{
    let az = db.get_meeting_actions(meeting_id.as_str());
    let mut out: Vec<ActionResponse> = Vec::new();
    let mut i: usize = 0;
    while i < az.len()
        invariant
            i <= az@.len(),
            out@.len() == i,
            forall|k: int| 0 <= k < i ==> shows_action(#[trigger] out@[k], az@[k]),
        decreases az@.len() - i,
    {
        let ghost prev = out@;
        out.push(action_response(&az[i]));
        proof {
            assert forall|k: int| 0 <= k < i + 1 implies shows_action(#[trigger] out@[k], az@[k]) by {
                if k < i {
                    assert(out@[k] == prev[k]);
                }
            }
        }
        i = i + 1;
    }
    Ok(out)
}

/// Deletes a meeting with its attendees and actions.
pub fn delete_meeting(db: &mut Database, meeting_id: String) -> (r: Result<(), String>)
    requires
        old(db).wf(),
    ensures
        final(db).wf(),
        r is Ok,
        final(db).meetings@ == old(db).meetings@.filter(crate::store::meeting_other_than(meeting_id@)),
{
    db.delete_meeting(meeting_id.as_str());
    Ok(())
}

/// A borrowed view of an optional text.
pub fn as_text(o: &Option<String>) -> (r: Option<&str>)
    ensures
        crate::rows::str_view(r) == text_view(*o),
{
    match o {
        Some(s) => Some(s.as_str()),
        None => None,
    }
}

/// `resp` shows an item that `db` holds under the entry `entry_id`, made
/// from `req`, with exactly the tags and people named in the request and its
/// issue keys in the request's order.
pub open spec fn item_made(db: Database, entry_id: Seq<char>, resp: ItemResponse, req: CreateItemRequest) -> bool {
    &&& resp.item_type@ == req.item_type@
    &&& resp.content@ == req.content@
    &&& text_view(resp.project) == text_view(req.project)
    &&& resp.tags@ == req.tags@
    &&& resp.jira@ == req.jira@
    &&& resp.people@ == req.people@
    &&& db.has_item(resp.id@)
    &&& db.item_with_id(resp.id@).entry_id@ == entry_id
    &&& db.item_with_id(resp.id@).item_type@ == req.item_type@
    &&& db.item_with_id(resp.id@).content@ == req.content@
    &&& text_view(db.item_with_id(resp.id@).project) == text_view(req.project)
    &&& forall|n: Seq<char>| #[trigger] db.tag_named_on(resp.id@, n) <==> texts(req.tags@).contains(n)
    &&& forall|n: Seq<char>| #[trigger] db.person_named_on(resp.id@, n) <==> texts(req.people@).contains(n)
    &&& db.jira_keys_of(resp.id@) == texts(req.jira@)
}

/// The message of a failed step of entry creation, all of which can only
/// fail on a taken identifier.
pub open spec fn creation_conflict(m: Seq<char>) -> bool {
    ||| m == failure_text("create entry"@, LogbookError::Conflict)
    ||| m == failure_text("create entry item"@, LogbookError::Conflict)
    ||| m == failure_text("link tags"@, LogbookError::Conflict)
    ||| m == failure_text("link people"@, LogbookError::Conflict)
    ||| m == failure_text("create Jira refs"@, LogbookError::Conflict)
}

/// `after` is `before` with one entry `id` for the instant `timestamp`
/// appended, and after it the items shown in `shown`, in their order, with
/// their links; no row of `before` changed or went, and tags and people
/// only grew.
pub open spec fn adds_entry(before: Database, after: Database, id: Seq<char>, timestamp: Timestamp, shown: Seq<ItemResponse>) -> bool {
    &&& after.entries@.len() == before.entries@.len() + 1
    &&& after.entries@.drop_last() == before.entries@
    &&& after.entries@.last().id@ == id
    &&& after.entries@.last().timestamp == timestamp
    &&& !before.has_entry(id)
    &&& after.items@.len() == before.items@.len() + shown.len()
    &&& grows(before.items@, after.items@)
    &&& forall|k: int| 0 <= k < shown.len() ==> (#[trigger] shown[k]).id@ == after.items@[before.items@.len() + k].id@
        && !before.has_item(shown[k].id@)
    &&& forall|j: int, k: int| 0 <= j < k < shown.len() ==> (#[trigger] shown[j]).id@ != (#[trigger] shown[k]).id@
    &&& grows(before.tags@, after.tags@)
    &&& grows(before.people@, after.people@)
    &&& forall|l: ItemTag| before.has_item(l.entry_item_id@) ==> (#[trigger] after.item_tags@.contains(l)
        <==> before.item_tags@.contains(l))
    &&& forall|l: ItemPerson| before.has_item(l.entry_item_id@) ==> (#[trigger] after.item_people@.contains(l)
        <==> before.item_people@.contains(l))
    &&& forall|x: Seq<char>| before.has_item(x) ==> #[trigger] after.jira_refs_of(x) == before.jira_refs_of(x)
    &&& after.projects@ == before.projects@
    &&& after.meetings@ == before.meetings@
    &&& after.attendees@ == before.attendees@
    &&& after.actions@ == before.actions@
}

/// Creates an entry for the instant `timestamp` with its items, their tags,
/// people and issue references. Tags and people are looked up by name and
/// created when new. A failed step ends the command; what was written before
/// it stays.
pub fn create_entry_at(db: &mut Database, timestamp: Timestamp, items: &Vec<CreateItemRequest>) -> (r: Result<
    EntryResponse,
    String,
>)
    requires
        old(db).wf(),
    ensures
        final(db).wf(),
        items@.len() == 0 && old(db).fresh_entry_id_free() ==> r is Ok,
        r matches Err(m) ==> creation_conflict(m@),
        r matches Ok(resp) ==> resp.timestamp@ == rfc3339_text(timestamp) && adds_entry(*old(db), *final(db), resp.id@,
            timestamp, resp.items@) && final(db).has_entry(resp.id@)
            && final(db).entry_with_id(resp.id@).timestamp == timestamp && resp.items@.len() == items@.len()
            && forall|k: int| 0 <= k < items@.len() ==> item_made(*final(db), resp.id@, #[trigger] resp.items@[k], items@[k]),
{
    let ghost start = *db;
    let entry = match db.create_entry(timestamp) {
        Ok(e) => e,
        Err(e) => {
            return Err(failure("create entry", e));
        },
    };
    let ghost after_entry = *db;
    proof {
        assert(after_entry.entries@[start.entries@.len() as int] == entry);
        Database::lemma_same_items(start, after_entry);
    }
    let mut out: Vec<ItemResponse> = Vec::new();
    let mut k: usize = 0;
    while k < items.len()
        invariant
            db.wf(),
            start.wf(),
            start == *old(db),
            k <= items@.len(),
            out@.len() == k,
            db.entries@ == after_entry.entries@,
            after_entry.entries@ == start.entries@.push(entry),
            entry.timestamp == timestamp,
            !start.has_entry(entry.id@),
            forall|m: int| 0 <= m < k ==> item_made(*db, entry.id@, #[trigger] out@[m], items@[m]),
            db.items@.len() == start.items@.len() + k,
            grows(start.items@, db.items@),
            forall|m: int| 0 <= m < k ==> (#[trigger] out@[m]).id@ == db.items@[start.items@.len() + m].id@
                && !start.has_item(out@[m].id@),
            grows(start.tags@, db.tags@),
            grows(start.people@, db.people@),
            forall|l: ItemTag| start.has_item(l.entry_item_id@) ==> (#[trigger] db.item_tags@.contains(l)
                <==> start.item_tags@.contains(l)),
            forall|l: ItemPerson| start.has_item(l.entry_item_id@) ==> (#[trigger] db.item_people@.contains(l)
                <==> start.item_people@.contains(l)),
            forall|x: Seq<char>| start.has_item(x) ==> #[trigger] db.jira_refs_of(x) == start.jira_refs_of(x),
            db.projects@ == start.projects@,
            db.meetings@ == start.meetings@,
            db.attendees@ == start.attendees@,
            db.actions@ == start.actions@,
        decreases items@.len() - k,
    {
        let req = &items[k];
        let ghost cur = *db;
        proof {
            assert(cur.entries@[start.entries@.len() as int] == entry);
            assert(cur.has_entry(entry.id@));
        }
        let it = match db.create_entry_item(entry.id.as_str(), req.item_type.as_str(), req.content.as_str(),
            as_text(&req.project)) {
            Ok(it) => it,
            Err(e) => {
                return Err(failure("create entry item", e));
            },
        };
        let ghost c1 = *db;
        proof {
            assert(c1.items@[cur.items@.len() as int] == it);
            c1.lemma_item_at(cur.items@.len() as int);
            assert(c1.has_item(it.id@));
        }
        match db.replace_item_tags(it.id.as_str(), &req.tags) {
            Ok(()) => {},
            Err(e) => {
                return Err(failure("link tags", e));
            },
        }
        let ghost c2 = *db;
        proof {
            Database::lemma_same_items(c1, c2);
        }
        match db.replace_item_people(it.id.as_str(), &req.people) {
            Ok(()) => {},
            Err(e) => {
                return Err(failure("link people", e));
            },
        }
        let ghost c3 = *db;
        proof {
            Database::lemma_same_items(c2, c3);
        }
        match db.replace_item_jira_refs(it.id.as_str(), &req.jira) {
            Ok(()) => {},
            Err(e) => {
                return Err(failure("create Jira refs", e));
            },
        }
        let resp = ItemResponse {
            id: it.id.clone(),
            item_type: it.item_type.clone(),
            content: it.content.clone(),
            project: copy_text(&it.project),
            tags: copy_texts(&req.tags),
            jira: copy_texts(&req.jira),
            people: copy_texts(&req.people),
        };
        proof {
            let new_id = it.id@;
            assert(grows(cur.items@, c1.items@));
            assert(grows(cur.items@, db.items@));
            lemma_grows_trans(start.items@, cur.items@, db.items@);
            lemma_grows_trans(cur.tags@, c2.tags@, db.tags@);
            lemma_grows_trans(start.tags@, cur.tags@, db.tags@);
            lemma_grows_trans(cur.people@, c3.people@, db.people@);
            lemma_grows_trans(start.people@, cur.people@, db.people@);
            assert(grows(c1.items@, db.items@));
            assert(grows(c1.tags@, db.tags@));
            assert(grows(c1.people@, db.people@));
            Database::lemma_item_row_kept(c1, *db, new_id);
            assert(db.item_with_id(new_id) == it);
            assert forall|n: Seq<char>| #[trigger] db.tag_named_on(new_id, n) <==> texts(req.tags@).contains(n) by {
                assert(c2.tag_named_on(new_id, n) <==> texts(req.tags@).contains(n));
                Database::lemma_tag_names_kept(c2, *db, new_id);
            }
            assert forall|n: Seq<char>| #[trigger] db.person_named_on(new_id, n) <==> texts(req.people@).contains(n) by {
                assert(c3.person_named_on(new_id, n) <==> texts(req.people@).contains(n));
                Database::lemma_person_names_kept(c3, *db, new_id);
            }
            assert(item_made(*db, entry.id@, resp, *req));
            assert(!start.has_item(new_id)) by {
                if start.has_item(new_id) {
                    let w = choose|w: int| 0 <= w < start.items@.len() && #[trigger] start.items@[w].id@ == new_id;
                    assert(cur.items@[w].id@ == new_id);
                }
            }
            assert forall|m: int| 0 <= m < k implies item_made(*db, entry.id@, #[trigger] out@[m], items@[m]) by {
                let x = out@[m].id@;
                assert(item_made(cur, entry.id@, out@[m], items@[m]));
                assert(x != new_id);
                assert(db.jira_refs_of(x) == c3.jira_refs_of(x));
                Database::lemma_item_kept(cur, *db, x);
            }
            assert forall|l: ItemTag| start.has_item(l.entry_item_id@) implies (#[trigger] db.item_tags@.contains(l)
                <==> start.item_tags@.contains(l)) by {
                assert(cur.item_tags@.contains(l) <==> start.item_tags@.contains(l));
                assert(l.entry_item_id@ != new_id);
                assert(c2.item_tags@.contains(l) <==> c1.item_tags@.contains(l));
            }
            assert forall|l: ItemPerson| start.has_item(l.entry_item_id@) implies (#[trigger] db.item_people@.contains(l)
                <==> start.item_people@.contains(l)) by {
                assert(cur.item_people@.contains(l) <==> start.item_people@.contains(l));
                assert(l.entry_item_id@ != new_id);
                assert(c3.item_people@.contains(l) <==> c2.item_people@.contains(l));
            }
            assert forall|x: Seq<char>| start.has_item(x) implies #[trigger] db.jira_refs_of(x) == start.jira_refs_of(x) by {
                assert(cur.jira_refs_of(x) == start.jira_refs_of(x));
                assert(x != new_id);
                assert(db.jira_refs_of(x) == c3.jira_refs_of(x));
            }
            assert(db.items@[start.items@.len() + k].id@ == new_id);
        }
        let ghost prev = out@;
        out.push(resp);
        proof {
            assert forall|m: int| 0 <= m < k + 1 implies item_made(*db, entry.id@, #[trigger] out@[m], items@[m]) by {
                if m < k {
                    assert(out@[m] == prev[m]);
                }
            }
            assert forall|m: int| 0 <= m < k + 1 implies (#[trigger] out@[m]).id@ == db.items@[start.items@.len() + m].id@
                && !start.has_item(out@[m].id@) by {
                if m < k {
                    assert(out@[m] == prev[m]);
                    assert(db.items@[start.items@.len() + m] == c1.items@[start.items@.len() + m]);
                }
            }
        }
        k = k + 1;
    }
    proof {
        db.lemma_entry_at(start.entries@.len() as int);
        assert(db.entries@.drop_last() =~= start.entries@);
        let base = start.items@.len() as int;
        assert forall|j: int, m: int| 0 <= j < m < out@.len() implies (#[trigger] out@[j]).id@ != (#[trigger] out@[m]).id@ by {
            assert(crate::store::items_ids_differ()(db.items@[base + j], db.items@[base + m]));
        }
    }
    Ok(EntryResponse { id: entry.id.clone(), timestamp: format_rfc3339(&entry.timestamp), items: out })
}

/// Creates an entry from a request whose timestamp is RFC 3339 text; a
/// timestamp that does not parse fails the command before anything is
/// written.
pub fn create_entry(db: &mut Database, request: CreateEntryRequest) -> (r: Result<EntryResponse, String>)
    requires
        old(db).wf(),
    ensures
        final(db).wf(),
        rfc3339_instant(request.timestamp@) is None ==> (r matches Err(m) && m@ == "Invalid timestamp"@)
            && *final(db) == *old(db),
        rfc3339_instant(request.timestamp@) is Some ==> (r matches Err(m) ==> creation_conflict(m@)
            && m@ != "Invalid timestamp"@),
        rfc3339_instant(request.timestamp@) is Some && request.items@.len() == 0 && old(db).fresh_entry_id_free()
            ==> r is Ok,
        r matches Ok(resp) ==> rfc3339_instant(request.timestamp@) matches Some(t) && resp.timestamp@ == rfc3339_text(t)
            && adds_entry(*old(db), *final(db), resp.id@, t, resp.items@) && final(db).has_entry(resp.id@)
            && final(db).entry_with_id(resp.id@).timestamp == t && resp.items@.len() == request.items@.len()
            && forall|k: int| 0 <= k < request.items@.len() ==> item_made(*final(db), resp.id@, #[trigger] resp.items@[k],
                request.items@[k]),
{
    match parse_rfc3339(request.timestamp.as_str()) {
        Some(t) => {
            let r = create_entry_at(db, t, &request.items);
            proof {
                if r is Err {
                    let m = r->Err_0;
                    reveal_strlit("Invalid timestamp");
                    reveal_strlit("Failed to ");
                    assert(m@[0] == 'F');
                    assert("Invalid timestamp"@[0] == 'I');
                }
            }
            r
        },
        None => Err(String::from_str("Invalid timestamp")),
    }
}

/// The entry listed for an item shows that item.
proof fn lemma_item_is_listed(fin: Database, x: EntryWithItems, id: Seq<char>)
    requires
        fin.wf(),
        fin.has_item(id),
        x.entry == fin.entry_with_id(fin.item_with_id(id).entry_id@),
        fin.describes_entry(x),
    ensures
        exists|k: int| 0 <= k < x.items@.len() && (#[trigger] x.items@[k]).item.id@ == id,
{
    let it = fin.item_with_id(id);
    let c = choose|c: int| 0 <= c < fin.items@.len() && #[trigger] fin.items@[c].id@ == id;
    fin.lemma_item_at(c);
    assert(fin.has_entry(it.entry_id@));
    let e = choose|e: int| 0 <= e < fin.entries@.len() && #[trigger] fin.entries@[e].id@ == it.entry_id@;
    fin.lemma_entry_at(e);
    assert(x.entry.id@ == it.entry_id@);
    crate::table::lemma_filter_members(fin.items@, crate::store::item_of_entry(x.entry.id@));
    assert(crate::store::item_of_entry(x.entry.id@)(fin.items@[c]));
    assert(fin.items_of(x.entry.id@).contains(it));
    vstd::seq_lib::to_multiset_contains(fin.items_of(x.entry.id@), it);
    vstd::seq_lib::to_multiset_contains(crate::store::items_shown(x.items@), it);
    let k = choose|k: int| 0 <= k < crate::store::items_shown(x.items@).len()
        && crate::store::items_shown(x.items@)[k] == it;
    assert(x.items@[k].item.id@ == id);
}

/// An item shown in the listing of its entry is the item stored under its
/// identifier.
proof fn lemma_listed_item_is_stored(fin: Database, x: EntryWithItems, k: int)
    requires
        fin.wf(),
        fin.describes_entry(x),
        0 <= k < x.items@.len(),
    ensures
        fin.has_item(x.items@[k].item.id@),
        fin.item_with_id(x.items@[k].item.id@) == x.items@[k].item,
{
    let it = x.items@[k].item;
    assert(crate::store::items_shown(x.items@)[k] == it);
    assert(crate::store::items_shown(x.items@).contains(it));
    vstd::seq_lib::to_multiset_contains(crate::store::items_shown(x.items@), it);
    vstd::seq_lib::to_multiset_contains(fin.items_of(x.entry.id@), it);
    assert(fin.items_of(x.entry.id@).contains(it));
    crate::table::lemma_filter_members(fin.items@, crate::store::item_of_entry(x.entry.id@));
    let c = choose|c: int| 0 <= c < fin.items@.len() && fin.items@[c] == it;
    fin.lemma_item_at(c);
}

/// The place of the item `id` in a listing of items.
fn find_shown_item(items: &Vec<EntryItemWithMetadata>, id: &String) -> (r: Option<usize>)
    ensures
        r matches Some(k) ==> k < items@.len() && items@[k as int].item.id@ == id@,
        r is None ==> forall|k: int| 0 <= k < items@.len() ==> (#[trigger] items@[k]).item.id@ != id@,
{
    let mut k: usize = 0;
    while k < items.len()
        invariant
            k <= items@.len(),
            forall|m: int| 0 <= m < k ==> (#[trigger] items@[m]).item.id@ != id@,
        decreases items@.len() - k,
    {
        if items[k].item.id == *id {
            return Some(k);
        }
        k = k + 1;
    }
    None
}

/// `after` is `before` with the item `id` changed as `u` asks: the given
/// content and project written, the given tag, people and issue lists in
/// place of the old ones, everything else of that item kept; other items and
/// entries are untouched, and tags and people only grew.
pub open spec fn item_update_made(before: Database, after: Database, id: Seq<char>, u: UpdateEntryItemRequest) -> bool {
    let it0 = before.item_with_id(id);
    let it = after.item_with_id(id);
    &&& after.has_item(id)
    &&& it.id == it0.id
    &&& it.entry_id == it0.entry_id
    &&& it.item_type == it0.item_type
    &&& it.created_at == it0.created_at
    &&& (u.content matches Some(c) ==> it.content@ == c@)
    &&& (u.content is None ==> it.content == it0.content)
    &&& (u.project matches Some(p) ==> text_view(it.project) == Some(p@))
    &&& (u.project is None ==> it.project == it0.project)
    &&& (u.tags matches Some(ns) ==> forall|n: Seq<char>| #[trigger] after.tag_named_on(id, n) <==> texts(ns@).contains(n))
    &&& (u.tags is None ==> forall|n: Seq<char>| #[trigger] after.tag_named_on(id, n) <==> before.tag_named_on(id, n))
    &&& (u.people matches Some(ns) ==> forall|n: Seq<char>| #[trigger] after.person_named_on(id, n) <==> texts(ns@).contains(n))
    &&& (u.people is None ==> forall|n: Seq<char>| #[trigger] after.person_named_on(id, n) <==> before.person_named_on(id, n))
    &&& (u.jira matches Some(js) ==> after.jira_keys_of(id) == texts(js@))
    &&& (u.jira is None ==> after.jira_keys_of(id) == before.jira_keys_of(id))
    &&& grows(before.tags@, after.tags@)
    &&& grows(before.people@, after.people@)
    &&& after.entries@ == before.entries@
    &&& forall|x: Seq<char>| #[trigger] after.has_item(x) <==> before.has_item(x)
    &&& forall|x: Seq<char>| x != id && before.has_item(x) ==> #[trigger] after.item_with_id(x) == before.item_with_id(x)
        && after.jira_keys_of(x) == before.jira_keys_of(x)
    &&& forall|x: Seq<char>, n: Seq<char>| x != id && before.has_item(x) ==> (#[trigger] after.tag_named_on(x, n)
        <==> before.tag_named_on(x, n))
    &&& forall|x: Seq<char>, n: Seq<char>| x != id && before.has_item(x) ==> (#[trigger] after.person_named_on(x, n)
        <==> before.person_named_on(x, n))
    &&& after.projects@ == before.projects@
    &&& after.meetings@ == before.meetings@
    &&& after.attendees@ == before.attendees@
    &&& after.actions@ == before.actions@
}

/// `u` asks for nothing that needs a fresh identifier: every tag and person
/// it names exists, and it gives no issue keys.
pub open spec fn asks_nothing_new(db: Database, u: UpdateEntryItemRequest) -> bool {
    &&& u.tags matches Some(ns) ==> forall|k: int| 0 <= k < ns@.len() ==> db.has_tag_named(#[trigger] ns@[k]@)
    &&& u.people matches Some(ns) ==> forall|k: int| 0 <= k < ns@.len() ==> db.has_person_named(#[trigger] ns@[k]@)
    &&& u.jira matches Some(js) ==> js@.len() == 0
}

/// Rows of the item `id` changed in place, other rows kept, keep what is
/// known of every other item.
proof fn lemma_other_row_kept(a: Database, b: Database, id: Seq<char>, x: Seq<char>)
    requires
        a.wf(),
        b.wf(),
        a.items@.len() == b.items@.len(),
        forall|i: int| 0 <= i < a.items@.len() ==> (#[trigger] b.items@[i]).id == a.items@[i].id,
        forall|i: int| 0 <= i < a.items@.len() && a.items@[i].id@ != id ==> #[trigger] b.items@[i] == a.items@[i],
        a.has_item(x),
        x != id,
    ensures
        b.has_item(x),
        b.item_with_id(x) == a.item_with_id(x),
{
    let c = choose|c: int| 0 <= c < a.items@.len() && #[trigger] a.items@[c].id@ == x;
    a.lemma_item_at(c);
    assert(b.items@[c] == a.items@[c]);
    b.lemma_item_at(c);
}

/// Writes the parts of the item `id` that `u` gives, replacing its tag,
/// people and issue lists by those given.
pub fn apply_item_updates(db: &mut Database, id: &str, u: &UpdateEntryItemRequest) -> (r: Result<(), String>)
    requires
        old(db).wf(),
        old(db).has_item(id@),
    ensures
        final(db).wf(),
        asks_nothing_new(*old(db), *u) ==> r is Ok,
        r is Ok ==> item_update_made(*old(db), *final(db), id@, *u),
{
    let ghost s0 = *db;
    if let Some(c) = &u.content {
        db.update_entry_item_content(id, c.as_str());
    }
    let ghost s1 = *db;
    if let Some(p) = &u.project {
        db.update_entry_item_project(id, Some(p.as_str()));
    }
    let ghost s2 = *db;
    proof {
        assert(s2.tags@ == s0.tags@ && s2.people@ == s0.people@);
        if asks_nothing_new(s0, *u) {
            if u.tags is Some {
                let ns = u.tags->Some_0;
                assert forall|k: int| 0 <= k < ns@.len() implies s2.has_tag_named(#[trigger] ns@[k]@) by {
                    assert(s0.has_tag_named(ns@[k]@));
                    let w = choose|w: int| 0 <= w < s0.tags@.len() && #[trigger] s0.tags@[w].name@ == ns@[k]@;
                    assert(s2.tags@[w].name@ == ns@[k]@);
                }
            }
        }
        assert(s2.has_item(id@));
    }
    if let Some(names) = &u.tags {
        match db.replace_item_tags(id, names) {
            Ok(()) => {},
            Err(e) => {
                return Err(failure("update tags", e));
            },
        }
    }
    let ghost s3 = *db;
    proof {
        Database::lemma_same_items(s2, s3);
        if asks_nothing_new(s0, *u) {
            assert(s3.people@ == s0.people@);
            if u.people is Some {
                let ns = u.people->Some_0;
                assert forall|k: int| 0 <= k < ns@.len() implies s3.has_person_named(#[trigger] ns@[k]@) by {
                    assert(s0.has_person_named(ns@[k]@));
                    let w = choose|w: int| 0 <= w < s0.people@.len() && #[trigger] s0.people@[w].name@ == ns@[k]@;
                    assert(s3.people@[w].name@ == ns@[k]@);
                }
            }
        }
    }
    if let Some(names) = &u.people {
        match db.replace_item_people(id, names) {
            Ok(()) => {},
            Err(e) => {
                return Err(failure("update people", e));
            },
        }
    }
    let ghost s4 = *db;
    proof {
        Database::lemma_same_items(s3, s4);
    }
    if let Some(keys) = &u.jira {
        match db.replace_item_jira_refs(id, keys) {
            Ok(()) => {},
            Err(e) => {
                return Err(failure("update Jira refs", e));
            },
        }
    }
    proof {
        let fin = *db;
        let key = id@;
        Database::lemma_same_items(s4, fin);
        Database::lemma_same_items(s2, fin);
        assert(fin.items@ == s2.items@);
        let w = choose|w: int| 0 <= w < s0.items@.len() && #[trigger] s0.items@[w].id@ == key;
        s0.lemma_item_at(w);
        assert(s1.items@.len() == s0.items@.len());
        assert(s2.items@.len() == s1.items@.len());
        if u.content is Some {
            assert(s1.items@[w].id == s0.items@[w].id);
        } else {
            assert(s1.items@ == s0.items@);
        }
        if u.project is Some {
            assert(s2.items@[w].id == s1.items@[w].id);
        } else {
            assert(s2.items@ == s1.items@);
        }
        assert(fin.items@[w].id@ == key);
        fin.lemma_item_at(w);
        assert forall|i: int| 0 <= i < s0.items@.len() implies (#[trigger] fin.items@[i]).id == s0.items@[i].id by {
            assert(s1.items@[i].id == s0.items@[i].id);
            assert(s2.items@[i].id == s1.items@[i].id);
        }
        assert forall|i: int| 0 <= i < s0.items@.len() && s0.items@[i].id@ != key implies #[trigger] fin.items@[i]
            == s0.items@[i] by {
            assert(s1.items@[i] == s0.items@[i]);
            assert(s2.items@[i] == s1.items@[i]);
        }
        lemma_grows_trans(s0.tags@, s3.tags@, fin.tags@);
        lemma_grows_trans(s0.people@, s4.people@, fin.people@);
        assert forall|x: Seq<char>| x != key && s0.has_item(x) implies #[trigger] fin.item_with_id(x) == s0.item_with_id(x)
            && fin.jira_keys_of(x) == s0.jira_keys_of(x) by {
            lemma_other_row_kept(s0, fin, key, x);
            assert(fin.jira_refs_of(x) == s0.jira_refs_of(x));
            assert(fin.jira_keys_of(x) =~= s0.jira_keys_of(x));
        }
        assert forall|x: Seq<char>, n: Seq<char>| x != key && s0.has_item(x) implies (#[trigger] fin.tag_named_on(x, n)
            <==> s0.tag_named_on(x, n)) by {
            assert forall|l: ItemTag| l.entry_item_id@ == x implies (#[trigger] fin.item_tags@.contains(l)
                <==> s0.item_tags@.contains(l)) by {
                assert(s3.item_tags@.contains(l) <==> s2.item_tags@.contains(l));
            }
            Database::lemma_tag_names_kept(s0, fin, x);
        }
        assert forall|x: Seq<char>, n: Seq<char>| x != key && s0.has_item(x) implies (#[trigger] fin.person_named_on(x, n)
            <==> s0.person_named_on(x, n)) by {
            assert forall|l: ItemPerson| l.entry_item_id@ == x implies (#[trigger] fin.item_people@.contains(l)
                <==> s0.item_people@.contains(l)) by {
                assert(s4.item_people@.contains(l) <==> s3.item_people@.contains(l));
            }
            Database::lemma_person_names_kept(s0, fin, x);
        }
        if u.tags is None {
            Database::lemma_tag_names_kept(s0, fin, key);
        } else {
            Database::lemma_tag_names_kept(s3, fin, key);
        }
        if u.people is None {
            Database::lemma_person_names_kept(s0, fin, key);
        } else {
            Database::lemma_person_names_kept(s4, fin, key);
        }
        if u.jira is None {
            assert(fin.jira_keys_of(key) =~= s0.jira_keys_of(key));
        }
        if u.content is None {
            assert(s1.items@[w] == s0.items@[w]);
        }
        if u.project is None {
            assert(s2.items@[w].project == s1.items@[w].project);
        }
        assert(item_update_made(s0, fin, key, *u));
    }
    Ok(())
}

/// Changes the given parts of an item: its content, its project, and, as
/// whole lists, its tags, issue keys and people; then shows the item as
/// stored. An unknown item fails the command before anything is written. A
/// failed later step ends the command; what was written before it stays.
pub fn update_entry_item(db: &mut Database, entry_item_id: String, updates: UpdateEntryItemRequest) -> (r: Result<
    ItemResponse,
    String,
>)
    requires
        old(db).wf(),
    ensures
        final(db).wf(),
        !old(db).has_item(entry_item_id@) ==> (r matches Err(m) && m@ == failure_text(
            "update entry item"@,
            LogbookError::NotFound,
        )) && *final(db) == *old(db),
        old(db).has_item(entry_item_id@) && asks_nothing_new(*old(db), updates) ==> r is Ok,
        r matches Ok(resp) ==> {
            let id = entry_item_id@;
            let it = final(db).item_with_id(id);
            &&& item_update_made(*old(db), *final(db), id, updates)
            &&& resp.id@ == id
            &&& resp.item_type == it.item_type
            &&& resp.content == it.content
            &&& resp.project == it.project
            &&& texts(resp.tags@) == tag_names(final(db).tags_of(id))
            &&& texts(resp.jira@) == jira_keys(final(db).jira_refs_of(id))
            &&& texts(resp.people@) == person_names(final(db).people_of(id))
        },
{
    if !db.contains_item(entry_item_id.as_str()) {
        return Err(failure("update entry item", LogbookError::NotFound));
    }
    let ghost s0 = *db;
    match apply_item_updates(db, entry_item_id.as_str(), &updates) {
        Ok(()) => {},
        Err(m) => {
            return Err(m);
        },
    }
    let x = match db.get_entry_with_items(entry_item_id.as_str()) {
        Ok(x) => x,
        Err(e) => {
            return Err(failure("get updated entry item", e));
        },
    };
    if let Some(k) = find_shown_item(&x.items, &entry_item_id) {
        let resp = item_response(&x.items[k]);
        proof {
            lemma_listed_item_is_stored(*db, x, k as int);
        }
        return Ok(resp);
    }
    proof {
        lemma_item_is_listed(*db, x, entry_item_id@);
    }
    Err(String::from_str("Entry item not found"))
}

} // verus!
