use logbook::commands::{
    create_entry, get_all_entries, update_entry_item, delete_entry, delete_entry_item, export_entries_csv,
    export_entries_markdown, create_project, get_all_projects, update_project, delete_project, create_tag, get_all_tags,
    update_tag, delete_tag, create_meeting, get_all_meetings, add_meeting_attendee, get_meeting_attendees,
    create_meeting_action, get_meeting_actions, delete_meeting, CreateEntryRequest, CreateItemRequest,
    UpdateEntryItemRequest, CreateProjectRequest, UpdateProjectRequest, CreateTagRequest, UpdateTagRequest,
    CreateMeetingRequest, AddAttendeeRequest, CreateActionRequest,
};
use logbook::store::Database;

fn names(v: &[&str]) -> Vec<String> {
    v.iter().map(|s| s.to_string()).collect()
}

fn item(item_type: &str, content: &str, tags: &[&str], jira: &[&str], people: &[&str]) -> CreateItemRequest {
    CreateItemRequest {
        item_type: item_type.to_string(),
        content: content.to_string(),
        project: None,
        tags: names(tags),
        jira: names(jira),
        people: names(people),
    }
}

fn stand_up(db: &mut Database) -> String {
    let r = create_entry(db, CreateEntryRequest {
        timestamp: "2024-01-01T09:00:00Z".to_string(),
        items: vec![item("Note", "stand-up", &["team-a"], &[], &["alice"])],
    })
    .unwrap();
    r.items[0].id.clone()
}

fn no_updates() -> UpdateEntryItemRequest {
    UpdateEntryItemRequest { content: None, project: None, tags: None, jira: None, people: None }
}

#[test]
fn stand_up_scenario() {
    let mut db = Database::new();
    let made = create_entry(&mut db, CreateEntryRequest {
        timestamp: "2024-01-01T09:00:00Z".to_string(),
        items: vec![item("Note", "stand-up", &["team-a"], &[], &["alice"])],
    })
    .unwrap();
    assert_eq!(made.timestamp, "2024-01-01T09:00:00+00:00");
    let all = get_all_entries(&db).unwrap();
    assert_eq!(all.len(), 1);
    assert_eq!(all[0].items.len(), 1);
    assert_eq!(all[0].items[0].tags, names(&["team-a"]));
    assert_eq!(all[0].items[0].people, names(&["alice"]));
    let listed = db.get_all_entries_with_items();
    let tag_id = listed[0].items[0].tags[0].id.clone();
    let again = db.get_or_create_tag("team-a").unwrap();
    assert_eq!(again.id, tag_id);
}

#[test]
fn clearing_tags_keeps_the_tag_row() {
    let mut db = Database::new();
    let id = stand_up(&mut db);
    let r = update_entry_item(&mut db, id.clone(), UpdateEntryItemRequest { tags: Some(vec![]), ..no_updates() }).unwrap();
    assert!(r.tags.is_empty());
    assert_eq!(r.people, names(&["alice"]));
    assert!(db.item_tags.is_empty());
    let tags = get_all_tags(&db).unwrap();
    assert_eq!(tags.len(), 1);
    assert_eq!(tags[0].name, "team-a");
    let all = get_all_entries(&db).unwrap();
    assert!(all[0].items[0].tags.is_empty());
}

#[test]
fn create_entry_converts_offsets_to_utc() {
    let mut db = Database::new();
    let r = create_entry(&mut db, CreateEntryRequest {
        timestamp: "2024-01-01T10:30:00+01:00".to_string(),
        items: vec![],
    })
    .unwrap();
    assert_eq!(r.timestamp, "2024-01-01T09:30:00+00:00");
    assert!(r.items.is_empty());
}

#[test]
fn create_entry_rejects_a_bad_timestamp() {
    let mut db = Database::new();
    let r = create_entry(&mut db, CreateEntryRequest { timestamp: "yesterday".to_string(), items: vec![] });
    assert_eq!(r.unwrap_err(), "Invalid timestamp");
    assert!(db.entries.is_empty());
}

#[test]
fn create_entry_echoes_every_item() {
    let mut db = Database::new();
    let mut second = item("Action", "ship", &["a", "b"], &["PRJ-1", "PRJ-2"], &["x"]);
    second.project = Some("apollo".to_string());
    let r = create_entry(&mut db, CreateEntryRequest {
        timestamp: "2024-02-03T04:05:06Z".to_string(),
        items: vec![item("Note", "n", &["a"], &[], &[]), second],
    })
    .unwrap();
    assert_eq!(r.items.len(), 2);
    assert_eq!(r.items[1].project.as_deref(), Some("apollo"));
    assert_eq!(r.items[1].jira, names(&["PRJ-1", "PRJ-2"]));
    assert_eq!(db.tags.len(), 2);
    assert_eq!(db.item_tags.len(), 3);
    assert_eq!(db.jira_refs.len(), 2);
}

#[test]
fn update_replaces_tags_and_reports_the_item() {
    let mut db = Database::new();
    let id = stand_up(&mut db);
    update_entry_item(&mut db, id.clone(), UpdateEntryItemRequest { tags: Some(names(&["A", "B"])), ..no_updates() }).unwrap();
    let r = update_entry_item(&mut db, id.clone(), UpdateEntryItemRequest {
        content: Some("retro".to_string()),
        project: Some("apollo".to_string()),
        tags: Some(names(&["B", "C"])),
        jira: Some(names(&["K-1"])),
        people: Some(names(&["bob"])),
    })
    .unwrap();
    assert_eq!(r.id, id);
    assert_eq!(r.content, "retro");
    assert_eq!(r.project.as_deref(), Some("apollo"));
    let mut tags = r.tags.clone();
    tags.sort();
    assert_eq!(tags, names(&["B", "C"]));
    assert_eq!(r.jira, names(&["K-1"]));
    assert_eq!(r.people, names(&["bob"]));
    assert_eq!(db.item_tags.len(), 2);
}

#[test]
fn update_reports_the_item_asked_for() {
    let mut db = Database::new();
    create_entry(&mut db, CreateEntryRequest {
        timestamp: "2024-01-01T09:00:00Z".to_string(),
        items: vec![item("Note", "one", &[], &[], &[]), item("Note", "two", &[], &[], &[])],
    })
    .unwrap();
    let all = get_all_entries(&db).unwrap();
    let second = all[0].items.iter().find(|i| i.content == "two").unwrap().id.clone();
    let r = update_entry_item(&mut db, second.clone(), UpdateEntryItemRequest { content: Some("2".to_string()), ..no_updates() }).unwrap();
    assert_eq!(r.id, second);
    assert_eq!(r.content, "2");
}

#[test]
fn update_of_a_missing_item_fails() {
    let mut db = Database::new();
    assert!(update_entry_item(&mut db, "missing".to_string(), no_updates()).is_err());
    assert!(update_entry_item(&mut db, "missing".to_string(), UpdateEntryItemRequest { tags: Some(names(&["t"])), ..no_updates() }).is_err());
}

#[test]
fn deleting_through_commands() {
    let mut db = Database::new();
    let id = stand_up(&mut db);
    let entry = db.entries[0].id.clone();
    delete_entry_item(&mut db, id).unwrap();
    assert!(db.items.is_empty());
    assert!(db.item_tags.is_empty());
    delete_entry(&mut db, entry).unwrap();
    assert!(db.entries.is_empty());
}

#[test]
fn exports_through_commands() {
    let mut db = Database::new();
    stand_up(&mut db);
    assert_eq!(
        export_entries_csv(&db).unwrap(),
        "Date,Time,Type,Content,Project,Tags,Jira,People\n2024-01-01,09:00:00,Note,\"stand-up\",\"\",\"team-a\",\"\",\"alice\"\n"
    );
    assert_eq!(
        export_entries_markdown(&db).unwrap(),
        "# ScoBro Logbook Export\n\n## 2024-01-01 09:00:00\n\n### 🟢 Note\nstand-up\n\n**Tags:** 🏷 team-a\n\n**People:** 👤 alice\n\n---\n\n"
    );
}

#[test]
fn project_commands() {
    let mut db = Database::new();
    let p = create_project(&mut db, CreateProjectRequest { name: "apollo".to_string(), description: None, color: None }).unwrap();
    assert_eq!(p.color, "#0275d8");
    assert_eq!(p.created_at, p.updated_at);
    let dup = create_project(&mut db, CreateProjectRequest { name: "apollo".to_string(), description: None, color: None });
    assert_eq!(dup.unwrap_err(), "Failed to create project: an identifier or name is already taken");
    let u = update_project(&mut db, UpdateProjectRequest { id: p.id.clone(), name: Some("gemini".to_string()), description: None, color: None }).unwrap();
    assert_eq!(u.name, "gemini");
    let missing = update_project(&mut db, UpdateProjectRequest { id: "x".to_string(), name: None, description: None, color: None });
    assert_eq!(missing.unwrap_err(), "Failed to update project: no such row");
    assert_eq!(get_all_projects(&db).unwrap().len(), 1);
    delete_project(&mut db, p.id).unwrap();
    assert!(get_all_projects(&db).unwrap().is_empty());
}

#[test]
fn tag_commands() {
    let mut db = Database::new();
    let t = create_tag(&mut db, CreateTagRequest { name: "ops".to_string(), description: None, color: Some("#111111".to_string()), category: Some("area".to_string()) }).unwrap();
    assert_eq!(t.color, "#111111");
    assert_eq!(t.category.as_deref(), Some("area"));
    let u = update_tag(&mut db, UpdateTagRequest { id: t.id.clone(), name: None, description: Some("d".to_string()), color: None, category: None }).unwrap();
    assert_eq!(u.description.as_deref(), Some("d"));
    assert_eq!(u.category.as_deref(), Some("area"));
    delete_tag(&mut db, t.id).unwrap();
    assert!(get_all_tags(&db).unwrap().is_empty());
}

#[test]
fn meeting_commands() {
    let mut db = Database::new();
    let m = create_meeting(&mut db, CreateMeetingRequest {
        title: "planning".to_string(),
        description: None,
        start_time: Some("2024-04-01T10:00:00Z".to_string()),
        end_time: Some("not a time".to_string()),
        location: None,
        meeting_type: None,
    })
    .unwrap();
    assert_eq!(m.start_time.as_deref(), Some("2024-04-01T10:00:00+00:00"));
    assert_eq!(m.end_time, None);
    assert_eq!(m.meeting_type, "meeting");
    assert_eq!(get_all_meetings(&db).unwrap().len(), 1);
    let a = add_meeting_attendee(&mut db, AddAttendeeRequest { meeting_id: m.id.clone(), name: "amy".to_string(), email: None, role: None }).unwrap();
    assert_eq!(a.role, "attendee");
    let missing = add_meeting_attendee(&mut db, AddAttendeeRequest { meeting_id: "x".to_string(), name: "amy".to_string(), email: None, role: None });
    assert_eq!(missing.unwrap_err(), "Failed to add attendee: a referenced row does not exist");
    assert_eq!(get_meeting_attendees(&db, m.id.clone()).unwrap().len(), 1);
    let act = create_meeting_action(&mut db, CreateActionRequest {
        meeting_id: m.id.clone(),
        title: "book room".to_string(),
        description: None,
        assignee: None,
        due_date: Some("2024-04-02T00:00:00.250Z".to_string()),
        priority: None,
    })
    .unwrap();
    assert_eq!(act.due_date.as_deref(), Some("2024-04-02T00:00:00.250+00:00"));
    assert_eq!(act.priority, "medium");
    assert_eq!(get_meeting_actions(&db, m.id.clone()).unwrap().len(), 1);
    delete_meeting(&mut db, m.id).unwrap();
    assert!(get_all_meetings(&db).unwrap().is_empty());
    assert!(db.actions.is_empty());
}

#[test]
fn update_of_an_unknown_item_writes_nothing() {
    let mut db = Database::new();
    stand_up(&mut db);
    let r = update_entry_item(&mut db, "missing".to_string(), UpdateEntryItemRequest { tags: Some(names(&["new-tag"])), ..no_updates() });
    assert_eq!(r.unwrap_err(), "Failed to update entry item: no such row");
    assert_eq!(db.tags.len(), 1);
    assert_eq!(db.item_tags.len(), 1);
}

#[test]
fn update_keeps_what_is_not_given_and_other_items() {
    let mut db = Database::new();
    let made = create_entry(&mut db, CreateEntryRequest {
        timestamp: "2024-01-01T09:00:00Z".to_string(),
        items: vec![item("Note", "one", &["a"], &["K-1"], &["p"]), item("Action", "two", &["b"], &[], &[])],
    })
    .unwrap();
    let first = made.items[0].id.clone();
    let r = update_entry_item(&mut db, first.clone(), UpdateEntryItemRequest { content: Some("uno".to_string()), ..no_updates() }).unwrap();
    assert_eq!(r.content, "uno");
    assert_eq!(r.item_type, "Note");
    assert_eq!(r.tags, names(&["a"]));
    assert_eq!(r.jira, names(&["K-1"]));
    assert_eq!(r.people, names(&["p"]));
    let all = get_all_entries(&db).unwrap();
    let second = all[0].items.iter().find(|i| i.id == made.items[1].id).unwrap();
    assert_eq!(second.content, "two");
    assert_eq!(second.tags, names(&["b"]));
}

#[test]
fn create_entry_without_items_adds_one_entry() {
    let mut db = Database::new();
    let r = create_entry(&mut db, CreateEntryRequest { timestamp: "2024-06-01T00:00:00Z".to_string(), items: vec![] }).unwrap();
    assert_eq!(db.entries.len(), 1);
    assert_eq!(db.entries[0].id, r.id);
    assert!(db.items.is_empty());
}

#[test]
fn meeting_action_starts_open_and_unlinked() {
    let mut db = Database::new();
    let m = create_meeting(&mut db, CreateMeetingRequest { title: "t".to_string(), description: None, start_time: None, end_time: None, location: None, meeting_type: None }).unwrap();
    let a = create_meeting_action(&mut db, CreateActionRequest { meeting_id: m.id, title: "x".to_string(), description: None, assignee: None, due_date: None, priority: Some("high".to_string()) }).unwrap();
    assert_eq!(a.status, "open");
    assert_eq!(a.entry_item_id, None);
    assert_eq!(a.priority, "high");
}
