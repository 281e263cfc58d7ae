use logbook::store::{Database, LogbookError};
use logbook::time::Timestamp;

fn at(year: i32, month: u32, day: u32, hour: u32) -> Timestamp {
    Timestamp { year, month, day, hour, minute: 0, second: 0, nanosecond: 0 }
}

fn with_item(db: &mut Database) -> (String, String) {
    let e = db.create_entry(at(2024, 1, 1, 9)).unwrap();
    let it = db.create_entry_item(&e.id, "Note", "stand-up", None).unwrap();
    (e.id, it.id)
}

#[test]
fn fresh_identifiers_are_distinct_uuids() {
    let mut db = Database::new();
    let a = db.create_entry(at(2024, 1, 1, 9)).unwrap();
    let b = db.create_entry(at(2024, 1, 1, 9)).unwrap();
    assert_eq!(a.id.len(), 36);
    assert_ne!(a.id, b.id);
    assert_eq!(a.created_at, a.updated_at);
    assert_eq!(a.timestamp, at(2024, 1, 1, 9));
}

#[test]
fn insert_entry_rejects_a_taken_id() {
    let mut db = Database::new();
    let t = at(2024, 1, 1, 9);
    assert!(db.insert_entry("e1".to_string(), t, t).is_ok());
    assert_eq!(db.insert_entry("e1".to_string(), t, t).unwrap_err(), LogbookError::Conflict);
    assert_eq!(db.entries.len(), 1);
}

#[test]
fn item_needs_its_entry() {
    let mut db = Database::new();
    let r = db.create_entry_item("missing", "Note", "x", None);
    assert_eq!(r.unwrap_err(), LogbookError::Referential);
    assert!(db.items.is_empty());
}

#[test]
fn get_or_create_tag_twice_gives_one_tag() {
    let mut db = Database::new();
    let a = db.get_or_create_tag("team-a").unwrap();
    let b = db.get_or_create_tag("team-a").unwrap();
    assert_eq!(a.id, b.id);
    assert_eq!(db.tags.len(), 1);
    assert_eq!(a.color, "#6c757d");
    assert_eq!(a.description, None);
    assert_eq!(a.category, None);
}

#[test]
fn get_or_insert_tag_uses_the_given_id_only_when_new() {
    let mut db = Database::new();
    let t = at(2024, 1, 1, 9);
    let a = db.get_or_insert_tag("x".to_string(), "id-1".to_string(), t).unwrap();
    assert_eq!(a.id, "id-1");
    let b = db.get_or_insert_tag("x".to_string(), "id-2".to_string(), t).unwrap();
    assert_eq!(b.id, "id-1");
    let c = db.get_or_insert_tag("y".to_string(), "id-1".to_string(), t);
    assert_eq!(c.unwrap_err(), LogbookError::Conflict);
}

#[test]
fn get_or_create_person_twice_gives_one_person() {
    let mut db = Database::new();
    let a = db.get_or_create_person("alice").unwrap();
    let b = db.get_or_create_person("alice").unwrap();
    assert_eq!(a.id, b.id);
    assert_eq!(db.people.len(), 1);
}

#[test]
fn linking_twice_leaves_one_join_row() {
    let mut db = Database::new();
    let (_, item) = with_item(&mut db);
    let tag = db.get_or_create_tag("team-a").unwrap();
    assert!(db.link_item_tag(&item, &tag.id).is_ok());
    assert!(db.link_item_tag(&item, &tag.id).is_ok());
    assert_eq!(db.item_tags.len(), 1);
    let p = db.get_or_create_person("alice").unwrap();
    assert!(db.link_item_person(&item, &p.id).is_ok());
    assert!(db.link_item_person(&item, &p.id).is_ok());
    assert_eq!(db.item_people.len(), 1);
}

#[test]
fn linking_needs_both_rows() {
    let mut db = Database::new();
    let (_, item) = with_item(&mut db);
    assert_eq!(db.link_item_tag(&item, "no-tag").unwrap_err(), LogbookError::Referential);
    let tag = db.get_or_create_tag("t").unwrap();
    assert_eq!(db.link_item_tag("no-item", &tag.id).unwrap_err(), LogbookError::Referential);
    assert_eq!(db.link_item_person(&item, "no-person").unwrap_err(), LogbookError::Referential);
    assert!(db.item_tags.is_empty());
}

#[test]
fn jira_refs_may_repeat_a_key() {
    let mut db = Database::new();
    let (_, item) = with_item(&mut db);
    db.create_jira_ref(&item, "PRJ-1").unwrap();
    db.create_jira_ref(&item, "PRJ-1").unwrap();
    assert_eq!(db.get_item_jira_refs(&item).len(), 2);
    assert_eq!(db.create_jira_ref("missing", "PRJ-2").unwrap_err(), LogbookError::Referential);
}

#[test]
fn listing_orders_entries_latest_first_and_items_earliest_first() {
    let mut db = Database::new();
    let t = at(2024, 1, 1, 9);
    db.insert_entry("jan".to_string(), at(2024, 1, 1, 9), t).unwrap();
    db.insert_entry("mar".to_string(), at(2024, 3, 1, 9), t).unwrap();
    db.insert_entry("feb".to_string(), at(2024, 2, 1, 9), t).unwrap();
    db.insert_entry_item("i2".to_string(), "jan".to_string(), "Note".to_string(), "second".to_string(), None, at(2024, 1, 2, 0)).unwrap();
    db.insert_entry_item("i1".to_string(), "jan".to_string(), "Note".to_string(), "first".to_string(), None, at(2024, 1, 1, 0)).unwrap();
    db.insert_entry_item("i3".to_string(), "jan".to_string(), "Note".to_string(), "third".to_string(), None, at(2024, 1, 3, 0)).unwrap();
    let all = db.get_all_entries_with_items();
    let ids: Vec<&str> = all.iter().map(|x| x.entry.id.as_str()).collect();
    assert_eq!(ids, vec!["mar", "feb", "jan"]);
    let items: Vec<&str> = all[2].items.iter().map(|m| m.item.content.as_str()).collect();
    assert_eq!(items, vec!["first", "second", "third"]);
    assert!(all[0].items.is_empty());
}

#[test]
fn deleting_an_entry_removes_everything_below_it() {
    let mut db = Database::new();
    let (entry, item) = with_item(&mut db);
    let other = db.create_entry(at(2024, 5, 1, 9)).unwrap();
    let kept = db.create_entry_item(&other.id, "Note", "kept", None).unwrap();
    let tag = db.get_or_create_tag("t").unwrap();
    db.link_item_tag(&item, &tag.id).unwrap();
    db.link_item_tag(&kept.id, &tag.id).unwrap();
    let p = db.get_or_create_person("p").unwrap();
    db.link_item_person(&item, &p.id).unwrap();
    db.create_jira_ref(&item, "PRJ-1").unwrap();
    db.create_jira_ref(&kept.id, "PRJ-2").unwrap();
    db.delete_entry(&entry);
    assert_eq!(db.entries.len(), 1);
    assert_eq!(db.items.len(), 1);
    assert_eq!(db.items[0].id, kept.id);
    assert_eq!(db.jira_refs.len(), 1);
    assert_eq!(db.jira_refs[0].jira_key, "PRJ-2");
    assert_eq!(db.item_tags.len(), 1);
    assert!(db.item_people.is_empty());
    assert_eq!(db.tags.len(), 1);
    assert_eq!(db.people.len(), 1);
}

#[test]
fn deleting_a_missing_row_changes_nothing() {
    let mut db = Database::new();
    with_item(&mut db);
    db.delete_entry("missing");
    db.delete_entry_item("missing");
    assert_eq!(db.entries.len(), 1);
    assert_eq!(db.items.len(), 1);
}

#[test]
fn deleting_an_item_clears_actions_that_name_it() {
    let mut db = Database::new();
    let (_, item) = with_item(&mut db);
    let m = db.create_meeting("sync", None, None, None, None, None).unwrap();
    let a = db.create_meeting_action(&m.id, "follow up", None, None, None, None).unwrap();
    db.actions[0].entry_item_id = Some(item.clone());
    db.delete_entry_item(&item);
    assert!(db.items.is_empty());
    assert_eq!(db.actions.len(), 1);
    assert_eq!(db.actions[0].id, a.id);
    assert_eq!(db.actions[0].entry_item_id, None);
    assert_eq!(db.actions[0].title, "follow up");
}

#[test]
fn replacing_a_tag_set_keeps_exactly_the_new_names() {
    let mut db = Database::new();
    let (_, item) = with_item(&mut db);
    db.replace_item_tags(&item, &vec!["A".to_string(), "B".to_string()]).unwrap();
    db.replace_item_tags(&item, &vec!["B".to_string(), "C".to_string()]).unwrap();
    let mut names: Vec<String> = db.get_item_tags(&item).into_iter().map(|t| t.name).collect();
    names.sort();
    assert_eq!(names, vec!["B".to_string(), "C".to_string()]);
    assert_eq!(db.item_tags.len(), 2);
    assert_eq!(db.tags.len(), 3);
}

#[test]
fn replacing_issue_keys_keeps_their_order() {
    let mut db = Database::new();
    let (_, item) = with_item(&mut db);
    db.replace_item_jira_refs(&item, &vec!["X-1".to_string()]).unwrap();
    db.replace_item_jira_refs(&item, &vec!["Y-2".to_string(), "Z-3".to_string()]).unwrap();
    let keys: Vec<String> = db.get_item_jira_refs(&item).into_iter().map(|j| j.jira_key).collect();
    assert_eq!(keys, vec!["Y-2".to_string(), "Z-3".to_string()]);
}

#[test]
fn replacing_on_a_missing_item_fails() {
    let mut db = Database::new();
    assert!(db.replace_item_tags("missing", &vec!["A".to_string()]).is_err());
    assert!(db.replace_item_tags("missing", &vec![]).is_ok());
    assert_eq!(db.replace_item_jira_refs("missing", &vec!["K".to_string()]).unwrap_err(), LogbookError::Referential);
}

#[test]
fn item_view_after_update() {
    let mut db = Database::new();
    let (entry, item) = with_item(&mut db);
    db.update_entry_item_content(&item, "retro");
    db.update_entry_item_project(&item, Some("apollo"));
    let x = db.get_entry_with_items(&item).unwrap();
    assert_eq!(x.entry.id, entry);
    assert_eq!(x.items[0].item.content, "retro");
    assert_eq!(x.items[0].item.project.as_deref(), Some("apollo"));
    assert_eq!(db.get_entry_with_items("missing").unwrap_err(), LogbookError::NotFound);
}

#[test]
fn set_content_stamps_the_given_instant() {
    let mut db = Database::new();
    let (_, item) = with_item(&mut db);
    db.set_entry_item_content(&item, "new", at(2030, 1, 1, 0));
    assert_eq!(db.items[0].content, "new");
    assert_eq!(db.items[0].updated_at, at(2030, 1, 1, 0));
}

#[test]
fn projects_list_by_name_and_names_are_unique() {
    let mut db = Database::new();
    db.create_project("zeta", None, None).unwrap();
    let a = db.create_project("alpha", Some("first"), Some("#ffffff")).unwrap();
    assert_eq!(a.color, "#ffffff");
    assert_eq!(db.create_project("alpha", None, None).unwrap_err(), LogbookError::Conflict);
    let names: Vec<String> = db.get_all_projects().into_iter().map(|p| p.name).collect();
    assert_eq!(names, vec!["alpha".to_string(), "zeta".to_string()]);
    let z = db.get_project_by_name("zeta").unwrap();
    assert_eq!(z.color, "#0275d8");
    assert!(db.get_project_by_name("none").is_none());
}

#[test]
fn project_update_writes_only_given_fields() {
    let mut db = Database::new();
    let p = db.create_project("alpha", Some("d"), None).unwrap();
    db.create_project("beta", None, None).unwrap();
    let u = db.set_project(&p.id, None, None, Some("#000000"), at(2031, 1, 1, 0)).unwrap();
    assert_eq!(u.name, "alpha");
    assert_eq!(u.description.as_deref(), Some("d"));
    assert_eq!(u.color, "#000000");
    assert_eq!(u.updated_at, at(2031, 1, 1, 0));
    assert_eq!(u.created_at, p.created_at);
    assert_eq!(db.update_project(&p.id, Some("beta"), None, None).unwrap_err(), LogbookError::Conflict);
    assert!(db.update_project(&p.id, Some("alpha"), None, None).is_ok());
    assert_eq!(db.update_project("missing", None, None, None).unwrap_err(), LogbookError::NotFound);
    db.delete_project(&p.id);
    assert_eq!(db.projects.len(), 1);
}

#[test]
fn tags_list_by_name_and_deleting_one_unlinks_it() {
    let mut db = Database::new();
    let (_, item) = with_item(&mut db);
    db.create_tag("b", None, None, Some("work")).unwrap();
    let a = db.create_tag("a", None, None, None).unwrap();
    assert_eq!(db.create_tag("a", None, None, None).unwrap_err(), LogbookError::Conflict);
    let names: Vec<String> = db.get_all_tags().into_iter().map(|t| t.name).collect();
    assert_eq!(names, vec!["a".to_string(), "b".to_string()]);
    db.link_item_tag(&item, &a.id).unwrap();
    let u = db.update_tag(&a.id, None, None, None, Some("ops")).unwrap();
    assert_eq!(u.category.as_deref(), Some("ops"));
    db.delete_tag(&a.id);
    assert!(db.item_tags.is_empty());
    assert_eq!(db.tags.len(), 1);
    assert_eq!(db.update_tag("missing", None, None, None, None).unwrap_err(), LogbookError::NotFound);
}

#[test]
fn meetings_attendees_and_actions() {
    let mut db = Database::new();
    let late = db.create_meeting("late", None, Some(at(2024, 6, 1, 9)), None, None, Some("retro")).unwrap();
    let none = db.create_meeting("unscheduled", None, None, None, None, None).unwrap();
    let early = db.create_meeting("early", None, Some(at(2024, 1, 1, 9)), None, Some("room"), None).unwrap();
    assert_eq!(late.meeting_type, "retro");
    assert_eq!(none.meeting_type, "meeting");
    assert_eq!(none.status, "scheduled");
    let order: Vec<String> = db.get_all_meetings().into_iter().map(|m| m.title).collect();
    assert_eq!(order, vec!["late".to_string(), "early".to_string(), "unscheduled".to_string()]);
    let bob = db.add_meeting_attendee(&early.id, "bob", None, None).unwrap();
    db.add_meeting_attendee(&early.id, "amy", Some("amy@example.com"), Some("host")).unwrap();
    assert_eq!(bob.role, "attendee");
    assert_eq!(bob.status, "invited");
    let names: Vec<String> = db.get_meeting_attendees(&early.id).into_iter().map(|a| a.name).collect();
    assert_eq!(names, vec!["amy".to_string(), "bob".to_string()]);
    assert_eq!(db.add_meeting_attendee("missing", "x", None, None).unwrap_err(), LogbookError::Referential);
    let a = db.create_meeting_action(&early.id, "do it", None, Some("amy"), None, None).unwrap();
    assert_eq!(a.status, "open");
    assert_eq!(a.priority, "medium");
    assert_eq!(a.entry_item_id, None);
    assert_eq!(db.create_meeting_action("missing", "x", None, None, None, None).unwrap_err(), LogbookError::Referential);
    assert_eq!(db.get_meeting_actions(&early.id).len(), 1);
    db.delete_meeting(&early.id);
    assert_eq!(db.meetings.len(), 2);
    assert!(db.attendees.is_empty());
    assert!(db.actions.is_empty());
}

#[test]
fn actions_list_latest_first() {
    let mut db = Database::new();
    let m = db.create_meeting("m", None, None, None, None, None).unwrap();
    let t = at(2024, 1, 1, 0);
    db.insert_meeting_action("a1".to_string(), m.id.clone(), "old".to_string(), None, None, None, None, at(2024, 1, 1, 0)).unwrap();
    db.insert_meeting_action("a2".to_string(), m.id.clone(), "new".to_string(), None, None, None, Some("high".to_string()), at(2024, 2, 1, 0)).unwrap();
    let titles: Vec<String> = db.get_meeting_actions(&m.id).into_iter().map(|a| a.title).collect();
    assert_eq!(titles, vec!["new".to_string(), "old".to_string()]);
    assert_eq!(db.actions[1].priority, "high");
    assert_eq!(db.insert_meeting_action("a1".to_string(), m.id.clone(), "dup".to_string(), None, None, None, None, t).unwrap_err(), LogbookError::Conflict);
}
