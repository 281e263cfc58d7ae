use logbook::time::{Timestamp, format_date, format_clock, format_rfc3339, is_at_or_before};
use logbook::export::{entries_csv, entries_markdown};
use logbook::rows::{Entry, EntryItem, Tag, Person, JiraRef, EntryItemWithMetadata, EntryWithItems};

fn at(year: i32, month: u32, day: u32, hour: u32, minute: u32, second: u32, nanosecond: u32) -> Timestamp {
    Timestamp { year, month, day, hour, minute, second, nanosecond }
}

fn tag(name: &str) -> Tag {
    let t = at(2024, 1, 1, 0, 0, 0, 0);
    Tag {
        id: format!("tag-{}", name),
        name: name.to_string(),
        description: None,
        color: "#6c757d".to_string(),
        category: None,
        created_at: t,
        updated_at: t,
    }
}

fn person(name: &str) -> Person {
    Person { id: format!("person-{}", name), name: name.to_string(), created_at: at(2024, 1, 1, 0, 0, 0, 0) }
}

fn jira(key: &str) -> JiraRef {
    JiraRef {
        id: format!("jira-{}", key),
        entry_item_id: "item-1".to_string(),
        jira_key: key.to_string(),
        created_at: at(2024, 1, 1, 0, 0, 0, 0),
    }
}

fn listing(item_type: &str, content: &str, project: Option<&str>, tags: Vec<Tag>, jira_refs: Vec<JiraRef>, people: Vec<Person>) -> Vec<EntryWithItems> {
    let t = at(2024, 1, 1, 9, 0, 0, 0);
    vec![EntryWithItems {
        entry: Entry { id: "entry-1".to_string(), timestamp: t, created_at: t, updated_at: t },
        items: vec![EntryItemWithMetadata {
            item: EntryItem {
                id: "item-1".to_string(),
                entry_id: "entry-1".to_string(),
                item_type: item_type.to_string(),
                content: content.to_string(),
                project: project.map(|p| p.to_string()),
                created_at: t,
                updated_at: t,
            },
            tags,
            people,
            jira_refs,
        }],
    }]
}

/// Reads the fields of one CSV line, undoing quotes and doubled quotes.
fn read_csv_line(line: &str) -> Vec<String> {
    let mut fields = Vec::new();
    let mut field = String::new();
    let mut quoted = false;
    let chars: Vec<char> = line.chars().collect();
    let mut i = 0;
    while i < chars.len() {
        let c = chars[i];
        if quoted {
            if c == '"' {
                if i + 1 < chars.len() && chars[i + 1] == '"' {
                    field.push('"');
                    i += 1;
                } else {
                    quoted = false;
                }
            } else {
                field.push(c);
            }
        } else if c == '"' {
            quoted = true;
        } else if c == ',' {
            fields.push(std::mem::take(&mut field));
        } else {
            field.push(c);
        }
        i += 1;
    }
    fields.push(field);
    fields
}

#[test]
fn date_and_clock_text() {
    let t = at(2024, 1, 1, 9, 0, 0, 0);
    assert_eq!(format_date(&t), "2024-01-01");
    assert_eq!(format_clock(&t), "09:00:00");
    assert_eq!(format_rfc3339(&t), "2024-01-01T09:00:00+00:00");
}

#[test]
fn rfc3339_fractions_use_the_shortest_unit() {
    assert_eq!(format_rfc3339(&at(2024, 3, 5, 7, 8, 9, 500_000_000)), "2024-03-05T07:08:09.500+00:00");
    assert_eq!(format_rfc3339(&at(2024, 3, 5, 7, 8, 9, 1_500)), "2024-03-05T07:08:09.000001500+00:00");
    assert_eq!(format_rfc3339(&at(2024, 3, 5, 7, 8, 9, 2_000)), "2024-03-05T07:08:09.000002+00:00");
}

#[test]
fn years_outside_four_digits_carry_a_sign() {
    assert_eq!(format_date(&at(12345, 6, 7, 0, 0, 0, 0)), "+12345-06-07");
    assert_eq!(format_date(&at(-44, 3, 15, 0, 0, 0, 0)), "-0044-03-15");
    assert_eq!(format_date(&at(7, 3, 15, 0, 0, 0, 0)), "0007-03-15");
}

#[test]
fn leap_second_shows_as_sixty() {
    let t = at(2016, 12, 31, 23, 59, 59, 1_000_000_000);
    assert_eq!(format_clock(&t), "23:59:60");
    assert_eq!(format_rfc3339(&t), "2016-12-31T23:59:60+00:00");
}

#[test]
fn instants_order_by_their_fields() {
    let a = at(2024, 1, 1, 9, 0, 0, 0);
    let b = at(2024, 1, 1, 9, 0, 0, 1);
    assert!(is_at_or_before(&a, &b));
    assert!(!is_at_or_before(&b, &a));
    assert!(is_at_or_before(&a, &a));
    assert!(is_at_or_before(&at(2023, 12, 31, 23, 59, 59, 0), &a));
}

#[test]
fn csv_of_one_item() {
    let v = listing("Note", "stand-up", None, vec![tag("team-a")], vec![], vec![person("alice")]);
    assert_eq!(
        entries_csv(&v),
        "Date,Time,Type,Content,Project,Tags,Jira,People\n2024-01-01,09:00:00,Note,\"stand-up\",\"\",\"team-a\",\"\",\"alice\"\n"
    );
}

#[test]
fn csv_joins_lists_with_semicolons() {
    let v = listing("Action", "ship", Some("apollo"), vec![tag("a"), tag("b")], vec![jira("PRJ-1"), jira("PRJ-2")],
        vec![person("x"), person("y")]);
    assert_eq!(
        entries_csv(&v),
        "Date,Time,Type,Content,Project,Tags,Jira,People\n2024-01-01,09:00:00,Action,\"ship\",\"apollo\",\"a;b\",\"PRJ-1;PRJ-2\",\"x;y\"\n"
    );
}

#[test]
fn csv_escapes_quotes_and_reads_back() {
    let content = "say \"quoted\" twice";
    let v = listing("Note", content, None, vec![], vec![], vec![]);
    let csv = entries_csv(&v);
    assert!(csv.contains("\"say \"\"quoted\"\" twice\""));
    let row = csv.lines().nth(1).unwrap();
    let fields = read_csv_line(row);
    assert_eq!(fields.len(), 8);
    assert_eq!(fields[3], content);
}

#[test]
fn csv_of_nothing_is_the_header() {
    assert_eq!(entries_csv(&vec![]), "Date,Time,Type,Content,Project,Tags,Jira,People\n");
}

#[test]
fn markdown_of_one_item() {
    let v = listing("Note", "stand-up", Some("apollo"), vec![tag("team-a"), tag("b")], vec![jira("PRJ-1")],
        vec![person("alice")]);
    assert_eq!(
        entries_markdown(&v),
        "# ScoBro Logbook Export\n\n## 2024-01-01 09:00:00\n\n### 🟢 Note\nstand-up\n\n**Project:** 📂 apollo\n\n**Tags:** 🏷 team-a, b\n\n**Jira:** 🧩 PRJ-1\n\n**People:** 👤 alice\n\n---\n\n"
    );
}

#[test]
fn markdown_marks_each_type_and_skips_empty_parts() {
    let cases = [("Action", "🔴"), ("Decision", "🔵"), ("Note", "🟢"), ("Meeting", "🟣"), ("Idea", "📝")];
    for (kind, mark) in cases {
        let v = listing(kind, "c", Some(""), vec![], vec![], vec![]);
        assert_eq!(
            entries_markdown(&v),
            format!("# ScoBro Logbook Export\n\n## 2024-01-01 09:00:00\n\n### {} {}\nc\n\n---\n\n", mark, kind)
        );
    }
}
