//! The two text exports of a listing: CSV with one row per item, and
//! Markdown with one section per entry.

use vstd::prelude::*;
use vstd::string::StrSliceExecFns;
use vstd::string::StringExecFns;
use crate::rows::{Tag, Person, JiraRef, EntryItemWithMetadata, EntryWithItems};
use crate::time::{date_text, clock_text, format_date, format_clock};
use crate::store::texts;

verus! {

/// One character as it stands inside a quoted CSV field: a quote is doubled.
pub open spec fn csv_piece(c: char) -> Seq<char> {
    if c == '"' { seq!['"', '"'] } else { seq![c] }
}

/// A text as it stands inside a quoted CSV field.
pub open spec fn csv_escaped(s: Seq<char>) -> Seq<char>
    decreases s.len(),
{
    if s.len() == 0 { Seq::empty() } else { csv_piece(s[0]) + csv_escaped(s.drop_first()) }
}

/// What a CSV reader makes of the inside of a quoted field: a doubled quote
/// stands for one quote.
pub open spec fn csv_unescaped(t: Seq<char>) -> Seq<char>
    decreases t.len(),
{
    if t.len() == 0 {
        Seq::empty()
    } else if t.len() >= 2 && t[0] == '"' && t[1] == '"' {
        seq!['"'] + csv_unescaped(t.subrange(2, t.len() as int))
    } else {
        seq![t[0]] + csv_unescaped(t.subrange(1, t.len() as int))
    }
}

/// Reading back an escaped field gives the text that was written.
pub proof fn law_csv_round_trip(s: Seq<char>)
    ensures
        csv_unescaped(csv_escaped(s)) == s,
    decreases s.len(),
{
    if s.len() > 0 {
        let rest = s.drop_first();
        law_csv_round_trip(rest);
        let t = csv_escaped(s);
        assert(t == csv_piece(s[0]) + csv_escaped(rest));
        if s[0] == '"' {
            assert(t.subrange(2, t.len() as int) =~= csv_escaped(rest));
        } else {
            assert(t.subrange(1, t.len() as int) =~= csv_escaped(rest));
        }
        assert(s =~= seq![s[0]] + rest);
    }
}

/// What a CSV reader makes of the text after an opening quote: the field's
/// value up to the closing quote, a doubled quote standing for one quote, and
/// the text after the closing quote.
pub open spec fn read_quoted(t: Seq<char>) -> (Seq<char>, Seq<char>)
    decreases t.len(),
{
    if t.len() == 0 {
        (Seq::empty(), Seq::empty())
    } else if t[0] == '"' {
        if t.len() >= 2 && t[1] == '"' {
            let (v, rest) = read_quoted(t.subrange(2, t.len() as int));
            (seq!['"'] + v, rest)
        } else {
            (Seq::empty(), t.subrange(1, t.len() as int))
        }
    } else {
        let (v, rest) = read_quoted(t.subrange(1, t.len() as int));
        (seq![t[0]] + v, rest)
    }
}

/// A reader that meets an escaped field and its closing quote, followed by
/// anything but another quote (a separator or the end of the line), gives
/// back the text that was written and stops right after the closing quote.
pub proof fn law_csv_field_read_back(s: Seq<char>, rest: Seq<char>)
    requires
        rest.len() == 0 || rest[0] != '"',
    ensures
        read_quoted(csv_escaped(s) + seq!['"'] + rest) == (s, rest),
    decreases s.len(),
{
    let t = csv_escaped(s) + seq!['"'] + rest;
    if s.len() == 0 {
        assert(csv_escaped(s) =~= Seq::<char>::empty());
        assert(t[0] == '"');
        if t.len() >= 2 {
            assert(t[1] == rest[0]);
        }
        assert(t.subrange(1, t.len() as int) =~= rest);
    } else {
        let tail = s.drop_first();
        law_csv_field_read_back(tail, rest);
        let u = csv_escaped(tail) + seq!['"'] + rest;
        assert(csv_escaped(s) == csv_piece(s[0]) + csv_escaped(tail));
        if s[0] == '"' {
            assert(t =~= seq!['"', '"'] + u);
            assert(t.subrange(2, t.len() as int) =~= u);
        } else {
            assert(t =~= seq![s[0]] + u);
            assert(t.subrange(1, t.len() as int) =~= u);
        }
        assert(s =~= seq![s[0]] + tail);
    }
}

/// The text of a CSV row before its content field's escaped text.
pub open spec fn csv_row_head(date: Seq<char>, time: Seq<char>, m: EntryItemWithMetadata) -> Seq<char> {
    date + ","@ + time + ","@ + m.item.item_type@ + ",\""@
}

/// Reading a produced row from its content field on gives back the item's
/// content exactly, and the rest of the row starts with the next field.
pub proof fn law_csv_row_content_read_back(date: Seq<char>, time: Seq<char>, m: EntryItemWithMetadata)
    ensures
        csv_row(date, time, m).subrange(csv_row_head(date, time, m).len() as int, csv_row(date, time, m).len() as int)
            == csv_escaped(m.item.content@) + seq!['"'] + csv_row(date, time, m).subrange(
            (csv_row_head(date, time, m).len() + csv_escaped(m.item.content@).len() + 1) as int,
            csv_row(date, time, m).len() as int,
        ),
        read_quoted(csv_row(date, time, m).subrange(csv_row_head(date, time, m).len() as int, csv_row(date, time, m).len() as int)).0
            == m.item.content@,
{
    reveal_strlit("\",\"");
    let row = csv_row(date, time, m);
    let head = csv_row_head(date, time, m);
    let esc = csv_escaped(m.item.content@);
    let after = "\",\""@.subrange(1, 3) + project_text(m.item.project) + "\",\""@ + joined(tag_names(m.tags@), ";"@)
        + "\",\""@ + joined(jira_keys(m.jira_refs@), ";"@) + "\",\""@ + joined(person_names(m.people@), ";"@) + "\"\n"@;
    assert(row =~= head + esc + seq!['"'] + after);
    let body = row.subrange(head.len() as int, row.len() as int);
    assert(body =~= esc + seq!['"'] + after);
    assert(row.subrange((head.len() + esc.len() + 1) as int, row.len() as int) =~= after);
    assert(after[0] == ',');
    law_csv_field_read_back(m.item.content@, after);
}

proof fn lemma_escaped_push(s: Seq<char>, c: char)
    ensures
        csv_escaped(s.push(c)) == csv_escaped(s) + csv_piece(c),
    decreases s.len(),
{
    if s.len() == 0 {
        assert(s.push(c).drop_first() =~= Seq::<char>::empty());
        assert(csv_escaped(Seq::<char>::empty()) == Seq::<char>::empty());
        assert(s.push(c)[0] == c);
        assert(csv_escaped(s.push(c)) =~= csv_piece(c));
        assert(csv_escaped(s) == Seq::<char>::empty());
    } else {
        lemma_escaped_push(s.drop_first(), c);
        assert(s.push(c).drop_first() =~= s.drop_first().push(c));
        assert(csv_escaped(s.push(c)) =~= csv_escaped(s) + csv_piece(c));
    }
}

/// Appends `s` escaped for a quoted CSV field.
fn push_csv_escaped(out: &mut String, s: &str)
    ensures
        final(out)@ == old(out)@ + csv_escaped(s@),
{
    let n = s.unicode_len();
    let mut i: usize = 0;
    let ghost start = out@;
    proof {
        assert(s@.take(0) =~= Seq::<char>::empty());
        assert(start + csv_escaped(s@.take(0)) =~= start);
    }
    while i < n
        invariant
            n == s@.len(),
            i <= n,
            out@ == start + csv_escaped(s@.take(i as int)),
        decreases n - i,
    {
        let c = s.get_char(i);
        proof {
            lemma_escaped_push(s@.take(i as int), c);
            assert(s@.take(i + 1) =~= s@.take(i as int).push(c));
        }
        if c == '"' {
            out.append("\"\"");
            proof {
                reveal_strlit("\"\"");
            }
        } else {
            out.append(s.substring_char(i, i + 1));
            assert(s@.subrange(i as int, i + 1) =~= seq![c]);
        }
        proof {
            assert(out@ =~= start + csv_escaped(s@.take(i + 1)));
        }
        i = i + 1;
    }
    proof {
        assert(s@.take(n as int) =~= s@);
    }
}

/// The parts, with `sep` between each two.
pub open spec fn joined(parts: Seq<Seq<char>>, sep: Seq<char>) -> Seq<char>
    decreases parts.len(),
{
    if parts.len() == 0 {
        Seq::empty()
    } else if parts.len() == 1 {
        parts[0]
    } else {
        joined(parts.drop_last(), sep) + sep + parts.last()
    }
}

/// Appends the texts of `parts` with `sep` between each two.
fn push_joined(out: &mut String, parts: &Vec<String>, sep: &str)
    ensures
        final(out)@ == old(out)@ + joined(texts(parts@), sep@),
{
    let ghost start = out@;
    let mut i: usize = 0;
    proof {
        assert(texts(parts@).take(0) =~= Seq::<Seq<char>>::empty());
        assert(out@ =~= start + joined(texts(parts@).take(0), sep@));
    }
    while i < parts.len()
        invariant
            i <= parts@.len(),
            out@ == start + joined(texts(parts@).take(i as int), sep@),
        decreases parts@.len() - i,
    {
        let ghost before = texts(parts@).take(i as int);
        let ghost after = texts(parts@).take(i + 1);
        proof {
            assert(after.drop_last() =~= before);
        }
        if i > 0 {
            out.append(sep);
        }
        out.append(parts[i].as_str());
        proof {
            if i == 0 {
                assert(joined(after, sep@) == after[0]);
            }
            assert(out@ =~= start + joined(after, sep@));
        }
        i = i + 1;
    }
    proof {
        assert(texts(parts@).take(i as int) =~= texts(parts@));
    }
}

pub open spec fn tag_names(tags: Seq<Tag>) -> Seq<Seq<char>> {
    Seq::new(tags.len(), |k: int| tags[k].name@)
}

pub open spec fn person_names(people: Seq<Person>) -> Seq<Seq<char>> {
    Seq::new(people.len(), |k: int| people[k].name@)
}

pub open spec fn jira_keys(refs: Seq<JiraRef>) -> Seq<Seq<char>> {
    Seq::new(refs.len(), |k: int| refs[k].jira_key@)
}

/// The names of the tags.
pub fn names_of_tags(tags: &Vec<Tag>) -> (r: Vec<String>)
    ensures
        texts(r@) == tag_names(tags@),
{
    let mut out: Vec<String> = Vec::new();
    let mut i: usize = 0;
    while i < tags.len()
        invariant
            i <= tags@.len(),
            out@.len() == i,
            texts(out@) =~= tag_names(tags@).take(i as int),
        decreases tags@.len() - i,
    {
        let ghost prev = out@;
        out.push(tags[i].name.clone());
        assert forall|k: int| 0 <= k < i + 1 implies #[trigger] texts(out@)[k] == tag_names(tags@).take(i + 1)[k] by {
            if k < i {
                assert(out@[k] == prev[k]);
                assert(texts(prev)[k] == tag_names(tags@).take(i as int)[k]);
            }
        }
        i = i + 1;
        assert(texts(out@) =~= tag_names(tags@).take(i as int));
    }
    assert(tag_names(tags@).take(i as int) =~= tag_names(tags@));
    out
}

/// The names of the people.
pub fn names_of_people(people: &Vec<Person>) -> (r: Vec<String>)
    ensures
        texts(r@) == person_names(people@),
{
    let mut out: Vec<String> = Vec::new();
    let mut i: usize = 0;
    while i < people.len()
        invariant
            i <= people@.len(),
            out@.len() == i,
            texts(out@) =~= person_names(people@).take(i as int),
        decreases people@.len() - i,
    {
        let ghost prev = out@;
        out.push(people[i].name.clone());
        assert forall|k: int| 0 <= k < i + 1 implies #[trigger] texts(out@)[k] == person_names(people@).take(i + 1)[k] by {
            if k < i {
                assert(out@[k] == prev[k]);
                assert(texts(prev)[k] == person_names(people@).take(i as int)[k]);
            }
        }
        i = i + 1;
        assert(texts(out@) =~= person_names(people@).take(i as int));
    }
    assert(person_names(people@).take(i as int) =~= person_names(people@));
    out
}

/// The keys of the issue references.
pub fn keys_of_jira_refs(refs: &Vec<JiraRef>) -> (r: Vec<String>)
    ensures
        texts(r@) == jira_keys(refs@),
{
    let mut out: Vec<String> = Vec::new();
    let mut i: usize = 0;
    while i < refs.len()
        invariant
            i <= refs@.len(),
            out@.len() == i,
            texts(out@) =~= jira_keys(refs@).take(i as int),
        decreases refs@.len() - i,
    {
        let ghost prev = out@;
        out.push(refs[i].jira_key.clone());
        assert forall|k: int| 0 <= k < i + 1 implies #[trigger] texts(out@)[k] == jira_keys(refs@).take(i + 1)[k] by {
            if k < i {
                assert(out@[k] == prev[k]);
                assert(texts(prev)[k] == jira_keys(refs@).take(i as int)[k]);
            }
        }
        i = i + 1;
        assert(texts(out@) =~= jira_keys(refs@).take(i as int));
    }
    assert(jira_keys(refs@).take(i as int) =~= jira_keys(refs@));
    out
}

/// An absent project shows as empty text.
pub open spec fn project_text(p: Option<String>) -> Seq<char> {
    match p {
        Some(s) => s@,
        None => Seq::empty(),
    }
}

pub open spec fn csv_header() -> Seq<char> {
    "Date,Time,Type,Content,Project,Tags,Jira,People\n"@
}

/// The CSV row of one item of an entry written on `date` at `time`.
pub open spec fn csv_row(date: Seq<char>, time: Seq<char>, m: EntryItemWithMetadata) -> Seq<char> {
    date + ","@ + time + ","@ + m.item.item_type@ + ",\""@ + csv_escaped(m.item.content@) + "\",\""@
        + project_text(m.item.project) + "\",\""@ + joined(tag_names(m.tags@), ";"@) + "\",\""@
        + joined(jira_keys(m.jira_refs@), ";"@) + "\",\""@ + joined(person_names(m.people@), ";"@) + "\"\n"@
}

/// The CSV rows of the items `ms` of an entry written on `date` at `time`.
pub open spec fn csv_rows(date: Seq<char>, time: Seq<char>, ms: Seq<EntryItemWithMetadata>) -> Seq<char>
    decreases ms.len(),
{
    if ms.len() == 0 { Seq::empty() } else { csv_rows(date, time, ms.drop_last()) + csv_row(date, time, ms.last()) }
}

/// The CSV rows of the entries `xs`, in their order.
pub open spec fn csv_body(xs: Seq<EntryWithItems>) -> Seq<char>
    decreases xs.len(),
{
    if xs.len() == 0 {
        Seq::empty()
    } else {
        csv_body(xs.drop_last()) + csv_rows(date_text(xs.last().entry.timestamp), clock_text(xs.last().entry.timestamp),
            xs.last().items@)
    }
}

/// A listing as CSV: a header, then one row per item.
pub open spec fn csv_text(xs: Seq<EntryWithItems>) -> Seq<char> {
    csv_header() + csv_body(xs)
}

/// The CSV row of one item of an entry written on `date` at `time`.
fn csv_row_text(date: &String, time: &String, m: &EntryItemWithMetadata) -> (r: String)
    ensures
        r@ == csv_row(date@, time@, *m),
{
    let mut out = date.clone();
    out.append(",");
    out.append(time.as_str());
    out.append(",");
    out.append(m.item.item_type.as_str());
    out.append(",\"");
    push_csv_escaped(&mut out, m.item.content.as_str());
    out.append("\",\"");
    match &m.item.project {
        Some(p) => out.append(p.as_str()),
        None => {},
    }
    let ghost after_project = out@;
    proof {
        assert(after_project =~= date@ + ","@ + time@ + ","@ + m.item.item_type@ + ",\""@ + csv_escaped(m.item.content@)
            + "\",\""@ + project_text(m.item.project));
    }
    out.append("\",\"");
    push_joined(&mut out, &names_of_tags(&m.tags), ";");
    out.append("\",\"");
    push_joined(&mut out, &keys_of_jira_refs(&m.jira_refs), ";");
    out.append("\",\"");
    push_joined(&mut out, &names_of_people(&m.people), ";");
    out.append("\"\n");
    proof {
        assert(out@ =~= after_project + "\",\""@ + joined(tag_names(m.tags@), ";"@) + "\",\""@
            + joined(jira_keys(m.jira_refs@), ";"@) + "\",\""@ + joined(person_names(m.people@), ";"@) + "\"\n"@);
    }
    out
}

/// Writes a listing as CSV: a header, then one row per item, with the
/// date and time of its entry; the content is quoted and escaped, and the
/// tags, issue keys and people are joined by `;`.
pub fn entries_csv(entries: &Vec<EntryWithItems>) -> (r: String)
    ensures
        r@ == csv_text(entries@),
{
    let mut out = String::from_str("Date,Time,Type,Content,Project,Tags,Jira,People\n");
    let mut i: usize = 0;
    proof {
        assert(entries@.take(0) =~= Seq::<EntryWithItems>::empty());
    }
    while i < entries.len()
        invariant
            i <= entries@.len(),
            out@ == csv_header() + csv_body(entries@.take(i as int)),
        decreases entries@.len() - i,
    {
        let x = &entries[i];
        let date = format_date(&x.entry.timestamp);
        let time = format_clock(&x.entry.timestamp);
        let ghost before = out@;
        let mut j: usize = 0;
        proof {
            assert(x.items@.take(0) =~= Seq::<EntryItemWithMetadata>::empty());
        }
        while j < x.items.len()
            invariant
                j <= x.items@.len(),
                out@ == before + csv_rows(date@, time@, x.items@.take(j as int)),
            decreases x.items@.len() - j,
        {
            let m = &x.items[j];
            let row = csv_row_text(&date, &time, m);
            out.append(row.as_str());
            proof {
                assert(x.items@.take(j + 1).drop_last() =~= x.items@.take(j as int));
            }
            j = j + 1;
        }
        proof {
            assert(x.items@.take(j as int) =~= x.items@);
            assert(entries@.take(i + 1).drop_last() =~= entries@.take(i as int));
        }
        i = i + 1;
    }
    proof {
        assert(entries@.take(i as int) =~= entries@);
    }
    out
}

/// The mark shown before an item's type.
pub open spec fn type_mark(t: Seq<char>) -> Seq<char> {
    if t == "Action"@ {
        "🔴"@
    } else if t == "Decision"@ {
        "🔵"@
    } else if t == "Note"@ {
        "🟢"@
    } else if t == "Meeting"@ {
        "🟣"@
    } else {
        "📝"@
    }
}

pub open spec fn md_project_part(p: Option<String>) -> Seq<char> {
    match p {
        Some(t) => if t@.len() > 0 { "**Project:** 📂 "@ + t@ + "\n\n"@ } else { Seq::empty() },
        None => Seq::empty(),
    }
}

pub open spec fn md_list_part(label: Seq<char>, parts: Seq<Seq<char>>) -> Seq<char> {
    if parts.len() > 0 { label + joined(parts, ", "@) + "\n\n"@ } else { Seq::empty() }
}

/// The Markdown block of one item: its type and content, then its project,
/// tags, issue keys and people where it has any, then a rule.
pub open spec fn md_item(m: EntryItemWithMetadata) -> Seq<char> {
    "### "@ + type_mark(m.item.item_type@) + " "@ + m.item.item_type@ + "\n"@ + m.item.content@ + "\n\n"@
        + md_project_part(m.item.project) + md_list_part("**Tags:** 🏷 "@, tag_names(m.tags@))
        + md_list_part("**Jira:** 🧩 "@, jira_keys(m.jira_refs@)) + md_list_part("**People:** 👤 "@, person_names(m.people@))
        + "---\n\n"@
}

pub open spec fn md_items(ms: Seq<EntryItemWithMetadata>) -> Seq<char>
    decreases ms.len(),
{
    if ms.len() == 0 { Seq::empty() } else { md_items(ms.drop_last()) + md_item(ms.last()) }
}

/// The Markdown section of one entry: a heading with its date and time,
/// then its items.
pub open spec fn md_entry(x: EntryWithItems) -> Seq<char> {
    "## "@ + date_text(x.entry.timestamp) + " "@ + clock_text(x.entry.timestamp) + "\n\n"@ + md_items(x.items@)
}

pub open spec fn md_body(xs: Seq<EntryWithItems>) -> Seq<char>
    decreases xs.len(),
{
    if xs.len() == 0 { Seq::empty() } else { md_body(xs.drop_last()) + md_entry(xs.last()) }
}

/// A listing as Markdown: a title, then one section per entry.
pub open spec fn markdown_text(xs: Seq<EntryWithItems>) -> Seq<char> {
    "# ScoBro Logbook Export\n\n"@ + md_body(xs)
}

fn type_mark_text(t: &String) -> (r: &'static str)
    ensures
        r@ == type_mark(t@),
{
    if *t == String::from_str("Action") {
        "🔴"
    } else if *t == String::from_str("Decision") {
        "🔵"
    } else if *t == String::from_str("Note") {
        "🟢"
    } else if *t == String::from_str("Meeting") {
        "🟣"
    } else {
        "📝"
    }
}

fn md_list_text(label: &str, parts: &Vec<String>) -> (r: String)
    ensures
        r@ == md_list_part(label@, texts(parts@)),
{
    let mut out = String::new();
    if parts.len() > 0 {
        out.append(label);
        push_joined(&mut out, parts, ", ");
        out.append("\n\n");
    }
    proof {
        assert(out@ =~= md_list_part(label@, texts(parts@)));
    }
    out
}

fn md_item_text(m: &EntryItemWithMetadata) -> (r: String)
    ensures
        r@ == md_item(*m),
{
    let mut out = String::from_str("### ");
    out.append(type_mark_text(&m.item.item_type));
    out.append(" ");
    out.append(m.item.item_type.as_str());
    out.append("\n");
    out.append(m.item.content.as_str());
    out.append("\n\n");
    let mut project = String::new();
    match &m.item.project {
        Some(p) => {
            if p.as_str().unicode_len() > 0 {
                project.append("**Project:** 📂 ");
                project.append(p.as_str());
                project.append("\n\n");
            }
        },
        None => {},
    }
    proof {
        assert(project@ =~= md_project_part(m.item.project));
    }
    out.append(project.as_str());
    let tags = md_list_text("**Tags:** 🏷 ", &names_of_tags(&m.tags));
    out.append(tags.as_str());
    let jira = md_list_text("**Jira:** 🧩 ", &keys_of_jira_refs(&m.jira_refs));
    out.append(jira.as_str());
    let people = md_list_text("**People:** 👤 ", &names_of_people(&m.people));
    out.append(people.as_str());
    out.append("---\n\n");
    proof {
        assert(out@ =~= md_item(*m));
    }
    out
}

fn md_entry_text(x: &EntryWithItems) -> (r: String)
    ensures
        r@ == md_entry(*x),
{
    let mut out = String::from_str("## ");
    let date = format_date(&x.entry.timestamp);
    out.append(date.as_str());
    out.append(" ");
    let time = format_clock(&x.entry.timestamp);
    out.append(time.as_str());
    out.append("\n\n");
    let ghost heading = out@;
    let mut j: usize = 0;
    proof {
        assert(x.items@.take(0) =~= Seq::<EntryItemWithMetadata>::empty());
        assert(out@ =~= heading + md_items(x.items@.take(0)));
    }
    while j < x.items.len()
        invariant
            j <= x.items@.len(),
            out@ == heading + md_items(x.items@.take(j as int)),
        decreases x.items@.len() - j,
    {
        let block = md_item_text(&x.items[j]);
        out.append(block.as_str());
        proof {
            assert(x.items@.take(j + 1).drop_last() =~= x.items@.take(j as int));
        }
        j = j + 1;
    }
    proof {
        assert(x.items@.take(j as int) =~= x.items@);
        assert(out@ =~= md_entry(*x));
    }
    out
}

/// Writes a listing as Markdown: a title, then for each entry a heading with
/// its date and time, and for each item a block with a mark for its type,
/// its content, its project, tags, issue keys and people where it has any,
/// and a rule.
pub fn entries_markdown(entries: &Vec<EntryWithItems>) -> (r: String)
    ensures
        r@ == markdown_text(entries@),
{
    let mut out = String::from_str("# ScoBro Logbook Export\n\n");
    let mut i: usize = 0;
    proof {
        assert(entries@.take(0) =~= Seq::<EntryWithItems>::empty());
    }
    while i < entries.len()
        invariant
            i <= entries@.len(),
            out@ == "# ScoBro Logbook Export\n\n"@ + md_body(entries@.take(i as int)),
        decreases entries@.len() - i,
    {
        let section = md_entry_text(&entries[i]);
        out.append(section.as_str());
        proof {
            assert(entries@.take(i + 1).drop_last() =~= entries@.take(i as int));
        }
        i = i + 1;
    }
    proof {
        assert(entries@.take(i as int) =~= entries@);
    }
    out
}

} // verus!
