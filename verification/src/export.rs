//! The stored context written out for a reader.

use vstd::prelude::*;
use vstd::string::*;
use crate::git::{lines_of, short_hash, short_text, split_lines};
use crate::json::{items_of, json_document, json_items, parse_document, texts};
use crate::llm::{join, joined, read_string_items, string_items};
use crate::storage::{global_views, GlobalContext, GlobalContextView, Storage};
use crate::text::{from_chars, to_chars};

verus! {

/// The calendar day, in UTC and written `YYYY-MM-DD`, of a time given in
/// seconds since the Unix epoch, as `chrono` computes it; `None` for a time
/// outside the range `chrono` covers.
pub uninterp spec fn utc_day(seconds: int) -> Option<Seq<char>>;

/// Calls `chrono::DateTime::from_timestamp` and formats the result with
/// `%Y-%m-%d`. Trusted: the outcome depends on the number of seconds alone.
#[verifier::external_body]
fn calendar_day(seconds: i64) -> (day: Option<String>)
    ensures
        match day {
            Some(d) => utc_day(seconds as int) == Some(d@),
            None => utc_day(seconds as int) is None,
        },
{
    match chrono::DateTime::from_timestamp(seconds, 0) {
        Some(at) => Some(at.format("%Y-%m-%d").to_string()),
        None => None,
    }
}

/// How many rows an export shows at most.
pub const EXPORT_LIMIT: usize = 20;

/// The first line of a commit message; a message without lines is shown as
/// `No message`.
pub open spec fn headline(message: Seq<char>) -> Seq<char> {
    if lines_of(message).len() == 0 {
        "No message"@
    } else {
        lines_of(message)[0]
    }
}

/// The files listed in the stored JSON text; none where the text is not a
/// JSON array of strings.
pub open spec fn listed_files(files_json: Seq<char>) -> Seq<Seq<char>> {
    match json_document(files_json) {
        Some(doc) => match json_items(doc) {
            Some(items) => match string_items(items) {
                Some(list) => list,
                None => Seq::empty(),
            },
            None => Seq::empty(),
        },
        None => Seq::empty(),
    }
}

/// The line that lists the files of a row; no line where nothing is stored.
pub open spec fn files_line(files_json: Seq<char>, files: Seq<Seq<char>>) -> Seq<char> {
    if files_json.len() == 0 {
        Seq::empty()
    } else {
        "- **Files:** "@ + joined(files, ", "@) + "\n"@
    }
}

/// The section of one row, given the day of its commit (if it has one) and
/// the files read back from its stored list.
pub open spec fn entry_text_with(
    row: GlobalContextView,
    day: Option<Seq<char>>,
    files: Seq<Seq<char>>,
) -> Seq<char> {
    "### "@ + short_text(row.commit_hash) + ": "@ + headline(row.commit_message) + "\n"@
        + "- **Date:** "@ + match day {
        Some(d) => d,
        None => Seq::empty(),
    } + "\n"@ + "- **Summary:** "@ + row.context_summary + "\n"@ + files_line(
        row.files_changed,
        files,
    ) + "\n"@
}

/// The section of one row.
pub open spec fn entry_text(row: GlobalContextView) -> Seq<char> {
    entry_text_with(row, utc_day(row.commit_date), listed_files(row.files_changed))
}

/// The sections of `rows`, one after another.
pub open spec fn entries_text(rows: Seq<GlobalContextView>) -> Seq<char>
    decreases rows.len(),
{
    if rows.len() == 0 {
        Seq::empty()
    } else {
        entries_text(rows.drop_last()) + entry_text(rows.last())
    }
}

/// The document for `rows`: a heading and the sections of the first twenty.
pub open spec fn markdown_text(rows: Seq<GlobalContextView>) -> Seq<char> {
    "# Repository Context\n\n## Recent Changes\n\n"@ + entries_text(
        rows.take(
            if rows.len() < 20 {
                rows.len() as int
            } else {
                20
            },
        ),
    )
}

/// The first line of a commit message.
pub fn first_line(message: &str) -> (out: String)
    ensures
        out@ == headline(message@),
{
    let chars = to_chars(message);
    let lines = split_lines(&chars);
    if lines.len() == 0 {
        String::from_str("No message")
    } else {
        let n = lines[0].len();
        let out = from_chars(&lines[0], 0, n);
        assert(out@ =~= lines@[0]@);
        out
    }
}

/// Reads the list of files back from its stored JSON text.
pub fn read_files(files_json: &str) -> (out: Vec<String>)
    ensures
        texts(out@) == listed_files(files_json@),
        out@.len() == listed_files(files_json@).len(),
{
    let empty: Vec<String> = Vec::new();
    assert(texts(empty@) =~= Seq::<Seq<char>>::empty());
    match parse_document(files_json) {
        None => empty,
        Some(doc) => match items_of(&doc) {
            None => empty,
            Some(items) => match read_string_items(items) {
                None => empty,
                Some(list) => list,
            },
        },
    }
}

/// Writes the section of one row, given the day of its commit (if it has
/// one) and the files read back from its stored list.
pub fn write_entry(row: &GlobalContext, day: Option<&str>, files: &Vec<String>) -> (out: String)
    ensures
        out@ == entry_text_with(
            row@,
            match day {
                Some(d) => Some(d@),
                None => None,
            },
            texts(files@),
        ),
{
    let mut out = String::from_str("### ");
    let short = short_hash(row.commit_hash.as_str());
    out.append(short.as_str());
    out.append(": ");
    let head = first_line(row.commit_message.as_str());
    out.append(head.as_str());
    out.append("\n");
    out.append("- **Date:** ");
    match day {
        Some(d) => {
            out.append(d);
        },
        None => {},
    }
    out.append("\n");
    out.append("- **Summary:** ");
    out.append(row.context_summary.as_str());
    out.append("\n");
    let ghost shown: Option<Seq<char>> = match day {
        Some(d) => Some(d@),
        None => None,
    };
    assert(out@ =~= "### "@ + short_text(row@.commit_hash) + ": "@ + headline(row@.commit_message)
        + "\n"@ + "- **Date:** "@ + match shown {
        Some(d) => d,
        None => Seq::empty(),
    } + "\n"@ + "- **Summary:** "@ + row@.context_summary + "\n"@);
    let ghost before = out@;
    if row.files_changed.as_str().unicode_len() > 0 {
        let list = join(files, ", ");
        out.append("- **Files:** ");
        out.append(list.as_str());
        out.append("\n");
        assert(out@ =~= before + files_line(row@.files_changed, texts(files@)));
    } else {
        assert(out@ =~= before + files_line(row@.files_changed, texts(files@)));
    }
    out.append("\n");
    out
}

/// Writes the section of one row.
pub fn render_entry(row: &GlobalContext) -> (out: String)
    ensures
        out@ == entry_text(row@),
{
    let files = read_files(row.files_changed.as_str());
    match calendar_day(row.commit_date) {
        Some(day) => write_entry(row, Some(day.as_str()), &files),
        None => write_entry(row, None, &files),
    }
}

/// Writes the stored context as a Markdown document: a heading, then one
/// section for each of the twenty most recent commits.
pub fn export_context_markdown(store: &Storage) -> (out: String)
    ensures
        out@ == markdown_text(store.durable()),
{
    let rows = store.get_global_context();
    let ghost shown = global_views(rows@);
    let n: usize = if rows.len() < EXPORT_LIMIT {
        rows.len()
    } else {
        EXPORT_LIMIT
    };
    let mut out = String::from_str("# Repository Context\n\n## Recent Changes\n\n");
    let ghost head = out@;
    let mut i: usize = 0;
    assert(out@ =~= head + entries_text(shown.take(n as int).take(0)));
    while i < n
        invariant
            i <= n <= rows.len(),
            shown == global_views(rows@),
            out@ == head + entries_text(shown.take(n as int).take(i as int)),
        decreases n - i,
    {
        let ghost part = shown.take(n as int);
        assert(part.take(i + 1).drop_last() =~= part.take(i as int));
        assert(part.take(i + 1).last() == rows@[i as int]@);
        let entry = render_entry(&rows[i]);
        out.append(entry.as_str());
        i = i + 1;
        assert(out@ =~= head + entries_text(part.take(i as int)));
    }
    assert(shown.take(n as int).take(n as int) =~= shown.take(n as int));
    out
}

} // verus!
