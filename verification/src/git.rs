//! Commit records and the text of a patch, as plain values.

use vstd::prelude::*;
use vstd::string::*;
use vstd::utf8::{decode_utf8, valid_utf8};
use crate::json::texts;
use crate::text::{from_chars, to_chars};

verus! {

/// Snapshot of one commit. `date` counts seconds since the Unix epoch, UTC.
#[derive(Debug, PartialEq, Eq)]
pub struct CommitInfo {
    pub hash: String,
    pub short_hash: String,
    pub message: String,
    pub author: String,
    pub date: i64,
    pub parent_hashes: Vec<String>,
}

/// Mathematical content of a commit record.
pub struct CommitView {
    pub hash: Seq<char>,
    pub short_hash: Seq<char>,
    pub message: Seq<char>,
    pub author: Seq<char>,
    pub date: int,
    pub parent_hashes: Seq<Seq<char>>,
}

impl View for CommitInfo {
    type V = CommitView;

    open spec fn view(&self) -> CommitView {
        CommitView {
            hash: self.hash@,
            short_hash: self.short_hash@,
            message: self.message@,
            author: self.author@,
            date: self.date as int,
            parent_hashes: texts(self.parent_hashes@),
        }
    }
}

/// The views of a list of commits.
pub open spec fn commit_views(commits: Seq<CommitInfo>) -> Seq<CommitView> {
    Seq::new(commits.len(), |i: int| commits[i]@)
}

/// A copy of a list of strings.
pub fn copy_strings(items: &Vec<String>) -> (out: Vec<String>)
    ensures
        texts(out@) == texts(items@),
        out@.len() == items@.len(),
{
    let mut out: Vec<String> = Vec::new();
    let mut i: usize = 0;
    while i < items.len()
        invariant
            i <= items.len(),
            out@.len() == i,
            forall|j: int| 0 <= j < i ==> out@[j]@ == items@[j]@,
        decreases items.len() - i,
    {
        out.push(items[i].clone());
        i = i + 1;
    }
    assert(texts(out@) =~= texts(items@));
    out
}

impl Clone for CommitInfo {
    fn clone(&self) -> (out: Self)
        ensures
            out@ == self@,
    {
        CommitInfo {
            hash: self.hash.clone(),
            short_hash: self.short_hash.clone(),
            message: self.message.clone(),
            author: self.author.clone(),
            date: self.date,
            parent_hashes: copy_strings(&self.parent_hashes),
        }
    }
}

// ---------------------------------------------------------------------------
// Lines
// ---------------------------------------------------------------------------

/// The position of the first line feed at or after `from`, or the length of
/// `s` when there is none.
pub open spec fn line_end(s: Seq<char>, from: int) -> int
    decreases s.len() - from,
{
    if from < 0 || from >= s.len() {
        s.len() as int
    } else if s[from] == '\n' {
        from
    } else {
        line_end(s, from + 1)
    }
}

/// A line without the carriage return that may close it.
pub open spec fn strip_cr(line: Seq<char>) -> Seq<char> {
    if line.len() > 0 && line.last() == '\r' {
        line.drop_last()
    } else {
        line
    }
}

/// The lines of `s` that start at or after `from`. A line ends at a line
/// feed, or at a carriage return followed by one; the last line need not be
/// closed.
pub open spec fn lines_from(s: Seq<char>, from: int) -> Seq<Seq<char>>
    decreases s.len() - from,
{
    if from < 0 || from >= s.len() {
        Seq::empty()
    } else {
        let end = line_end(s, from);
        let rest = if from <= end < s.len() {
            lines_from(s, end + 1)
        } else {
            Seq::empty()
        };
        seq![closed_line(s, from, end)] + rest
    }
}

/// The line that runs from `from` to `end`: a carriage return is dropped
/// only where a line feed follows it.
pub open spec fn closed_line(s: Seq<char>, from: int, end: int) -> Seq<char> {
    if end < s.len() {
        strip_cr(s.subrange(from, end))
    } else {
        s.subrange(from, end)
    }
}

/// The lines of a text.
pub open spec fn lines_of(s: Seq<char>) -> Seq<Seq<char>> {
    lines_from(s, 0)
}

/// The character contents of a list of lines.
pub open spec fn line_views(lines: Seq<Vec<char>>) -> Seq<Seq<char>> {
    Seq::new(lines.len(), |i: int| lines[i]@)
}

proof fn lemma_line_end(s: Seq<char>, from: int, at: int)
    requires
        0 <= from <= at <= s.len(),
        forall|j: int| from <= j < at ==> s[j] != '\n',
        at == s.len() || s[at] == '\n',
    ensures
        line_end(s, from) == at,
    decreases at - from,
{
    if from < at {
        lemma_line_end(s, from + 1, at);
    }
}

/// Splits a text into its lines.
pub fn split_lines(chars: &Vec<char>) -> (out: Vec<Vec<char>>)
    ensures
        line_views(out@) == lines_of(chars@),
        out@.len() == lines_of(chars@).len(),
{
    let ghost s = chars@;
    let mut out: Vec<Vec<char>> = Vec::new();
    let mut from: usize = 0;
    assert(line_views(out@) + lines_from(s, 0) =~= lines_from(s, 0));
    while from < chars.len()
        invariant
            s == chars@,
            from <= chars.len(),
            line_views(out@) + lines_from(s, from as int) == lines_from(s, 0),
        decreases chars.len() - from,
    {
        let mut end: usize = from;
        while end < chars.len() && chars[end] != '\n'
            invariant
                s == chars@,
                from <= end <= chars.len(),
                forall|j: int| from <= j < end ==> s[j] != '\n',
            decreases chars.len() - end,
        {
            end = end + 1;
        }
        proof {
            lemma_line_end(s, from as int, end as int);
        }
        let stop: usize = if end < chars.len() && end > from && chars[end - 1] == '\r' {
            end - 1
        } else {
            end
        };
        let mut line: Vec<char> = Vec::new();
        let mut k: usize = from;
        while k < stop
            invariant
                s == chars@,
                from <= k <= stop <= chars.len(),
                line@ == s.subrange(from as int, k as int),
            decreases stop - k,
        {
            line.push(chars[k]);
            k = k + 1;
            assert(line@ =~= s.subrange(from as int, k as int));
        }
        assert(line@ =~= closed_line(s, from as int, end as int));
        let ghost before = line_views(out@);
        out.push(line);
        assert(line_views(out@) =~= before + seq![closed_line(s, from as int, end as int)]);
        assert(before + lines_from(s, from as int) =~= line_views(out@) + lines_from(
            s,
            end as int + 1,
        ));
        if end < chars.len() {
            from = end + 1;
        } else {
            from = end;
        }
    }
    assert(line_views(out@) + lines_from(s, from as int) =~= line_views(out@));
    out
}

// ---------------------------------------------------------------------------
// Changed files
// ---------------------------------------------------------------------------

/// `m` stands in `s` at position `i`.
pub open spec fn occurs_at(s: Seq<char>, i: int, m: Seq<char>) -> bool {
    0 <= i && i + m.len() <= s.len() && s.subrange(i, i + m.len()) == m
}

/// `s` with every occurrence of `m` taken out, found from left to right.
pub open spec fn without_marker(s: Seq<char>, m: Seq<char>) -> Seq<char>
    decreases s.len(),
{
    if s.len() == 0 || m.len() == 0 {
        s
    } else if occurs_at(s, 0, m) {
        without_marker(s.skip(m.len() as int), m)
    } else {
        seq![s[0]] + without_marker(s.drop_first(), m)
    }
}

/// The marker that opens the new side of a file header.
pub open spec fn new_side_marker() -> Seq<char> {
    "+++ b/"@
}

/// The marker that opens the old side of a file header.
pub open spec fn old_side_marker() -> Seq<char> {
    "--- a/"@
}

/// The path a line names: a line that opens with one of the two file
/// markers names what is left once both markers are taken out of it.
pub open spec fn line_path(line: Seq<char>) -> Option<Seq<char>> {
    if occurs_at(line, 0, new_side_marker()) || occurs_at(line, 0, old_side_marker()) {
        Some(without_marker(without_marker(line, new_side_marker()), old_side_marker()))
    } else {
        None
    }
}

/// The paths named by `lines`, each once, in the order of first mention.
pub open spec fn distinct_paths(lines: Seq<Seq<char>>) -> Seq<Seq<char>>
    decreases lines.len(),
{
    if lines.len() == 0 {
        Seq::empty()
    } else {
        let rest = distinct_paths(lines.drop_last());
        match line_path(lines.last()) {
            Some(path) => if rest.contains(path) {
                rest
            } else {
                rest.push(path)
            },
            None => rest,
        }
    }
}

/// The files a patch touches.
pub open spec fn changed_paths(diff: Seq<char>) -> Seq<Seq<char>> {
    distinct_paths(lines_of(diff))
}

/// Whether `marker` stands in `chars` at position `i`.
pub fn marker_at(chars: &Vec<char>, i: usize, marker: &Vec<char>) -> (found: bool)
    requires
        i <= chars.len(),
    ensures
        found == occurs_at(chars@, i as int, marker@),
{
    if marker.len() > chars.len() - i {
        return false;
    }
    let mut k: usize = 0;
    while k < marker.len()
        invariant
            i + marker.len() <= chars.len(),
            k <= marker.len(),
            forall|j: int| 0 <= j < k ==> chars@[i + j] == marker@[j],
        decreases marker.len() - k,
    {
        if chars[i + k] != marker[k] {
            assert(chars@.subrange(i as int, i + marker.len())[k as int] != marker@[k as int]);
            return false;
        }
        k = k + 1;
    }
    assert(chars@.subrange(i as int, i + marker.len()) =~= marker@);
    true
}

/// Takes every occurrence of `marker` out of `chars`.
pub fn strip_marker(chars: &Vec<char>, marker: &Vec<char>) -> (out: Vec<char>)
    ensures
        out@ == without_marker(chars@, marker@),
{
    let ghost s = chars@;
    let ghost m = marker@;
    let mut out: Vec<char> = Vec::new();
    let mut i: usize = 0;
    assert(s.skip(0) =~= s);
    while i < chars.len()
        invariant
            s == chars@,
            m == marker@,
            i <= chars.len(),
            out@ + without_marker(s.skip(i as int), m) == without_marker(s, m),
        decreases chars.len() - i,
    {
        let ghost tail = s.skip(i as int);
        if marker.len() == 0 {
            out.push(chars[i]);
            assert(without_marker(tail, m) == tail);
            assert(without_marker(s.skip(i + 1), m) == s.skip(i + 1));
            assert(out@ + s.skip(i + 1) =~= out@.drop_last() + tail);
            i = i + 1;
        } else if marker_at(chars, i, marker) {
            assert(tail.subrange(0, m.len() as int) =~= s.subrange(i as int, i + m.len()));
            assert(tail.skip(m.len() as int) =~= s.skip(i + m.len()));
            i = i + marker.len();
        } else {
            assert(tail.subrange(0, m.len() as int) =~= s.subrange(i as int, i + m.len())
                || i + m.len() > s.len());
            assert(!occurs_at(tail, 0, m));
            assert(tail.drop_first() =~= s.skip(i + 1));
            let ghost before = out@;
            out.push(chars[i]);
            assert(out@ + without_marker(s.skip(i + 1), m) =~= before + (seq![tail[0]]
                + without_marker(tail.drop_first(), m)));
            i = i + 1;
        }
    }
    assert(s.skip(chars.len() as int) =~= Seq::<char>::empty());
    assert(out@ + Seq::<char>::empty() =~= out@);
    out
}

fn holds_path(paths: &Vec<String>, path: &String) -> (found: bool)
    ensures
        found == texts(paths@).contains(path@),
{
    let mut i: usize = 0;
    while i < paths.len()
        invariant
            i <= paths.len(),
            forall|j: int| 0 <= j < i ==> texts(paths@)[j] != path@,
        decreases paths.len() - i,
    {
        if paths[i] == *path {
            assert(texts(paths@)[i as int] == path@);
            return true;
        }
        i = i + 1;
    }
    false
}

/// The files a patch touches: every line that opens with `+++ b/` or
/// `--- a/` names one, each file is listed once, in the order of first
/// mention.
pub fn changed_files(diff: &str) -> (files: Vec<String>)
    ensures
        texts(files@) == changed_paths(diff@),
        files@.len() == changed_paths(diff@).len(),
        forall|i: int, j: int| 0 <= i < j < files@.len() ==> files@[i]@ != files@[j]@,
{
    let chars = to_chars(diff);
    let lines = split_lines(&chars);
    let new_side = to_chars("+++ b/");
    let old_side = to_chars("--- a/");
    let ghost shown = line_views(lines@);
    let mut files: Vec<String> = Vec::new();
    let mut i: usize = 0;
    assert(texts(files@) =~= distinct_paths(shown.take(0)));
    while i < lines.len()
        invariant
            i <= lines.len(),
            shown == line_views(lines@),
            new_side@ == new_side_marker(),
            old_side@ == old_side_marker(),
            texts(files@) == distinct_paths(shown.take(i as int)),
        decreases lines.len() - i,
    {
        assert(shown.take(i + 1).drop_last() =~= shown.take(i as int));
        assert(shown.take(i + 1).last() == lines@[i as int]@);
        let line = &lines[i];
        if marker_at(line, 0, &new_side) || marker_at(line, 0, &old_side) {
            let once = strip_marker(line, &new_side);
            let twice = strip_marker(&once, &old_side);
            let len = twice.len();
            let path = from_chars(&twice, 0, len);
            assert(path@ =~= twice@);
            if !holds_path(&files, &path) {
                let ghost before = texts(files@);
                files.push(path);
                assert(texts(files@) =~= before.push(twice@));
            }
        }
        i = i + 1;
    }
    assert(shown.take(lines.len() as int) =~= shown);
    proof {
        lemma_paths_are_distinct(shown);
        assert forall|i: int, j: int| 0 <= i < j < files@.len() implies files@[i]@
            != files@[j]@ by {
            assert(texts(files@)[i] == files@[i]@);
            assert(texts(files@)[j] == files@[j]@);
        }
    }
    files
}

/// The changed files form a set: no path is listed twice, every path is named
/// by some line, and every path that a line names is listed.
pub proof fn lemma_paths_are_distinct(lines: Seq<Seq<char>>)
    ensures
        forall|i: int, j: int|
            0 <= i < j < distinct_paths(lines).len() ==> distinct_paths(lines)[i]
                != distinct_paths(lines)[j],
        forall|i: int|
            0 <= i < distinct_paths(lines).len() ==> exists|k: int|
                0 <= k < lines.len() && line_path(lines[k]) == Some(
                    #[trigger] distinct_paths(lines)[i],
                ),
        forall|k: int|
            0 <= k < lines.len() && line_path(#[trigger] lines[k]) is Some ==> distinct_paths(
                lines,
            ).contains(line_path(lines[k])->0),
    decreases lines.len(),
{
    if lines.len() > 0 {
        let front = lines.drop_last();
        let last = lines.last();
        lemma_paths_are_distinct(front);
        let before = distinct_paths(front);
        let out = distinct_paths(lines);
        assert forall|i: int| 0 <= i < out.len() implies exists|k: int|
            0 <= k < lines.len() && line_path(lines[k]) == Some(#[trigger] out[i]) by {
            if i < before.len() {
                assert(out[i] == before[i]);
                let k = choose|k: int|
                    0 <= k < front.len() && line_path(front[k]) == Some(before[i]);
                assert(lines[k] == front[k]);
            } else {
                assert(lines[lines.len() - 1] == last);
            }
        }
        assert forall|k: int| 0 <= k < lines.len() && line_path(
            #[trigger] lines[k],
        ) is Some implies out.contains(line_path(lines[k])->0) by {
            let path = line_path(lines[k])->0;
            if k < front.len() {
                assert(front[k] == lines[k]);
                assert(before.contains(path));
                let m = choose|m: int| 0 <= m < before.len() && before[m] == path;
                assert(out[m] == path);
            } else if before.contains(path) {
                let m = choose|m: int| 0 <= m < before.len() && before[m] == path;
                assert(out[m] == path);
            } else {
                assert(out[out.len() - 1] == path);
            }
        }
    }
}

// ---------------------------------------------------------------------------
// Commit records
// ---------------------------------------------------------------------------

/// White space as Unicode defines it.
pub open spec fn is_space(c: char) -> bool {
    let n = c as u32;
    ||| 0x09 <= n <= 0x0D
    ||| n == 0x20
    ||| n == 0x85
    ||| n == 0xA0
    ||| n == 0x1680
    ||| 0x2000 <= n <= 0x200A
    ||| n == 0x2028
    ||| n == 0x2029
    ||| n == 0x202F
    ||| n == 0x205F
    ||| n == 0x3000
}

/// `s` without the white space it opens with.
pub open spec fn trim_start(s: Seq<char>) -> Seq<char>
    decreases s.len(),
{
    if s.len() > 0 && is_space(s[0]) {
        trim_start(s.drop_first())
    } else {
        s
    }
}

/// `s` without the white space it closes with.
pub open spec fn trim_end(s: Seq<char>) -> Seq<char>
    decreases s.len(),
{
    if s.len() > 0 && is_space(s.last()) {
        trim_end(s.drop_last())
    } else {
        s
    }
}

/// `s` without white space at either end.
pub open spec fn trimmed(s: Seq<char>) -> Seq<char> {
    trim_end(trim_start(s))
}

/// The display prefix of a hash: its first seven characters, or all of it
/// when it is shorter.
pub open spec fn short_text(hash: Seq<char>) -> Seq<char> {
    if hash.len() < 7 {
        hash
    } else {
        hash.take(7)
    }
}

/// Whether `c` is white space.
pub fn is_white_space(c: char) -> (space: bool)
    ensures
        space == is_space(c),
{
    let n: u32 = c as u32;
    (0x09 <= n && n <= 0x0D) || n == 0x20 || n == 0x85 || n == 0xA0 || n == 0x1680 || (0x2000 <= n
        && n <= 0x200A) || n == 0x2028 || n == 0x2029 || n == 0x202F || n == 0x205F || n == 0x3000
}

proof fn lemma_trim_start(s: Seq<char>, a: int)
    requires
        0 <= a <= s.len(),
        forall|j: int| 0 <= j < a ==> is_space(s[j]),
        a == s.len() || !is_space(s[a]),
    ensures
        trim_start(s) == s.skip(a),
    decreases a,
{
    if a == 0 {
        assert(s.skip(0) =~= s);
    } else {
        let rest = s.drop_first();
        assert forall|j: int| 0 <= j < a - 1 implies is_space(rest[j]) by {
            assert(rest[j] == s[j + 1]);
        }
        lemma_trim_start(rest, a - 1);
        assert(rest.skip(a - 1) =~= s.skip(a));
    }
}

proof fn lemma_trim_end(s: Seq<char>, b: int)
    requires
        0 <= b <= s.len(),
        forall|j: int| b <= j < s.len() ==> is_space(s[j]),
        b == 0 || !is_space(s[b - 1]),
    ensures
        trim_end(s) == s.take(b),
    decreases s.len() - b,
{
    if b == s.len() {
        assert(s.take(b) =~= s);
    } else {
        let rest = s.drop_last();
        lemma_trim_end(rest, b);
        assert(rest.take(b) =~= s.take(b));
    }
}

/// Removes white space from both ends of a text.
pub fn trim(text: &str) -> (out: String)
    ensures
        out@ == trimmed(text@),
{
    let chars = to_chars(text);
    let ghost s = chars@;
    let mut a: usize = 0;
    while a < chars.len() && is_white_space(chars[a])
        invariant
            s == chars@,
            a <= chars.len(),
            forall|j: int| 0 <= j < a ==> is_space(s[j]),
        decreases chars.len() - a,
    {
        a = a + 1;
    }
    let mut b: usize = chars.len();
    while b > a && is_white_space(chars[b - 1])
        invariant
            s == chars@,
            a <= b <= chars.len(),
            forall|j: int| b <= j < s.len() ==> is_space(s[j]),
        decreases b,
    {
        b = b - 1;
    }
    proof {
        lemma_trim_start(s, a as int);
        let rest = s.skip(a as int);
        assert forall|j: int| b - a <= j < rest.len() implies is_space(rest[j]) by {
            assert(rest[j] == s[j + a]);
        }
        if b > a {
            assert(rest[b - a - 1] == s[b - 1]);
        }
        lemma_trim_end(rest, b - a);
        assert(rest.take(b - a) =~= s.subrange(a as int, b as int));
    }
    from_chars(&chars, a, b)
}

/// The display prefix of a hash.
pub fn short_hash(hash: &str) -> (out: String)
    ensures
        out@ == short_text(hash@),
{
    let chars = to_chars(hash);
    if chars.len() < 7 {
        let n = chars.len();
        let out = from_chars(&chars, 0, n);
        assert(out@ =~= hash@);
        out
    } else {
        from_chars(&chars, 0, 7)
    }
}

impl CommitInfo {
    /// Builds the record of a commit from what a repository reports of it:
    /// the message loses the white space around it, and a commit whose
    /// author has no readable name is put down to `Unknown`.
    pub fn from_parts(
        hash: &str,
        message: Option<&str>,
        author: Option<&str>,
        seconds: i64,
        parent_hashes: Vec<String>,
    ) -> (out: CommitInfo)
        ensures
            out@ == (CommitView {
                hash: hash@,
                short_hash: short_text(hash@),
                message: match message {
                    Some(m) => trimmed(m@),
                    None => Seq::empty(),
                },
                author: match author {
                    Some(a) => a@,
                    None => "Unknown"@,
                },
                date: seconds as int,
                parent_hashes: texts(parent_hashes@),
            }),
    {
        CommitInfo {
            hash: String::from_str(hash),
            short_hash: short_hash(hash),
            message: match message {
                Some(m) => trim(m),
                None => String::new(),
            },
            author: match author {
                Some(a) => String::from_str(a),
                None => String::from_str("Unknown"),
            },
            date: seconds,
            parent_hashes,
        }
    }
}

// ---------------------------------------------------------------------------
// Patches
// ---------------------------------------------------------------------------

/// One line of a patch as the diff engine hands it out.
#[derive(Debug, PartialEq, Eq)]
pub struct DiffLine {
    /// The origin marker of the line.
    pub origin: char,
    /// The bytes of the line.
    pub content: Vec<u8>,
}

/// What an origin marker puts in front of its line: itself for an added, a
/// removed, a context and an unresolved line, nothing for any other.
pub open spec fn origin_prefix(origin: char) -> Seq<char> {
    if origin == '+' {
        "+"@
    } else if origin == '-' {
        "-"@
    } else if origin == ' ' {
        " "@
    } else if origin == 'U' {
        "U"@
    } else {
        Seq::empty()
    }
}

/// The text one line adds to a patch: its prefix and its content, or nothing
/// where the content is not valid UTF-8.
pub open spec fn line_text(origin: char, content: Seq<u8>) -> Seq<char> {
    if valid_utf8(content) {
        origin_prefix(origin) + decode_utf8(content)
    } else {
        Seq::empty()
    }
}

/// The text of a patch.
pub open spec fn patch_text(lines: Seq<DiffLine>) -> Seq<char>
    decreases lines.len(),
{
    if lines.len() == 0 {
        Seq::empty()
    } else {
        patch_text(lines.drop_last()) + line_text(lines.last().origin, lines.last().content@)
    }
}

/// Calls `std::str::from_utf8`. Trusted: it succeeds exactly on valid UTF-8
/// and then gives the characters the bytes encode.
#[verifier::external_body]
fn utf8_text(bytes: &[u8]) -> (text: Option<&str>)
    ensures
        match text {
            Some(t) => valid_utf8(bytes@) && t@ == decode_utf8(bytes@),
            None => !valid_utf8(bytes@),
        },
{
    std::str::from_utf8(bytes).ok()
}

/// Writes a patch out as text, line by line.
pub fn render_patch(lines: &Vec<DiffLine>) -> (out: String)
    ensures
        out@ == patch_text(lines@),
{
    let mut out = String::new();
    let mut i: usize = 0;
    assert(lines@.take(0) =~= Seq::<DiffLine>::empty());
    while i < lines.len()
        invariant
            i <= lines.len(),
            out@ == patch_text(lines@.take(i as int)),
        decreases lines.len() - i,
    {
        assert(lines@.take(i + 1).drop_last() =~= lines@.take(i as int));
        assert(lines@.take(i + 1).last() == lines@[i as int]);
        let line = &lines[i];
        let ghost before = out@;
        match utf8_text(line.content.as_slice()) {
            Some(content) => {
                let origin = line.origin;
                if origin == '+' {
                    out.append("+");
                } else if origin == '-' {
                    out.append("-");
                } else if origin == ' ' {
                    out.append(" ");
                } else if origin == 'U' {
                    out.append("U");
                }
                assert(out@ =~= before + origin_prefix(origin));
                out.append(content);
                assert(out@ =~= before + line_text(origin, line.content@));
            },
            None => {
                assert(out@ =~= before + line_text(line.origin, line.content@));
            },
        }
        i = i + 1;
    }
    assert(lines@.take(lines.len() as int) =~= lines@);
    out
}

} // verus!
