//! Prompt construction and tolerant interpretation of the text a generation
//! backend sends back.

use vstd::prelude::*;
use vstd::string::*;
use crate::json::{
    items_of, json_document, json_items, json_member, json_text, member, parse_document, text_of,
    texts,
};
use crate::git::copy_strings;
use crate::text::{from_chars, to_chars};

verus! {

/// Structured summary of one commit.
#[derive(Debug, PartialEq, Eq)]
pub struct ExtractedContext {
    pub summary: String,
    pub files_changed: Vec<String>,
    pub key_details: Vec<String>,
    pub technologies: Vec<String>,
    pub impact: String,
}

/// The five fields of a decoded reply, before defaults are applied.
#[derive(Debug, PartialEq, Eq)]
pub struct RawContext {
    pub summary: String,
    pub files_changed: Vec<String>,
    pub key_details: Vec<String>,
    pub technologies: Vec<String>,
    pub impact: String,
}

/// Mathematical content of a summary record.
pub struct ContextView {
    pub summary: Seq<char>,
    pub files_changed: Seq<Seq<char>>,
    pub key_details: Seq<Seq<char>>,
    pub technologies: Seq<Seq<char>>,
    pub impact: Seq<char>,
}

impl View for ExtractedContext {
    type V = ContextView;

    open spec fn view(&self) -> ContextView {
        ContextView {
            summary: self.summary@,
            files_changed: texts(self.files_changed@),
            key_details: texts(self.key_details@),
            technologies: texts(self.technologies@),
            impact: self.impact@,
        }
    }
}

impl View for RawContext {
    type V = ContextView;

    open spec fn view(&self) -> ContextView {
        ContextView {
            summary: self.summary@,
            files_changed: texts(self.files_changed@),
            key_details: texts(self.key_details@),
            technologies: texts(self.technologies@),
            impact: self.impact@,
        }
    }
}

impl Clone for ExtractedContext {
    fn clone(&self) -> (out: Self)
        ensures
            out@ == self@,
    {
        ExtractedContext {
            summary: self.summary.clone(),
            files_changed: copy_strings(&self.files_changed),
            key_details: copy_strings(&self.key_details),
            technologies: copy_strings(&self.technologies),
            impact: self.impact.clone(),
        }
    }
}

/// Why an extraction produced no record.
#[derive(Debug, PartialEq, Eq)]
pub enum ExtractError {
    /// The backend answered with a status outside 200..=299.
    Backend { status: u16 },
    /// The backend answered with success but the body carried no reply text.
    MalformedReply,
}

// ---------------------------------------------------------------------------
// Prompt
// ---------------------------------------------------------------------------

/// `items` written one after another with `sep` between neighbours.
pub open spec fn joined(items: Seq<Seq<char>>, sep: Seq<char>) -> Seq<char>
    decreases items.len(),
{
    if items.len() == 0 {
        Seq::empty()
    } else if items.len() == 1 {
        items[0]
    } else {
        joined(items.drop_last(), sep) + sep + items.last()
    }
}

/// The block that introduces the previous summary; empty when there is none.
pub open spec fn previous_section(previous: Option<Seq<char>>) -> Seq<char> {
    match previous {
        Some(ctx) => "\nPrevious Context (from the last processed commit):\n"@ + ctx
            + "\n\nUse this to understand the evolving codebase and build incremental knowledge.\n"@,
        None => Seq::empty(),
    }
}

/// The full prompt for one commit.
pub open spec fn prompt_text(
    message: Seq<char>,
    diff: Seq<char>,
    files: Seq<Seq<char>>,
    previous: Option<Seq<char>>,
) -> Seq<char> {
    "You are a code context analyzer. Given a git commit diff, extract structured information about what was changed.\n"@
        + previous_section(previous) + "\nCommit Message: "@ + message + "\n\nFiles Changed: "@
        + joined(files, ", "@) + "\n\nDiff:\n"@ + diff
        + "\n\nRespond ONLY with valid JSON (no other text):\n{\n  \"summary\": \"1-2 sentence description of what this commit does\",\n  \"files_changed\": [\"list of key files that were modified\"],\n  \"key_details\": [\"2-4 important technical details about this change\"],\n  \"technologies\": [\"technologies/libraries used\"],\n  \"impact\": \"high|medium|low - how significant is this change\"\n}"@
}

/// Joins `items` with `sep`.
pub fn join(items: &Vec<String>, sep: &str) -> (out: String)
    ensures
        out@ == joined(texts(items@), sep@),
{
    let mut out = String::new();
    let mut i: usize = 0;
    while i < items.len()
        invariant
            i <= items.len(),
            out@ == joined(texts(items@).take(i as int), sep@),
        decreases items.len() - i,
    {
        let ghost prefix = texts(items@).take(i as int);
        let ghost next = texts(items@).take(i + 1);
        assert(next.drop_last() =~= prefix);
        assert(next.last() == items@[i as int]@);
        if i > 0 {
            out.append(sep);
        } else {
            assert(out@ + items@[0]@ =~= items@[0]@);
        }
        out.append(items[i].as_str());
        i = i + 1;
    }
    assert(texts(items@).take(items.len() as int) =~= texts(items@));
    out
}

/// Builds the prompt for one commit: the fixed preamble, the previous summary
/// when there is one, the commit message, the changed files joined by `", "`,
/// the diff, and the fixed instruction that asks for the five-field object.
pub fn build_prompt(
    commit_message: &str,
    diff: &str,
    files_changed: &Vec<String>,
    previous_context: Option<&str>,
) -> (prompt: String)
    ensures
        prompt@ == prompt_text(
            commit_message@,
            diff@,
            texts(files_changed@),
            match previous_context {
                Some(p) => Some(p@),
                None => None,
            },
        ),
{
    let mut out = String::from_str(
        "You are a code context analyzer. Given a git commit diff, extract structured information about what was changed.\n",
    );
    match previous_context {
        Some(ctx) => {
            out.append("\nPrevious Context (from the last processed commit):\n");
            out.append(ctx);
            out.append(
                "\n\nUse this to understand the evolving codebase and build incremental knowledge.\n",
            );
            assert(out@
                =~= "You are a code context analyzer. Given a git commit diff, extract structured information about what was changed.\n"@
                + previous_section(Some(ctx@)));
        },
        None => {
            assert(out@
                =~= "You are a code context analyzer. Given a git commit diff, extract structured information about what was changed.\n"@
                + previous_section(None));
        },
    }
    out.append("\nCommit Message: ");
    out.append(commit_message);
    out.append("\n\nFiles Changed: ");
    let files = join(files_changed, ", ");
    out.append(files.as_str());
    out.append("\n\nDiff:\n");
    out.append(diff);
    out.append(
        "\n\nRespond ONLY with valid JSON (no other text):\n{\n  \"summary\": \"1-2 sentence description of what this commit does\",\n  \"files_changed\": [\"list of key files that were modified\"],\n  \"key_details\": [\"2-4 important technical details about this change\"],\n  \"technologies\": [\"technologies/libraries used\"],\n  \"impact\": \"high|medium|low - how significant is this change\"\n}",
    );
    out
}

// ---------------------------------------------------------------------------
// Framing
// ---------------------------------------------------------------------------

/// `i` is the first position of `c` in `s`.
pub open spec fn is_first(s: Seq<char>, c: char, i: int) -> bool {
    &&& 0 <= i < s.len()
    &&& s[i] == c
    &&& forall|j: int| 0 <= j < i ==> s[j] != c
}

/// `i` is the last position of `c` in `s`.
pub open spec fn is_last(s: Seq<char>, c: char, i: int) -> bool {
    &&& 0 <= i < s.len()
    &&& s[i] == c
    &&& forall|j: int| i < j < s.len() ==> s[j] != c
}

/// `s[a..=b]` runs from the first `{` to the last `}` of `s`.
pub open spec fn frames(s: Seq<char>, a: int, b: int) -> bool {
    is_first(s, '{', a) && is_last(s, '}', b) && a <= b
}

/// The candidate JSON text inside a reply: from its first `{` to its last
/// `}`, both included; `None` where either is missing or the last `}` stands
/// before the first `{`.
pub open spec fn json_frame(s: Seq<char>) -> Option<Seq<char>> {
    if exists|a: int, b: int| frames(s, a, b) {
        let (a, b) = choose|a: int, b: int| frames(s, a, b);
        Some(s.subrange(a, b + 1))
    } else {
        None
    }
}

/// Position of the first `c` in `chars`.
pub fn find_first(chars: &Vec<char>, c: char) -> (found: Option<usize>)
    ensures
        match found {
            Some(i) => is_first(chars@, c, i as int),
            None => forall|j: int| 0 <= j < chars@.len() ==> chars@[j] != c,
        },
{
    let mut i: usize = 0;
    while i < chars.len()
        invariant
            i <= chars.len(),
            forall|j: int| 0 <= j < i ==> chars@[j] != c,
        decreases chars.len() - i,
    {
        if chars[i] == c {
            return Some(i);
        }
        i = i + 1;
    }
    None
}

/// Position of the last `c` in `chars`.
pub fn find_last(chars: &Vec<char>, c: char) -> (found: Option<usize>)
    ensures
        match found {
            Some(i) => is_last(chars@, c, i as int),
            None => forall|j: int| 0 <= j < chars@.len() ==> chars@[j] != c,
        },
{
    let mut i: usize = chars.len();
    while i > 0
        invariant
            i <= chars.len(),
            forall|j: int| i <= j < chars@.len() ==> chars@[j] != c,
        decreases i,
    {
        i = i - 1;
        if chars[i] == c {
            return Some(i);
        }
    }
    None
}

/// Cuts the candidate JSON text out of a reply.
pub fn frame_json(response: &str) -> (frame: Option<String>)
    ensures
        match frame {
            Some(f) => json_frame(response@) == Some(f@),
            None => json_frame(response@) is None,
        },
{
    let chars = to_chars(response);
    let start = find_first(&chars, '{');
    let end = find_last(&chars, '}');
    match (start, end) {
        (Some(a), Some(b)) => {
            if a <= b {
                let f = from_chars(&chars, a, b + 1);
                proof {
                    let s = response@;
                    assert(frames(s, a as int, b as int));
                    let (a2, b2) = choose|a2: int, b2: int| frames(s, a2, b2);
                    assert(frames(s, a2, b2));
                    assert(a2 == a as int);
                    assert(b2 == b as int);
                }
                Some(f)
            } else {
                proof {
                    let s = response@;
                    assert forall|a2: int, b2: int| !frames(s, a2, b2) by {
                        if frames(s, a2, b2) {
                            assert(a2 == a as int);
                            assert(b2 == b as int);
                        }
                    }
                }
                None
            }
        },
        _ => {
            proof {
                let s = response@;
                assert forall|a2: int, b2: int| !frames(s, a2, b2) by {}
            }
            None
        },
    }
}

// ---------------------------------------------------------------------------
// Decoding
// ---------------------------------------------------------------------------

/// The strings of an array whose elements are all strings.
pub open spec fn string_items(items: Seq<serde_json::Value>) -> Option<Seq<Seq<char>>> {
    if forall|i: int| 0 <= i < items.len() ==> (#[trigger] json_text(items[i])) is Some {
        Some(Seq::new(items.len(), |i: int| json_text(items[i])->0))
    } else {
        None
    }
}

/// A list-of-strings member: empty when absent, `None` when present with
/// another shape.
pub open spec fn list_member(doc: serde_json::Value, key: Seq<char>) -> Option<Seq<Seq<char>>> {
    match json_member(doc, key) {
        None => Some(Seq::empty()),
        Some(v) => match json_items(v) {
            None => None,
            Some(items) => string_items(items),
        },
    }
}

/// A string member: empty when absent, `None` when present but not a string.
pub open spec fn text_member(doc: serde_json::Value, key: Seq<char>) -> Option<Seq<char>> {
    match json_member(doc, key) {
        None => Some(Seq::empty()),
        Some(v) => json_text(v),
    }
}

/// The five fields read from a decoded document: `summary` must be a string,
/// every other member may be missing, none may have another shape. A member
/// is what the document gives under its key, so where a text names a key
/// twice the value the codec kept is the one read.
pub open spec fn document_fields(doc: serde_json::Value) -> Option<ContextView> {
    match json_member(doc, "summary"@) {
        None => None,
        Some(v) => match (
            json_text(v),
            list_member(doc, "files_changed"@),
            list_member(doc, "key_details"@),
            list_member(doc, "technologies"@),
            text_member(doc, "impact"@),
        ) {
            (Some(summary), Some(files_changed), Some(key_details), Some(technologies), Some(impact)) => Some(
                ContextView { summary, files_changed, key_details, technologies, impact },
            ),
            _ => None,
        },
    }
}

/// The fields decoded from a candidate JSON text.
pub open spec fn decoded_fields(frame: Seq<char>) -> Option<ContextView> {
    match json_document(frame) {
        Some(doc) => document_fields(doc),
        None => None,
    }
}

/// The strings of an array whose elements are all strings.
pub fn read_string_items(items: &Vec<serde_json::Value>) -> (out: Option<Vec<String>>)
    ensures
        match out {
            Some(v) => string_items(items@) == Some(texts(v@)),
            None => string_items(items@) is None,
        },
{
    let mut out: Vec<String> = Vec::new();
    let mut i: usize = 0;
    while i < items.len()
        invariant
            i <= items.len(),
            out@.len() == i,
            forall|j: int| 0 <= j < i ==> json_text(#[trigger] items@[j]) == Some(out@[j]@),
        decreases items.len() - i,
    {
        match text_of(&items[i]) {
            Some(s) => {
                out.push(String::from_str(s));
            },
            None => {
                return None;
            },
        }
        i = i + 1;
    }
    assert(texts(out@) =~= Seq::new(items@.len(), |i: int| json_text(items@[i])->0));
    Some(out)
}

fn read_list_member(doc: &serde_json::Value, key: &str) -> (out: Option<Vec<String>>)
    ensures
        match out {
            Some(v) => list_member(*doc, key@) == Some(texts(v@)),
            None => list_member(*doc, key@) is None,
        },
{
    match member(doc, key) {
        None => {
            let v: Vec<String> = Vec::new();
            assert(texts(v@) =~= Seq::<Seq<char>>::empty());
            Some(v)
        },
        Some(v) => match items_of(v) {
            None => None,
            Some(items) => read_string_items(items),
        },
    }
}

fn read_text_member(doc: &serde_json::Value, key: &str) -> (out: Option<String>)
    ensures
        match out {
            Some(s) => text_member(*doc, key@) == Some(s@),
            None => text_member(*doc, key@) is None,
        },
{
    match member(doc, key) {
        None => Some(String::new()),
        Some(v) => match text_of(v) {
            None => None,
            Some(s) => Some(String::from_str(s)),
        },
    }
}

/// Decodes a candidate JSON text into the five fields.
pub fn decode_fields(frame: &str) -> (raw: Option<RawContext>)
    ensures
        match raw {
            Some(r) => decoded_fields(frame@) == Some(r@),
            None => decoded_fields(frame@) is None,
        },
{
    let doc = match parse_document(frame) {
        Some(doc) => doc,
        None => {
            return None;
        },
    };
    let summary = match member(&doc, "summary") {
        None => {
            return None;
        },
        Some(v) => match text_of(v) {
            None => {
                return None;
            },
            Some(s) => String::from_str(s),
        },
    };
    let files_changed = match read_list_member(&doc, "files_changed") {
        Some(v) => v,
        None => {
            return None;
        },
    };
    let key_details = match read_list_member(&doc, "key_details") {
        Some(v) => v,
        None => {
            return None;
        },
    };
    let technologies = match read_list_member(&doc, "technologies") {
        Some(v) => v,
        None => {
            return None;
        },
    };
    let impact = match read_text_member(&doc, "impact") {
        Some(s) => s,
        None => {
            return None;
        },
    };
    Some(RawContext { summary, files_changed, key_details, technologies, impact })
}

// ---------------------------------------------------------------------------
// Interpretation
// ---------------------------------------------------------------------------

/// The record that stands for an empty reply.
pub open spec fn empty_reply_record() -> ContextView {
    ContextView {
        summary: "Empty response from LLM"@,
        files_changed: Seq::empty(),
        key_details: Seq::empty(),
        technologies: Seq::empty(),
        impact: "low"@,
    }
}

/// The record that stands for a reply that could not be decoded: a fixed
/// prefix and at most the first 200 characters of the reply.
pub open spec fn fallback_record(response: Seq<char>) -> ContextView {
    ContextView {
        summary: "Raw LLM response: "@ + response.take(
            if response.len() < 200 {
                response.len() as int
            } else {
                200
            },
        ),
        files_changed: Seq::empty(),
        key_details: Seq::empty(),
        technologies: Seq::empty(),
        impact: "low"@,
    }
}

/// `text` is one of the three impact values.
pub open spec fn is_impact(text: Seq<char>) -> bool {
    text == "high"@ || text == "medium"@ || text == "low"@
}

/// The impact a decoded value stands for: itself where it is `high`,
/// `medium` or `low`, and `medium` for anything else, the empty text
/// included.
pub open spec fn impact_of(text: Seq<char>) -> Seq<char> {
    if is_impact(text) {
        text
    } else {
        "medium"@
    }
}

/// `items` with each text kept once, at the place of its first mention.
pub open spec fn distinct(items: Seq<Seq<char>>) -> Seq<Seq<char>>
    decreases items.len(),
{
    if items.len() == 0 {
        Seq::empty()
    } else {
        let rest = distinct(items.drop_last());
        if rest.contains(items.last()) {
            rest
        } else {
            rest.push(items.last())
        }
    }
}

/// No text stands twice in `items`.
pub open spec fn no_repeats(items: Seq<Seq<char>>) -> bool {
    forall|i: int, j: int| 0 <= i < j < items.len() ==> items[i] != items[j]
}

/// The record for a reply, given the fields decoded from it (if any). The
/// changed files and the technologies are sets, so a repeated mention is
/// dropped; the key details keep their order and their repeats; the impact is
/// held to its three values.
pub open spec fn interpreted(response: Seq<char>, raw: Option<ContextView>) -> ContextView {
    if response.len() == 0 {
        empty_reply_record()
    } else {
        match raw {
            Some(r) => ContextView {
                summary: r.summary,
                files_changed: distinct(r.files_changed),
                key_details: r.key_details,
                technologies: distinct(r.technologies),
                impact: impact_of(r.impact),
            },
            None => fallback_record(response),
        }
    }
}

fn holds_text(items: &Vec<String>, text: &String) -> (found: bool)
    ensures
        found == texts(items@).contains(text@),
{
    let mut i: usize = 0;
    while i < items.len()
        invariant
            i <= items.len(),
            forall|j: int| 0 <= j < i ==> texts(items@)[j] != text@,
        decreases items.len() - i,
    {
        if items[i] == *text {
            assert(texts(items@)[i as int] == text@);
            return true;
        }
        i = i + 1;
    }
    false
}

/// Keeps each text of `items` once, at the place of its first mention.
pub fn without_repeats(items: Vec<String>) -> (out: Vec<String>)
    ensures
        texts(out@) == distinct(texts(items@)),
        out@.len() == distinct(texts(items@)).len(),
        no_repeats(texts(out@)),
{
    let ghost shown = texts(items@);
    let mut out: Vec<String> = Vec::new();
    let mut i: usize = 0;
    assert(texts(out@) =~= distinct(shown.take(0)));
    while i < items.len()
        invariant
            i <= items.len(),
            shown == texts(items@),
            texts(out@) == distinct(shown.take(i as int)),
        decreases items.len() - i,
    {
        assert(shown.take(i + 1).drop_last() =~= shown.take(i as int));
        assert(shown.take(i + 1).last() == items@[i as int]@);
        if !holds_text(&out, &items[i]) {
            let ghost before = texts(out@);
            out.push(items[i].clone());
            assert(texts(out@) =~= before.push(items@[i as int]@));
        }
        i = i + 1;
    }
    assert(shown.take(items.len() as int) =~= shown);
    proof {
        lemma_distinct_is_a_set(shown);
    }
    out
}

/// Reads a decoded impact: one of the three values stands, anything else is
/// `medium`.
pub fn read_impact(text: String) -> (out: String)
    ensures
        out@ == impact_of(text@),
        is_impact(out@),
{
    if text == String::from_str("high") || text == String::from_str("medium") || text
        == String::from_str("low") {
        text
    } else {
        String::from_str("medium")
    }
}

/// The record for a reply.
pub open spec fn parsed_response(response: Seq<char>) -> ContextView {
    interpreted(
        response,
        match json_frame(response) {
            Some(frame) => decoded_fields(frame),
            None => None,
        },
    )
}

/// The content of decoded fields, where there are any.
pub open spec fn raw_view(raw: Option<RawContext>) -> Option<ContextView> {
    match raw {
        Some(r) => Some(r@),
        None => None,
    }
}

impl ExtractedContext {
    /// Turns a reply and the fields decoded from it into a record, by
    /// priority: an empty reply gives the empty-reply record; decoded fields
    /// are kept, without repeats among the files and the technologies and
    /// with any `impact` other than `high`, `medium` or `low` read as
    /// `medium`; otherwise the
    /// fallback record quotes the start of the reply.
    pub fn from_raw(response: &str, raw: Option<RawContext>) -> (out: ExtractedContext)
        ensures
            out@ == interpreted(response@, raw_view(raw)),
            is_impact(out.impact@),
            no_repeats(out@.files_changed),
            no_repeats(out@.technologies),
            out.files_changed@.len() == out@.files_changed.len(),
            out.key_details@.len() == out@.key_details.len(),
            out.technologies@.len() == out@.technologies.len(),
    {
        let chars = to_chars(response);
        if chars.len() == 0 {
            let out = ExtractedContext {
                summary: String::from_str("Empty response from LLM"),
                files_changed: Vec::new(),
                key_details: Vec::new(),
                technologies: Vec::new(),
                impact: String::from_str("low"),
            };
            assert(texts(out.files_changed@) =~= Seq::<Seq<char>>::empty());
            return out;
        }
        match raw {
            Some(r) => {
                let RawContext { summary, files_changed, key_details, technologies, impact } = r;
                ExtractedContext {
                    summary,
                    files_changed: without_repeats(files_changed),
                    key_details,
                    technologies: without_repeats(technologies),
                    impact: read_impact(impact),
                }
            },
            None => {
                let n: usize = if chars.len() < 200 {
                    chars.len()
                } else {
                    200
                };
                let head = from_chars(&chars, 0, n);
                let mut summary = String::from_str("Raw LLM response: ");
                summary.append(head.as_str());
                let out = ExtractedContext {
                    summary,
                    files_changed: Vec::new(),
                    key_details: Vec::new(),
                    technologies: Vec::new(),
                    impact: String::from_str("low"),
                };
                assert(texts(out.files_changed@) =~= Seq::<Seq<char>>::empty());
                out
            },
        }
    }
}

/// Reads a reply with tolerance for any text: see [`ExtractedContext::from_raw`]
/// for the priorities. The candidate JSON text is what stands between the
/// first `{` and the last `}`.
pub fn parse_response(response: &str) -> (out: ExtractedContext)
    ensures
        out@ == parsed_response(response@),
        is_impact(out.impact@),
        no_repeats(out@.files_changed),
        no_repeats(out@.technologies),
        out.files_changed@.len() == out@.files_changed.len(),
        out.key_details@.len() == out@.key_details.len(),
        out.technologies@.len() == out@.technologies.len(),
{
    let raw = match frame_json(response) {
        Some(frame) => decode_fields(frame.as_str()),
        None => None,
    };
    ExtractedContext::from_raw(response, raw)
}

/// True for the statuses that count as success.
pub open spec fn is_success(status: u16) -> bool {
    200 <= status < 300
}

/// The reply text carried by a response body: the string member `response`
/// of the JSON document that is the body.
pub open spec fn reply_text(body: Seq<char>) -> Option<Seq<char>> {
    match json_document(body) {
        None => None,
        Some(doc) => match json_member(doc, "response"@) {
            None => None,
            Some(v) => json_text(v),
        },
    }
}

/// Reads the reply text out of a response body.
pub fn decode_reply(body: &str) -> (text: Option<String>)
    ensures
        match text {
            Some(t) => reply_text(body@) == Some(t@),
            None => reply_text(body@) is None,
        },
{
    match parse_document(body) {
        None => None,
        Some(doc) => match member(&doc, "response") {
            None => None,
            Some(v) => match text_of(v) {
                None => None,
                Some(s) => Some(String::from_str(s)),
            },
        },
    }
}

/// What one generation call yields, given the reply text decoded from its
/// body: a status outside 200..=299 is a backend error that carries the
/// status; a success without reply text is malformed; any reply text gives a
/// record.
pub open spec fn extraction_result(status: u16, text: Option<Seq<char>>) -> Result<
    ContextView,
    ExtractError,
> {
    if !is_success(status) {
        Err(ExtractError::Backend { status })
    } else {
        match text {
            None => Err(ExtractError::MalformedReply),
            Some(t) => Ok(parsed_response(t)),
        }
    }
}

/// The content of an extraction: that of its record, or its error.
pub open spec fn result_view(r: Result<ExtractedContext, ExtractError>) -> Result<
    ContextView,
    ExtractError,
> {
    match r {
        Ok(c) => Ok(c@),
        Err(e) => Err(e),
    }
}

/// Judges one generation call by its status and the reply text.
pub fn extraction_from_reply(status: u16, text: Option<&str>) -> (out: Result<
    ExtractedContext,
    ExtractError,
>)
    ensures
        result_view(out) == extraction_result(
            status,
            match text {
                Some(t) => Some(t@),
                None => None,
            },
        ),
{
    if status < 200 || status >= 300 {
        return Err(ExtractError::Backend { status });
    }
    match text {
        None => Err(ExtractError::MalformedReply),
        Some(t) => Ok(parse_response(t)),
    }
}

/// Judges one generation call by its status and body.
pub fn extract_context(status: u16, body: &str) -> (out: Result<ExtractedContext, ExtractError>)
    ensures
        result_view(out) == extraction_result(status, reply_text(body@)),
{
    if status < 200 || status >= 300 {
        return Err(ExtractError::Backend { status });
    }
    let text = decode_reply(body);
    match text {
        None => Err(ExtractError::MalformedReply),
        Some(t) => Ok(parse_response(t.as_str())),
    }
}

/// The models offered when the backend cannot be asked for its own list.
pub open spec fn model_names() -> Seq<Seq<char>> {
    seq!["llama3.2"@, "llama3.1"@, "mistral"@, "codellama"@, "phi3"@]
}

/// The models offered when the backend cannot be asked for its own list.
pub fn get_models() -> (models: Vec<String>)
    ensures
        texts(models@) == model_names(),
        models@.len() == 5,
{
    let mut models: Vec<String> = Vec::new();
    models.push(String::from_str("llama3.2"));
    models.push(String::from_str("llama3.1"));
    models.push(String::from_str("mistral"));
    models.push(String::from_str("codellama"));
    models.push(String::from_str("phi3"));
    assert(texts(models@) =~= model_names());
    models
}

// ---------------------------------------------------------------------------
// Laws
// ---------------------------------------------------------------------------

/// Text that is not JSON never fails an extraction: a reply that is not
/// empty and holds no `{`, or no `}`, gives the fallback record, which has
/// low impact, empty lists, and a summary that quotes the reply, in full
/// when it has at most 200 characters.
pub proof fn lemma_reply_without_braces_falls_back(response: Seq<char>)
    requires
        response.len() > 0,
        (forall|j: int| 0 <= j < response.len() ==> response[j] != '{') || (forall|j: int|
            0 <= j < response.len() ==> response[j] != '}'),
    ensures
        parsed_response(response) == fallback_record(response),
        parsed_response(response).impact == "low"@,
        parsed_response(response).files_changed.len() == 0,
        parsed_response(response).key_details.len() == 0,
        parsed_response(response).technologies.len() == 0,
        response.len() <= 200 ==> parsed_response(response).summary == "Raw LLM response: "@
            + response,
{
    assert forall|a: int, b: int| !frames(response, a, b) by {
        if frames(response, a, b) {
            assert(response[a] == '{');
            assert(response[b] == '}');
        }
    }
    assert(json_frame(response) is None);
    if response.len() <= 200 {
        assert(response.take(response.len() as int) =~= response);
    }
}

/// Reading a reply always gives a record, and the record of a reply that is
/// not empty either carries the decoded fields or is the fallback record.
pub proof fn lemma_every_reply_gives_a_record(response: Seq<char>)
    ensures
        response.len() == 0 ==> parsed_response(response) == empty_reply_record(),
        response.len() > 0 ==> parsed_response(response) == fallback_record(response) || (
        json_frame(response) is Some && decoded_fields(json_frame(response)->0) is Some
            && parsed_response(response).summary == decoded_fields(
            json_frame(response)->0,
        )->0.summary),
{
}

/// `distinct` gives a set: nothing stands twice in it, all it holds was
/// given, and all that was given is in it.
pub proof fn lemma_distinct_is_a_set(items: Seq<Seq<char>>)
    ensures
        no_repeats(distinct(items)),
        distinct(items).len() <= items.len(),
        forall|i: int|
            0 <= i < distinct(items).len() ==> items.contains(#[trigger] distinct(items)[i]),
        forall|k: int| 0 <= k < items.len() ==> distinct(items).contains(#[trigger] items[k]),
        no_repeats(items) ==> distinct(items) == items,
    decreases items.len(),
{
    if items.len() > 0 {
        let front = items.drop_last();
        let last = items.last();
        lemma_distinct_is_a_set(front);
        let before = distinct(front);
        let out = distinct(items);
        assert forall|i: int| 0 <= i < out.len() implies items.contains(#[trigger] out[i]) by {
            if i < before.len() {
                assert(out[i] == before[i]);
                let k = choose|k: int| 0 <= k < front.len() && front[k] == before[i];
                assert(items[k] == out[i]);
            } else {
                assert(items[items.len() - 1] == out[i]);
            }
        }
        assert forall|k: int| 0 <= k < items.len() implies out.contains(#[trigger] items[k]) by {
            if k < front.len() {
                assert(front[k] == items[k]);
                let m = choose|m: int| 0 <= m < before.len() && before[m] == items[k];
                assert(out[m] == items[k]);
            } else if before.contains(last) {
                let m = choose|m: int| 0 <= m < before.len() && before[m] == last;
                assert(out[m] == items[k]);
            } else {
                assert(out[out.len() - 1] == items[k]);
            }
        }
        if no_repeats(items) {
            assert(no_repeats(front)) by {
                assert forall|i: int, j: int| 0 <= i < j < front.len() implies front[i]
                    != front[j] by {
                    assert(items[i] != items[j]);
                }
            }
            if before.contains(last) {
                let m = choose|m: int| 0 <= m < before.len() && before[m] == last;
                assert(front[m] == items[m]);
                assert(items[m] != items[items.len() - 1]);
            }
            assert(out =~= items);
        }
    }
}

/// Whatever the reply and whatever was decoded from it, the record has one
/// of the three impact values, and names no file and no technology twice.
pub proof fn lemma_record_is_well_formed(response: Seq<char>, raw: Option<ContextView>)
    ensures
        is_impact(interpreted(response, raw).impact),
        no_repeats(interpreted(response, raw).files_changed),
        no_repeats(interpreted(response, raw).technologies),
        is_impact(parsed_response(response).impact),
        no_repeats(parsed_response(response).files_changed),
        no_repeats(parsed_response(response).technologies),
{
    match raw {
        Some(r) => {
            lemma_distinct_is_a_set(r.files_changed);
            lemma_distinct_is_a_set(r.technologies);
        },
        None => {},
    }
    let decoded = match json_frame(response) {
        Some(frame) => decoded_fields(frame),
        None => None,
    };
    match decoded {
        Some(r) => {
            lemma_distinct_is_a_set(r.files_changed);
            lemma_distinct_is_a_set(r.technologies);
        },
        None => {},
    }
}

} // verus!
