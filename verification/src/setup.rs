//! What setting a repository up has to decide: the ignore file, the commit
//! hook, and how long a first pass will take.

use vstd::prelude::*;
use vstd::string::*;
use crate::git::{
    line_views, lines_of, marker_at, occurs_at, split_lines, trim, trimmed,
};
use crate::text::{from_chars, to_chars};

verus! {

/// The entry that keeps the data directory out of version control.
pub open spec fn ignore_entry() -> Seq<char> {
    ".contexthub/"@
}

/// Some line of `content` is the ignore entry, white space around it aside.
pub open spec fn mentions_entry(content: Seq<char>) -> bool {
    exists|i: int|
        0 <= i < lines_of(content).len() && trimmed(#[trigger] lines_of(content)[i])
            == ignore_entry()
}

/// What the ignore file has to become: `None` where it names the entry
/// already; a fresh file where there was none; otherwise the old content,
/// closed by a line feed if it was not, followed by the entry under its
/// comment.
pub open spec fn ignore_file_text(existing: Option<Seq<char>>) -> Option<Seq<char>> {
    match existing {
        None => Some("# ContextHub local data\n.contexthub/\n"@),
        Some(content) => if mentions_entry(content) {
            None
        } else if content.len() > 0 && content.last() == '\n' {
            Some(content + "\n# ContextHub local data\n.contexthub/\n"@)
        } else {
            Some(content + "\n"@ + "\n# ContextHub local data\n.contexthub/\n"@)
        },
    }
}

/// Decides what to write to the ignore file, given what it holds now.
pub fn ignore_file_update(existing: Option<&str>) -> (out: Option<String>)
    ensures
        match out {
            Some(text) => ignore_file_text(
                match existing {
                    Some(c) => Some(c@),
                    None => None,
                },
            ) == Some(text@),
            None => ignore_file_text(
                match existing {
                    Some(c) => Some(c@),
                    None => None,
                },
            ) is None,
        },
{
    let content = match existing {
        None => {
            return Some(String::from_str("# ContextHub local data\n.contexthub/\n"));
        },
        Some(c) => c,
    };
    let chars = to_chars(content);
    let lines = split_lines(&chars);
    let entry = String::from_str(".contexthub/");
    let mut i: usize = 0;
    while i < lines.len()
        invariant
            i <= lines.len(),
            existing == Some(content),
            line_views(lines@) == lines_of(content@),
            entry@ == ignore_entry(),
            forall|j: int| 0 <= j < i ==> trimmed(#[trigger] lines_of(content@)[j]) != ignore_entry(),
        decreases lines.len() - i,
    {
        let n = lines[i].len();
        let line = from_chars(&lines[i], 0, n);
        assert(line@ =~= lines@[i as int]@);
        assert(line_views(lines@)[i as int] == lines@[i as int]@);
        let bare = trim(line.as_str());
        if bare == entry {
            assert(lines_of(content@).len() == lines.len());
            assert(trimmed(lines_of(content@)[i as int]) == ignore_entry());
            assert(mentions_entry(content@));
            return None;
        }
        i = i + 1;
    }
    assert(!mentions_entry(content@));
    let mut out = String::from_str(content);
    if !(chars.len() > 0 && chars[chars.len() - 1] == '\n') {
        out.append("\n");
    }
    out.append("\n# ContextHub local data\n.contexthub/\n");
    Some(out)
}

/// The word by which a commit hook is known to be this tool's own.
pub open spec fn hook_signature() -> Seq<char> {
    "ContextHub"@
}

/// `m` stands somewhere in `s`.
pub open spec fn mentions(s: Seq<char>, m: Seq<char>) -> bool {
    exists|i: int| #[trigger] occurs_at(s, i, m)
}

/// Whether a commit hook is this tool's own, so that removing it is safe: it
/// is when its text names the tool.
pub fn is_own_hook(content: &str) -> (own: bool)
    ensures
        own == mentions(content@, hook_signature()),
{
    let chars = to_chars(content);
    let word = to_chars("ContextHub");
    let mut i: usize = 0;
    while i < chars.len()
        invariant
            i <= chars.len(),
            chars@ == content@,
            word@ == hook_signature(),
            forall|j: int| 0 <= j < i ==> !occurs_at(content@, j, hook_signature()),
        decreases chars.len() - i,
    {
        if marker_at(&chars, i, &word) {
            return true;
        }
        i = i + 1;
    }
    let at_end = marker_at(&chars, i, &word);
    assert(!at_end ==> forall|j: int| !#[trigger] occurs_at(content@, j, hook_signature())) by {
        if !at_end {
            assert forall|j: int| !#[trigger] occurs_at(content@, j, hook_signature()) by {
                if j > i && occurs_at(content@, j, hook_signature()) {
                    assert(hook_signature().len() == 0);
                    assert(false);
                }
            }
        }
    }
    at_end
}

/// How many commits the first pass covers: all of them, up to the
/// configured window.
pub fn first_pass_size(commit_count: usize, default_window: usize) -> (size: usize)
    ensures
        size == if commit_count < default_window {
            commit_count
        } else {
            default_window
        },
{
    if commit_count < default_window {
        commit_count
    } else {
        default_window
    }
}

/// The minutes a pass over `commits` commits is expected to take, at ten to
/// thirty seconds a commit and never under a minute; no estimate is given for
/// five commits or fewer.
pub open spec fn pass_minutes(commits: int) -> Option<(int, int)> {
    if commits > 5 {
        Some(
            (
                if commits * 10 / 60 < 1 {
                    1
                } else {
                    commits * 10 / 60
                },
                if commits * 30 / 60 < 1 {
                    1
                } else {
                    commits * 30 / 60
                },
            ),
        )
    } else {
        None
    }
}

/// Estimates how long a pass will take.
pub fn estimate_minutes(commits: usize) -> (out: Option<(usize, usize)>)
    requires
        commits * 30 <= usize::MAX,
    ensures
        match out {
            Some((low, high)) => pass_minutes(commits as int) == Some((low as int, high as int)),
            None => pass_minutes(commits as int) is None,
        },
{
    if commits > 5 {
        let low: usize = commits * 10 / 60;
        let high: usize = commits * 30 / 60;
        Some((if low < 1 { 1 } else { low }, if high < 1 { 1 } else { high }))
    } else {
        None
    }
}

// ---------------------------------------------------------------------------
// Answers typed at a prompt
// ---------------------------------------------------------------------------

/// The answer to a prompt that offers a default: what was typed, without the
/// white space around it, or the default where nothing was typed.
pub open spec fn answer_text(input: Seq<char>, default: Seq<char>) -> Seq<char> {
    if trimmed(input).len() == 0 {
        default
    } else {
        trimmed(input)
    }
}

/// Reads the answer to a prompt that offers a default.
pub fn answer_or_default(input: &str, default: &str) -> (out: String)
    ensures
        out@ == answer_text(input@, default@),
{
    let typed = trim(input);
    if typed.as_str().unicode_len() == 0 {
        String::from_str(default)
    } else {
        typed
    }
}

/// `text` says yes: it is `y` or `yes`, in either case of each letter.
pub open spec fn says_yes(text: Seq<char>) -> bool {
    ||| text.len() == 1 && (text[0] == 'y' || text[0] == 'Y')
    ||| text.len() == 3 && (text[0] == 'y' || text[0] == 'Y') && (text[1] == 'e' || text[1] == 'E')
        && (text[2] == 's' || text[2] == 'S')
}

/// The answer to a yes-or-no question: the default where nothing was typed,
/// otherwise whether what was typed says yes.
pub open spec fn yes_no_answer(input: Seq<char>, default_yes: bool) -> bool {
    if trimmed(input).len() == 0 {
        default_yes
    } else {
        says_yes(trimmed(input))
    }
}

/// Reads the answer to a yes-or-no question.
pub fn answer_yes_no(input: &str, default_yes: bool) -> (yes: bool)
    ensures
        yes == yes_no_answer(input@, default_yes),
{
    let typed = trim(input);
    let chars = to_chars(typed.as_str());
    if chars.len() == 0 {
        default_yes
    } else if chars.len() == 1 {
        chars[0] == 'y' || chars[0] == 'Y'
    } else if chars.len() == 3 {
        (chars[0] == 'y' || chars[0] == 'Y') && (chars[1] == 'e' || chars[1] == 'E') && (chars[2]
            == 's' || chars[2] == 'S')
    } else {
        false
    }
}

/// The value of a decimal digit.
pub open spec fn digit_value(c: char) -> Option<int> {
    if 48 <= c as u32 <= 57 {
        Some(c as u32 - 48)
    } else {
        None
    }
}

/// The number a string of decimal digits writes; `None` for the empty string
/// and for a string that holds anything else.
pub open spec fn decimal_value(s: Seq<char>) -> Option<int>
    decreases s.len(),
{
    if s.len() == 0 {
        None
    } else {
        match digit_value(s.last()) {
            None => None,
            Some(d) => if s.len() == 1 {
                Some(d)
            } else {
                match decimal_value(s.drop_last()) {
                    None => None,
                    Some(v) => Some(v * 10 + d),
                }
            },
        }
    }
}

/// The index a text writes: decimal digits, with or without a `+` before
/// them, whose number fits a machine word.
pub open spec fn index_value(text: Seq<char>) -> Option<int> {
    let digits = if text.len() > 0 && text[0] == '+' {
        text.drop_first()
    } else {
        text
    };
    match decimal_value(digits) {
        Some(v) => if v <= usize::MAX {
            Some(v)
        } else {
            None
        },
        None => None,
    }
}

proof fn lemma_decimal_prefix(s: Seq<char>, k: int)
    requires
        decimal_value(s) is Some,
        1 <= k <= s.len(),
    ensures
        decimal_value(s.take(k)) is Some,
        0 <= decimal_value(s.take(k))->0 <= decimal_value(s)->0,
        digit_value(s[k - 1]) is Some,
    decreases s.len(),
{
    if k == s.len() {
        assert(s.take(k) =~= s);
        if s.len() > 1 {
            lemma_decimal_prefix(s.drop_last(), k - 1);
        }
    } else {
        lemma_decimal_prefix(s.drop_last(), k);
        assert(s.drop_last().take(k) =~= s.take(k));
    }
}

/// Reads an index.
pub fn parse_index(text: &str) -> (out: Option<usize>)
    ensures
        match out {
            Some(v) => index_value(text@) == Some(v as int),
            None => index_value(text@) is None,
        },
{
    let chars = to_chars(text);
    let start: usize = if chars.len() > 0 && chars[0] == '+' {
        1
    } else {
        0
    };
    let ghost digits = chars@.skip(start as int);
    assert(start == 1 ==> digits =~= chars@.drop_first());
    assert(start == 0 ==> digits =~= chars@);
    if start >= chars.len() {
        return None;
    }
    let mut value: usize = 0;
    let mut i: usize = start;
    while i < chars.len()
        invariant
            start <= i <= chars.len(),
            start < chars.len(),
            start <= 1,
            chars@ == text@,
            digits == chars@.skip(start as int),
            start == 1 ==> chars@[0] == '+' && digits == chars@.drop_first(),
            start == 0 ==> chars@[0] != '+' && digits == chars@,
            i == start ==> value == 0,
            i > start ==> decimal_value(digits.take(i - start)) == Some(value as int),
        decreases chars.len() - i,
    {
        let n: u32 = chars[i] as u32;
        let ghost upto = digits.take(i - start + 1);
        assert(upto.drop_last() =~= digits.take(i - start));
        assert(upto.last() == chars@[i as int]);
        assert(digits[i - start] == chars@[i as int]);
        if n < 48 || n > 57 {
            proof {
                if decimal_value(digits) is Some {
                    lemma_decimal_prefix(digits, i - start + 1);
                }
            }
            return None;
        }
        let d: usize = (n - 48) as usize;
        if value > (usize::MAX - d) / 10 {
            proof {
                if decimal_value(digits) is Some {
                    lemma_decimal_prefix(digits, i - start + 1);
                }
            }
            return None;
        }
        value = value * 10 + d;
        i = i + 1;
    }
    assert(digits.take(chars.len() - start) =~= digits);
    Some(value)
}

/// Which model an answer picks from a list.
#[derive(Debug, PartialEq, Eq)]
pub enum ModelChoice {
    /// The model the answer picks.
    Picked(String),
    /// The answer is a number outside the list; the first model stands in.
    OutOfRange(String),
}

/// The model an answer picks from a list that is not empty: a number picks by
/// position, counted from one, and the first model where it is out of range;
/// any other text is taken as the name of a model; no text picks the first.
pub open spec fn picked_model(answer: Seq<char>, models: Seq<Seq<char>>) -> (Seq<char>, bool) {
    match index_value(answer) {
        Some(i) => if 1 <= i <= models.len() {
            (models[i - 1], true)
        } else {
            (models[0], false)
        },
        None => if answer.len() > 0 {
            (answer, true)
        } else {
            (models[0], true)
        },
    }
}

/// Picks a model from a list by the answer typed.
pub fn pick_model(answer: &str, models: &Vec<String>) -> (choice: ModelChoice)
    requires
        models.len() > 0,
    ensures
        match choice {
            ModelChoice::Picked(name) => picked_model(answer@, crate::json::texts(models@)) == (
                name@,
                true,
            ),
            ModelChoice::OutOfRange(name) => picked_model(answer@, crate::json::texts(models@))
                == (name@, false),
        },
{
    match parse_index(answer) {
        Some(i) => {
            if i >= 1 && i <= models.len() {
                ModelChoice::Picked(models[i - 1].clone())
            } else {
                ModelChoice::OutOfRange(models[0].clone())
            }
        },
        None => {
            if answer.unicode_len() > 0 {
                ModelChoice::Picked(String::from_str(answer))
            } else {
                ModelChoice::Picked(models[0].clone())
            }
        },
    }
}

} // verus!
