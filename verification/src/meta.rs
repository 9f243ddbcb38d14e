//! The text of a commit as a row of a report: author, mail address, summary,
//! message and issue link, and a template that lays them out.

use vstd::prelude::*;
use crate::pattern::{pattern_compiles, pieces_between, groups_of, split, captures};
use crate::text::{trim, trimmed, replace_char, exchanged, remove_char, without, join, joined, same_text};

verus! {

/// One or more characters of white space.
pub const BLANKS: &'static str = "([\\s\\t\\n\\r]+)";

/// An issue key.
pub const ISSUE_KEY: &'static str = "(NIK-\\d+)";

/// A placeholder of a template: a key between `${` and `}`.
pub const PLACEHOLDER: &'static str = "\\$\\{(?P<key>\\w+)\\}";

/// Where an issue is looked at; the issue's key follows.
pub const ISSUE_URL: &'static str = "http://dev.shiftup.co.kr/jira/browse/";

/// What stands in a report for a value that is not there.
pub const NULL: &'static str = "null";

/// Which commit to describe, and how to lay the description out.
#[derive(Debug)]
pub struct Args {
    pub repo: String,
    pub commit: String,
    pub format: String,
}

/// What is read of a commit. A text that the store does not hold as valid
/// UTF-8 is `None`.
#[derive(Debug)]
pub struct CommitText {
    /// The author's name.
    pub author: Option<String>,
    /// The author's mail address.
    pub email: Option<String>,
    /// The whole message.
    pub message: Option<String>,
    /// The message's first paragraph, as the store condenses it to one line.
    pub summary: Option<String>,
}

/// The values of a report row, each under its key: `email`, `author`,
/// `message`, `summary` and `jira`.
#[derive(Debug)]
pub struct CommitInfo {
    pub email: String,
    pub author: String,
    pub message: String,
    pub summary: String,
    pub jira: String,
}

impl View for CommitInfo {
    type V = Map<Seq<char>, Seq<char>>;

    open spec fn view(&self) -> Map<Seq<char>, Seq<char>> {
        Map::<Seq<char>, Seq<char>>::empty().insert("email"@, self.email@).insert(
            "author"@,
            self.author@,
        ).insert("message"@, self.message@).insert("summary"@, self.summary@).insert(
            "jira"@,
            self.jira@,
        )
    }
}

impl CommitInfo {
    /// The value under `key`, if `key` is one of the five.
    pub fn get(&self, key: &str) -> (value: Option<&String>)
        ensures
            match value {
                Some(text) => self@.contains_key(key@) && self@[key@] == text@,
                None => !self@.contains_key(key@),
            },
    {
        proof {
            reveal_strlit("email");
            reveal_strlit("author");
            reveal_strlit("message");
            reveal_strlit("summary");
            reveal_strlit("jira");
        }
        if same_text(key, "jira") {
            Some(&self.jira)
        } else if same_text(key, "summary") {
            Some(&self.summary)
        } else if same_text(key, "message") {
            Some(&self.message)
        } else if same_text(key, "author") {
            Some(&self.author)
        } else if same_text(key, "email") {
            Some(&self.email)
        } else {
            None
        }
    }
}

/// A text, or `null` in its place.
pub open spec fn or_null(text: Option<String>) -> Seq<char> {
    match text {
        Some(s) => s@,
        None => NULL@,
    }
}

fn text_or_null(text: &Option<String>) -> (out: String)
    ensures
        out@ == or_null(*text),
{
    match text {
        Some(s) => s.clone(),
        None => NULL.to_owned(),
    }
}

/// A text fit for one cell of a row: the double quotes taken out, then every
/// run of white space that `BLANKS` matches replaced by one space.
pub open spec fn squeezed(text: Seq<char>) -> Seq<char> {
    joined(pieces_between(BLANKS@, without(text, '"')), " "@)
}

/// Takes the double quotes out of `message` and replaces each run of white
/// space by one space. `None` exactly where `BLANKS` does not compile.
pub fn replace(message: String) -> (out: Option<String>)
    ensures
        out is Some <==> pattern_compiles(BLANKS@),
        out matches Some(text) ==> text@ == squeezed(message@),
{
    let bare = remove_char(message.as_str(), '"');
    match split(BLANKS, bare.as_str()) {
        Some(pieces) => Some(join(&pieces, " ")),
        None => None,
    }
}

/// The author's mail address, or `null`.
pub fn get_email(commit: &CommitText) -> (out: String)
    ensures
        out@ == or_null(commit.email),
{
    text_or_null(&commit.email)
}

/// The author's name, or `null`.
pub fn get_author(commit: &CommitText) -> (out: String)
    ensures
        out@ == or_null(commit.author),
{
    text_or_null(&commit.author)
}

/// The message on one line: trimmed, each line feed turned into a tab; or
/// `null`.
pub open spec fn message_text(commit: CommitText) -> Seq<char> {
    match commit.message {
        Some(text) => exchanged(trimmed(text@), '\n', '\t'),
        None => NULL@,
    }
}

/// The summary, trimmed; or `null`.
pub open spec fn summary_text(commit: CommitText) -> Seq<char> {
    match commit.summary {
        Some(text) => trimmed(text@),
        None => NULL@,
    }
}

/// The message on one line: trimmed, each line feed turned into a tab; or
/// `null`.
pub fn get_message(commit: &CommitText) -> (out: String)
    ensures
        out@ == message_text(*commit),
{
    match &commit.message {
        Some(text) => {
            let inner = trim(text.as_str());
            replace_char(inner.as_str(), '\n', '\t')
        },
        None => NULL.to_owned(),
    }
}

/// The summary, trimmed; or `null`.
pub fn get_summary(commit: &CommitText) -> (out: String)
    ensures
        out@ == summary_text(*commit),
{
    match &commit.summary {
        Some(text) => trim(text.as_str()),
        None => NULL.to_owned(),
    }
}

/// The issue key of the first match of `ISSUE_KEY` in `text`, if there is a
/// match and the key took part in it.
pub open spec fn issue_key(text: Seq<char>) -> Option<Seq<char>> {
    let keys = groups_of(ISSUE_KEY@, text, 1);
    if keys.len() > 0 {
        keys[0]
    } else {
        None
    }
}

/// The link to the issue that `key` names.
pub open spec fn issue_link(key: Seq<char>) -> Seq<char> {
    ISSUE_URL@ + trimmed(key)
}

/// The link to the first issue named in the summary; without one, to the
/// first named in the message; without one, `null`.
pub open spec fn jira_link(commit: CommitText) -> Seq<char> {
    match issue_key(summary_text(commit)) {
        Some(key) => issue_link(key),
        None => match issue_key(message_text(commit)) {
            Some(key) => issue_link(key),
            None => NULL@,
        },
    }
}

fn find_link(text: &str) -> (out: Option<Option<String>>)
    ensures
        out is Some <==> pattern_compiles(ISSUE_KEY@),
        out matches Some(link) ==> match link {
            Some(url) => issue_key(text@) matches Some(key) && url@ == issue_link(key),
            None => issue_key(text@) is None,
        },
{
    match captures(ISSUE_KEY, text, 1) {
        None => None,
        Some(keys) => {
            if keys.len() > 0 {
                assert(keys.deep_view()[0] == keys[0].deep_view());
                match &keys[0] {
                    Some(key) => {
                        let name = trim(key.as_str());
                        let url = ISSUE_URL.to_owned().concat(name.as_str());
                        Some(Some(url))
                    },
                    None => Some(None),
                }
            } else {
                Some(None)
            }
        },
    }
}

/// The link to the issue that the commit names. `None` exactly where
/// `ISSUE_KEY` does not compile.
pub fn get_jira_link(commit: &CommitText) -> (out: Option<String>)
    ensures
        out is Some <==> pattern_compiles(ISSUE_KEY@),
        out matches Some(link) ==> link@ == jira_link(*commit),
{
    let summary = get_summary(commit);
    match find_link(summary.as_str()) {
        None => None,
        Some(Some(link)) => Some(link),
        Some(None) => {
            let message = get_message(commit);
            match find_link(message.as_str()) {
                None => None,
                Some(Some(link)) => Some(link),
                Some(None) => Some(NULL.to_owned()),
            }
        },
    }
}

/// Whether the three patterns of a row compile.
pub open spec fn patterns_compile() -> bool {
    pattern_compiles(BLANKS@) && pattern_compiles(ISSUE_KEY@) && pattern_compiles(PLACEHOLDER@)
}

/// The row of a commit.
pub open spec fn info_of(commit: CommitText) -> Map<Seq<char>, Seq<char>> {
    Map::<Seq<char>, Seq<char>>::empty().insert("email"@, or_null(commit.email)).insert(
        "author"@,
        or_null(commit.author),
    ).insert("message"@, squeezed(message_text(commit))).insert(
        "summary"@,
        squeezed(summary_text(commit)),
    ).insert("jira"@, jira_link(commit))
}

/// The row of a commit. `None` exactly where `BLANKS` or `ISSUE_KEY` does not
/// compile.
pub fn get_info(commit: &CommitText) -> (out: Option<CommitInfo>)
    ensures
        out is Some <==> pattern_compiles(BLANKS@) && pattern_compiles(ISSUE_KEY@),
        out matches Some(info) ==> info@ == info_of(*commit),
{
    let email = get_email(commit);
    let author = get_author(commit);
    let message = match replace(get_message(commit)) {
        Some(text) => text,
        None => {
            return None;
        },
    };
    let summary = match replace(get_summary(commit)) {
        Some(text) => text,
        None => {
            return None;
        },
    };
    let jira = match get_jira_link(commit) {
        Some(text) => text,
        None => {
            return None;
        },
    };
    Some(CommitInfo { email, author, message, summary, jira })
}

/// What a placeholder stands for: the value under its key, or `null` where
/// the row has no such key or the placeholder carries none.
pub open spec fn value_of(info: Map<Seq<char>, Seq<char>>, key: Option<Seq<char>>) -> Seq<char> {
    match key {
        Some(name) => if info.contains_key(name) {
            info[name]
        } else {
            NULL@
        },
        None => NULL@,
    }
}

/// The piece at `i`, or nothing where there is none.
pub open spec fn piece_at(pieces: Seq<Seq<char>>, i: int) -> Seq<char> {
    if 0 <= i < pieces.len() {
        pieces[i]
    } else {
        Seq::empty()
    }
}

/// A template put together again, each placeholder replaced by its value: the
/// first piece, then for each key in turn its value and the piece that
/// follows it.
pub open spec fn filled(
    pieces: Seq<Seq<char>>,
    keys: Seq<Option<Seq<char>>>,
    info: Map<Seq<char>, Seq<char>>,
) -> Seq<char>
    decreases keys.len(),
{
    if keys.len() == 0 {
        piece_at(pieces, 0)
    } else {
        filled(pieces, keys.drop_last(), info) + value_of(info, keys.last()) + piece_at(
            pieces,
            keys.len() as int,
        )
    }
}

/// Puts a template together again from the pieces around its placeholders and
/// the placeholders' keys, each placeholder replaced by its value in `info`.
pub fn fill(pieces: &Vec<String>, keys: &Vec<Option<String>>, info: &CommitInfo) -> (out: String)
    ensures
        out@ == filled(pieces.deep_view(), keys.deep_view(), info@),
{
    let mut out = String::new();
    if pieces.len() > 0 {
        out.append(pieces[0].as_str());
        assert(pieces.deep_view()[0] == pieces[0]@);
    }
    let mut i: usize = 0;
    assert(keys.deep_view().take(0) =~= Seq::<Option<Seq<char>>>::empty());
    assert(out@ =~= piece_at(pieces.deep_view(), 0));
    while i < keys.len()
        invariant
            i <= keys.len(),
            out@ == filled(pieces.deep_view(), keys.deep_view().take(i as int), info@),
        decreases keys.len() - i,
    {
        proof {
            let all = keys.deep_view();
            assert(all.take(i + 1).drop_last() =~= all.take(i as int));
            assert(all.take(i + 1).last() == keys[i as int].deep_view());
        }
        match &keys[i] {
            Some(name) => match info.get(name.as_str()) {
                Some(value) => {
                    out.append(value.as_str());
                },
                None => {
                    out.append(NULL);
                },
            },
            None => {
                out.append(NULL);
            },
        }
        if i + 1 < pieces.len() {
            out.append(pieces[i + 1].as_str());
            assert(pieces.deep_view()[i + 1] == pieces[i + 1]@);
        }
        i += 1;
    }
    proof {
        assert(keys.deep_view().take(i as int) =~= keys.deep_view());
    }
    out
}

/// A template with each placeholder replaced by its value in `info`.
pub open spec fn formatted(template: Seq<char>, info: Map<Seq<char>, Seq<char>>) -> Seq<char> {
    filled(pieces_between(PLACEHOLDER@, template), groups_of(PLACEHOLDER@, template, 1), info)
}

/// Lays a row out: every `${key}` of the template is replaced by the value
/// under `key`, or by `null` where the row has no such key. `None` exactly
/// where `PLACEHOLDER` does not compile.
pub fn format(template: &str, info: &CommitInfo) -> (out: Option<String>)
    ensures
        out is Some <==> pattern_compiles(PLACEHOLDER@),
        out matches Some(text) ==> text@ == formatted(template@, info@),
{
    let pieces = match split(PLACEHOLDER, template) {
        Some(pieces) => pieces,
        None => {
            return None;
        },
    };
    let keys = match captures(PLACEHOLDER, template, 1) {
        Some(keys) => keys,
        None => {
            return None;
        },
    };
    Some(fill(&pieces, &keys, info))
}

impl Args {
    /// The commit's row. `None` exactly where `BLANKS` or `ISSUE_KEY` does not
    /// compile.
    pub fn get_info(&self, commit: &CommitText) -> (out: Option<CommitInfo>)
        ensures
            out is Some <==> pattern_compiles(BLANKS@) && pattern_compiles(ISSUE_KEY@),
            out matches Some(info) ==> info@ == info_of(*commit),
    {
        get_info(commit)
    }

    /// The commit's row, laid out by the template in `format`. `None` exactly
    /// where one of the three patterns does not compile.
    pub fn execute(&self, commit: &CommitText) -> (out: Option<String>)
        ensures
            out is Some <==> patterns_compile(),
            out matches Some(text) ==> text@ == formatted(self.format@, info_of(*commit)),
    {
        let info = match get_info(commit) {
            Some(info) => info,
            None => {
                return None;
            },
        };
        format(self.format.as_str(), &info)
    }
}

} // verus!
