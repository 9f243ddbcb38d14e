//! Text laid out as a sheet: lines cut into cells, and what each cell holds.

use vstd::prelude::*;
use vstd::string::StrSliceExecFns;
use crate::text::{chars_of, same_text, starts_with, joined};

verus! {

/// Whether `sep` stands in `s` at `pos`.
pub open spec fn stands_at(s: Seq<char>, sep: Seq<char>, pos: int) -> bool {
    0 <= pos && pos + sep.len() <= s.len() && s.subrange(pos, pos + sep.len()) == sep
}

/// The pieces of `s` from `start` on, cut at the occurrences of a separator
/// that is not empty, where no occurrence begins in `start..pos`. Occurrences
/// are taken from the left and do not overlap.
pub open spec fn pieces_from(s: Seq<char>, sep: Seq<char>, start: int, pos: int) -> Seq<Seq<char>>
    decreases s.len() - pos,
{
    if sep.len() == 0 || pos < 0 || pos + sep.len() > s.len() {
        seq![s.subrange(start, s.len() as int)]
    } else if stands_at(s, sep, pos) {
        seq![s.subrange(start, pos)] + pieces_from(s, sep, pos + sep.len(), pos + sep.len())
    } else {
        pieces_from(s, sep, start, pos + 1)
    }
}

/// Each character as a piece of its own.
pub open spec fn singles(s: Seq<char>) -> Seq<Seq<char>> {
    s.map_values(|c: char| seq![c])
}

/// `s` cut at the occurrences of `sep`, the occurrences left out: one piece
/// more than there are occurrences, an empty piece where two occurrences meet
/// or one stands at an end. The empty separator occurs before and after every
/// character.
pub open spec fn split_by(s: Seq<char>, sep: Seq<char>) -> Seq<Seq<char>> {
    if sep.len() == 0 {
        seq![Seq::<char>::empty()] + singles(s) + seq![Seq::<char>::empty()]
    } else {
        pieces_from(s, sep, 0, 0)
    }
}

proof fn lemma_joined_prepend(head: Seq<char>, rest: Seq<Seq<char>>, sep: Seq<char>)
    requires
        rest.len() > 0,
    ensures
        joined(seq![head] + rest, sep) == head + sep + joined(rest, sep),
    decreases rest.len(),
{
    let all = seq![head] + rest;
    assert(all.drop_last() =~= seq![head] + rest.drop_last());
    assert(all.last() == rest.last());
    if rest.len() == 1 {
        assert(seq![head] + rest.drop_last() =~= seq![head]);
        assert(joined(all.drop_last(), sep) == head);
        assert(joined(rest, sep) == rest[0]);
    } else {
        lemma_joined_prepend(head, rest.drop_last(), sep);
        assert(joined(all, sep) =~= head + sep + joined(rest, sep));
    }
}

proof fn lemma_pieces_join(s: Seq<char>, sep: Seq<char>, start: int, pos: int)
    requires
        0 <= start <= pos <= s.len(),
        sep.len() > 0,
    ensures
        pieces_from(s, sep, start, pos).len() > 0,
        joined(pieces_from(s, sep, start, pos), sep) == s.subrange(start, s.len() as int),
    decreases s.len() - pos,
{
    if pos + sep.len() > s.len() {
    } else if stands_at(s, sep, pos) {
        let next = pos + sep.len();
        let rest = pieces_from(s, sep, next, next);
        lemma_pieces_join(s, sep, next, next);
        lemma_joined_prepend(s.subrange(start, pos), rest, sep);
        assert(s.subrange(start, pos) + sep + s.subrange(next, s.len() as int) =~= s.subrange(
            start,
            s.len() as int,
        ));
    } else {
        lemma_pieces_join(s, sep, start, pos + 1);
    }
}

/// Cutting loses nothing: the pieces of a text, joined by the separator again,
/// are the text.
pub proof fn lemma_split_joins_back(s: Seq<char>, sep: Seq<char>)
    ensures
        split_by(s, sep).len() > 0,
        joined(split_by(s, sep), sep) == s,
{
    if sep.len() == 0 {
        lemma_singles_join(s);
        let inner = seq![Seq::<char>::empty()] + singles(s);
        let all = inner + seq![Seq::<char>::empty()];
        assert(sep =~= Seq::<char>::empty());
        assert(all.drop_last() =~= inner);
        assert(all.last() == Seq::<char>::empty());
        assert(joined(all, sep) == joined(inner, sep) + sep + all.last());
        assert(joined(all, sep) =~= s);
    } else {
        lemma_pieces_join(s, sep, 0, 0);
        assert(s.subrange(0, s.len() as int) =~= s);
    }
}

proof fn lemma_singles_join(s: Seq<char>)
    ensures
        joined(seq![Seq::<char>::empty()] + singles(s), Seq::<char>::empty()) == s,
    decreases s.len(),
{
    let none = Seq::<char>::empty();
    let all = seq![none] + singles(s);
    if s.len() == 0 {
        assert(all =~= seq![none]);
        assert(joined(all, none) =~= s);
    } else {
        lemma_singles_join(s.drop_last());
        assert(all.drop_last() =~= seq![none] + singles(s.drop_last()));
        assert(all.last() == seq![s.last()]);
        assert(joined(all, none) =~= s.drop_last() + none + seq![s.last()]);
        assert(s.drop_last() + none + seq![s.last()] =~= s);
    }
}

/// The cells of a text: its lines, each cut into columns.
pub open spec fn cells(text: Seq<char>, line_sep: Seq<char>, column_sep: Seq<char>) -> Seq<
    Seq<Seq<char>>,
> {
    split_by(text, line_sep).map_values(|line: Seq<char>| split_by(line, column_sep))
}

fn found_at(s: &Vec<char>, sep: &Vec<char>, pos: usize) -> (found: bool)
    requires
        pos + sep.len() <= s.len(),
    ensures
        found == stands_at(s@, sep@, pos as int),
{
    let mut i: usize = 0;
    while i < sep.len()
        invariant
            i <= sep.len(),
            pos + sep.len() <= s.len(),
            forall|k: int| 0 <= k < i ==> s@[pos + k] == sep@[k],
        decreases sep.len() - i,
    {
        if s[pos + i] != sep[i] {
            assert(s@.subrange(pos as int, pos + sep.len())[i as int] == s@[pos + i]);
            return false;
        }
        i += 1;
    }
    assert(s@.subrange(pos as int, pos + sep.len()) =~= sep@);
    true
}

/// Cuts `text` at the occurrences of `sep`.
pub fn split<'a>(text: &'a str, sep: &str) -> (pieces: Vec<&'a str>)
    ensures
        pieces.deep_view() == split_by(text@, sep@),
{
    let s = chars_of(text);
    let cut = chars_of(sep);
    let n = s.len();
    let mut pieces: Vec<&'a str> = Vec::new();
    if cut.len() == 0 {
        pieces.push(text.substring_char(0, 0));
        let mut i: usize = 0;
        proof {
            assert(text@.subrange(0, 0) =~= Seq::<char>::empty());
            assert(singles(s@.take(0)) =~= Seq::<Seq<char>>::empty());
            assert(pieces.deep_view() =~= seq![Seq::<char>::empty()] + singles(s@.take(0)));
        }
        while i < n
            invariant
                i <= n,
                n == s.len(),
                s@ == text@,
                pieces.deep_view() == seq![Seq::<char>::empty()] + singles(s@.take(i as int)),
            decreases n - i,
        {
            let ghost before = pieces.deep_view();
            pieces.push(text.substring_char(i, i + 1));
            proof {
                assert(s@.take(i + 1) =~= s@.take(i as int).push(s@[i as int]));
                assert(s@.subrange(i as int, i + 1) =~= seq![s@[i as int]]);
                assert(singles(s@.take(i + 1)) =~= singles(s@.take(i as int)).push(
                    seq![s@[i as int]],
                ));
                assert(pieces.deep_view() =~= before.push(seq![s@[i as int]]));
                assert(pieces.deep_view() =~= seq![Seq::<char>::empty()] + singles(
                    s@.take(i + 1),
                ));
            }
            i += 1;
        }
        let ghost before = pieces.deep_view();
        pieces.push(text.substring_char(n, n));
        proof {
            assert(s@.take(n as int) =~= s@);
            assert(text@.subrange(n as int, n as int) =~= Seq::<char>::empty());
            assert(pieces.deep_view() =~= before.push(Seq::<char>::empty()));
            assert(pieces.deep_view() =~= split_by(text@, sep@));
        }
        return pieces;
    }
    let mut start: usize = 0;
    let mut pos: usize = 0;
    while cut.len() <= n - pos
        invariant
            start <= pos <= n,
            n == s.len(),
            s@ == text@,
            cut@ == sep@,
            cut.len() > 0,
            pieces_from(s@, cut@, 0, 0) == pieces.deep_view() + pieces_from(
                s@,
                cut@,
                start as int,
                pos as int,
            ),
        decreases n - pos,
    {
        if found_at(&s, &cut, pos) {
            let ghost before = pieces.deep_view();
            pieces.push(text.substring_char(start, pos));
            proof {
                assert(pieces.deep_view() =~= before + seq![s@.subrange(start as int, pos as int)]);
            }
            pos = pos + cut.len();
            start = pos;
        } else {
            pos = pos + 1;
        }
    }
    let ghost before = pieces.deep_view();
    pieces.push(text.substring_char(start, n));
    proof {
        assert(pieces.deep_view() =~= before + seq![s@.subrange(start as int, n as int)]);
    }
    pieces
}

/// Cuts a text into lines and each line into columns.
pub fn parse_text<'a>(text: &'a str, line_sep: &'a str, column_sep: &'a str) -> (result: Vec<
    Vec<&'a str>,
>)
    ensures
        result.deep_view() == cells(text@, line_sep@, column_sep@),
{
    let lines = split(text, line_sep);
    let mut result: Vec<Vec<&'a str>> = Vec::new();
    let mut i: usize = 0;
    while i < lines.len()
        invariant
            i <= lines.len(),
            lines.deep_view() == split_by(text@, line_sep@),
            result.len() == i,
            forall|k: int|
                0 <= k < i ==> (#[trigger] result[k]).deep_view() == split_by(
                    lines[k]@,
                    column_sep@,
                ),
        decreases lines.len() - i,
    {
        let cols = split(lines[i], column_sep);
        result.push(cols);
        i += 1;
    }
    proof {
        let want = cells(text@, line_sep@, column_sep@);
        assert(result.deep_view().len() == want.len());
        assert forall|k: int| 0 <= k < want.len() implies result.deep_view()[k] == want[k] by {
            assert(lines.deep_view()[k] == lines[k]@);
        }
        assert(result.deep_view() =~= want);
    }
    result
}

/// A formula: a text that begins with `=`.
pub fn parse_formula(text: &str) -> (formula: Option<&str>)
    ensures
        formula == (if "="@.is_prefix_of(text@) {
            Some(text)
        } else {
            None
        }),
{
    if starts_with(text, "=") {
        return Some(text);
    }
    None
}

/// A truth value: `TRUE` or `FALSE`, written so.
pub fn parse_boolean(text: &str) -> (value: Option<bool>)
    ensures
        value == (if text@ == "TRUE"@ {
            Some(true)
        } else if text@ == "FALSE"@ {
            Some(false)
        } else {
            None
        }),
{
    if same_text(text, "TRUE") {
        return Some(true)
    } else if same_text(text, "FALSE") {
        return Some(false)
    }
    None
}

/// A link: a text that begins with `http`.
pub fn parse_url(text: &str) -> (url: Option<&str>)
    ensures
        url == (if "http"@.is_prefix_of(text@) {
            Some(text)
        } else {
            None
        }),
{
    if starts_with(text, "http") {
        return Some(text);
    }
    None
}

/// What a cell holds.
#[derive(Clone, Copy, Debug, PartialEq, Eq, Structural)]
pub enum CellKind {
    /// A number.
    Number,
    /// A truth value.
    Boolean(bool),
    /// A formula.
    Formula,
    /// A link.
    Url,
    /// Plain text.
    Text,
}

/// What a cell with the given text holds, where `number` says whether the
/// text reads as a number: a number before a truth value, that before a
/// formula, that before a link, and plain text where it is none of them.
pub open spec fn kind_of(text: Seq<char>, number: bool) -> CellKind {
    if number {
        CellKind::Number
    } else if text == "TRUE"@ {
        CellKind::Boolean(true)
    } else if text == "FALSE"@ {
        CellKind::Boolean(false)
    } else if "="@.is_prefix_of(text) {
        CellKind::Formula
    } else if "http"@.is_prefix_of(text) {
        CellKind::Url
    } else {
        CellKind::Text
    }
}

/// Decides what a cell holds.
pub fn cell_kind(text: &str, number: bool) -> (kind: CellKind)
    ensures
        kind == kind_of(text@, number),
{
    if number {
        return CellKind::Number;
    }
    if let Some(value) = parse_boolean(text) {
        return CellKind::Boolean(value);
    }
    if parse_formula(text).is_some() {
        return CellKind::Formula;
    }
    if parse_url(text).is_some() {
        return CellKind::Url;
    }
    CellKind::Text
}

} // verus!
