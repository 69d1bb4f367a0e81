//! Quoted label values: `'"' fragment* '"'`, where a fragment is a run of
//! characters other than `"` and `\`, or one of the escapes `\n`, `\"`, `\\`.

use crate::error::{ErrorKind, ErrorView};
use crate::text::{
    all_blank, lemma_run_len, lemma_run_len_unique, lemma_skip_blanks_prepend, skip_blanks,
    CharClass, Scanner,
};
use crate::token::Decoded;
use vstd::prelude::*;

verus! {

/// The characters a quoted value holds as they are: all but the double
/// quote and the backslash.
pub open spec fn is_plain(c: char) -> bool {
    c != '"' && c != '\\'
}

/// The characters that may follow a backslash.
pub open spec fn is_escape_code(c: char) -> bool {
    c == 'n' || c == '"' || c == '\\'
}

/// The character that a backslash followed by `code` stands for.
pub open spec fn unescaped(code: char) -> char {
    if code == 'n' {
        '\n'
    } else {
        code
    }
}

/// The body of a quoted value: reads fragments for as long as there are
/// any, and gives the text left at the first character that starts none,
/// with the decoded text. It stops, without failing, at a `"`, at a
/// backslash that no escape code follows, and at the end of the text.
pub open spec fn decode_fragments(s: Seq<char>) -> (Seq<char>, Seq<char>)
    decreases s.len(),
{
    if s.len() > 0 && is_plain(s[0]) {
        let (rest, text) = decode_fragments(s.drop_first());
        (rest, seq![s[0]] + text)
    } else if s.len() >= 2 && s[0] == '\\' && is_escape_code(s[1]) {
        let (rest, text) = decode_fragments(s.skip(2));
        (rest, seq![unescaped(s[1])] + text)
    } else {
        (s, Seq::empty())
    }
}

/// A quoted value: after any blanks a `"`, the fragments, and a `"`. Where
/// the opening quote is missing the failure holds the text after the blanks;
/// where the closing one is, the text at which the fragments stopped.
pub open spec fn decode_quoted(s: Seq<char>) -> Decoded<Seq<char>> {
    let t = skip_blanks(s);
    if t.len() > 0 && t[0] == '"' {
        let (rest, text) = decode_fragments(t.drop_first());
        if rest.len() > 0 && rest[0] == '"' {
            Ok((rest.drop_first(), text))
        } else {
            Err(ErrorView::ExpectedToken { expected: "\""@, input: rest })
        }
    } else {
        Err(ErrorView::ExpectedToken { expected: "\""@, input: t })
    }
}

/// How one character of a value is written between quotes.
pub open spec fn escaped_char(c: char) -> Seq<char> {
    if c == '\n' {
        seq!['\\', 'n']
    } else if c == '"' {
        seq!['\\', '"']
    } else if c == '\\' {
        seq!['\\', '\\']
    } else {
        seq![c]
    }
}

/// How a value is written between quotes: line feed, double quote and
/// backslash as `\n`, `\"` and `\\`, every other character as it is.
pub open spec fn escaped(value: Seq<char>) -> Seq<char>
    decreases value.len(),
{
    if value.len() == 0 {
        Seq::empty()
    } else {
        escaped_char(value[0]) + escaped(value.drop_first())
    }
}

/// Fragments leave no more text than they were given.
pub proof fn lemma_fragments_consume(s: Seq<char>)
    ensures
        decode_fragments(s).0.len() <= s.len(),
    decreases s.len(),
{
    if s.len() > 0 && is_plain(s[0]) {
        lemma_fragments_consume(s.drop_first());
    } else if s.len() >= 2 && s[0] == '\\' && is_escape_code(s[1]) {
        lemma_fragments_consume(s.skip(2));
    }
}

/// A quoted value takes at least its two quotes off the text.
pub proof fn lemma_quoted_consumes(s: Seq<char>)
    ensures
        decode_quoted(s) matches Ok((rest, _)) ==> rest.len() + 2 <= s.len(),
{
    lemma_run_len(CharClass::Blank, s);
    let t = skip_blanks(s);
    if t.len() > 0 {
        lemma_fragments_consume(t.drop_first());
    }
}

/// Fragments decode an escaped value back to the value, and go on with
/// whatever follows it.
pub proof fn lemma_fragments_undo_escaping(value: Seq<char>, tail: Seq<char>)
    ensures
        ({
            let (rest, text) = decode_fragments(tail);
            decode_fragments(escaped(value) + tail) == (rest, value + text)
        }),
    decreases value.len(),
{
    let (rest, text) = decode_fragments(tail);
    if value.len() == 0 {
        assert(escaped(value) + tail =~= tail);
        assert(value + text =~= text);
    } else {
        let c = value[0];
        let more = value.drop_first();
        let s = escaped(value) + tail;
        let next = escaped(more) + tail;
        lemma_fragments_undo_escaping(more, tail);
        assert(seq![c] + (more + text) =~= value + text);
        if c == '\n' || c == '"' || c == '\\' {
            assert(s =~= escaped_char(c) + next);
            assert(s[0] == '\\');
            assert(s.skip(2) =~= next);
        } else {
            assert(s =~= seq![c] + next);
            assert(s.drop_first() =~= next);
        }
    }
}

/// Round trip: a value written between quotes, with its line feeds, double
/// quotes and backslashes escaped, decodes to the value it was written
/// from, whatever the value holds and whatever follows the closing quote.
pub proof fn lemma_quoted_round_trip(value: Seq<char>, tail: Seq<char>)
    ensures
        decode_quoted("\""@ + escaped(value) + "\""@ + tail) == Ok::<_, ErrorView>(
            (tail, value),
        ),
{
    reveal_strlit("\"");
    let s = "\""@ + escaped(value) + "\""@ + tail;
    let after = "\""@ + tail;
    lemma_run_len_unique(CharClass::Blank, s, 0);
    assert(s.skip(0) =~= s);
    assert(s.drop_first() =~= escaped(value) + after);
    lemma_fragments_undo_escaping(value, after);
    assert(decode_fragments(after) == (after, Seq::<char>::empty()));
    assert(value + Seq::<char>::empty() =~= value);
    assert(after.drop_first() =~= tail);
}

/// Spaces and tabs in front of a quoted value change nothing, not even the
/// error.
pub proof fn lemma_quoted_ignores_leading_blanks(blanks: Seq<char>, s: Seq<char>)
    requires
        all_blank(blanks),
    ensures
        decode_quoted(blanks + s) == decode_quoted(s),
{
    lemma_skip_blanks_prepend(blanks, s);
}

/// A line feed in front of a quoted value is not skipped: the value fails
/// for want of its opening quote.
pub proof fn lemma_quoted_stops_at_line_feed(s: Seq<char>)
    requires
        s.len() > 0,
        s[0] == '\n',
    ensures
        decode_quoted(s) == Err::<(Seq<char>, Seq<char>), _>(
            ErrorView::ExpectedToken { expected: "\""@, input: s },
        ),
{
    lemma_run_len_unique(CharClass::Blank, s, 0);
    assert(s.skip(0) =~= s);
}

/// Decodes the fragments that start at `pos`.
fn fragments_at(scanner: &Scanner, pos: usize) -> (r: (usize, String))
    requires
        pos <= scanner@.len(),
    ensures
        pos <= r.0 <= scanner@.len(),
        decode_fragments(scanner@.skip(pos as int)) == (scanner@.skip(r.0 as int), r.1@),
{
    let mut text = String::new();
    let mut at = pos;
    let end = scanner.len();
    let ghost whole = decode_fragments(scanner@.skip(pos as int));
    assert(text@ + whole.1 =~= whole.1);
    loop
        invariant
            pos <= at <= scanner@.len() == end,
            whole == (
                decode_fragments(scanner@.skip(at as int)).0,
                text@ + decode_fragments(scanner@.skip(at as int)).1,
            ),
        ensures
            pos <= at <= scanner@.len(),
            whole == (scanner@.skip(at as int), text@),
        decreases scanner@.len() - at,
    {
        let ghost s = scanner@.skip(at as int);
        let ghost before = text@;
        let taken: usize = match scanner.peek(at) {
            Some('\\') => match scanner.peek(at + 1) {
                Some('n') => {
                    text.push('\n');
                    2
                },
                Some('"') => {
                    text.push('"');
                    2
                },
                Some('\\') => {
                    text.push('\\');
                    2
                },
                _ => 0,
            },
            Some('"') | None => 0,
            Some(c) => {
                text.push(c);
                1
            },
        };
        if taken == 0 {
            assert(before + Seq::<char>::empty() =~= before);
            break;
        }
        proof {
            let next = scanner@.skip(at + taken);
            assert(s.skip(taken as int) =~= next);
            assert(s.drop_first() =~= s.skip(1));
            assert(before + (seq![text@.last()] + decode_fragments(next).1) =~= text@
                + decode_fragments(next).1);
        }
        at += taken;
    }
    (at, text)
}

/// Decodes a quoted value at `pos`.
pub(crate) fn quoted_at(scanner: &Scanner, pos: usize) -> (r: Result<(usize, String), ErrorKind>)
    requires
        pos <= scanner@.len(),
    ensures
        match r {
            Ok((end, text)) => {
                &&& pos < end <= scanner@.len()
                &&& decode_quoted(scanner@.skip(pos as int)) == Ok::<_, ErrorView>(
                    (scanner@.skip(end as int), text@),
                )
            },
            Err(e) => decode_quoted(scanner@.skip(pos as int)) == Err::<
                (Seq<char>, Seq<char>),
                _,
            >(e@),
        },
{
    let start = scanner.run_end(pos, CharClass::Blank);
    let ghost t = scanner@.skip(start as int);
    assert(t =~= skip_blanks(scanner@.skip(pos as int)));
    if !scanner.at(start, '"') {
        return Err(
            ErrorKind::ExpectedToken { expected: "\"", input: scanner.tail(start).to_owned() },
        );
    }
    assert(t.drop_first() =~= scanner@.skip(start + 1));
    let (stop, text) = fragments_at(scanner, start + 1);
    if scanner.at(stop, '"') {
        assert(scanner@.skip(stop as int).drop_first() =~= scanner@.skip(stop + 1));
        Ok((stop + 1, text))
    } else {
        Err(ErrorKind::ExpectedToken { expected: "\"", input: scanner.tail(stop).to_owned() })
    }
}

} // verus!
