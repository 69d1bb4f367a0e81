//! The two smallest decoders: a name, and a single expected character.

use crate::error::{ErrorKind, ErrorView};
use crate::text::{
    all_blank, is_name_char, is_name_start, lemma_run_len, lemma_run_len_unique,
    lemma_skip_blanks_prepend, run_len, skip_blanks, starts_name, CharClass, Scanner,
};
use vstd::prelude::*;

verus! {

/// What a decoder yields: the text it left behind and the value it found,
/// or the reason it gave up.
pub type Decoded<T> = Result<(Seq<char>, T), ErrorView>;

/// Whether `s` matches `[A-Za-z_][A-Za-z0-9_]*`.
pub open spec fn is_name(s: Seq<char>) -> bool {
    &&& s.len() > 0
    &&& is_name_start(s[0])
    &&& forall|i: int| 0 <= i < s.len() ==> is_name_char(#[trigger] s[i])
}

/// A name: after any blanks, the longest run of name characters, which must
/// start with a letter or an underscore. A failure holds the text after the
/// blanks.
pub open spec fn decode_name(s: Seq<char>) -> Decoded<Seq<char>> {
    let t = skip_blanks(s);
    if t.len() > 0 && is_name_start(t[0]) {
        let n = run_len(CharClass::NameChar, t) as int;
        Ok((t.skip(n), t.take(n)))
    } else {
        Err(ErrorView::ParseNameError { input: t })
    }
}

/// A single character: after any blanks, exactly `expected`. A failure holds
/// the text as it was given, blanks included.
pub open spec fn decode_char(expected: char, s: Seq<char>) -> Decoded<char> {
    let t = skip_blanks(s);
    if t.len() > 0 && t[0] == expected {
        Ok((t.drop_first(), expected))
    } else {
        Err(ErrorView::ExpectedChar { expected, input: s })
    }
}

/// Every text that is a name decodes to itself, with nothing left over.
pub proof fn lemma_name_decodes_to_itself(name: Seq<char>)
    requires
        is_name(name),
    ensures
        decode_name(name) == Ok::<_, ErrorView>((Seq::<char>::empty(), name)),
{
    lemma_run_len_unique(CharClass::Blank, name, 0);
    assert(name.skip(0) =~= name);
    lemma_run_len_unique(CharClass::NameChar, name, name.len());
    assert(name.skip(name.len() as int) =~= Seq::<char>::empty());
    assert(name.take(name.len() as int) =~= name);
}

/// A text that, after its blanks, is empty or starts with anything but a
/// letter or an underscore fails to decode with `ParseNameError`.
pub proof fn lemma_name_needs_first_char(s: Seq<char>)
    requires
        skip_blanks(s).len() == 0 || !is_name_start(skip_blanks(s)[0]),
    ensures
        decode_name(s) == Err::<(Seq<char>, Seq<char>), _>(
            ErrorView::ParseNameError { input: skip_blanks(s) },
        ),
{
}

/// What decodes as a name is a name, and it is followed in the text, after
/// the blanks, by exactly what is left over; the left-over text does not go
/// on with a name character.
pub proof fn lemma_decoded_name(s: Seq<char>)
    ensures
        decode_name(s) matches Ok((rest, name)) ==> {
            &&& is_name(name)
            &&& skip_blanks(s) == name + rest
            &&& rest.len() > 0 ==> !is_name_char(rest[0])
        },
{
    let t = skip_blanks(s);
    if t.len() > 0 && is_name_start(t[0]) {
        let n = run_len(CharClass::NameChar, t) as int;
        lemma_run_len(CharClass::NameChar, t);
        assert(t =~= t.take(n) + t.skip(n));
    }
}

/// A name takes at least one character off the text.
pub proof fn lemma_name_consumes(s: Seq<char>)
    ensures
        decode_name(s) matches Ok((rest, _)) ==> rest.len() < s.len(),
{
    lemma_run_len(CharClass::Blank, s);
    lemma_run_len(CharClass::NameChar, skip_blanks(s));
}

/// An expected character, once found, is taken off the text.
pub proof fn lemma_char_consumes(expected: char, s: Seq<char>)
    ensures
        decode_char(expected, s) matches Ok((rest, _)) ==> rest.len() < s.len(),
{
    lemma_run_len(CharClass::Blank, s);
}

/// Spaces and tabs in front of a name change nothing, not even the error.
pub proof fn lemma_name_ignores_leading_blanks(blanks: Seq<char>, s: Seq<char>)
    requires
        all_blank(blanks),
    ensures
        decode_name(blanks + s) == decode_name(s),
{
    lemma_skip_blanks_prepend(blanks, s);
}

/// Spaces and tabs in front of an expected character do not change whether
/// it is found, nor what is left after it.
pub proof fn lemma_char_ignores_leading_blanks(expected: char, blanks: Seq<char>, s: Seq<char>)
    requires
        all_blank(blanks),
    ensures
        decode_char(expected, blanks + s) is Ok <==> decode_char(expected, s) is Ok,
        decode_char(expected, s) is Ok ==> decode_char(expected, blanks + s) == decode_char(
            expected,
            s,
        ),
{
    lemma_skip_blanks_prepend(blanks, s);
}

/// A line feed is not a blank: a text that starts with one decodes neither
/// as a name nor as any expected character but the line feed itself.
pub proof fn lemma_line_feed_is_not_skipped(expected: char, s: Seq<char>)
    requires
        s.len() > 0,
        s[0] == '\n',
    ensures
        skip_blanks(s) == s,
        decode_name(s) == Err::<(Seq<char>, Seq<char>), _>(ErrorView::ParseNameError { input: s }),
        expected != '\n' ==> decode_char(expected, s) == Err::<(Seq<char>, char), _>(
            ErrorView::ExpectedChar { expected, input: s },
        ),
{
    lemma_run_len_unique(CharClass::Blank, s, 0);
    assert(s.skip(0) =~= s);
}

/// Decodes a name at `pos`.
pub(crate) fn name_at(scanner: &Scanner, pos: usize) -> (r: Result<(usize, String), ErrorKind>)
    requires
        pos <= scanner@.len(),
    ensures
        match r {
            Ok((end, name)) => {
                &&& pos < end <= scanner@.len()
                &&& decode_name(scanner@.skip(pos as int)) == Ok::<_, ErrorView>(
                    (scanner@.skip(end as int), name@),
                )
            },
            Err(e) => decode_name(scanner@.skip(pos as int)) == Err::<(Seq<char>, Seq<char>), _>(
                e@,
            ),
        },
{
    let start = scanner.run_end(pos, CharClass::Blank);
    let ghost t = scanner@.skip(start as int);
    assert(t =~= skip_blanks(scanner@.skip(pos as int)));
    match scanner.peek(start) {
        Some(c) if starts_name(c) => {
            let end = scanner.run_end(start, CharClass::NameChar);
            let name = scanner.copy(start, end);
            proof {
                let n = (end - start) as int;
                assert(t.skip(n) =~= scanner@.skip(end as int));
                assert(t.take(n) =~= scanner@.subrange(start as int, end as int));
            }
            Ok((end, name))
        },
        _ => Err(ErrorKind::ParseNameError { input: scanner.tail(start).to_owned() }),
    }
}

/// Requires `expected` at `pos`, after any blanks.
pub(crate) fn char_at(scanner: &Scanner, pos: usize, expected: char) -> (r: Result<
    usize,
    ErrorKind,
>)
    requires
        pos <= scanner@.len(),
    ensures
        match r {
            Ok(end) => {
                &&& pos < end <= scanner@.len()
                &&& decode_char(expected, scanner@.skip(pos as int)) == Ok::<_, ErrorView>(
                    (scanner@.skip(end as int), expected),
                )
            },
            Err(e) => decode_char(expected, scanner@.skip(pos as int)) == Err::<
                (Seq<char>, char),
                _,
            >(e@),
        },
{
    let start = scanner.run_end(pos, CharClass::Blank);
    let ghost t = scanner@.skip(start as int);
    assert(t =~= skip_blanks(scanner@.skip(pos as int)));
    if scanner.at(start, expected) {
        assert(t.drop_first() =~= scanner@.skip(start + 1));
        Ok(start + 1)
    } else {
        Err(ErrorKind::ExpectedChar { expected, input: scanner.tail(pos).to_owned() })
    }
}

/// Decodes a name from the front of `input`: `[A-Za-z_][A-Za-z0-9_]*`,
/// after any spaces and tabs. Returns the name and the text after it.
pub fn parse_name(input: &str) -> (r: Result<(&str, String), ErrorKind>)
    ensures
        match r {
            Ok((rest, name)) => decode_name(input@) == Ok::<_, ErrorView>((rest@, name@)),
            Err(e) => decode_name(input@) == Err::<(Seq<char>, Seq<char>), _>(e@),
        },
{
    let scanner = Scanner::new(input);
    assert(scanner@.skip(0) =~= input@);
    match name_at(&scanner, 0) {
        Ok((end, name)) => Ok((scanner.tail(end), name)),
        Err(e) => Err(e),
    }
}

/// Requires the character `expected` at the front of `input`, after any
/// spaces and tabs. Returns the character and the text after it.
pub fn match_char(expected: char, input: &str) -> (r: Result<(&str, char), ErrorKind>)
    ensures
        match r {
            Ok((rest, c)) => decode_char(expected, input@) == Ok::<_, ErrorView>((rest@, c)),
            Err(e) => decode_char(expected, input@) == Err::<(Seq<char>, char), _>(e@),
        },
{
    let scanner = Scanner::new(input);
    assert(scanner@.skip(0) =~= input@);
    match char_at(&scanner, 0, expected) {
        Ok(end) => Ok((scanner.tail(end), expected)),
        Err(e) => Err(e),
    }
}

} // verus!
