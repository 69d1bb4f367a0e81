//! Sample values. A value is held as the bit pattern of an IEEE-754
//! double: `f64::from_bits` gives the number.
//!
//! A value is written as one of `+Inf`, `-Inf` and `Nan`, spelled exactly
//! so, or else as a decimal number, which the number decoder of the
//! combinator layer reads.

use crate::error::{ErrorKind, ErrorView};
use crate::text::{
    after_token, all_blank, lemma_run_len_unique, lemma_skip_blanks_prepend, skip_blanks,
    CharClass, Scanner,
};
use crate::token::Decoded;
use vstd::prelude::*;

verus! {

/// Bits of positive infinity.
pub const POSITIVE_INFINITY: u64 = 0x7ff0_0000_0000_0000;

/// Bits of negative infinity.
pub const NEGATIVE_INFINITY: u64 = 0xfff0_0000_0000_0000;

/// Bits of the quiet not-a-number that `Nan` decodes to.
pub const NOT_A_NUMBER: u64 = 0x7ff8_0000_0000_0000;

/// What `nom::number::complete::double` makes of a text: the text left
/// after the number that the text starts with and the bits of that number,
/// or `None` where it finds no number.
pub uninterp spec fn float_literal(text: Seq<char>) -> Option<(Seq<char>, u64)>;

/// One of the three values that are written as a word: the text must start
/// with `+Inf`, `-Inf` or `Nan`, in exactly this spelling.
pub open spec fn decode_special(s: Seq<char>) -> Option<(Seq<char>, u64)> {
    if let Some(rest) = after_token("+Inf"@, s) {
        Some((rest, POSITIVE_INFINITY))
    } else if let Some(rest) = after_token("-Inf"@, s) {
        Some((rest, NEGATIVE_INFINITY))
    } else if let Some(rest) = after_token("Nan"@, s) {
        Some((rest, NOT_A_NUMBER))
    } else {
        None
    }
}

/// A value that is not one of the three words: what the number decoder
/// found, or the failure that holds the text it was given.
pub open spec fn number_or_failure(text: Seq<char>, number: Option<(Seq<char>, u64)>) -> Decoded<
    u64,
> {
    match number {
        Some(found) => Ok(found),
        None => Err(ErrorView::ParseFloatError { input: text }),
    }
}

/// A value: after any blanks, one of the three words, tried first, or else
/// a number. A failure holds the text after the blanks.
pub open spec fn decode_value(s: Seq<char>) -> Decoded<u64> {
    let t = skip_blanks(s);
    match decode_special(t) {
        Some(found) => Ok(found),
        None => number_or_failure(t, float_literal(t)),
    }
}

/// `+Inf`, `-Inf` and `Nan` decode to positive infinity, negative infinity
/// and not-a-number, whatever follows them.
pub proof fn lemma_special_words(tail: Seq<char>)
    ensures
        decode_value("+Inf"@ + tail) == Ok::<_, ErrorView>((tail, POSITIVE_INFINITY)),
        decode_value("-Inf"@ + tail) == Ok::<_, ErrorView>((tail, NEGATIVE_INFINITY)),
        decode_value("Nan"@ + tail) == Ok::<_, ErrorView>((tail, NOT_A_NUMBER)),
{
    reveal_strlit("+Inf");
    reveal_strlit("-Inf");
    reveal_strlit("Nan");
    let plus = "+Inf"@ + tail;
    let minus = "-Inf"@ + tail;
    let nan = "Nan"@ + tail;
    lemma_run_len_unique(CharClass::Blank, plus, 0);
    lemma_run_len_unique(CharClass::Blank, minus, 0);
    lemma_run_len_unique(CharClass::Blank, nan, 0);
    assert(plus.skip(0) =~= plus && minus.skip(0) =~= minus && nan.skip(0) =~= nan);
    assert("+Inf"@ =~= plus.subrange(0, 4));
    assert(plus.skip(4) =~= tail);
    if "+Inf"@.is_prefix_of(minus) {
        assert(minus.subrange(0, 4)[0] == minus[0]);
    }
    assert("-Inf"@ =~= minus.subrange(0, 4));
    assert(minus.skip(4) =~= tail);
    if "+Inf"@.is_prefix_of(nan) {
        assert(nan.subrange(0, 4)[0] == nan[0]);
    }
    if "-Inf"@.is_prefix_of(nan) {
        assert(nan.subrange(0, 4)[0] == nan[0]);
    }
    assert("Nan"@ =~= nan.subrange(0, 3));
    assert(nan.skip(3) =~= tail);
}

/// The three words are spelled in one way only: a text is read as one of
/// them only where it starts with the very characters of `+Inf`, `-Inf` or
/// `Nan`, capitals as capitals and small letters as small letters.
pub proof fn lemma_special_words_are_exact(s: Seq<char>)
    ensures
        decode_special(s) is Some <==> {
            ||| s.len() >= 4 && s[0] == '+' && s[1] == 'I' && s[2] == 'n' && s[3] == 'f'
            ||| s.len() >= 4 && s[0] == '-' && s[1] == 'I' && s[2] == 'n' && s[3] == 'f'
            ||| s.len() >= 3 && s[0] == 'N' && s[1] == 'a' && s[2] == 'n'
        },
{
    reveal_strlit("+Inf");
    reveal_strlit("-Inf");
    reveal_strlit("Nan");
    if s.len() >= 4 {
        let p = s.subrange(0, 4);
        assert(p[0] == s[0] && p[1] == s[1] && p[2] == s[2] && p[3] == s[3]);
        if s[1] == 'I' && s[2] == 'n' && s[3] == 'f' {
            if s[0] == '+' {
                assert("+Inf"@ =~= p);
            }
            if s[0] == '-' {
                assert("-Inf"@ =~= p);
            }
        }
    }
    if s.len() >= 3 {
        let p = s.subrange(0, 3);
        assert(p[0] == s[0] && p[1] == s[1] && p[2] == s[2]);
        if s[0] == 'N' && s[1] == 'a' && s[2] == 'n' {
            assert("Nan"@ =~= p);
        }
    }
}

/// Spaces and tabs in front of a value change nothing, not even the error.
pub proof fn lemma_value_ignores_leading_blanks(blanks: Seq<char>, s: Seq<char>)
    requires
        all_blank(blanks),
    ensures
        decode_value(blanks + s) == decode_value(s),
{
    lemma_skip_blanks_prepend(blanks, s);
}

/// Reads a decimal number off the front of `text` with
/// `nom::number::complete::double`. The contract gives the outcome the name
/// `float_literal`: the text that `double` leaves and the bits of the number
/// it returns, or `None` where it fails. Nothing more is claimed of it.
#[verifier::external_body]
fn float_prefix<'a>(text: &'a str) -> (number: Option<(&'a str, u64)>)
    ensures
        match number {
            Some((rest, bits)) => float_literal(text@) == Some((rest@, bits)),
            None => float_literal(text@) is None,
        },
{
    let parsed: nom::IResult<&str, _> = nom::number::complete::double(text);
    match parsed {
        Ok((rest, number)) => Some((rest, number.to_bits())),
        Err(_) => None,
    }
}

/// Reads one of the three words at `pos`.
fn special_at(scanner: &Scanner, pos: usize) -> (r: Option<(usize, u64)>)
    requires
        pos <= scanner@.len(),
    ensures
        match r {
            Some((end, bits)) => {
                &&& pos < end <= scanner@.len()
                &&& decode_special(scanner@.skip(pos as int)) == Some(
                    (scanner@.skip(end as int), bits),
                )
            },
            None => decode_special(scanner@.skip(pos as int)) is None,
        },
{
    proof {
        reveal_strlit("+Inf");
        reveal_strlit("-Inf");
        reveal_strlit("Nan");
    }
    let ghost s = scanner@.skip(pos as int);
    if let Some(end) = scanner.token_end(pos, "+Inf") {
        assert(s.skip(4) =~= scanner@.skip(end as int));
        Some((end, POSITIVE_INFINITY))
    } else if let Some(end) = scanner.token_end(pos, "-Inf") {
        assert(s.skip(4) =~= scanner@.skip(end as int));
        Some((end, NEGATIVE_INFINITY))
    } else if let Some(end) = scanner.token_end(pos, "Nan") {
        assert(s.skip(3) =~= scanner@.skip(end as int));
        Some((end, NOT_A_NUMBER))
    } else {
        None
    }
}

/// Reads `+Inf`, `-Inf` or `Nan` off the front of `text`. Returns the bits
/// of the value and the text after the word; `None` where `text` starts
/// with none of the three.
pub fn special_value(text: &str) -> (r: Option<(&str, u64)>)
    ensures
        match r {
            Some((rest, bits)) => decode_special(text@) == Some((rest@, bits)),
            None => decode_special(text@) is None,
        },
{
    let scanner = Scanner::new(text);
    assert(scanner@.skip(0) =~= text@);
    match special_at(&scanner, 0) {
        Some((end, bits)) => Some((scanner.tail(end), bits)),
        None => None,
    }
}

/// Turns what the number decoder made of `text` into the outcome of
/// decoding a value: the number it found, or the failure that holds `text`.
pub fn number_or_error<'a>(text: &str, number: Option<(&'a str, u64)>) -> (r: Result<
    (&'a str, u64),
    ErrorKind,
>)
    ensures
        number matches Some((left, found)) ==> (r matches Ok((rest, bits)) && rest@ == left@
            && bits == found),
        number is None ==> (r matches Err(e) && e@ == (ErrorView::ParseFloatError {
            input: text@,
        })),
{
    match number {
        Some(found) => Ok(found),
        None => Err(ErrorKind::ParseFloatError { input: text.to_owned() }),
    }
}

/// Decodes a value at `pos`. The text after a value is returned as it is.
pub(crate) fn value_at<'a>(scanner: &Scanner<'a>, pos: usize) -> (r: Result<
    (&'a str, u64),
    ErrorKind,
>)
    requires
        pos <= scanner@.len(),
    ensures
        match r {
            Ok((rest, bits)) => decode_value(scanner@.skip(pos as int)) == Ok::<_, ErrorView>(
                (rest@, bits),
            ),
            Err(e) => decode_value(scanner@.skip(pos as int)) == Err::<(Seq<char>, u64), _>(e@),
        },
{
    let start = scanner.run_end(pos, CharClass::Blank);
    assert(scanner@.skip(start as int) =~= skip_blanks(scanner@.skip(pos as int)));
    match special_at(scanner, start) {
        Some((end, bits)) => Ok((scanner.tail(end), bits)),
        None => {
            let text = scanner.tail(start);
            number_or_error(text, float_prefix(text))
        },
    }
}

} // verus!
