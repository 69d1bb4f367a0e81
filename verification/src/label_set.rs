//! The label set of a sample: `{` element (`,` element)* [`,`] `}`, where an
//! element is `name = "value"`. A text that does not start with `{` has the
//! empty label set.

use crate::error::{ErrorKind, ErrorView};
use crate::labels::{lemma_last_occurrence_wins, pairs_map, Labels, Pair};
use crate::quoted::{decode_quoted, lemma_quoted_consumes, quoted_at};
use crate::text::{all_blank, lemma_skip_blanks_prepend, skip_blanks, CharClass, Scanner};
use crate::token::{
    char_at, decode_char, decode_name, lemma_char_consumes, lemma_name_consumes,
    lemma_name_ignores_leading_blanks, name_at, Decoded,
};
use vstd::prelude::*;

verus! {

/// One label: a name, `=`, and a quoted value.
pub open spec fn decode_pair(s: Seq<char>) -> Decoded<Pair> {
    match decode_name(s) {
        Err(e) => Err(e),
        Ok((after_name, name)) => match decode_char('=', after_name) {
            Err(e) => Err(e),
            Ok((after_sign, _)) => match decode_quoted(after_sign) {
                Err(e) => Err(e),
                Ok((rest, value)) => Ok((rest, (name, value))),
            },
        },
    }
}

/// What stands where a label may: a label, or else the `}` that ends the
/// set, which yields `None`. Where neither is found, the failure is that of
/// the label.
pub open spec fn decode_element(s: Seq<char>) -> Decoded<Option<Pair>> {
    match decode_pair(s) {
        Ok((rest, pair)) => Ok((rest, Some(pair))),
        Err(e) => match decode_char('}', s) {
            Ok((rest, _)) => Ok((rest, None)),
            Err(_) => Err(e),
        },
    }
}

/// The labels after the opening `{`, in the order in which they are
/// written, up to and including the closing `}`. After each label comes a
/// `,` and then whatever may stand where a label may, or else the closing
/// `}`; where neither follows a label, the failure is that of the `,`.
pub open spec fn decode_elements(s: Seq<char>) -> Decoded<Seq<Pair>>
    decreases s.len(),
    via decode_elements_decreases
{
    match decode_element(s) {
        Err(e) => Err(e),
        Ok((rest, None)) => Ok((rest, Seq::empty())),
        Ok((rest, Some(pair))) => match decode_char(',', rest) {
            Ok((next, _)) => match decode_elements(next) {
                Err(e) => Err(e),
                Ok((end, pairs)) => Ok((end, seq![pair] + pairs)),
            },
            Err(separator) => match decode_char('}', rest) {
                Ok((end, _)) => Ok((end, seq![pair])),
                Err(_) => Err(separator),
            },
        },
    }
}

#[via_fn]
proof fn decode_elements_decreases(s: Seq<char>) {
    lemma_pair_consumes(s);
    if let Ok((rest, Some(_))) = decode_element(s) {
        lemma_char_consumes(',', rest);
    }
}

/// The label set in front of a text, as written: after any blanks, the
/// labels between `{` and `}`; none, and only the blanks skipped, where no
/// `{` follows the blanks.
pub open spec fn decode_label_pairs(s: Seq<char>) -> Decoded<Seq<Pair>> {
    let t = skip_blanks(s);
    if t.len() > 0 && t[0] == '{' {
        decode_elements(t.drop_first())
    } else {
        Ok((t, Seq::empty()))
    }
}

/// The label set in front of a text, as a mapping from name to value: of
/// the values written for one name, the last.
pub open spec fn decode_labels(s: Seq<char>) -> Decoded<Map<Seq<char>, Seq<char>>> {
    match decode_label_pairs(s) {
        Ok((rest, pairs)) => Ok((rest, pairs_map(pairs))),
        Err(e) => Err(e),
    }
}

/// A label takes at least its name, its `=` and its two quotes off the text.
pub proof fn lemma_pair_consumes(s: Seq<char>)
    ensures
        decode_pair(s) matches Ok((rest, _)) ==> rest.len() + 4 <= s.len(),
{
    lemma_name_consumes(s);
    if let Ok((after_name, _)) = decode_name(s) {
        lemma_char_consumes('=', after_name);
        if let Ok((after_sign, _)) = decode_char('=', after_name) {
            lemma_quoted_consumes(after_sign);
        }
    }
}

/// Where a label set writes a name more than once, the name has the value
/// that is written for it last.
pub proof fn lemma_last_written_value_stays(s: Seq<char>, i: int)
    requires
        decode_label_pairs(s) matches Ok((_, pairs)) && 0 <= i < pairs.len() && forall|j: int|
            i < j < pairs.len() ==> (#[trigger] pairs[j]).0 != pairs[i].0,
    ensures
        decode_label_pairs(s) matches Ok((_, pairs)) && decode_labels(s) matches Ok((_, labels))
            && labels.contains_key(pairs[i].0) && labels[pairs[i].0] == pairs[i].1,
{
    if let Ok((_, pairs)) = decode_label_pairs(s) {
        lemma_last_occurrence_wins(pairs, i);
    }
}

/// A label set fails only in the ways the grammar names: for want of a
/// name, of a character or of a quote.
pub proof fn lemma_label_failures_are_specific(s: Seq<char>)
    ensures
        decode_pair(s) matches Err(e) ==> e.is_specific(),
        decode_element(s) matches Err(e) ==> e.is_specific(),
        decode_elements(s) matches Err(e) ==> e.is_specific(),
        decode_label_pairs(s) matches Err(e) ==> e.is_specific(),
        decode_labels(s) matches Err(e) ==> e.is_specific(),
{
    lemma_element_failures_are_specific(s);
    let t = skip_blanks(s);
    if t.len() > 0 {
        lemma_element_failures_are_specific(t.drop_first());
    }
}

proof fn lemma_element_failures_are_specific(s: Seq<char>)
    ensures
        decode_pair(s) matches Err(e) ==> e.is_specific(),
        decode_element(s) matches Err(e) ==> e.is_specific(),
        decode_elements(s) matches Err(e) ==> e.is_specific(),
    decreases s.len(),
{
    if let Ok((rest, Some(_))) = decode_element(s) {
        lemma_pair_consumes(s);
        if let Ok((next, _)) = decode_char(',', rest) {
            lemma_char_consumes(',', rest);
            lemma_element_failures_are_specific(next);
        }
    }
}

/// Spaces and tabs in front of a label set change nothing, not even the
/// error.
pub proof fn lemma_labels_ignore_leading_blanks(blanks: Seq<char>, s: Seq<char>)
    requires
        all_blank(blanks),
    ensures
        decode_label_pairs(blanks + s) == decode_label_pairs(s),
        decode_labels(blanks + s) == decode_labels(s),
{
    lemma_skip_blanks_prepend(blanks, s);
}

/// Spaces and tabs in front of a label change nothing, not even the error.
pub proof fn lemma_pair_ignores_leading_blanks(blanks: Seq<char>, s: Seq<char>)
    requires
        all_blank(blanks),
    ensures
        decode_pair(blanks + s) == decode_pair(s),
{
    lemma_name_ignores_leading_blanks(blanks, s);
}

/// Decodes one label at `pos`.
pub(crate) fn pair_at(scanner: &Scanner, pos: usize) -> (r: Result<
    (usize, (String, String)),
    ErrorKind,
>)
    requires
        pos <= scanner@.len(),
    ensures
        match r {
            Ok((end, pair)) => {
                &&& pos < end <= scanner@.len()
                &&& decode_pair(scanner@.skip(pos as int)) == Ok::<_, ErrorView>(
                    (scanner@.skip(end as int), (pair.0@, pair.1@)),
                )
            },
            Err(e) => decode_pair(scanner@.skip(pos as int)) == Err::<(Seq<char>, Pair), _>(e@),
        },
{
    let (after_name, name) = match name_at(scanner, pos) {
        Ok(found) => found,
        Err(e) => { return Err(e); },
    };
    let after_sign = match char_at(scanner, after_name, '=') {
        Ok(end) => end,
        Err(e) => { return Err(e); },
    };
    match quoted_at(scanner, after_sign) {
        Ok((end, value)) => Ok((end, (name, value))),
        Err(e) => Err(e),
    }
}

/// Decodes a label at `pos`, or else the `}` that ends the set.
pub(crate) fn element_at(scanner: &Scanner, pos: usize) -> (r: Result<
    (usize, Option<(String, String)>),
    ErrorKind,
>)
    requires
        pos <= scanner@.len(),
    ensures
        match r {
            Ok((end, Some(pair))) => {
                &&& pos < end <= scanner@.len()
                &&& decode_element(scanner@.skip(pos as int)) == Ok::<_, ErrorView>(
                    (scanner@.skip(end as int), Some((pair.0@, pair.1@))),
                )
            },
            Ok((end, None)) => {
                &&& pos < end <= scanner@.len()
                &&& decode_element(scanner@.skip(pos as int)) == Ok::<_, ErrorView>(
                    (scanner@.skip(end as int), None::<Pair>),
                )
            },
            Err(e) => decode_element(scanner@.skip(pos as int)) == Err::<
                (Seq<char>, Option<Pair>),
                _,
            >(e@),
        },
{
    match pair_at(scanner, pos) {
        Ok((end, pair)) => Ok((end, Some(pair))),
        Err(e) => match char_at(scanner, pos, '}') {
            Ok(end) => Ok((end, None)),
            Err(_) => Err(e),
        },
    }
}

/// The labels `done` followed by those that `more` found.
spec fn after_pairs(done: Seq<Pair>, more: Decoded<Seq<Pair>>) -> Decoded<Seq<Pair>> {
    match more {
        Ok((rest, pairs)) => Ok((rest, done + pairs)),
        Err(e) => Err(e),
    }
}

/// Decodes the labels after the opening `{`, through the closing `}`.
pub(crate) fn elements_at(scanner: &Scanner, pos: usize) -> (r: Result<(usize, Labels), ErrorKind>)
    requires
        pos <= scanner@.len(),
    ensures
        match r {
            Ok((end, labels)) => {
                &&& pos < end <= scanner@.len()
                &&& decode_elements(scanner@.skip(pos as int)) matches Ok((rest, pairs))
                &&& rest == scanner@.skip(end as int)
                &&& labels@ == pairs_map(pairs)
            },
            Err(e) => decode_elements(scanner@.skip(pos as int)) == Err::<
                (Seq<char>, Seq<Pair>),
                _,
            >(e@),
        },
{
    let mut labels = Labels::new();
    let mut at = pos;
    let ghost whole = decode_elements(scanner@.skip(pos as int));
    let ghost mut done: Seq<Pair> = Seq::empty();
    proof {
        match whole {
            Ok((rest, pairs)) => {
                assert(done + pairs =~= pairs);
            },
            Err(_) => {},
        }
    }
    loop
        invariant
            pos <= at <= scanner@.len(),
            whole == decode_elements(scanner@.skip(pos as int)),
            whole == after_pairs(done, decode_elements(scanner@.skip(at as int))),
            labels@ == pairs_map(done),
        decreases scanner@.len() - at,
    {
        let (after, name, value) = match element_at(scanner, at) {
            Err(e) => { return Err(e); },
            Ok((end, None)) => {
                assert(done + Seq::<Pair>::empty() =~= done);
                return Ok((end, labels));
            },
            Ok((end, Some(pair))) => (end, pair.0, pair.1),
        };
        let ghost pair = (name@, value@);
        let ghost before = done;
        labels.insert(name, value);
        proof {
            done = before.push(pair);
            assert(done.drop_last() =~= before);
            assert(before + seq![pair] =~= done);
        }
        match char_at(scanner, after, ',') {
            Ok(next) => {
                proof {
                    match decode_elements(scanner@.skip(next as int)) {
                        Ok((rest, pairs)) => {
                            assert(before + (seq![pair] + pairs) =~= done + pairs);
                        },
                        Err(_) => {},
                    }
                }
                at = next;
            },
            Err(separator) => match char_at(scanner, after, '}') {
                Ok(end) => { return Ok((end, labels)); },
                Err(_) => { return Err(separator); },
            },
        }
    }
}

/// Decodes the label set at `pos`.
pub(crate) fn labels_at(scanner: &Scanner, pos: usize) -> (r: Result<(usize, Labels), ErrorKind>)
    requires
        pos <= scanner@.len(),
    ensures
        match r {
            Ok((end, labels)) => {
                &&& pos <= end <= scanner@.len()
                &&& decode_labels(scanner@.skip(pos as int)) == Ok::<_, ErrorView>(
                    (scanner@.skip(end as int), labels@),
                )
            },
            Err(e) => decode_labels(scanner@.skip(pos as int)) == Err::<
                (Seq<char>, Map<Seq<char>, Seq<char>>),
                _,
            >(e@),
        },
{
    let start = scanner.run_end(pos, CharClass::Blank);
    let ghost t = scanner@.skip(start as int);
    assert(t =~= skip_blanks(scanner@.skip(pos as int)));
    if scanner.at(start, '{') {
        assert(t.drop_first() =~= scanner@.skip(start + 1));
        elements_at(scanner, start + 1)
    } else {
        Ok((start, Labels::new()))
    }
}

} // verus!
