//! A sample: the name of a metric, its labels, and a value.

use crate::error::{ErrorKind, ErrorView};
use crate::label_set::{
    decode_element, decode_elements, decode_label_pairs, decode_labels, labels_at,
    lemma_label_failures_are_specific, lemma_pair_consumes,
};
use crate::labels::{lemma_pairs_map_names, pairs_map, Labels};
use crate::quoted::{decode_quoted, quoted_at};
use crate::text::{all_blank, skip_blanks, Scanner};
use crate::token::{
    decode_char, decode_name, is_name, lemma_char_consumes, lemma_decoded_name,
    lemma_line_feed_is_not_skipped, lemma_name_ignores_leading_blanks, name_at, Decoded,
};
use crate::value::{decode_value, value_at};
use vstd::prelude::*;

verus! {

/// One sample of a metric.
#[derive(Debug, PartialEq)]
pub struct Metric {
    /// Name of the metric.
    pub name: String,
    /// Labels of the sample, by label name.
    pub labels: Labels,
    /// Value of the sample, as the bits of an IEEE-754 double.
    pub value: u64,
}

impl Clone for Metric {
    fn clone(&self) -> (copy: Self)
        ensures
            copy@ == self@,
    {
        Metric { name: self.name.clone(), labels: self.labels.clone(), value: self.value }
    }
}

/// A [`Metric`] as the specifications see it.
pub ghost struct MetricView {
    pub name: Seq<char>,
    pub labels: Map<Seq<char>, Seq<char>>,
    pub value: u64,
}

impl View for Metric {
    type V = MetricView;

    open spec fn view(&self) -> MetricView {
        MetricView { name: self.name@, labels: self.labels@, value: self.value }
    }
}

impl MetricView {
    /// Whether the name of the metric and the name of each label match
    /// `[A-Za-z_][A-Za-z0-9_]*`.
    pub open spec fn well_formed(self) -> bool {
        &&& is_name(self.name)
        &&& forall|label: Seq<char>| self.labels.contains_key(label) ==> is_name(label)
    }
}

/// A sample: a name, a label set, which may be absent, and a value. What
/// follows the value, such as a timestamp, is left over.
pub open spec fn decode_metric(s: Seq<char>) -> Decoded<MetricView> {
    match decode_name(s) {
        Err(e) => Err(e),
        Ok((after_name, name)) => match decode_labels(after_name) {
            Err(e) => Err(e),
            Ok((after_labels, labels)) => match decode_value(after_labels) {
                Err(e) => Err(e),
                Ok((rest, value)) => Ok((rest, MetricView { name, labels, value })),
            },
        },
    }
}

/// Every label that a label set is decoded to has a name that matches the
/// grammar of names.
pub proof fn lemma_decoded_label_names(s: Seq<char>)
    ensures
        decode_elements(s) matches Ok((_, pairs)) ==> forall|i: int|
            0 <= i < pairs.len() ==> is_name((#[trigger] pairs[i]).0),
    decreases s.len(),
{
    lemma_decoded_name(s);
    if let Ok((rest, Some(pair))) = decode_element(s) {
        lemma_pair_consumes(s);
        if let Ok((next, _)) = decode_char(',', rest) {
            lemma_char_consumes(',', rest);
            lemma_decoded_label_names(next);
            if let Ok((_, more)) = decode_elements(next) {
                let pairs = seq![pair] + more;
                assert forall|i: int| 0 <= i < pairs.len() implies is_name(
                    (#[trigger] pairs[i]).0,
                ) by {
                    if i > 0 {
                        assert(pairs[i] == more[i - 1]);
                    }
                }
            }
        }
    }
}

/// What decodes as a sample has a name, and label names, that match the
/// grammar of names.
pub proof fn lemma_decoded_metric_is_well_formed(s: Seq<char>)
    ensures
        decode_metric(s) matches Ok((_, metric)) ==> metric.well_formed(),
{
    lemma_decoded_name(s);
    if let Ok((after_name, _)) = decode_name(s) {
        if let Ok((_, pairs)) = decode_label_pairs(after_name) {
            let body = skip_blanks(after_name);
            if body.len() > 0 && body[0] == '{' {
                lemma_decoded_label_names(body.drop_first());
            }
            assert forall|label: Seq<char>| pairs_map(pairs).contains_key(label) implies is_name(
                label,
            ) by {
                lemma_pairs_map_names(pairs, label);
            }
        }
    }
}

/// A sample fails only in the ways the grammar names.
pub proof fn lemma_metric_failure_is_specific(s: Seq<char>)
    ensures
        decode_metric(s) matches Err(e) ==> e.is_specific(),
{
    if let Ok((after_name, _)) = decode_name(s) {
        lemma_label_failures_are_specific(after_name);
    }
}

/// A line feed in front of a sample is not skipped: the sample fails for
/// want of a name.
pub proof fn lemma_metric_stops_at_line_feed(s: Seq<char>)
    requires
        s.len() > 0,
        s[0] == '\n',
    ensures
        decode_metric(s) == Err::<(Seq<char>, MetricView), _>(
            ErrorView::ParseNameError { input: s },
        ),
{
    lemma_line_feed_is_not_skipped(' ', s);
}

/// Spaces and tabs in front of a sample change nothing, not even the error.
pub proof fn lemma_metric_ignores_leading_blanks(blanks: Seq<char>, s: Seq<char>)
    requires
        all_blank(blanks),
    ensures
        decode_metric(blanks + s) == decode_metric(s),
{
    lemma_name_ignores_leading_blanks(blanks, s);
}

/// Decodes a sample at `pos`.
pub(crate) fn metric_at<'a>(scanner: &Scanner<'a>, pos: usize) -> (r: Result<
    (&'a str, Metric),
    ErrorKind,
>)
    requires
        pos <= scanner@.len(),
    ensures
        match r {
            Ok((rest, metric)) => {
                &&& decode_metric(scanner@.skip(pos as int)) == Ok::<_, ErrorView>(
                    (rest@, metric@),
                )
                &&& metric@.well_formed()
            },
            Err(e) => decode_metric(scanner@.skip(pos as int)) == Err::<
                (Seq<char>, MetricView),
                _,
            >(e@),
        },
{
    let (after_name, name) = match name_at(scanner, pos) {
        Ok(found) => found,
        Err(e) => { return Err(e); },
    };
    let (after_labels, labels) = match labels_at(scanner, after_name) {
        Ok(found) => found,
        Err(e) => { return Err(e); },
    };
    match value_at(scanner, after_labels) {
        Ok((rest, value)) => {
            proof {
                lemma_decoded_metric_is_well_formed(scanner@.skip(pos as int));
            }
            Ok((rest, Metric { name, labels, value }))
        },
        Err(e) => Err(e),
    }
}

impl Metric {
    /// Decodes a sample from the front of `input`: the name of a metric, a
    /// label set, which may be absent, and a value.
    ///
    /// ``` text
    /// name [ "{" [ label { "," label } [ "," ] ] "}" ] value
    /// label = name "=" `"` value `"`
    /// ```
    ///
    /// Returns the sample and the text after its value: a timestamp, where
    /// there is one, is not decoded.
    pub fn parse(input: &str) -> (r: Result<(&str, Metric), ErrorKind>)
        ensures
            match r {
                Ok((rest, metric)) => {
                    &&& decode_metric(input@) == Ok::<_, ErrorView>((rest@, metric@))
                    &&& metric@.well_formed()
                },
                Err(e) => decode_metric(input@) == Err::<(Seq<char>, MetricView), _>(e@),
            },
    {
        let scanner = Scanner::new(input);
        assert(scanner@.skip(0) =~= input@);
        metric_at(&scanner, 0)
    }

    /// Decodes a value from the front of `input`: `+Inf`, `-Inf`, `Nan` or
    /// a decimal number, after any spaces and tabs. Returns the bits of the
    /// value as an IEEE-754 double and the text after it.
    pub fn parse_value(input: &str) -> (r: Result<(&str, u64), ErrorKind>)
        ensures
            match r {
                Ok((rest, bits)) => decode_value(input@) == Ok::<_, ErrorView>((rest@, bits)),
                Err(e) => decode_value(input@) == Err::<(Seq<char>, u64), _>(e@),
            },
    {
        let scanner = Scanner::new(input);
        assert(scanner@.skip(0) =~= input@);
        value_at(&scanner, 0)
    }

    /// Decodes a label set from the front of `input`:
    /// `{label_name="value",...}`, after any spaces and tabs. Where `input`
    /// does not go on with `{`, the label set is empty and only the spaces
    /// and tabs are taken. Returns the labels and the text after them.
    pub fn parse_labels(input: &str) -> (r: Result<(&str, Labels), ErrorKind>)
        ensures
            match r {
                Ok((rest, labels)) => decode_labels(input@) == Ok::<_, ErrorView>(
                    (rest@, labels@),
                ),
                Err(e) => decode_labels(input@) == Err::<
                    (Seq<char>, Map<Seq<char>, Seq<char>>),
                    _,
                >(e@),
            },
    {
        let scanner = Scanner::new(input);
        assert(scanner@.skip(0) =~= input@);
        match labels_at(&scanner, 0) {
            Ok((end, labels)) => Ok((scanner.tail(end), labels)),
            Err(e) => Err(e),
        }
    }

    /// Decodes a quoted label value from the front of `input`: `"`, the
    /// content, `"`, after any spaces and tabs. The content may hold any
    /// character; backslash and double quote are written as `\\` and `\"`,
    /// and a line feed may be written as `\n`. Returns the content and the
    /// text after the closing quote.
    pub fn parse_escaped_string(input: &str) -> (r: Result<(&str, String), ErrorKind>)
        ensures
            match r {
                Ok((rest, text)) => decode_quoted(input@) == Ok::<_, ErrorView>((rest@, text@)),
                Err(e) => decode_quoted(input@) == Err::<(Seq<char>, Seq<char>), _>(e@),
            },
    {
        let scanner = Scanner::new(input);
        assert(scanner@.skip(0) =~= input@);
        match quoted_at(&scanner, 0) {
            Ok((end, text)) => Ok((scanner.tail(end), text)),
            Err(e) => Err(e),
        }
    }
}

} // verus!
