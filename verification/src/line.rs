//! A whole line: a sample, a type directive, or nothing worth keeping.

use crate::error::{ErrorKind, ErrorView};
use crate::header::{
    decode_header, header_at, lemma_decoded_header_is_well_formed,
    lemma_header_failure_is_specific, Header, HeaderView,
};
use crate::metric::{
    decode_metric, lemma_decoded_metric_is_well_formed, lemma_metric_failure_is_specific,
    metric_at, Metric, MetricView,
};
use crate::text::{
    all_white, is_blank, is_white_space, lemma_run_len_unique, lemma_trimmed_ends,
    lemma_trimmed_ignores_white_space, lemma_trimmed_white_space, skip_blanks, trim, trimmed,
    CharClass, Scanner,
};
use vstd::prelude::*;

verus! {

/// What a line holds. Empty lines and comments hold nothing and are left
/// out; timestamps are dropped.
#[derive(Debug, PartialEq)]
pub enum Line {
    Header(Header),
    Metric(Metric),
}

impl Clone for Line {
    fn clone(&self) -> (copy: Self)
        ensures
            copy@ == self@,
    {
        match self {
            Line::Header(header) => Line::Header(header.clone()),
            Line::Metric(metric) => Line::Metric(metric.clone()),
        }
    }
}

/// A [`Line`] as the specifications see it.
pub ghost enum LineView {
    Header(HeaderView),
    Metric(MetricView),
}

impl View for Line {
    type V = LineView;

    open spec fn view(&self) -> LineView {
        match *self {
            Line::Header(header) => LineView::Header(header@),
            Line::Metric(metric) => LineView::Metric(metric@),
        }
    }
}

impl LineView {
    /// Whether the names in the line match `[A-Za-z_][A-Za-z0-9_]*`.
    pub open spec fn well_formed(self) -> bool {
        match self {
            LineView::Header(header) => header.well_formed(),
            LineView::Metric(metric) => metric.well_formed(),
        }
    }
}

/// Whether a line is written as a type directive: a `#` and, after any
/// blanks, the word `TYPE`.
pub open spec fn is_directive(line: Seq<char>) -> bool {
    line.len() > 0 && line[0] == '#' && "TYPE"@.is_prefix_of(skip_blanks(line.drop_first()))
}

/// Whether a line is a comment: it starts with `#` and is not written as a
/// type directive.
pub open spec fn is_comment(line: Seq<char>) -> bool {
    line.len() > 0 && line[0] == '#' && !is_directive(line)
}

/// What becomes of a line that is neither a sample nor a type directive. A
/// line written as a type directive fails as one; any other line that
/// starts with `#` is a comment and holds nothing; every other line fails as
/// a sample.
pub open spec fn classify_failure(
    line: Seq<char>,
    metric_error: ErrorView,
    header_error: ErrorView,
) -> Result<Option<LineView>, ErrorView> {
    if is_directive(line) {
        Err(header_error)
    } else if is_comment(line) {
        Ok(None)
    } else {
        Err(metric_error)
    }
}

/// What a line without white space at its ends and with at least one
/// character holds: a sample if it decodes as one, else a type directive if
/// it decodes as one, else whatever becomes of the two failures. Text after
/// the sample or the directive is dropped.
pub open spec fn decode_content(line: Seq<char>) -> Result<Option<LineView>, ErrorView> {
    match decode_metric(line) {
        Ok((_, metric)) => Ok(Some(LineView::Metric(metric))),
        Err(metric_error) => match decode_header(line) {
            Ok((_, header)) => Ok(Some(LineView::Header(header))),
            Err(header_error) => classify_failure(line, metric_error, header_error),
        },
    }
}

/// What a line holds: nothing if it is all white space, else the content of
/// the line without the white space at its ends.
pub open spec fn decode_line(s: Seq<char>) -> Result<Option<LineView>, ErrorView> {
    let line = trimmed(s);
    if line.len() == 0 {
        Ok(None)
    } else {
        decode_content(line)
    }
}

/// A line of white space only holds nothing.
pub proof fn lemma_blank_line_holds_nothing(s: Seq<char>)
    requires
        all_white(s),
    ensures
        decode_line(s) == Ok::<_, ErrorView>(None::<LineView>),
{
    lemma_trimmed_white_space(s);
}

/// White space around a line, line feeds included, changes nothing of what
/// the line holds, not even the error.
pub proof fn lemma_line_ignores_surrounding_white_space(
    before: Seq<char>,
    s: Seq<char>,
    after: Seq<char>,
)
    requires
        all_white(before),
        all_white(after),
    ensures
        decode_line(before + s + after) == decode_line(s),
{
    lemma_trimmed_ignores_white_space(before, s, after);
}

/// Spaces, tabs and line feeds around a line change nothing of what the
/// line holds, not even the error.
pub proof fn lemma_line_ignores_surrounding_blanks(
    before: Seq<char>,
    s: Seq<char>,
    after: Seq<char>,
)
    requires
        forall|i: int| 0 <= i < before.len() ==> is_blank(before[i]) || before[i] == '\n',
        forall|i: int| 0 <= i < after.len() ==> is_blank(after[i]) || after[i] == '\n',
    ensures
        decode_line(before + s + after) == decode_line(s),
{
    assert forall|i: int| 0 <= i < before.len() implies is_white_space(#[trigger] before[i]) by {
        assert(is_blank(before[i]) || before[i] == '\n');
    }
    assert forall|i: int| 0 <= i < after.len() implies is_white_space(#[trigger] after[i]) by {
        assert(is_blank(after[i]) || after[i] == '\n');
    }
    lemma_trimmed_ignores_white_space(before, s, after);
}

/// A line that starts with `#` and is not written as a type directive is a
/// comment: it holds nothing, whatever follows the `#`.
pub proof fn lemma_comment_holds_nothing(line: Seq<char>)
    requires
        is_comment(line),
    ensures
        decode_content(line) == Ok::<_, ErrorView>(None::<LineView>),
{
    lemma_run_len_unique(CharClass::Blank, line, 0);
    assert(line.skip(0) =~= line);
}

/// A line written as a type directive holds the directive, or fails as the
/// directive does.
pub proof fn lemma_directive_is_decoded_as_header(line: Seq<char>)
    requires
        is_directive(line),
    ensures
        decode_content(line) == match decode_header(line) {
            Ok((_, header)) => Ok::<_, ErrorView>(Some(LineView::Header(header))),
            Err(e) => Err(e),
        },
{
    lemma_run_len_unique(CharClass::Blank, line, 0);
    assert(line.skip(0) =~= line);
}

/// A line that starts with neither `#` nor a blank holds a sample, or fails
/// as the sample does.
pub proof fn lemma_other_line_is_decoded_as_metric(line: Seq<char>)
    requires
        line.len() > 0,
        line[0] != '#',
        !is_blank(line[0]),
    ensures
        decode_content(line) == match decode_metric(line) {
            Ok((_, metric)) => Ok::<_, ErrorView>(Some(LineView::Metric(metric))),
            Err(e) => Err(e),
        },
{
    lemma_run_len_unique(CharClass::Blank, line, 0);
    assert(line.skip(0) =~= line);
}

/// The three ways of a line that is not empty once trimmed: written as a
/// type directive, it is decoded as one; starting with `#` otherwise, it is a
/// comment and holds nothing; starting with anything else, it is decoded as
/// a sample.
pub proof fn lemma_line_goes_one_of_three_ways(s: Seq<char>)
    requires
        trimmed(s).len() > 0,
    ensures
        decode_line(s) == if is_directive(trimmed(s)) {
            match decode_header(trimmed(s)) {
                Ok((_, header)) => Ok::<_, ErrorView>(Some(LineView::Header(header))),
                Err(e) => Err(e),
            }
        } else if trimmed(s)[0] == '#' {
            Ok(None)
        } else {
            match decode_metric(trimmed(s)) {
                Ok((_, metric)) => Ok::<_, ErrorView>(Some(LineView::Metric(metric))),
                Err(e) => Err(e),
            }
        },
{
    let line = trimmed(s);
    lemma_trimmed_ends(s);
    if is_directive(line) {
        lemma_directive_is_decoded_as_header(line);
    } else if line[0] == '#' {
        lemma_comment_holds_nothing(line);
    } else {
        lemma_other_line_is_decoded_as_metric(line);
    }
}

/// A line fails only in the ways the grammar names, never with one of the
/// catch-all kinds of the combinator layer.
pub proof fn lemma_line_failure_is_specific(s: Seq<char>)
    ensures
        decode_content(s) matches Err(e) ==> e.is_specific(),
        decode_line(s) matches Err(e) ==> e.is_specific(),
{
    lemma_metric_failure_is_specific(s);
    lemma_header_failure_is_specific(s);
    lemma_metric_failure_is_specific(trimmed(s));
    lemma_header_failure_is_specific(trimmed(s));
}

/// What a line holds has names that match the grammar of names.
pub proof fn lemma_decoded_line_is_well_formed(s: Seq<char>)
    ensures
        decode_content(s) matches Ok(Some(found)) ==> found.well_formed(),
        decode_line(s) matches Ok(Some(found)) ==> found.well_formed(),
{
    lemma_decoded_metric_is_well_formed(s);
    lemma_decoded_header_is_well_formed(s);
    lemma_decoded_metric_is_well_formed(trimmed(s));
    lemma_decoded_header_is_well_formed(trimmed(s));
}

/// Whether `line` is written as a type directive.
fn directive_at(scanner: &Scanner) -> (b: bool)
    ensures
        b == is_directive(scanner@),
{
    if scanner.at(0, '#') {
        let word = scanner.run_end(1, CharClass::Blank);
        assert(scanner@.drop_first() =~= scanner@.skip(1));
        scanner.token_end(word, "TYPE").is_some()
    } else {
        false
    }
}

/// Chooses between the two failures of a line, or drops the line.
fn classify_at(scanner: &Scanner, metric_error: ErrorKind, header_error: ErrorKind) -> (r: Result<
    Option<Line>,
    ErrorKind,
>)
    ensures
        match r {
            Ok(found) => found is None && classify_failure(scanner@, metric_error@, header_error@)
                == Ok::<_, ErrorView>(None::<LineView>),
            Err(e) => classify_failure(scanner@, metric_error@, header_error@) == Err::<
                Option<LineView>,
                _,
            >(e@),
        },
{
    if directive_at(scanner) {
        Err(header_error)
    } else if scanner.at(0, '#') {
        Ok(None)
    } else {
        Err(metric_error)
    }
}

impl Line {
    /// Decides what becomes of a line that decoded neither as a sample nor
    /// as a type directive, given the two failures. `line` is the line
    /// without the white space at its ends. Returns `header_error` where
    /// the line is written as a type directive (`#`, then `TYPE`), `None`
    /// where it is any other comment, and `metric_error` where it does not
    /// start with `#`.
    pub fn classify(line: &str, metric_error: ErrorKind, header_error: ErrorKind) -> (r: Result<
        Option<Line>,
        ErrorKind,
    >)
        ensures
            match r {
                Ok(found) => found is None && classify_failure(
                    line@,
                    metric_error@,
                    header_error@,
                ) == Ok::<_, ErrorView>(None::<LineView>),
                Err(e) => classify_failure(line@, metric_error@, header_error@) == Err::<
                    Option<LineView>,
                    _,
                >(e@),
            },
    {
        let scanner = Scanner::new(line);
        classify_at(&scanner, metric_error, header_error)
    }

    /// Decodes a line that is given without the white space at its ends:
    /// first as a sample, then as a type directive, and where it is neither,
    /// decides by [`Line::classify`]. Text after the sample or the directive
    /// is dropped.
    pub fn parse_content(line: &str) -> (r: Result<Option<Line>, ErrorKind>)
        ensures
            match r {
                Ok(Some(found)) => decode_content(line@) == Ok::<_, ErrorView>(Some(found@))
                    && found@.well_formed(),
                Ok(None) => decode_content(line@) == Ok::<_, ErrorView>(None::<LineView>),
                Err(e) => decode_content(line@) == Err::<Option<LineView>, _>(e@)
                    && e@.is_specific(),
            },
    {
        proof {
            lemma_line_failure_is_specific(line@);
        }
        let scanner = Scanner::new(line);
        assert(scanner@.skip(0) =~= line@);
        let metric_error = match metric_at(&scanner, 0) {
            Ok((_, metric)) => { return Ok(Some(Line::Metric(metric))); },
            Err(e) => e,
        };
        let header_error = match header_at(&scanner, 0) {
            Ok((_, header)) => { return Ok(Some(Line::Header(header))); },
            Err(e) => e,
        };
        classify_at(&scanner, metric_error, header_error)
    }

    /// Decodes a single line. Returns `None` if it is a comment or an empty
    /// line.
    pub fn parse(input: &str) -> (r: Result<Option<Line>, ErrorKind>)
        ensures
            match r {
                Ok(Some(found)) => decode_line(input@) == Ok::<_, ErrorView>(Some(found@))
                    && found@.well_formed(),
                Ok(None) => decode_line(input@) == Ok::<_, ErrorView>(None::<LineView>),
                Err(e) => decode_line(input@) == Err::<Option<LineView>, _>(e@)
                    && e@.is_specific(),
            },
    {
        let line = trim(input);
        if line.is_empty() {
            Ok(None)
        } else {
            Line::parse_content(line)
        }
    }
}

} // verus!
