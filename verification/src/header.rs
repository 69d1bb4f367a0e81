//! Type directives: `# TYPE <metric_name> <metric_type>`.

use crate::error::{ErrorKind, ErrorView};
use crate::text::{
    after_token, all_blank, lemma_run_len_unique, lemma_skip_blanks_prepend, run_len,
    skip_blanks, CharClass, Scanner,
};
use crate::token::{decode_name, is_name, lemma_decoded_name, name_at, Decoded};
use vstd::prelude::*;

verus! {

/// The kind of a metric, as a type directive declares it.
#[derive(Debug, Clone, Copy, Eq, PartialEq)]
pub enum MetricKind {
    Counter,
    Gauge,
    Histogram,
    Summary,
    Untyped,
}

/// A type directive: the name of a metric and its kind.
#[derive(Debug, PartialEq)]
pub struct Header {
    pub metric_name: String,
    pub kind: MetricKind,
}

impl Clone for Header {
    fn clone(&self) -> (copy: Self)
        ensures
            copy@ == self@,
    {
        Header { metric_name: self.metric_name.clone(), kind: self.kind }
    }
}

/// A [`Header`] as the specifications see it.
pub ghost struct HeaderView {
    pub metric_name: Seq<char>,
    pub kind: MetricKind,
}

impl View for Header {
    type V = HeaderView;

    open spec fn view(&self) -> HeaderView {
        HeaderView { metric_name: self.metric_name@, kind: self.kind }
    }
}

impl HeaderView {
    /// Whether the name of the metric matches `[A-Za-z_][A-Za-z0-9_]*`.
    pub open spec fn well_formed(self) -> bool {
        is_name(self.metric_name)
    }
}

/// Required blanks: at least one space or tab, and all that follow it. A
/// failure holds the text as it was given.
pub open spec fn decode_blanks(s: Seq<char>) -> Decoded<()> {
    if run_len(CharClass::Blank, s) > 0 {
        Ok((skip_blanks(s), ()))
    } else {
        Err(ErrorView::ExpectedSpace { input: s })
    }
}

/// The kind of a metric: the text must start with one of the five keywords,
/// tried in the order `counter`, `gauge`, `summary`, `histogram`, `untyped`.
/// What follows the keyword is left over.
pub open spec fn decode_kind(s: Seq<char>) -> Decoded<MetricKind> {
    if let Some(rest) = after_token("counter"@, s) {
        Ok((rest, MetricKind::Counter))
    } else if let Some(rest) = after_token("gauge"@, s) {
        Ok((rest, MetricKind::Gauge))
    } else if let Some(rest) = after_token("summary"@, s) {
        Ok((rest, MetricKind::Summary))
    } else if let Some(rest) = after_token("histogram"@, s) {
        Ok((rest, MetricKind::Histogram))
    } else if let Some(rest) = after_token("untyped"@, s) {
        Ok((rest, MetricKind::Untyped))
    } else {
        Err(ErrorView::InvalidMetricKind { input: s })
    }
}

/// What follows the word `TYPE` in a type directive: blanks, the name of
/// the metric, blanks, and the kind.
pub open spec fn decode_declaration(s: Seq<char>) -> Decoded<HeaderView> {
    match decode_blanks(s) {
        Err(e) => Err(e),
        Ok((at_name, _)) => match decode_name(at_name) {
            Err(e) => Err(e),
            Ok((after_name, metric_name)) => match decode_blanks(after_name) {
                Err(e) => Err(e),
                Ok((at_kind, _)) => match decode_kind(at_kind) {
                    Err(e) => Err(e),
                    Ok((rest, kind)) => Ok((rest, HeaderView { metric_name, kind })),
                },
            },
        },
    }
}

/// A type directive: after any blanks a `#`, after any blanks the word
/// `TYPE`, and the declaration. Where the `#` or the word is missing, the
/// failure holds the text after the blanks that were skipped before it.
pub open spec fn decode_header(s: Seq<char>) -> Decoded<HeaderView> {
    let t = skip_blanks(s);
    if t.len() > 0 && t[0] == '#' {
        let u = skip_blanks(t.drop_first());
        match after_token("TYPE"@, u) {
            Some(rest) => decode_declaration(rest),
            None => Err(ErrorView::ExpectedToken { expected: "TYPE"@, input: u }),
        }
    } else {
        Err(ErrorView::ExpectedChar { expected: '#', input: t })
    }
}

/// What decodes as a type directive names a metric by a name that matches
/// the grammar of names.
pub proof fn lemma_decoded_header_is_well_formed(s: Seq<char>)
    ensures
        decode_header(s) matches Ok((_, header)) ==> header.well_formed(),
{
    let t = skip_blanks(s);
    if t.len() > 0 && t[0] == '#' {
        if let Some(rest) = after_token("TYPE"@, skip_blanks(t.drop_first())) {
            if let Ok((at_name, _)) = decode_blanks(rest) {
                lemma_decoded_name(at_name);
            }
        }
    }
}

/// A type directive fails only in the ways the grammar names.
pub proof fn lemma_header_failure_is_specific(s: Seq<char>)
    ensures
        decode_header(s) matches Err(e) ==> e.is_specific(),
{
}

/// A line feed in front of a type directive is not skipped: the directive
/// fails for want of its `#`.
pub proof fn lemma_header_stops_at_line_feed(s: Seq<char>)
    requires
        s.len() > 0,
        s[0] == '\n',
    ensures
        decode_header(s) == Err::<(Seq<char>, HeaderView), _>(
            ErrorView::ExpectedChar { expected: '#', input: s },
        ),
{
    lemma_run_len_unique(CharClass::Blank, s, 0);
    assert(s.skip(0) =~= s);
}

/// Spaces and tabs in front of a type directive change nothing, not even
/// the error.
pub proof fn lemma_header_ignores_leading_blanks(blanks: Seq<char>, s: Seq<char>)
    requires
        all_blank(blanks),
    ensures
        decode_header(blanks + s) == decode_header(s),
{
    lemma_skip_blanks_prepend(blanks, s);
}

/// Requires at least one blank at `pos`, and skips all there are.
fn blanks_at(scanner: &Scanner, pos: usize) -> (r: Result<usize, ErrorKind>)
    requires
        pos <= scanner@.len(),
    ensures
        match r {
            Ok(end) => {
                &&& pos < end <= scanner@.len()
                &&& decode_blanks(scanner@.skip(pos as int)) == Ok::<_, ErrorView>(
                    (scanner@.skip(end as int), ()),
                )
            },
            Err(e) => decode_blanks(scanner@.skip(pos as int)) == Err::<(Seq<char>, ()), _>(e@),
        },
{
    let end = scanner.run_end(pos, CharClass::Blank);
    if end > pos {
        assert(scanner@.skip(pos as int).skip(end - pos) =~= scanner@.skip(end as int));
        Ok(end)
    } else {
        Err(ErrorKind::ExpectedSpace { input: scanner.tail(pos).to_owned() })
    }
}

/// Decodes the kind of a metric at `pos`.
fn kind_at(scanner: &Scanner, pos: usize) -> (r: Result<(usize, MetricKind), ErrorKind>)
    requires
        pos <= scanner@.len(),
    ensures
        match r {
            Ok((end, kind)) => {
                &&& pos <= end <= scanner@.len()
                &&& decode_kind(scanner@.skip(pos as int)) == Ok::<_, ErrorView>(
                    (scanner@.skip(end as int), kind),
                )
            },
            Err(e) => decode_kind(scanner@.skip(pos as int)) == Err::<
                (Seq<char>, MetricKind),
                _,
            >(e@),
        },
{
    let ghost s = scanner@.skip(pos as int);
    let (end, kind) = if let Some(end) = scanner.token_end(pos, "counter") {
        (end, MetricKind::Counter)
    } else if let Some(end) = scanner.token_end(pos, "gauge") {
        (end, MetricKind::Gauge)
    } else if let Some(end) = scanner.token_end(pos, "summary") {
        (end, MetricKind::Summary)
    } else if let Some(end) = scanner.token_end(pos, "histogram") {
        (end, MetricKind::Histogram)
    } else if let Some(end) = scanner.token_end(pos, "untyped") {
        (end, MetricKind::Untyped)
    } else {
        return Err(ErrorKind::InvalidMetricKind { input: scanner.tail(pos).to_owned() });
    };
    assert(s.skip(end - pos) =~= scanner@.skip(end as int));
    Ok((end, kind))
}

/// Decodes a type directive at `pos`.
pub(crate) fn header_at(scanner: &Scanner, pos: usize) -> (r: Result<(usize, Header), ErrorKind>)
    requires
        pos <= scanner@.len(),
    ensures
        match r {
            Ok((end, header)) => {
                &&& pos < end <= scanner@.len()
                &&& decode_header(scanner@.skip(pos as int)) == Ok::<_, ErrorView>(
                    (scanner@.skip(end as int), header@),
                )
                &&& header@.well_formed()
            },
            Err(e) => decode_header(scanner@.skip(pos as int)) == Err::<
                (Seq<char>, HeaderView),
                _,
            >(e@),
        },
{
    let start = scanner.run_end(pos, CharClass::Blank);
    let ghost t = scanner@.skip(start as int);
    assert(t =~= skip_blanks(scanner@.skip(pos as int)));
    if !scanner.at(start, '#') {
        return Err(
            ErrorKind::ExpectedChar { expected: '#', input: scanner.tail(start).to_owned() },
        );
    }
    assert(t.drop_first() =~= scanner@.skip(start + 1));
    let word = scanner.run_end(start + 1, CharClass::Blank);
    let ghost u = scanner@.skip(word as int);
    assert(u =~= skip_blanks(t.drop_first()));
    let after_word = match scanner.token_end(word, "TYPE") {
        Some(end) => end,
        None => {
            return Err(
                ErrorKind::ExpectedToken { expected: "TYPE", input: scanner.tail(word).to_owned() },
            );
        },
    };
    assert(u.skip(after_word - word) =~= scanner@.skip(after_word as int));
    let at_name = match blanks_at(scanner, after_word) {
        Ok(end) => end,
        Err(e) => { return Err(e); },
    };
    let (after_name, metric_name) = match name_at(scanner, at_name) {
        Ok(found) => found,
        Err(e) => { return Err(e); },
    };
    let at_kind = match blanks_at(scanner, after_name) {
        Ok(end) => end,
        Err(e) => { return Err(e); },
    };
    match kind_at(scanner, at_kind) {
        Ok((end, kind)) => {
            proof {
                lemma_decoded_header_is_well_formed(scanner@.skip(pos as int));
            }
            Ok((end, Header { metric_name, kind }))
        },
        Err(e) => Err(e),
    }
}

impl Header {
    /// Requires at least one space or tab at the front of `input`. Returns
    /// the text after all the spaces and tabs there are.
    pub fn space1(input: &str) -> (r: Result<(&str, ()), ErrorKind>)
        ensures
            match r {
                Ok((rest, _)) => decode_blanks(input@) == Ok::<_, ErrorView>((rest@, ())),
                Err(e) => decode_blanks(input@) == Err::<(Seq<char>, ()), _>(e@),
            },
    {
        let scanner = Scanner::new(input);
        assert(scanner@.skip(0) =~= input@);
        match blanks_at(&scanner, 0) {
            Ok(end) => Ok((scanner.tail(end), ())),
            Err(e) => Err(e),
        }
    }

    /// Decodes a type directive from the front of `input`:
    /// `# TYPE <metric_name> <metric_type>`. Returns the directive and the
    /// text after the kind.
    pub fn parse(input: &str) -> (r: Result<(&str, Header), ErrorKind>)
        ensures
            match r {
                Ok((rest, header)) => {
                    &&& decode_header(input@) == Ok::<_, ErrorView>((rest@, header@))
                    &&& header@.well_formed()
                },
                Err(e) => decode_header(input@) == Err::<(Seq<char>, HeaderView), _>(e@),
            },
    {
        let scanner = Scanner::new(input);
        assert(scanner@.skip(0) =~= input@);
        match header_at(&scanner, 0) {
            Ok((end, header)) => Ok((scanner.tail(end), header)),
            Err(e) => Err(e),
        }
    }
}

} // verus!
