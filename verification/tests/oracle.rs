//! Compares the decoders with the same grammar written with parser
//! combinators, on generated texts.

use nom::branch::alt;
use nom::bytes::complete::{is_not, tag, take_while, take_while1};
use nom::character::complete::char as one;
use nom::combinator::{opt, value};
use nom::multi::fold_many0;
use nom::number::complete::double;
use nom::sequence::{pair, preceded, tuple};
use prometheus_parser::{parse_name, ErrorKind, Header, Line, Metric, MetricKind};
use std::collections::BTreeMap;

type Plain<'a> = (&'a str, nom::error::ErrorKind);

type Parsed<'a, O> = Result<(&'a str, O), nom::Err<ErrorKind>>;

#[derive(Debug, PartialEq)]
enum Content {
    Header(String, MetricKind),
    Metric(String, BTreeMap<String, String>, u64),
}

enum Fragment<'a> {
    Literal(&'a str),
    Escaped(char),
}

fn failed(kind: ErrorKind) -> nom::Err<ErrorKind> {
    nom::Err::Error(kind)
}

fn unwrapped(error: nom::Err<ErrorKind>) -> ErrorKind {
    match error {
        nom::Err::Incomplete(_) => ErrorKind::NomIncomplete,
        nom::Err::Failure(_) => ErrorKind::NomFailure,
        nom::Err::Error(kind) => kind,
    }
}

fn blank(c: char) -> bool {
    c == ' ' || c == '\t'
}

fn blanks(input: &str) -> Result<(&str, &str), nom::Err<Plain>> {
    take_while(blank)(input)
}

fn name(input: &str) -> Parsed<String> {
    let input = input.trim_start_matches(blank);
    let found: Result<(&str, (&str, &str)), nom::Err<Plain>> = pair(
        take_while1(|c: char| c.is_ascii_alphabetic() || c == '_'),
        take_while(|c: char| c.is_ascii_alphanumeric() || c == '_'),
    )(input);
    match found {
        Ok((rest, (a, b))) => Ok((rest, a.to_owned() + b)),
        Err(_) => Err(failed(ErrorKind::ParseNameError {
            input: input.to_owned(),
        })),
    }
}

fn symbol(expected: char, input: &str) -> Parsed<char> {
    let found: Result<(&str, char), nom::Err<Plain>> = preceded(blanks, one(expected))(input);
    found.map_err(|_| {
        failed(ErrorKind::ExpectedChar {
            expected,
            input: input.to_owned(),
        })
    })
}

fn quote(input: &str) -> Parsed<char> {
    let found: Result<(&str, char), nom::Err<Plain>> = one('"')(input);
    found.map_err(|_| {
        failed(ErrorKind::ExpectedToken {
            expected: "\"",
            input: input.to_owned(),
        })
    })
}

fn fragment(input: &str) -> Result<(&str, Fragment), nom::Err<Plain>> {
    alt((
        nom::combinator::map(is_not("\"\\"), Fragment::Literal),
        nom::combinator::map(
            preceded(
                one('\\'),
                alt((
                    value('\n', one('n')),
                    value('"', one('"')),
                    value('\\', one('\\')),
                )),
            ),
            Fragment::Escaped,
        ),
    ))(input)
}

fn content(input: &str) -> Parsed<String> {
    let folded: Result<(&str, String), nom::Err<Plain>> =
        fold_many0(fragment, String::new(), |mut text, found| {
            match found {
                Fragment::Literal(s) => text.push_str(s),
                Fragment::Escaped(c) => text.push(c),
            }
            text
        })(input);
    folded.map_err(|_| failed(ErrorKind::NomFailure))
}

fn quoted(input: &str) -> Parsed<String> {
    let input = input.trim_start_matches(blank);
    let (input, _) = quote(input)?;
    let (input, text) = content(input)?;
    let (input, _) = quote(input)?;
    Ok((input, text))
}

fn label(input: &str) -> Parsed<(String, String)> {
    let (input, key) = name(input)?;
    let (input, _) = symbol('=', input)?;
    let (input, text) = quoted(input)?;
    Ok((input, (key, text)))
}

fn element(input: &str) -> Parsed<Option<(String, String)>> {
    match label(input) {
        Ok((rest, found)) => Ok((rest, Some(found))),
        Err(nom::Err::Error(error)) => match symbol('}', input) {
            Ok((rest, _)) => Ok((rest, None)),
            Err(nom::Err::Error(_)) => Err(nom::Err::Error(error)),
            Err(other) => Err(other),
        },
        Err(other) => Err(other),
    }
}

fn elements(mut input: &str) -> Parsed<BTreeMap<String, String>> {
    let mut labels = BTreeMap::new();
    loop {
        match element(input)? {
            (rest, None) => {
                input = rest;
                break;
            }
            (rest, Some((key, text))) => {
                labels.insert(key, text);
                input = match symbol(',', rest) {
                    Ok((rest, _)) => rest,
                    Err(separator) => match symbol('}', rest) {
                        Ok((rest, _)) => {
                            input = rest;
                            break;
                        }
                        Err(_) => return Err(separator),
                    },
                };
            }
        }
    }
    Ok((input, labels))
}

fn label_set(input: &str) -> Parsed<BTreeMap<String, String>> {
    let input = input.trim_start_matches(blank);
    let opened: Result<(&str, Option<char>), nom::Err<Plain>> = opt(one('{'))(input);
    match opened {
        Ok((rest, None)) => Ok((rest, BTreeMap::new())),
        Ok((rest, Some(_))) => elements(rest),
        Err(_) => Err(failed(ErrorKind::NomFailure)),
    }
}

fn number(input: &str) -> Parsed<u64> {
    let input = input.trim_start_matches(blank);
    let found: Result<(&str, u64), nom::Err<Plain>> = alt((
        value(0x7ff0_0000_0000_0000u64, tag("+Inf")),
        value(0xfff0_0000_0000_0000u64, tag("-Inf")),
        value(0x7ff8_0000_0000_0000u64, tag("Nan")),
        nom::combinator::map(double, f64::to_bits),
    ))(input);
    found.map_err(|_| {
        failed(ErrorKind::ParseFloatError {
            input: input.to_owned(),
        })
    })
}

fn sample(input: &str) -> Parsed<Content> {
    let (input, key) = name(input)?;
    let (input, labels) = label_set(input)?;
    let (input, bits) = number(input)?;
    Ok((input, Content::Metric(key, labels, bits)))
}

fn gap(input: &str) -> Parsed<()> {
    let found: Result<(&str, &str), nom::Err<Plain>> = take_while1(blank)(input);
    match found {
        Ok((rest, _)) => Ok((rest, ())),
        Err(_) => Err(failed(ErrorKind::ExpectedSpace {
            input: input.to_owned(),
        })),
    }
}

fn directive(input: &str) -> Parsed<Content> {
    let input = input.trim_start_matches(blank);
    let hash: Result<(&str, char), nom::Err<Plain>> = one('#')(input);
    let (input, _) = hash.map_err(|_| {
        failed(ErrorKind::ExpectedChar {
            expected: '#',
            input: input.to_owned(),
        })
    })?;
    let input = input.trim_start_matches(blank);
    let word: Result<(&str, &str), nom::Err<Plain>> = tag("TYPE")(input);
    let (input, _) = word.map_err(|_| {
        failed(ErrorKind::ExpectedToken {
            expected: "TYPE",
            input: input.to_owned(),
        })
    })?;
    let (input, _) = gap(input)?;
    let (input, key) = name(input)?;
    let (input, _) = gap(input)?;
    let kind: Result<(&str, MetricKind), nom::Err<Plain>> = alt((
        value(MetricKind::Counter, tag("counter")),
        value(MetricKind::Gauge, tag("gauge")),
        value(MetricKind::Summary, tag("summary")),
        value(MetricKind::Histogram, tag("histogram")),
        value(MetricKind::Untyped, tag("untyped")),
    ))(input);
    let (input, kind) = kind.map_err(|_| {
        failed(ErrorKind::InvalidMetricKind {
            input: input.to_owned(),
        })
    })?;
    Ok((input, Content::Header(key, kind)))
}

fn line(input: &str) -> Result<Option<Content>, ErrorKind> {
    let input = input.trim();
    if input.is_empty() {
        return Ok(None);
    }
    let sample_error = match sample(input) {
        Ok((_, found)) => return Ok(Some(found)),
        Err(error) => unwrapped(error),
    };
    let directive_error = match directive(input) {
        Ok((_, found)) => return Ok(Some(found)),
        Err(error) => unwrapped(error),
    };
    let hash: Result<(&str, char), nom::Err<Plain>> = one('#')(input);
    match hash {
        Ok((rest, _)) => {
            let word: Result<(&str, (&str, &str)), nom::Err<Plain>> =
                tuple((blanks, tag("TYPE")))(rest);
            if word.is_ok() {
                Err(directive_error)
            } else {
                Ok(None)
            }
        }
        Err(_) => Err(sample_error),
    }
}

fn of_metric(metric: Metric) -> Content {
    Content::Metric(
        metric.name,
        metric.labels.entries().iter().cloned().collect(),
        metric.value,
    )
}

fn of_header(header: Header) -> Content {
    Content::Header(header.metric_name, header.kind)
}

fn of_line(found: Line) -> Content {
    match found {
        Line::Header(header) => of_header(header),
        Line::Metric(metric) => of_metric(metric),
    }
}

/// Every text made of up to `length` of the `pieces`, in every order.
fn texts(pieces: &[&str], length: usize) -> Vec<String> {
    let mut all = vec![String::new()];
    let mut last = vec![String::new()];
    for _ in 0..length {
        let mut next = Vec::new();
        for start in &last {
            for piece in pieces {
                next.push(format!("{}{}", start, piece));
            }
        }
        all.extend(next.iter().cloned());
        last = next;
    }
    all
}

/// Texts of up to `length` pieces each, chosen by a fixed sequence of
/// numbers.
fn samples(pieces: &[&str], length: usize, count: usize) -> Vec<String> {
    let mut state: u64 = 0x2545_f491_4f6c_dd1d;
    let mut all = Vec::new();
    for turn in 0..count {
        let mut text = String::new();
        for _ in 0..(1 + turn % length) {
            state ^= state << 13;
            state ^= state >> 7;
            state ^= state << 17;
            text.push_str(pieces[(state % pieces.len() as u64) as usize]);
        }
        all.push(text);
    }
    all
}

#[test]
fn names_agree_with_the_combinators() {
    let pieces = ["a", "Z", "_", "9", " ", "\t", "\n", "-", "{", "é"];
    let mut all = texts(&pieces, 5);
    all.extend(samples(&pieces, 12, 200000));
    for text in all {
        assert_eq!(parse_name(&text).map_err(failed), name(&text), "{:?}", text);
    }
}

#[test]
fn quoted_values_agree_with_the_combinators() {
    let pieces = ["\"", "\\", "n", "a", " ", "\n", "\t", "😂", "}"];
    let mut all = texts(&pieces, 6);
    all.extend(samples(&pieces, 16, 200000));
    for text in all {
        assert_eq!(
            Metric::parse_escaped_string(&text).map_err(failed),
            quoted(&text),
            "{:?}",
            text
        );
    }
}

#[test]
fn values_agree_with_the_combinators() {
    let pieces = [
        "+", "-", "1", "0", ".", "e", "E", "I", "n", "f", "N", "a", " ", "Inf", "Nan",
    ];
    let mut all = texts(&pieces, 4);
    all.extend(samples(&pieces, 10, 300000));
    for text in all {
        assert_eq!(
            Metric::parse_value(&text).map_err(failed),
            number(&text),
            "{:?}",
            text
        );
    }
}

#[test]
fn label_sets_agree_with_the_combinators() {
    let pieces = ["{", "}", "a", "b", "=", ",", "\"", "\"x\"", " ", "\\", "1"];
    let mut all = texts(&pieces, 5);
    all.extend(samples(&pieces, 14, 300000));
    all.extend(samples(&["{", "}", "a", "b", "=\"x\"", "=\"\"", ",", " "], 12, 300000));
    for text in all {
        let expected = label_set(&text);
        let found = match Metric::parse_labels(&text) {
            Ok((rest, labels)) => Ok((rest, labels.entries().iter().cloned().collect())),
            Err(kind) => Err(failed(kind)),
        };
        assert_eq!(found, expected, "{:?}", text);
    }
}

#[test]
fn samples_agree_with_the_combinators() {
    let pieces = [
        "a", "_1", "{", "}", "b=\"x\"", "c=\"\\n\"", ",", " ", "1", "2.5e3", "+Inf", "Nan", "-",
        "\"", "=",
    ];
    let mut all = texts(&pieces, 4);
    all.extend(samples(&pieces, 10, 300000));
    for text in all {
        let found = match Metric::parse(&text) {
            Ok((rest, metric)) => Ok((rest, of_metric(metric))),
            Err(kind) => Err(failed(kind)),
        };
        assert_eq!(found, sample(&text), "{:?}", text);
    }
}

#[test]
fn headers_agree_with_the_combinators() {
    let pieces = [
        "#", "TYPE", " ", "\t", "a", "_1", "counter", "gauge", "summary", "histogram", "untyped",
        "type", "x", "\n",
    ];
    let mut all = texts(&pieces, 4);
    all.extend(samples(&pieces, 10, 300000));
    for text in all {
        let found = match Header::parse(&text) {
            Ok((rest, header)) => Ok((rest, of_header(header))),
            Err(kind) => Err(failed(kind)),
        };
        assert_eq!(found, directive(&text), "{:?}", text);
    }
}

#[test]
fn lines_agree_with_the_combinators() {
    let pieces = [
        "#", "TYPE", " ", "a", "{b=\"x\"}", "{", "}", "counter", "1", "+Inf", "\n", "\t", "\"",
        "HELP", ",", "\u{a0}", "=",
    ];
    let mut all = texts(&pieces, 4);
    all.extend(samples(&pieces, 10, 300000));
    for text in all {
        let found = Line::parse(&text).map(|found| found.map(of_line));
        assert_eq!(found, line(&text), "{:?}", text);
    }
}
