use prometheus_parser::text::{chars_of, starts_name, trim, white_space, CharClass};
use prometheus_parser::value::{
    number_or_error, special_value, NEGATIVE_INFINITY, NOT_A_NUMBER, POSITIVE_INFINITY,
};
use prometheus_parser::{
    match_char, parse_name, trim_space, ErrorKind, Header, Labels, Line, Metric, MetricKind,
};
use std::collections::BTreeMap;

fn label_set(pairs: &[(&str, &str)]) -> Labels {
    let mut labels = Labels::new();
    for (name, value) in pairs {
        labels.insert(name.to_string(), value.to_string());
    }
    labels
}

fn escape(value: &str) -> String {
    let mut text = String::new();
    for c in value.chars() {
        match c {
            '\n' => text.push_str("\\n"),
            '"' => text.push_str("\\\""),
            '\\' => text.push_str("\\\\"),
            _ => text.push(c),
        }
    }
    text
}

fn number(bits: u64) -> f64 {
    f64::from_bits(bits)
}

#[test]
fn trim_space_skips_spaces_and_tabs_only() {
    assert_eq!(trim_space("  \t a b "), "a b ");
    assert_eq!(trim_space("\n a"), "\n a");
    assert_eq!(trim_space(" \t\n"), "\n");
    assert_eq!(trim_space(""), "");
    assert_eq!(trim_space(" \t "), "");
    assert_eq!(trim_space("\u{a0}x"), "\u{a0}x");
}

#[test]
fn trim_removes_white_space_at_both_ends() {
    assert_eq!(trim(" \t\r\n a b \n"), "a b");
    assert_eq!(trim("\u{2003}x y\u{3000}"), "x y");
    assert_eq!(trim("a"), "a");
    assert_eq!(trim(" \n\t"), "");
    assert_eq!(trim(""), "");
    assert_eq!(trim(" é "), "é");
}

#[test]
fn trim_agrees_with_the_standard_library() {
    let mut candidates: Vec<char> = (0u8..=0x7f).map(char::from).collect();
    candidates.extend([
        '\u{85}', '\u{a0}', '\u{1680}', '\u{180e}', '\u{2000}', '\u{200a}', '\u{200b}',
        '\u{2028}', '\u{2029}', '\u{202f}', '\u{205f}', '\u{3000}', '\u{feff}', 'é', '越',
    ]);
    for c in candidates {
        assert_eq!(white_space(c), c.is_whitespace(), "{:?}", c);
        let text = format!("{}{} x {} y{}{}", c, c, c, c, c);
        assert_eq!(trim(&text), text.trim(), "{:?}", text);
    }
}

#[test]
fn character_classes_hold_what_the_grammar_says() {
    for code in 0u8..=0x7f {
        let c = char::from(code);
        assert_eq!(starts_name(c), c.is_ascii_alphabetic() || c == '_');
        assert_eq!(CharClass::Blank.contains(c), c == ' ' || c == '\t');
        assert_eq!(
            CharClass::NameChar.contains(c),
            c.is_ascii_alphanumeric() || c == '_'
        );
        assert_eq!(CharClass::White.contains(c), c.is_whitespace());
    }
    for c in ['é', 'ß', 'Ω', '٣', '越', '😂', '\u{a0}'] {
        assert!(!starts_name(c));
        assert!(!CharClass::NameChar.contains(c));
        assert!(!CharClass::Blank.contains(c));
    }
}

#[test]
fn chars_of_gives_the_characters_in_order() {
    assert_eq!(chars_of(""), Vec::<char>::new());
    assert_eq!(chars_of("a😂\n"), vec!['a', '😂', '\n']);
}

#[test]
fn every_name_decodes_to_itself() {
    for name in ["a", "_", "A", "abc_def", "__9A0bc_def__", "z9", "http_requests_total"] {
        assert_eq!(parse_name(name), Ok(("", name.to_string())));
    }
}

#[test]
fn name_stops_at_the_first_other_character() {
    assert_eq!(parse_name("abc{x"), Ok(("{x", "abc".to_string())));
    assert_eq!(parse_name("abc def"), Ok((" def", "abc".to_string())));
    assert_eq!(parse_name("a-b"), Ok(("-b", "a".to_string())));
    assert_eq!(parse_name("aé"), Ok(("é", "a".to_string())));
    assert_eq!(parse_name("\t x9:y"), Ok((":y", "x9".to_string())));
}

#[test]
fn name_needs_a_letter_or_an_underscore_first() {
    for text in ["9a", "-", "", "{", "=", "\"a\"", "é", "\na"] {
        assert_eq!(
            parse_name(text),
            Err(ErrorKind::ParseNameError {
                input: text.to_string()
            })
        );
    }
    assert_eq!(
        parse_name("  \t 99  ."),
        Err(ErrorKind::ParseNameError {
            input: "99  .".to_string()
        })
    );
    assert_eq!(
        parse_name("   "),
        Err(ErrorKind::ParseNameError {
            input: "".to_string()
        })
    );
}

#[test]
fn match_char_skips_blanks_and_keeps_them_in_the_error() {
    assert_eq!(match_char('=', "  = x"), Ok((" x", '=')));
    assert_eq!(match_char(',', ",x"), Ok(("x", ',')));
    assert_eq!(
        match_char('}', "  x}"),
        Err(ErrorKind::ExpectedChar {
            expected: '}',
            input: "  x}".to_string()
        })
    );
    assert_eq!(
        match_char('=', ""),
        Err(ErrorKind::ExpectedChar {
            expected: '=',
            input: "".to_string()
        })
    );
    assert_eq!(
        match_char('=', "\n="),
        Err(ErrorKind::ExpectedChar {
            expected: '=',
            input: "\n=".to_string()
        })
    );
}

#[test]
fn escaping_then_decoding_gives_the_value_back() {
    let values = [
        "",
        "plain",
        "with space and, punctuation = {}",
        "  😂  ",
        "line\nfeed",
        "quote\"inside",
        "back\\slash",
        "\\n is not a line feed",
        "\"\\\n",
        "\\\\\"\"\n\n",
        "tab\tand\rreturn",
    ];
    for value in values {
        let text = format!("\"{}\" tail", escape(value));
        assert_eq!(
            Metric::parse_escaped_string(&text),
            Ok((" tail", value.to_string()))
        );
    }
}

#[test]
fn escaped_string_takes_a_raw_line_feed_as_it_is() {
    assert_eq!(
        Metric::parse_escaped_string("\"a\nb\""),
        Ok(("", "a\nb".to_string()))
    );
}

#[test]
fn escaped_string_needs_both_quotes() {
    assert_eq!(
        Metric::parse_escaped_string("  abc\""),
        Err(ErrorKind::ExpectedToken {
            expected: "\"",
            input: "abc\"".to_string()
        })
    );
    assert_eq!(
        Metric::parse_escaped_string(""),
        Err(ErrorKind::ExpectedToken {
            expected: "\"",
            input: "".to_string()
        })
    );
    assert_eq!(
        Metric::parse_escaped_string("\"abc"),
        Err(ErrorKind::ExpectedToken {
            expected: "\"",
            input: "".to_string()
        })
    );
}

#[test]
fn escaped_string_stops_at_an_unknown_escape() {
    assert_eq!(
        Metric::parse_escaped_string(r#""ab\tcd""#),
        Err(ErrorKind::ExpectedToken {
            expected: "\"",
            input: r#"\tcd""#.to_string()
        })
    );
    assert_eq!(
        Metric::parse_escaped_string("\"ab\\"),
        Err(ErrorKind::ExpectedToken {
            expected: "\"",
            input: "\\".to_string()
        })
    );
}

#[test]
fn special_values_are_spelled_exactly() {
    assert_eq!(
        Metric::parse_value("+Inf"),
        Ok(("", 0x7ff0_0000_0000_0000u64))
    );
    assert_eq!(
        Metric::parse_value("-Inf"),
        Ok(("", 0xfff0_0000_0000_0000u64))
    );
    assert_eq!(
        Metric::parse_value("Nan"),
        Ok(("", 0x7ff8_0000_0000_0000u64))
    );
    assert_eq!(POSITIVE_INFINITY, f64::INFINITY.to_bits());
    assert_eq!(NEGATIVE_INFINITY, f64::NEG_INFINITY.to_bits());
    assert!(number(NOT_A_NUMBER).is_nan());
    for text in ["INF", "nan", "inf", "+INF", "-inf", "NaN", "NAN", "Inf", "+inf", "infinity"] {
        assert_eq!(
            Metric::parse_value(text),
            Err(ErrorKind::ParseFloatError {
                input: text.to_string()
            })
        );
        assert_eq!(special_value(text), None);
    }
}

#[test]
fn special_value_reads_the_three_words() {
    assert_eq!(special_value("+Inf -3"), Some((" -3", POSITIVE_INFINITY)));
    assert_eq!(special_value("-Inf"), Some(("", NEGATIVE_INFINITY)));
    assert_eq!(special_value("Nanny"), Some(("ny", NOT_A_NUMBER)));
    assert_eq!(special_value(" +Inf"), None);
    assert_eq!(special_value("+In"), None);
    assert_eq!(special_value("1"), None);
    assert_eq!(special_value(""), None);
}

#[test]
fn number_or_error_keeps_the_number_or_names_the_text() {
    assert_eq!(number_or_error("1 2", Some((" 2", 7))), Ok((" 2", 7)));
    assert_eq!(
        number_or_error("abc", None),
        Err(ErrorKind::ParseFloatError {
            input: "abc".to_string()
        })
    );
}

#[test]
fn numbers_are_read_with_their_exact_value() {
    let cases = [
        ("1027", 1027.0f64, ""),
        ("12.47", 12.47, ""),
        ("1.458255915e9", 1.458255915e9, ""),
        ("1.7560473e+07", 1.7560473e+07, ""),
        ("-3982045", -3982045.0, ""),
        ("3 1395066363000", 3.0, " 1395066363000"),
        ("0.05", 0.05, ""),
        ("1.", 1.0, ""),
        (".5", 0.5, ""),
        ("+7", 7.0, ""),
        ("123E-02", 1.23, ""),
        ("123K-01", 123.0, "K-01"),
        ("  \t 5x", 5.0, "x"),
        ("1e999", f64::INFINITY, ""),
    ];
    for (text, value, rest) in cases {
        assert_eq!(Metric::parse_value(text), Ok((rest, value.to_bits())));
    }
}

#[test]
fn what_is_no_number_fails_with_the_text_after_the_blanks() {
    for (text, input) in [
        ("abc", "abc"),
        ("  \t x1", "x1"),
        ("", ""),
        ("   ", ""),
        ("\n1", "\n1"),
        ("-", "-"),
        (".", "."),
        ("1e", "1e"),
        ("{", "{"),
    ] {
        assert_eq!(
            Metric::parse_value(text),
            Err(ErrorKind::ParseFloatError {
                input: input.to_string()
            })
        );
    }
}

#[test]
fn labels_are_kept_in_the_order_of_their_names() {
    let names = [
        "b", "a", "ab", "B", "_", "a_", "aa", "z", "é", "a0", "A", "zz", "😂", "", "name", "le",
    ];
    let mut labels = Labels::new();
    let mut expected = BTreeMap::new();
    for (i, name) in names.iter().enumerate() {
        labels.insert(name.to_string(), i.to_string());
        expected.insert(name.to_string(), i.to_string());
    }
    let expected: Vec<(String, String)> = expected.into_iter().collect();
    assert_eq!(labels.entries(), &expected);
    assert_eq!(labels.len(), names.len());
}

#[test]
fn labels_agree_with_an_ordered_map() {
    let mut labels = Labels::new();
    let mut expected: BTreeMap<String, String> = BTreeMap::new();
    let mut state: u64 = 0x9e37_79b9_7f4a_7c15;
    for turn in 0..2000 {
        state ^= state << 13;
        state ^= state >> 7;
        state ^= state << 17;
        let name: String = format!("{:x}", state % 509)
            .chars()
            .map(|c| if c == 'a' { 'é' } else { c })
            .collect();
        assert_eq!(labels.get(&name), expected.get(&name), "{:?}", name);
        labels.insert(name.clone(), turn.to_string());
        expected.insert(name.clone(), turn.to_string());
        assert_eq!(labels.get(&name), Some(&turn.to_string()));
        assert_eq!(labels.len(), expected.len());
    }
    let listed: Vec<(String, String)> = expected.into_iter().collect();
    assert_eq!(labels.entries(), &listed);
}

#[test]
fn labels_hold_one_value_for_each_name() {
    let mut labels = Labels::new();
    assert!(labels.is_empty());
    assert_eq!(labels.len(), 0);
    assert_eq!(labels.get("a"), None);
    labels.insert("b".to_string(), "1".to_string());
    labels.insert("a".to_string(), "2".to_string());
    labels.insert("b".to_string(), "3".to_string());
    assert!(!labels.is_empty());
    assert_eq!(labels.len(), 2);
    assert_eq!(labels.get("a"), Some(&"2".to_string()));
    assert_eq!(labels.get("b"), Some(&"3".to_string()));
    assert_eq!(labels.get("c"), None);
    assert_eq!(labels.get(""), None);
    assert_eq!(
        labels.entries(),
        &vec![
            ("a".to_string(), "2".to_string()),
            ("b".to_string(), "3".to_string())
        ]
    );
    let copy = labels.clone();
    assert_eq!(copy, labels);
    assert_eq!(label_set(&[("b", "3"), ("a", "2")]), labels);
    assert_ne!(label_set(&[("b", "1"), ("a", "2")]), labels);
}

#[test]
fn the_last_of_two_values_for_one_label_stays() {
    let (rest, labels) = Metric::parse_labels(r#"{a="1",b="2",a="3"} 1"#).unwrap();
    assert_eq!(rest, " 1");
    assert_eq!(labels, label_set(&[("a", "3"), ("b", "2")]));
    assert_eq!(labels.len(), 2);

    let (_, labels) = Metric::parse_labels(r#"{a="1",a="2",a="",}"#).unwrap();
    assert_eq!(labels, label_set(&[("a", "")]));
}

#[test]
fn label_set_may_be_absent_empty_or_end_with_a_comma() {
    assert_eq!(Metric::parse_labels("  1"), Ok(("1", Labels::new())));
    assert_eq!(Metric::parse_labels(""), Ok(("", Labels::new())));
    assert_eq!(Metric::parse_labels("{} 1"), Ok((" 1", Labels::new())));
    assert_eq!(Metric::parse_labels("{ \t } 1"), Ok((" 1", Labels::new())));
    assert_eq!(
        Metric::parse_labels(r#"{a="b",}x"#),
        Ok(("x", label_set(&[("a", "b")])))
    );
    assert_eq!(
        Metric::parse_labels(r#"{a="b" , }"#),
        Ok(("", label_set(&[("a", "b")])))
    );
}

#[test]
fn label_set_failures_name_what_is_missing() {
    assert_eq!(
        Metric::parse_labels(r#"{name="value}"#),
        Err(ErrorKind::ExpectedToken {
            expected: "\"",
            input: "".to_string()
        })
    );
    assert_eq!(
        Metric::parse_labels(r#"{ a="b" c="d" }"#),
        Err(ErrorKind::ExpectedChar {
            expected: ',',
            input: r#" c="d" }"#.to_string()
        })
    );
    assert_eq!(
        Metric::parse_labels(r#"{ a="b" ,, c="d" }"#),
        Err(ErrorKind::ParseNameError {
            input: r#", c="d" }"#.to_string()
        })
    );
    assert_eq!(
        Metric::parse_labels("{,}"),
        Err(ErrorKind::ParseNameError {
            input: ",}".to_string()
        })
    );
    assert_eq!(
        Metric::parse_labels(r#"{a "b"}"#),
        Err(ErrorKind::ExpectedChar {
            expected: '=',
            input: r#" "b"}"#.to_string()
        })
    );
    assert_eq!(
        Metric::parse_labels(r#"{a=b}"#),
        Err(ErrorKind::ExpectedToken {
            expected: "\"",
            input: "b}".to_string()
        })
    );
    assert_eq!(
        Metric::parse_labels(r#"{a="b""#),
        Err(ErrorKind::ExpectedChar {
            expected: ',',
            input: "".to_string()
        })
    );
    assert_eq!(
        Metric::parse_labels("{"),
        Err(ErrorKind::ParseNameError {
            input: "".to_string()
        })
    );
}

#[test]
fn blanks_around_tokens_change_nothing() {
    let tight = r#"name{a="b",c="d"}1"#;
    let loose = " \t name \t { \t a \t = \t \"b\" \t , \t c \t = \t \"d\" \t } \t 1";
    let (rest, metric) = Metric::parse(tight).unwrap();
    assert_eq!(rest, "");
    assert_eq!(Metric::parse(loose), Ok(("", metric.clone())));
    assert_eq!(
        Line::parse(&format!("  {} \t ", loose)),
        Ok(Some(Line::Metric(metric)))
    );
    assert_eq!(
        Header::parse(" \t # \t TYPE \t a \t gauge"),
        Header::parse("#TYPE a gauge")
    );
    assert_eq!(parse_name(" \t\t x"), parse_name("x"));
    assert_eq!(
        Metric::parse_escaped_string(" \t \"v\""),
        Metric::parse_escaped_string("\"v\"")
    );
    assert_eq!(Metric::parse_value(" \t 4"), Metric::parse_value("4"));
    assert_eq!(
        Metric::parse_labels(" \t {a=\"b\"}"),
        Metric::parse_labels("{a=\"b\"}")
    );
}

#[test]
fn line_feeds_between_tokens_are_not_skipped() {
    assert_eq!(
        Metric::parse("name\n1"),
        Err(ErrorKind::ParseFloatError {
            input: "\n1".to_string()
        })
    );
    assert_eq!(
        Metric::parse("name{a\n=\"b\"} 1"),
        Err(ErrorKind::ExpectedChar {
            expected: '=',
            input: "\n=\"b\"} 1".to_string()
        })
    );
    assert_eq!(
        Metric::parse("name{a=\n\"b\"} 1"),
        Err(ErrorKind::ExpectedToken {
            expected: "\"",
            input: "\n\"b\"} 1".to_string()
        })
    );
    assert_eq!(
        Metric::parse("\nname 1"),
        Err(ErrorKind::ParseNameError {
            input: "\nname 1".to_string()
        })
    );
    assert_eq!(
        Header::parse("# TYPE\na counter"),
        Err(ErrorKind::ExpectedSpace {
            input: "\na counter".to_string()
        })
    );
    assert_eq!(
        Header::parse("\n# TYPE a counter"),
        Err(ErrorKind::ExpectedChar {
            expected: '#',
            input: "\n# TYPE a counter".to_string()
        })
    );
    assert_eq!(
        Line::parse("name\n1"),
        Err(ErrorKind::ParseFloatError {
            input: "\n1".to_string()
        })
    );
}

#[test]
fn white_space_around_a_line_is_trimmed() {
    let expected = Line::parse("name 1").unwrap();
    assert!(expected.is_some());
    assert_eq!(Line::parse("\n \t name 1 \r\n"), Ok(expected.clone()));
    assert_eq!(Line::parse("\u{a0}name 1\u{2028}"), Ok(expected));
    assert_eq!(Line::parse(""), Ok(None));
    assert_eq!(Line::parse(" \t \n \r\n"), Ok(None));
}

#[test]
fn metric_with_labels_and_timestamp() {
    let line = r#"http_requests_total{method="post",code="200"} 1027 1395066363000"#;
    let expected = Metric {
        name: "http_requests_total".to_string(),
        labels: label_set(&[("code", "200"), ("method", "post")]),
        value: 1027.0f64.to_bits(),
    };
    assert_eq!(
        Metric::parse(line),
        Ok((" 1395066363000", expected.clone()))
    );
    assert_eq!(Line::parse(line), Ok(Some(Line::Metric(expected.clone()))));
    assert_eq!(
        expected.labels.entries(),
        &vec![
            ("code".to_string(), "200".to_string()),
            ("method".to_string(), "post".to_string())
        ]
    );
}

#[test]
fn type_line_is_a_header() {
    assert_eq!(
        Line::parse("# TYPE http_requests_total counter"),
        Ok(Some(Line::Header(Header {
            metric_name: "http_requests_total".to_string(),
            kind: MetricKind::Counter,
        })))
    );
}

#[test]
fn help_line_is_dropped() {
    assert_eq!(
        Line::parse("# HELP http_requests_total The total number of HTTP requests."),
        Ok(None)
    );
}

#[test]
fn metric_without_timestamp_and_labels() {
    assert_eq!(
        Line::parse("metric_without_timestamp_and_labels 12.47"),
        Ok(Some(Line::Metric(Metric {
            name: "metric_without_timestamp_and_labels".to_string(),
            labels: Labels::new(),
            value: 12.47f64.to_bits(),
        })))
    );
}

#[test]
fn metric_with_infinite_value_and_trailing_text() {
    let line = r#"something_weird{problem="division by zero"} +Inf -3982045"#;
    let parsed = Line::parse(line).unwrap().unwrap();
    match parsed {
        Line::Metric(metric) => {
            assert_eq!(metric.name, "something_weird");
            assert_eq!(
                metric.labels,
                label_set(&[("problem", "division by zero")])
            );
            assert_eq!(metric.value, POSITIVE_INFINITY);
            assert_eq!(number(metric.value), f64::INFINITY);
        }
        Line::Header(_) => panic!("a sample was expected"),
    }
    assert_eq!(Metric::parse(line).unwrap().0, " -3982045");
}

#[test]
fn metric_with_escapes_in_label_values() {
    let line = r#"msdos_file_access_time_seconds{path="C:\\DIR\\FILE.TXT",error="Cannot find file:\n\"FILE.TXT\""} 1.458255915e9"#;
    assert_eq!(
        Line::parse(line),
        Ok(Some(Line::Metric(Metric {
            name: "msdos_file_access_time_seconds".to_string(),
            labels: label_set(&[
                ("path", "C:\\DIR\\FILE.TXT"),
                ("error", "Cannot find file:\n\"FILE.TXT\""),
            ]),
            value: 1.458255915e9f64.to_bits(),
        })))
    );
}

#[test]
fn unterminated_label_value_is_a_specific_error() {
    assert_eq!(
        Metric::parse_labels(r#"{name="value}"#),
        Err(ErrorKind::ExpectedToken {
            expected: "\"",
            input: "".to_string()
        })
    );
    assert_eq!(
        Line::parse(r#"metric{name="value} 1"#),
        Err(ErrorKind::ExpectedToken {
            expected: "\"",
            input: "".to_string()
        })
    );
}

#[test]
fn missing_separator_fails_with_an_expected_comma() {
    assert_eq!(
        Metric::parse_labels(r#"{ a="b" c="d" }"#),
        Err(ErrorKind::ExpectedChar {
            expected: ',',
            input: r#" c="d" }"#.to_string()
        })
    );
    assert_eq!(
        Line::parse(r#"metric{ a="b" c="d" } 1"#),
        Err(ErrorKind::ExpectedChar {
            expected: ',',
            input: r#" c="d" } 1"#.to_string()
        })
    );
}

#[test]
fn header_accepts_the_five_kinds() {
    for (word, kind) in [
        ("counter", MetricKind::Counter),
        ("gauge", MetricKind::Gauge),
        ("histogram", MetricKind::Histogram),
        ("summary", MetricKind::Summary),
        ("untyped", MetricKind::Untyped),
    ] {
        assert_eq!(
            Header::parse(&format!("# TYPE m {} tail", word)),
            Ok((
                " tail",
                Header {
                    metric_name: "m".to_string(),
                    kind
                }
            ))
        );
    }
    assert_eq!(
        Header::parse("# TYPE m counterfeit"),
        Ok((
            "feit",
            Header {
                metric_name: "m".to_string(),
                kind: MetricKind::Counter
            }
        ))
    );
}

#[test]
fn header_failures_name_what_is_missing() {
    assert_eq!(
        Header::parse("  abc"),
        Err(ErrorKind::ExpectedChar {
            expected: '#',
            input: "abc".to_string()
        })
    );
    assert_eq!(
        Header::parse("#  HELP abc"),
        Err(ErrorKind::ExpectedToken {
            expected: "TYPE",
            input: "HELP abc".to_string()
        })
    );
    assert_eq!(
        Header::parse("# type abc counter"),
        Err(ErrorKind::ExpectedToken {
            expected: "TYPE",
            input: "type abc counter".to_string()
        })
    );
    assert_eq!(
        Header::parse("# TYPEabc counter"),
        Err(ErrorKind::ExpectedSpace {
            input: "abc counter".to_string()
        })
    );
    assert_eq!(
        Header::parse("# TYPE 9abc counter"),
        Err(ErrorKind::ParseNameError {
            input: "9abc counter".to_string()
        })
    );
    assert_eq!(
        Header::parse("# TYPE abc"),
        Err(ErrorKind::ExpectedSpace {
            input: "".to_string()
        })
    );
    assert_eq!(
        Header::parse("# TYPE abc{} counter"),
        Err(ErrorKind::ExpectedSpace {
            input: "{} counter".to_string()
        })
    );
    assert_eq!(
        Header::parse("# TYPE abc Counter"),
        Err(ErrorKind::InvalidMetricKind {
            input: "Counter".to_string()
        })
    );
    assert_eq!(
        Header::parse("# TYPE abc \t"),
        Err(ErrorKind::InvalidMetricKind {
            input: "".to_string()
        })
    );
}

#[test]
fn space1_needs_a_space_or_a_tab() {
    assert_eq!(Header::space1(" \t x "), Ok(("x ", ())));
    assert_eq!(Header::space1("\t"), Ok(("", ())));
    assert_eq!(
        Header::space1("x "),
        Err(ErrorKind::ExpectedSpace {
            input: "x ".to_string()
        })
    );
    assert_eq!(
        Header::space1(""),
        Err(ErrorKind::ExpectedSpace {
            input: "".to_string()
        })
    );
    assert_eq!(
        Header::space1("\n "),
        Err(ErrorKind::ExpectedSpace {
            input: "\n ".to_string()
        })
    );
}

#[test]
fn line_chooses_between_the_two_failures() {
    assert_eq!(
        Line::parse("# TYPE abc bogus"),
        Err(ErrorKind::InvalidMetricKind {
            input: "bogus".to_string()
        })
    );
    assert_eq!(
        Line::parse("#TYPE"),
        Err(ErrorKind::ExpectedSpace {
            input: "".to_string()
        })
    );
    assert_eq!(
        Line::parse("# \t TYPE 1"),
        Err(ErrorKind::ParseNameError {
            input: "1".to_string()
        })
    );
    assert_eq!(Line::parse("#"), Ok(None));
    assert_eq!(Line::parse("# type abc counter"), Ok(None));
    assert_eq!(Line::parse("#{\"\\"), Ok(None));
    assert_eq!(Line::parse("## TYPE abc counter"), Ok(None));
    assert_eq!(
        Line::parse("abc def"),
        Err(ErrorKind::ParseFloatError {
            input: "def".to_string()
        })
    );
    assert_eq!(
        Line::parse("1 2"),
        Err(ErrorKind::ParseNameError {
            input: "1 2".to_string()
        })
    );
    assert_eq!(
        Line::parse("abc"),
        Err(ErrorKind::ParseFloatError {
            input: "".to_string()
        })
    );
}

#[test]
fn classify_takes_the_failure_that_fits_the_line() {
    let metric_error = || ErrorKind::ParseNameError {
        input: "m".to_string(),
    };
    let header_error = || ErrorKind::ExpectedSpace {
        input: "h".to_string(),
    };
    assert_eq!(
        Line::classify("# TYPE", metric_error(), header_error()),
        Err(header_error())
    );
    assert_eq!(
        Line::classify("# \t TYPEx", metric_error(), header_error()),
        Err(header_error())
    );
    assert_eq!(
        Line::classify("# HELP", metric_error(), header_error()),
        Ok(None)
    );
    assert_eq!(
        Line::classify("#", metric_error(), header_error()),
        Ok(None)
    );
    assert_eq!(
        Line::classify("x # TYPE", metric_error(), header_error()),
        Err(metric_error())
    );
    assert_eq!(
        Line::classify("", metric_error(), header_error()),
        Err(metric_error())
    );
}

#[test]
fn parse_content_decodes_a_trimmed_line() {
    assert_eq!(
        Line::parse_content("a 1"),
        Ok(Some(Line::Metric(Metric {
            name: "a".to_string(),
            labels: Labels::new(),
            value: 1.0f64.to_bits(),
        })))
    );
    assert_eq!(
        Line::parse_content("# TYPE a untyped"),
        Ok(Some(Line::Header(Header {
            metric_name: "a".to_string(),
            kind: MetricKind::Untyped,
        })))
    );
    assert_eq!(Line::parse_content("# a"), Ok(None));
    assert_eq!(
        Line::parse_content(""),
        Err(ErrorKind::ParseNameError {
            input: "".to_string()
        })
    );
}

#[test]
fn no_line_fails_with_a_catch_all_kind() {
    let lines = [
        "a",
        "a{",
        "a{b",
        "a{b=",
        "a{b=\"",
        "a{b=\"c",
        "a{b=\"c\"",
        "a{b=\"c\",",
        "a{b=\"c\"}",
        "a{b=\"c\\x\"} 1",
        "a 1e",
        "a 1e+",
        "a .",
        "# TYPE",
        "# TYPE a",
        "# TYPE a b",
        "{",
        "=",
        "\"",
        "é 1",
    ];
    for line in lines {
        match Line::parse(line) {
            Ok(_) => panic!("{:?} should fail", line),
            Err(ErrorKind::Nom { .. })
            | Err(ErrorKind::NomFailure)
            | Err(ErrorKind::NomIncomplete) => {
                panic!("{:?} failed with a catch-all kind", line)
            }
            Err(_) => {}
        }
    }
}
