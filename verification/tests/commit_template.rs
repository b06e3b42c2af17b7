use chrono::{Local, TimeZone};
use codeforge::commit_template::{
    looks_like_malformed_time_token, parse_template, render, render_time, CivilTime, ParseResult,
    Segment, Severity, ValidationIssue,
};

fn fixed_time() -> CivilTime {
    // 2026-08-25 14:32:07 local
    let now = Local.with_ymd_and_hms(2026, 8, 25, 14, 32, 7).unwrap();
    CivilTime::from_local_seconds(now.naive_local().and_utc().timestamp()).unwrap()
}

fn at_hour(hour: u32) -> CivilTime {
    CivilTime { hour, ..fixed_time() }
}

#[test]
fn renders_filename_root_file() {
    let parsed = parse_template("update [filename]");
    assert!(!parsed.has_hard_error());
    let out = render(&parsed, Some("index.js"), &fixed_time());
    assert_eq!(out, "update index.js");
}

#[test]
fn renders_filename_nested() {
    let parsed = parse_template("update [filename]");
    let out = render(&parsed, Some("src/utils/helpers.ts"), &fixed_time());
    assert_eq!(out, "update src/utils/helpers.ts");
}

#[test]
fn escaped_brackets_render_literal() {
    let parsed = parse_template(r"\[Hi\]");
    assert!(!parsed.has_hard_error());
    assert!(parsed.issues.is_empty());
    let out = render(&parsed, None, &fixed_time());
    assert_eq!(out, "[Hi]");
}

#[test]
fn non_bracket_escape_is_literal_backslash_and_char() {
    let parsed = parse_template(r"\h test");
    let out = render(&parsed, None, &fixed_time());
    assert_eq!(out, r"\h test");
    assert!(parsed.issues.is_empty());
}

#[test]
fn timestamp_24h_format() {
    let parsed = parse_template("[time=yy/mo/dd 24hh:mi:ss]");
    assert!(!parsed.has_hard_error());
    let out = render(&parsed, None, &fixed_time());
    assert_eq!(out, "26/08/25 14:32:07");
}

#[test]
fn timestamp_12h_format_with_am_pm_space() {
    let parsed = parse_template("[time=12hh:mi:ss]");
    assert!(!parsed.has_hard_error());
    let out = render(&parsed, None, &fixed_time());
    assert_eq!(out, "02:32:07 PM");
}

#[test]
fn timestamp_full_year() {
    let parsed = parse_template("[time=yyyy-mo-dd]");
    let out = render(&parsed, None, &fixed_time());
    assert_eq!(out, "2026-08-25");
}

#[test]
fn unrecognized_variable_is_warning_and_literal() {
    let parsed = parse_template("[bogus]");
    assert!(!parsed.has_hard_error());
    assert_eq!(parsed.issues.len(), 1);
    assert_eq!(parsed.issues[0].severity, Severity::Warning);
    let out = render(&parsed, None, &fixed_time());
    assert_eq!(out, "[bogus]");
}

#[test]
fn malformed_time_token_triple_y_is_hard_error() {
    let parsed = parse_template("[time=yyy/mo/dd]");
    assert!(parsed.has_hard_error());
}

#[test]
fn malformed_time_token_triple_m_is_hard_error() {
    let parsed = parse_template("[time=mmm]");
    assert!(parsed.has_hard_error());
}

#[test]
fn unmatched_open_bracket_is_warning() {
    let parsed = parse_template("update [filename");
    assert!(!parsed.has_hard_error());
    assert_eq!(parsed.issues.len(), 1);
    assert_eq!(parsed.issues[0].severity, Severity::Warning);
}

#[test]
fn trailing_backslash_is_warning() {
    let parsed = parse_template(r"update file\");
    assert!(!parsed.has_hard_error());
    assert_eq!(parsed.issues[0].severity, Severity::Warning);
}

#[test]
fn mixed_literal_and_variables() {
    let parsed = parse_template("Auto: [filename] @ [time=24hh:mi:ss]");
    assert!(!parsed.has_hard_error());
    let out = render(&parsed, Some("app.rs"), &fixed_time());
    assert_eq!(out, "Auto: app.rs @ 14:32:07");
}

#[test]
fn empty_template_has_no_segments() {
    let parsed = parse_template("");
    assert!(parsed.segments.is_empty());
    assert!(parsed.issues.is_empty());
    assert_eq!(render(&parsed, Some("a"), &fixed_time()), "");
}

#[test]
fn segments_are_in_order_and_literals_are_joined() {
    let parsed = parse_template(r"a\[b\q[filename]c[time=ss]");
    assert_eq!(
        parsed.segments,
        vec![
            Segment::Literal(r"a[b\q".to_string()),
            Segment::Filename,
            Segment::Literal("c".to_string()),
            Segment::Time("ss".to_string()),
        ]
    );
}

#[test]
fn filename_without_a_file_is_multiple_files() {
    let parsed = parse_template("update [filename]");
    assert_eq!(render(&parsed, None, &fixed_time()), "update multiple files");
}

#[test]
fn issue_of_unrecognized_variable_is_exact() {
    let parsed = parse_template("é[bogus]");
    assert_eq!(
        parsed.issues,
        vec![ValidationIssue {
            severity: Severity::Warning,
            message: "'[bogus]' is not a recognized variable; treated as literal text.".to_string(),
            span: (2, 9),
        }]
    );
}

#[test]
fn issue_of_unmatched_bracket_is_exact() {
    let parsed = parse_template("ab[cé");
    assert_eq!(
        parsed.issues,
        vec![ValidationIssue {
            severity: Severity::Warning,
            message: "Unmatched '[' with no closing ']'; treated as literal text.".to_string(),
            span: (2, 6),
        }]
    );
    assert_eq!(render(&parsed, None, &fixed_time()), "ab[cé");
}

#[test]
fn issue_of_trailing_backslash_is_exact() {
    let parsed = parse_template(r"x\");
    assert_eq!(
        parsed.issues,
        vec![ValidationIssue {
            severity: Severity::Warning,
            message: r"Trailing '\' with nothing to escape; kept as literal.".to_string(),
            span: (1, 2),
        }]
    );
    assert_eq!(render(&parsed, None, &fixed_time()), r"x\");
}

#[test]
fn issue_of_malformed_time_token_is_exact() {
    let parsed = parse_template("at [time=yyy] end");
    assert_eq!(
        parsed.issues,
        vec![ValidationIssue {
            severity: Severity::HardError,
            message: "'y' is not a valid time token (did you mean 'yyyy'/'yy', 'mo', 'dd', 'mi', \
                      'ss', '24hh', or '12hh'?)."
                .to_string(),
            span: (3, 13),
        }]
    );
    assert_eq!(
        parsed.segments,
        vec![Segment::Literal("at ".to_string()), Segment::Literal(" end".to_string())]
    );
}

#[test]
fn every_malformed_token_is_reported() {
    let parsed = parse_template("[time=h:m]");
    assert_eq!(parsed.issues.len(), 2);
    assert!(parsed.issues.iter().all(|i| i.severity == Severity::HardError));
    assert!(parsed.issues.iter().all(|i| i.span == (0, 10)));
}

#[test]
fn other_words_in_a_time_format_get_a_warning() {
    let parsed = parse_template("x [time=at 24hh]");
    assert!(!parsed.has_hard_error());
    assert_eq!(
        parsed.issues,
        vec![ValidationIssue {
            severity: Severity::Warning,
            message: "'at' is not a recognized time token.".to_string(),
            span: (2, 16),
        }]
    );
    assert_eq!(render(&parsed, None, &fixed_time()), "x at 14");
}

#[test]
fn unrecognized_time_token_is_a_warning() {
    let parsed = parse_template("[time=abc]");
    assert!(!parsed.has_hard_error());
    assert_eq!(parsed.issues.len(), 1);
    assert_eq!(parsed.issues[0].severity, Severity::Warning);
    assert_eq!(parsed.segments, vec![Segment::Time("abc".to_string())]);
    assert_eq!(render(&parsed, None, &fixed_time()), "abc");
}

#[test]
fn warnings_and_hard_errors_are_in_reading_order() {
    let parsed = parse_template("[time=abc h def]");
    let severities: Vec<Severity> = parsed.issues.iter().map(|i| i.severity).collect();
    assert_eq!(severities, vec![Severity::Warning, Severity::HardError, Severity::Warning]);
    assert!(parsed.segments.is_empty());
}

#[test]
fn templates_around_the_file_name_follow_each_other() {
    let (a, b) = ("\u{e9}: [time=ss] ", " in [bogus]");
    let (pa, pb) = (parse_template(a), parse_template(b));
    assert!(pa.issues.is_empty());
    let together = parse_template(&format!("{}[filename]{}", a, b));
    let mut segments = pa.segments.clone();
    segments.push(Segment::Filename);
    segments.extend(pb.segments.clone());
    assert_eq!(together.segments, segments);
    assert_eq!(together.issues.len(), 1);
    let moved = a.len() + 10;
    let (from, to) = pb.issues[0].span;
    assert_eq!(together.issues[0].span, (from + moved, to + moved));
    assert_eq!(together.issues[0].message, pb.issues[0].message);
}

#[test]
fn near_misses_of_time_tokens() {
    for tok in ["y", "yyy", "m", "mmm", "d", "ddd", "s", "sss", "h", "hh"] {
        assert!(looks_like_malformed_time_token(tok), "{}", tok);
    }
    for tok in ["", "yyyy", "yy", "dd", "ss", "mo", "mi", "24hh", "ym", "aaa", "//"] {
        assert!(!looks_like_malformed_time_token(tok), "{}", tok);
    }
}

#[test]
fn twelve_hour_clock() {
    assert_eq!(render_time("12hh", &at_hour(0)), "12 AM");
    assert_eq!(render_time("12hh", &at_hour(11)), "11 AM");
    assert_eq!(render_time("12hh", &at_hour(12)), "12 PM");
    assert_eq!(render_time("12hh:mi", &at_hour(23)), "11:32 PM");
}

#[test]
fn years_of_any_length_and_sign() {
    let in_year = |year: i32| CivilTime { year, ..fixed_time() };
    assert_eq!(render_time("yyyy yy", &in_year(7)), "0007 07");
    assert_eq!(render_time("yyyy yy", &in_year(12345)), "12345 45");
    assert_eq!(render_time("yyyy yy", &in_year(-5)), "-005 -5");
    assert_eq!(render_time("yyyyy", &in_year(2026)), "2026y");
}

#[test]
fn civil_time_of_seconds() {
    let time = |year, month, day, hour, minute, second| {
        Some(CivilTime { year, month, day, hour, minute, second })
    };
    assert_eq!(CivilTime::from_local_seconds(0), time(1970, 1, 1, 0, 0, 0));
    assert_eq!(CivilTime::from_local_seconds(-1), time(1969, 12, 31, 23, 59, 59));
    assert_eq!(CivilTime::from_local_seconds(951_782_400), time(2000, 2, 29, 0, 0, 0));
    assert_eq!(CivilTime::from_local_seconds(1_787_668_327), time(2026, 8, 25, 14, 32, 7));
    assert_eq!(CivilTime::from_local_seconds(i64::MAX), None);
    assert_eq!(CivilTime::from_local_seconds(i64::MIN), None);
}

#[test]
fn calendar_ends_where_stated() {
    // The last second of the year 262142 and the first of the year -262143.
    let last = 8_210_266_876_799;
    let first = -8_334_601_228_800;
    let date = |seconds: i64| {
        CivilTime::from_local_seconds(seconds).map(|t| (t.year, t.month, t.day))
    };
    assert_eq!(date(last), Some((262142, 12, 31)));
    assert_eq!(CivilTime::from_local_seconds(last + 1), None);
    assert_eq!(date(first), Some((-262143, 1, 1)));
    assert_eq!(CivilTime::from_local_seconds(first - 1), None);
}

#[test]
fn escaping_brackets_keeps_any_text() {
    let parsed = parse_template(r"fix \[filename\] in \[time=yyy\]");
    assert!(parsed.issues.is_empty());
    assert_eq!(
        render(&parsed, Some("x"), &fixed_time()),
        "fix [filename] in [time=yyy]"
    );
}

#[test]
fn plain_text_is_kept() {
    let text = "héllo, wörld] \u{1F980}";
    assert_eq!(render(&parse_template(text), Some("x"), &fixed_time()), text);
}

#[test]
fn parse_results_can_be_copied() {
    let parsed: ParseResult = parse_template("[filename][bogus]");
    let copy = parsed.clone();
    assert_eq!(copy.segments, parsed.segments);
    assert_eq!(copy.issues, parsed.issues);
}
