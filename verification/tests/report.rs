use markdown_style::default_rules;
use markdown_style::report::{explain, github, render, rules_catalog};
use markdown_style::{Document, Span, Violation};

fn detect(source: &str) -> Vec<Violation> {
    markdown_style::lint(&Document::new(source), &default_rules())
}

#[test]
fn renders_a_caret_snippet_with_reason() {
    let source = "# Title\n\ntext   \n";
    let report = render("a.md", source, &detect(source), &default_rules(), false);
    // The source line is shown verbatim, with its trailing spaces, and the
    // carets sit under them from the flagged column on.
    let line3 = "text   ";
    let expected = format!(
        "trailing-whitespace: trailing whitespace\n --> a.md:3:5\n  |\n3 | {line3}\n  |     ^^^\n  = why: Trailing spaces"
    );
    assert!(report.starts_with(&expected), "got:\n{report}");
}

#[test]
fn shows_the_why_only_once_per_rule() {
    let source = "text  \n\nmore  \n";
    let report = render("a.md", source, &detect(source), &default_rules(), false);
    assert_eq!(report.matches("= why:").count(), 1);
    assert!(!report.contains("= help:"));
}

#[test]
fn adds_colour_only_when_asked() {
    let source = "text   \n";
    let plain = render("a.md", source, &detect(source), &default_rules(), false);
    let coloured = render("a.md", source, &detect(source), &default_rules(), true);
    assert!(!plain.contains('\x1b'));
    assert!(coloured.contains('\x1b'));
}

#[test]
fn github_emits_an_error_annotation_per_violation() {
    let source = "# Title\n\ntext   \n";
    let out = github("a.md", &detect(source));
    assert!(
        out.contains("::error file=a.md,line=3,col=5,title=trailing-whitespace::"),
        "got:\n{out}"
    );
    assert!(out.ends_with('\n'));
}

#[test]
fn github_reports_a_windows_path_with_forward_slashes() {
    let source = "# Title\n\ntext   \n";
    let out = github("docs\\guide\\a.md", &detect(source));
    assert!(out.contains("file=docs/guide/a.md,"), "got:\n{out}");
}

#[test]
fn windows_a_long_line_and_keeps_the_caret_aligned() {
    let long = format!("{}*x*{}", "a".repeat(200), "b".repeat(200));
    let violation = Violation {
        rule_id: "emphasis",
        message: "m".to_string(),
        span: Span {
            line: 1,
            column: 201,
            length: 1,
        },
    };
    let report = render(
        "f.md",
        &long,
        std::slice::from_ref(&violation),
        &default_rules(),
        false,
    );
    let lines: Vec<&str> = report.lines().collect();
    let source_index = lines.iter().position(|l| l.starts_with("1 | ")).unwrap();
    let source = lines[source_index];
    let caret = lines[source_index + 1];

    assert!(source.chars().count() < 120, "line should be windowed");
    assert!(source.contains("..."));
    let caret_position = caret.find('^').unwrap();
    assert_eq!(source.chars().nth(caret_position), Some('*'));
}

#[test]
fn github_escapes_reserved_characters() {
    let violation = Violation {
        rule_id: "demo",
        message: "50% off, now\nlater".to_string(),
        span: Span {
            line: 2,
            column: 3,
            length: 1,
        },
    };
    let out = github("dir,name:1.md", std::slice::from_ref(&violation));
    // Properties escape the comma and colon; the message escapes the percent
    // and newline but keeps its comma.
    assert!(out.contains("file=dir%2Cname%3A1.md"), "got:\n{out}");
    assert!(out.contains("::50%25 off, now%0Alater\n"), "got:\n{out}");
}

#[test]
fn explain_returns_a_known_rule_rationale() {
    let text = explain("final-newline", &default_rules()).unwrap();
    assert!(text.starts_with("final-newline\n"));
    assert!(text.contains("POSIX"));
}

#[test]
fn explain_is_none_for_an_unknown_rule() {
    assert!(explain("no-such-rule", &default_rules()).is_none());
}

#[test]
fn renders_a_diagnostic_with_its_location_and_reason() {
    let source = "Alpha one. Bravo two.\n";
    let report = render("a.md", source, &detect(source), &default_rules(), false);
    assert_eq!(
        report,
        "sentence-per-line: put each sentence on its own line\n --> a.md:1:12\n  |\n1 | Alpha one. Bravo two.\n  |            ^\n  = why: One sentence per line makes repetition and over-long sentences obvious in the source, keeps diffs to the sentences that actually changed, and is why the tool has no line-length rule: a long line is your cue that a sentence is long. Hard breaks, inline code, and links are preserved, and a sentence is never split where it would start a line with a block marker.\n"
    );
}

#[test]
fn shows_each_rule_reason_once_and_sorts_by_position() {
    let source = "One. Two.\n\nThree. Four.\r\n";
    let report = render("a.md", source, &detect(source), &default_rules(), false);
    assert_eq!(report.matches("= why:").count(), 2);
    let first = report.find("a.md:1:6").unwrap();
    let second = report.find("a.md:3:8").unwrap();
    let third = report.find("a.md:3:13").unwrap();
    assert!(first < second && second < third, "got:\n{report}");
}

#[test]
fn colours_only_when_asked() {
    let source = "One. Two.\n";
    let plain = render("a.md", source, &detect(source), &default_rules(), false);
    let coloured = render("a.md", source, &detect(source), &default_rules(), true);
    assert!(!plain.contains('\x1b'));
    assert!(coloured.starts_with("\x1b[1m\x1b[31msentence-per-line"));
    assert!(coloured.contains("\x1b[31m^\x1b[0m"));
}

#[test]
fn github_annotates_each_violation_with_forward_slashes() {
    let source = "One. Two.\n";
    let out = github("docs\\guide\\a.md", &detect(source));
    assert_eq!(
        out,
        "::error file=docs/guide/a.md,line=1,col=6,title=sentence-per-line::put each sentence on its own line\n"
    );
}

#[test]
fn escaped_messages_hold_no_line_break() {
    let violation = Violation {
        rule_id: "a:b,c",
        message: "x\r\ny%".to_string(),
        span: Span {
            line: 10,
            column: 1,
            length: 1,
        },
    };
    let out = github("p", std::slice::from_ref(&violation));
    assert_eq!(out, "::error file=p,line=10,col=1,title=a%3Ab%2Cc::x%0D%0Ay%25\n");
}

#[test]
fn rules_catalog_lists_every_rule_in_order() {
    let catalog = rules_catalog();
    assert!(catalog.starts_with("# Rules\n\nEvery rule is always on.\nA rule either _fixes_"));
    let positions: Vec<usize> = default_rules()
        .iter()
        .map(|rule| catalog.find(&format!("## {}\n\n_", rule.id())).unwrap())
        .collect();
    assert!(positions.windows(2).all(|w| w[0] < w[1]));
    assert!(catalog.contains("## trailing-whitespace\n\n_Fix._"));
    assert!(catalog.contains("## single-h1\n\n_Flag._"));
    assert!(catalog.ends_with("because only you know which you meant.\n"));
}

#[test]
fn keeps_violations_at_one_place_in_the_order_found() {
    let at = |rule_id: &'static str, column: usize| Violation {
        rule_id,
        message: "m".to_string(),
        span: Span {
            line: 1,
            column,
            length: 1,
        },
    };
    let violations = vec![
        at("block-spacing", 2),
        at("line-endings", 1),
        at("byte-order-mark", 2),
    ];
    let report = render("a.md", "ab\n", &violations, &default_rules(), false);
    let first = report.find("line-endings: m").unwrap();
    let second = report.find("block-spacing: m").unwrap();
    let third = report.find("byte-order-mark: m").unwrap();
    assert!(first < second && second < third, "got:\n{report}");
}

#[test]
fn can_render_refuses_line_zero_and_a_column_past_a_long_line() {
    let at = |line: usize, column: usize| Violation {
        rule_id: "block-spacing",
        message: "m".to_string(),
        span: Span {
            line,
            column,
            length: 1,
        },
    };
    let long = "a".repeat(150);
    assert!(markdown_style::report::can_render("ab\n", &[at(1, 3), at(9, 7)]));
    assert!(!markdown_style::report::can_render("ab\n", &[at(0, 1)]));
    assert!(markdown_style::report::can_render(&long, &[at(1, 151)]));
    assert!(!markdown_style::report::can_render(&long, &[at(1, 152)]));
}

#[test]
fn an_escaped_percent_never_reads_as_an_escape() {
    let with = |message: &str| Violation {
        rule_id: "demo",
        message: message.to_string(),
        span: Span {
            line: 1,
            column: 1,
            length: 1,
        },
    };
    let literal = github("p", std::slice::from_ref(&with("%0A")));
    let newline = github("p", std::slice::from_ref(&with("\n")));
    assert_eq!(literal, "::error file=p,line=1,col=1,title=demo::%250A\n");
    assert_eq!(newline, "::error file=p,line=1,col=1,title=demo::%0A\n");
}

#[test]
fn a_column_just_past_a_long_line_still_gets_a_caret() {
    let long = "a".repeat(150);
    let violation = Violation {
        rule_id: "line-endings",
        message: "m".to_string(),
        span: Span {
            line: 1,
            column: 151,
            length: 1,
        },
    };
    let report = render(
        "f.md",
        &long,
        std::slice::from_ref(&violation),
        &default_rules(),
        false,
    );
    let lines: Vec<&str> = report.lines().collect();
    let source_index = lines.iter().position(|l| l.starts_with("1 | ")).unwrap();
    let caret = lines[source_index + 1];
    assert_eq!(caret.matches('^').count(), 1, "got:\n{report}");
    assert_eq!(caret.find('^').unwrap(), lines[source_index].chars().count());
}
