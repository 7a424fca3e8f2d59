use wdl::diagnostics::Diagnostic;
use wdl::diagnostics::Diagnostics;
use wdl::diagnostics::NodeInfo;
use wdl::diagnostics::Severity;
use wdl::diagnostics::Span;
use wdl::diagnostics::SyntaxKind;
use wdl::diagnostics::Tag;
use wdl::rules::shellcheck::build_line_map;
use wdl::rules::shellcheck::count_command_whitespace;
use wdl::rules::shellcheck::exit_outcome;
use wdl::rules::shellcheck::first_word_of;
use wdl::rules::shellcheck::sanitize_command;
use wdl::rules::shellcheck::sanitize_with;
use wdl::rules::shellcheck::shellcheck_lint;
use wdl::rules::shellcheck::CommandPart;
use wdl::rules::shellcheck::CommandSectionInfo;
use wdl::rules::shellcheck::ShellCheckDiagnostic;
use wdl::rules::shellcheck::ShellCheckRule;
use wdl::rules::shellcheck::StrippedCommandPart;
use wdl::rules::shellcheck::ToolCache;
use wdl::rules::VisitReason;

fn node(kind: SyntaxKind, excepted: &[&str]) -> NodeInfo {
    NodeInfo { kind, excepted: excepted.iter().map(|s| s.to_string()).collect(), excepts_all: false }
}

fn finding(line: usize, column: usize, end_column: usize, code: usize, message: &str) -> ShellCheckDiagnostic {
    ShellCheckDiagnostic {
        line,
        end_line: line,
        column,
        end_column,
        level: String::from("warning"),
        code,
        message: String::from(message),
    }
}

fn section(ancestors: Vec<NodeInfo>) -> CommandSectionInfo {
    CommandSectionInfo {
        parts: vec![CommandPart::Text { text: String::from("\n    echo hi\n    ls\n"), start: 10 }],
        stripped: Some(vec![StrippedCommandPart::Text(String::from("echo hi\nls\n"))]),
        keyword_span: Span::new(2, 7),
        ancestors,
    }
}

#[test]
fn rule_metadata() {
    let rule = ShellCheckRule::new();
    assert_eq!(rule.id(), "CommandSectionShellCheck");
    assert_eq!(rule.description(), "Ensures that command blocks are free of ShellCheck violations.");
    assert!(rule.explanation().starts_with("ShellCheck (https://shellcheck.net)"));
    let tags = rule.tags();
    assert!(tags.contains(Tag::Correctness));
    assert!(tags.contains(Tag::Style));
    assert!(tags.contains(Tag::Portability));
    assert!(!tags.contains(Tag::Naming));
    assert_eq!(
        rule.exceptable_nodes().unwrap(),
        vec![SyntaxKind::VersionStatementNode, SyntaxKind::TaskDefinitionNode, SyntaxKind::CommandSectionNode]
    );
}

#[test]
fn suppression_by_excepting_ancestor() {
    let kinds = vec![SyntaxKind::TaskDefinitionNode, SyntaxKind::CommandSectionNode];
    let d = || Diagnostic::note(String::from("n")).with_rule(String::from("SomeRule"));
    let mut diags = Diagnostics::new();

    // An excepting task around the element: dropped.
    let suppressed = vec![node(SyntaxKind::CommandSectionNode, &[]), node(SyntaxKind::TaskDefinitionNode, &["SomeRule"])];
    diags.exceptable_add(d(), &suppressed, Some(kinds.as_slice()));
    assert_eq!(diags.items().len(), 0);

    // An unrelated element: kept.
    let unrelated = vec![node(SyntaxKind::CommandSectionNode, &[]), node(SyntaxKind::TaskDefinitionNode, &["OtherRule"])];
    diags.exceptable_add(d(), &unrelated, Some(kinds.as_slice()));
    assert_eq!(diags.items().len(), 1);

    // The exception sits on a kind the rule does not allow: kept.
    let outside = vec![node(SyntaxKind::CommandSectionNode, &[]), node(SyntaxKind::WorkflowDefinitionNode, &["SomeRule"])];
    diags.exceptable_add(d(), &outside, Some(kinds.as_slice()));
    assert_eq!(diags.items().len(), 2);

    // A diagnostic of no rule is never suppressed.
    diags.exceptable_add(Diagnostic::error(String::from("e")), &suppressed, Some(kinds.as_slice()));
    assert_eq!(diags.items().len(), 3);

    // An annotation that excepts every rule.
    let all = vec![NodeInfo { kind: SyntaxKind::CommandSectionNode, excepted: vec![], excepts_all: true }];
    diags.exceptable_add(d(), &all, Some(kinds.as_slice()));
    assert_eq!(diags.items().len(), 3);
    diags.exceptable_add(d(), &all, None);
    assert_eq!(diags.items().len(), 4);
}

#[test]
fn leading_whitespace_of_command() {
    let parts = vec![CommandPart::Placeholder, CommandPart::Text { text: String::from("\n  \tx"), start: 4 }];
    assert_eq!(count_command_whitespace(&parts), 3);
    let parts = vec![CommandPart::Text { text: String::from("   y"), start: 4 }];
    assert_eq!(count_command_whitespace(&parts), 3);
    assert_eq!(count_command_whitespace(&Vec::new()), 0);
}

#[test]
fn line_map_of_command() {
    let parts = vec![CommandPart::Text { text: String::from("\n    echo hi\n    ls\n"), start: 10 }];
    let lw = count_command_whitespace(&parts);
    assert_eq!(lw, 4);
    assert_eq!(build_line_map(&parts, lw), vec![14, 26]);
}

#[test]
fn line_map_continues_line_after_placeholder() {
    // "\n  echo ~{x} a\n  ls\n": the text after the placeholder continues
    // the first line.
    let parts = vec![
        CommandPart::Text { text: String::from("\n  echo "), start: 20 },
        CommandPart::Placeholder,
        CommandPart::Text { text: String::from(" a\n  ls\n"), start: 32 },
    ];
    let lw = count_command_whitespace(&parts);
    assert_eq!(lw, 2);
    assert_eq!(build_line_map(&parts, lw), vec![22, 36]);
}

#[test]
fn sanitizing_with_given_variables() {
    let parts = vec![
        StrippedCommandPart::Text(String::from("echo ")),
        StrippedCommandPart::Placeholder(7),
        StrippedCommandPart::Text(String::from("\n")),
    ];
    let (text, decls) = sanitize_with(&parts, &vec![String::from("abcd")]);
    assert_eq!(text, "echo \"$abcd\"\n");
    assert_eq!(decls, vec![String::from("abcd")]);
}

#[test]
fn sanitizing_draws_fresh_variables() {
    let parts = vec![
        StrippedCommandPart::Text(String::from("echo ")),
        StrippedCommandPart::Placeholder(9),
        StrippedCommandPart::Text(String::from("\n")),
    ];
    let (text, decls) = sanitize_command(Some(&parts)).unwrap();
    assert_eq!(decls.len(), 1);
    let var = &decls[0];
    assert_eq!(var.len(), 6);
    assert!(var.chars().all(|c| c.is_ascii_alphanumeric()));
    assert_eq!(text, format!("echo \"${}\"\n", var));
    assert!(sanitize_command(None).is_none());
}

#[test]
fn first_word_of_message() {
    assert_eq!(first_word_of("  abc is referenced"), "abc");
    assert_eq!(first_word_of(""), "");
    assert_eq!(first_word_of("   "), "");
}

#[test]
fn findings_on_placeholder_variables_are_dropped() {
    let rule = ShellCheckRule::new();
    let mut diags = Diagnostics::new();
    let findings = vec![
        finding(1, 6, 11, 2154, "XyZ12 is referenced but not assigned."),
        finding(2, 1, 3, 2154, "other is referenced but not assigned."),
        finding(1, 1, 5, 2086, "XyZ12 Double quote to prevent globbing."),
    ];
    let decls = vec![String::from("XyZ12")];
    let map = vec![14, 26];
    let ancestors = vec![node(SyntaxKind::CommandSectionNode, &[])];
    rule.report_findings(&mut diags, &findings, &decls, &map, &ancestors);
    let items = diags.items();
    assert_eq!(items.len(), 2);
    assert_eq!(items[0].labels[0].message, "SC2154[warning]: other is referenced but not assigned.");
    assert_eq!(items[0].labels[0].span, Span::new(27, 2));
    assert_eq!(items[1].labels[0].message, "SC2086[warning]: XyZ12 Double quote to prevent globbing.");
    assert_eq!(items[1].labels[0].span, Span::new(15, 4));
    assert_eq!(items[1].severity, Severity::Note);
    assert_eq!(items[1].rule.as_deref(), Some("CommandSectionShellCheck"));
}

#[test]
fn lint_diagnostic_shape() {
    let d = shellcheck_lint(&finding(3, 2, 4, 2086, "Double quote."), Span::new(5, 2));
    assert_eq!(d.severity, Severity::Note);
    assert_eq!(d.message, "`shellcheck` reported the following diagnostic");
    assert_eq!(d.labels.len(), 1);
    assert_eq!(d.labels[0].message, "SC2086[warning]: Double quote.");
    assert_eq!(d.fix.as_deref(), Some("address the diagnostics as recommended in the message"));
}

#[test]
fn exit_codes() {
    assert!(exit_outcome(Some(0)).is_ok());
    assert!(exit_outcome(Some(1)).is_ok());
    assert_eq!(exit_outcome(Some(2)).unwrap_err(), "unexpected `shellcheck` exit code: 2");
    assert_eq!(exit_outcome(Some(127)).unwrap_err(), "unexpected `shellcheck` exit code: 127");
    assert_eq!(exit_outcome(Some(-3)).unwrap_err(), "unexpected `shellcheck` exit code: -3");
    assert_eq!(
        exit_outcome(None).unwrap_err(),
        "the `shellcheck` process appears to have been interrupted"
    );
}

#[test]
fn probe_is_queried_once_across_documents() {
    let rule = ShellCheckRule::new();
    let mut cache = ToolCache::new();
    let mut diags = Diagnostics::new();
    let mut queries = 0;
    for _document in 0..3 {
        for _section in 0..2 {
            let probe = if cache.needs_probe() {
                queries += 1;
                Some(false)
            } else {
                None
            };
            let s = section(vec![node(SyntaxKind::CommandSectionNode, &[])]);
            assert!(rule.command_section(&mut diags, VisitReason::Enter, &s, &mut cache, probe).is_none());
        }
    }
    assert_eq!(queries, 1);
    assert_eq!(cache.available(), Some(false));
    let items = diags.items();
    assert_eq!(items.len(), 1);
    assert_eq!(items[0].labels[0].message, "could not find `shellcheck` executable.");
    assert_eq!(items[0].labels[0].span, Span::new(2, 7));
    assert_eq!(items[0].fix.as_deref(), Some("install shellcheck or disable this lint."));
}

#[test]
fn command_section_request_and_findings() {
    let rule = ShellCheckRule::new();
    let mut cache = ToolCache::new();
    let mut diags = Diagnostics::new();
    let s = section(vec![node(SyntaxKind::CommandSectionNode, &[])]);
    assert!(rule.command_section(&mut diags, VisitReason::Exit, &s, &mut cache, Some(true)).is_none());
    assert_eq!(cache.available(), None);
    let req = rule.command_section(&mut diags, VisitReason::Enter, &s, &mut cache, Some(true)).unwrap();
    assert_eq!(req.script, "echo hi\nls\n");
    assert!(req.placeholder_vars.is_empty());
    assert_eq!(req.line_map, vec![14, 26]);
    assert_eq!(diags.items().len(), 0);

    let findings = vec![
        finding(1, 6, 8, 2154, "name is referenced but not assigned."),
        finding(2, 1, 3, 2034, "ls appears unused."),
    ];
    rule.finish_command_section(&mut diags, &s, &req, Ok(findings));
    // A finding on a name the task really declares is kept.
    assert_eq!(diags.items().len(), 2);
    assert_eq!(diags.items()[0].labels[0].message, "SC2154[warning]: name is referenced but not assigned.");
    assert_eq!(diags.items()[0].labels[0].span, Span::new(20, 2));
    assert_eq!(diags.items()[1].labels[0].span, Span::new(27, 2));

    rule.finish_command_section(&mut diags, &s, &req, Err(String::from("boom")));
    assert_eq!(diags.items().len(), 3);
    assert_eq!(diags.items()[2].severity, Severity::Error);
    assert_eq!(diags.items()[2].labels[0].message, "boom");
    assert_eq!(diags.items()[2].fix.as_deref(), Some("address reported error."));
}

#[test]
fn finding_off_the_line_map_becomes_a_failure() {
    let rule = ShellCheckRule::new();
    let mut cache = ToolCache::new();
    let mut diags = Diagnostics::new();
    let s = section(vec![node(SyntaxKind::CommandSectionNode, &[])]);
    let req = rule.command_section(&mut diags, VisitReason::Enter, &s, &mut cache, Some(true)).unwrap();
    rule.finish_command_section(&mut diags, &s, &req, Ok(vec![finding(7, 1, 3, 2034, "x appears unused.")]));
    assert_eq!(diags.items().len(), 1);
    assert_eq!(diags.items()[0].severity, Severity::Error);
    assert_eq!(
        diags.items()[0].labels[0].message,
        "`shellcheck` reported a location outside the command section"
    );
    assert_eq!(diags.items()[0].labels[0].span, Span::new(2, 7));
}

#[test]
fn exit_visit_needs_no_probe() {
    let rule = ShellCheckRule::default();
    let mut cache = ToolCache::new();
    let mut diags = Diagnostics::new();
    let s = section(vec![]);
    assert!(rule.command_section(&mut diags, VisitReason::Exit, &s, &mut cache, None).is_none());
    assert_eq!(cache.available(), None);
    assert_eq!(diags.items().len(), 0);
}

#[test]
fn command_section_findings_suppressed_by_task_exception() {
    let rule = ShellCheckRule::new();
    let mut cache = ToolCache::new();
    let mut diags = Diagnostics::new();
    let s = section(vec![
        node(SyntaxKind::CommandSectionNode, &[]),
        node(SyntaxKind::TaskDefinitionNode, &["CommandSectionShellCheck"]),
    ]);
    let req = rule.command_section(&mut diags, VisitReason::Enter, &s, &mut cache, Some(true)).unwrap();
    rule.finish_command_section(&mut diags, &s, &req, Ok(vec![finding(2, 1, 3, 2034, "ls appears unused.")]));
    rule.finish_command_section(&mut diags, &s, &req, Err(String::from("boom")));
    assert_eq!(diags.items().len(), 0);
}

#[test]
fn mixed_indentation_skips_check() {
    let rule = ShellCheckRule::new();
    let mut cache = ToolCache::new();
    let mut diags = Diagnostics::new();
    let mut s = section(vec![]);
    s.stripped = None;
    assert!(rule.command_section(&mut diags, VisitReason::Enter, &s, &mut cache, Some(true)).is_none());
    assert_eq!(diags.items().len(), 0);
    assert_eq!(cache.available(), Some(true));
}
