use zhtw_mcp::issue::{Issue, IssueType, Severity};
use zhtw_mcp::style_score::{top_issues_per_axis, TopIssue};

fn issue(rule_type: IssueType, severity: Severity, line: usize) -> Issue {
    let mut i = Issue::new(0, 0, "x".to_string(), Vec::new(), rule_type, severity);
    i.line = line;
    i
}

#[test]
fn top_issues_split_by_axis() {
    let issues = vec![
        issue(IssueType::AiStyle, Severity::Info, 1),
        issue(IssueType::Translationese, Severity::Warning, 2),
        issue(IssueType::CrossStrait, Severity::Warning, 3),
        issue(IssueType::CrossStrait, Severity::Info, 4),
    ];
    let top = top_issues_per_axis(&issues);
    assert_eq!(top.ai.len(), 1);
    assert_eq!(top.translationese.len(), 1);
    assert_eq!(top.consistency.len(), 2);
}

#[test]
fn top_issues_at_most_5_per_axis() {
    let issues: Vec<Issue> = (0..10)
        .map(|i| issue(IssueType::AiStyle, Severity::Info, i))
        .collect();
    let top = top_issues_per_axis(&issues);
    assert_eq!(top.ai.len(), 5);
    let lines: Vec<usize> = top.ai.iter().map(|t| t.line).collect();
    assert_eq!(lines, vec![0, 1, 2, 3, 4]);
}

#[test]
fn top_issues_ordered_by_severity_then_line() {
    let issues = vec![
        issue(IssueType::AiStyle, Severity::Info, 100),
        issue(IssueType::AiStyle, Severity::Error, 200),
        issue(IssueType::AiStyle, Severity::Warning, 300),
    ];
    let top = top_issues_per_axis(&issues);
    assert_eq!(top.ai[0].severity, Severity::Error);
    assert_eq!(top.ai[1].severity, Severity::Warning);
    assert_eq!(top.ai[2].severity, Severity::Info);
}

#[test]
fn top_issues_keep_highest_severity_first_then_lower_lines() {
    let issues = vec![
        issue(IssueType::Confusable, Severity::Warning, 9),
        issue(IssueType::CrossStrait, Severity::Error, 50),
        issue(IssueType::Confusable, Severity::Warning, 3),
        issue(IssueType::CrossStrait, Severity::Info, 1),
        issue(IssueType::CrossStrait, Severity::Error, 7),
        issue(IssueType::Confusable, Severity::Info, 2),
        issue(IssueType::Punctuation, Severity::Error, 0),
    ];
    let top = top_issues_per_axis(&issues);
    let got: Vec<(Severity, usize)> = top.consistency.iter().map(|t| (t.severity, t.line)).collect();
    assert_eq!(
        got,
        vec![
            (Severity::Error, 7),
            (Severity::Error, 50),
            (Severity::Warning, 3),
            (Severity::Warning, 9),
            (Severity::Info, 1),
        ]
    );
    assert!(top.ai.is_empty());
    assert!(top.translationese.is_empty());
}

#[test]
fn top_issue_summary_copies_fields() {
    let mut i = issue(IssueType::Translationese, Severity::Warning, 4);
    i.col = 2;
    i.context = Some("ctx".to_string());
    let t = TopIssue::from_issue(&i);
    assert_eq!((t.line, t.col), (4, 2));
    assert_eq!(t.found, "x");
    assert_eq!(t.context.as_deref(), Some("ctx"));
    assert_eq!(t.rule_type, IssueType::Translationese);
}
