use zhtw_mcp::consistency::{compute_consistency_report, ConsistencyReport};
use zhtw_mcp::glossary::ProjectGlossary;
use zhtw_mcp::issue::{Issue, IssueType, Severity};

fn cross_strait(offset: usize, found: &str, suggestion: &str, english: &str) -> Issue {
    let mut issue = Issue::new(
        offset,
        found.len(),
        found.to_string(),
        vec![suggestion.to_string()],
        IssueType::CrossStrait,
        Severity::Warning,
    );
    issue.english = Some(english.to_string());
    issue
}

#[test]
fn empty_when_no_mixed_usage() {
    let text = "我們只用線程實作。";
    let issues = vec![cross_strait(3, "線程", "執行緒", "thread")];
    let report = compute_consistency_report(text, &issues, &ProjectGlossary::default());
    assert!(report.is_empty(), "no canonical 執行緒 in text → no group");
}

#[test]
fn fires_when_both_forms_present() {
    let text = "我們的線程很慢。執行緒設計需要重構。";
    let issues = vec![cross_strait(9, "線程", "執行緒", "thread")];
    let report = compute_consistency_report(text, &issues, &ProjectGlossary::default());
    assert_eq!(report.groups.len(), 1);
    let group = &report.groups[0];
    assert_eq!(group.term_group, "thread");
    assert_eq!(group.preferred, "執行緒");
    assert_eq!(group.occurrences.len(), 1);
    assert_eq!(group.occurrences[0].found, "線程");
}

#[test]
fn groups_multiple_calques_for_same_english() {
    let text = "我們的線程很慢，線程數量太多。執行緒重構。";
    let issues = vec![
        cross_strait(9, "線程", "執行緒", "thread"),
        cross_strait(24, "線程", "執行緒", "thread"),
    ];
    let report = compute_consistency_report(text, &issues, &ProjectGlossary::default());
    assert_eq!(report.groups.len(), 1);
    assert_eq!(report.groups[0].occurrences.len(), 2);
}

#[test]
fn ignores_info_severity_issues_tm_suppressed() {
    let text = "線程 ... 執行緒";
    let mut issue = cross_strait(0, "線程", "執行緒", "thread");
    issue.severity = Severity::Info;
    let report = compute_consistency_report(text, &[issue], &ProjectGlossary::default());
    assert!(report.is_empty(), "Info severity (TM-suppressed) skipped");
}

#[test]
fn ignores_issues_without_english_anchor() {
    let text = "X ... Y";
    let mut issue = Issue::new(
        0,
        1,
        "X".to_string(),
        vec!["Y".to_string()],
        IssueType::CrossStrait,
        Severity::Warning,
    );
    issue.english = None;
    let report = compute_consistency_report(text, &[issue], &ProjectGlossary::default());
    assert!(report.is_empty());
}

#[test]
fn separates_groups_by_english_anchor() {
    let text = "線程 執行緒 用戶 使用者";
    let issues = vec![
        cross_strait(0, "線程", "執行緒", "thread"),
        cross_strait(7, "用戶", "使用者", "user"),
    ];
    let report = compute_consistency_report(text, &issues, &ProjectGlossary::default());
    assert_eq!(report.groups.len(), 2);
    let groups: Vec<&str> = report
        .groups
        .iter()
        .map(|g| g.term_group.as_str())
        .collect();
    assert!(groups.contains(&"thread"));
    assert!(groups.contains(&"user"));
}

#[test]
fn prefers_glossary_preferred_form_over_default_suggestion() {
    let text = "我們的線程很慢。緒程設計需要重構。";
    let mut issue = Issue::new(
        9,
        6,
        "線程".to_string(),
        vec!["執行緒".to_string(), "緒程".to_string()],
        IssueType::CrossStrait,
        Severity::Warning,
    );
    issue.english = Some("thread".to_string());
    let glossary = ProjectGlossary {
        preferred: vec!["緒程".to_string()],
        ..ProjectGlossary::default()
    };
    let report = compute_consistency_report(text, &[issue], &glossary);
    assert_eq!(report.groups.len(), 1);
    assert_eq!(report.groups[0].preferred, "緒程");
}

#[test]
fn glossary_preferred_outside_suggestions_falls_back_to_rule_suggestion() {
    let text = "我們的線程很慢。緒程設計需要重構。執行緒也要重構。";
    let issues = vec![cross_strait(9, "線程", "執行緒", "thread")];
    let glossary = ProjectGlossary {
        preferred: vec!["緒程".to_string()],
        ..ProjectGlossary::default()
    };
    let report = compute_consistency_report(text, &issues, &glossary);
    assert_eq!(report.groups.len(), 1);
    assert_eq!(
        report.groups[0].preferred, "執行緒",
        "preferred terms outside rule suggestions must not hijack the group"
    );
}

#[test]
fn edit_distance_neighbor_does_not_hijack_group() {
    let text = "我們的線程很慢。執行緒設計需要重構。線性代數也出現。";
    let issues = vec![cross_strait(9, "線程", "執行緒", "thread")];
    let glossary = ProjectGlossary {
        preferred: vec!["線性".to_string()],
        ..ProjectGlossary::default()
    };
    let report = compute_consistency_report(text, &issues, &glossary);
    assert_eq!(report.groups.len(), 1);
    assert_eq!(
        report.groups[0].preferred, "執行緒",
        "must fall back to rule suggestion, not pick unrelated 線性"
    );
}

#[test]
fn glossary_preference_does_not_leak_across_groups() {
    let text = "線程與使用者都出現在文件裡。執行緒也出現。";
    let issues = vec![
        cross_strait(0, "線程", "執行緒", "thread"),
        cross_strait(3, "用戶", "使用者", "user"),
    ];
    let glossary = ProjectGlossary {
        preferred: vec!["使用者".to_string()],
        ..ProjectGlossary::default()
    };
    let report = compute_consistency_report(text, &issues, &glossary);
    let thread_group = report
        .groups
        .iter()
        .find(|group| group.term_group == "thread")
        .expect("thread group should exist");
    assert_eq!(thread_group.preferred, "執行緒");
}

// ---------------------------------------------------------------------------

#[test]
fn groups_come_in_ascending_anchor_order() {
    // Both classes are mixed; the report lists "thread" before "user"
    // regardless of scan order.
    let text = "用戶 使用者 線程 執行緒";
    let issues = vec![
        cross_strait(0, "用戶", "使用者", "user"),
        cross_strait(17, "線程", "執行緒", "thread"),
    ];
    let report = compute_consistency_report(text, &issues, &ProjectGlossary::default());
    let names: Vec<&str> = report.groups.iter().map(|g| g.term_group.as_str()).collect();
    assert_eq!(names, vec!["thread", "user"]);
}

#[test]
fn occurrences_keep_scan_order_and_positions() {
    let text = "線程 執行緒 線程";
    let mut first = cross_strait(0, "線程", "執行緒", "thread");
    first.line = 1;
    first.col = 1;
    let mut second = cross_strait(17, "線程", "執行緒", "thread");
    second.line = 1;
    second.col = 8;
    let report = compute_consistency_report(text, &[first, second], &ProjectGlossary::default());
    assert_eq!(report.groups.len(), 1);
    let occ = &report.groups[0].occurrences;
    assert_eq!(occ.len(), 2);
    assert_eq!((occ[0].offset, occ[0].line, occ[0].col), (0, 1, 1));
    assert_eq!((occ[1].offset, occ[1].line, occ[1].col), (17, 1, 8));
}

#[test]
fn confusable_issues_count_but_other_families_do_not() {
    let text = "內存 記憶體";
    let mut conf = cross_strait(0, "內存", "記憶體", "memory");
    conf.rule_type = IssueType::Confusable;
    let report = compute_consistency_report(text, &[conf.clone()], &ProjectGlossary::default());
    assert_eq!(report.groups.len(), 1);
    let mut other = conf;
    other.rule_type = IssueType::Punctuation;
    let report = compute_consistency_report(text, &[other], &ProjectGlossary::default());
    assert!(report.is_empty());
}

#[test]
fn empty_english_anchor_is_ignored() {
    let text = "線程 執行緒";
    let issue = cross_strait(0, "線程", "執行緒", "");
    let report = compute_consistency_report(text, &[issue], &ProjectGlossary::default());
    assert!(report.is_empty());
}

#[test]
fn empty_first_suggestion_gives_no_canonical_form() {
    let text = "線程 執行緒";
    let issue = cross_strait(0, "線程", "", "thread");
    let report = compute_consistency_report(text, &[issue], &ProjectGlossary::default());
    assert!(report.is_empty());
}

#[test]
fn fallback_skips_members_without_suggestions() {
    let text = "線程 線程 執行緒";
    let mut bare = cross_strait(0, "線程", "x", "thread");
    bare.suggestions = Vec::new();
    let second = cross_strait(7, "線程", "執行緒", "thread");
    let report = compute_consistency_report(text, &[bare, second], &ProjectGlossary::default());
    assert_eq!(report.groups.len(), 1);
    assert_eq!(report.groups[0].preferred, "執行緒");
    assert_eq!(report.groups[0].occurrences.len(), 2);
}

#[test]
fn glossary_preferred_must_occur_in_text() {
    // 緒程 is a rule suggestion and the glossary's choice, but it does not
    // occur in the text: the rule's first suggestion is used instead.
    let text = "線程 執行緒";
    let mut issue = cross_strait(0, "線程", "執行緒", "thread");
    issue.suggestions = vec!["執行緒".to_string(), "緒程".to_string()];
    let glossary = ProjectGlossary {
        preferred: vec!["緒程".to_string()],
        ..ProjectGlossary::default()
    };
    let report = compute_consistency_report(text, &[issue], &glossary);
    assert_eq!(report.groups.len(), 1);
    assert_eq!(report.groups[0].preferred, "執行緒");
}

#[test]
fn default_report_is_empty() {
    let report = ConsistencyReport::default();
    assert!(report.is_empty());
    assert!(report.groups.is_empty());
}
