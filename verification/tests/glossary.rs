use zhtw_mcp::excluded::ByteRange;
use zhtw_mcp::glossary::{apply_glossary, is_glossary_banned, mark_glossary_banned, ProjectGlossary};
use zhtw_mcp::issue::{Issue, IssueType, Severity};

fn issue(offset: usize, found: &str) -> Issue {
    Issue::new(
        offset,
        found.len(),
        found.to_string(),
        vec!["X".to_string()],
        IssueType::CrossStrait,
        Severity::Warning,
    )
}

#[test]
fn empty_glossary_passes_through() {
    let glossary = ProjectGlossary::default();
    let issues = vec![issue(0, "線程")];
    let out = apply_glossary("線程", &[], issues, &glossary);
    assert_eq!(out.len(), 1);
}

#[test]
fn proper_noun_suppresses_matching_issue() {
    let glossary = ProjectGlossary {
        proper_nouns: vec!["TSMC".to_string()],
        ..ProjectGlossary::default()
    };
    let issues = vec![issue(0, "TSMC"), issue(10, "線程")];
    let out = apply_glossary("TSMC ... 線程", &[], issues, &glossary);
    assert_eq!(out.len(), 1);
    assert_eq!(out[0].found, "線程");
}

#[test]
fn banned_term_injects_synthetic_when_not_already_flagged() {
    let glossary = ProjectGlossary {
        banned: vec!["線程".to_string()],
        ..ProjectGlossary::default()
    };
    let text = "我們的線程實作。";
    let out = apply_glossary(text, &[], Vec::new(), &glossary);
    assert_eq!(out.len(), 1);
    assert_eq!(out[0].found, "線程");
    assert_eq!(out[0].severity, Severity::Error);
    assert_eq!(out[0].rule_type, IssueType::CrossStrait);
}

#[test]
fn banned_term_upgrades_existing_same_span_issue() {
    let glossary = ProjectGlossary {
        banned: vec!["線程".to_string()],
        ..ProjectGlossary::default()
    };
    let text = "線程";
    let mut existing = issue(0, "線程");
    existing.context = Some("@domain IT。原始說明".to_string());
    let out = apply_glossary(text, &[], vec![existing], &glossary);
    assert_eq!(out.len(), 1, "existing issue must not be duplicated");
    assert_eq!(out[0].severity, Severity::Error);
    assert_eq!(out[0].context.as_deref(), Some("@domain IT。原始說明"));
    assert!(is_glossary_banned(&out[0]));
}

#[test]
fn banned_term_upgrades_larger_covering_issue() {
    let glossary = ProjectGlossary {
        banned: vec!["用戶".to_string()],
        ..ProjectGlossary::default()
    };
    let text = "用戶介面";
    let existing = issue(0, "用戶介面");
    let out = apply_glossary(text, &[], vec![existing], &glossary);
    assert_eq!(
        out.len(),
        1,
        "covering issue must absorb the banned hit, not duplicate"
    );
    assert_eq!(out[0].found, "用戶介面");
    assert_eq!(out[0].severity, Severity::Error);
    assert!(is_glossary_banned(&out[0]));
}

#[test]
fn banned_term_finds_multiple_occurrences() {
    let glossary = ProjectGlossary {
        banned: vec!["線程".to_string()],
        ..ProjectGlossary::default()
    };
    let text = "線程一、線程二";
    let out = apply_glossary(text, &[], Vec::new(), &glossary);
    assert_eq!(out.len(), 2);
    assert!(out.iter().all(|i| i.found == "線程"));
}

#[test]
fn banned_and_proper_noun_compose() {
    let glossary = ProjectGlossary {
        banned: vec!["內存".to_string()],
        proper_nouns: vec!["MediaTek".to_string()],
        ..ProjectGlossary::default()
    };
    let text = "MediaTek 在內存設計上的優勢";
    let issues = vec![issue(0, "MediaTek"), issue(11, "優化")];
    let out = apply_glossary(text, &[], issues, &glossary);
    assert!(!out.iter().any(|i| i.found == "MediaTek"));
    assert!(out
        .iter()
        .any(|i| i.found == "內存" && i.severity == Severity::Error));
}

// ---------------------------------------------------------------------------

#[test]
fn banned_hit_carries_byte_span_and_no_position() {
    let glossary = ProjectGlossary {
        banned: vec!["線程".to_string()],
        ..ProjectGlossary::default()
    };
    let out = apply_glossary("我們的線程", &[], Vec::new(), &glossary);
    assert_eq!(out.len(), 1);
    assert_eq!(out[0].offset, 9);
    assert_eq!(out[0].length, 6);
    assert_eq!((out[0].line, out[0].col), (0, 0));
    assert!(out[0].suggestions.is_empty());
    assert!(out[0].english.is_none());
    assert!(is_glossary_banned(&out[0]));
}

#[test]
fn banned_occurrence_inside_excluded_range_is_skipped() {
    let glossary = ProjectGlossary {
        banned: vec!["ABC".to_string()],
        ..ProjectGlossary::default()
    };
    // "ABC x ABC": the first occurrence sits in bytes [0, 3), excluded.
    let excluded = [ByteRange { start: 0, end: 2 }];
    let out = apply_glossary("ABC x ABC", &excluded, Vec::new(), &glossary);
    assert_eq!(out.len(), 1);
    assert_eq!(out[0].offset, 6);
}

#[test]
fn banned_occurrences_do_not_overlap() {
    let glossary = ProjectGlossary {
        banned: vec!["aa".to_string()],
        ..ProjectGlossary::default()
    };
    let out = apply_glossary("aaa", &[], Vec::new(), &glossary);
    assert_eq!(out.len(), 1);
    assert_eq!(out[0].offset, 0);
}

#[test]
fn empty_banned_term_is_ignored() {
    let glossary = ProjectGlossary {
        banned: vec![String::new()],
        ..ProjectGlossary::default()
    };
    let out = apply_glossary("anything", &[], vec![issue(3, "x")], &glossary);
    assert_eq!(out.len(), 1);
    assert_eq!(out[0].severity, Severity::Warning);
    assert!(!is_glossary_banned(&out[0]));
}

#[test]
fn output_is_sorted_by_offset_stably() {
    let glossary = ProjectGlossary {
        banned: vec!["Q".to_string()],
        ..ProjectGlossary::default()
    };
    let mut a = issue(5, "b");
    a.line = 1;
    let mut b = issue(2, "a");
    b.line = 2;
    let mut c = issue(5, "c");
    c.line = 3;
    let out = apply_glossary("Q....", &[], vec![a, b, c], &glossary);
    let lines: Vec<(usize, usize)> = out.iter().map(|i| (i.offset, i.line)).collect();
    assert_eq!(lines, vec![(0, 0), (2, 2), (5, 1), (5, 3)]);
}

#[test]
fn blank_glossary_keeps_input_order() {
    let out = apply_glossary(
        "xx",
        &[],
        vec![issue(5, "b"), issue(1, "a")],
        &ProjectGlossary::default(),
    );
    assert_eq!(out[0].offset, 5);
    assert_eq!(out[1].offset, 1);
}

#[test]
fn later_banned_term_upgrades_earlier_synthetic() {
    // "線程" is injected first; the later banned "程" lies inside it and
    // is absorbed instead of duplicated.
    let glossary = ProjectGlossary {
        banned: vec!["線程".to_string(), "程".to_string()],
        ..ProjectGlossary::default()
    };
    let out = apply_glossary("線程", &[], Vec::new(), &glossary);
    assert_eq!(out.len(), 1);
    assert_eq!(out[0].found, "線程");
}

#[test]
fn banned_term_that_is_also_a_proper_noun_still_fires() {
    let glossary = ProjectGlossary {
        banned: vec!["ABC".to_string()],
        proper_nouns: vec!["ABC".to_string()],
        ..ProjectGlossary::default()
    };
    let out = apply_glossary("ABC", &[], vec![issue(0, "ABC")], &glossary);
    assert_eq!(out.len(), 1);
    assert!(is_glossary_banned(&out[0]));
    assert_eq!(out[0].severity, Severity::Error);
    assert!(out[0].suggestions.is_empty());
}

#[test]
fn glossary_is_empty_and_marking() {
    assert!(ProjectGlossary::default().is_empty());
    let g = ProjectGlossary {
        preferred: vec!["x".to_string()],
        ..ProjectGlossary::default()
    };
    assert!(!g.is_empty());
    let mut i = issue(0, "x");
    assert!(!is_glossary_banned(&i));
    mark_glossary_banned(&mut i);
    assert!(is_glossary_banned(&i));
    assert_eq!(i.severity, Severity::Warning);
}
