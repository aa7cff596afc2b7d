use vstd::prelude::*;

verus! {

/// How loudly an issue is reported. `Info` < `Warning` < `Error`.
#[derive(Clone, Copy, Debug, PartialEq, Eq, Structural, Hash)]
pub enum Severity {
    Info,
    Warning,
    Error,
}

/// The family of rule that produced an issue.
#[derive(Clone, Copy, Debug, PartialEq, Eq, Structural, Hash)]
pub enum IssueType {
    CrossStrait,
    Confusable,
    AiStyle,
    Translationese,
    Punctuation,
    Spacing,
    Variant,
    Grammar,
}

/// The rank of a severity: `Info` 0, `Warning` 1, `Error` 2.
pub open spec fn severity_rank(s: Severity) -> int {
    match s {
        Severity::Info => 0,
        Severity::Warning => 1,
        Severity::Error => 2,
    }
}

/// Executable rank of a severity.
pub fn severity_level(s: Severity) -> (r: u8)
    ensures
        r == severity_rank(s),
{
    match s {
        Severity::Info => 0,
        Severity::Warning => 1,
        Severity::Error => 2,
    }
}

/// One finding of the scanner. Offsets and lengths are byte positions in
/// the UTF-8 text; `line`/`col` are filled in by the caller later.
#[derive(Debug, Clone)]
pub struct Issue {
    pub offset: usize,
    pub length: usize,
    pub line: usize,
    pub col: usize,
    pub found: String,
    pub suggestions: Vec<String>,
    pub rule_type: IssueType,
    pub severity: Severity,
    pub context: Option<String>,
    pub english: Option<String>,
    /// Set when a project-glossary banned term is reported by this issue;
    /// later downgrades must leave such issues alone.
    pub glossary_banned: bool,
}

impl Issue {
    /// A fresh issue at the given byte span, with no position, context or
    /// anchor yet and not glossary-banned.
    pub fn new(
        offset: usize,
        length: usize,
        found: String,
        suggestions: Vec<String>,
        rule_type: IssueType,
        severity: Severity,
    ) -> (r: Issue)
        ensures
            r == fresh_issue(offset, length, found, suggestions, rule_type, severity),
    {
        Issue {
            offset,
            length,
            line: 0,
            col: 0,
            found,
            suggestions,
            rule_type,
            severity,
            context: None,
            english: None,
            glossary_banned: false,
        }
    }
}

/// The mathematical model of an issue: its strings as character sequences.
pub struct IssueView {
    pub offset: int,
    pub length: int,
    pub line: int,
    pub col: int,
    pub found: Seq<char>,
    pub suggestions: Seq<Seq<char>>,
    pub rule_type: IssueType,
    pub severity: Severity,
    pub context: Option<Seq<char>>,
    pub english: Option<Seq<char>>,
    pub glossary_banned: bool,
}

/// The character sequences of a list of strings.
pub open spec fn strings_view(v: Seq<String>) -> Seq<Seq<char>> {
    Seq::new(v.len(), |k: int| v[k]@)
}

/// The character sequence of an optional string.
pub open spec fn opt_string_view(o: Option<String>) -> Option<Seq<char>> {
    match o {
        Some(s) => Some(s@),
        None => None,
    }
}

impl View for Issue {
    type V = IssueView;

    open spec fn view(&self) -> IssueView {
        IssueView {
            offset: self.offset as int,
            length: self.length as int,
            line: self.line as int,
            col: self.col as int,
            found: self.found@,
            suggestions: strings_view(self.suggestions@),
            rule_type: self.rule_type,
            severity: self.severity,
            context: opt_string_view(self.context),
            english: opt_string_view(self.english),
            glossary_banned: self.glossary_banned,
        }
    }
}

/// The models of a sequence of issues.
pub open spec fn issues_view(v: Seq<Issue>) -> Seq<IssueView> {
    Seq::new(v.len(), |k: int| v[k]@)
}

/// The value that [`Issue::new`] builds.
pub open spec fn fresh_issue(
    offset: usize,
    length: usize,
    found: String,
    suggestions: Vec<String>,
    rule_type: IssueType,
    severity: Severity,
) -> Issue {
    Issue {
        offset,
        length,
        line: 0,
        col: 0,
        found,
        suggestions,
        rule_type,
        severity,
        context: None,
        english: None,
        glossary_banned: false,
    }
}

} // verus!
