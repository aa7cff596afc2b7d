use vstd::prelude::*;

use crate::issue::{
    opt_string_view, severity_level, severity_rank, Issue, IssueType, IssueView, Severity,
};
use crate::order::{
    lemma_stable_sort_members, lemma_stable_sort_sorted, lemma_upper_bound_range, sorted_by,
    stable_sort, upper_bound,
};

verus! {

/// Lightweight summary of a contributing issue (no full issue payload).
#[derive(Debug, Clone)]
pub struct TopIssue {
    pub line: usize,
    pub col: usize,
    pub found: String,
    pub severity: Severity,
    pub rule_type: IssueType,
    pub context: Option<String>,
}

/// The model of a summary.
pub struct TopIssueView {
    pub line: int,
    pub col: int,
    pub found: Seq<char>,
    pub severity: Severity,
    pub rule_type: IssueType,
    pub context: Option<Seq<char>>,
}

impl View for TopIssue {
    type V = TopIssueView;

    open spec fn view(&self) -> TopIssueView {
        TopIssueView {
            line: self.line as int,
            col: self.col as int,
            found: self.found@,
            severity: self.severity,
            rule_type: self.rule_type,
            context: opt_string_view(self.context),
        }
    }
}

/// The models of a sequence of summaries.
pub open spec fn top_view(v: Seq<TopIssue>) -> Seq<TopIssueView> {
    Seq::new(v.len(), |k: int| v[k]@)
}

/// The summary of an issue.
pub open spec fn top_issue_of(i: IssueView) -> TopIssueView {
    TopIssueView {
        line: i.line,
        col: i.col,
        found: i.found,
        severity: i.severity,
        rule_type: i.rule_type,
        context: i.context,
    }
}

impl TopIssue {
    /// Summarise an issue.
    pub fn from_issue(issue: &Issue) -> (t: TopIssue)
        ensures
            t@ == top_issue_of(issue@),
    {
        let context = match &issue.context {
            Some(c) => Some(c.clone()),
            None => None,
        };
        TopIssue {
            line: issue.line,
            col: issue.col,
            found: issue.found.clone(),
            severity: issue.severity,
            rule_type: issue.rule_type,
            context,
        }
    }
}

/// Top contributing issues per style axis, at most five per axis.
#[derive(Debug, Clone)]
pub struct TopIssuesPerAxis {
    pub ai: Vec<TopIssue>,
    pub translationese: Vec<TopIssue>,
    pub consistency: Vec<TopIssue>,
}

impl Default for TopIssuesPerAxis {
    fn default() -> (r: TopIssuesPerAxis)
        ensures
            r.ai@.len() == 0,
            r.translationese@.len() == 0,
            r.consistency@.len() == 0,
    {
        TopIssuesPerAxis { ai: Vec::new(), translationese: Vec::new(), consistency: Vec::new() }
    }
}

/// How many summaries each axis keeps.
pub const TOP_PER_AXIS: usize = 5;

/// The axis a rule family contributes to: 0 AI style, 1 translationese,
/// 2 terminology consistency, 3 none.
pub open spec fn axis_of(t: IssueType) -> int {
    match t {
        IssueType::AiStyle => 0,
        IssueType::Translationese => 1,
        IssueType::CrossStrait => 2,
        IssueType::Confusable => 2,
        _ => 3,
    }
}

/// The summaries of the issues on `axis`, in scan order.
pub open spec fn axis_bucket(issues: Seq<IssueView>, axis: int) -> Seq<TopIssueView>
    decreases issues.len(),
{
    if issues.len() == 0 {
        Seq::empty()
    } else {
        let rest = axis_bucket(issues.drop_last(), axis);
        if axis_of(issues.last().rule_type) == axis {
            rest.push(top_issue_of(issues.last()))
        } else {
            rest
        }
    }
}

/// Triage order as one number: higher severity first, then lower line.
pub open spec fn triage_key() -> spec_fn(TopIssueView) -> int {
    |t: TopIssueView| (2 - severity_rank(t.severity)) * 0x1_0000_0000_0000_0000int + t.line
}

/// At most the first `n` elements.
pub open spec fn at_most<A>(s: Seq<A>, n: int) -> Seq<A> {
    if s.len() <= n {
        s
    } else {
        s.take(n)
    }
}

/// The triage list of one axis: its summaries stably sorted by severity
/// (`Error` first) then line, cut to five.
pub open spec fn axis_top(issues: Seq<IssueView>, axis: int) -> Seq<TopIssueView> {
    at_most(stable_sort(axis_bucket(issues, axis), triage_key()), TOP_PER_AXIS as int)
}

/// Where a summary with the given severity level and line goes in `sorted`:
/// after every summary that does not rank below it.
fn triage_insert_position(sorted: &Vec<TopIssue>, level: u8, line: usize) -> (p: usize)
    requires
        level <= 2,
    ensures
        p as int == upper_bound(
            top_view(sorted@),
            (2 - level) * 0x1_0000_0000_0000_0000int + line,
            triage_key(),
        ),
{
    let ghost s = top_view(sorted@);
    let ghost kx = (2 - level) * 0x1_0000_0000_0000_0000int + line;
    proof {
        assert(s.skip(0) =~= s);
    }
    let mut j: usize = 0;
    while j < sorted.len()
        invariant
            j <= sorted@.len(),
            s == top_view(sorted@),
            level <= 2,
            kx == (2 - level) * 0x1_0000_0000_0000_0000int + line,
            upper_bound(s, kx, triage_key()) == j + upper_bound(s.skip(j as int), kx, triage_key()),
        decreases sorted@.len() - j,
    {
        proof {
            assert(s.skip(j as int)[0] == s[j as int]);
            assert(s.skip(j as int).drop_first() =~= s.skip(j + 1));
        }
        let t = &sorted[j];
        let tl = severity_level(t.severity);
        if tl < level || (tl == level && t.line > line) {
            return j;
        }
        j = j + 1;
    }
    proof {
        assert(s.skip(j as int).len() == 0);
    }
    j
}

/// Stably sort summaries by severity (highest first), then by line.
fn sort_for_triage(items: Vec<TopIssue>) -> (out: Vec<TopIssue>)
    ensures
        top_view(out@) == stable_sort(top_view(items@), triage_key()),
{
    let ghost orig = top_view(items@);
    let mut rest = items;
    let mut sorted: Vec<TopIssue> = Vec::new();
    let ghost mut m: int = 0;
    while rest.len() > 0
        invariant
            0 <= m <= orig.len(),
            rest@.len() == orig.len() - m,
            top_view(rest@) == orig.skip(m),
            top_view(sorted@) == stable_sort(orig.take(m), triage_key()),
        decreases rest@.len(),
    {
        let ghost old_rest = rest@;
        let x = rest.remove(0);
        proof {
            assert forall|k: int| 0 <= k < rest@.len() implies top_view(rest@)[k] == orig.skip(
                m + 1,
            )[k] by {
                assert(rest@[k] == old_rest[k + 1]);
                assert(top_view(old_rest)[k + 1] == orig.skip(m)[k + 1]);
            }
            assert(top_view(rest@) =~= orig.skip(m + 1));
            assert(orig.skip(m)[0] == x@);
            assert(orig.take(m + 1).drop_last() =~= orig.take(m));
            assert(orig.take(m + 1).last() == x@);
        }
        let ghost before = top_view(sorted@);
        let level = severity_level(x.severity);
        let p = triage_insert_position(&sorted, level, x.line);
        proof {
            lemma_upper_bound_range(before, (triage_key())(x@), triage_key());
        }
        sorted.insert(p, x);
        proof {
            assert(top_view(sorted@) =~= before.insert(p as int, x@));
            m = m + 1;
        }
    }
    proof {
        assert(orig.take(orig.len() as int) =~= orig);
    }
    sorted
}

/// The summaries of the issues on `axis`, in scan order.
fn collect_axis(issues: &[Issue], axis: u8) -> (out: Vec<TopIssue>)
    requires
        axis <= 2,
    ensures
        top_view(out@) == axis_bucket(crate::issue::issues_view(issues@), axis as int),
{
    let ghost iv = crate::issue::issues_view(issues@);
    let mut out: Vec<TopIssue> = Vec::new();
    proof {
        assert(iv.take(0) =~= Seq::<IssueView>::empty());
        assert(top_view(out@) =~= axis_bucket(iv.take(0), axis as int));
    }
    let mut i: usize = 0;
    while i < issues.len()
        invariant
            i <= issues@.len(),
            axis <= 2,
            iv == crate::issue::issues_view(issues@),
            top_view(out@) == axis_bucket(iv.take(i as int), axis as int),
        decreases issues@.len() - i,
    {
        let issue = &issues[i];
        proof {
            assert(iv.take(i + 1).drop_last() =~= iv.take(i as int));
            assert(iv.take(i + 1).last() == issue@);
        }
        let a: u8 = match issue.rule_type {
            IssueType::AiStyle => 0,
            IssueType::Translationese => 1,
            IssueType::CrossStrait => 2,
            IssueType::Confusable => 2,
            _ => 3,
        };
        let ghost before = top_view(out@);
        if a == axis {
            out.push(TopIssue::from_issue(issue));
            proof {
                assert(top_view(out@) =~= before.push(top_issue_of(issue@)));
            }
        }
        i = i + 1;
    }
    proof {
        assert(iv.take(issues@.len() as int) =~= iv);
    }
    out
}

/// The triage list of one axis.
fn axis_triage(issues: &[Issue], axis: u8) -> (out: Vec<TopIssue>)
    requires
        axis <= 2,
    ensures
        top_view(out@) == axis_top(crate::issue::issues_view(issues@), axis as int),
{
    let bucket = collect_axis(issues, axis);
    let mut sorted = sort_for_triage(bucket);
    let ghost s = top_view(sorted@);
    sorted.truncate(TOP_PER_AXIS);
    proof {
        if s.len() > 5 {
            assert(top_view(sorted@) =~= s.take(5));
        }
    }
    sorted
}

/// Top five issues per axis (AI style; translationese; cross-strait and
/// confusable terminology), each list ordered by severity (`Error` >
/// `Warning` > `Info`) and then by line, ties kept in scan order.
pub fn top_issues_per_axis(issues: &[Issue]) -> (out: TopIssuesPerAxis)
    ensures
        top_view(out.ai@) == axis_top(crate::issue::issues_view(issues@), 0),
        top_view(out.translationese@) == axis_top(crate::issue::issues_view(issues@), 1),
        top_view(out.consistency@) == axis_top(crate::issue::issues_view(issues@), 2),
{
    TopIssuesPerAxis {
        ai: axis_triage(issues, 0),
        translationese: axis_triage(issues, 1),
        consistency: axis_triage(issues, 2),
    }
}

// ---------------------------------------------------------------------------
// Laws of the triage lists.

/// Triage order between two summaries: higher severity first; on equal
/// severity, lower line first.
pub open spec fn triage_before_or_tie(a: TopIssueView, b: TopIssueView) -> bool {
    severity_rank(a.severity) > severity_rank(b.severity) || (severity_rank(a.severity)
        == severity_rank(b.severity) && a.line <= b.line)
}

proof fn lemma_bucket_facts(issues: Seq<Issue>, axis: int)
    ensures
        forall|t: TopIssueView|
            #[trigger] axis_bucket(crate::issue::issues_view(issues), axis).contains(t) ==> axis_of(
                t.rule_type,
            ) == axis && 0 <= t.line <= usize::MAX,
    decreases issues.len(),
{
    let iv = crate::issue::issues_view(issues);
    if issues.len() > 0 {
        let d = issues.drop_last();
        lemma_bucket_facts(d, axis);
        assert(crate::issue::issues_view(d) =~= iv.drop_last());
        let rest = axis_bucket(iv.drop_last(), axis);
        assert forall|t: TopIssueView| #[trigger] axis_bucket(iv, axis).contains(t) implies axis_of(
            t.rule_type,
        ) == axis && 0 <= t.line <= usize::MAX by {
            let b = axis_bucket(iv, axis);
            let k = choose|k: int| 0 <= k < b.len() && b[k] == t;
            if k < rest.len() {
                assert(rest.contains(t));
            } else {
                assert(iv.last() == issues[issues.len() - 1]@);
            }
        }
    }
}

/// Each axis keeps at most five summaries.
pub proof fn law_at_most_five_per_axis(issues: Seq<Issue>, axis: int)
    ensures
        axis_top(crate::issue::issues_view(issues), axis).len() <= TOP_PER_AXIS,
{
    lemma_stable_sort_sorted(axis_bucket(crate::issue::issues_view(issues), axis), triage_key());
}

/// The axes never mix: a list holds only summaries of its own rule family.
pub proof fn law_axes_stay_separate(issues: Seq<Issue>, axis: int, k: int)
    requires
        0 <= k < axis_top(crate::issue::issues_view(issues), axis).len(),
    ensures
        axis_of(axis_top(crate::issue::issues_view(issues), axis)[k].rule_type) == axis,
{
    let b = axis_bucket(crate::issue::issues_view(issues), axis);
    let s = stable_sort(b, triage_key());
    let t = axis_top(crate::issue::issues_view(issues), axis);
    lemma_stable_sort_sorted(b, triage_key());
    lemma_stable_sort_members(b, triage_key());
    lemma_bucket_facts(issues, axis);
    assert(t[k] == s[k]);
    assert(s.contains(s[k]));
    assert(b.contains(s[k]));
}

/// Each list is in triage order: severity descending, then line ascending.
pub proof fn law_triage_order(issues: Seq<Issue>, axis: int, k: int, l: int)
    requires
        0 <= k < l < axis_top(crate::issue::issues_view(issues), axis).len(),
    ensures
        triage_before_or_tie(
            axis_top(crate::issue::issues_view(issues), axis)[k],
            axis_top(crate::issue::issues_view(issues), axis)[l],
        ),
{
    let b = axis_bucket(crate::issue::issues_view(issues), axis);
    let s = stable_sort(b, triage_key());
    let t = axis_top(crate::issue::issues_view(issues), axis);
    lemma_stable_sort_sorted(b, triage_key());
    lemma_stable_sort_members(b, triage_key());
    lemma_bucket_facts(issues, axis);
    assert(t[k] == s[k] && t[l] == s[l]);
    assert(s.contains(s[k]) && s.contains(s[l]));
    assert(b.contains(s[k]) && b.contains(s[l]));
    assert((triage_key())(s[k]) <= (triage_key())(s[l]));
}

/// How many issues contribute to `axis`.
pub open spec fn count_on_axis(issues: Seq<IssueView>, axis: int) -> int
    decreases issues.len(),
{
    if issues.len() == 0 {
        0
    } else {
        count_on_axis(issues.drop_last(), axis) + if axis_of(issues.last().rule_type) == axis {
            1int
        } else {
            0int
        }
    }
}

proof fn lemma_bucket_members(issues: Seq<IssueView>, axis: int, j: int)
    requires
        0 <= j < issues.len(),
        axis_of(issues[j].rule_type) == axis,
    ensures
        axis_bucket(issues, axis).contains(top_issue_of(issues[j])),
    decreases issues.len(),
{
    let rest = axis_bucket(issues.drop_last(), axis);
    let b = axis_bucket(issues, axis);
    if j == issues.len() - 1 {
        assert(b[rest.len() as int] == top_issue_of(issues[j]));
    } else {
        assert(issues.drop_last()[j] == issues[j]);
        lemma_bucket_members(issues.drop_last(), axis, j);
        let m = choose|m: int| 0 <= m < rest.len() && rest[m] == top_issue_of(issues[j]);
        assert(b[m] == rest[m]);
    }
}

proof fn lemma_bucket_len(issues: Seq<IssueView>, axis: int)
    ensures
        axis_bucket(issues, axis).len() == count_on_axis(issues, axis),
    decreases issues.len(),
{
    if issues.len() > 0 {
        lemma_bucket_len(issues.drop_last(), axis);
    }
}

/// Each list holds five summaries, or all of its axis when there are fewer.
pub proof fn law_list_length(issues: Seq<Issue>, axis: int)
    ensures
        axis_top(crate::issue::issues_view(issues), axis).len() == if count_on_axis(
            crate::issue::issues_view(issues),
            axis,
        ) < 5 {
            count_on_axis(crate::issue::issues_view(issues), axis)
        } else {
            5
        },
{
    let iv = crate::issue::issues_view(issues);
    lemma_bucket_len(iv, axis);
    lemma_stable_sort_sorted(axis_bucket(iv, axis), triage_key());
}

/// The list keeps the best of its whole axis: an issue of the axis whose
/// summary is not in the list ranks after, or ties with, every kept
/// summary in triage order (higher severity first, then lower line).
pub proof fn law_list_keeps_the_best(issues: Seq<Issue>, axis: int, j: int, k: int)
    requires
        0 <= j < issues.len(),
        axis_of(issues[j]@.rule_type) == axis,
        !axis_top(crate::issue::issues_view(issues), axis).contains(top_issue_of(issues[j]@)),
        0 <= k < axis_top(crate::issue::issues_view(issues), axis).len(),
    ensures
        triage_before_or_tie(axis_top(crate::issue::issues_view(issues), axis)[k], top_issue_of(issues[j]@)),
{
    let iv = crate::issue::issues_view(issues);
    let b = axis_bucket(iv, axis);
    let s = stable_sort(b, triage_key());
    let t = axis_top(iv, axis);
    let x = top_issue_of(iv[j]);
    assert(iv[j] == issues[j]@);
    lemma_bucket_members(iv, axis, j);
    lemma_stable_sort_sorted(b, triage_key());
    lemma_stable_sort_members(b, triage_key());
    lemma_bucket_facts(issues, axis);
    assert(s.contains(x));
    let i = choose|i: int| 0 <= i < s.len() && s[i] == x;
    if s.len() <= 5 {
        assert(t[i] == x);
        assert(false);
    }
    if i < 5 {
        assert(t[i] == x);
        assert(false);
    }
    assert(t[k] == s[k]);
    assert(s.contains(s[k]));
    assert(b.contains(s[k]));
    assert((triage_key())(s[k]) <= (triage_key())(s[i]));
}

} // verus!
