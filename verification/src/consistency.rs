use vstd::prelude::*;

use crate::glossary::ProjectGlossary;
use crate::issue::{opt_string_view, strings_view, Issue, IssueType, IssueView, Severity};
use crate::text::{
    bytes_before, contains_str, lemma_str_order, list_contains, listed, occurs_in, str_before,
    utf8_of,
};

verus! {

/// One occurrence of a calque in the document, anchoring a consistency
/// diagnostic.
#[derive(Debug, Clone, PartialEq, Eq)]
pub struct ConsistencyOccurrence {
    pub offset: usize,
    pub line: usize,
    pub col: usize,
    pub found: String,
}

/// The model of an occurrence.
pub struct OccurrenceView {
    pub offset: int,
    pub line: int,
    pub col: int,
    pub found: Seq<char>,
}

impl View for ConsistencyOccurrence {
    type V = OccurrenceView;

    open spec fn view(&self) -> OccurrenceView {
        OccurrenceView {
            offset: self.offset as int,
            line: self.line as int,
            col: self.col as int,
            found: self.found@,
        }
    }
}

/// Mixed usage within one equivalence class: the calque occurrences and the
/// Taiwan-preferred form that also appears in the document.
#[derive(Debug, Clone, PartialEq, Eq)]
pub struct ConsistencyGroup {
    /// English anchor (the equivalence-class key).
    pub term_group: String,
    /// The Taiwan-preferred form the linter recommends.
    pub preferred: String,
    /// Every occurrence of the calques of this class, in scan order.
    pub occurrences: Vec<ConsistencyOccurrence>,
}

/// The model of a group.
pub struct GroupView {
    pub term_group: Seq<char>,
    pub preferred: Seq<char>,
    pub occurrences: Seq<OccurrenceView>,
}

/// The models of a sequence of occurrences.
pub open spec fn occurrences_view(v: Seq<ConsistencyOccurrence>) -> Seq<OccurrenceView> {
    Seq::new(v.len(), |k: int| v[k]@)
}

impl View for ConsistencyGroup {
    type V = GroupView;

    open spec fn view(&self) -> GroupView {
        GroupView {
            term_group: self.term_group@,
            preferred: self.preferred@,
            occurrences: occurrences_view(self.occurrences@),
        }
    }
}

/// The models of a sequence of groups.
pub open spec fn groups_view(v: Seq<ConsistencyGroup>) -> Seq<GroupView> {
    Seq::new(v.len(), |k: int| v[k]@)
}

/// Document-wide consistency report; no groups means no mixed usage.
#[derive(Debug, Clone)]
pub struct ConsistencyReport {
    pub groups: Vec<ConsistencyGroup>,
}

impl View for ConsistencyReport {
    type V = Seq<GroupView>;

    open spec fn view(&self) -> Seq<GroupView> {
        groups_view(self.groups@)
    }
}

impl Default for ConsistencyReport {
    fn default() -> (r: ConsistencyReport)
        ensures
            r@.len() == 0,
    {
        ConsistencyReport { groups: Vec::new() }
    }
}

impl ConsistencyReport {
    /// The report holds no group.
    pub fn is_empty(&self) -> (r: bool)
        ensures
            r == (self@.len() == 0),
    {
        self.groups.is_empty()
    }
}

// ---------------------------------------------------------------------------
// What the report is, on the models.

/// An issue takes part in consistency grouping: a cross-strait or
/// confusable finding, not downgraded to `Info`, with a non-empty English
/// anchor.
pub open spec fn eligible(i: IssueView) -> bool {
    &&& (i.rule_type == IssueType::CrossStrait || i.rule_type == IssueType::Confusable)
    &&& i.severity != Severity::Info
    &&& i.english matches Some(e) && e.len() > 0
}

/// An eligible issue anchored on English term `e`.
pub open spec fn in_group(i: IssueView, e: Seq<char>) -> bool {
    eligible(i) && i.english == Some(e)
}

/// The issues of equivalence class `e`, in scan order.
pub open spec fn group_members(issues: Seq<IssueView>, e: Seq<char>) -> Seq<IssueView>
    decreases issues.len(),
{
    if issues.len() == 0 {
        issues
    } else {
        let rest = group_members(issues.drop_last(), e);
        if in_group(issues.last(), e) {
            rest.push(issues.last())
        } else {
            rest
        }
    }
}

/// Some member lists `p` among its suggestions.
pub open spec fn suggests(members: Seq<IssueView>, p: Seq<char>) -> bool {
    exists|m: int| 0 <= m < members.len() && listed(#[trigger] members[m].suggestions, p)
}

/// The first glossary preferred form that is non-empty, occurs in the text,
/// and is a suggestion of some member.
pub open spec fn glossary_pick(text: Seq<u8>, members: Seq<IssueView>, prefs: Seq<Seq<char>>) -> Option<
    Seq<char>,
>
    decreases prefs.len(),
{
    if prefs.len() == 0 {
        None
    } else {
        let p = prefs[0];
        if p.len() > 0 && occurs_in(text, utf8_of(p)) && suggests(members, p) {
            Some(p)
        } else {
            glossary_pick(text, members, prefs.drop_first())
        }
    }
}

/// The first suggestion of the first member that has any.
pub open spec fn first_suggestion(members: Seq<IssueView>) -> Option<Seq<char>>
    decreases members.len(),
{
    if members.len() == 0 {
        None
    } else if members[0].suggestions.len() > 0 {
        Some(members[0].suggestions[0])
    } else {
        first_suggestion(members.drop_first())
    }
}

/// The canonical Taiwan form of a group: the glossary's pick, else the
/// rule's first suggestion when that is non-empty.
pub open spec fn canonical_form(text: Seq<u8>, members: Seq<IssueView>, prefs: Seq<Seq<char>>) -> Option<
    Seq<char>,
> {
    match glossary_pick(text, members, prefs) {
        Some(p) => Some(p),
        None => match first_suggestion(members) {
            Some(s) => if s.len() > 0 {
                Some(s)
            } else {
                None
            },
            None => None,
        },
    }
}

/// Class `e` is reported: it has a canonical form and that form also
/// occurs in the text.
pub open spec fn reported(text: Seq<u8>, issues: Seq<IssueView>, prefs: Seq<Seq<char>>, e: Seq<char>) -> bool {
    canonical_form(text, group_members(issues, e), prefs) matches Some(c) && occurs_in(text, utf8_of(c))
}

/// The occurrence that anchors an issue.
pub open spec fn occurrence_of(i: IssueView) -> OccurrenceView {
    OccurrenceView { offset: i.offset, line: i.line, col: i.col, found: i.found }
}

/// The occurrences of a sequence of issues.
pub open spec fn occurrences_of(members: Seq<IssueView>) -> Seq<OccurrenceView> {
    Seq::new(members.len(), |k: int| occurrence_of(members[k]))
}

/// `g` is the group the report gives for its class.
pub open spec fn group_correct(text: Seq<u8>, issues: Seq<IssueView>, prefs: Seq<Seq<char>>, g: GroupView) -> bool {
    &&& reported(text, issues, prefs, g.term_group)
    &&& canonical_form(text, group_members(issues, g.term_group), prefs) == Some(g.preferred)
    &&& g.occurrences == occurrences_of(group_members(issues, g.term_group))
}

/// `groups` is the consistency report of `issues` on `text`: one correct
/// group for each reported class, in ascending string order of the class.
pub open spec fn report_of(
    text: Seq<u8>,
    issues: Seq<IssueView>,
    prefs: Seq<Seq<char>>,
    groups: Seq<GroupView>,
) -> bool {
    &&& forall|k: int, l: int|
        0 <= k < l < groups.len() ==> str_before(groups[k].term_group, groups[l].term_group)
    &&& forall|k: int| 0 <= k < groups.len() ==> group_correct(text, issues, prefs, #[trigger] groups[k])
    &&& forall|e: Seq<char>|
        reported(text, issues, prefs, e) ==> exists|k: int|
            0 <= k < groups.len() && (#[trigger] groups[k]).term_group == e
}

/// The models of a sequence of borrowed issues.
pub open spec fn refs_view(v: Seq<&Issue>) -> Seq<IssueView> {
    Seq::new(v.len(), |k: int| v[k]@)
}

// ---------------------------------------------------------------------------
// Lemmas.

/// A class with members has an issue anchored on it.
proof fn lemma_members_witness(issues: Seq<IssueView>, e: Seq<char>)
    requires
        group_members(issues, e).len() > 0,
    ensures
        exists|j: int| 0 <= j < issues.len() && in_group(#[trigger] issues[j], e),
    decreases issues.len(),
{
    if in_group(issues.last(), e) {
        assert(in_group(issues[issues.len() - 1], e));
    } else {
        lemma_members_witness(issues.drop_last(), e);
        let j = choose|j: int| 0 <= j < issues.drop_last().len() && in_group(
            #[trigger] issues.drop_last()[j],
            e,
        );
        assert(issues[j] == issues.drop_last()[j]);
    }
}

/// A canonical form exists only for a class with members.
proof fn lemma_canonical_has_members(text: Seq<u8>, members: Seq<IssueView>, prefs: Seq<Seq<char>>)
    requires
        canonical_form(text, members, prefs) is Some,
    ensures
        members.len() > 0,
    decreases prefs.len(),
{
    if glossary_pick(text, members, prefs) is None {
    } else if prefs.len() > 0 {
        let p = prefs[0];
        if p.len() > 0 && occurs_in(text, utf8_of(p)) && suggests(members, p) {
        } else {
            lemma_glossary_pick_has_members(text, members, prefs.drop_first());
        }
    }
}

proof fn lemma_glossary_pick_has_members(text: Seq<u8>, members: Seq<IssueView>, prefs: Seq<Seq<char>>)
    requires
        glossary_pick(text, members, prefs) is Some,
    ensures
        members.len() > 0,
    decreases prefs.len(),
{
    let p = prefs[0];
    if p.len() > 0 && occurs_in(text, utf8_of(p)) && suggests(members, p) {
    } else {
        lemma_glossary_pick_has_members(text, members, prefs.drop_first());
    }
}

// ---------------------------------------------------------------------------
// Executable steps.

/// Whether an issue takes part in consistency grouping.
fn is_eligible(issue: &Issue) -> (r: bool)
    ensures
        r == eligible(issue@),
{
    let kind_ok = match issue.rule_type {
        IssueType::CrossStrait => true,
        IssueType::Confusable => true,
        _ => false,
    };
    let severity_ok = match issue.severity {
        Severity::Info => false,
        _ => true,
    };
    if !(kind_ok && severity_ok) {
        return false;
    }
    match &issue.english {
        Some(e) => !e.as_str().is_empty(),
        None => false,
    }
}

/// Whether an issue is eligible and anchored on `key`.
fn issue_in_group(issue: &Issue, key: &String) -> (r: bool)
    ensures
        r == in_group(issue@, key@),
{
    if !is_eligible(issue) {
        return false;
    }
    match &issue.english {
        Some(e) => *e == *key,
        None => false,
    }
}

/// Strictly ascending in string order.
pub open spec fn strictly_ascending(v: Seq<Seq<char>>) -> bool {
    forall|k: int, l: int| 0 <= k < l < v.len() ==> str_before(v[k], v[l])
}

/// The English anchors of the eligible issues among the first `n`.
pub open spec fn anchors(issues: Seq<IssueView>, n: int) -> Set<Seq<char>> {
    Set::new(|x: Seq<char>| exists|j: int| 0 <= j < n && in_group(#[trigger] issues[j], x))
}

/// Insert `e` into the strictly ascending key list unless it is there.
fn insert_key(keys: &mut Vec<String>, e: &String)
    requires
        strictly_ascending(strings_view(old(keys)@)),
    ensures
        strictly_ascending(strings_view(final(keys)@)),
        strings_view(final(keys)@).to_set() == strings_view(old(keys)@).to_set().insert(e@),
{
    let ghost o = strings_view(keys@);
    let mut j: usize = 0;
    while j < keys.len()
        invariant
            strings_view(keys@) == o,
            o == strings_view(old(keys)@),
            j <= o.len(),
            strictly_ascending(o),
            forall|k: int| 0 <= k < j ==> str_before(#[trigger] o[k], e@),
        decreases o.len() - j,
    {
        if keys[j] == *e {
            assert(o[j as int] == e@);
            assert(o.to_set() =~= o.to_set().insert(e@));
            return;
        }
        if bytes_before(e.as_str().as_bytes(), keys[j].as_str().as_bytes()) {
            keys.insert(j, e.clone());
            let ghost t = strings_view(keys@);
            assert(t =~= o.insert(j as int, e@));
            assert forall|k: int, l: int| 0 <= k < l < t.len() implies str_before(t[k], t[l]) by {
                if l == j {
                } else if k == j {
                    if l - 1 > j {
                        lemma_str_order(e@, o[j as int], o[l - 1]);
                    }
                } else if k < j {
                } else {
                }
            }
            assert forall|x: Seq<char>| #[trigger] t.contains(x) <==> o.to_set().insert(e@).contains(x) by {
                if t.contains(x) {
                    let l = choose|l: int| 0 <= l < t.len() && t[l] == x;
                    if l < j {
                        assert(o[l] == x);
                    } else if l > j {
                        assert(o[l - 1] == x);
                    }
                }
                if o.contains(x) {
                    let k = choose|k: int| 0 <= k < o.len() && o[k] == x;
                    if k < j {
                        assert(t[k] == x);
                    } else {
                        assert(t[k + 1] == x);
                    }
                }
                if x == e@ {
                    assert(t[j as int] == x);
                }
            }
            assert(t.to_set() =~= o.to_set().insert(e@));
            return;
        }
        proof {
            lemma_str_order(o[j as int], e@, e@);
        }
        j = j + 1;
    }
    keys.push(e.clone());
    let ghost t = strings_view(keys@);
    assert(t =~= o.push(e@));
    assert forall|k: int, l: int| 0 <= k < l < t.len() implies str_before(t[k], t[l]) by {
    }
    assert forall|x: Seq<char>| #[trigger] t.contains(x) <==> o.to_set().insert(e@).contains(x) by {
        if t.contains(x) {
            let l = choose|l: int| 0 <= l < t.len() && t[l] == x;
            if l < o.len() {
                assert(o[l] == x);
            }
        }
        if o.contains(x) {
            let k = choose|k: int| 0 <= k < o.len() && o[k] == x;
            assert(t[k] == x);
        }
        if x == e@ {
            assert(t[o.len() as int] == x);
        }
    }
    assert(t.to_set() =~= o.to_set().insert(e@));
}

/// The distinct English anchors of the eligible issues, ascending.
fn sorted_group_keys(issues: &[Issue]) -> (keys: Vec<String>)
    ensures
        strictly_ascending(strings_view(keys@)),
        strings_view(keys@).to_set() == anchors(crate::issue::issues_view(issues@), issues@.len() as int),
{
    let ghost iv = crate::issue::issues_view(issues@);
    let mut keys: Vec<String> = Vec::new();
    proof {
        assert(strings_view(keys@).to_set() =~= anchors(iv, 0));
    }
    let mut i: usize = 0;
    while i < issues.len()
        invariant
            i <= issues@.len(),
            iv == crate::issue::issues_view(issues@),
            strictly_ascending(strings_view(keys@)),
            strings_view(keys@).to_set() == anchors(iv, i as int),
        decreases issues@.len() - i,
    {
        let issue = &issues[i];
        assert(iv[i as int] == issue@);
        if is_eligible(issue) {
            match &issue.english {
                Some(e) => {
                    insert_key(&mut keys, e);
                    assert(in_group(iv[i as int], e@));
                    assert forall|x: Seq<char>| #[trigger] anchors(iv, i + 1).contains(x) <==> anchors(
                        iv,
                        i as int,
                    ).insert(e@).contains(x) by {
                        if anchors(iv, i + 1).contains(x) {
                            let j = choose|j: int| 0 <= j < i + 1 && in_group(#[trigger] iv[j], x);
                            if j < i {
                                assert(anchors(iv, i as int).contains(x));
                            }
                        }
                        if anchors(iv, i as int).contains(x) {
                            let j = choose|j: int| 0 <= j < i && in_group(#[trigger] iv[j], x);
                            assert(in_group(iv[j], x));
                        }
                    }
                    assert(anchors(iv, i + 1) =~= anchors(iv, i as int).insert(e@));
                },
                None => {},
            }
        } else {
            assert forall|x: Seq<char>| #[trigger] anchors(iv, i + 1).contains(x) <==> anchors(
                iv,
                i as int,
            ).contains(x) by {
                if anchors(iv, i + 1).contains(x) {
                    let j = choose|j: int| 0 <= j < i + 1 && in_group(#[trigger] iv[j], x);
                    assert(j != i);
                }
                if anchors(iv, i as int).contains(x) {
                    let j = choose|j: int| 0 <= j < i && in_group(#[trigger] iv[j], x);
                    assert(in_group(iv[j], x));
                }
            }
            assert(anchors(iv, i + 1) =~= anchors(iv, i as int));
        }
        i = i + 1;
    }
    keys
}

/// The issues anchored on `key`, borrowed, in scan order.
fn collect_group<'a>(issues: &'a [Issue], key: &String) -> (members: Vec<&'a Issue>)
    ensures
        refs_view(members@) == group_members(crate::issue::issues_view(issues@), key@),
{
    let ghost iv = crate::issue::issues_view(issues@);
    let mut members: Vec<&'a Issue> = Vec::new();
    let mut i: usize = 0;
    proof {
        assert(iv.take(0) =~= Seq::<IssueView>::empty());
        assert(refs_view(members@) =~= group_members(iv.take(0), key@));
    }
    while i < issues.len()
        invariant
            i <= issues@.len(),
            iv == crate::issue::issues_view(issues@),
            refs_view(members@) == group_members(iv.take(i as int), key@),
        decreases issues@.len() - i,
    {
        let issue = &issues[i];
        proof {
            assert(iv.take(i + 1).drop_last() =~= iv.take(i as int));
            assert(iv.take(i + 1).last() == issue@);
        }
        let ghost before = refs_view(members@);
        if issue_in_group(issue, key) {
            members.push(issue);
            proof {
                assert(refs_view(members@) =~= before.push(issue@));
            }
        }
        i = i + 1;
    }
    proof {
        assert(iv.take(issues@.len() as int) =~= iv);
    }
    members
}

/// Whether some member lists `preferred` among its suggestions.
fn glossary_preferred_matches_group(preferred: &String, issues_in_group: &[&Issue]) -> (r: bool)
    ensures
        r == suggests(refs_view(issues_in_group@), preferred@),
{
    let ghost mv = refs_view(issues_in_group@);
    let mut m: usize = 0;
    while m < issues_in_group.len()
        invariant
            m <= issues_in_group@.len(),
            mv == refs_view(issues_in_group@),
            forall|k: int| 0 <= k < m ==> !listed(#[trigger] mv[k].suggestions, preferred@),
        decreases issues_in_group@.len() - m,
    {
        let issue = issues_in_group[m];
        if list_contains(&issue.suggestions, preferred) {
            assert(listed(mv[m as int].suggestions, preferred@));
            return true;
        }
        m = m + 1;
    }
    false
}

/// The canonical Taiwan form for one equivalence class: the first glossary
/// preferred form that occurs in the text and that the rule already
/// suggested for this class; otherwise the rule's first suggestion, when
/// it is non-empty.
fn preferred_canonical_for_group(
    text: &str,
    issues_in_group: &[&Issue],
    glossary: &ProjectGlossary,
) -> (r: Option<String>)
    ensures
        opt_string_view(r) == canonical_form(
            utf8_of(text@),
            refs_view(issues_in_group@),
            glossary@.preferred,
        ),
{
    let ghost tb = utf8_of(text@);
    let ghost mv = refs_view(issues_in_group@);
    let ghost pv = glossary@.preferred;
    let prefs = &glossary.preferred;
    if !prefs.is_empty() {
        let mut t: usize = 0;
        proof {
            assert(pv.skip(0) =~= pv);
        }
        while t < prefs.len()
            invariant
                t <= prefs@.len(),
                pv == strings_view(prefs@),
                pv == glossary@.preferred,
                mv == refs_view(issues_in_group@),
                tb == utf8_of(text@),
                glossary_pick(tb, mv, pv) == glossary_pick(tb, mv, pv.skip(t as int)),
            decreases prefs@.len() - t,
        {
            let preferred = &prefs[t];
            proof {
                assert(pv.skip(t as int)[0] == preferred@);
                assert(pv.skip(t as int).drop_first() =~= pv.skip(t + 1));
            }
            if !preferred.as_str().is_empty() && contains_str(text, preferred.as_str())
                && glossary_preferred_matches_group(preferred, issues_in_group) {
                return Some(preferred.clone());
            }
            t = t + 1;
        }
        proof {
            assert(pv.skip(t as int).len() == 0);
        }
    }
    let mut k: usize = 0;
    proof {
        assert(mv.skip(0) =~= mv);
    }
    while k < issues_in_group.len()
        invariant
            k <= issues_in_group@.len(),
            mv == refs_view(issues_in_group@),
            tb == utf8_of(text@),
            pv == glossary@.preferred,
            glossary_pick(tb, mv, pv) is None,
            first_suggestion(mv) == first_suggestion(mv.skip(k as int)),
        decreases issues_in_group@.len() - k,
    {
        let issue = issues_in_group[k];
        proof {
            assert(mv.skip(k as int)[0] == issue@);
            assert(mv.skip(k as int).drop_first() =~= mv.skip(k + 1));
        }
        if issue.suggestions.len() > 0 {
            let first = &issue.suggestions[0];
            assert(issue@.suggestions[0] == first@);
            if first.as_str().is_empty() {
                return None;
            }
            return Some(first.clone());
        }
        k = k + 1;
    }
    proof {
        assert(mv.skip(k as int).len() == 0);
    }
    None
}

/// The occurrences that anchor the members of a group, in order.
fn group_occurrences(issues_in_group: &[&Issue]) -> (out: Vec<ConsistencyOccurrence>)
    ensures
        occurrences_view(out@) == occurrences_of(refs_view(issues_in_group@)),
{
    let ghost mv = refs_view(issues_in_group@);
    let mut out: Vec<ConsistencyOccurrence> = Vec::new();
    let mut k: usize = 0;
    while k < issues_in_group.len()
        invariant
            k <= issues_in_group@.len(),
            mv == refs_view(issues_in_group@),
            out@.len() == k,
            forall|m: int| 0 <= m < k ==> (#[trigger] out@[m])@ == occurrence_of(mv[m]),
        decreases issues_in_group@.len() - k,
    {
        let i = issues_in_group[k];
        out.push(ConsistencyOccurrence { offset: i.offset, line: i.line, col: i.col, found: i.found.clone() });
        k = k + 1;
    }
    assert(occurrences_view(out@) =~= occurrences_of(mv));
    out
}

/// Build the document-wide consistency report from raw scan issues.
///
/// Eligible issues (cross-strait or confusable, not `Info`, with a
/// non-empty English anchor) are grouped by anchor. A group is reported
/// when its canonical Taiwan form (see `preferred_canonical_for_group`)
/// also occurs in the text, so both regional variants coexist. Groups come
/// in ascending order of their anchor.
pub fn compute_consistency_report(
    text: &str,
    issues: &[Issue],
    glossary: &ProjectGlossary,
) -> (report: ConsistencyReport)
    ensures
        report_of(
            utf8_of(text@),
            crate::issue::issues_view(issues@),
            glossary@.preferred,
            report@,
        ),
{
    let ghost tb = utf8_of(text@);
    let ghost iv = crate::issue::issues_view(issues@);
    let ghost pv = glossary@.preferred;
    let keys = sorted_group_keys(issues);
    let ghost kv = strings_view(keys@);
    let mut groups: Vec<ConsistencyGroup> = Vec::new();
    let ghost mut pos: Seq<int> = Seq::empty();
    let mut b: usize = 0;
    while b < keys.len()
        invariant
            b <= keys@.len(),
            kv == strings_view(keys@),
            tb == utf8_of(text@),
            iv == crate::issue::issues_view(issues@),
            pv == glossary@.preferred,
            strictly_ascending(kv),
            kv.to_set() == anchors(iv, iv.len() as int),
            pos.len() == groups@.len(),
            forall|k: int|
                0 <= k < pos.len() ==> 0 <= #[trigger] pos[k] < b && groups@[k]@.term_group
                    == kv[pos[k]],
            forall|k: int, l: int| 0 <= k < l < pos.len() ==> pos[k] < pos[l],
            forall|k: int|
                0 <= k < groups@.len() ==> group_correct(tb, iv, pv, (#[trigger] groups@[k])@),
            forall|c: int| 0 <= c < b && reported(tb, iv, pv, #[trigger] kv[c]) ==> pos.contains(c),
        decreases keys@.len() - b,
    {
        let english = &keys[b];
        let members = collect_group(issues, english);
        let canonical = preferred_canonical_for_group(text, members.as_slice(), glossary);
        let ghost before = groups@;
        let ghost pos0 = pos;
        match canonical {
            Some(c) => {
                if contains_str(text, c.as_str()) {
                    let occurrences = group_occurrences(members.as_slice());
                    let group = ConsistencyGroup { term_group: english.clone(), preferred: c, occurrences };
                    assert(group_correct(tb, iv, pv, group@));
                    groups.push(group);
                    proof {
                        pos = pos.push(b as int);
                        assert(groups@[before.len() as int] == group);
                        assert forall|k: int| 0 <= k < groups@.len() implies group_correct(
                            tb,
                            iv,
                            pv,
                            (#[trigger] groups@[k])@,
                        ) by {
                            if k < before.len() {
                                assert(groups@[k] == before[k]);
                            }
                        }
                        assert forall|k: int| 0 <= k < pos.len() implies 0 <= #[trigger] pos[k] < b + 1
                            && groups@[k]@.term_group == kv[pos[k]] by {
                            if k < before.len() {
                                assert(groups@[k] == before[k]);
                                assert(pos[k] == pos0[k]);
                            }
                        }
                    }
                }
            },
            None => {},
        }
        proof {
            assert forall|c0: int| 0 <= c0 < b + 1 && reported(tb, iv, pv, #[trigger] kv[c0]) implies pos.contains(c0) by {
                if c0 == b {
                    assert(pos[pos.len() - 1] == c0);
                } else {
                    let k = choose|k: int| 0 <= k < pos0.len() && pos0[k] == c0;
                    assert(pos[k] == c0);
                }
            }
        }
        b = b + 1;
    }
    let report = ConsistencyReport { groups };
    proof {
        assert forall|k: int, l: int| 0 <= k < l < report@.len() implies str_before(
            report@[k].term_group,
            report@[l].term_group,
        ) by {
            assert(pos[k] < pos[l]);
        }
        assert forall|e: Seq<char>| reported(tb, iv, pv, e) implies exists|k: int|
            0 <= k < report@.len() && (#[trigger] report@[k]).term_group == e by {
            lemma_canonical_has_members(tb, group_members(iv, e), pv);
            lemma_members_witness(iv, e);
            assert(anchors(iv, iv.len() as int).contains(e));
            assert(kv.to_set().contains(e));
            let c = choose|c: int| 0 <= c < kv.len() && kv[c] == e;
            let k = choose|k: int| 0 <= k < pos.len() && pos[k] == c;
            assert(report@[k].term_group == e);
        }
        assert forall|k: int| 0 <= k < report@.len() implies group_correct(tb, iv, pv, #[trigger] report@[k]) by {
            assert(report@[k] == groups@[k]@);
        }
    }
    report
}

// ---------------------------------------------------------------------------
// Laws of the consistency report.

/// The eligible issues, in scan order.
pub open spec fn eligible_only(issues: Seq<IssueView>) -> Seq<IssueView>
    decreases issues.len(),
{
    if issues.len() == 0 {
        issues
    } else {
        let rest = eligible_only(issues.drop_last());
        if eligible(issues.last()) {
            rest.push(issues.last())
        } else {
            rest
        }
    }
}

proof fn lemma_members_of_eligible(issues: Seq<IssueView>, e: Seq<char>)
    ensures
        group_members(eligible_only(issues), e) == group_members(issues, e),
    decreases issues.len(),
{
    if issues.len() > 0 {
        lemma_members_of_eligible(issues.drop_last(), e);
        let rest = eligible_only(issues.drop_last());
        if eligible(issues.last()) {
            assert(rest.push(issues.last()).drop_last() =~= rest);
        }
    }
}

/// Only eligible issues count: dropping every issue that is not a
/// cross-strait or confusable finding above `Info` with an English anchor
/// (translation-memory downgrades land at `Info`) leaves the report as it is.
pub proof fn law_only_eligible_issues_count(
    text: Seq<u8>,
    issues: Seq<IssueView>,
    prefs: Seq<Seq<char>>,
    groups: Seq<GroupView>,
)
    ensures
        report_of(text, issues, prefs, groups) == report_of(text, eligible_only(issues), prefs, groups),
{
    let el = eligible_only(issues);
    assert forall|e: Seq<char>| #[trigger] reported(text, el, prefs, e) == reported(text, issues, prefs, e) by {
        lemma_members_of_eligible(issues, e);
    }
    assert forall|g: GroupView| #[trigger] group_correct(text, el, prefs, g) == group_correct(
        text,
        issues,
        prefs,
        g,
    ) by {
        lemma_members_of_eligible(issues, g.term_group);
    }
    if report_of(text, issues, prefs, groups) {
        assert forall|e: Seq<char>| reported(text, el, prefs, e) implies exists|k: int|
            0 <= k < groups.len() && (#[trigger] groups[k]).term_group == e by {
            assert(reported(text, issues, prefs, e));
        }
        assert forall|k: int| 0 <= k < groups.len() implies group_correct(text, el, prefs, #[trigger] groups[k]) by {
            assert(group_correct(text, issues, prefs, groups[k]));
        }
    }
    if report_of(text, el, prefs, groups) {
        assert forall|e: Seq<char>| reported(text, issues, prefs, e) implies exists|k: int|
            0 <= k < groups.len() && (#[trigger] groups[k]).term_group == e by {
            assert(reported(text, el, prefs, e));
        }
        assert forall|k: int| 0 <= k < groups.len() implies group_correct(text, issues, prefs, #[trigger] groups[k]) by {
            assert(group_correct(text, el, prefs, groups[k]));
        }
    }
}

proof fn lemma_glossary_pick_suggested(text: Seq<u8>, members: Seq<IssueView>, prefs: Seq<Seq<char>>)
    requires
        glossary_pick(text, members, prefs) is Some,
    ensures
        suggests(members, glossary_pick(text, members, prefs)->0),
    decreases prefs.len(),
{
    let p = prefs[0];
    if !(p.len() > 0 && occurs_in(text, utf8_of(p)) && suggests(members, p)) {
        lemma_glossary_pick_suggested(text, members, prefs.drop_first());
    }
}

proof fn lemma_first_suggestion_suggested(members: Seq<IssueView>)
    requires
        first_suggestion(members) is Some,
    ensures
        suggests(members, first_suggestion(members)->0),
    decreases members.len(),
{
    if members[0].suggestions.len() > 0 {
        assert(listed(members[0].suggestions, members[0].suggestions[0]));
    } else {
        let rest = members.drop_first();
        lemma_first_suggestion_suggested(rest);
        let m = choose|m: int| 0 <= m < rest.len() && listed(#[trigger] rest[m].suggestions, first_suggestion(rest)->0);
        assert(members[m + 1] == rest[m]);
    }
}

/// The glossary cannot hijack a group: the preferred form of every group is
/// a suggestion that the rules made for one of the group's own issues.
pub proof fn law_preferred_is_a_rule_suggestion(
    text: Seq<u8>,
    issues: Seq<IssueView>,
    prefs: Seq<Seq<char>>,
    groups: Seq<GroupView>,
    k: int,
)
    requires
        report_of(text, issues, prefs, groups),
        0 <= k < groups.len(),
    ensures
        suggests(group_members(issues, groups[k].term_group), groups[k].preferred),
{
    let members = group_members(issues, groups[k].term_group);
    assert(group_correct(text, issues, prefs, groups[k]));
    if glossary_pick(text, members, prefs) is Some {
        lemma_glossary_pick_suggested(text, members, prefs);
    } else {
        lemma_first_suggestion_suggested(members);
    }
}

/// A group reports real mixed usage: it has at least one calque
/// occurrence, and its preferred form occurs in the text too.
pub proof fn law_groups_show_mixed_usage(
    text: Seq<u8>,
    issues: Seq<IssueView>,
    prefs: Seq<Seq<char>>,
    groups: Seq<GroupView>,
    k: int,
)
    requires
        report_of(text, issues, prefs, groups),
        0 <= k < groups.len(),
    ensures
        groups[k].occurrences.len() > 0,
        occurs_in(text, utf8_of(groups[k].preferred)),
{
    assert(group_correct(text, issues, prefs, groups[k]));
    lemma_canonical_has_members(text, group_members(issues, groups[k].term_group), prefs);
}

/// The report is empty exactly when no equivalence class shows mixed usage.
pub proof fn law_empty_report_means_no_mixed_usage(
    text: Seq<u8>,
    issues: Seq<IssueView>,
    prefs: Seq<Seq<char>>,
    groups: Seq<GroupView>,
)
    requires
        report_of(text, issues, prefs, groups),
    ensures
        groups.len() == 0 <==> forall|e: Seq<char>| !reported(text, issues, prefs, e),
{
    if groups.len() > 0 {
        assert(group_correct(text, issues, prefs, groups[0]));
        assert(reported(text, issues, prefs, groups[0].term_group));
    }
}

/// Two strictly ascending sequences with the same elements are equal.
proof fn lemma_ascending_same_elements(a: Seq<Seq<char>>, b: Seq<Seq<char>>)
    requires
        strictly_ascending(a),
        strictly_ascending(b),
        forall|x: Seq<char>| a.contains(x) <==> b.contains(x),
    ensures
        a == b,
    decreases a.len(),
{
    if a.len() == 0 {
        if b.len() > 0 {
            assert(b.contains(b[0]));
        }
        assert(a =~= b);
    } else if b.len() == 0 {
        assert(a.contains(a[0]));
    } else {
        assert(a.contains(a[0]));
        assert(b.contains(b[0]));
        let j = choose|j: int| 0 <= j < b.len() && b[j] == a[0];
        let i = choose|i: int| 0 <= i < a.len() && a[i] == b[0];
        if a[0] != b[0] {
            lemma_str_order(a[0], b[0], a[0]);
            if j > 0 && i > 0 {
                assert(str_before(b[0], a[0]));
                assert(str_before(a[0], b[0]));
                lemma_str_order(a[0], b[0], a[0]);
            }
        }
        assert(a[0] == b[0]);
        let ta = a.drop_first();
        let tb = b.drop_first();
        assert forall|x: Seq<char>| ta.contains(x) <==> tb.contains(x) by {
            if ta.contains(x) {
                let m = choose|m: int| 0 <= m < ta.len() && ta[m] == x;
                assert(a[m + 1] == x);
                lemma_str_order(a[0], x, x);
                assert(a.contains(x));
                let n = choose|n: int| 0 <= n < b.len() && b[n] == x;
                assert(n != 0);
                assert(tb[n - 1] == x);
            }
            if tb.contains(x) {
                let m = choose|m: int| 0 <= m < tb.len() && tb[m] == x;
                assert(b[m + 1] == x);
                lemma_str_order(b[0], x, x);
                assert(b.contains(x));
                let n = choose|n: int| 0 <= n < a.len() && a[n] == x;
                assert(n != 0);
                assert(ta[n - 1] == x);
            }
        }
        lemma_ascending_same_elements(ta, tb);
        assert(a =~= seq![a[0]] + ta);
        assert(b =~= seq![b[0]] + tb);
    }
}

/// The anchors of a sequence of groups.
pub open spec fn group_terms(groups: Seq<GroupView>) -> Seq<Seq<char>> {
    Seq::new(groups.len(), |k: int| groups[k].term_group)
}

/// The report is a function of its inputs: two group sequences that both
/// meet `report_of` for the same text, issues and preferred forms are equal.
pub proof fn law_report_is_determined(
    text: Seq<u8>,
    issues: Seq<IssueView>,
    prefs: Seq<Seq<char>>,
    g1: Seq<GroupView>,
    g2: Seq<GroupView>,
)
    requires
        report_of(text, issues, prefs, g1),
        report_of(text, issues, prefs, g2),
    ensures
        g1 == g2,
{
    let a = group_terms(g1);
    let b = group_terms(g2);
    assert forall|x: Seq<char>| a.contains(x) <==> b.contains(x) by {
        if a.contains(x) {
            let k = choose|k: int| 0 <= k < a.len() && a[k] == x;
            assert(group_correct(text, issues, prefs, g1[k]));
            let m = choose|m: int| 0 <= m < g2.len() && (#[trigger] g2[m]).term_group == x;
            assert(b[m] == x);
        }
        if b.contains(x) {
            let k = choose|k: int| 0 <= k < b.len() && b[k] == x;
            assert(group_correct(text, issues, prefs, g2[k]));
            let m = choose|m: int| 0 <= m < g1.len() && (#[trigger] g1[m]).term_group == x;
            assert(a[m] == x);
        }
    }
    lemma_ascending_same_elements(a, b);
    assert forall|k: int| 0 <= k < g1.len() implies g1[k] == g2[k] by {
        assert(a[k] == b[k]);
        assert(group_correct(text, issues, prefs, g1[k]));
        assert(group_correct(text, issues, prefs, g2[k]));
    }
    assert(g1 =~= g2);
}

// ---------------------------------------------------------------------------
// Laws on eligibility and on the choice of the canonical form.

/// An issue is a cross-strait or confusable finding above `Info` with a
/// non-empty English anchor `e`.
pub open spec fn anchored_finding(i: IssueView, e: Seq<char>) -> bool {
    &&& (i.rule_type == IssueType::CrossStrait || i.rule_type == IssueType::Confusable)
    &&& (i.severity == Severity::Warning || i.severity == Severity::Error)
    &&& i.english == Some(e)
    &&& e.len() > 0
}

proof fn lemma_members_contain(issues: Seq<IssueView>, e: Seq<char>, j: int)
    requires
        0 <= j < issues.len(),
        anchored_finding(issues[j], e),
    ensures
        group_members(issues, e).contains(issues[j]),
    decreases issues.len(),
{
    let rest = group_members(issues.drop_last(), e);
    if j == issues.len() - 1 {
        assert(group_members(issues, e)[rest.len() as int] == issues[j]);
    } else {
        assert(issues.drop_last()[j] == issues[j]);
        lemma_members_contain(issues.drop_last(), e, j);
        let m = choose|m: int| 0 <= m < rest.len() && rest[m] == issues[j];
        assert(group_members(issues, e)[m] == issues[j]);
    }
}

/// Every warning- or error-level cross-strait or confusable finding with a
/// non-empty English anchor belongs to its anchor's group: when that group
/// is reported, the finding is one of its occurrences.
pub proof fn law_warning_and_error_findings_are_grouped(
    text: Seq<u8>,
    issues: Seq<IssueView>,
    prefs: Seq<Seq<char>>,
    groups: Seq<GroupView>,
    j: int,
    k: int,
)
    requires
        report_of(text, issues, prefs, groups),
        0 <= j < issues.len(),
        0 <= k < groups.len(),
        anchored_finding(issues[j], groups[k].term_group),
    ensures
        groups[k].occurrences.contains(occurrence_of(issues[j])),
{
    let e = groups[k].term_group;
    assert(group_correct(text, issues, prefs, groups[k]));
    lemma_members_contain(issues, e, j);
    let mem = group_members(issues, e);
    let m = choose|m: int| 0 <= m < mem.len() && mem[m] == issues[j];
    assert(groups[k].occurrences[m] == occurrence_of(issues[j]));
}

/// The issue at another severity, all else equal.
pub open spec fn at_severity(i: IssueView, s: Severity) -> IssueView {
    IssueView { severity: s, ..i }
}

/// Two member lists that differ at most in severities.
pub open spec fn same_but_severity(a: Seq<IssueView>, b: Seq<IssueView>) -> bool {
    a.len() == b.len() && forall|k: int| 0 <= k < a.len() ==> at_severity(#[trigger] a[k], Severity::Info)
        == at_severity(b[k], Severity::Info)
}

proof fn lemma_members_same_but_severity(issues: Seq<IssueView>, j: int, e: Seq<char>)
    requires
        0 <= j < issues.len(),
        issues[j].severity == Severity::Error,
    ensures
        same_but_severity(
            group_members(issues, e),
            group_members(issues.update(j, at_severity(issues[j], Severity::Warning)), e),
        ),
    decreases issues.len(),
{
    let w = at_severity(issues[j], Severity::Warning);
    let up = issues.update(j, w);
    let a = group_members(issues, e);
    let b = group_members(up, e);
    if j == issues.len() - 1 {
        assert(up.drop_last() =~= issues.drop_last());
        assert(up.last() == w);
        assert(at_severity(issues[j], Severity::Info) == at_severity(w, Severity::Info));
        let r = group_members(issues.drop_last(), e);
        assert forall|k: int| 0 <= k < a.len() implies at_severity(#[trigger] a[k], Severity::Info)
            == at_severity(b[k], Severity::Info) by {
            if k < r.len() {
                assert(a[k] == r[k] && b[k] == r[k]);
            }
        }
    } else {
        assert(up.drop_last() =~= issues.drop_last().update(j, w));
        assert(issues.drop_last()[j] == issues[j]);
        lemma_members_same_but_severity(issues.drop_last(), j, e);
        let ra = group_members(issues.drop_last(), e);
        let rb = group_members(up.drop_last(), e);
        assert(up.last() == issues.last());
        assert forall|k: int| 0 <= k < a.len() implies at_severity(#[trigger] a[k], Severity::Info)
            == at_severity(b[k], Severity::Info) by {
            if k < ra.len() {
                assert(a[k] == ra[k] && b[k] == rb[k]);
                assert(at_severity(ra[k], Severity::Info) == at_severity(rb[k], Severity::Info));
            }
        }
    }
}

proof fn lemma_same_but_severity_choice(text: Seq<u8>, a: Seq<IssueView>, b: Seq<IssueView>, prefs: Seq<Seq<char>>)
    requires
        same_but_severity(a, b),
    ensures
        canonical_form(text, a, prefs) == canonical_form(text, b, prefs),
        occurrences_of(a) == occurrences_of(b),
{
    assert forall|k: int| 0 <= k < a.len() implies #[trigger] a[k].suggestions == b[k].suggestions
        && occurrence_of(a[k]) == occurrence_of(b[k]) by {
        assert(at_severity(a[k], Severity::Info) == at_severity(b[k], Severity::Info));
    }
    assert forall|p: Seq<char>| suggests(a, p) == suggests(b, p) by {
        if suggests(a, p) {
            let m = choose|m: int| 0 <= m < a.len() && listed(#[trigger] a[m].suggestions, p);
            assert(listed(b[m].suggestions, p));
        }
        if suggests(b, p) {
            let m = choose|m: int| 0 <= m < b.len() && listed(#[trigger] b[m].suggestions, p);
            assert(a[m].suggestions == b[m].suggestions);
        }
    }
    lemma_pick_same(text, a, b, prefs);
    lemma_first_suggestion_same(a, b);
    assert(occurrences_of(a) =~= occurrences_of(b));
}

proof fn lemma_pick_same(text: Seq<u8>, a: Seq<IssueView>, b: Seq<IssueView>, prefs: Seq<Seq<char>>)
    requires
        forall|p: Seq<char>| suggests(a, p) == suggests(b, p),
    ensures
        glossary_pick(text, a, prefs) == glossary_pick(text, b, prefs),
    decreases prefs.len(),
{
    if prefs.len() > 0 {
        lemma_pick_same(text, a, b, prefs.drop_first());
    }
}

proof fn lemma_first_suggestion_same(a: Seq<IssueView>, b: Seq<IssueView>)
    requires
        a.len() == b.len(),
        forall|k: int| 0 <= k < a.len() ==> (#[trigger] a[k]).suggestions == b[k].suggestions,
    ensures
        first_suggestion(a) == first_suggestion(b),
    decreases a.len(),
{
    if a.len() > 0 {
        assert(a[0].suggestions == b[0].suggestions);
        assert forall|k: int| 0 <= k < a.drop_first().len() implies (#[trigger] a.drop_first()[k]).suggestions
            == b.drop_first()[k].suggestions by {
            assert(a[k + 1].suggestions == b[k + 1].suggestions);
        }
        lemma_first_suggestion_same(a.drop_first(), b.drop_first());
    }
}

/// Severity counts only as "not `Info`": raising a finding from `Warning`
/// to `Error` (or lowering it back) leaves the consistency report as it is.
pub proof fn law_error_counts_like_warning(
    text: Seq<u8>,
    issues: Seq<IssueView>,
    prefs: Seq<Seq<char>>,
    groups: Seq<GroupView>,
    j: int,
)
    requires
        0 <= j < issues.len(),
        issues[j].severity == Severity::Error,
    ensures
        report_of(text, issues, prefs, groups) == report_of(
            text,
            issues.update(j, at_severity(issues[j], Severity::Warning)),
            prefs,
            groups,
        ),
{
    let up = issues.update(j, at_severity(issues[j], Severity::Warning));
    assert forall|e: Seq<char>|
        canonical_form(text, group_members(issues, e), prefs) == canonical_form(
            text,
            #[trigger] group_members(up, e),
            prefs,
        ) && occurrences_of(group_members(issues, e)) == occurrences_of(group_members(up, e)) by {
        lemma_members_same_but_severity(issues, j, e);
        lemma_same_but_severity_choice(text, group_members(issues, e), group_members(up, e), prefs);
    }
    assert forall|e: Seq<char>| #[trigger] reported(text, up, prefs, e) == reported(text, issues, prefs, e) by {
        assert(canonical_form(text, group_members(issues, e), prefs) == canonical_form(
            text,
            group_members(up, e),
            prefs,
        ));
    }
    assert forall|g: GroupView| #[trigger] group_correct(text, up, prefs, g) == group_correct(
        text,
        issues,
        prefs,
        g,
    ) by {
        assert(canonical_form(text, group_members(issues, g.term_group), prefs) == canonical_form(
            text,
            group_members(up, g.term_group),
            prefs,
        ));
    }
    if report_of(text, issues, prefs, groups) {
        assert forall|e: Seq<char>| reported(text, up, prefs, e) implies exists|k: int|
            0 <= k < groups.len() && (#[trigger] groups[k]).term_group == e by {
            assert(reported(text, issues, prefs, e));
        }
        assert forall|k: int| 0 <= k < groups.len() implies group_correct(text, up, prefs, #[trigger] groups[k]) by {
            assert(group_correct(text, issues, prefs, groups[k]));
        }
    }
    if report_of(text, up, prefs, groups) {
        assert forall|e: Seq<char>| reported(text, issues, prefs, e) implies exists|k: int|
            0 <= k < groups.len() && (#[trigger] groups[k]).term_group == e by {
            assert(reported(text, up, prefs, e));
        }
        assert forall|k: int| 0 <= k < groups.len() implies group_correct(text, issues, prefs, #[trigger] groups[k]) by {
            assert(group_correct(text, up, prefs, groups[k]));
        }
    }
}

/// A glossary preferred form may serve as a group's canonical form: it is
/// non-empty, occurs in the text, and some member lists it as a suggestion.
pub open spec fn acceptable_preferred(text: Seq<u8>, members: Seq<IssueView>, p: Seq<char>) -> bool {
    &&& p.len() > 0
    &&& occurs_in(text, utf8_of(p))
    &&& exists|m: int, s: int|
        0 <= m < members.len() && 0 <= s < members[m].suggestions.len() && #[trigger] members[m].suggestions[s]
            == p
}

proof fn lemma_acceptable_is_pick_condition(text: Seq<u8>, members: Seq<IssueView>, p: Seq<char>)
    ensures
        acceptable_preferred(text, members, p) == (p.len() > 0 && occurs_in(text, utf8_of(p))
            && suggests(members, p)),
{
    if suggests(members, p) {
        let m = choose|m: int| 0 <= m < members.len() && listed(#[trigger] members[m].suggestions, p);
        let s = choose|s: int| 0 <= s < members[m].suggestions.len() && members[m].suggestions[s] == p;
        assert(members[m].suggestions[s] == p);
    }
    if exists|m: int, s: int|
        0 <= m < members.len() && 0 <= s < members[m].suggestions.len() && #[trigger] members[m].suggestions[s]
            == p {
        let (m, s) = choose|m: int, s: int|
            0 <= m < members.len() && 0 <= s < members[m].suggestions.len() && #[trigger] members[m].suggestions[s]
                == p;
        assert(listed(members[m].suggestions, p));
    }
}

/// The first acceptable glossary preferred form wins: whatever comes before
/// it in the glossary and is not acceptable does not stop the search.
pub proof fn law_first_acceptable_preferred_wins(
    text: Seq<u8>,
    members: Seq<IssueView>,
    prefs: Seq<Seq<char>>,
    t: int,
)
    requires
        0 <= t < prefs.len(),
        acceptable_preferred(text, members, prefs[t]),
        forall|u: int| 0 <= u < t ==> !acceptable_preferred(text, members, #[trigger] prefs[u]),
    ensures
        canonical_form(text, members, prefs) == Some(prefs[t]),
    decreases t,
{
    lemma_acceptable_is_pick_condition(text, members, prefs[0]);
    if t > 0 {
        let rest = prefs.drop_first();
        assert(!acceptable_preferred(text, members, prefs[0]));
        assert(rest[t - 1] == prefs[t]);
        assert forall|u: int| 0 <= u < t - 1 implies !acceptable_preferred(text, members, #[trigger] rest[u]) by {
            assert(rest[u] == prefs[u + 1]);
        }
        law_first_acceptable_preferred_wins(text, members, rest, t - 1);
        assert(glossary_pick(text, members, prefs) == glossary_pick(text, members, rest));
    }
}

/// A glossary preferred form that is not acceptable has no effect: dropping
/// it from the glossary leaves every group's canonical form unchanged.
pub proof fn law_unacceptable_preferred_is_ignored(
    text: Seq<u8>,
    members: Seq<IssueView>,
    prefs: Seq<Seq<char>>,
    u: int,
)
    requires
        0 <= u < prefs.len(),
        !acceptable_preferred(text, members, prefs[u]),
    ensures
        canonical_form(text, members, prefs) == canonical_form(text, members, prefs.remove(u)),
    decreases u,
{
    lemma_acceptable_is_pick_condition(text, members, prefs[0]);
    if u == 0 {
        assert(prefs.remove(0) =~= prefs.drop_first());
    } else {
        let rest = prefs.drop_first();
        assert(rest[u - 1] == prefs[u]);
        law_unacceptable_preferred_is_ignored(text, members, rest, u - 1);
        assert(prefs.remove(u).drop_first() =~= rest.remove(u - 1));
        assert(prefs.remove(u)[0] == prefs[0]);
        assert(glossary_pick(text, members, prefs.remove(u)) == glossary_pick(text, members, rest.remove(u - 1))
            || (glossary_pick(text, members, prefs.remove(u)) == Some(prefs[0])));
    }
}

/// In the report, a class whose members admit an acceptable glossary
/// preferred form is reported, with the first such form as its preferred
/// form.
pub proof fn law_report_uses_first_acceptable_preferred(
    text: Seq<u8>,
    issues: Seq<IssueView>,
    prefs: Seq<Seq<char>>,
    groups: Seq<GroupView>,
    e: Seq<char>,
    t: int,
)
    requires
        report_of(text, issues, prefs, groups),
        0 <= t < prefs.len(),
        acceptable_preferred(text, group_members(issues, e), prefs[t]),
        forall|u: int| 0 <= u < t ==> !acceptable_preferred(text, group_members(issues, e), #[trigger] prefs[u]),
    ensures
        exists|k: int| 0 <= k < groups.len() && (#[trigger] groups[k]).term_group == e && groups[k].preferred == prefs[t],
{
    law_first_acceptable_preferred_wins(text, group_members(issues, e), prefs, t);
    assert(reported(text, issues, prefs, e));
    let k = choose|k: int| 0 <= k < groups.len() && (#[trigger] groups[k]).term_group == e;
    assert(group_correct(text, issues, prefs, groups[k]));
}

} // verus!
