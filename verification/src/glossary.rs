use vstd::prelude::*;

use crate::excluded::{is_excluded, span_excluded, ByteRange};
use crate::issue::{issues_view, strings_view, Issue, IssueType, IssueView, Severity};
use crate::order::{lemma_stable_sort_members, lemma_stable_sort_sorted, sorted_by, stable_sort, upper_bound};
use crate::text::{
    find_from, first_match_from, lemma_first_match_from, list_contains, listed, matches_at, utf8_of,
};

verus! {

/// The project's own terminology choices, applied after the embedded
/// ruleset: `banned` terms always fire, `preferred` forms pick the canonical
/// suggestion of a consistency group, and `proper_nouns` are never flagged.
#[derive(Debug, Clone)]
pub struct ProjectGlossary {
    pub banned: Vec<String>,
    pub preferred: Vec<String>,
    pub proper_nouns: Vec<String>,
}

/// The model of a glossary: its three term lists as character sequences.
pub struct GlossaryView {
    pub banned: Seq<Seq<char>>,
    pub preferred: Seq<Seq<char>>,
    pub proper_nouns: Seq<Seq<char>>,
}

impl View for ProjectGlossary {
    type V = GlossaryView;

    open spec fn view(&self) -> GlossaryView {
        GlossaryView {
            banned: strings_view(self.banned@),
            preferred: strings_view(self.preferred@),
            proper_nouns: strings_view(self.proper_nouns@),
        }
    }
}

/// A glossary with no terms in any of its lists.
pub open spec fn glossary_blank(g: GlossaryView) -> bool {
    g.banned.len() == 0 && g.preferred.len() == 0 && g.proper_nouns.len() == 0
}

impl Default for ProjectGlossary {
    fn default() -> (g: ProjectGlossary)
        ensures
            glossary_blank(g@),
    {
        ProjectGlossary { banned: Vec::new(), preferred: Vec::new(), proper_nouns: Vec::new() }
    }
}

impl ProjectGlossary {
    /// No list of the glossary holds a term.
    pub fn is_empty(&self) -> (r: bool)
        ensures
            r == glossary_blank(self@),
    {
        self.banned.is_empty() && self.preferred.is_empty() && self.proper_nouns.is_empty()
    }
}

/// Mark an issue as reporting a glossary banned term.
pub fn mark_glossary_banned(issue: &mut Issue)
    ensures
        *final(issue) == (Issue { glossary_banned: true, ..*old(issue) }),
{
    issue.glossary_banned = true;
}

/// Whether the issue reports a glossary banned term (and so must not be
/// downgraded by translation memory).
pub fn is_glossary_banned(issue: &Issue) -> (r: bool)
    ensures
        r == issue.glossary_banned,
{
    issue.glossary_banned
}

// ---------------------------------------------------------------------------
// What applying a glossary does, on the models of issues.

/// The issues whose `found` text is not a proper noun, in their order.
pub open spec fn without_proper_nouns(issues: Seq<IssueView>, nouns: Seq<Seq<char>>) -> Seq<IssueView>
    decreases issues.len(),
{
    if issues.len() == 0 {
        issues
    } else {
        let rest = without_proper_nouns(issues.drop_last(), nouns);
        if listed(nouns, issues.last().found) {
            rest
        } else {
            rest.push(issues.last())
        }
    }
}

/// The issue's byte span contains `[start, start + len)`.
pub open spec fn covers(i: IssueView, start: int, len: int) -> bool {
    i.offset <= start && start + len <= i.offset + i.length
}

/// The first index at or after `k` whose issue covers `[start, start + len)`.
pub open spec fn first_cover_from(v: Seq<IssueView>, start: int, len: int, k: int) -> Option<int>
    decreases v.len() - k,
{
    if k < 0 || k >= v.len() {
        None
    } else if covers(v[k], start, len) {
        Some(k)
    } else {
        first_cover_from(v, start, len, k + 1)
    }
}

/// An issue raised to `Error` and marked as reporting a banned term.
pub open spec fn upgraded(i: IssueView) -> IssueView {
    IssueView { severity: Severity::Error, glossary_banned: true, ..i }
}

/// The issue that reports an occurrence of a banned term nobody flagged.
pub open spec fn banned_hit(term: Seq<char>, start: int, len: int) -> IssueView {
    IssueView {
        offset: start,
        length: len,
        line: 0,
        col: 0,
        found: term,
        suggestions: Seq::empty(),
        rule_type: IssueType::CrossStrait,
        severity: Severity::Error,
        context: None,
        english: None,
        glossary_banned: true,
    }
}

/// One occurrence of a banned term: the first issue covering it is
/// upgraded; when none does, a new banned-term issue is appended.
pub open spec fn record_hit(v: Seq<IssueView>, term: Seq<char>, start: int, len: int) -> Seq<IssueView> {
    match first_cover_from(v, start, len, 0) {
        Some(k) => v.update(k, upgraded(v[k])),
        None => v.push(banned_hit(term, start, len)),
    }
}

/// Enforce one banned term on every leftmost, non-overlapping occurrence
/// in `text` from byte `from` on, skipping occurrences that overlap an
/// excluded range.
pub open spec fn enforce_term_from(
    v: Seq<IssueView>,
    text: Seq<u8>,
    excluded: Seq<ByteRange>,
    term: Seq<char>,
    from: int,
) -> Seq<IssueView>
    decreases text.len() + 1 - from,
{
    let needle = utf8_of(term);
    if needle.len() == 0 || from < 0 {
        v
    } else {
        match first_match_from(text, needle, from) {
            None => v,
            Some(at) => {
                proof {
                    lemma_first_match_from(text, needle, from);
                }
                let end = at + needle.len();
                let w = if span_excluded(at, end, excluded) {
                    v
                } else {
                    record_hit(v, term, at, needle.len() as int)
                };
                enforce_term_from(w, text, excluded, term, end)
            },
        }
    }
}

/// Enforce each banned term in turn, in list order.
pub open spec fn enforce_terms(
    v: Seq<IssueView>,
    text: Seq<u8>,
    excluded: Seq<ByteRange>,
    terms: Seq<Seq<char>>,
) -> Seq<IssueView>
    decreases terms.len(),
{
    if terms.len() == 0 {
        v
    } else {
        enforce_terms(
            enforce_term_from(v, text, excluded, terms[0], 0),
            text,
            excluded,
            terms.drop_first(),
        )
    }
}

/// An issue's byte offset, the key its list is sorted by.
pub open spec fn by_offset() -> spec_fn(IssueView) -> int {
    |i: IssueView| i.offset
}

/// The issue list after applying a glossary: unchanged for a blank
/// glossary; otherwise proper nouns suppressed, banned terms enforced, and
/// the list stably sorted by offset.
pub open spec fn glossary_outcome(
    text: Seq<u8>,
    excluded: Seq<ByteRange>,
    issues: Seq<IssueView>,
    g: GlossaryView,
) -> Seq<IssueView> {
    if glossary_blank(g) {
        issues
    } else {
        stable_sort(
            enforce_terms(without_proper_nouns(issues, g.proper_nouns), text, excluded, g.banned),
            by_offset(),
        )
    }
}

// ---------------------------------------------------------------------------
// Executable steps.

/// Drop the issues whose `found` text is one of `nouns`.
fn drop_proper_nouns(issues: Vec<Issue>, nouns: &Vec<String>) -> (out: Vec<Issue>)
    ensures
        issues_view(out@) == without_proper_nouns(issues_view(issues@), strings_view(nouns@)),
{
    let ghost orig = issues_view(issues@);
    let ghost nv = strings_view(nouns@);
    let mut rest = issues;
    let mut kept: Vec<Issue> = Vec::new();
    let ghost mut m: int = 0;
    while rest.len() > 0
        invariant
            0 <= m <= orig.len(),
            rest@.len() == orig.len() - m,
            issues_view(rest@) == orig.skip(m),
            issues_view(kept@) == without_proper_nouns(orig.take(m), nv),
            nv == strings_view(nouns@),
        decreases rest@.len(),
    {
        let ghost before = kept@;
        let ghost old_rest = rest@;
        let x = rest.remove(0);
        proof {
            assert forall|k: int| 0 <= k < rest@.len() implies issues_view(rest@)[k] == orig.skip(
                m + 1,
            )[k] by {
                assert(rest@[k] == old_rest[k + 1]);
                assert(issues_view(old_rest)[k + 1] == orig.skip(m)[k + 1]);
            }
            assert(issues_view(rest@) =~= orig.skip(m + 1));
            assert(orig.skip(m)[0] == x@);
            assert(orig.take(m + 1).drop_last() =~= orig.take(m));
            assert(orig.take(m + 1).last() == x@);
        }
        if !list_contains(nouns, &x.found) {
            kept.push(x);
            proof {
                assert(issues_view(kept@) =~= issues_view(before).push(x@));
            }
        }
        proof {
            m = m + 1;
        }
    }
    proof {
        assert(orig.take(orig.len() as int) =~= orig);
    }
    kept
}

/// The first issue whose span contains `[start, start + len)`.
fn first_covering(issues: &Vec<Issue>, start: usize, len: usize) -> (r: Option<usize>)
    requires
        start + len <= usize::MAX,
    ensures
        r matches Some(k) ==> k < issues@.len() && first_cover_from(
            issues_view(issues@),
            start as int,
            len as int,
            0,
        ) == Some(k as int),
        r is None ==> first_cover_from(issues_view(issues@), start as int, len as int, 0) is None,
{
    let ghost v = issues_view(issues@);
    let mut k: usize = 0;
    while k < issues.len()
        invariant
            k <= issues@.len(),
            start + len <= usize::MAX,
            v == issues_view(issues@),
            first_cover_from(v, start as int, len as int, 0) == first_cover_from(
                v,
                start as int,
                len as int,
                k as int,
            ),
        decreases issues@.len() - k,
    {
        let it = &issues[k];
        if it.offset <= start && (start - it.offset) + len <= it.length {
            assert(covers(v[k as int], start as int, len as int));
            return Some(k);
        }
        k = k + 1;
    }
    None
}

/// Report one occurrence of a banned term: upgrade the first covering issue,
/// or append a new banned-term issue.
fn record_banned_hit(issues: &mut Vec<Issue>, term: &String, start: usize, len: usize)
    requires
        start + len <= usize::MAX,
    ensures
        issues_view(final(issues)@) == record_hit(issues_view(old(issues)@), term@, start as int, len as int),
{
    let ghost v = issues_view(issues@);
    match first_covering(issues, start, len) {
        Some(k) => {
            issues[k].severity = Severity::Error;
            mark_glossary_banned(&mut issues[k]);
            proof {
                assert(issues_view(issues@) =~= v.update(k as int, upgraded(v[k as int])));
            }
        },
        None => {
            let mut synthetic = Issue::new(
                start,
                len,
                term.clone(),
                Vec::new(),
                IssueType::CrossStrait,
                Severity::Error,
            );
            mark_glossary_banned(&mut synthetic);
            issues.push(synthetic);
            proof {
                assert(synthetic@.suggestions =~= Seq::<Seq<char>>::empty());
                assert(issues_view(issues@) =~= v.push(banned_hit(term@, start as int, len as int)));
            }
        },
    }
}

/// Enforce one banned term over the whole text.
fn enforce_term(text: &[u8], excluded: &[ByteRange], issues: &mut Vec<Issue>, term: &String)
    ensures
        issues_view(final(issues)@) == enforce_term_from(
            issues_view(old(issues)@),
            text@,
            excluded@,
            term@,
            0,
        ),
{
    let needle = term.as_str().as_bytes();
    let n = needle.len();
    if n == 0 {
        return;
    }
    let ghost target = enforce_term_from(issues_view(issues@), text@, excluded@, term@, 0);
    let tl = text.len();
    let mut start: usize = 0;
    loop
        invariant
            tl == text@.len(),
            target == enforce_term_from(issues_view(old(issues)@), text@, excluded@, term@, 0),
            needle@ == utf8_of(term@),
            n == needle@.len(),
            n > 0,
            start <= text@.len(),
            enforce_term_from(issues_view(issues@), text@, excluded@, term@, start as int) == target,
        decreases text@.len() - start,
    {
        match find_from(text, needle, start) {
            None => {
                assert(enforce_term_from(issues_view(issues@), text@, excluded@, term@, start as int)
                    == issues_view(issues@));
                return;
            },
            Some(at) => {
                proof {
                    lemma_first_match_from(text@, needle@, start as int);
                }
                let end = at + n;
                if !is_excluded(at, end, excluded) {
                    record_banned_hit(issues, term, at, n);
                }
                start = end;
            },
        }
    }
}

/// Enforce every banned term, in list order.
fn enforce_banned_terms(
    text: &[u8],
    excluded: &[ByteRange],
    issues: &mut Vec<Issue>,
    terms: &Vec<String>,
)
    ensures
        issues_view(final(issues)@) == enforce_terms(
            issues_view(old(issues)@),
            text@,
            excluded@,
            strings_view(terms@),
        ),
{
    let ghost tv = strings_view(terms@);
    let ghost target = enforce_terms(issues_view(issues@), text@, excluded@, tv);
    proof {
        assert(tv.skip(0) =~= tv);
    }
    let mut t: usize = 0;
    while t < terms.len()
        invariant
            t <= terms@.len(),
            tv == strings_view(terms@),
            enforce_terms(issues_view(issues@), text@, excluded@, tv.skip(t as int)) == target,
        decreases terms@.len() - t,
    {
        proof {
            assert(tv.skip(t as int).drop_first() =~= tv.skip(t + 1));
            assert(tv.skip(t as int)[0] == terms@[t as int]@);
        }
        enforce_term(text, excluded, issues, &terms[t]);
        t = t + 1;
    }
    proof {
        assert(tv.skip(t as int) =~= Seq::<Seq<char>>::empty());
    }
}

/// Where an issue at byte `offset` goes in `sorted`: after every issue
/// whose offset is at most `offset`.
fn offset_insert_position(sorted: &Vec<Issue>, offset: usize) -> (p: usize)
    ensures
        p as int == upper_bound(issues_view(sorted@), offset as int, by_offset()),
{
    let ghost s = issues_view(sorted@);
    proof {
        assert(s.skip(0) =~= s);
    }
    let mut j: usize = 0;
    while j < sorted.len()
        invariant
            j <= sorted@.len(),
            s == issues_view(sorted@),
            upper_bound(s, offset as int, by_offset()) == j + upper_bound(
                s.skip(j as int),
                offset as int,
                by_offset(),
            ),
        decreases sorted@.len() - j,
    {
        proof {
            assert(s.skip(j as int)[0] == s[j as int]);
            assert(s.skip(j as int).drop_first() =~= s.skip(j + 1));
        }
        if sorted[j].offset > offset {
            return j;
        }
        j = j + 1;
    }
    proof {
        assert(s.skip(j as int).len() == 0);
    }
    j
}

/// Stably sort issues by byte offset.
pub fn sort_issues_by_offset(issues: Vec<Issue>) -> (out: Vec<Issue>)
    ensures
        issues_view(out@) == stable_sort(issues_view(issues@), by_offset()),
{
    let ghost orig = issues_view(issues@);
    let mut rest = issues;
    let mut sorted: Vec<Issue> = Vec::new();
    let ghost mut m: int = 0;
    while rest.len() > 0
        invariant
            0 <= m <= orig.len(),
            rest@.len() == orig.len() - m,
            issues_view(rest@) == orig.skip(m),
            issues_view(sorted@) == stable_sort(orig.take(m), by_offset()),
        decreases rest@.len(),
    {
        let ghost old_rest = rest@;
        let x = rest.remove(0);
        proof {
            assert forall|k: int| 0 <= k < rest@.len() implies issues_view(rest@)[k] == orig.skip(
                m + 1,
            )[k] by {
                assert(rest@[k] == old_rest[k + 1]);
                assert(issues_view(old_rest)[k + 1] == orig.skip(m)[k + 1]);
            }
            assert(issues_view(rest@) =~= orig.skip(m + 1));
            assert(orig.skip(m)[0] == x@);
            assert(orig.take(m + 1).drop_last() =~= orig.take(m));
            assert(orig.take(m + 1).last() == x@);
        }
        let ghost before = issues_view(sorted@);
        let p = offset_insert_position(&sorted, x.offset);
        proof {
            crate::order::lemma_upper_bound_range(before, x.offset as int, by_offset());
        }
        sorted.insert(p, x);
        proof {
            assert(issues_view(sorted@) =~= before.insert(p as int, x@));
            m = m + 1;
        }
    }
    proof {
        assert(orig.take(orig.len() as int) =~= orig);
    }
    sorted
}

/// Apply glossary precedence to a freshly scanned issue list: suppress
/// issues whose `found` text is a proper noun, make every occurrence of a
/// banned term (outside excluded ranges) fire at `Error`, and return the
/// list sorted by offset. A blank glossary leaves the list as it is.
/// Banned-term issues added here carry line and column 0.
pub fn apply_glossary(
    text: &str,
    excluded: &[ByteRange],
    issues: Vec<Issue>,
    glossary: &ProjectGlossary,
) -> (out: Vec<Issue>)
    ensures
        issues_view(out@) == glossary_outcome(
            utf8_of(text@),
            excluded@,
            issues_view(issues@),
            glossary@,
        ),
{
    if glossary.is_empty() {
        return issues;
    }
    let mut kept = drop_proper_nouns(issues, &glossary.proper_nouns);
    enforce_banned_terms(text.as_bytes(), excluded, &mut kept, &glossary.banned);
    sort_issues_by_offset(kept)
}

// ---------------------------------------------------------------------------
// Laws of glossary application.

/// `at` is one of the leftmost, non-overlapping occurrences of `needle`
/// that a scan of `text` from byte `from` visits.
pub open spec fn scanned(text: Seq<u8>, needle: Seq<u8>, from: int, at: int) -> bool
    decreases text.len() + 1 - from,
{
    if needle.len() == 0 || from < 0 {
        false
    } else {
        match first_match_from(text, needle, from) {
            None => false,
            Some(m) => {
                proof {
                    lemma_first_match_from(text, needle, from);
                }
                m == at || scanned(text, needle, m + needle.len(), at)
            },
        }
    }
}

/// Some issue of `v` covers `[at, at + len)`, at `Error`, marked banned.
pub open spec fn fires_at(v: Seq<IssueView>, at: int, len: int) -> bool {
    exists|k: int|
        0 <= k < v.len() && covers(#[trigger] v[k], at, len) && v[k].severity == Severity::Error
            && v[k].glossary_banned
}

/// A scanned position is an occurrence of the needle.
pub proof fn lemma_scanned_is_match(text: Seq<u8>, needle: Seq<u8>, from: int, at: int)
    requires
        scanned(text, needle, from, at),
    ensures
        matches_at(text, needle, at),
    decreases text.len() + 1 - from,
{
    lemma_first_match_from(text, needle, from);
    let m = first_match_from(text, needle, from)->0;
    if m != at {
        lemma_scanned_is_match(text, needle, m + needle.len(), at);
    }
}

proof fn lemma_first_cover_from(v: Seq<IssueView>, start: int, len: int, k: int)
    requires
        0 <= k,
    ensures
        first_cover_from(v, start, len, k) matches Some(c) ==> k <= c < v.len() && covers(
            v[c],
            start,
            len,
        ),
    decreases v.len() - k,
{
    if k < v.len() && !covers(v[k], start, len) {
        lemma_first_cover_from(v, start, len, k + 1);
    }
}

proof fn lemma_record_hit_fires(v: Seq<IssueView>, term: Seq<char>, start: int, len: int)
    ensures
        fires_at(record_hit(v, term, start, len), start, len),
{
    lemma_first_cover_from(v, start, len, 0);
    let w = record_hit(v, term, start, len);
    match first_cover_from(v, start, len, 0) {
        Some(c) => {
            assert(covers(w[c], start, len));
        },
        None => {
            assert(covers(w[v.len() as int], start, len));
        },
    }
}

proof fn lemma_record_hit_keeps_firing(
    v: Seq<IssueView>,
    term: Seq<char>,
    start: int,
    len: int,
    at: int,
    l: int,
)
    requires
        fires_at(v, at, l),
    ensures
        fires_at(record_hit(v, term, start, len), at, l),
{
    lemma_first_cover_from(v, start, len, 0);
    let w = record_hit(v, term, start, len);
    let k = choose|k: int|
        0 <= k < v.len() && covers(#[trigger] v[k], at, l) && v[k].severity == Severity::Error
            && v[k].glossary_banned;
    assert(covers(w[k], at, l) && w[k].severity == Severity::Error && w[k].glossary_banned);
}

proof fn lemma_enforce_term_keeps_firing(
    v: Seq<IssueView>,
    text: Seq<u8>,
    excluded: Seq<ByteRange>,
    term: Seq<char>,
    from: int,
    at: int,
    l: int,
)
    requires
        fires_at(v, at, l),
    ensures
        fires_at(enforce_term_from(v, text, excluded, term, from), at, l),
    decreases text.len() + 1 - from,
{
    let needle = utf8_of(term);
    if needle.len() > 0 && from >= 0 {
        if let Some(m) = first_match_from(text, needle, from) {
            lemma_first_match_from(text, needle, from);
            let end = m + needle.len();
            let w = if span_excluded(m, end, excluded) {
                v
            } else {
                lemma_record_hit_keeps_firing(v, term, m, needle.len() as int, at, l);
                record_hit(v, term, m, needle.len() as int)
            };
            lemma_enforce_term_keeps_firing(w, text, excluded, term, end, at, l);
        }
    }
}

proof fn lemma_enforce_terms_keeps_firing(
    v: Seq<IssueView>,
    text: Seq<u8>,
    excluded: Seq<ByteRange>,
    terms: Seq<Seq<char>>,
    at: int,
    l: int,
)
    requires
        fires_at(v, at, l),
    ensures
        fires_at(enforce_terms(v, text, excluded, terms), at, l),
    decreases terms.len(),
{
    if terms.len() > 0 {
        lemma_enforce_term_keeps_firing(v, text, excluded, terms[0], 0, at, l);
        lemma_enforce_terms_keeps_firing(
            enforce_term_from(v, text, excluded, terms[0], 0),
            text,
            excluded,
            terms.drop_first(),
            at,
            l,
        );
    }
}

proof fn lemma_enforce_term_fires(
    v: Seq<IssueView>,
    text: Seq<u8>,
    excluded: Seq<ByteRange>,
    term: Seq<char>,
    from: int,
    at: int,
)
    requires
        scanned(text, utf8_of(term), from, at),
        !span_excluded(at, at + utf8_of(term).len(), excluded),
    ensures
        fires_at(enforce_term_from(v, text, excluded, term, from), at, utf8_of(term).len() as int),
    decreases text.len() + 1 - from,
{
    let needle = utf8_of(term);
    let n = needle.len() as int;
    lemma_first_match_from(text, needle, from);
    let m = first_match_from(text, needle, from)->0;
    let end = m + n;
    let w = if span_excluded(m, end, excluded) {
        v
    } else {
        record_hit(v, term, m, n)
    };
    if m == at {
        lemma_record_hit_fires(v, term, m, n);
        lemma_enforce_term_keeps_firing(w, text, excluded, term, end, at, n);
    } else {
        lemma_enforce_term_fires(w, text, excluded, term, end, at);
    }
}

proof fn lemma_enforce_terms_fire(
    v: Seq<IssueView>,
    text: Seq<u8>,
    excluded: Seq<ByteRange>,
    terms: Seq<Seq<char>>,
    j: int,
    at: int,
)
    requires
        0 <= j < terms.len(),
        scanned(text, utf8_of(terms[j]), 0, at),
        !span_excluded(at, at + utf8_of(terms[j]).len(), excluded),
    ensures
        fires_at(enforce_terms(v, text, excluded, terms), at, utf8_of(terms[j]).len() as int),
    decreases terms.len(),
{
    let w = enforce_term_from(v, text, excluded, terms[0], 0);
    if j == 0 {
        lemma_enforce_term_fires(v, text, excluded, terms[0], 0, at);
        lemma_enforce_terms_keeps_firing(
            w,
            text,
            excluded,
            terms.drop_first(),
            at,
            utf8_of(terms[0]).len() as int,
        );
    } else {
        assert(terms.drop_first()[j - 1] == terms[j]);
        lemma_enforce_terms_fire(w, text, excluded, terms.drop_first(), j - 1, at);
    }
}

/// A blank glossary hands the issue list back unchanged.
pub proof fn law_blank_glossary_passes_through(
    text: Seq<u8>,
    excluded: Seq<ByteRange>,
    issues: Seq<IssueView>,
    g: GlossaryView,
)
    requires
        glossary_blank(g),
    ensures
        glossary_outcome(text, excluded, issues, g) == issues,
{
}

/// After applying a glossary with any term, the issues ascend by offset.
pub proof fn law_glossary_output_sorted_by_offset(
    text: Seq<u8>,
    excluded: Seq<ByteRange>,
    issues: Seq<IssueView>,
    g: GlossaryView,
)
    requires
        !glossary_blank(g),
    ensures
        sorted_by(glossary_outcome(text, excluded, issues, g), by_offset()),
{
    lemma_stable_sort_sorted(
        enforce_terms(without_proper_nouns(issues, g.proper_nouns), text, excluded, g.banned),
        by_offset(),
    );
}

/// Banned terms always fire: every occurrence of a non-empty banned term
/// that the leftmost, non-overlapping scan visits and that overlaps no
/// excluded range is covered by an `Error` issue marked as banned.
pub proof fn law_banned_terms_always_fire(
    text: Seq<u8>,
    excluded: Seq<ByteRange>,
    issues: Seq<IssueView>,
    g: GlossaryView,
    j: int,
    at: int,
)
    requires
        0 <= j < g.banned.len(),
        scanned(text, utf8_of(g.banned[j]), 0, at),
        !span_excluded(at, at + utf8_of(g.banned[j]).len(), excluded),
    ensures
        fires_at(glossary_outcome(text, excluded, issues, g), at, utf8_of(g.banned[j]).len() as int),
{
    let pre = enforce_terms(without_proper_nouns(issues, g.proper_nouns), text, excluded, g.banned);
    let n = utf8_of(g.banned[j]).len() as int;
    lemma_enforce_terms_fire(without_proper_nouns(issues, g.proper_nouns), text, excluded, g.banned, j, at);
    lemma_stable_sort_members(pre, by_offset());
    let out = stable_sort(pre, by_offset());
    let k = choose|k: int|
        0 <= k < pre.len() && covers(#[trigger] pre[k], at, n) && pre[k].severity == Severity::Error
            && pre[k].glossary_banned;
    assert(pre.contains(pre[k]));
    assert(out.contains(pre[k]));
    let m = choose|m: int| 0 <= m < out.len() && out[m] == pre[k];
    assert(covers(out[m], at, n));
}

/// Every issue of `v` whose text is a proper noun reports a banned term.
pub open spec fn proper_nouns_only_banned(v: Seq<IssueView>, g: GlossaryView) -> bool {
    forall|k: int|
        0 <= k < v.len() && listed(g.proper_nouns, (#[trigger] v[k]).found) ==> listed(
            g.banned,
            v[k].found,
        ) && v[k].glossary_banned
}

/// `v` still holds `x`, possibly upgraded to a banned-term report.
pub open spec fn keeps(v: Seq<IssueView>, x: IssueView) -> bool {
    v.contains(x) || v.contains(upgraded(x))
}

proof fn lemma_without_proper_nouns(issues: Seq<IssueView>, nouns: Seq<Seq<char>>)
    ensures
        forall|x: IssueView|
            #[trigger] without_proper_nouns(issues, nouns).contains(x) ==> !listed(nouns, x.found),
        forall|x: IssueView|
            issues.contains(x) && !listed(nouns, x.found) ==> #[trigger] without_proper_nouns(
                issues,
                nouns,
            ).contains(x),
    decreases issues.len(),
{
    if issues.len() > 0 {
        let rest = without_proper_nouns(issues.drop_last(), nouns);
        lemma_without_proper_nouns(issues.drop_last(), nouns);
        let w = without_proper_nouns(issues, nouns);
        assert forall|x: IssueView| #[trigger] w.contains(x) implies !listed(nouns, x.found) by {
            let k = choose|k: int| 0 <= k < w.len() && w[k] == x;
            if k < rest.len() {
                assert(rest.contains(x));
            }
        }
        assert forall|x: IssueView| issues.contains(x) && !listed(nouns, x.found) implies #[trigger] w.contains(x) by {
            let k = choose|k: int| 0 <= k < issues.len() && issues[k] == x;
            if k < issues.len() - 1 {
                assert(issues.drop_last()[k] == x);
                assert(rest.contains(x));
                let m = choose|m: int| 0 <= m < rest.len() && rest[m] == x;
                assert(w[m] == x);
            } else {
                assert(w[w.len() - 1] == x);
            }
        }
    }
}

proof fn lemma_record_hit_safe(v: Seq<IssueView>, g: GlossaryView, term: Seq<char>, start: int, len: int)
    requires
        proper_nouns_only_banned(v, g),
        listed(g.banned, term),
    ensures
        proper_nouns_only_banned(record_hit(v, term, start, len), g),
{
    lemma_first_cover_from(v, start, len, 0);
}

proof fn lemma_record_hit_keeps(v: Seq<IssueView>, term: Seq<char>, start: int, len: int, x: IssueView)
    requires
        keeps(v, x),
    ensures
        keeps(record_hit(v, term, start, len), x),
{
    lemma_first_cover_from(v, start, len, 0);
    let w = record_hit(v, term, start, len);
    let k = if v.contains(x) {
        choose|k: int| 0 <= k < v.len() && v[k] == x
    } else {
        choose|k: int| 0 <= k < v.len() && v[k] == upgraded(x)
    };
    assert(upgraded(upgraded(x)) == upgraded(x));
    assert(w[k] == x || w[k] == upgraded(x));
}

proof fn lemma_enforce_term_props(
    v: Seq<IssueView>,
    text: Seq<u8>,
    excluded: Seq<ByteRange>,
    term: Seq<char>,
    from: int,
    g: GlossaryView,
    x: IssueView,
)
    requires
        listed(g.banned, term),
    ensures
        proper_nouns_only_banned(v, g) ==> proper_nouns_only_banned(
            enforce_term_from(v, text, excluded, term, from),
            g,
        ),
        keeps(v, x) ==> keeps(enforce_term_from(v, text, excluded, term, from), x),
    decreases text.len() + 1 - from,
{
    let needle = utf8_of(term);
    if needle.len() > 0 && from >= 0 {
        if let Some(m) = first_match_from(text, needle, from) {
            lemma_first_match_from(text, needle, from);
            let end = m + needle.len();
            let n = needle.len() as int;
            if !span_excluded(m, end, excluded) {
                if proper_nouns_only_banned(v, g) {
                    lemma_record_hit_safe(v, g, term, m, n);
                }
                if keeps(v, x) {
                    lemma_record_hit_keeps(v, term, m, n, x);
                }
                lemma_enforce_term_props(record_hit(v, term, m, n), text, excluded, term, end, g, x);
            } else {
                lemma_enforce_term_props(v, text, excluded, term, end, g, x);
            }
        }
    }
}

proof fn lemma_enforce_terms_props(
    v: Seq<IssueView>,
    text: Seq<u8>,
    excluded: Seq<ByteRange>,
    terms: Seq<Seq<char>>,
    g: GlossaryView,
    x: IssueView,
)
    requires
        forall|j: int| 0 <= j < terms.len() ==> listed(g.banned, #[trigger] terms[j]),
    ensures
        proper_nouns_only_banned(v, g) ==> proper_nouns_only_banned(
            enforce_terms(v, text, excluded, terms),
            g,
        ),
        keeps(v, x) ==> keeps(enforce_terms(v, text, excluded, terms), x),
    decreases terms.len(),
{
    if terms.len() > 0 {
        assert(listed(g.banned, terms[0]));
        lemma_enforce_term_props(v, text, excluded, terms[0], 0, g, x);
        assert forall|j: int| 0 <= j < terms.drop_first().len() implies listed(
            g.banned,
            #[trigger] terms.drop_first()[j],
        ) by {
            assert(terms.drop_first()[j] == terms[j + 1]);
        }
        lemma_enforce_terms_props(
            enforce_term_from(v, text, excluded, terms[0], 0),
            text,
            excluded,
            terms.drop_first(),
            g,
            x,
        );
    }
}

/// Proper nouns are never flagged: an issue left after applying a
/// glossary whose text is a proper noun is a banned-term report (the term
/// is both banned and a proper noun).
pub proof fn law_proper_nouns_suppressed(
    text: Seq<u8>,
    excluded: Seq<ByteRange>,
    issues: Seq<IssueView>,
    g: GlossaryView,
)
    ensures
        proper_nouns_only_banned(glossary_outcome(text, excluded, issues, g), g),
{
    if glossary_blank(g) {
        return;
    }
    let w = without_proper_nouns(issues, g.proper_nouns);
    lemma_without_proper_nouns(issues, g.proper_nouns);
    assert forall|k: int| 0 <= k < w.len() && listed(g.proper_nouns, (#[trigger] w[k]).found) implies listed(
        g.banned,
        w[k].found,
    ) && w[k].glossary_banned by {
        assert(w.contains(w[k]));
    }
    assert forall|j: int| 0 <= j < g.banned.len() implies listed(g.banned, #[trigger] g.banned[j]) by {
    }
    lemma_enforce_terms_props(w, text, excluded, g.banned, g, w[0]);
    let pre = enforce_terms(w, text, excluded, g.banned);
    let out = stable_sort(pre, by_offset());
    lemma_stable_sort_members(pre, by_offset());
    assert forall|k: int| 0 <= k < out.len() && listed(g.proper_nouns, (#[trigger] out[k]).found) implies listed(
        g.banned,
        out[k].found,
    ) && out[k].glossary_banned by {
        assert(out.contains(out[k]));
        assert(pre.contains(out[k]));
        let m = choose|m: int| 0 <= m < pre.len() && pre[m] == out[k];
        assert(listed(g.proper_nouns, pre[m].found));
    }
}

/// Only proper nouns are suppressed: every issue whose text is not a
/// proper noun is still reported, as it was or raised to a banned-term
/// `Error`.
pub proof fn law_only_proper_nouns_suppressed(
    text: Seq<u8>,
    excluded: Seq<ByteRange>,
    issues: Seq<IssueView>,
    g: GlossaryView,
    x: IssueView,
)
    requires
        issues.contains(x),
        !listed(g.proper_nouns, x.found),
    ensures
        keeps(glossary_outcome(text, excluded, issues, g), x),
{
    if !glossary_blank(g) {
        let w = without_proper_nouns(issues, g.proper_nouns);
        lemma_without_proper_nouns(issues, g.proper_nouns);
        assert(w.contains(x));
        assert forall|j: int| 0 <= j < g.banned.len() implies listed(g.banned, #[trigger] g.banned[j]) by {
        }
        lemma_enforce_terms_props(w, text, excluded, g.banned, g, x);
        let pre = enforce_terms(w, text, excluded, g.banned);
        lemma_stable_sort_members(pre, by_offset());
    }
}

/// `y` reports the same finding as `x`: span, position, text,
/// suggestions, rule family, context and English anchor all agree.
pub open spec fn same_finding(x: IssueView, y: IssueView) -> bool {
    &&& y.offset == x.offset
    &&& y.length == x.length
    &&& y.line == x.line
    &&& y.col == x.col
    &&& y.found == x.found
    &&& y.suggestions == x.suggestions
    &&& y.rule_type == x.rule_type
    &&& y.context == x.context
    &&& y.english == x.english
}

/// Banned-term enforcement changes no finding: every issue whose text is
/// not a proper noun is still reported with the same span, text,
/// suggestions, context and anchor, either untouched or only raised to
/// `Error` and marked as reporting a banned term.
pub proof fn law_retained_issues_keep_their_content(
    text: Seq<u8>,
    excluded: Seq<ByteRange>,
    issues: Seq<IssueView>,
    g: GlossaryView,
    x: IssueView,
)
    requires
        issues.contains(x),
        !listed(g.proper_nouns, x.found),
    ensures
        exists|y: IssueView|
            #[trigger] glossary_outcome(text, excluded, issues, g).contains(y) && same_finding(x, y)
                && (y == x || (y.severity == Severity::Error && y.glossary_banned)),
{
    law_only_proper_nouns_suppressed(text, excluded, issues, g, x);
    let out = glossary_outcome(text, excluded, issues, g);
    if out.contains(x) {
        assert(same_finding(x, x));
    } else {
        let y = upgraded(x);
        assert(out.contains(y));
        assert(same_finding(x, y));
    }
}

/// Some issue of `v` covers `[at, at + len)`.
pub open spec fn covered(v: Seq<IssueView>, at: int, len: int) -> bool {
    exists|k: int| 0 <= k < v.len() && covers(#[trigger] v[k], at, len)
}

proof fn lemma_covered_first_cover(v: Seq<IssueView>, start: int, len: int, k: int)
    requires
        0 <= k,
        exists|c: int| k <= c < v.len() && covers(#[trigger] v[c], start, len),
    ensures
        first_cover_from(v, start, len, k) is Some,
    decreases v.len() - k,
{
    if !covers(v[k], start, len) {
        let c = choose|c: int| k <= c < v.len() && covers(#[trigger] v[c], start, len);
        assert(c != k);
        lemma_covered_first_cover(v, start, len, k + 1);
    }
}

proof fn lemma_record_hit_keeps_covered(
    v: Seq<IssueView>,
    term: Seq<char>,
    start: int,
    len: int,
    at: int,
    l: int,
)
    requires
        covered(v, at, l),
    ensures
        covered(record_hit(v, term, start, len), at, l),
{
    lemma_first_cover_from(v, start, len, 0);
    let w = record_hit(v, term, start, len);
    let k = choose|k: int| 0 <= k < v.len() && covers(#[trigger] v[k], at, l);
    assert(covers(w[k], at, l));
}

proof fn lemma_enforce_term_keeps_covered(
    v: Seq<IssueView>,
    text: Seq<u8>,
    excluded: Seq<ByteRange>,
    term: Seq<char>,
    from: int,
    at: int,
    l: int,
)
    requires
        covered(v, at, l),
    ensures
        covered(enforce_term_from(v, text, excluded, term, from), at, l),
    decreases text.len() + 1 - from,
{
    let needle = utf8_of(term);
    if needle.len() > 0 && from >= 0 {
        if let Some(m) = first_match_from(text, needle, from) {
            lemma_first_match_from(text, needle, from);
            let end = m + needle.len();
            if span_excluded(m, end, excluded) {
                lemma_enforce_term_keeps_covered(v, text, excluded, term, end, at, l);
            } else {
                lemma_record_hit_keeps_covered(v, term, m, needle.len() as int, at, l);
                lemma_enforce_term_keeps_covered(
                    record_hit(v, term, m, needle.len() as int),
                    text,
                    excluded,
                    term,
                    end,
                    at,
                    l,
                );
            }
        }
    }
}

/// Every non-excluded occurrence that the scan of `needle` from `from`
/// visits is covered by some issue of `v`.
pub open spec fn hits_covered(
    v: Seq<IssueView>,
    text: Seq<u8>,
    excluded: Seq<ByteRange>,
    needle: Seq<u8>,
    from: int,
) -> bool {
    forall|at: int|
        #[trigger] scanned(text, needle, from, at) && !span_excluded(at, at + needle.len(), excluded)
            ==> covered(v, at, needle.len() as int)
}

proof fn lemma_enforce_term_length(
    v: Seq<IssueView>,
    text: Seq<u8>,
    excluded: Seq<ByteRange>,
    term: Seq<char>,
    from: int,
)
    requires
        hits_covered(v, text, excluded, utf8_of(term), from),
    ensures
        enforce_term_from(v, text, excluded, term, from).len() == v.len(),
    decreases text.len() + 1 - from,
{
    let needle = utf8_of(term);
    let n = needle.len() as int;
    if needle.len() > 0 && from >= 0 {
        if let Some(m) = first_match_from(text, needle, from) {
            lemma_first_match_from(text, needle, from);
            let end = m + n;
            assert(scanned(text, needle, from, m));
            let w = if span_excluded(m, end, excluded) {
                v
            } else {
                assert(covered(v, m, n));
                let k = choose|k: int| 0 <= k < v.len() && covers(#[trigger] v[k], m, n);
                lemma_covered_first_cover(v, m, n, 0);
                lemma_first_cover_from(v, m, n, 0);
                record_hit(v, term, m, n)
            };
            assert(w.len() == v.len());
            assert forall|at: int|
                #[trigger] scanned(text, needle, end, at) && !span_excluded(at, at + needle.len(), excluded)
                    implies covered(w, at, n) by {
                assert(scanned(text, needle, from, at));
                if !span_excluded(m, end, excluded) {
                    lemma_record_hit_keeps_covered(v, term, m, n, at, n);
                }
            }
            lemma_enforce_term_length(w, text, excluded, term, end);
        }
    }
}

proof fn lemma_enforce_terms_length(
    v: Seq<IssueView>,
    text: Seq<u8>,
    excluded: Seq<ByteRange>,
    terms: Seq<Seq<char>>,
)
    requires
        forall|j: int| 0 <= j < terms.len() ==> hits_covered(v, text, excluded, utf8_of(#[trigger] terms[j]), 0),
    ensures
        enforce_terms(v, text, excluded, terms).len() == v.len(),
    decreases terms.len(),
{
    if terms.len() > 0 {
        let w = enforce_term_from(v, text, excluded, terms[0], 0);
        assert(hits_covered(v, text, excluded, utf8_of(terms[0]), 0));
        lemma_enforce_term_length(v, text, excluded, terms[0], 0);
        let rest = terms.drop_first();
        assert forall|j: int| 0 <= j < rest.len() implies hits_covered(
            w,
            text,
            excluded,
            utf8_of(#[trigger] rest[j]),
            0,
        ) by {
            assert(rest[j] == terms[j + 1]);
            assert(hits_covered(v, text, excluded, utf8_of(terms[j + 1]), 0));
            let needle = utf8_of(rest[j]);
            assert forall|at: int|
                #[trigger] scanned(text, needle, 0, at) && !span_excluded(at, at + needle.len(), excluded)
                    implies covered(w, at, needle.len() as int) by {
                lemma_enforce_term_keeps_covered(v, text, excluded, terms[0], 0, at, needle.len() as int);
            }
        }
        lemma_enforce_terms_length(w, text, excluded, rest);
    }
}

/// A banned occurrence that an issue already covers adds no issue, whatever
/// that issue's severity: when every non-excluded scanned occurrence of
/// every banned term is covered by an issue left after proper-noun
/// suppression, the output has exactly as many issues as that list.
pub proof fn law_covered_occurrences_add_no_issue(
    text: Seq<u8>,
    excluded: Seq<ByteRange>,
    issues: Seq<IssueView>,
    g: GlossaryView,
)
    requires
        !glossary_blank(g),
        forall|j: int|
            0 <= j < g.banned.len() ==> hits_covered(
                without_proper_nouns(issues, g.proper_nouns),
                text,
                excluded,
                utf8_of(#[trigger] g.banned[j]),
                0,
            ),
    ensures
        glossary_outcome(text, excluded, issues, g).len() == without_proper_nouns(
            issues,
            g.proper_nouns,
        ).len(),
{
    let w = without_proper_nouns(issues, g.proper_nouns);
    lemma_enforce_terms_length(w, text, excluded, g.banned);
    lemma_stable_sort_sorted(enforce_terms(w, text, excluded, g.banned), by_offset());
}

/// With no proper nouns to suppress, the list after suppression is the
/// input itself.
pub proof fn law_no_proper_nouns_suppress_nothing(issues: Seq<IssueView>, g: GlossaryView)
    requires
        forall|k: int| 0 <= k < issues.len() ==> !listed(g.proper_nouns, (#[trigger] issues[k]).found),
    ensures
        without_proper_nouns(issues, g.proper_nouns) == issues,
    decreases issues.len(),
{
    if issues.len() > 0 {
        let d = issues.drop_last();
        assert forall|k: int| 0 <= k < d.len() implies !listed(g.proper_nouns, (#[trigger] d[k]).found) by {
            assert(d[k] == issues[k]);
        }
        law_no_proper_nouns_suppress_nothing(d, g);
        assert(!listed(g.proper_nouns, issues[issues.len() - 1].found));
        assert(d.push(issues.last()) =~= issues);
    }
}

} // verus!
