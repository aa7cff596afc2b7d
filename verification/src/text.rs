use vstd::prelude::*;
use vstd::utf8::encode_utf8;

verus! {

/// The UTF-8 bytes of a character sequence (what `str::as_bytes` gives).
pub open spec fn utf8_of(s: Seq<char>) -> Seq<u8> {
    encode_utf8(s)
}

/// `needle` occurs in `hay` starting at byte `i`.
pub open spec fn matches_at(hay: Seq<u8>, needle: Seq<u8>, i: int) -> bool {
    &&& 0 <= i
    &&& i + needle.len() <= hay.len()
    &&& hay.subrange(i, i + needle.len()) == needle
}

/// `needle` occurs somewhere in `hay` (the empty needle always does).
pub open spec fn occurs_in(hay: Seq<u8>, needle: Seq<u8>) -> bool {
    exists|i: int| matches_at(hay, needle, i)
}

/// The leftmost occurrence of `needle` in `hay` at or after byte `start`.
pub open spec fn first_match_from(hay: Seq<u8>, needle: Seq<u8>, start: int) -> Option<int>
    decreases hay.len() + 1 - start,
{
    if start < 0 || start + needle.len() > hay.len() {
        None
    } else if matches_at(hay, needle, start) {
        Some(start)
    } else {
        first_match_from(hay, needle, start + 1)
    }
}

/// `first_match_from` is the leftmost match at or after `start`, and it is
/// `None` exactly when there is no match there.
pub proof fn lemma_first_match_from(hay: Seq<u8>, needle: Seq<u8>, start: int)
    requires
        0 <= start,
    ensures
        first_match_from(hay, needle, start) matches Some(i) ==> {
            &&& start <= i
            &&& matches_at(hay, needle, i)
            &&& forall|j: int| start <= j < i ==> !matches_at(hay, needle, j)
        },
        first_match_from(hay, needle, start) is None ==> forall|j: int|
            start <= j ==> !matches_at(hay, needle, j),
    decreases hay.len() + 1 - start,
{
    if start + needle.len() > hay.len() {
    } else if matches_at(hay, needle, start) {
    } else {
        lemma_first_match_from(hay, needle, start + 1);
    }
}

/// Whether `hay[i..i + needle.len()] == needle` (the caller guarantees it fits).
fn bytes_match_at(hay: &[u8], needle: &[u8], i: usize) -> (r: bool)
    requires
        i + needle@.len() <= hay@.len(),
    ensures
        r == matches_at(hay@, needle@, i as int),
{
    let n = needle.len();
    let h = hay.len();
    let mut k: usize = 0;
    while k < n
        invariant
            n == needle@.len(),
            h == hay@.len(),
            i + n <= h,
            k <= n,
            forall|j: int| 0 <= j < k ==> hay@[i + j] == needle@[j],
        decreases n - k,
    {
        if hay[i + k] != needle[k] {
            assert(hay@.subrange(i as int, i + n)[k as int] != needle@[k as int]);
            return false;
        }
        k = k + 1;
    }
    assert(hay@.subrange(i as int, i + n) =~= needle@);
    true
}

/// The byte index of the leftmost occurrence of `needle` in `hay` at or
/// after `start` (what `hay[start..].find(needle)` gives, plus `start`).
pub fn find_from(hay: &[u8], needle: &[u8], start: usize) -> (r: Option<usize>)
    ensures
        r matches Some(i) ==> first_match_from(hay@, needle@, start as int) == Some(i as int),
        r is None ==> first_match_from(hay@, needle@, start as int) is None,
{
    let h = hay.len();
    let n = needle.len();
    if n > h {
        return None;
    }
    let last = h - n;
    let mut i: usize = start;
    while i <= last
        invariant
            h == hay@.len(),
            n == needle@.len(),
            n <= h,
            last == h - n,
            start <= i,
            first_match_from(hay@, needle@, start as int) == first_match_from(
                hay@,
                needle@,
                i as int,
            ),
        decreases last + 1 - i,
    {
        if bytes_match_at(hay, needle, i) {
            return Some(i);
        }
        if i == last {
            return None;
        }
        i = i + 1;
    }
    None
}

/// Whether `pattern` occurs in `text` (Rust's `text.contains(pattern)`),
/// decided on their UTF-8 bytes.
pub fn contains_str(text: &str, pattern: &str) -> (r: bool)
    ensures
        r == occurs_in(utf8_of(text@), utf8_of(pattern@)),
{
    let hay = text.as_bytes();
    let needle = pattern.as_bytes();
    let found = find_from(hay, needle, 0);
    proof {
        lemma_first_match_from(hay@, needle@, 0);
    }
    found.is_some()
}

/// `s` is one of the strings of `list`.
pub open spec fn listed(list: Seq<Seq<char>>, s: Seq<char>) -> bool {
    exists|k: int| 0 <= k < list.len() && list[k] == s
}

/// Whether some string of `list` equals `s`.
pub fn list_contains(list: &Vec<String>, s: &String) -> (r: bool)
    ensures
        r == listed(crate::issue::strings_view(list@), s@),
{
    let ghost lv = crate::issue::strings_view(list@);
    let mut k: usize = 0;
    while k < list.len()
        invariant
            k <= list@.len(),
            lv == crate::issue::strings_view(list@),
            forall|j: int| 0 <= j < k ==> lv[j] != s@,
        decreases list@.len() - k,
    {
        if list[k] == *s {
            assert(lv[k as int] == s@);
            return true;
        }
        k = k + 1;
    }
    false
}

/// Byte-wise lexicographic order, the order of `str` and `String`.
pub open spec fn lex_lt(a: Seq<u8>, b: Seq<u8>) -> bool
    decreases a.len(),
{
    if a.len() == 0 {
        b.len() > 0
    } else if b.len() == 0 {
        false
    } else if a[0] != b[0] {
        a[0] < b[0]
    } else {
        lex_lt(a.drop_first(), b.drop_first())
    }
}

/// `a` sorts before `b` as Rust strings do (by their UTF-8 bytes).
pub open spec fn str_before(a: Seq<char>, b: Seq<char>) -> bool {
    lex_lt(utf8_of(a), utf8_of(b))
}

/// No sequence sorts before itself.
pub proof fn lemma_lex_irreflexive(a: Seq<u8>)
    ensures
        !lex_lt(a, a),
    decreases a.len(),
{
    if a.len() > 0 {
        lemma_lex_irreflexive(a.drop_first());
    }
}

/// The byte order is transitive.
pub proof fn lemma_lex_transitive(a: Seq<u8>, b: Seq<u8>, c: Seq<u8>)
    requires
        lex_lt(a, b),
        lex_lt(b, c),
    ensures
        lex_lt(a, c),
    decreases a.len(),
{
    if a.len() > 0 && b.len() > 0 && c.len() > 0 {
        if a[0] == b[0] && b[0] == c[0] {
            lemma_lex_transitive(a.drop_first(), b.drop_first(), c.drop_first());
        }
    }
}

/// Two different sequences are ordered one way or the other.
pub proof fn lemma_lex_total(a: Seq<u8>, b: Seq<u8>)
    requires
        a != b,
    ensures
        lex_lt(a, b) || lex_lt(b, a),
    decreases a.len(),
{
    if a.len() > 0 && b.len() > 0 && a[0] == b[0] {
        if a.drop_first() == b.drop_first() {
            assert(a =~= seq![a[0]] + a.drop_first());
            assert(b =~= seq![b[0]] + b.drop_first());
        }
        lemma_lex_total(a.drop_first(), b.drop_first());
    } else if a.len() == 0 && b.len() == 0 {
        assert(a =~= b);
    }
}

/// Different strings have different UTF-8 encodings.
pub proof fn lemma_utf8_injective(a: Seq<char>, b: Seq<char>)
    requires
        a != b,
    ensures
        utf8_of(a) != utf8_of(b),
{
    vstd::utf8::encode_utf8_decode_utf8(a);
    vstd::utf8::encode_utf8_decode_utf8(b);
}

/// The string order is a strict total order.
pub proof fn lemma_str_order(a: Seq<char>, b: Seq<char>, c: Seq<char>)
    ensures
        !str_before(a, a),
        a != b ==> str_before(a, b) || str_before(b, a),
        str_before(a, b) && str_before(b, c) ==> str_before(a, c),
{
    lemma_lex_irreflexive(utf8_of(a));
    if a != b {
        lemma_utf8_injective(a, b);
        lemma_lex_total(utf8_of(a), utf8_of(b));
    }
    if str_before(a, b) && str_before(b, c) {
        lemma_lex_transitive(utf8_of(a), utf8_of(b), utf8_of(c));
    }
}

/// Whether `a` sorts strictly before `b` byte-wise.
pub fn bytes_before(a: &[u8], b: &[u8]) -> (r: bool)
    ensures
        r == lex_lt(a@, b@),
{
    let la = a.len();
    let lb = b.len();
    proof {
        assert(a@.skip(0) =~= a@);
        assert(b@.skip(0) =~= b@);
    }
    let mut k: usize = 0;
    while k < la && k < lb
        invariant
            la == a@.len(),
            lb == b@.len(),
            k <= la,
            k <= lb,
            lex_lt(a@, b@) == lex_lt(a@.skip(k as int), b@.skip(k as int)),
        decreases la - k,
    {
        proof {
            assert(a@.skip(k as int).drop_first() =~= a@.skip(k + 1));
            assert(b@.skip(k as int).drop_first() =~= b@.skip(k + 1));
        }
        if a[k] != b[k] {
            return a[k] < b[k];
        }
        k = k + 1;
    }
    k < lb
}

} // verus!
