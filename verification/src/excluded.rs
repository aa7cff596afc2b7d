use vstd::prelude::*;

verus! {

/// A half-open byte range `[start, end)` of the text that rules must not
/// report inside (code fences, URLs, front matter, suppression markers).
#[derive(Clone, Copy, Debug, PartialEq, Eq, Structural)]
pub struct ByteRange {
    pub start: usize,
    pub end: usize,
}

/// The span `[start, end)` shares at least one byte with `r`.
pub open spec fn overlaps(start: int, end: int, r: ByteRange) -> bool {
    r.start < end && start < r.end
}

/// The span `[start, end)` overlaps some range of `ranges`.
pub open spec fn span_excluded(start: int, end: int, ranges: Seq<ByteRange>) -> bool {
    exists|k: int| 0 <= k < ranges.len() && overlaps(start, end, #[trigger] ranges[k])
}

/// Whether the byte span `[start, end)` overlaps any excluded range.
pub fn is_excluded(start: usize, end: usize, ranges: &[ByteRange]) -> (r: bool)
    ensures
        r == span_excluded(start as int, end as int, ranges@),
{
    let mut k: usize = 0;
    while k < ranges.len()
        invariant
            k <= ranges@.len(),
            forall|j: int| 0 <= j < k ==> !overlaps(start as int, end as int, #[trigger] ranges@[j]),
        decreases ranges@.len() - k,
    {
        let r = ranges[k];
        if r.start < end && start < r.end {
            assert(overlaps(start as int, end as int, ranges@[k as int]));
            return true;
        }
        k = k + 1;
    }
    false
}

} // verus!
