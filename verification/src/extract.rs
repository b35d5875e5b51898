//! The extraction engine: concatenates the page texts of a section's page
//! range, selects the section's span, and applies the recorded deletions
//! back to front, yielding the section's final text.

use vstd::prelude::*;
use std::collections::HashMap;
use crate::meta::{Op, SectionDefinition, Span};

verus! {

broadcast use vstd::std_specs::hash::group_hash_axioms;

/// Why an extraction failed.
#[derive(Clone, Copy, Debug, PartialEq, Eq)]
pub enum ExtractError {
    /// A page of the section's page range is absent from the page-text map.
    MissingPage { page: usize },
    /// The stored span is out of bounds for the concatenated text.
    InvalidSpan,
}

/// The engine's output: the final text after all deletions, the full
/// concatenated page-range text, and the original span boundaries within
/// that concatenation (for re-highlighting by a presentation layer).
#[derive(Clone, Debug, PartialEq, Eq)]
pub struct ExtractedSection {
    pub text: Vec<u8>,
    pub full: Vec<u8>,
    pub span_start: usize,
    pub span_end: usize,
}

impl ExtractedSection {
    /// The pure presentation toggle: the full concatenation with the span
    /// boundaries available for highlighting, or only the final edited text.
    pub fn display_text(&self, show_full_text: bool) -> (r: &Vec<u8>)
        ensures
            show_full_text ==> r == &self.full,
            !show_full_text ==> r == &self.text,
    {
        if show_full_text {
            &self.full
        } else {
            &self.text
        }
    }
}

/// The three byte ranges a presentation layer highlights when it shows the
/// full concatenation: the text before the span, the span itself, and the
/// text after it.
pub fn highlight_segments(ex: &ExtractedSection) -> (r: (
    (usize, usize),
    (usize, usize),
    (usize, usize),
))
    requires
        ex.span_start <= ex.span_end <= ex.full@.len(),
    ensures
        r.0 == (0usize, ex.span_start),
        r.1 == (ex.span_start, ex.span_end),
        r.2.0 == ex.span_end && r.2.1 == ex.full@.len(),
{
    ((0, ex.span_start), (ex.span_start, ex.span_end), (ex.span_end, ex.full.len()))
}

/// The concatenation of `pages[lo] + pages[lo+1] + ... + pages[hi]`,
/// with no separator between pages.
pub open spec fn concat_pages(pages: Map<usize, Vec<u8>>, lo: int, hi: int) -> Seq<u8>
    decreases hi + 1 - lo,
{
    if lo > hi {
        Seq::empty()
    } else {
        pages[lo as usize]@ + concat_pages(pages, lo + 1, hi)
    }
}

/// The sum of the lengths of the page texts `pages[lo] ... pages[hi]`.
pub open spec fn pages_len_sum(pages: Map<usize, Vec<u8>>, lo: int, hi: int) -> int
    decreases hi + 1 - lo,
{
    if lo > hi {
        0
    } else {
        pages[lo as usize]@.len() + pages_len_sum(pages, lo + 1, hi)
    }
}

/// Every page number in `[lo, hi]` has an entry in the page-text map.
pub open spec fn pages_present(pages: Map<usize, Vec<u8>>, lo: int, hi: int) -> bool {
    forall|p: usize| lo <= p <= hi ==> pages.contains_key(p)
}

/// With the no-separator concatenation policy, the length of the
/// concatenated page-range text equals the sum of the individual page
/// texts' lengths.
pub proof fn lemma_concat_len(pages: Map<usize, Vec<u8>>, lo: int, hi: int)
    ensures
        concat_pages(pages, lo, hi).len() == pages_len_sum(pages, lo, hi),
    decreases hi + 1 - lo,
{
    if lo <= hi {
        lemma_concat_len(pages, lo + 1, hi);
    }
}

/// Splitting the last page off the concatenation.
pub proof fn lemma_concat_snoc(pages: Map<usize, Vec<u8>>, lo: int, hi: int)
    requires
        lo <= hi,
    ensures
        concat_pages(pages, lo, hi) == concat_pages(pages, lo, hi - 1) + pages[hi as usize]@,
    decreases hi - lo,
{
    if lo == hi {
        assert(concat_pages(pages, lo + 1, hi) =~= Seq::<u8>::empty());
        assert(concat_pages(pages, lo, hi - 1) =~= Seq::<u8>::empty());
        assert(pages[lo as usize]@ + Seq::<u8>::empty() =~= Seq::<u8>::empty()
            + pages[lo as usize]@);
    } else {
        lemma_concat_snoc(pages, lo + 1, hi);
        assert(pages[lo as usize]@ + (concat_pages(pages, lo + 1, hi - 1) + pages[hi as usize]@)
            =~= (pages[lo as usize]@ + concat_pages(pages, lo + 1, hi - 1))
                + pages[hi as usize]@);
    }
}

/// The byte boundaries `[r.0, r.1)` of the working text that a span selects
/// within a concatenation of length `len`.
pub open spec fn span_bounds(span: Option<Span>, len: int) -> (int, int) {
    match span {
        None => (0, len),
        Some(Span::Bounded { start, end }) => (start as int, end as int),
        Some(Span::Open { start }) => (start as int, len),
    }
}

/// Whether a span's stored offsets are in bounds for a concatenation of
/// length `len`.
pub open spec fn span_valid(span: Option<Span>, len: int) -> bool {
    match span {
        None => true,
        Some(Span::Bounded { start, end }) => start <= end && end <= len,
        Some(Span::Open { start }) => start <= len,
    }
}

/// The start offset of an operation's byte range.
pub open spec fn op_start(op: Op) -> usize {
    match op {
        Op::Delete { start, end: _ } => start,
    }
}

/// The (inclusive) end offset of an operation's byte range.
pub open spec fn op_end(op: Op) -> usize {
    match op {
        Op::Delete { start: _, end } => end,
    }
}

/// One deletion spliced out of the current text: the inclusive byte range
/// `[start, end]`, clamped to the current bounds. A range that starts past
/// the end of the text, or is reversed, removes nothing.
pub open spec fn splice(t: Seq<u8>, op: Op) -> Seq<u8> {
    let s = op_start(op) as int;
    let e = op_end(op) as int;
    if s >= t.len() || e < s {
        t
    } else if e + 1 >= t.len() {
        t.subrange(0, s)
    } else {
        t.subrange(0, s) + t.subrange(e + 1, t.len() as int)
    }
}

/// Deletions applied one after another, in the order given.
pub open spec fn apply_ops(t: Seq<u8>, ops: Seq<Op>) -> Seq<u8>
    decreases ops.len(),
{
    if ops.len() == 0 {
        t
    } else {
        apply_ops(splice(t, ops[0]), ops.drop_first())
    }
}

/// `x` inserted into a sequence sorted by descending start offset, before
/// the first element whose start offset is not larger.
pub open spec fn insert_desc(sorted: Seq<Op>, x: Op) -> Seq<Op>
    decreases sorted.len(),
{
    if sorted.len() == 0 {
        seq![x]
    } else if op_start(x) >= op_start(sorted[0]) {
        seq![x] + sorted
    } else {
        seq![sorted[0]] + insert_desc(sorted.drop_first(), x)
    }
}

/// The operation log re-ordered by descending start offset: the safe
/// application order, derived anew at each extraction and independent of
/// the authoring order kept in the log.
pub open spec fn sort_desc(ops: Seq<Op>) -> Seq<Op>
    decreases ops.len(),
{
    if ops.len() == 0 {
        Seq::empty()
    } else {
        insert_desc(sort_desc(ops.drop_last()), ops.last())
    }
}

/// The working text a section selects: the span's slice of the
/// concatenated page-range text.
pub open spec fn working_text(pages: Map<usize, Vec<u8>>, sec: SectionDefinition) -> Seq<u8> {
    let full = concat_pages(pages, sec.pages.start as int, sec.pages.end as int);
    let b = span_bounds(sec.span, full.len() as int);
    full.subrange(b.0, b.1)
}

/// The section's final text: the working text with all recorded deletions
/// spliced out, applied in descending-start order.
pub open spec fn extracted_text(pages: Map<usize, Vec<u8>>, sec: SectionDefinition) -> Seq<u8> {
    apply_ops(working_text(pages, sec), sort_desc(sec.ops@))
}

/// When extraction succeeds: every page of the range is present and the
/// span (if any) is in bounds for the concatenation.
pub open spec fn extract_ok(pages: Map<usize, Vec<u8>>, sec: SectionDefinition) -> bool {
    &&& pages_present(pages, sec.pages.start as int, sec.pages.end as int)
    &&& span_valid(
        sec.span,
        concat_pages(pages, sec.pages.start as int, sec.pages.end as int).len() as int,
    )
}

/// Everything `extract` promises of its result.
pub open spec fn extract_post(
    pages: Map<usize, Vec<u8>>,
    sec: SectionDefinition,
    r: Result<ExtractedSection, ExtractError>,
) -> bool {
    let full = concat_pages(pages, sec.pages.start as int, sec.pages.end as int);
    &&& (r is Ok <==> extract_ok(pages, sec))
    &&& (r matches Ok(ex) ==> {
        &&& ex.full@ == full
        &&& ex.text@ == extracted_text(pages, sec)
        &&& ex.span_start as int == span_bounds(sec.span, full.len() as int).0
        &&& ex.span_end as int == span_bounds(sec.span, full.len() as int).1
    })
    &&& (r matches Err(e) ==> match e {
        ExtractError::MissingPage { page } => {
            &&& sec.pages.start <= page <= sec.pages.end
            &&& !pages.contains_key(page)
            &&& forall|q: usize| sec.pages.start <= q < page ==> pages.contains_key(q)
        },
        ExtractError::InvalidSpan => {
            &&& pages_present(pages, sec.pages.start as int, sec.pages.end as int)
            &&& !span_valid(sec.span, full.len() as int)
        },
    })
}

/// Appends `src[from..to]` to `dst`.
#[verifier::loop_isolation(false)]
fn append_range(dst: &mut Vec<u8>, src: &Vec<u8>, from: usize, to: usize)
    requires
        from <= to,
        to <= src@.len(),
    ensures
        final(dst)@ == old(dst)@ + src@.subrange(from as int, to as int),
{
    let mut j: usize = from;
    proof {
        assert(dst@ =~= dst@ + src@.subrange(from as int, from as int));
    }
    while j < to
        invariant
            from <= j <= to,
            dst@ == old(dst)@ + src@.subrange(from as int, j as int),
        decreases to - j,
    {
        dst.push(src[j]);
        proof {
            assert(src@.subrange(from as int, (j + 1) as int)
                =~= src@.subrange(from as int, j as int).push(src@[j as int]));
        }
        j += 1;
    }
}

/// A copy of `src[from..to]`.
fn copy_range(src: &Vec<u8>, from: usize, to: usize) -> (r: Vec<u8>)
    requires
        from <= to,
        to <= src@.len(),
    ensures
        r@ == src@.subrange(from as int, to as int),
{
    let mut r: Vec<u8> = Vec::new();
    append_range(&mut r, src, from, to);
    proof {
        assert(r@ =~= src@.subrange(from as int, to as int));
    }
    r
}

/// The start and inclusive end offset of an operation's byte range.
fn op_bounds(op: &Op) -> (r: (usize, usize))
    ensures
        r.0 == op_start(*op),
        r.1 == op_end(*op),
{
    match op {
        Op::Delete { start, end } => (*start, *end),
    }
}

/// `insert_desc` splits at the first position whose start offset is not
/// larger than the inserted element's.
proof fn lemma_insert_desc_at(sorted: Seq<Op>, x: Op, j: int)
    requires
        0 <= j <= sorted.len(),
        forall|k: int| 0 <= k < j ==> op_start(#[trigger] sorted[k]) > op_start(x),
        j < sorted.len() ==> op_start(sorted[j]) <= op_start(x),
    ensures
        insert_desc(sorted, x) == sorted.subrange(0, j) + seq![x]
            + sorted.subrange(j, sorted.len() as int),
    decreases j,
{
    if sorted.len() == 0 {
        assert(insert_desc(sorted, x) =~= sorted.subrange(0, j) + seq![x]
            + sorted.subrange(j, sorted.len() as int));
    } else if j == 0 {
        assert(op_start(x) >= op_start(sorted[0]));
        assert(insert_desc(sorted, x) =~= sorted.subrange(0, 0) + seq![x]
            + sorted.subrange(0, sorted.len() as int));
    } else {
        assert(op_start(sorted[0]) > op_start(x));
        let d = sorted.drop_first();
        lemma_insert_desc_at(d, x, j - 1);
        assert(seq![sorted[0]] + (d.subrange(0, j - 1) + seq![x]
            + d.subrange(j - 1, d.len() as int))
            =~= sorted.subrange(0, j) + seq![x] + sorted.subrange(j, sorted.len() as int));
    }
}

/// The operation log, re-sorted by descending start offset.
#[verifier::loop_isolation(false)]
fn sort_ops(ops: &Vec<Op>) -> (r: Vec<Op>)
    ensures
        r@ == sort_desc(ops@),
{
    let mut r: Vec<Op> = Vec::new();
    let mut i: usize = 0;
    proof {
        assert(ops@.subrange(0, 0) =~= Seq::<Op>::empty());
    }
    while i < ops.len()
        invariant
            i <= ops@.len(),
            r@ == sort_desc(ops@.subrange(0, i as int)),
        decreases ops@.len() - i,
    {
        let x = ops[i];
        let xs = op_bounds(&x).0;
        let mut j: usize = 0;
        while j < r.len() && op_bounds(&r[j]).0 > xs
            invariant
                j <= r@.len(),
                forall|k: int| 0 <= k < j ==> op_start(#[trigger] r@[k]) > op_start(x),
            decreases r@.len() - j,
        {
            j += 1;
        }
        let ghost pre = r@;
        proof {
            lemma_insert_desc_at(pre, x, j as int);
        }
        r.insert(j, x);
        proof {
            let s1 = ops@.subrange(0, i + 1);
            assert(s1.drop_last() =~= ops@.subrange(0, i as int));
            assert(s1.last() == ops@[i as int]);
            assert(sort_desc(s1) == insert_desc(sort_desc(s1.drop_last()), s1.last()));
            assert(sort_desc(s1.drop_last()) == pre);
            assert(r@ =~= pre.subrange(0, j as int) + seq![x] + pre.subrange(j as int,
                pre.len() as int));
        }
        i += 1;
    }
    proof {
        assert(ops@.subrange(0, ops@.len() as int) =~= ops@);
    }
    r
}

/// Extraction: concatenate the page texts of the section's page range in
/// ascending order with no separator, cut out the span's working text, and
/// splice out the recorded deletions in descending-start order.
///
/// Extraction is a pure function of its arguments: the postcondition pins
/// the entire result, success and failure alike, as `extract_post`, which
/// `lemma_extract_deterministic` shows admits a single outcome.
#[verifier::loop_isolation(false)]
pub fn extract(pages: &HashMap<usize, Vec<u8>>, sec: &SectionDefinition) -> (r: Result<
    ExtractedSection,
    ExtractError,
>)
    requires
        sec.pages.wf(),
    ensures
        extract_post(pages@, *sec, r),
{
    let start = sec.pages.start;
    let end = sec.pages.end;
    let n = end - start + 1;
    let mut full: Vec<u8> = Vec::new();
    let mut i: usize = 0;
    while i < n
        invariant
            i <= n,
            full@ == concat_pages(pages@, start as int, start + i - 1),
            pages_present(pages@, start as int, start + i - 1),
        decreases n - i,
    {
        let p = start + i;
        match pages.get(&p) {
            None => {
                return Err(ExtractError::MissingPage { page: p });
            },
            Some(pg) => {
                proof {
                    lemma_concat_snoc(pages@, start as int, p as int);
                }
                append_range(&mut full, pg, 0, pg.len());
                proof {
                    assert(pg@.subrange(0, pg@.len() as int) =~= pg@);
                }
            },
        }
        i += 1;
    }
    let full_len = full.len();
    let (a, b) = match sec.span {
        None => (0, full_len),
        Some(Span::Bounded { start: s, end: e }) => {
            if s > e || e > full_len {
                return Err(ExtractError::InvalidSpan);
            }
            (s, e)
        },
        Some(Span::Open { start: s }) => {
            if s > full_len {
                return Err(ExtractError::InvalidSpan);
            }
            (s, full_len)
        },
    };
    let mut text = copy_range(&full, a, b);
    let ghost work0 = text@;
    let sorted = sort_ops(&sec.ops);
    let mut i: usize = 0;
    proof {
        assert(sorted@.subrange(0, sorted@.len() as int) =~= sorted@);
    }
    while i < sorted.len()
        invariant
            i <= sorted@.len(),
            apply_ops(work0, sorted@) == apply_ops(text@, sorted@.subrange(i as int,
                sorted@.len() as int)),
        decreases sorted@.len() - i,
    {
        let ghost rest = sorted@.subrange(i as int, sorted@.len() as int);
        let (s, e) = op_bounds(&sorted[i]);
        if s < text.len() && e >= s {
            let cut = if e >= text.len() - 1 {
                text.len()
            } else {
                e + 1
            };
            let mut out = copy_range(&text, 0, s);
            append_range(&mut out, &text, cut, text.len());
            proof {
                assert(out@ =~= splice(text@, sorted@[i as int]));
            }
            text = out;
        } else {
            proof {
                assert(text@ =~= splice(text@, sorted@[i as int]));
            }
        }
        proof {
            assert(rest[0] == sorted@[i as int]);
            assert(rest.drop_first() =~= sorted@.subrange(i + 1, sorted@.len() as int));
        }
        i += 1;
    }
    proof {
        assert(sorted@.subrange(sorted@.len() as int, sorted@.len() as int)
            =~= Seq::<Op>::empty());
    }
    Ok(ExtractedSection { text, full, span_start: a, span_end: b })
}

/// Extraction is pure: any two results that `extract`'s contract admits
/// for the same page map and section definition are equal.
pub proof fn lemma_extract_deterministic(
    pages: Map<usize, Vec<u8>>,
    sec: SectionDefinition,
    r1: Result<ExtractedSection, ExtractError>,
    r2: Result<ExtractedSection, ExtractError>,
)
    requires
        extract_post(pages, sec, r1),
        extract_post(pages, sec, r2),
    ensures
        r1 is Ok <==> r2 is Ok,
        r1 is Ok && r2 is Ok ==> {
            &&& r1->Ok_0.text@ == r2->Ok_0.text@
            &&& r1->Ok_0.full@ == r2->Ok_0.full@
            &&& r1->Ok_0.span_start == r2->Ok_0.span_start
            &&& r1->Ok_0.span_end == r2->Ok_0.span_end
        },
        r1 is Err && r2 is Err ==> r1->Err_0 == r2->Err_0,
{
    if r1 is Err && r2 is Err {
        let e1 = r1->Err_0;
        let e2 = r2->Err_0;
        match (e1, e2) {
            (ExtractError::MissingPage { page: p1 }, ExtractError::MissingPage { page: p2 }) => {
                if p1 < p2 {
                    assert(pages.contains_key(p1));
                } else if p2 < p1 {
                    assert(pages.contains_key(p2));
                }
            },
            (ExtractError::MissingPage { page: p1 }, ExtractError::InvalidSpan) => {
                assert(pages.contains_key(p1));
            },
            (ExtractError::InvalidSpan, ExtractError::MissingPage { page: p2 }) => {
                assert(pages.contains_key(p2));
            },
            (ExtractError::InvalidSpan, ExtractError::InvalidSpan) => {},
        }
    }
}

/// A `Bounded(s, s)` span selects an empty working text, and with an empty
/// operation log the final text is empty as well.
pub proof fn lemma_empty_span_empty_text(
    pages: Map<usize, Vec<u8>>,
    sec: SectionDefinition,
    s: usize,
)
    requires
        sec.span == Some(Span::Bounded { start: s, end: s }),
        sec.ops@.len() == 0,
        extract_ok(pages, sec),
    ensures
        working_text(pages, sec).len() == 0,
        extracted_text(pages, sec).len() == 0,
{
    let full = concat_pages(pages, sec.pages.start as int, sec.pages.end as int);
    assert(working_text(pages, sec) =~= full.subrange(s as int, s as int));
    assert(sort_desc(sec.ops@) =~= Seq::<Op>::empty());
}

/// A single deletion covering the entire working text leaves nothing: the
/// final text is empty.
pub proof fn lemma_delete_all(t: Seq<u8>, e: usize)
    requires
        t.len() >= 1,
        e + 1 >= t.len(),
    ensures
        apply_ops(t, sort_desc(seq![Op::Delete { start: 0, end: e }])).len() == 0,
{
    let op = Op::Delete { start: 0, end: e };
    let ops = seq![op];
    assert(ops.drop_last() =~= Seq::<Op>::empty());
    assert(sort_desc(Seq::<Op>::empty()) == Seq::<Op>::empty());
    assert(insert_desc(Seq::<Op>::empty(), op) == seq![op]);
    assert(sort_desc(ops) == insert_desc(sort_desc(ops.drop_last()), ops.last()));
    assert(sort_desc(ops) =~= seq![op]);
    assert(splice(t, op) =~= t.subrange(0, 0));
    assert(seq![op].drop_first() =~= Seq::<Op>::empty());
    assert(apply_ops(t, seq![op]) == apply_ops(splice(t, op), seq![op].drop_first()));
}

/// Section-level form: a section whose single recorded deletion covers its
/// whole working text extracts to an empty final text.
pub proof fn lemma_delete_entire_working(
    pages: Map<usize, Vec<u8>>,
    sec: SectionDefinition,
    e: usize,
)
    requires
        sec.ops@ == seq![Op::Delete { start: 0, end: e }],
        working_text(pages, sec).len() >= 1,
        e + 1 >= working_text(pages, sec).len(),
    ensures
        extracted_text(pages, sec).len() == 0,
{
    lemma_delete_all(working_text(pages, sec), e);
}

/// Two byte ranges that share no offset.
pub open spec fn ops_disjoint(a: Op, b: Op) -> bool {
    op_end(a) < op_start(b) || op_end(b) < op_start(a)
}

/// A well-formed deletion range: start at or before end.
pub open spec fn op_wf(a: Op) -> bool {
    op_start(a) <= op_end(a)
}

/// Two non-overlapping deletions sort to the same application order
/// whichever way round they were authored, so the final text agrees.
pub proof fn lemma_delete_order_independent(t: Seq<u8>, a: Op, b: Op)
    requires
        op_wf(a),
        op_wf(b),
        ops_disjoint(a, b),
    ensures
        sort_desc(seq![a, b]) == sort_desc(seq![b, a]),
        apply_ops(t, sort_desc(seq![a, b])) == apply_ops(t, sort_desc(seq![b, a])),
{
    assert(op_start(a) != op_start(b));
    assert(seq![a, b].drop_last() =~= seq![a]);
    assert(seq![b, a].drop_last() =~= seq![b]);
    assert(seq![a].drop_last() =~= Seq::<Op>::empty());
    assert(seq![b].drop_last() =~= Seq::<Op>::empty());
    assert(sort_desc(Seq::<Op>::empty()) == Seq::<Op>::empty());
    assert(insert_desc(Seq::<Op>::empty(), a) == seq![a]);
    assert(insert_desc(Seq::<Op>::empty(), b) == seq![b]);
    assert(sort_desc(seq![a]) == insert_desc(sort_desc(seq![a].drop_last()), a));
    assert(sort_desc(seq![b]) == insert_desc(sort_desc(seq![b].drop_last()), b));
    assert(sort_desc(seq![a]) == seq![a]);
    assert(sort_desc(seq![b]) == seq![b]);
    assert(sort_desc(seq![a, b]) == insert_desc(sort_desc(seq![a, b].drop_last()), b));
    assert(sort_desc(seq![b, a]) == insert_desc(sort_desc(seq![b, a].drop_last()), a));
    if op_start(b) >= op_start(a) {
        assert(insert_desc(seq![a], b) == seq![b] + seq![a]);
        assert(seq![b].drop_first() =~= Seq::<Op>::empty());
        assert(insert_desc(seq![b], a) == seq![b] + insert_desc(Seq::<Op>::empty(), a));
        assert(seq![b] + insert_desc(Seq::<Op>::empty(), a) =~= seq![b] + seq![a]);
        assert(sort_desc(seq![a, b]) == sort_desc(seq![b, a]));
    } else {
        assert(seq![a].drop_first() =~= Seq::<Op>::empty());
        assert(insert_desc(seq![a], b) == seq![a] + insert_desc(Seq::<Op>::empty(), b));
        assert(seq![a] + insert_desc(Seq::<Op>::empty(), b) =~= seq![a] + seq![b]);
        assert(insert_desc(seq![b], a) == seq![a] + seq![b]);
        assert(sort_desc(seq![a, b]) == sort_desc(seq![b, a]));
    }
}

/// Section-level form: two sections that agree on pages, span and
/// everything the engine reads, and whose operation logs hold the same two
/// non-overlapping deletions in either authoring order, extract to the
/// same final text.
pub proof fn lemma_extract_order_independent(
    pages: Map<usize, Vec<u8>>,
    sec1: SectionDefinition,
    sec2: SectionDefinition,
    a: Op,
    b: Op,
)
    requires
        sec1.pages == sec2.pages,
        sec1.span == sec2.span,
        sec1.ops@ == seq![a, b],
        sec2.ops@ == seq![b, a],
        op_wf(a),
        op_wf(b),
        ops_disjoint(a, b),
    ensures
        extracted_text(pages, sec1) == extracted_text(pages, sec2),
{
    lemma_delete_order_independent(working_text(pages, sec1), a, b);
    assert(working_text(pages, sec1) == working_text(pages, sec2));
}

} // verus!
