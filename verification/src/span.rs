//! Byte-range markers into a source text, and batch application of
//! non-overlapping text replacements.

use vstd::prelude::*;

verus! {

/// A byte range `[start, end)` into one specific source text.
#[derive(Clone, Copy, Debug, PartialEq, Eq, Structural)]
pub struct Span {
    pub start: usize,
    pub end: usize,
}

impl Span {
    pub fn new(start: usize, end: usize) -> (s: Span)
        ensures
            s.start == start,
            s.end == end,
    {
        Span { start, end }
    }
}

/// A value paired with the byte range it was read from.
#[derive(Clone, Debug)]
pub struct WithSpan<T> {
    pub value: T,
    pub position: Span,
}

impl<T> WithSpan<T> {
    /// Transform the carried value; the position is kept as it is.
    pub fn map<U, F: FnOnce(T) -> U>(self, f: F) -> (r: WithSpan<U>)
        requires
            f.requires((self.value,)),
        ensures
            f.ensures((self.value,), r.value),
            r.position == self.position,
    {
        WithSpan { value: f(self.value), position: self.position }
    }
}

/// One replacement: the byte range `span` of the original text is to be
/// replaced by `text`.
#[derive(Debug)]
pub struct Edit {
    pub span: Span,
    pub text: Vec<u8>,
}

impl View for Edit {
    type V = (Span, Seq<u8>);

    open spec fn view(&self) -> (Span, Seq<u8>) {
        (self.span, self.text@)
    }
}

impl DeepView for Edit {
    type V = (Span, Seq<u8>);

    open spec fn deep_view(&self) -> (Span, Seq<u8>) {
        self.view()
    }
}

/// Every edit's span is a well-formed range within a text of length `len`.
pub open spec fn edits_in_bounds(edits: Seq<Edit>, len: nat) -> bool {
    forall|i: int|
        0 <= i < edits.len() ==> #[trigger] edits[i].span.start <= edits[i].span.end <= len
}

/// Insert `e` after every element whose start is at most `e`'s start.
/// Inserting each element of a sequence in turn yields a stable sort.
pub open spec fn insert_by_start(sorted: Seq<Edit>, e: Edit) -> Seq<Edit>
    decreases sorted.len(),
{
    if sorted.len() == 0 {
        seq![e]
    } else if e.span.start < sorted.last().span.start {
        insert_by_start(sorted.drop_last(), e).push(sorted.last())
    } else {
        sorted.push(e)
    }
}

/// Stable sort of edits by span start: equal starts keep their given order.
pub open spec fn sort_by_start(edits: Seq<Edit>) -> Seq<Edit>
    decreases edits.len(),
{
    if edits.len() == 0 {
        Seq::empty()
    } else {
        insert_by_start(sort_by_start(edits.drop_last()), edits.last())
    }
}

/// The text produced by walking edits (already sorted by start) left to
/// right with a cursor: an edit starting before the cursor overlaps the
/// previous one and is dropped; otherwise the original text up to the
/// edit's start is kept, the replacement text is emitted, and the cursor
/// jumps to the edit's end.  What is left of the original text follows.
pub open spec fn apply_from(edits: Seq<Edit>, orig: Seq<u8>, cursor: int) -> Seq<u8>
    decreases edits.len(),
{
    if edits.len() == 0 {
        orig.skip(cursor)
    } else if edits.first().span.start < cursor {
        apply_from(edits.drop_first(), orig, cursor)
    } else {
        orig.subrange(cursor, edits.first().span.start as int) + edits.first().text@
            + apply_from(edits.drop_first(), orig, edits.first().span.end as int)
    }
}

proof fn lemma_insert_by_start_at(s: Seq<Edit>, e: Edit, i: int)
    requires
        0 <= i <= s.len(),
        forall|j: int| i <= j < s.len() ==> e.span.start < #[trigger] s[j].span.start,
        i > 0 ==> s[i - 1].span.start <= e.span.start,
    ensures
        insert_by_start(s, e) =~= s.subrange(0, i) + seq![e] + s.subrange(i, s.len() as int),
    decreases s.len(),
{
    if s.len() == 0 {
    } else if i == s.len() {
        assert(insert_by_start(s, e) == s.push(e));
    } else {
        assert(e.span.start < s.last().span.start);
        lemma_insert_by_start_at(s.drop_last(), e, i);
    }
}

proof fn lemma_insert_by_start_membership(s: Seq<Edit>, e: Edit, x: Edit)
    requires
        insert_by_start(s, e).contains(x),
    ensures
        x == e || s.contains(x),
    decreases s.len(),
{
    if s.len() == 0 {
    } else if e.span.start < s.last().span.start {
        let r = insert_by_start(s.drop_last(), e);
        let k = choose|k: int| 0 <= k < r.push(s.last()).len() && r.push(s.last())[k] == x;
        if k < r.len() {
            lemma_insert_by_start_membership(s.drop_last(), e, x);
        }
    }
}

proof fn lemma_sort_by_start_membership(s: Seq<Edit>, x: Edit)
    requires
        sort_by_start(s).contains(x),
    ensures
        s.contains(x),
    decreases s.len(),
{
    if s.len() == 0 {
    } else {
        lemma_insert_by_start_membership(sort_by_start(s.drop_last()), s.last(), x);
        if x != s.last() && sort_by_start(s.drop_last()).contains(x) {
            lemma_sort_by_start_membership(s.drop_last(), x);
        }
    }
}

/// Insert `e` into `r` keeping elements with equal start before it.
fn insert_edit(r: &mut Vec<Edit>, e: Edit)
    ensures
        final(r)@ == insert_by_start(old(r)@, e),
{
    let mut i: usize = r.len();
    while i > 0 && r[i - 1].span.start > e.span.start
        invariant
            0 <= i <= r@.len(),
            forall|j: int| i <= j < r@.len() ==> e.span.start < #[trigger] r@[j].span.start,
        decreases i,
    {
        i = i - 1;
    }
    proof {
        lemma_insert_by_start_at(r@, e, i as int);
    }
    r.insert(i, e);
}

impl Edit {
    /// Apply a batch of edits to the original text, producing the new text.
    /// Edits are applied in ascending span order; an edit that overlaps an
    /// earlier-starting one is silently dropped.
    pub fn apply_edits(edits: Vec<Edit>, original: &[u8]) -> (result: Vec<u8>)
        requires
            edits_in_bounds(edits@, original@.len()),
        ensures
            result@ == apply_from(sort_by_start(edits@), original@, 0),
    {
        let ghost all = edits@;
        let mut edits = edits;
        let mut sorted: Vec<Edit> = Vec::new();
        let ghost mut k: int = 0;
        proof {
            assert(all.skip(0) =~= all);
            assert(all.take(0) =~= Seq::<Edit>::empty());
        }
        while edits.len() > 0
            invariant
                0 <= k <= all.len(),
                edits@ == all.skip(k),
                sorted@ == sort_by_start(all.take(k)),
            decreases edits@.len(),
        {
            let e = edits.remove(0);
            proof {
                assert(all.take(k + 1).drop_last() =~= all.take(k));
                assert(all.take(k + 1).last() == all[k]);
                assert(all.skip(k).remove(0) =~= all.skip(k + 1));
            }
            insert_edit(&mut sorted, e);
            proof {
                k = k + 1;
            }
        }
        proof {
            assert(all.take(all.len() as int) =~= all);
            assert forall|i: int| 0 <= i < sorted@.len() implies #[trigger] sorted@[i].span.start
                <= sorted@[i].span.end <= original@.len() by {
                lemma_sort_by_start_membership(all, sorted@[i]);
            }
        }

        let ghost target = sort_by_start(all);
        let mut result: Vec<u8> = Vec::new();
        let mut cursor: usize = 0;
        let mut idx: usize = 0;
        proof {
            assert(sorted@.skip(0) =~= sorted@);
        }
        while idx < sorted.len()
            invariant
                0 <= idx <= sorted@.len(),
                cursor <= original@.len(),
                sorted@ == target,
                forall|i: int|
                    0 <= i < sorted@.len() ==> #[trigger] sorted@[i].span.start
                        <= sorted@[i].span.end <= original@.len(),
                apply_from(target, original@, 0) == result@ + apply_from(
                    sorted@.skip(idx as int),
                    original@,
                    cursor as int,
                ),
            decreases sorted@.len() - idx,
        {
            let ghost pre = sorted@.skip(idx as int);
            proof {
                assert(pre.drop_first() =~= sorted@.skip(idx as int + 1));
                assert(pre.first() == sorted@[idx as int]);
            }
            let start = sorted[idx].span.start;
            let end = sorted[idx].span.end;
            if start >= cursor {
                result.extend_from_slice(vstd::slice::slice_subrange(original, cursor, start));
                result.extend_from_slice(sorted[idx].text.as_slice());
                cursor = end;
            }
            idx = idx + 1;
        }
        proof {
            assert(sorted@.skip(sorted@.len() as int) =~= Seq::<Edit>::empty());
            assert(original@.subrange(cursor as int, original@.len() as int) =~= original@.skip(
                cursor as int,
            ));
        }
        result.extend_from_slice(vstd::slice::slice_subrange(original, cursor, original.len()));
        result
    }
}

} // verus!
