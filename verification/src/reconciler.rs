//! Span/orphan reconciler: the core stateful algorithm.
//!
//! The reconciler grows one contiguous current span, merges it with
//! historical spans loaded from the store, and tracks out-of-order
//! batch results until they become contiguous.  Every boundary change
//! of the current span is persisted under its (possibly new) end key
//! before the next decision, so the store never drifts from memory by
//! more than one uncommitted record.  Writes are ordered so that the
//! store holds a well-formed span image at every point in between:
//! the record being rewritten is withdrawn first and the merged
//! boundary is persisted last, so a crash anywhere leaves a store
//! that loads.

use vstd::prelude::*;

use std::collections::HashMap;

use crate::codec::{
    be32, be32_val, lemma_be32_injective, lemma_be32_order, lemma_be32_roundtrip,
    lemma_be32_val_roundtrip, u32_from_be, u32_to_be, SpanDbValue,
};
use crate::codec::lex_lt;
use crate::span::{spans_wf, Span};
use crate::store::{tree_contents, tree_insert, tree_remove, tree_scan};
use crate::IndexError;

verus! {

broadcast use vstd::std_specs::hash::group_hash_axioms;

/// Abstract reconciler state: the current span, the historical spans
/// in ascending order, and the orphaned block numbers.
pub ghost struct RecState {
    pub current: Span,
    pub spans: Seq<Span>,
    pub orphans: Set<u32>,
}

/// Absorb historical spans into the current span while the newest one
/// touches or overlaps it from below.
pub open spec fn merge(st: RecState) -> RecState
    decreases st.spans.len(),
{
    if st.spans.len() > 0 && st.current.start > st.spans.last().start && st.current.start - 1
        <= st.spans.last().end {
        merge(
            RecState {
                current: Span { start: st.spans.last().start, end: st.current.end },
                spans: st.spans.drop_last(),
                orphans: st.orphans,
            },
        )
    } else {
        st
    }
}

/// Fold orphans into the current span while the block just below its
/// start is orphaned, merging with history after each step.
pub open spec fn cascade(st: RecState) -> RecState
    decreases st.current.start,
    via cascade_decreases
{
    if st.current.start > 0 && st.orphans.contains((st.current.start - 1) as u32) {
        let b = (st.current.start - 1) as u32;
        cascade(
            merge(
                RecState {
                    current: Span { start: b, end: st.current.end },
                    spans: st.spans,
                    orphans: st.orphans.remove(b),
                },
            ),
        )
    } else {
        st
    }
}

/// Merging never raises the start of the current span.
pub proof fn lemma_merge_start(st: RecState)
    ensures
        merge(st).current.start <= st.current.start,
        merge(st).current.end == st.current.end,
        merge(st).orphans == st.orphans,
    decreases st.spans.len(),
{
    if st.spans.len() > 0 && st.current.start > st.spans.last().start && st.current.start - 1
        <= st.spans.last().end {
        lemma_merge_start(
            RecState {
                current: Span { start: st.spans.last().start, end: st.current.end },
                spans: st.spans.drop_last(),
                orphans: st.orphans,
            },
        );
    }
}

#[via_fn]
proof fn cascade_decreases(st: RecState) {
    if st.current.start > 0 && st.orphans.contains((st.current.start - 1) as u32) {
        let b = (st.current.start - 1) as u32;
        lemma_merge_start(
            RecState {
                current: Span { start: b, end: st.current.end },
                spans: st.spans,
                orphans: st.orphans.remove(b),
            },
        );
    }
}

/// One batch result integrated: either the block extends the current
/// span downward (followed by merging and the orphan cascade), or it is
/// held as an orphan.
pub open spec fn integrate(st: RecState, b: u32) -> RecState {
    if st.current.start > 0 && b == st.current.start - 1 {
        cascade(
            merge(
                RecState {
                    current: Span { start: b, end: st.current.end },
                    spans: st.spans,
                    orphans: st.orphans,
                },
            ),
        )
    } else {
        RecState { current: st.current, spans: st.spans, orphans: st.orphans.insert(b) }
    }
}

/// Merging ignores the orphan set.
pub proof fn lemma_merge_orphans(st: RecState, orphans: Set<u32>)
    ensures
        merge(RecState { current: st.current, spans: st.spans, orphans }) == (RecState {
            current: merge(st).current,
            spans: merge(st).spans,
            orphans,
        }),
    decreases st.spans.len(),
{
    if st.spans.len() > 0 && st.current.start > st.spans.last().start && st.current.start - 1
        <= st.spans.last().end {
        lemma_merge_orphans(
            RecState {
                current: Span { start: st.spans.last().start, end: st.current.end },
                spans: st.spans.drop_last(),
                orphans: st.orphans,
            },
            orphans,
        );
    }
}

/// Adding one fresh orphan before the cascade comes to the same as
/// integrating that block after it: either the finished cascade ends
/// just above the block, which then extends it exactly as a later
/// integration would, or the block simply stays an orphan.
pub proof fn lemma_cascade_extra(st: RecState, b: u32)
    requires
        !st.orphans.contains(b),
    ensures
        cascade(RecState { current: st.current, spans: st.spans, orphans: st.orphans.insert(b) })
            == integrate(cascade(st), b),
    decreases st.current.start,
{
    let base = cascade(st);
    let stb = RecState { current: st.current, spans: st.spans, orphans: st.orphans.insert(b) };
    if st.current.start > 0 && st.orphans.contains((st.current.start - 1) as u32) {
        let c = (st.current.start - 1) as u32;
        let mid = RecState {
            current: Span { start: c, end: st.current.end },
            spans: st.spans,
            orphans: st.orphans.remove(c),
        };
        assert(st.orphans.insert(b).remove(c) =~= st.orphans.remove(c).insert(b));
        lemma_merge_orphans(
            RecState { current: mid.current, spans: mid.spans, orphans: st.orphans.remove(c) },
            st.orphans.remove(c).insert(b),
        );
        lemma_merge_start(mid);
        lemma_cascade_extra(merge(mid), b);
        assert(cascade(stb) == cascade(
            RecState {
                current: merge(mid).current,
                spans: merge(mid).spans,
                orphans: merge(mid).orphans.insert(b),
            },
        ));
    } else {
        assert(base == st);
        if st.current.start > 0 && b == st.current.start - 1 {
            assert(st.orphans.insert(b).contains((st.current.start - 1) as u32));
            assert(st.orphans.insert(b).remove(b) =~= st.orphans);
            assert(cascade(stb) == cascade(
                merge(
                    RecState {
                        current: Span { start: b, end: st.current.end },
                        spans: st.spans,
                        orphans: st.orphans,
                    },
                ),
            ));
        } else {
            assert(cascade(stb) == stb);
        }
    }
}

/// Order independence of batch integration, pairwise: integrating two
/// distinct, not yet seen blocks leaves the same current span, the
/// same historical spans and the same orphans in either order.  This
/// is the step that lets any interleaving of batch results covering
/// one block set end where processing them in strict descending order
/// ends.
pub proof fn lemma_integrate_commutes(st: RecState, a: u32, b: u32)
    requires
        a != b,
        !st.orphans.contains(a),
        !st.orphans.contains(b),
    ensures
        integrate(integrate(st, a), b) == integrate(integrate(st, b), a),
{
    let s = st.current.start;
    if s > 0 && a == s - 1 {
        lemma_integrate_one_orphaned(st, a, b);
    } else if s > 0 && b == s - 1 {
        lemma_integrate_one_orphaned(st, b, a);
    } else {
        assert(st.orphans.insert(a).insert(b) =~= st.orphans.insert(b).insert(a));
    }
}

/// The asymmetric case of pairwise order independence: `a` is the
/// block just below the current span, `b` is any other block.
proof fn lemma_integrate_one_orphaned(st: RecState, a: u32, b: u32)
    requires
        a != b,
        !st.orphans.contains(a),
        !st.orphans.contains(b),
        st.current.start > 0,
        a == st.current.start - 1,
    ensures
        integrate(integrate(st, a), b) == integrate(integrate(st, b), a),
{
    let stepped = RecState {
        current: Span { start: a, end: st.current.end },
        spans: st.spans,
        orphans: st.orphans,
    };
    // Integrating b first leaves the current span alone, so a still
    // extends it; the extra orphan b is then either consumed by the
    // cascade exactly when a later integration of b would extend the
    // result, or it stays an orphan in both orders.
    assert(integrate(st, b) == (RecState {
        current: st.current,
        spans: st.spans,
        orphans: st.orphans.insert(b),
    }));
    lemma_merge_orphans(stepped, st.orphans.insert(b));
    lemma_merge_start(stepped);
    lemma_cascade_extra(merge(stepped), b);
    assert(integrate(integrate(st, b), a) == cascade(
        RecState {
            current: merge(stepped).current,
            spans: merge(stepped).spans,
            orphans: merge(stepped).orphans.insert(b),
        },
    ));
    assert(integrate(integrate(st, a), b) == integrate(cascade(merge(stepped)), b));
}

/// The cascade only consumes orphans.
pub proof fn lemma_cascade_orphans(st: RecState)
    ensures
        cascade(st).orphans.subset_of(st.orphans),
    decreases st.current.start,
{
    if st.current.start > 0 && st.orphans.contains((st.current.start - 1) as u32) {
        let b = (st.current.start - 1) as u32;
        let mid = RecState {
            current: Span { start: b, end: st.current.end },
            spans: st.spans,
            orphans: st.orphans.remove(b),
        };
        lemma_merge_start(mid);
        lemma_cascade_orphans(merge(mid));
    }
}

/// Integration adds at most the integrated block to the orphans.
pub proof fn lemma_integrate_orphans(st: RecState, b: u32)
    ensures
        integrate(st, b).orphans.subset_of(st.orphans.insert(b)),
{
    if st.current.start > 0 && b == st.current.start - 1 {
        let stepped = RecState {
            current: Span { start: b, end: st.current.end },
            spans: st.spans,
            orphans: st.orphans,
        };
        lemma_merge_start(stepped);
        lemma_cascade_orphans(merge(stepped));
        assert(st.orphans.subset_of(st.orphans.insert(b)));
    }
}

/// A whole run of batch results integrated in order.
pub open spec fn integrate_all(st: RecState, bs: Seq<u32>) -> RecState
    decreases bs.len(),
{
    if bs.len() == 0 {
        st
    } else {
        integrate_all(integrate(st, bs[0]), bs.drop_first())
    }
}

/// A block anywhere in a run of distinct, not yet seen results can be
/// integrated first without changing the outcome.
pub proof fn lemma_integrate_all_pull(st: RecState, pre: Seq<u32>, x: u32, post: Seq<u32>)
    requires
        (pre + seq![x] + post).no_duplicates(),
        forall|i: int|
            0 <= i < (pre + seq![x] + post).len() ==> !st.orphans.contains(
                #[trigger] (pre + seq![x] + post)[i],
            ),
    ensures
        integrate_all(st, pre + seq![x] + post) == integrate_all(integrate(st, x), pre + post),
    decreases pre.len(),
{
    let whole = pre + seq![x] + post;
    if pre.len() == 0 {
        assert(whole =~= seq![x] + post);
        assert(whole[0] == x);
        assert(whole.drop_first() =~= post);
        assert(pre + post =~= post);
    } else {
        let h = pre[0];
        assert(whole[0] == h);
        let rest = pre.drop_first() + seq![x] + post;
        assert(whole.drop_first() =~= rest);
        assert(rest.no_duplicates()) by {
            assert forall|i: int, j: int| 0 <= i < j < rest.len() implies rest[i] != rest[j] by {
                assert(rest[i] == whole[i + 1] && rest[j] == whole[j + 1]);
            }
        }
        assert(h != x) by {
            assert(whole[0] == h && whole[pre.len() as int] == x);
        }
        assert(!st.orphans.contains(h) && !st.orphans.contains(x)) by {
            assert(whole[pre.len() as int] == x);
        }
        let st_h = integrate(st, h);
        lemma_integrate_orphans(st, h);
        assert forall|i: int| 0 <= i < rest.len() implies !st_h.orphans.contains(
            #[trigger] rest[i],
        ) by {
            assert(rest[i] == whole[i + 1]);
        }
        lemma_integrate_all_pull(st_h, pre.drop_first(), x, post);
        lemma_integrate_commutes(st, h, x);
        let st_x = integrate(st, x);
        lemma_integrate_orphans(st, x);
        assert((pre + post).drop_first() =~= pre.drop_first() + post);
        assert((pre + post)[0] == h);
        assert(integrate_all(st_x, pre + post) == integrate_all(
            integrate(st_x, h),
            pre.drop_first() + post,
        ));
    }
}

/// Order independence of batch integration: two runs of distinct, not
/// yet seen results that cover the same block set end in the same
/// current span, the same historical spans and the same orphan set —
/// in particular, any interleaving ends where processing the set in
/// strict descending order ends.
pub proof fn lemma_integrate_all_order_independent(st: RecState, bs1: Seq<u32>, bs2: Seq<u32>)
    requires
        bs1.no_duplicates(),
        bs2.no_duplicates(),
        forall|y: u32| bs1.contains(y) <==> bs2.contains(y),
        forall|i: int| 0 <= i < bs1.len() ==> !st.orphans.contains(#[trigger] bs1[i]),
    ensures
        integrate_all(st, bs1) == integrate_all(st, bs2),
    decreases bs1.len(),
{
    if bs1.len() == 0 {
        if bs2.len() > 0 {
            assert(bs2.contains(bs2[0]));
            assert(bs1.contains(bs2[0]));
        }
    } else {
        let x = bs1[0];
        assert(bs1.contains(x));
        assert(bs2.contains(x));
        let j = choose|j: int| 0 <= j < bs2.len() && bs2[j] == x;
        let pre2 = bs2.subrange(0, j);
        let post2 = bs2.subrange(j + 1, bs2.len() as int);
        assert(bs2 =~= pre2 + seq![x] + post2);
        assert forall|i: int| 0 <= i < bs2.len() implies !st.orphans.contains(
            #[trigger] bs2[i],
        ) by {
            assert(bs1.contains(bs2[i]));
            let i1 = choose|i1: int| 0 <= i1 < bs1.len() && bs1[i1] == bs2[i];
        }
        lemma_integrate_all_pull(st, pre2, x, post2);
        let st_x = integrate(st, x);
        lemma_integrate_orphans(st, x);
        let rest1 = bs1.drop_first();
        let rest2 = pre2 + post2;
        assert(rest1.no_duplicates()) by {
            assert forall|i: int, k: int| 0 <= i < k < rest1.len() implies rest1[i] != rest1[k] by {
                assert(rest1[i] == bs1[i + 1] && rest1[k] == bs1[k + 1]);
            }
        }
        assert(rest2.no_duplicates()) by {
            assert forall|i: int, k: int| 0 <= i < k < rest2.len() implies rest2[i] != rest2[k] by {
                let mi = if i < j {
                    i
                } else {
                    i + 1
                };
                let mk = if k < j {
                    k
                } else {
                    k + 1
                };
                assert(rest2[i] == bs2[mi] && rest2[k] == bs2[mk]);
            }
        }
        assert forall|y: u32| rest1.contains(y) <==> rest2.contains(y) by {
            if rest1.contains(y) {
                let i = choose|i: int| 0 <= i < rest1.len() && rest1[i] == y;
                assert(bs1[i + 1] == y);
                assert(y != x);
                assert(bs2.contains(y));
                let k = choose|k: int| 0 <= k < bs2.len() && bs2[k] == y;
                assert(k != j);
                if k < j {
                    assert(rest2[k] == y);
                } else {
                    assert(rest2[k - 1] == y);
                }
                assert(rest2.contains(y));
            }
            if rest2.contains(y) {
                let i = choose|i: int| 0 <= i < rest2.len() && rest2[i] == y;
                let mi = if i < j {
                    i
                } else {
                    i + 1
                };
                assert(bs2[mi] == y);
                assert(y != x) by {
                    assert(mi != j);
                }
                assert(bs1.contains(y));
                let k = choose|k: int| 0 <= k < bs1.len() && bs1[k] == y;
                assert(k != 0);
                assert(rest1[k - 1] == y);
                assert(rest1.contains(y));
            }
        }
        assert forall|i: int| 0 <= i < rest1.len() implies !st_x.orphans.contains(
            #[trigger] rest1[i],
        ) by {
            assert(rest1[i] == bs1[i + 1]);
        }
        lemma_integrate_all_order_independent(st_x, rest1, rest2);
    }
}

/// The store image of a span collection: each span recorded under its
/// big-endian end key with its big-endian start as value.
pub open spec fn spans_store_map(s: Seq<Span>) -> Map<Seq<u8>, Seq<u8>>
    decreases s.len(),
{
    if s.len() == 0 {
        Map::empty()
    } else {
        spans_store_map(s.drop_last()).insert(be32(s.last().end), be32(s.last().start))
    }
}

/// A key for an end that no span of the collection has is absent from
/// its store image.
pub proof fn lemma_spans_store_fresh(s: Seq<Span>, e: u32)
    requires
        forall|i: int| 0 <= i < s.len() ==> (#[trigger] s[i]).end != e,
    ensures
        !spans_store_map(s).contains_key(be32(e)),
    decreases s.len(),
{
    if s.len() > 0 {
        lemma_spans_store_fresh(s.drop_last(), e);
        lemma_be32_roundtrip(e);
        lemma_be32_roundtrip(s.last().end);
    }
}

/// Removing the newest span's record from the store image gives the
/// image of the remaining spans.
pub proof fn lemma_spans_store_pop(s: Seq<Span>)
    requires
        s.len() > 0,
        forall|i: int| 0 <= i < s.len() - 1 ==> (#[trigger] s[i]).end != s.last().end,
    ensures
        spans_store_map(s).remove(be32(s.last().end)) == spans_store_map(s.drop_last()),
{
    lemma_spans_store_fresh(s.drop_last(), s.last().end);
    assert(spans_store_map(s).remove(be32(s.last().end)) =~= spans_store_map(s.drop_last()));
}

/// Every span of a well-formed collection is recorded in its store
/// image under its end key, with its start as value.
pub proof fn lemma_spans_store_at(s: Seq<Span>, i: int)
    requires
        spans_wf(s),
        0 <= i < s.len(),
    ensures
        spans_store_map(s).contains_key(be32(s[i].end)),
        spans_store_map(s)[be32(s[i].end)] == be32(s[i].start),
    decreases s.len(),
{
    if i < s.len() - 1 {
        lemma_spans_store_at(s.drop_last(), i);
        lemma_be32_roundtrip(s[i].end);
        lemma_be32_roundtrip(s.last().end);
        assert(s[i].end + 1 < s.last().start);
    }
}

/// Every key of a store image is the end key of one of its spans.
pub proof fn lemma_spans_store_dom(s: Seq<Span>, k: Seq<u8>)
    requires
        spans_store_map(s).contains_key(k),
    ensures
        exists|i: int| 0 <= i < s.len() && k == be32(#[trigger] s[i].end),
    decreases s.len(),
{
    if s.len() > 0 {
        if k == be32(s.last().end) {
            assert(0 <= s.len() - 1 < s.len() && k == be32(s[s.len() - 1].end));
        } else {
            lemma_spans_store_dom(s.drop_last(), k);
            let i = choose|i: int| 0 <= i < s.len() - 1 && k == be32(#[trigger] s.drop_last()[i].end);
            assert(0 <= i < s.len() && k == be32(s[i].end));
        }
    }
}

/// Persistence is faithful: a well-formed span collection is
/// determined by its store image, so loading the store after
/// persisting a collection and indexing nothing further reproduces
/// exactly that collection.  (`load_spans` returns a well-formed
/// collection whose image is the store contents; by this lemma it is
/// the one that was persisted.)
pub proof fn lemma_store_roundtrip(s1: Seq<Span>, s2: Seq<Span>)
    requires
        spans_wf(s1),
        spans_wf(s2),
        spans_store_map(s1) == spans_store_map(s2),
    ensures
        s1 == s2,
    decreases s1.len(),
{
    if s1.len() == 0 && s2.len() == 0 {
        assert(s1 =~= s2);
    } else if s1.len() == 0 {
        lemma_spans_store_at(s2, s2.len() - 1);
        assert(spans_store_map(s1).dom() =~= Set::<Seq<u8>>::empty());
    } else if s2.len() == 0 {
        lemma_spans_store_at(s1, s1.len() - 1);
        assert(spans_store_map(s2).dom() =~= Set::<Seq<u8>>::empty());
    } else {
        let l1 = s1.last();
        let l2 = s2.last();
        lemma_spans_store_at(s1, s1.len() - 1);
        lemma_spans_store_at(s2, s2.len() - 1);
        lemma_spans_store_dom(s2, be32(l1.end));
        let i = choose|i: int| 0 <= i < s2.len() && be32(l1.end) == be32(#[trigger] s2[i].end);
        lemma_be32_injective(l1.end, s2[i].end);
        if i < s2.len() - 1 {
            // A span above it in s2 would then also stand in s1 above
            // its last span, against the ascending order.
            assert(s2[i].end + 1 < l2.start);
            lemma_spans_store_dom(s1, be32(l2.end));
            let j = choose|j: int| 0 <= j < s1.len() && be32(l2.end) == be32(#[trigger] s1[j].end);
            lemma_be32_injective(l2.end, s1[j].end);
            if j < s1.len() - 1 {
                assert(s1[j].end + 1 < l1.start);
            }
        }
        assert(l1.end == l2.end);
        lemma_spans_store_at(s2, s2.len() - 1);
        lemma_be32_injective(l1.start, l2.start);
        assert(l1 == l2);
        assert forall|a: int, b: int| 0 <= a < b < s1.len() - 1 implies (
        #[trigger] s1.drop_last()[a]).end + 1 < (#[trigger] s1.drop_last()[b]).start by {
            assert(s1[a].end + 1 < s1[b].start);
        }
        assert forall|a: int, b: int| 0 <= a < b < s2.len() - 1 implies (
        #[trigger] s2.drop_last()[a]).end + 1 < (#[trigger] s2.drop_last()[b]).start by {
            assert(s2[a].end + 1 < s2[b].start);
        }
        assert forall|a: int| 0 <= a < s1.len() - 1 implies (#[trigger] s1.drop_last()[a]).end
            != l1.end by {
            assert(s1[a].end + 1 < l1.start);
        }
        assert forall|a: int| 0 <= a < s2.len() - 1 implies (#[trigger] s2.drop_last()[a]).end
            != l2.end by {
            assert(s2[a].end + 1 < l2.start);
        }
        lemma_spans_store_pop(s1);
        lemma_spans_store_pop(s2);
        lemma_store_roundtrip(s1.drop_last(), s2.drop_last());
        assert(s1 =~= s1.drop_last().push(l1));
        assert(s2 =~= s2.drop_last().push(l2));
    }
}

/// Whether a run of store records, in store order, is a valid span
/// image: 4-byte keys and values, no inverted span, and consecutive
/// spans in ascending order that neither overlap nor touch.
pub open spec fn span_pairs_valid(p: Seq<(Vec<u8>, Vec<u8>)>) -> bool {
    forall|j: int|
        0 <= j < p.len() ==> {
            &&& (#[trigger] p[j]).0@.len() == 4
            &&& p[j].1@.len() == 4
            &&& be32_val(p[j].1@) <= be32_val(p[j].0@)
            &&& (j > 0 ==> be32_val(p[j - 1].0@) + 1 < be32_val(p[j].1@))
        }
}

/// Decode scanned span records: each key is the 4-byte big-endian span
/// end, each value the 4-byte big-endian span start.  Exactly the
/// records of another shape, an inverted span, or a pair of spans that
/// are out of order, overlap or touch make the data malformed.
pub fn decode_spans(pairs: &Vec<(Vec<u8>, Vec<u8>)>) -> (r: Result<Vec<Span>, IndexError>)
    ensures
        r matches Ok(v) ==> {
            &&& v@.len() == pairs@.len()
            &&& forall|j: int|
                0 <= j < v@.len() ==> pairs@[j].0@ == be32(#[trigger] v@[j].end) && pairs@[j].1@
                    == be32(v@[j].start)
            &&& spans_wf(v@)
        },
        r is Err ==> r matches Err(IndexError::ParseError),
        r is Ok <==> span_pairs_valid(pairs@),
{
    let mut v: Vec<Span> = Vec::new();
    let mut idx: usize = 0;
    while idx < pairs.len()
        invariant
            idx <= pairs@.len(),
            v@.len() == idx,
            forall|j: int|
                0 <= j < v@.len() ==> pairs@[j].0@ == be32(#[trigger] v@[j].end) && pairs@[j].1@
                    == be32(v@[j].start),
            spans_wf(v@),
        decreases pairs@.len() - idx,
    {
        let key = &pairs[idx].0;
        if key.len() != 4 {
            proof {
                assert(!span_pairs_valid(pairs@)) by {
                    assert(pairs@[idx as int].0@.len() != 4);
                }
            }
            return Err(IndexError::ParseError);
        }
        let end: u32 = u32_from_be(key);
        let value = match SpanDbValue::read_from_bytes(&pairs[idx].1) {
            Some(value) => value,
            None => {
                proof {
                    assert(!span_pairs_valid(pairs@)) by {
                        assert(pairs@[idx as int].1@.len() != 4);
                    }
                }
                return Err(IndexError::ParseError);
            },
        };
        let start: u32 = value.start;
        if start > end {
            proof {
                assert(!span_pairs_valid(pairs@)) by {
                    assert(be32_val(pairs@[idx as int].1@) > be32_val(pairs@[idx as int].0@));
                }
            }
            return Err(IndexError::ParseError);
        }
        if v.len() > 0 {
            let prev: Span = v[v.len() - 1];
            if (start as u64) <= (prev.end as u64) + 1 {
                proof {
                    lemma_be32_roundtrip(prev.end);
                    assert(!span_pairs_valid(pairs@)) by {
                        assert(be32_val(pairs@[idx - 1].0@) == prev.end);
                        assert(!(be32_val(pairs@[idx - 1].0@) + 1 < be32_val(
                            pairs@[idx as int].1@,
                        )));
                    }
                }
                return Err(IndexError::ParseError);
            }
        }
        proof {
            lemma_be32_val_roundtrip(pairs@[idx as int].0@);
            lemma_be32_val_roundtrip(pairs@[idx as int].1@);
            if v@.len() > 0 {
                assert forall|i: int| 0 <= i < v@.len() implies (#[trigger] v@[i]).end + 1
                    < start by {
                    if i < v@.len() - 1 {
                        assert(v@[i].end + 1 < v@[v@.len() - 1].start);
                    }
                }
            }
        }
        v.push(Span { start, end });
        idx = idx + 1;
    }
    proof {
        assert forall|j: int| 0 <= j < pairs@.len() implies {
            &&& (#[trigger] pairs@[j]).0@.len() == 4
            &&& pairs@[j].1@.len() == 4
            &&& be32_val(pairs@[j].1@) <= be32_val(pairs@[j].0@)
            &&& (j > 0 ==> be32_val(pairs@[j - 1].0@) + 1 < be32_val(pairs@[j].1@))
        } by {
            lemma_be32_roundtrip(v@[j].end);
            lemma_be32_roundtrip(v@[j].start);
            if j > 0 {
                lemma_be32_roundtrip(v@[j - 1].end);
                assert(v@[j - 1].end + 1 < v@[j].start);
            }
        }
    }
    Ok(v)
}

/// Load the previously indexed spans from the span tree, reconstructing
/// every interval from its end key and start value.  On success the
/// returned collection is well formed and its store image is exactly
/// what the tree holds.  Malformed data is reported only when the tree
/// holds no valid span image at all: whenever the tree holds the image
/// of some well-formed collection and the store cooperates, loading
/// succeeds, and by `lemma_store_roundtrip` it returns that collection.
pub fn load_spans(span_db: &sled::Tree) -> (r: Result<Vec<Span>, IndexError>)
    ensures
        r matches Ok(v) ==> {
            &&& spans_wf(v@)
            &&& spans_store_map(v@) == tree_contents(*span_db)
        },
        forall|s: Seq<Span>|
            spans_wf(s) && tree_contents(*span_db) == spans_store_map(s) ==> !(r matches Err(
                IndexError::ParseError,
            )),
        r is Err ==> (r matches Err(IndexError::Sled(_)) || r matches Err(IndexError::ParseError)),
{
    let pairs = match tree_scan(span_db) {
        Ok(pairs) => pairs,
        Err(e) => {
            return Err(IndexError::Sled(e));
        },
    };
    let v = match decode_spans(&pairs) {
        Ok(v) => v,
        Err(e) => {
            proof {
                assert forall|s: Seq<Span>|
                    spans_wf(s) && tree_contents(*span_db) == spans_store_map(s) implies false by {
                    assert forall|j: int| 0 <= j < pairs@.len() implies {
                        &&& (#[trigger] pairs@[j]).0@.len() == 4
                        &&& pairs@[j].1@.len() == 4
                        &&& be32_val(pairs@[j].1@) <= be32_val(pairs@[j].0@)
                        &&& (j > 0 ==> be32_val(pairs@[j - 1].0@) + 1 < be32_val(pairs@[j].1@))
                    } by {
                        lemma_spans_store_dom(s, pairs@[j].0@);
                        let i = choose|i: int|
                            0 <= i < s.len() && pairs@[j].0@ == be32(#[trigger] s[i].end);
                        lemma_spans_store_at(s, i);
                        lemma_be32_roundtrip(s[i].end);
                        lemma_be32_roundtrip(s[i].start);
                        if j > 0 {
                            lemma_spans_store_dom(s, pairs@[j - 1].0@);
                            let i0 = choose|i0: int|
                                0 <= i0 < s.len() && pairs@[j - 1].0@ == be32(#[trigger] s[i0].end);
                            lemma_spans_store_at(s, i0);
                            lemma_be32_roundtrip(s[i0].end);
                            lemma_be32_order(s[i0].end, s[i].end);
                            assert(lex_lt(pairs@[j - 1].0@, pairs@[j].0@));
                            if i0 > i {
                                assert(s[i].end + 1 < s[i0].start);
                            }
                            assert(i0 < i);
                            assert(s[i0].end + 1 < s[i].start);
                        }
                    }
                    assert(span_pairs_valid(pairs@));
                }
            }
            return Err(e);
        },
    };
    proof {
        let contents = tree_contents(*span_db);
        assert forall|k: Seq<u8>| #![trigger spans_store_map(v@).dom().contains(k)]
            spans_store_map(v@).dom().contains(k) implies contents.dom().contains(k)
            && spans_store_map(v@)[k] == contents[k] by {
            lemma_spans_store_dom(v@, k);
            let i = choose|i: int| 0 <= i < v@.len() && k == be32(#[trigger] v@[i].end);
            lemma_spans_store_at(v@, i);
            assert(pairs@[i].0@ == k);
            assert(contents.contains_key(k) && pairs@[i].1@ == contents[k]);
        }
        assert forall|k: Seq<u8>| #![trigger contents.dom().contains(k)]
            contents.dom().contains(k) implies spans_store_map(v@).dom().contains(k) by {
            assert(contents.contains_key(k));
            assert(exists|i: int| 0 <= i < pairs@.len() && (#[trigger] pairs@[i].0@) == k);
            let i = choose|i: int| 0 <= i < pairs@.len() && (#[trigger] pairs@[i].0@) == k;
            assert(k == be32(v@[i].end));
            lemma_spans_store_at(v@, i);
        }
        assert(spans_store_map(v@).dom() =~= contents.dom());
        assert(spans_store_map(v@) =~= contents);
    }
    Ok(v)
}

/// Span/orphan reconciler state, backed by the span tree of the store.
pub struct Reconciler {
    /// The live span, anchored at the head.
    pub current_span: Span,
    /// Historical spans in ascending order, strictly below the current
    /// span.
    pub spans: Vec<Span>,
    /// Blocks indexed out of order, keyed by block number, not yet
    /// contiguous with the current span.
    pub orphans: HashMap<u32, ()>,
    /// Handle of the span tree.
    pub tree: sled::Tree,
    /// Whether the store currently holds a record for the current span.
    pub recorded: bool,
}

impl Reconciler {
    /// Build the reconciler at process start: load the persisted
    /// spans, then anchor the current span.  When the newest persisted
    /// span reaches the reported head — it ends there after a restart,
    /// or covers it after the chain fell back below what was indexed —
    /// the current span is anchored to that span: it is resumed, its
    /// record is removed, and batch indexing continues just below it.
    /// Otherwise the current span starts fresh one block above the
    /// head, anticipating the next head notification, and the store is
    /// left as loaded.  The second result is the first batch target:
    /// the head itself on a fresh start, the block below the resumed
    /// span on a restart, and nothing when the resumed span already
    /// reaches the first block.
    pub fn resume(span_db: sled::Tree, head: u32) -> (r: Result<(Reconciler, Option<u32>), IndexError>)
        requires
            head < u32::MAX,
        ensures
            r matches Ok(p) ==> {
                &&& p.0.wf()
                &&& p.0.orphans@.dom() == Set::<u32>::empty()
                &&& !p.0.recorded
                &&& ((p.0.current_span == (Span {
                    start: (head + 1) as u32,
                    end: (head + 1) as u32,
                }) && spans_store_map(p.0.spans@) == tree_contents(span_db) && p.1 == Some(head)) || (
                p.0.current_span.end >= head && spans_store_map(
                    p.0.spans@.push(p.0.current_span),
                ) == tree_contents(span_db) && spans_wf(p.0.spans@.push(p.0.current_span)) && p.1
                    == (if p.0.current_span.start > 0 {
                    Some((p.0.current_span.start - 1) as u32)
                } else {
                    Option::<u32>::None
                })))
            },
            r is Err ==> (r matches Err(IndexError::Sled(_)) || r matches Err(
                IndexError::ParseError,
            )),
            forall|s: Seq<Span>|
                spans_wf(s) && tree_contents(span_db) == spans_store_map(s) ==> !(r matches Err(
                    IndexError::ParseError,
                )),
    {
        let mut tree = span_db;
        let mut spans = match load_spans(&tree) {
            Ok(spans) => spans,
            Err(e) => {
                return Err(e);
            },
        };
        let ghost loaded = spans@;
        if spans.len() > 0 {
            let last: Span = spans[spans.len() - 1];
            if last.end >= head {
                let key = u32_to_be(last.end);
                match tree_remove(&mut tree, &key) {
                    Ok(_) => (),
                    Err(e) => {
                        return Err(IndexError::Sled(e));
                    },
                }
                let _resumed = spans.pop();
                let next_batch = if last.start > 0 {
                    Some(last.start - 1)
                } else {
                    None
                };
                let rec = Reconciler {
                    current_span: last,
                    spans,
                    orphans: HashMap::new(),
                    tree,
                    recorded: false,
                };
                proof {
                    assert forall|i: int| 0 <= i < loaded.len() - 1 implies (#[trigger] loaded[i]).end
                        != loaded.last().end by {
                        assert(loaded[i].end + 1 < loaded.last().start);
                    }
                    lemma_spans_store_pop(loaded);
                    assert(rec.orphans@.dom() =~= Set::<u32>::empty());
                    assert(loaded =~= rec.spans@.push(rec.current_span));
                }
                return Ok((rec, next_batch));
            }
        }
        let fresh = Span { start: head + 1, end: head + 1 };
        let rec = Reconciler {
            current_span: fresh,
            spans,
            orphans: HashMap::new(),
            tree,
            recorded: false,
        };
        proof {
            assert(rec.orphans@.dom() =~= Set::<u32>::empty());
            assert forall|i: int| 0 <= i < rec.spans@.len() implies (#[trigger] rec.spans@[i]).end
                + 1 < rec.current_span.start by {
                if i < rec.spans@.len() - 1 {
                    assert(rec.spans@[i].end + 1 < rec.spans@[rec.spans@.len() - 1].start);
                }
            }
        }
        Ok((rec, Some(head)))
    }

    /// The abstract state of the reconciler.
    pub open spec fn abs(self) -> RecState {
        RecState { current: self.current_span, spans: self.spans@, orphans: self.orphans@.dom() }
    }

    /// What the span tree holds: every historical span, and the current
    /// span once one of its boundary changes has been persisted.
    pub open spec fn persisted(self) -> Map<Seq<u8>, Seq<u8>> {
        if self.recorded {
            spans_store_map(self.spans@).insert(
                be32(self.current_span.end),
                be32(self.current_span.start),
            )
        } else {
            spans_store_map(self.spans@)
        }
    }

    /// Well-formed: the current span is an interval, the historical
    /// spans are ordered, pairwise separated and lie strictly below the
    /// current span (no overlap, no touch), and the span tree holds
    /// exactly the persisted image of this state.
    pub open spec fn wf(self) -> bool {
        &&& self.current_span.wf()
        &&& spans_wf(self.spans@)
        &&& forall|i: int|
            0 <= i < self.spans@.len() ==> (#[trigger] self.spans@[i]).end + 1
                < self.current_span.start
        &&& tree_contents(self.tree) == self.persisted()
    }

    /// Like `wf`, but the newest historical span may touch the current
    /// span from below: the state between lowering the current span's
    /// start and merging with history.
    pub open spec fn wf_loose(self) -> bool {
        &&& self.current_span.wf()
        &&& spans_wf(self.spans@)
        &&& forall|i: int|
            0 <= i < self.spans@.len() ==> (#[trigger] self.spans@[i]).end
                < self.current_span.start
        &&& tree_contents(self.tree) == self.persisted()
    }

    /// After any reconciliation step, the whole persisted span set —
    /// the historical spans together with the current span — is
    /// pairwise non-overlapping and non-touching: the methods above
    /// keep `wf`, and `wf` bounds every historical span strictly below
    /// the current span.
    pub proof fn lemma_persisted_disjoint(self)
        requires
            self.wf(),
        ensures
            spans_wf(self.spans@.push(self.current_span)),
    {
        let all = self.spans@.push(self.current_span);
        assert forall|i: int, j: int| 0 <= i < j < all.len() implies #[trigger] all[i].end + 1
            < #[trigger] all[j].start by {
            if j < all.len() - 1 {
                assert(self.spans@[i].end + 1 < self.spans@[j].start);
            } else {
                assert(all[i] == self.spans@[i]);
            }
        }
    }

    /// Persist the current span under its end key.
    fn put_current(&mut self) -> (r: Result<(), IndexError>)
        ensures
            final(self).current_span == old(self).current_span,
            final(self).spans == old(self).spans,
            final(self).orphans == old(self).orphans,
            r is Ok ==> final(self).recorded && tree_contents(final(self).tree) == tree_contents(
                old(self).tree,
            ).insert(be32(old(self).current_span.end), be32(old(self).current_span.start)),
            r is Err ==> r matches Err(IndexError::Sled(_)),
    {
        let key = u32_to_be(self.current_span.end);
        let value = u32_to_be(self.current_span.start);
        match tree_insert(&mut self.tree, &key, &value) {
            Ok(()) => {
                self.recorded = true;
                Ok(())
            },
            Err(e) => Err(IndexError::Sled(e)),
        }
    }

    /// Withdraw the current span's record before its boundary is
    /// rewritten.  Removing the record first and persisting the merged
    /// boundary afterwards keeps every intermediate store state a
    /// well-formed span image, so a crash at any point leaves a store
    /// that loads.
    fn withdraw_current(&mut self) -> (r: Result<(), IndexError>)
        requires
            old(self).wf_loose(),
        ensures
            final(self).current_span == old(self).current_span,
            final(self).spans == old(self).spans,
            final(self).orphans == old(self).orphans,
            r is Ok ==> !final(self).recorded && tree_contents(final(self).tree)
                == spans_store_map(final(self).spans@),
            r is Err ==> r matches Err(IndexError::Sled(_)),
    {
        if self.recorded {
            let key = u32_to_be(self.current_span.end);
            match tree_remove(&mut self.tree, &key) {
                Ok(_) => (),
                Err(e) => {
                    return Err(IndexError::Sled(e));
                },
            }
            self.recorded = false;
            proof {
                assert forall|i: int| 0 <= i < self.spans@.len() implies (
                #[trigger] self.spans@[i]).end != old(self).current_span.end by {}
                lemma_spans_store_fresh(self.spans@, old(self).current_span.end);
                assert(tree_contents(self.tree) =~= spans_store_map(self.spans@));
            }
            Ok(())
        } else {
            Ok(())
        }
    }

    /// Called when the head follower has indexed a block at or above
    /// the current span's start: deletes the record persisted for the
    /// old end, moves the end to the reported block, and persists the
    /// new record.  A block that is not exactly one above the old end
    /// is taken as reported, not corrected.  On a store error the
    /// reconciler is no longer usable; the caller stops, as the store
    /// failure is fatal to the indexing path.
    pub fn extend_forward(&mut self, block_number: u32) -> (r: Result<(), IndexError>)
        requires
            old(self).wf(),
            block_number >= old(self).current_span.start,
        ensures
            r is Ok ==> {
                &&& final(self).wf()
                &&& final(self).current_span == (Span {
                    start: old(self).current_span.start,
                    end: block_number,
                })
                &&& final(self).spans == old(self).spans
                &&& final(self).orphans == old(self).orphans
                &&& final(self).recorded
            },
            r is Err ==> r matches Err(IndexError::Sled(_)),
    {
        match self.withdraw_current() {
            Ok(()) => (),
            Err(e) => {
                return Err(e);
            },
        }
        self.current_span.end = block_number;
        let r = self.put_current();
        proof {
            if r is Ok {
                assert(tree_contents(self.tree) =~= self.persisted());
            }
        }
        r
    }

    /// Merge the current span with history: while the newest historical
    /// span reaches the block just below the current span's start,
    /// absorb it and delete its record.  Spans from earlier process
    /// lifetimes are trusted by boundary alone.  The current span's
    /// own record must have been withdrawn first, so every store state
    /// in between is a well-formed span image; the caller persists the
    /// merged boundary afterwards.
    pub fn check_span(&mut self) -> (r: Result<(), IndexError>)
        requires
            old(self).wf_loose(),
            !old(self).recorded,
        ensures
            r is Ok ==> {
                &&& final(self).wf()
                &&& !final(self).recorded
                &&& final(self).abs() == merge(old(self).abs())
                &&& final(self).current_span.end == old(self).current_span.end
                &&& final(self).orphans == old(self).orphans
            },
            r is Err ==> r matches Err(IndexError::Sled(_)),
    {
        while self.spans.len() > 0 && self.current_span.start > self.spans[self.spans.len()
            - 1].start && self.current_span.start - 1 <= self.spans[self.spans.len() - 1].end
            invariant
                self.wf_loose(),
                !self.recorded,
                merge(self.abs()) == merge(old(self).abs()),
                self.current_span.end == old(self).current_span.end,
                self.orphans == old(self).orphans,
            decreases self.spans.len(),
        {
            let ghost pre = self.abs();
            let ghost s = self.spans@;
            let last: Span = self.spans[self.spans.len() - 1];
            self.current_span.start = last.start;
            let key = u32_to_be(last.end);
            match tree_remove(&mut self.tree, &key) {
                Ok(_) => (),
                Err(e) => {
                    return Err(IndexError::Sled(e));
                },
            }
            let _absorbed = self.spans.pop();
            proof {
                assert forall|i: int| 0 <= i < s.len() - 1 implies (#[trigger] s[i]).end
                    != s.last().end by {
                    assert(s[i].end + 1 < s.last().start);
                }
                lemma_spans_store_pop(s);
                assert(tree_contents(self.tree) =~= spans_store_map(self.spans@));
                assert(self.abs() == (RecState {
                    current: Span { start: pre.spans.last().start, end: pre.current.end },
                    spans: pre.spans.drop_last(),
                    orphans: pre.orphans,
                }));
            }
        }
        Ok(())
    }

    /// Called on a batch completion: a block exactly one below the
    /// current span's start extends it downward, merges it with
    /// history, and then repeatedly folds in orphans that became
    /// contiguous, merging again after each step; any other block is
    /// held as an orphan and neither the spans nor the store change.
    /// Each boundary change first withdraws the current span's record,
    /// then merges, then persists the merged boundary, so the store
    /// holds a well-formed span image at every point in between and a
    /// crash anywhere leaves a store that loads.
    pub fn integrate_backward(&mut self, block_number: u32) -> (r: Result<(), IndexError>)
        requires
            old(self).wf(),
        ensures
            r is Ok ==> {
                &&& final(self).wf()
                &&& final(self).abs() == integrate(old(self).abs(), block_number)
                &&& final(self).current_span.end == old(self).current_span.end
                &&& final(self).recorded == (old(self).recorded || (old(self).current_span.start
                    > 0 && block_number == old(self).current_span.start - 1))
                &&& (!(old(self).current_span.start > 0 && block_number == old(
                    self,
                ).current_span.start - 1) ==> tree_contents(final(self).tree) == tree_contents(
                    old(self).tree,
                ))
            },
            r is Err ==> r matches Err(IndexError::Sled(_)),
    {
        let ghost goal = integrate(old(self).abs(), block_number);
        if self.current_span.start > 0 && block_number == self.current_span.start - 1 {
            match self.withdraw_current() {
                Ok(()) => (),
                Err(e) => {
                    return Err(e);
                },
            }
            self.current_span.start = block_number;
            match self.check_span() {
                Ok(()) => (),
                Err(e) => {
                    return Err(e);
                },
            }
            match self.put_current() {
                Ok(()) => (),
                Err(e) => {
                    return Err(e);
                },
            }
            proof {
                assert(tree_contents(self.tree) =~= self.persisted());
            }
            while self.current_span.start > 0 && self.orphans.contains_key(
                &(self.current_span.start - 1),
            )
                invariant
                    self.wf(),
                    self.recorded,
                    cascade(self.abs()) == goal,
                    self.current_span.end == old(self).current_span.end,
                decreases self.current_span.start,
            {
                let ghost pre = self.abs();
                match self.withdraw_current() {
                    Ok(()) => (),
                    Err(e) => {
                        return Err(e);
                    },
                }
                let b2 = self.current_span.start - 1;
                self.current_span.start = b2;
                let _folded = self.orphans.remove(&b2);
                match self.check_span() {
                    Ok(()) => (),
                    Err(e) => {
                        return Err(e);
                    },
                }
                match self.put_current() {
                    Ok(()) => (),
                    Err(e) => {
                        return Err(e);
                    },
                }
                proof {
                    assert(tree_contents(self.tree) =~= self.persisted());
                    let stepped = RecState {
                        current: Span { start: b2, end: pre.current.end },
                        spans: pre.spans,
                        orphans: pre.orphans.remove(b2),
                    };
                    assert(self.abs() == merge(stepped));
                    lemma_merge_start(stepped);
                }
            }
            Ok(())
        } else {
            self.orphans.insert(block_number, ());
            proof {
                assert(self.orphans@.dom() =~= old(self).orphans@.dom().insert(block_number));
            }
            Ok(())
        }
    }

    /// At shutdown, persist the current span unless it is a single
    /// block: a single-block span adds no information beyond where the
    /// head was.
    pub fn finalize_on_shutdown(&mut self) -> (r: Result<(), IndexError>)
        requires
            old(self).wf(),
        ensures
            r is Ok ==> {
                &&& final(self).wf()
                &&& final(self).abs() == old(self).abs()
                &&& (old(self).current_span.start != old(self).current_span.end ==> tree_contents(
                    final(self).tree,
                ) == spans_store_map(old(self).spans@).insert(
                    be32(old(self).current_span.end),
                    be32(old(self).current_span.start),
                ))
                &&& (old(self).current_span.start == old(self).current_span.end ==> *final(self)
                    == *old(self))
            },
            r is Err ==> r matches Err(IndexError::Sled(_)),
    {
        if self.current_span.start != self.current_span.end {
            let r = self.put_current();
            proof {
                if r is Ok {
                    assert(tree_contents(self.tree) =~= self.persisted());
                    assert(tree_contents(self.tree) =~= spans_store_map(
                        old(self).spans@,
                    ).insert(be32(old(self).current_span.end), be32(old(self).current_span.start)));
                }
            }
            r
        } else {
            Ok(())
        }
    }
}

} // verus!
