//! What the renderer guarantees: without wrappers the text is unchanged, and
//! wrappers that nest come out nested.

use crate::lexer::{IntervalToSnippet, Token};
use crate::layout::{layout_of, lemma_apart_strict, lemma_layout_fits, lemma_scanned};
use crate::order::{in_order, lemma_in_order_same_wrappers, lemma_in_order_sorts};
use crate::render::{
    close_all, mark_text, open_all, rendered, rendered_trace, scanned, snippets, trace_text, Mark,
    Scan, Wrapper,
};
use crate::sequences::lemma_filter_push;
use vstd::prelude::*;

verus! {

/// Every token is a non-empty range, and each lies wholly in front of those
/// that come after it.
pub open spec fn tokens_apart(tokens: Seq<Token>) -> bool {
    &&& forall|k: int|
        0 <= k < tokens.len() ==> (#[trigger] tokens[k]).interval.lower_bound
            <= tokens[k].interval.upper_bound
    &&& forall|k: int, m: int|
        0 <= k < m < tokens.len() ==> (#[trigger] tokens[k]).interval.upper_bound < (
        #[trigger] tokens[m]).interval.lower_bound
}

/// Token `k` starts at offset `at`.
pub open spec fn starts_token(tokens: Seq<Token>, at: usize, k: int) -> bool {
    0 <= k < tokens.len() && tokens[k].interval.lower_bound == at
}

/// Token `k` ends at offset `at`.
pub open spec fn ends_token(tokens: Seq<Token>, at: usize, k: int) -> bool {
    0 <= k < tokens.len() && tokens[k].interval.upper_bound == at
}

/// The wrapper starts where a token starts and ends where a token ends.
pub open spec fn on_boundary(tokens: Seq<Token>, wrapper: Wrapper) -> bool {
    &&& exists|k: int| starts_token(tokens, wrapper.prefix.position, k)
    &&& exists|k: int| ends_token(tokens, wrapper.postfix.position, k)
}

/// Every wrapper starts where a token starts and ends where a token ends.
pub open spec fn on_boundaries(tokens: Seq<Token>, wrappers: Seq<Wrapper>) -> bool {
    forall|i: int| 0 <= i < wrappers.len() ==> on_boundary(tokens, #[trigger] wrappers[i])
}

/// The two ranges have no offset in common, or one lies within the other.
pub open spec fn nested_or_apart(a: Wrapper, b: Wrapper) -> bool {
    ||| a.postfix.position < b.prefix.position
    ||| b.postfix.position < a.prefix.position
    ||| (a.prefix.position <= b.prefix.position && b.postfix.position <= a.postfix.position)
    ||| (b.prefix.position <= a.prefix.position && a.postfix.position <= b.postfix.position)
}

/// No wrapper ends before it starts, and no two wrappers overlap in part.
pub open spec fn laminar(wrappers: Seq<Wrapper>) -> bool {
    &&& forall|i: int|
        0 <= i < wrappers.len() ==> (#[trigger] wrappers[i]).prefix.position
            <= wrappers[i].postfix.position
    &&& forall|i: int, j: int|
        0 <= i < wrappers.len() && 0 <= j < wrappers.len() ==> nested_or_apart(
            #[trigger] wrappers[i],
            #[trigger] wrappers[j],
        )
}

/// The mark opens a wrapper.
pub open spec fn opens(mark: Mark) -> bool {
    mark is Open
}

/// The mark closes a wrapper.
pub open spec fn closes(mark: Mark) -> bool {
    mark is Close
}

/// The wrapper that the mark opens or closes.
pub open spec fn wrapper_of(mark: Mark) -> int {
    match mark {
        Mark::Open(i) => i,
        Mark::Close(i) => i,
        Mark::Text(_) => -1,
    }
}

/// The texts of the tokens, one after the other.
pub open spec fn joined(texts: Seq<Seq<char>>) -> Seq<char>
    decreases texts.len(),
{
    if texts.len() == 0 {
        Seq::empty()
    } else {
        joined(texts.drop_last()) + texts.last()
    }
}

proof fn lemma_scanned_bare(tokens: Seq<Token>, texts: Seq<Seq<char>>, n: nat)
    requires
        n <= tokens.len(),
        texts.len() == tokens.len(),
    ensures
        scanned(Seq::empty(), tokens, n).next == 0,
        scanned(Seq::empty(), tokens, n).pending.len() == 0,
        scanned(Seq::empty(), tokens, n).trace == Seq::new(n, |k: int| Mark::Text(k)),
        trace_text(Seq::empty(), texts, scanned(Seq::empty(), tokens, n).trace) == joined(
            texts.take(n as int),
        ),
    decreases n,
{
    let none = Seq::<Wrapper>::empty();
    if n == 0 {
        assert(scanned(none, tokens, n).trace =~= Seq::new(n, |k: int| Mark::Text(k)));
    } else {
        let m = (n - 1) as nat;
        lemma_scanned_bare(tokens, texts, m);
        let before = scanned(none, tokens, m);
        assert(open_all(none, before, tokens[m as int].interval.lower_bound) == before);
        let shown = Scan {
            next: before.next,
            pending: before.pending,
            trace: before.trace.push(Mark::Text(m as int)),
        };
        assert(close_all(none, shown, tokens[m as int].interval.upper_bound) == shown);
        assert(scanned(none, tokens, n) == shown);
        assert(shown.trace =~= Seq::new(n, |k: int| Mark::Text(k)));
        assert(shown.trace.drop_last() =~= before.trace);
        assert(texts.take(n as int).drop_last() =~= texts.take(m as int));
    }
}

/// With no wrappers the renderer gives back the text of the tokens, in their
/// order, and nothing else.
pub proof fn lemma_render_without_wrappers<S: IntervalToSnippet>(source: &S, tokens: Seq<Token>)
    ensures
        rendered(source, tokens, Seq::empty()) == joined(snippets(source, tokens)),
{
    let texts = snippets(source, tokens);
    lemma_scanned_bare(tokens, texts, tokens.len());
    assert(texts.take(tokens.len() as int) =~= texts);
    assert(in_order(Seq::<Wrapper>::empty()) =~= Seq::<Wrapper>::empty());
}

/// Sorting keeps a set of wrappers laminar and on token boundaries.
proof fn lemma_in_order_keeps_shape(tokens: Seq<Token>, wrappers: Seq<Wrapper>)
    requires
        laminar(wrappers),
        on_boundaries(tokens, wrappers),
    ensures
        laminar(in_order(wrappers)),
        on_boundaries(tokens, in_order(wrappers)),
{
    let sorted = in_order(wrappers);
    lemma_in_order_same_wrappers(wrappers);
    assert forall|i: int| 0 <= i < sorted.len() implies exists|a: int|
        0 <= a < wrappers.len() && wrappers[a] == #[trigger] sorted[i] by {
        assert(sorted.contains(sorted[i]));
        assert(wrappers.contains(sorted[i]));
    }
    assert forall|i: int| 0 <= i < sorted.len() implies (#[trigger] sorted[i]).prefix.position
        <= sorted[i].postfix.position by {
        let a = choose|a: int| 0 <= a < wrappers.len() && wrappers[a] == sorted[i];
        assert(wrappers[a].prefix.position <= wrappers[a].postfix.position);
    }
    assert forall|i: int, j: int|
        0 <= i < sorted.len() && 0 <= j < sorted.len() implies nested_or_apart(
        #[trigger] sorted[i],
        #[trigger] sorted[j],
    ) by {
        let a = choose|a: int| 0 <= a < wrappers.len() && wrappers[a] == sorted[i];
        let b = choose|b: int| 0 <= b < wrappers.len() && wrappers[b] == sorted[j];
        assert(nested_or_apart(wrappers[a], wrappers[b]));
    }
    assert forall|i: int| 0 <= i < sorted.len() implies on_boundary(
        tokens,
        #[trigger] sorted[i],
    ) by {
        let a = choose|a: int| 0 <= a < wrappers.len() && wrappers[a] == sorted[i];
        assert(on_boundary(tokens, wrappers[a]));
    }
}

/// Where the tokens lie apart and the wrappers are laminar and lie on token
/// boundaries, every wrapper is written exactly once, its prefix in front of
/// its postfix; and of two wrappers that start at the same offset, the one
/// that ends further right is opened first and closed last. The indices are
/// those of `in_order(wrappers)`, which holds the same wrappers.
pub proof fn lemma_laminar_wrappers_nest(tokens: Seq<Token>, wrappers: Seq<Wrapper>)
    requires
        tokens_apart(tokens),
        laminar(wrappers),
        on_boundaries(tokens, wrappers),
    ensures
        in_order(wrappers).to_multiset() == wrappers.to_multiset(),
        rendered_trace(tokens, wrappers).no_duplicates(),
        forall|i: int|
            0 <= i < wrappers.len() ==> {
                &&& #[trigger] rendered_trace(tokens, wrappers).contains(Mark::Open(i))
                &&& rendered_trace(tokens, wrappers).contains(Mark::Close(i))
                &&& rendered_trace(tokens, wrappers).index_of(Mark::Open(i)) < rendered_trace(
                    tokens,
                    wrappers,
                ).index_of(Mark::Close(i))
            },
        forall|i: int, j: int|
            0 <= i < wrappers.len() && 0 <= j < wrappers.len() && (#[trigger] in_order(
                wrappers,
            )[i]).prefix.position == (#[trigger] in_order(wrappers)[j]).prefix.position
                && in_order(wrappers)[i].postfix.position > in_order(wrappers)[j].postfix.position
                ==> {
                &&& rendered_trace(tokens, wrappers).index_of(Mark::Open(i)) < rendered_trace(
                    tokens,
                    wrappers,
                ).index_of(Mark::Open(j))
                &&& rendered_trace(tokens, wrappers).index_of(Mark::Close(j)) < rendered_trace(
                    tokens,
                    wrappers,
                ).index_of(Mark::Close(i))
            },
{
    let sorted = in_order(wrappers);
    let trace = rendered_trace(tokens, wrappers);
    let count = sorted.len() as int;
    let n = tokens.len();
    lemma_in_order_sorts(wrappers);
    lemma_in_order_keeps_shape(tokens, wrappers);
    lemma_layout_fits(tokens, sorted);
    let lay = layout_of(tokens, sorted);
    lemma_scanned(tokens, sorted, lay, n);
    let end = scanned(sorted, tokens, n);
    assert(end.trace == trace);
    assert(end.next == count) by {
        if end.next < count {
            assert(lay.starts[end.next] >= n);
        }
    }
    assert(end.pending.len() == 0) by {
        if end.pending.len() > 0 {
            assert(lay.ends[end.pending[0]] >= n);
        }
    }
    assert forall|i: int| 0 <= i < count implies !end.pending.contains(i) by {}
    assert forall|i: int| 0 <= i < wrappers.len() implies {
        &&& #[trigger] trace.contains(Mark::Open(i))
        &&& trace.contains(Mark::Close(i))
        &&& trace.index_of(Mark::Open(i)) < trace.index_of(Mark::Close(i))
    } by {
        assert(trace.contains(Mark::Open(i)));
        assert(!end.pending.contains(i));
        assert(trace.contains(Mark::Close(i)));
        let x = trace.index_of(Mark::Open(i));
        let y = trace.index_of(Mark::Close(i));
        assert(trace[x] == Mark::Open(i));
        assert(trace[y] == Mark::Close(i));
    }
    assert forall|i: int, j: int|
        0 <= i < wrappers.len() && 0 <= j < wrappers.len() && (#[trigger] sorted[i]).prefix.position
            == (#[trigger] sorted[j]).prefix.position && sorted[i].postfix.position
            > sorted[j].postfix.position implies {
        &&& trace.index_of(Mark::Open(i)) < trace.index_of(Mark::Open(j))
        &&& trace.index_of(Mark::Close(j)) < trace.index_of(Mark::Close(i))
    } by {
        assert(trace.contains(Mark::Open(i)));
        assert(trace.contains(Mark::Open(j)));
        assert(!end.pending.contains(i));
        assert(!end.pending.contains(j));
        assert(trace.contains(Mark::Close(i)));
        assert(trace.contains(Mark::Close(j)));
        let xi = trace.index_of(Mark::Open(i));
        let xj = trace.index_of(Mark::Open(j));
        let yi = trace.index_of(Mark::Close(i));
        let yj = trace.index_of(Mark::Close(j));
        assert(trace[xi] == Mark::Open(i));
        assert(trace[xj] == Mark::Open(j));
        assert(trace[yi] == Mark::Close(i));
        assert(trace[yj] == Mark::Close(j));
        // the two start with the same token, and `i` ends with a later one
        let k = lay.starts[i];
        assert(sorted[i].prefix.position == tokens[k].interval.lower_bound);
        assert(sorted[j].prefix.position == tokens[k].interval.lower_bound);
        assert(lay.starts[j] == k);
        let ei = lay.ends[i];
        let ej = lay.ends[j];
        assert(sorted[i].postfix.position == tokens[ei].interval.upper_bound);
        assert(sorted[j].postfix.position == tokens[ej].interval.upper_bound);
        lemma_apart_strict(tokens, ei, ej);
        assert(ei > ej);
        if j < i {
            assert(lay.starts[j] <= lay.starts[i] && (lay.starts[j] == lay.starts[i]
                ==> lay.ends[j] >= lay.ends[i]));
        }
        assert(i < j);
    }
}

/// The wrapper with index `i` starts where some token starts.
pub open spec fn starts_with_token(tokens: Seq<Token>, wrappers: Seq<Wrapper>, i: int) -> bool {
    0 <= i < wrappers.len() && exists|k: int|
        starts_token(tokens, wrappers[i].prefix.position, k)
}

/// Every wrapper that a mark of `scan` opens or closes, and every pending
/// one, starts where a token starts.
spec fn only_started(tokens: Seq<Token>, ws: Seq<Wrapper>, scan: Scan) -> bool {
    &&& forall|x: int|
        0 <= x < scan.trace.len() && !((#[trigger] scan.trace[x]) is Text) ==> starts_with_token(
            tokens,
            ws,
            wrapper_of(scan.trace[x]),
        )
    &&& forall|j: int|
        0 <= j < scan.pending.len() ==> starts_with_token(tokens, ws, #[trigger] scan.pending[j])
}

proof fn lemma_open_all_only_started(tokens: Seq<Token>, ws: Seq<Wrapper>, scan: Scan, k: int)
    requires
        0 <= k < tokens.len(),
        only_started(tokens, ws, scan),
    ensures
        only_started(tokens, ws, open_all(ws, scan, tokens[k].interval.lower_bound)),
    decreases ws.len() - scan.next,
{
    let at = tokens[k].interval.lower_bound;
    if 0 <= scan.next < ws.len() && ws[scan.next].prefix.position == at {
        let after = Scan {
            next: scan.next + 1,
            pending: scan.pending.push(scan.next),
            trace: scan.trace.push(Mark::Open(scan.next)),
        };
        assert(starts_token(tokens, ws[scan.next].prefix.position, k));
        assert forall|x: int|
            0 <= x < after.trace.len() && !((#[trigger] after.trace[x]) is Text) implies starts_with_token(
            tokens,
            ws,
            wrapper_of(after.trace[x]),
        ) by {
            if x < scan.trace.len() {
                assert(after.trace[x] == scan.trace[x]);
            }
        }
        assert forall|j: int| 0 <= j < after.pending.len() implies starts_with_token(
            tokens,
            ws,
            #[trigger] after.pending[j],
        ) by {
            if j < scan.pending.len() {
                assert(after.pending[j] == scan.pending[j]);
            }
        }
        lemma_open_all_only_started(tokens, ws, after, k);
    }
}

proof fn lemma_close_all_only_started(tokens: Seq<Token>, ws: Seq<Wrapper>, scan: Scan, at: usize)
    requires
        only_started(tokens, ws, scan),
    ensures
        only_started(tokens, ws, close_all(ws, scan, at)),
    decreases scan.pending.len(),
{
    if scan.pending.len() > 0 && ws[scan.pending.last()].postfix.position == at {
        let top = scan.pending.last();
        let after = Scan {
            next: scan.next,
            pending: scan.pending.drop_last(),
            trace: scan.trace.push(Mark::Close(top)),
        };
        assert(scan.pending[scan.pending.len() - 1] == top);
        assert forall|x: int|
            0 <= x < after.trace.len() && !((#[trigger] after.trace[x]) is Text) implies starts_with_token(
            tokens,
            ws,
            wrapper_of(after.trace[x]),
        ) by {
            if x < scan.trace.len() {
                assert(after.trace[x] == scan.trace[x]);
            }
        }
        assert forall|j: int| 0 <= j < after.pending.len() implies starts_with_token(
            tokens,
            ws,
            #[trigger] after.pending[j],
        ) by {
            assert(after.pending[j] == scan.pending[j]);
        }
        lemma_close_all_only_started(tokens, ws, after, at);
    }
}

proof fn lemma_scanned_only_started(tokens: Seq<Token>, ws: Seq<Wrapper>, n: nat)
    requires
        n <= tokens.len(),
    ensures
        only_started(tokens, ws, scanned(ws, tokens, n)),
    decreases n,
{
    if n > 0 {
        let m: int = n - 1;
        lemma_scanned_only_started(tokens, ws, m as nat);
        let before = scanned(ws, tokens, m as nat);
        lemma_open_all_only_started(tokens, ws, before, m);
        let opened = open_all(ws, before, tokens[m].interval.lower_bound);
        let shown = Scan {
            next: opened.next,
            pending: opened.pending,
            trace: opened.trace.push(Mark::Text(m)),
        };
        assert forall|x: int|
            0 <= x < shown.trace.len() && !((#[trigger] shown.trace[x]) is Text) implies starts_with_token(
            tokens,
            ws,
            wrapper_of(shown.trace[x]),
        ) by {
            if x < opened.trace.len() {
                assert(shown.trace[x] == opened.trace[x]);
            }
        }
        lemma_close_all_only_started(tokens, ws, shown, tokens[m].interval.upper_bound);
    }
}

/// A wrapper that starts where no token starts is never written: neither its
/// prefix nor its postfix. This holds of any tokens and any wrappers; the
/// index is that of `in_order(wrappers)`.
pub proof fn lemma_unaligned_wrapper_is_inert(tokens: Seq<Token>, wrappers: Seq<Wrapper>, i: int)
    requires
        !starts_with_token(tokens, in_order(wrappers), i),
    ensures
        !rendered_trace(tokens, wrappers).contains(Mark::Open(i)),
        !rendered_trace(tokens, wrappers).contains(Mark::Close(i)),
{
    let trace = rendered_trace(tokens, wrappers);
    lemma_scanned_only_started(tokens, in_order(wrappers), tokens.len());
    if trace.contains(Mark::Open(i)) {
        let x = choose|x: int| 0 <= x < trace.len() && trace[x] == Mark::Open(i);
        assert(wrapper_of(trace[x]) == i);
    }
    if trace.contains(Mark::Close(i)) {
        let x = choose|x: int| 0 <= x < trace.len() && trace[x] == Mark::Close(i);
        assert(wrapper_of(trace[x]) == i);
    }
}

/// The text of two traces, one after the other, is the text of the first
/// followed by the text of the second.
pub proof fn lemma_trace_text_concat(
    wrappers: Seq<Wrapper>,
    texts: Seq<Seq<char>>,
    front: Seq<Mark>,
    back: Seq<Mark>,
)
    ensures
        trace_text(wrappers, texts, front + back) == trace_text(wrappers, texts, front)
            + trace_text(wrappers, texts, back),
    decreases back.len(),
{
    if back.len() == 0 {
        assert(front + back =~= front);
        assert(trace_text(wrappers, texts, front) + trace_text(wrappers, texts, back)
            =~= trace_text(wrappers, texts, front));
    } else {
        lemma_trace_text_concat(wrappers, texts, front, back.drop_last());
        assert((front + back).drop_last() =~= front + back.drop_last());
        assert((front + back).last() == back.last());
        assert(trace_text(wrappers, texts, front + back) =~= trace_text(wrappers, texts, front)
            + trace_text(wrappers, texts, back));
    }
}

/// Of two marks of a trace, the text of the earlier one stands in the text
/// of the trace in front of the text of the later one.
pub proof fn lemma_marks_in_order(
    wrappers: Seq<Wrapper>,
    texts: Seq<Seq<char>>,
    trace: Seq<Mark>,
    x: int,
    y: int,
)
    requires
        0 <= x < y < trace.len(),
    ensures
        trace_text(wrappers, texts, trace) == trace_text(wrappers, texts, trace.take(x))
            + mark_text(wrappers, texts, trace[x]) + trace_text(
            wrappers,
            texts,
            trace.subrange(x + 1, y),
        ) + mark_text(wrappers, texts, trace[y]) + trace_text(wrappers, texts, trace.skip(y + 1)),
{
    let a = trace.take(x);
    let b = trace.subrange(x + 1, y);
    let c = trace.skip(y + 1);
    let mx = seq![trace[x]];
    let my = seq![trace[y]];
    assert(trace =~= a + mx + b + my + c);
    lemma_trace_text_concat(wrappers, texts, a + mx + b + my, c);
    lemma_trace_text_concat(wrappers, texts, a + mx + b, my);
    lemma_trace_text_concat(wrappers, texts, a + mx, b);
    lemma_trace_text_concat(wrappers, texts, a, mx);
    assert(mx.drop_last() =~= Seq::<Mark>::empty());
    assert(my.drop_last() =~= Seq::<Mark>::empty());
    assert(trace_text(wrappers, texts, mx.drop_last()) =~= Seq::<char>::empty());
    assert(trace_text(wrappers, texts, my.drop_last()) =~= Seq::<char>::empty());
    assert(trace_text(wrappers, texts, mx) =~= mark_text(wrappers, texts, trace[x]));
    assert(trace_text(wrappers, texts, my) =~= mark_text(wrappers, texts, trace[y]));
}

/// Where the tokens lie apart and the wrappers are laminar and lie on token
/// boundaries, the rendered text holds the prefix of every wrapper and, behind
/// it, the wrapper's postfix.
pub proof fn lemma_prefix_precedes_postfix<S: IntervalToSnippet>(
    source: &S,
    tokens: Seq<Token>,
    wrappers: Seq<Wrapper>,
    i: int,
)
    requires
        tokens_apart(tokens),
        laminar(wrappers),
        on_boundaries(tokens, wrappers),
        0 <= i < wrappers.len(),
    ensures
        exists|front: Seq<char>, between: Seq<char>, back: Seq<char>|
            rendered(source, tokens, wrappers) == front + in_order(wrappers)[i].prefix.text@
                + between + in_order(wrappers)[i].postfix.text@ + back,
{
    let sorted = in_order(wrappers);
    let texts = snippets(source, tokens);
    let trace = rendered_trace(tokens, wrappers);
    lemma_laminar_wrappers_nest(tokens, wrappers);
    assert(trace.contains(Mark::Open(i)));
    let x = trace.index_of(Mark::Open(i));
    let y = trace.index_of(Mark::Close(i));
    assert(trace[x] == Mark::Open(i));
    assert(trace[y] == Mark::Close(i));
    lemma_marks_in_order(sorted, texts, trace, x, y);
    let front = trace_text(sorted, texts, trace.take(x));
    let between = trace_text(sorted, texts, trace.subrange(x + 1, y));
    let back = trace_text(sorted, texts, trace.skip(y + 1));
    assert(rendered(source, tokens, wrappers) == front + sorted[i].prefix.text@ + between
        + sorted[i].postfix.text@ + back);
}

/// The marks of a trace that stand for the text of a token.
pub open spec fn token_marks(trace: Seq<Mark>) -> Seq<Mark> {
    trace.filter(|mark: Mark| mark is Text)
}

proof fn lemma_open_all_keeps_token_marks(ws: Seq<Wrapper>, scan: Scan, at: usize)
    ensures
        token_marks(open_all(ws, scan, at).trace) == token_marks(scan.trace),
    decreases ws.len() - scan.next,
{
    if 0 <= scan.next < ws.len() && ws[scan.next].prefix.position == at {
        let after = Scan {
            next: scan.next + 1,
            pending: scan.pending.push(scan.next),
            trace: scan.trace.push(Mark::Open(scan.next)),
        };
        lemma_filter_push(scan.trace, Mark::Open(scan.next), |mark: Mark| mark is Text);
        lemma_open_all_keeps_token_marks(ws, after, at);
    }
}

proof fn lemma_close_all_keeps_token_marks(ws: Seq<Wrapper>, scan: Scan, at: usize)
    ensures
        token_marks(close_all(ws, scan, at).trace) == token_marks(scan.trace),
    decreases scan.pending.len(),
{
    if scan.pending.len() > 0 && ws[scan.pending.last()].postfix.position == at {
        let after = Scan {
            next: scan.next,
            pending: scan.pending.drop_last(),
            trace: scan.trace.push(Mark::Close(scan.pending.last())),
        };
        lemma_filter_push(scan.trace, Mark::Close(scan.pending.last()), |mark: Mark| mark is Text);
        lemma_close_all_keeps_token_marks(ws, after, at);
    }
}

proof fn lemma_scanned_token_marks(ws: Seq<Wrapper>, tokens: Seq<Token>, n: nat)
    requires
        n <= tokens.len(),
    ensures
        token_marks(scanned(ws, tokens, n).trace) == Seq::new(n, |k: int| Mark::Text(k)),
    decreases n,
{
    if n == 0 {
        assert(scanned(ws, tokens, n).trace.len() == 0);
        assert(token_marks(scanned(ws, tokens, n).trace) =~= Seq::new(n, |k: int| Mark::Text(k)));
    } else {
        let m: int = n - 1;
        lemma_scanned_token_marks(ws, tokens, m as nat);
        let before = scanned(ws, tokens, m as nat);
        lemma_open_all_keeps_token_marks(ws, before, tokens[m].interval.lower_bound);
        let opened = open_all(ws, before, tokens[m].interval.lower_bound);
        let shown = Scan {
            next: opened.next,
            pending: opened.pending,
            trace: opened.trace.push(Mark::Text(m)),
        };
        lemma_filter_push(opened.trace, Mark::Text(m), |mark: Mark| mark is Text);
        lemma_close_all_keeps_token_marks(ws, shown, tokens[m].interval.upper_bound);
        assert(token_marks(shown.trace) =~= Seq::new(n, |k: int| Mark::Text(k)));
    }
}

/// Whatever the wrappers, the text of every token is written exactly once,
/// and the tokens come in their order: without the marks of wrappers, the
/// trace is that of the tokens alone.
pub proof fn lemma_token_texts_in_order(tokens: Seq<Token>, wrappers: Seq<Wrapper>)
    ensures
        token_marks(rendered_trace(tokens, wrappers)) == Seq::new(
            tokens.len(),
            |k: int| Mark::Text(k),
        ),
        token_marks(rendered_trace(tokens, wrappers)) == rendered_trace(tokens, Seq::empty()),
{
    lemma_scanned_token_marks(in_order(wrappers), tokens, tokens.len());
    assert(in_order(Seq::<Wrapper>::empty()) =~= Seq::<Wrapper>::empty());
    lemma_scanned_bare(tokens, Seq::new(tokens.len(), |k: int| Seq::<char>::empty()), tokens.len());
}

} // verus!
