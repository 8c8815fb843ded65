//! The bookkeeping behind the nesting law: which token each wrapper starts
//! and ends with, and what holds of a pass at each point of it.

use crate::lexer::Token;
use crate::nesting::{
    closes, ends_token, laminar, nested_or_apart, on_boundaries, on_boundary, opens, starts_token,
    tokens_apart, wrapper_of,
};
use crate::order::{goes_before, opening_order};
use crate::render::{close_all, open_all, scanned, Mark, Scan, Wrapper};
use crate::sequences::{lemma_contains_push, lemma_no_duplicates_push};
use vstd::prelude::*;

verus! {

/// For each wrapper the index of the token it starts with and of the token it
/// ends with.
pub struct Layout {
    pub starts: Seq<int>,
    pub ends: Seq<int>,
}

/// `lay` gives the tokens that the wrappers start and end with, the wrappers
/// are in opening order, and they nest.
pub open spec fn fits(tokens: Seq<Token>, ws: Seq<Wrapper>, lay: Layout) -> bool {
    &&& lay.starts.len() == ws.len()
    &&& lay.ends.len() == ws.len()
    &&& forall|i: int|
        0 <= i < ws.len() ==> 0 <= #[trigger] lay.starts[i] <= lay.ends[i] < tokens.len()
    &&& forall|i: int, k: int|
        0 <= i < ws.len() && 0 <= k < tokens.len() ==> (((#[trigger] ws[i]).prefix.position == (
        #[trigger] tokens[k]).interval.lower_bound) <==> lay.starts[i] == k)
    &&& forall|i: int, k: int|
        0 <= i < ws.len() && 0 <= k < tokens.len() ==> (((#[trigger] ws[i]).postfix.position == (
        #[trigger] tokens[k]).interval.upper_bound) <==> lay.ends[i] == k)
    &&& forall|i: int, j: int|
        0 <= i < j < ws.len() ==> #[trigger] lay.starts[i] <= #[trigger] lay.starts[j] && (
        lay.starts[i] == lay.starts[j] ==> lay.ends[i] >= lay.ends[j])
    &&& forall|i: int, j: int|
        0 <= i < ws.len() && 0 <= j < ws.len() ==> {
            ||| #[trigger] lay.ends[i] < #[trigger] lay.starts[j]
            ||| lay.ends[j] < lay.starts[i]
            ||| (lay.starts[i] <= lay.starts[j] && lay.ends[j] <= lay.ends[i])
            ||| (lay.starts[j] <= lay.starts[i] && lay.ends[i] <= lay.ends[j])
        }
}

/// The layout of wrappers that lie on token boundaries.
pub open spec fn layout_of(tokens: Seq<Token>, ws: Seq<Wrapper>) -> Layout {
    Layout {
        starts: Seq::new(
            ws.len(),
            |i: int| choose|k: int| starts_token(tokens, ws[i].prefix.position, k),
        ),
        ends: Seq::new(
            ws.len(),
            |i: int| choose|k: int| ends_token(tokens, ws[i].postfix.position, k),
        ),
    }
}

pub proof fn lemma_layout_fits(tokens: Seq<Token>, ws: Seq<Wrapper>)
    requires
        tokens_apart(tokens),
        laminar(ws),
        on_boundaries(tokens, ws),
        opening_order(ws),
    ensures
        fits(tokens, ws, layout_of(tokens, ws)),
{
    let lay = layout_of(tokens, ws);
    assert forall|i: int| 0 <= i < ws.len() implies starts_token(
        tokens,
        ws[i].prefix.position,
        #[trigger] lay.starts[i],
    ) && ends_token(tokens, ws[i].postfix.position, lay.ends[i]) by {
        assert(on_boundary(tokens, ws[i]));
    }
    assert forall|i: int| 0 <= i < ws.len() implies 0 <= #[trigger] lay.starts[i] <= lay.ends[i]
        < tokens.len() by {
        let a = lay.starts[i];
        let b = lay.ends[i];
        assert(starts_token(tokens, ws[i].prefix.position, a));
        assert(ends_token(tokens, ws[i].postfix.position, b));
        if b < a {
            assert(tokens[b].interval.upper_bound < tokens[a].interval.lower_bound);
        }
    }
    assert forall|i: int, k: int| 0 <= i < ws.len() && 0 <= k < tokens.len() implies (((
    #[trigger] ws[i]).prefix.position == (#[trigger] tokens[k]).interval.lower_bound)
        <==> lay.starts[i] == k) by {
        let a = lay.starts[i];
        assert(starts_token(tokens, ws[i].prefix.position, a));
        lemma_apart_strict(tokens, a, k);
    }
    assert forall|i: int, k: int| 0 <= i < ws.len() && 0 <= k < tokens.len() implies (((
    #[trigger] ws[i]).postfix.position == (#[trigger] tokens[k]).interval.upper_bound)
        <==> lay.ends[i] == k) by {
        let b = lay.ends[i];
        assert(ends_token(tokens, ws[i].postfix.position, b));
        lemma_apart_strict(tokens, b, k);
    }
    assert forall|i: int, j: int| 0 <= i < j < ws.len() implies #[trigger] lay.starts[i]
        <= #[trigger] lay.starts[j] && (lay.starts[i] == lay.starts[j] ==> lay.ends[i]
        >= lay.ends[j]) by {
        assert(starts_token(tokens, ws[i].prefix.position, lay.starts[i]));
        assert(starts_token(tokens, ws[j].prefix.position, lay.starts[j]));
        assert(ends_token(tokens, ws[i].postfix.position, lay.ends[i]));
        assert(ends_token(tokens, ws[j].postfix.position, lay.ends[j]));
        assert(!goes_before(ws[j], ws[i]));
        lemma_apart_strict(tokens, lay.starts[i], lay.starts[j]);
        lemma_apart_strict(tokens, lay.ends[i], lay.ends[j]);
    }
    assert forall|i: int, j: int| 0 <= i < ws.len() && 0 <= j < ws.len() implies {
        ||| #[trigger] lay.ends[i] < #[trigger] lay.starts[j]
        ||| lay.ends[j] < lay.starts[i]
        ||| (lay.starts[i] <= lay.starts[j] && lay.ends[j] <= lay.ends[i])
        ||| (lay.starts[j] <= lay.starts[i] && lay.ends[i] <= lay.ends[j])
    } by {
        assert(starts_token(tokens, ws[i].prefix.position, lay.starts[i]));
        assert(starts_token(tokens, ws[j].prefix.position, lay.starts[j]));
        assert(ends_token(tokens, ws[i].postfix.position, lay.ends[i]));
        assert(ends_token(tokens, ws[j].postfix.position, lay.ends[j]));
        assert(nested_or_apart(ws[i], ws[j]));
        lemma_apart_strict(tokens, lay.starts[i], lay.starts[j]);
        lemma_apart_strict(tokens, lay.ends[i], lay.ends[j]);
        lemma_apart_strict(tokens, lay.ends[i], lay.starts[j]);
        lemma_apart_strict(tokens, lay.ends[j], lay.starts[i]);
    }
}

/// Among tokens that lie apart, a later token starts and ends further right,
/// and starts behind the end of every earlier one.
pub proof fn lemma_apart_strict(tokens: Seq<Token>, a: int, b: int)
    requires
        tokens_apart(tokens),
        0 <= a < tokens.len(),
        0 <= b < tokens.len(),
    ensures
        a < b ==> tokens[a].interval.lower_bound < tokens[b].interval.lower_bound,
        a < b ==> tokens[a].interval.upper_bound < tokens[b].interval.upper_bound,
        a < b ==> tokens[a].interval.upper_bound < tokens[b].interval.lower_bound,
        a <= b ==> tokens[a].interval.lower_bound <= tokens[b].interval.upper_bound,
{
    let ta = tokens[a];
    let tb = tokens[b];
    assert(ta.interval.lower_bound <= ta.interval.upper_bound);
    assert(tb.interval.lower_bound <= tb.interval.upper_bound);
    if a < b {
        assert(tokens[a].interval.upper_bound < tokens[b].interval.lower_bound);
    }
}

/// What holds of the wrappers opened, pending and closed at some point of a
/// pass: the opened ones start with a token up to `opened_to`, the others
/// with one from `unopened_from` on, the pending ones end with a token from
/// `pending_from` on, the closed ones with one up to `closed_to`; and the
/// pending ones lie on the stack in the order they were opened in, each
/// within the one below it.
pub open spec fn state_inv(
    lay: Layout,
    count: int,
    scan: Scan,
    opened_to: int,
    unopened_from: int,
    pending_from: int,
    closed_to: int,
) -> bool {
    &&& 0 <= scan.next <= count
    &&& forall|i: int| 0 <= i < scan.next ==> #[trigger] lay.starts[i] <= opened_to
    &&& forall|i: int| scan.next <= i < count ==> #[trigger] lay.starts[i] >= unopened_from
    &&& forall|j: int|
        0 <= j < scan.pending.len() ==> 0 <= #[trigger] scan.pending[j] < scan.next
            && lay.ends[scan.pending[j]] >= pending_from
    &&& forall|j1: int, j2: int|
        0 <= j1 < j2 < scan.pending.len() ==> #[trigger] scan.pending[j1]
            < #[trigger] scan.pending[j2] && lay.ends[scan.pending[j1]]
            >= lay.ends[scan.pending[j2]]
    &&& forall|i: int|
        0 <= i < scan.next && !scan.pending.contains(i) ==> #[trigger] lay.ends[i] <= closed_to
}

/// What holds of the marks written at some point of a pass.
pub open spec fn trace_inv(lay: Layout, scan: Scan, shown: int) -> bool {
    let trace = scan.trace;
    &&& forall|x: int|
        0 <= x < trace.len() ==> match #[trigger] trace[x] {
            Mark::Open(i) => 0 <= i < scan.next,
            Mark::Text(k) => 0 <= k < shown,
            Mark::Close(i) => 0 <= i < scan.next && !scan.pending.contains(i),
        }
    &&& forall|i: int| 0 <= i < scan.next ==> #[trigger] trace.contains(Mark::Open(i))
    &&& forall|i: int|
        0 <= i < scan.next && !scan.pending.contains(i) ==> #[trigger] trace.contains(
            Mark::Close(i),
        )
    &&& trace.no_duplicates()
    &&& forall|x: int, y: int|
        0 <= x < trace.len() && 0 <= y < trace.len() && opens(#[trigger] trace[x]) && closes(
            #[trigger] trace[y],
        ) && wrapper_of(trace[x]) == wrapper_of(trace[y]) ==> x < y
    &&& forall|x: int, y: int|
        0 <= x < trace.len() && 0 <= y < trace.len() && opens(#[trigger] trace[x]) && opens(
            #[trigger] trace[y],
        ) && wrapper_of(trace[x]) < wrapper_of(trace[y]) ==> x < y
    &&& forall|x: int, y: int|
        0 <= x < trace.len() && 0 <= y < trace.len() && closes(#[trigger] trace[x]) && closes(
            #[trigger] trace[y],
        ) && wrapper_of(trace[x]) < wrapper_of(trace[y]) && lay.starts[wrapper_of(trace[x])]
            == lay.starts[wrapper_of(trace[y])] && lay.ends[wrapper_of(trace[x])]
            > lay.ends[wrapper_of(trace[y])] ==> y < x
}

/// Opening the next wrapper keeps what holds while the wrappers of token `k`
/// are opened.
proof fn lemma_open_one(tokens: Seq<Token>, ws: Seq<Wrapper>, lay: Layout, scan: Scan, k: int)
    requires
        fits(tokens, ws, lay),
        0 <= k < tokens.len(),
        state_inv(lay, ws.len() as int, scan, k, k, k, k - 1),
        trace_inv(lay, scan, k),
        scan.next < ws.len(),
        lay.starts[scan.next] == k,
    ensures
        state_inv(
            lay,
            ws.len() as int,
            Scan {
                next: scan.next + 1,
                pending: scan.pending.push(scan.next),
                trace: scan.trace.push(Mark::Open(scan.next)),
            },
            k,
            k,
            k,
            k - 1,
        ),
        trace_inv(
            lay,
            Scan {
                next: scan.next + 1,
                pending: scan.pending.push(scan.next),
                trace: scan.trace.push(Mark::Open(scan.next)),
            },
            k,
        ),
{
    let n = scan.next;
    let after = Scan {
        next: n + 1,
        pending: scan.pending.push(n),
        trace: scan.trace.push(Mark::Open(n)),
    };
    let count = ws.len() as int;
    assert forall|i: int| #![auto] after.pending.contains(i) <==> (scan.pending.contains(i) || i
        == n) by {
        lemma_contains_push(scan.pending, n, i);
    }
    assert(!scan.pending.contains(n)) by {
        if scan.pending.contains(n) {
            let j = choose|j: int| 0 <= j < scan.pending.len() && scan.pending[j] == n;
            assert(scan.pending[j] < scan.next);
        }
    }
    // the state
    assert forall|j: int| 0 <= j < after.pending.len() implies 0 <= #[trigger] after.pending[j]
        < after.next && lay.ends[after.pending[j]] >= k by {
        if j < scan.pending.len() {
            assert(after.pending[j] == scan.pending[j]);
        }
    }
    assert forall|j1: int, j2: int| 0 <= j1 < j2 < after.pending.len() implies 
        #[trigger] after.pending[j1] < #[trigger] after.pending[j2] && lay.ends[after.pending[j1]]
        >= lay.ends[after.pending[j2]] by {
        assert(after.pending[j1] == scan.pending[j1]);
        if j2 < scan.pending.len() {
            assert(after.pending[j2] == scan.pending[j2]);
        } else {
            let i = scan.pending[j1];
            assert(0 <= i < n);
            assert(lay.ends[i] >= k);
            assert(lay.starts[i] <= k);
            assert(lay.starts[i] <= lay.starts[n] && (lay.starts[i] == lay.starts[n]
                ==> lay.ends[i] >= lay.ends[n]));
        }
    }
    assert(state_inv(lay, count, after, k, k, k, k - 1));
    // the trace
    assert forall|x: int| 0 <= x < after.trace.len() implies match #[trigger] after.trace[x] {
        Mark::Open(i) => 0 <= i < after.next,
        Mark::Text(t) => 0 <= t < k,
        Mark::Close(i) => 0 <= i < after.next && !after.pending.contains(i),
    } by {
        if x < scan.trace.len() {
            assert(after.trace[x] == scan.trace[x]);
        }
    }
    assert forall|i: int| 0 <= i < after.next implies #[trigger] after.trace.contains(
        Mark::Open(i),
    ) by {
        lemma_contains_push(scan.trace, Mark::Open(n), Mark::Open(i));
    }
    assert forall|i: int| 0 <= i < after.next && !after.pending.contains(i) implies 
        #[trigger] after.trace.contains(Mark::Close(i)) by {
        lemma_contains_push(scan.trace, Mark::Open(n), Mark::Close(i));
    }
    assert(!scan.trace.contains(Mark::Open(n))) by {
        if scan.trace.contains(Mark::Open(n)) {
            let x = choose|x: int| 0 <= x < scan.trace.len() && scan.trace[x] == Mark::Open(n);
            assert(scan.trace[x] == Mark::Open(n));
        }
    }
    lemma_no_duplicates_push(scan.trace, Mark::Open(n));
    lemma_trace_order_push(lay, scan, Mark::Open(n), after);
}

/// The three statements on the order of marks still hold when a mark is
/// written that, against each mark before it, asks for nothing or for what
/// its place at the end gives.
proof fn lemma_trace_order_push(lay: Layout, scan: Scan, mark: Mark, after: Scan)
    requires
        after.trace == scan.trace.push(mark),
        forall|x: int, y: int|
            0 <= x < scan.trace.len() && 0 <= y < scan.trace.len() && opens(
                #[trigger] scan.trace[x],
            ) && closes(#[trigger] scan.trace[y]) && wrapper_of(scan.trace[x]) == wrapper_of(
                scan.trace[y],
            ) ==> x < y,
        forall|x: int, y: int|
            0 <= x < scan.trace.len() && 0 <= y < scan.trace.len() && opens(
                #[trigger] scan.trace[x],
            ) && opens(#[trigger] scan.trace[y]) && wrapper_of(scan.trace[x]) < wrapper_of(
                scan.trace[y],
            ) ==> x < y,
        forall|x: int, y: int|
            0 <= x < scan.trace.len() && 0 <= y < scan.trace.len() && closes(
                #[trigger] scan.trace[x],
            ) && closes(#[trigger] scan.trace[y]) && wrapper_of(scan.trace[x]) < wrapper_of(
                scan.trace[y],
            ) && lay.starts[wrapper_of(scan.trace[x])] == lay.starts[wrapper_of(scan.trace[y])]
                && lay.ends[wrapper_of(scan.trace[x])] > lay.ends[wrapper_of(scan.trace[y])] ==> y
                < x,
        // the new mark is no opening that an earlier mark closes
        opens(mark) ==> forall|y: int|
            0 <= y < scan.trace.len() && closes(#[trigger] scan.trace[y]) ==> wrapper_of(
                scan.trace[y],
            ) != wrapper_of(mark),
        // the new mark opens no wrapper in front of one opened before
        opens(mark) ==> forall|y: int|
            0 <= y < scan.trace.len() && opens(#[trigger] scan.trace[y]) ==> wrapper_of(
                scan.trace[y],
            ) < wrapper_of(mark),
        // the new mark closes no wrapper that should have outlasted one closed
        // before
        closes(mark) ==> forall|x: int|
            0 <= x < scan.trace.len() && closes(#[trigger] scan.trace[x]) && wrapper_of(
                scan.trace[x],
            ) < wrapper_of(mark) && lay.starts[wrapper_of(scan.trace[x])] == lay.starts[wrapper_of(
                mark,
            )] ==> lay.ends[wrapper_of(scan.trace[x])] <= lay.ends[wrapper_of(mark)],
    ensures
        forall|x: int, y: int|
            0 <= x < after.trace.len() && 0 <= y < after.trace.len() && opens(
                #[trigger] after.trace[x],
            ) && closes(#[trigger] after.trace[y]) && wrapper_of(after.trace[x]) == wrapper_of(
                after.trace[y],
            ) ==> x < y,
        forall|x: int, y: int|
            0 <= x < after.trace.len() && 0 <= y < after.trace.len() && opens(
                #[trigger] after.trace[x],
            ) && opens(#[trigger] after.trace[y]) && wrapper_of(after.trace[x]) < wrapper_of(
                after.trace[y],
            ) ==> x < y,
        forall|x: int, y: int|
            0 <= x < after.trace.len() && 0 <= y < after.trace.len() && closes(
                #[trigger] after.trace[x],
            ) && closes(#[trigger] after.trace[y]) && wrapper_of(after.trace[x]) < wrapper_of(
                after.trace[y],
            ) && lay.starts[wrapper_of(after.trace[x])] == lay.starts[wrapper_of(after.trace[y])]
                && lay.ends[wrapper_of(after.trace[x])] > lay.ends[wrapper_of(after.trace[y])]
                ==> y < x,
{
    let old_len = scan.trace.len();
    assert forall|x: int, y: int|
        0 <= x < after.trace.len() && 0 <= y < after.trace.len() && opens(
            #[trigger] after.trace[x],
        ) && closes(#[trigger] after.trace[y]) && wrapper_of(after.trace[x]) == wrapper_of(
            after.trace[y],
        ) implies x < y by {
        if x < old_len {
            assert(after.trace[x] == scan.trace[x]);
        }
        if y < old_len {
            assert(after.trace[y] == scan.trace[y]);
        }
    }
    assert forall|x: int, y: int|
        0 <= x < after.trace.len() && 0 <= y < after.trace.len() && opens(
            #[trigger] after.trace[x],
        ) && opens(#[trigger] after.trace[y]) && wrapper_of(after.trace[x]) < wrapper_of(
            after.trace[y],
        ) implies x < y by {
        if x < old_len {
            assert(after.trace[x] == scan.trace[x]);
        }
        if y < old_len {
            assert(after.trace[y] == scan.trace[y]);
        }
    }
    assert forall|x: int, y: int|
        0 <= x < after.trace.len() && 0 <= y < after.trace.len() && closes(
            #[trigger] after.trace[x],
        ) && closes(#[trigger] after.trace[y]) && wrapper_of(after.trace[x]) < wrapper_of(
            after.trace[y],
        ) && lay.starts[wrapper_of(after.trace[x])] == lay.starts[wrapper_of(after.trace[y])]
            && lay.ends[wrapper_of(after.trace[x])] > lay.ends[wrapper_of(after.trace[y])]
        implies y < x by {
        if x < old_len {
            assert(after.trace[x] == scan.trace[x]);
        }
        if y < old_len {
            assert(after.trace[y] == scan.trace[y]);
        }
    }
}

/// Opening all wrappers that start with token `k` leaves none unopened that
/// starts with it.
proof fn lemma_open_all(tokens: Seq<Token>, ws: Seq<Wrapper>, lay: Layout, scan: Scan, k: int)
    requires
        fits(tokens, ws, lay),
        0 <= k < tokens.len(),
        state_inv(lay, ws.len() as int, scan, k, k, k, k - 1),
        trace_inv(lay, scan, k),
    ensures
        state_inv(
            lay,
            ws.len() as int,
            open_all(ws, scan, tokens[k].interval.lower_bound),
            k,
            k + 1,
            k,
            k - 1,
        ),
        trace_inv(lay, open_all(ws, scan, tokens[k].interval.lower_bound), k),
    decreases ws.len() - scan.next,
{
    let at = tokens[k].interval.lower_bound;
    let n = scan.next;
    if 0 <= n < ws.len() && ws[n].prefix.position == at {
        assert(ws[n].prefix.position == tokens[k].interval.lower_bound);
        assert(lay.starts[n] == k);
        lemma_open_one(tokens, ws, lay, scan, k);
        let after = Scan {
            next: n + 1,
            pending: scan.pending.push(n),
            trace: scan.trace.push(Mark::Open(n)),
        };
        lemma_open_all(tokens, ws, lay, after, k);
    } else {
        assert forall|i: int| n <= i < ws.len() implies #[trigger] lay.starts[i] >= k + 1 by {
            assert(lay.starts[n] >= k);
            assert((ws[n].prefix.position == tokens[k].interval.lower_bound) <==> lay.starts[n]
                == k);
            if i > n {
                assert(lay.starts[n] <= lay.starts[i]);
            }
        }
    }
}

/// Writing the text of token `k` keeps what holds of the marks.
proof fn lemma_show(lay: Layout, scan: Scan, k: int)
    requires
        0 <= k,
        trace_inv(lay, scan, k),
    ensures
        trace_inv(
            lay,
            Scan {
                next: scan.next,
                pending: scan.pending,
                trace: scan.trace.push(Mark::Text(k)),
            },
            k + 1,
        ),
{
    let after = Scan { next: scan.next, pending: scan.pending, trace: scan.trace.push(Mark::Text(k)) };
    assert forall|x: int| 0 <= x < after.trace.len() implies match #[trigger] after.trace[x] {
        Mark::Open(i) => 0 <= i < after.next,
        Mark::Text(t) => 0 <= t < k + 1,
        Mark::Close(i) => 0 <= i < after.next && !after.pending.contains(i),
    } by {
        if x < scan.trace.len() {
            assert(after.trace[x] == scan.trace[x]);
        }
    }
    assert forall|i: int| 0 <= i < after.next implies #[trigger] after.trace.contains(
        Mark::Open(i),
    ) by {
        lemma_contains_push(scan.trace, Mark::Text(k), Mark::Open(i));
    }
    assert forall|i: int| 0 <= i < after.next && !after.pending.contains(i) implies 
        #[trigger] after.trace.contains(Mark::Close(i)) by {
        lemma_contains_push(scan.trace, Mark::Text(k), Mark::Close(i));
    }
    assert(!scan.trace.contains(Mark::Text(k))) by {
        if scan.trace.contains(Mark::Text(k)) {
            let x = choose|x: int| 0 <= x < scan.trace.len() && scan.trace[x] == Mark::Text(k);
            assert(scan.trace[x] == Mark::Text(k));
        }
    }
    lemma_no_duplicates_push(scan.trace, Mark::Text(k));
    lemma_trace_order_push(lay, scan, Mark::Text(k), after);
}

/// Closing the latest pending wrapper keeps what holds while the wrappers of
/// token `k` are closed.
proof fn lemma_close_one(tokens: Seq<Token>, ws: Seq<Wrapper>, lay: Layout, scan: Scan, k: int)
    requires
        fits(tokens, ws, lay),
        0 <= k < tokens.len(),
        state_inv(lay, ws.len() as int, scan, k, k + 1, k, k),
        trace_inv(lay, scan, k + 1),
        scan.pending.len() > 0,
        lay.ends[scan.pending.last()] == k,
    ensures
        state_inv(
            lay,
            ws.len() as int,
            Scan {
                next: scan.next,
                pending: scan.pending.drop_last(),
                trace: scan.trace.push(Mark::Close(scan.pending.last())),
            },
            k,
            k + 1,
            k,
            k,
        ),
        trace_inv(
            lay,
            Scan {
                next: scan.next,
                pending: scan.pending.drop_last(),
                trace: scan.trace.push(Mark::Close(scan.pending.last())),
            },
            k + 1,
        ),
{
    let top = scan.pending.last();
    let after = Scan {
        next: scan.next,
        pending: scan.pending.drop_last(),
        trace: scan.trace.push(Mark::Close(top)),
    };
    let count = ws.len() as int;
    let last = scan.pending.len() - 1;
    assert(scan.pending[last] == top);
    assert forall|i: int| #![auto] after.pending.contains(i) <==> (scan.pending.contains(i) && i
        != top) by {
        if after.pending.contains(i) {
            let j = choose|j: int| 0 <= j < after.pending.len() && after.pending[j] == i;
            assert(scan.pending[j] == i);
            assert(scan.pending[j] < scan.pending[last]);
        }
        if scan.pending.contains(i) && i != top {
            let j = choose|j: int| 0 <= j < scan.pending.len() && scan.pending[j] == i;
            assert(after.pending[j] == i);
        }
    }
    assert(scan.pending.contains(top));
    // the state
    assert forall|j: int| 0 <= j < after.pending.len() implies 0 <= #[trigger] after.pending[j]
        < after.next && lay.ends[after.pending[j]] >= k by {
        assert(after.pending[j] == scan.pending[j]);
    }
    assert forall|j1: int, j2: int| 0 <= j1 < j2 < after.pending.len() implies 
        #[trigger] after.pending[j1] < #[trigger] after.pending[j2] && lay.ends[after.pending[j1]]
        >= lay.ends[after.pending[j2]] by {
        assert(after.pending[j1] == scan.pending[j1]);
        assert(after.pending[j2] == scan.pending[j2]);
    }
    assert(state_inv(lay, count, after, k, k + 1, k, k));
    // the trace
    assert forall|x: int| 0 <= x < after.trace.len() implies match #[trigger] after.trace[x] {
        Mark::Open(i) => 0 <= i < after.next,
        Mark::Text(t) => 0 <= t < k + 1,
        Mark::Close(i) => 0 <= i < after.next && !after.pending.contains(i),
    } by {
        if x < scan.trace.len() {
            assert(after.trace[x] == scan.trace[x]);
        }
    }
    assert forall|i: int| 0 <= i < after.next implies #[trigger] after.trace.contains(
        Mark::Open(i),
    ) by {
        lemma_contains_push(scan.trace, Mark::Close(top), Mark::Open(i));
    }
    assert forall|i: int| 0 <= i < after.next && !after.pending.contains(i) implies 
        #[trigger] after.trace.contains(Mark::Close(i)) by {
        lemma_contains_push(scan.trace, Mark::Close(top), Mark::Close(i));
    }
    assert(!scan.trace.contains(Mark::Close(top))) by {
        if scan.trace.contains(Mark::Close(top)) {
            let x = choose|x: int| 0 <= x < scan.trace.len() && scan.trace[x] == Mark::Close(top);
            assert(scan.trace[x] == Mark::Close(top));
        }
    }
    lemma_no_duplicates_push(scan.trace, Mark::Close(top));
    assert forall|x: int|
        0 <= x < scan.trace.len() && closes(#[trigger] scan.trace[x]) && wrapper_of(scan.trace[x])
            < top && lay.starts[wrapper_of(scan.trace[x])] == lay.starts[top] implies lay.ends[wrapper_of(
        scan.trace[x],
    )] <= lay.ends[top] by {
        let i = wrapper_of(scan.trace[x]);
        assert(0 <= i < scan.next && !scan.pending.contains(i));
        assert(lay.ends[i] <= k);
    }
    lemma_trace_order_push(lay, scan, Mark::Close(top), after);
}

/// Closing all wrappers that end with token `k` leaves none pending that ends
/// with it.
proof fn lemma_close_all(tokens: Seq<Token>, ws: Seq<Wrapper>, lay: Layout, scan: Scan, k: int)
    requires
        fits(tokens, ws, lay),
        0 <= k < tokens.len(),
        state_inv(lay, ws.len() as int, scan, k, k + 1, k, k),
        trace_inv(lay, scan, k + 1),
    ensures
        state_inv(
            lay,
            ws.len() as int,
            close_all(ws, scan, tokens[k].interval.upper_bound),
            k,
            k + 1,
            k + 1,
            k,
        ),
        trace_inv(lay, close_all(ws, scan, tokens[k].interval.upper_bound), k + 1),
    decreases scan.pending.len(),
{
    let at = tokens[k].interval.upper_bound;
    if scan.pending.len() > 0 {
        let last = scan.pending.len() - 1;
        let top = scan.pending[last];
        assert(0 <= top < scan.next);
        assert((ws[top].postfix.position == tokens[k].interval.upper_bound) <==> lay.ends[top]
            == k);
        if ws[top].postfix.position == at {
            lemma_close_one(tokens, ws, lay, scan, k);
            let after = Scan {
                next: scan.next,
                pending: scan.pending.drop_last(),
                trace: scan.trace.push(Mark::Close(top)),
            };
            lemma_close_all(tokens, ws, lay, after, k);
        } else {
            assert forall|j: int| 0 <= j < scan.pending.len() implies 0 <= 
                #[trigger] scan.pending[j] < scan.next && lay.ends[scan.pending[j]] >= k + 1 by {
                assert(lay.ends[top] >= k);
                if j < last {
                    assert(scan.pending[j] < scan.pending[last]);
                }
            }
        }
    }
}

/// What holds between two tokens: everything that starts with one of the
/// first `k` tokens has been opened, and of that, everything that ends with
/// one of them has been closed.
pub proof fn lemma_scanned(tokens: Seq<Token>, ws: Seq<Wrapper>, lay: Layout, k: nat)
    requires
        fits(tokens, ws, lay),
        k <= tokens.len(),
    ensures
        state_inv(lay, ws.len() as int, scanned(ws, tokens, k), k - 1, k as int, k as int, k - 1),
        trace_inv(lay, scanned(ws, tokens, k), k as int),
    decreases k,
{
    if k == 0 {
        let start = scanned(ws, tokens, 0);
        assert(start.trace.len() == 0);
        assert(start.pending.len() == 0);
        assert(start.next == 0);
        assert forall|i: int| 0 <= i < ws.len() implies #[trigger] lay.starts[i] >= 0 by {}
    } else {
        let m: int = k - 1;
        lemma_scanned(tokens, ws, lay, m as nat);
        let before = scanned(ws, tokens, m as nat);
        assert(state_inv(lay, ws.len() as int, before, m, m, m, m - 1));
        lemma_open_all(tokens, ws, lay, before, m);
        let opened = open_all(ws, before, tokens[m].interval.lower_bound);
        lemma_show(lay, opened, m);
        let shown = Scan {
            next: opened.next,
            pending: opened.pending,
            trace: opened.trace.push(Mark::Text(m)),
        };
        assert(state_inv(lay, ws.len() as int, shown, m, m + 1, m, m));
        lemma_close_all(tokens, ws, lay, shown, m);
    }
}

} // verus!
