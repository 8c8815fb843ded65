//! Lays markup over a token stream: every wrapper's opening text goes in
//! front of the token that starts where the wrapper starts, its closing text
//! behind the token that ends where the wrapper ends.

use crate::custom_collections::{Queue, Stack};
use crate::lexer::{IntervalToSnippet, Token};
use crate::order::{in_order, sort_wrappers};
use vstd::prelude::*;
use vstd::string::*;

verus! {

/// A piece of markup and the character offset it belongs to.
#[derive(Debug)]
pub struct Chunk {
    pub position: usize,
    pub text: String,
}

impl Chunk {
    pub fn new(position: usize, text: String) -> (chunk: Chunk)
        ensures
            chunk.position == position,
            chunk.text == text,
    {
        Chunk { position, text }
    }
}

/// Markup around a range of text: `prefix` opens in front of the token that
/// starts at `prefix.position`, `postfix` closes behind the token that ends at
/// `postfix.position`.
#[derive(Debug)]
pub struct Wrapper {
    pub prefix: Chunk,
    pub postfix: Chunk,
}

impl Wrapper {
    pub fn new(prefix: Chunk, postfix: Chunk) -> (wrapper: Wrapper)
        ensures
            wrapper.prefix == prefix,
            wrapper.postfix == postfix,
    {
        Wrapper { prefix, postfix }
    }
}

/// Why a file could not be rendered.
#[derive(Clone, Copy, Debug, PartialEq, Eq, Structural)]
pub struct RenderError {
    /// Index of the first token whose text the source does not hold.
    pub token: usize,
}

/// One thing written to the output.
pub enum Mark {
    /// The prefix of the wrapper with this index in opening order.
    Open(int),
    /// The text of the token with this index.
    Text(int),
    /// The postfix of the wrapper with this index in opening order.
    Close(int),
}

/// How far a pass over the tokens has come.
pub struct Scan {
    /// Index, in opening order, of the first wrapper not opened yet.
    pub next: int,
    /// The wrappers opened and not closed yet, the latest last.
    pub pending: Seq<int>,
    /// What has been written, in order.
    pub trace: Seq<Mark>,
}

/// Opens the wrappers from `scan.next` on for as long as they start at `at`.
pub open spec fn open_all(wrappers: Seq<Wrapper>, scan: Scan, at: usize) -> Scan
    decreases wrappers.len() - scan.next,
{
    if 0 <= scan.next < wrappers.len() && wrappers[scan.next].prefix.position == at {
        open_all(
            wrappers,
            Scan {
                next: scan.next + 1,
                pending: scan.pending.push(scan.next),
                trace: scan.trace.push(Mark::Open(scan.next)),
            },
            at,
        )
    } else {
        scan
    }
}

/// Closes the pending wrappers from the latest back for as long as they end
/// at `at`.
pub open spec fn close_all(wrappers: Seq<Wrapper>, scan: Scan, at: usize) -> Scan
    decreases scan.pending.len(),
{
    if scan.pending.len() > 0 && wrappers[scan.pending.last()].postfix.position == at {
        close_all(
            wrappers,
            Scan {
                next: scan.next,
                pending: scan.pending.drop_last(),
                trace: scan.trace.push(Mark::Close(scan.pending.last())),
            },
            at,
        )
    } else {
        scan
    }
}

/// Writes token `k`: the wrappers that start with it, its text, and the
/// wrappers that end with it.
pub open spec fn after_token(wrappers: Seq<Wrapper>, tokens: Seq<Token>, scan: Scan, k: int) -> Scan {
    let opened = open_all(wrappers, scan, tokens[k].interval.lower_bound);
    let shown = Scan {
        next: opened.next,
        pending: opened.pending,
        trace: opened.trace.push(Mark::Text(k)),
    };
    close_all(wrappers, shown, tokens[k].interval.upper_bound)
}

/// The pass over the first `n` tokens, with `wrappers` in opening order.
pub open spec fn scanned(wrappers: Seq<Wrapper>, tokens: Seq<Token>, n: nat) -> Scan
    decreases n,
{
    if n == 0 {
        Scan { next: 0, pending: Seq::empty(), trace: Seq::empty() }
    } else {
        after_token(wrappers, tokens, scanned(wrappers, tokens, (n - 1) as nat), n - 1)
    }
}

/// The text that a mark stands for.
pub open spec fn mark_text(wrappers: Seq<Wrapper>, texts: Seq<Seq<char>>, mark: Mark) -> Seq<char> {
    match mark {
        Mark::Open(i) => wrappers[i].prefix.text@,
        Mark::Text(k) => texts[k],
        Mark::Close(i) => wrappers[i].postfix.text@,
    }
}

/// The texts of all marks of `trace`, one after the other.
pub open spec fn trace_text(wrappers: Seq<Wrapper>, texts: Seq<Seq<char>>, trace: Seq<Mark>) -> Seq<
    char,
>
    decreases trace.len(),
{
    if trace.len() == 0 {
        Seq::empty()
    } else {
        trace_text(wrappers, texts, trace.drop_last()) + mark_text(wrappers, texts, trace.last())
    }
}

/// The text of each token, as `source` gives it.
pub open spec fn snippets<S: IntervalToSnippet>(source: &S, tokens: Seq<Token>) -> Seq<Seq<char>> {
    Seq::new(tokens.len(), |k: int| source.snippet(tokens[k].interval@).unwrap())
}

/// The marks written for `tokens` under `wrappers`, which may come in any
/// order; the indices in the marks refer to `in_order(wrappers)`.
pub open spec fn rendered_trace(tokens: Seq<Token>, wrappers: Seq<Wrapper>) -> Seq<Mark> {
    scanned(in_order(wrappers), tokens, tokens.len()).trace
}

/// The annotated text of one file.
pub open spec fn rendered<S: IntervalToSnippet>(
    source: &S,
    tokens: Seq<Token>,
    wrappers: Seq<Wrapper>,
) -> Seq<char> {
    trace_text(in_order(wrappers), snippets(source, tokens), rendered_trace(tokens, wrappers))
}

/// Appending a mark to a trace appends its text to the trace's text.
proof fn lemma_trace_text_push(
    wrappers: Seq<Wrapper>,
    texts: Seq<Seq<char>>,
    trace: Seq<Mark>,
    mark: Mark,
)
    ensures
        trace_text(wrappers, texts, trace.push(mark)) == trace_text(wrappers, texts, trace)
            + mark_text(wrappers, texts, mark),
{
    assert(trace.push(mark).drop_last() =~= trace);
}

fn head_opens_at(queue: &Queue<Wrapper>, at: usize) -> (opens: bool)
    ensures
        opens == (queue@.len() > 0 && queue@.first().prefix.position == at),
{
    match queue.peek() {
        Some(wrapper) => wrapper.prefix.position == at,
        None => false,
    }
}

fn top_closes_at(stack: &Stack<Chunk>, at: usize) -> (closes: bool)
    ensures
        closes == (stack@.len() > 0 && stack@.last().position == at),
{
    match stack.peek() {
        Some(chunk) => chunk.position == at,
        None => false,
    }
}

/// The postfixes of the pending wrappers, as they lie on the stack.
spec fn pending_chunks(wrappers: Seq<Wrapper>, pending: Seq<int>) -> Seq<Chunk> {
    pending.map_values(|i: int| wrappers[i].postfix)
}

/// Renders one file: the text of every token in order, with the prefix of
/// each wrapper in front of the token that starts at the prefix's offset and
/// its postfix behind the token that ends at the postfix's offset. Fails,
/// without any output, when `source` lacks the text of a token.
pub fn render<S: IntervalToSnippet>(source: &S, tokens: Vec<Token>, wrappers: Vec<Wrapper>) -> (result:
    Result<String, RenderError>)
    ensures
        match result {
            Ok(text) => {
                &&& forall|k: int|
                    0 <= k < tokens@.len() ==> source.snippet(
                        (#[trigger] tokens@[k]).interval@,
                    ) is Some
                &&& text@ == rendered(source, tokens@, wrappers@)
            },
            Err(error) => {
                &&& error.token < tokens@.len()
                &&& source.snippet(tokens@[error.token as int].interval@) is None
                &&& forall|k: int|
                    0 <= k < error.token ==> source.snippet(
                        (#[trigger] tokens@[k]).interval@,
                    ) is Some
            },
        },
{
    let ghost given = wrappers@;
    let sorted = sort_wrappers(wrappers);
    let ghost ws = sorted@;
    let ghost texts = snippets(source, tokens@);
    let mut queue = Queue::from_iter(sorted);
    let mut postfixes: Stack<Chunk> = Stack::new();
    let mut buffer = String::new();
    let ghost mut scan = scanned(ws, tokens@, 0);
    assert(ws.skip(0) =~= ws);
    assert(pending_chunks(ws, scan.pending) =~= postfixes@);

    let mut k: usize = 0;
    while k < tokens.len()
        invariant
            k <= tokens@.len(),
            ws == in_order(given),
            texts == snippets(source, tokens@),
            scan == scanned(ws, tokens@, k as nat),
            0 <= scan.next <= ws.len(),
            forall|j: int| 0 <= j < scan.pending.len() ==> 0 <= #[trigger] scan.pending[j] < ws.len(),
            queue@ == ws.skip(scan.next),
            postfixes@ == pending_chunks(ws, scan.pending),
            buffer@ == trace_text(ws, texts, scan.trace),
            forall|j: int|
                0 <= j < k ==> source.snippet((#[trigger] tokens@[j]).interval@) is Some,
        decreases tokens@.len() - k,
    {
        let token = &tokens[k];
        let snippet = match source.interval_to_snippet(&token.interval) {
            Some(snippet) => snippet,
            None => {
                return Err(RenderError { token: k });
            },
        };
        let ghost before = scan;
        let lower = token.interval.lower_bound;
        let upper = token.interval.upper_bound;

        while head_opens_at(&queue, lower)
            invariant
                0 <= scan.next <= ws.len(),
                forall|j: int|
                    0 <= j < scan.pending.len() ==> 0 <= #[trigger] scan.pending[j] < ws.len(),
                queue@ == ws.skip(scan.next),
                postfixes@ == pending_chunks(ws, scan.pending),
                buffer@ == trace_text(ws, texts, scan.trace),
                open_all(ws, scan, lower) == open_all(ws, before, lower),
            decreases ws.len() - scan.next,
        {
            let wrapper = queue.dequeue().unwrap();
            proof {
                assert(wrapper == ws[scan.next]);
                lemma_trace_text_push(ws, texts, scan.trace, Mark::Open(scan.next));
                let opened = Scan {
                    next: scan.next + 1,
                    pending: scan.pending.push(scan.next),
                    trace: scan.trace.push(Mark::Open(scan.next)),
                };
                assert(ws.skip(scan.next).drop_first() =~= ws.skip(opened.next));
                assert(pending_chunks(ws, opened.pending) =~= pending_chunks(
                    ws,
                    scan.pending,
                ).push(wrapper.postfix));
                scan = opened;
            }
            buffer.append(wrapper.prefix.text.as_str());
            postfixes.push(wrapper.postfix);
        }

        proof {
            assert(scan.next < ws.len() ==> queue@.first() == ws[scan.next]);
            assert(open_all(ws, scan, lower) == scan);
            lemma_trace_text_push(ws, texts, scan.trace, Mark::Text(k as int));
            scan = Scan {
                next: scan.next,
                pending: scan.pending,
                trace: scan.trace.push(Mark::Text(k as int)),
            };
            assert(texts[k as int] == snippet@);
        }
        buffer.append(snippet.as_str());
        let ghost shown = scan;

        while top_closes_at(&postfixes, upper)
            invariant
                0 <= scan.next <= ws.len(),
                forall|j: int|
                    0 <= j < scan.pending.len() ==> 0 <= #[trigger] scan.pending[j] < ws.len(),
                queue@ == ws.skip(scan.next),
                postfixes@ == pending_chunks(ws, scan.pending),
                buffer@ == trace_text(ws, texts, scan.trace),
                close_all(ws, scan, upper) == close_all(ws, shown, upper),
            decreases scan.pending.len(),
        {
            let postfix = postfixes.pop().unwrap();
            proof {
                let last = scan.pending.last();
                assert(postfix == ws[last].postfix);
                lemma_trace_text_push(ws, texts, scan.trace, Mark::Close(last));
                let closed = Scan {
                    next: scan.next,
                    pending: scan.pending.drop_last(),
                    trace: scan.trace.push(Mark::Close(last)),
                };
                assert(pending_chunks(ws, closed.pending) =~= pending_chunks(
                    ws,
                    scan.pending,
                ).drop_last());
                scan = closed;
            }
            buffer.append(postfix.text.as_str());
        }

        proof {
            assert(scan.pending.len() > 0 ==> postfixes@.last() == ws[scan.pending.last()].postfix);
            assert(close_all(ws, scan, upper) == scan);
            assert(scan == after_token(ws, tokens@, before, k as int));
        }
        k += 1;
    }
    Ok(buffer)
}

} // verus!
