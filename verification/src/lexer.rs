//! Positions in source text, tokens, and the text that a token stands for.

use crate::text::{chars_of, text_of};
use vstd::prelude::*;
use vstd::string::*;

verus! {

/// An inclusive range of character offsets within one named file.
#[derive(Debug)]
pub struct Interval {
    /// Offset of the first character.
    pub lower_bound: usize,
    /// Offset of the last character.
    pub upper_bound: usize,
    pub filename: String,
}

/// An interval as plain values.
pub struct IntervalView {
    pub lower_bound: int,
    pub upper_bound: int,
    pub filename: Seq<char>,
}

impl View for Interval {
    type V = IntervalView;

    open spec fn view(&self) -> IntervalView {
        IntervalView {
            lower_bound: self.lower_bound as int,
            upper_bound: self.upper_bound as int,
            filename: self.filename@,
        }
    }
}

impl Clone for Interval {
    fn clone(&self) -> (copy: Interval)
        ensures
            copy@ == self@,
    {
        Interval {
            lower_bound: self.lower_bound,
            upper_bound: self.upper_bound,
            filename: self.filename.clone(),
        }
    }
}

impl PartialEq for Interval {
    fn eq(&self, other: &Interval) -> (equal: bool) {
        self.lower_bound == other.lower_bound && self.upper_bound == other.upper_bound
            && self.filename == other.filename
    }
}

impl Eq for Interval {

}

impl vstd::std_specs::cmp::PartialEqSpecImpl for Interval {
    open spec fn obeys_eq_spec() -> bool {
        true
    }

    open spec fn eq_spec(&self, other: &Interval) -> bool {
        self@ == other@
    }
}

/// What the tokenizer says a token is, as far as this library reads it.
#[derive(Clone, Copy, Debug, PartialEq, Eq, Structural)]
pub enum CompilerToken {
    /// The end of the input; the tokenizer yields nothing useful after it.
    Eof,
    /// Any piece of the text: a word, a symbol, white space, a comment.
    Lexeme,
}

/// A token as the tokenizer hands it out: its kind and the half-open range
/// `lo..hi` of absolute offsets that it covers.
#[derive(Clone, Copy, Debug)]
pub struct TokenAndSpan {
    pub tok: CompilerToken,
    pub lo: usize,
    pub hi: usize,
}

/// A minimal lexical unit and the place it occupies in its file.
#[derive(Debug)]
pub struct Token {
    pub compiler_token: CompilerToken,
    pub interval: Interval,
}

impl Clone for Token {
    fn clone(&self) -> (copy: Token)
        ensures
            copy.compiler_token == self.compiler_token,
            copy.interval@ == self.interval@,
    {
        Token { compiler_token: self.compiler_token, interval: self.interval.clone() }
    }
}

/// One file of the analyzed program.
#[derive(Debug)]
pub struct SourceFile {
    pub name: String,
    /// The file's text, character by character, where it could be loaded.
    pub src: Option<Vec<char>>,
    /// Absolute offset at which this file's text begins.
    pub start_pos: usize,
    /// Whether the file exists on disk, rather than being made up by the
    /// compiler.
    pub on_disk: bool,
}

/// All the files of the analyzed program.
#[derive(Debug)]
pub struct SourceMap {
    pub files: Vec<SourceFile>,
}

/// The range `lo..hi` of absolute offsets, as an inclusive interval relative to
/// the start of the file. An empty range at the very start is given the
/// interval `[0, 0]`.
pub open spec fn interval_of_span(lo: int, hi: int, start_pos: int) -> (int, int) {
    (lo - start_pos, if hi - start_pos > 0 { hi - start_pos - 1 } else { 0 })
}

pub fn to_interval(lo: usize, hi: usize, file: &SourceFile) -> (interval: Interval)
    requires
        file.start_pos <= lo,
        file.start_pos <= hi,
    ensures
        interval.lower_bound == interval_of_span(lo as int, hi as int, file.start_pos as int).0,
        interval.upper_bound == interval_of_span(lo as int, hi as int, file.start_pos as int).1,
        interval.filename@ == file.name@,
{
    let lower_bound: usize = lo - file.start_pos;
    let mut upper_bound: usize = hi - file.start_pos;
    if upper_bound > 0 {
        upper_bound -= 1;
    }
    Interval { lower_bound, upper_bound, filename: file.name.clone() }
}

pub fn to_internal_token(token_and_span: TokenAndSpan, file: &SourceFile) -> (token: Token)
    requires
        file.start_pos <= token_and_span.lo,
        file.start_pos <= token_and_span.hi,
    ensures
        token.compiler_token == token_and_span.tok,
        token.interval.lower_bound == interval_of_span(
            token_and_span.lo as int,
            token_and_span.hi as int,
            file.start_pos as int,
        ).0,
        token.interval.upper_bound == interval_of_span(
            token_and_span.lo as int,
            token_and_span.hi as int,
            file.start_pos as int,
        ).1,
        token.interval.filename@ == file.name@,
{
    Token {
        compiler_token: token_and_span.tok,
        interval: to_interval(token_and_span.lo, token_and_span.hi, file),
    }
}

/// The tokens that come before the first end of input.
pub open spec fn before_eof(lexed: Seq<TokenAndSpan>) -> Seq<TokenAndSpan>
    decreases lexed.len(),
{
    if lexed.len() == 0 || lexed.first().tok == CompilerToken::Eof {
        Seq::empty()
    } else {
        seq![lexed.first()] + before_eof(lexed.drop_first())
    }
}

/// Whether `token` is what `to_internal_token` makes of `lexed` in a file
/// called `name` that starts at `start_pos`.
pub open spec fn is_token_of(token: Token, lexed: TokenAndSpan, name: Seq<char>, start_pos: int) -> bool {
    &&& token.compiler_token == lexed.tok
    &&& token.interval.lower_bound == interval_of_span(lexed.lo as int, lexed.hi as int, start_pos).0
    &&& token.interval.upper_bound == interval_of_span(lexed.lo as int, lexed.hi as int, start_pos).1
    &&& token.interval.filename@ == name
}

/// The tokens of `file`, from what the tokenizer found in it: everything up
/// to the first end of input, each with its place in the file.
pub fn read_tokens(lexed: Vec<TokenAndSpan>, file: &SourceFile) -> (tokens: Vec<Token>)
    requires
        forall|i: int|
            0 <= i < lexed@.len() ==> file.start_pos <= (#[trigger] lexed@[i]).lo && file.start_pos
                <= lexed@[i].hi,
    ensures
        tokens@.len() == before_eof(lexed@).len(),
        forall|i: int|
            0 <= i < tokens@.len() ==> is_token_of(
                #[trigger] tokens@[i],
                before_eof(lexed@)[i],
                file.name@,
                file.start_pos as int,
            ),
{
    let mut tokens: Vec<Token> = Vec::new();
    let mut i: usize = 0;
    assert(lexed@.skip(0) =~= lexed@);
    while i < lexed.len()
        invariant
            i <= lexed@.len(),
            forall|j: int|
                0 <= j < lexed@.len() ==> file.start_pos <= (#[trigger] lexed@[j]).lo
                    && file.start_pos <= lexed@[j].hi,
            tokens@.len() == i,
            before_eof(lexed@) == lexed@.take(i as int) + before_eof(lexed@.skip(i as int)),
            forall|j: int|
                0 <= j < i ==> is_token_of(
                    #[trigger] tokens@[j],
                    lexed@[j],
                    file.name@,
                    file.start_pos as int,
                ),
        decreases lexed@.len() - i,
    {
        let token = to_internal_token(lexed[i], file);
        assert(lexed@.skip(i as int).first() == lexed@[i as int]);
        if token.compiler_token == CompilerToken::Eof {
            assert(before_eof(lexed@) =~= lexed@.take(i as int));
            return tokens;
        }
        tokens.push(token);
        proof {
            assert(lexed@.skip(i as int).drop_first() =~= lexed@.skip(i + 1));
            assert(lexed@.take(i as int) + (seq![lexed@[i as int]] + before_eof(
                lexed@.skip(i + 1),
            )) =~= lexed@.take(i + 1) + before_eof(lexed@.skip(i + 1)));
        }
        i += 1;
    }
    assert(before_eof(lexed@) =~= lexed@.take(i as int));
    tokens
}

/// The text of a token as it must appear in markup: the two angle brackets
/// are replaced by their entities, any other text stands for itself.
pub open spec fn escaped(snippet: Seq<char>) -> Seq<char> {
    if snippet == "<"@ {
        "&lt;"@
    } else if snippet == ">"@ {
        "&gt;"@
    } else {
        snippet
    }
}

pub fn escape_shippet(snippet: String) -> (text: String)
    ensures
        text@ == escaped(snippet@),
{
    if snippet == String::from_str("<") {
        String::from_str("&lt;")
    } else if snippet == String::from_str(">") {
        String::from_str("&gt;")
    } else {
        snippet
    }
}

/// Something that can give the text that an interval covers.
pub trait IntervalToSnippet {
    /// The text of `interval`, escaped for markup, or `None` where this source
    /// does not hold it.
    spec fn snippet(&self, interval: IntervalView) -> Option<Seq<char>>;

    fn interval_to_snippet(&self, interval: &Interval) -> (text: Option<String>)
        ensures
            text is Some <==> self.snippet(interval@) is Some,
            text matches Some(t) ==> Some(t@) == self.snippet(interval@),
    ;
}

impl IntervalToSnippet for SourceFile {
    /// A file holds the text of an interval that names it and lies within its
    /// text; an interval may also end just before it begins, and is then
    /// empty.
    open spec fn snippet(&self, interval: IntervalView) -> Option<Seq<char>> {
        match self.src {
            Some(src) => if self.name@ == interval.filename && interval.lower_bound
                <= interval.upper_bound + 1 <= src@.len() {
                Some(escaped(src@.subrange(interval.lower_bound, interval.upper_bound + 1)))
            } else {
                None
            },
            None => None,
        }
    }

    fn interval_to_snippet(&self, interval: &Interval) -> (text: Option<String>) {
        match &self.src {
            Some(src) => {
                if self.name == interval.filename && interval.upper_bound < src.len()
                    && interval.lower_bound <= interval.upper_bound + 1 {
                    Some(
                        escape_shippet(
                            text_of(src, interval.lower_bound, interval.upper_bound + 1),
                        ),
                    )
                } else {
                    None
                }
            },
            None => None,
        }
    }
}

impl SourceFile {
    /// A file called `name` with the text `src`.
    pub fn new(name: &str, src: Option<&str>, start_pos: usize, on_disk: bool) -> (file: SourceFile)
        ensures
            file.name@ == name@,
            match src {
                Some(text) => file.src matches Some(chars) && chars@ == text@,
                None => file.src is None,
            },
            file.start_pos == start_pos,
            file.on_disk == on_disk,
    {
        SourceFile {
            name: String::from_str(name),
            src: match src {
                Some(text) => Some(chars_of(text)),
                None => None,
            },
            start_pos,
            on_disk,
        }
    }
}

impl SourceMap {
    /// The first file called `filename`, if there is one.
    pub open spec fn file_named(&self, filename: Seq<char>) -> Option<SourceFile> {
        let i = choose|i: int| self.is_first_named(filename, i);
        if exists|i: int| self.is_first_named(filename, i) {
            Some(self.files@[i])
        } else {
            None
        }
    }

    pub open spec fn is_first_named(&self, filename: Seq<char>, i: int) -> bool {
        &&& 0 <= i < self.files@.len()
        &&& self.files@[i].name@ == filename
        &&& forall|j: int| 0 <= j < i ==> self.files@[j].name@ != filename
    }

    /// The index of the first file called `filename`.
    pub fn find(&self, filename: &String) -> (found: Option<usize>)
        ensures
            found matches Some(i) ==> self.is_first_named(filename@, i as int),
            found is None ==> forall|j: int|
                0 <= j < self.files@.len() ==> self.files@[j].name@ != filename@,
    {
        let mut i: usize = 0;
        while i < self.files.len()
            invariant
                i <= self.files@.len(),
                forall|j: int| 0 <= j < i ==> self.files@[j].name@ != filename@,
            decreases self.files@.len() - i,
        {
            if self.files[i].name == *filename {
                return Some(i);
            }
            i += 1;
        }
        None
    }

    /// The files that exist on disk and whose text is at hand, in their order.
    pub fn filemaps(&self) -> (kept: Vec<&SourceFile>)
        ensures
            kept@.map_values(|f: &SourceFile| *f) == self.files@.filter(
                |f: SourceFile| f.on_disk && f.src is Some,
            ),
    {
        let mut kept: Vec<&SourceFile> = Vec::new();
        let mut i: usize = 0;
        while i < self.files.len()
            invariant
                i <= self.files@.len(),
                kept@.map_values(|f: &SourceFile| *f) == self.files@.take(i as int).filter(
                    |f: SourceFile| f.on_disk && f.src is Some,
                ),
            decreases self.files@.len() - i,
        {
            let file = &self.files[i];
            proof {
                let keep = |f: SourceFile| f.on_disk && f.src is Some;
                let before = self.files@.take(i as int);
                assert(self.files@.take(i + 1) =~= before.push(*file));
                crate::sequences::lemma_filter_push(before, *file, keep);
            }
            if file.on_disk && file.src.is_some() {
                kept.push(file);
            }
            i += 1;
            assert(kept@.map_values(|f: &SourceFile| *f) =~= self.files@.take(i as int).filter(
                |f: SourceFile| f.on_disk && f.src is Some,
            ));
        }
        assert(self.files@.take(i as int) =~= self.files@);
        kept
    }
}

impl IntervalToSnippet for SourceMap {
    /// A set of files holds what the first file of the interval's name holds.
    open spec fn snippet(&self, interval: IntervalView) -> Option<Seq<char>> {
        match self.file_named(interval.filename) {
            Some(file) => file.snippet(interval),
            None => None,
        }
    }

    fn interval_to_snippet(&self, interval: &Interval) -> (text: Option<String>) {
        match self.find(&interval.filename) {
            Some(i) => {
                assert(self.is_first_named(interval@.filename, i as int));
                assert(forall|j: int|
                    self.is_first_named(interval@.filename, j) ==> j == i as int);
                self.files[i].interval_to_snippet(interval)
            },
            None => {
                assert(forall|j: int| !self.is_first_named(interval@.filename, j));
                None
            },
        }
    }
}

} // verus!
