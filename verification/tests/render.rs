use source_browser::lexer::{
    read_tokens, CompilerToken, IntervalToSnippet, SourceFile, SourceMap, Token, TokenAndSpan,
};
use source_browser::order::sort_wrappers;
use source_browser::render::{render, Chunk, RenderError, Wrapper};

const SOURCE: &str = "fn main() {}\n";

fn file(name: &str, text: &str) -> SourceFile {
    SourceFile::new(name, Some(text), 0, true)
}

fn lexeme(lo: usize, hi: usize) -> TokenAndSpan {
    TokenAndSpan { tok: CompilerToken::Lexeme, lo, hi }
}

/// The lexical units of `SOURCE`, white space included, and the end of input.
fn lexed() -> Vec<TokenAndSpan> {
    vec![
        lexeme(0, 2),
        lexeme(2, 3),
        lexeme(3, 7),
        lexeme(7, 8),
        lexeme(8, 9),
        lexeme(9, 10),
        lexeme(10, 11),
        lexeme(11, 12),
        lexeme(12, 13),
        TokenAndSpan { tok: CompilerToken::Eof, lo: 13, hi: 13 },
    ]
}

fn tokens(source: &SourceFile) -> Vec<Token> {
    read_tokens(lexed(), source)
}

fn wrapper(start: usize, open: &str, end: usize, close: &str) -> Wrapper {
    Wrapper::new(Chunk::new(start, open.to_string()), Chunk::new(end, close.to_string()))
}

#[test]
fn render_test() {
    let source = file("", SOURCE);
    let tokens = tokens(&source);

    let wrappers = vec![
        Wrapper {
            prefix: Chunk { position: 0, text: "<:0:>".into() },
            postfix: Chunk { position: 1, text: "</:0:>".into() },
        },
        Wrapper {
            prefix: Chunk { position: 0, text: "<:1:>".into() },
            postfix: Chunk { position: 11, text: "</:1:>".into() },
        },
        Wrapper {
            prefix: Chunk { position: 10, text: "<:2:>".into() },
            postfix: Chunk { position: 11, text: "</:2:>".into() },
        },
    ];

    let result = render(&source, tokens, wrappers).unwrap();
    assert_eq!(result, "<:1:><:0:>fn</:0:> main() <:2:>{}</:2:></:1:>\n")
}

#[test]
fn test_read_tokens() {
    let source = file("", SOURCE);
    let tokens = tokens(&source);

    for token in tokens.iter() {
        println!(
            "[{}, {}] -> {:?} -> {:?}",
            token.interval.lower_bound,
            token.interval.upper_bound,
            token.compiler_token,
            source.interval_to_snippet(&token.interval)
        );
    }

    let text =
        tokens.iter().map(|token| source.interval_to_snippet(&token.interval).unwrap()).collect::<Vec<_>>().concat();

    assert_eq!(text, SOURCE);
}

#[test]
fn reading_stops_at_the_end_of_input() {
    let source = file("a.rs", "ab cd");
    let lexed = vec![
        lexeme(0, 2),
        TokenAndSpan { tok: CompilerToken::Eof, lo: 2, hi: 2 },
        lexeme(3, 5),
    ];
    let tokens = read_tokens(lexed, &source);
    assert_eq!(tokens.len(), 1);
    assert_eq!(tokens[0].interval.lower_bound, 0);
    assert_eq!(tokens[0].interval.upper_bound, 1);
    assert_eq!(tokens[0].interval.filename, "a.rs");
}

#[test]
fn offsets_are_relative_to_the_start_of_the_file() {
    let source = SourceFile::new("b.rs", Some("xyz"), 100, true);
    let tokens = read_tokens(vec![lexeme(100, 101), lexeme(101, 103)], &source);
    assert_eq!(tokens.len(), 2);
    assert_eq!((tokens[0].interval.lower_bound, tokens[0].interval.upper_bound), (0, 0));
    assert_eq!((tokens[1].interval.lower_bound, tokens[1].interval.upper_bound), (1, 2));
    assert_eq!(source.interval_to_snippet(&tokens[1].interval), Some("yz".to_string()));
}

#[test]
fn without_wrappers_the_text_comes_back() {
    let source = file("", SOURCE);
    let tokens = tokens(&source);
    assert_eq!(render(&source, tokens, Vec::new()), Ok(SOURCE.to_string()));
}

#[test]
fn no_tokens_give_no_text() {
    let source = file("", SOURCE);
    assert_eq!(render(&source, Vec::new(), vec![wrapper(0, "<a>", 1, "</a>")]), Ok(String::new()));
}

#[test]
fn angle_brackets_are_escaped() {
    let source = file("", "a<b>c");
    let lexed = vec![lexeme(0, 1), lexeme(1, 2), lexeme(2, 3), lexeme(3, 4), lexeme(4, 5)];
    let tokens = read_tokens(lexed, &source);
    assert_eq!(render(&source, tokens, Vec::new()), Ok("a&lt;b&gt;c".to_string()));
}

#[test]
fn a_longer_token_with_angle_brackets_is_left_alone() {
    let source = file("", "<<");
    let tokens = read_tokens(vec![lexeme(0, 2)], &source);
    assert_eq!(render(&source, tokens, Vec::new()), Ok("<<".to_string()));
}

#[test]
fn a_wrapper_off_the_token_starts_is_not_written() {
    let source = file("", SOURCE);
    let tokens = tokens(&source);
    // offset 1 is inside `fn`; offset 1 is where `fn` ends
    let wrappers = vec![wrapper(1, "<x>", 1, "</x>")];
    assert_eq!(render(&source, tokens, wrappers), Ok(SOURCE.to_string()));
}

#[test]
fn a_wrapper_off_the_token_starts_holds_back_those_behind_it() {
    let source = file("", SOURCE);
    let tokens = tokens(&source);
    let wrappers =
        vec![wrapper(0, "<a>", 1, "</a>"), wrapper(4, "<x>", 6, "</x>"), wrapper(10, "<b>", 11, "</b>")];
    assert_eq!(render(&source, tokens, wrappers), Ok("<a>fn</a> main() {}\n".to_string()));
}

#[test]
fn a_postfix_off_the_token_ends_is_not_written() {
    let source = file("", SOURCE);
    let tokens = tokens(&source);
    let wrappers = vec![wrapper(3, "<x>", 5, "</x>")];
    assert_eq!(render(&source, tokens, wrappers), Ok("fn <x>main() {}\n".to_string()));
}

#[test]
fn wrappers_with_the_same_offsets_keep_their_order() {
    let source = file("", SOURCE);
    let tokens = tokens(&source);
    let wrappers = vec![wrapper(3, "<1>", 6, "</1>"), wrapper(3, "<2>", 6, "</2>")];
    assert_eq!(render(&source, tokens, wrappers), Ok("fn <1><2>main</2></1>() {}\n".to_string()));
}

#[test]
fn a_token_of_another_file_fails_the_render() {
    let source = file("a.rs", "ab cd");
    let other = file("b.rs", "ab cd");
    let mut tokens = read_tokens(vec![lexeme(0, 2), lexeme(2, 3)], &source);
    tokens.extend(read_tokens(vec![lexeme(3, 5)], &other));
    assert_eq!(render(&source, tokens, Vec::new()), Err(RenderError { token: 2 }));
}

#[test]
fn a_token_beyond_the_text_fails_the_render() {
    let source = file("a.rs", "ab");
    let tokens = read_tokens(vec![lexeme(0, 2), lexeme(2, 4)], &source);
    assert_eq!(render(&source, tokens, Vec::new()), Err(RenderError { token: 1 }));
}

#[test]
fn a_file_without_text_fails_the_render() {
    let source = SourceFile::new("a.rs", None, 0, true);
    let tokens = read_tokens(vec![lexeme(0, 2)], &source);
    assert_eq!(render(&source, tokens, Vec::new()), Err(RenderError { token: 0 }));
}

#[test]
fn a_set_of_files_gives_the_text_of_the_file_named() {
    let map = SourceMap { files: vec![file("a.rs", "one"), file("b.rs", "two"), file("b.rs", "xxx")] };
    let b = file("b.rs", "");
    let tokens = read_tokens(vec![lexeme(0, 3)], &b);
    assert_eq!(map.interval_to_snippet(&tokens[0].interval), Some("two".to_string()));
    assert_eq!(map.find(&"b.rs".to_string()), Some(1));
    assert_eq!(map.find(&"c.rs".to_string()), None);
    assert_eq!(render(&map, tokens, Vec::new()), Ok("two".to_string()));
    let c = file("c.rs", "");
    let tokens = read_tokens(vec![lexeme(0, 3)], &c);
    assert_eq!(map.interval_to_snippet(&tokens[0].interval), None);
}

#[test]
fn only_files_on_disk_with_text_are_rendered() {
    let made_up = SourceFile::new("<macro>", Some("x"), 0, false);
    let lost = SourceFile::new("lost.rs", None, 1, true);
    let map = SourceMap { files: vec![made_up, file("a.rs", "one"), lost, file("b.rs", "two")] };
    let names: Vec<&str> = map.filemaps().iter().map(|f| f.name.as_str()).collect();
    assert_eq!(names, vec!["a.rs", "b.rs"]);
}

#[test]
fn characters_are_counted_not_bytes() {
    let source = file("", "é=ü");
    let tokens = read_tokens(vec![lexeme(0, 1), lexeme(1, 2), lexeme(2, 3)], &source);
    let wrappers = vec![wrapper(2, "[", 2, "]")];
    assert_eq!(render(&source, tokens, wrappers), Ok("é=[ü]".to_string()));
}

#[test]
fn sorting_is_by_start_then_by_end_backwards() {
    let wrappers = vec![
        wrapper(5, "c", 6, ""),
        wrapper(0, "b", 1, ""),
        wrapper(5, "d", 9, ""),
        wrapper(0, "a", 1, ""),
        wrapper(0, "e", 7, ""),
    ];
    let order: Vec<String> = sort_wrappers(wrappers).into_iter().map(|w| w.prefix.text).collect();
    assert_eq!(order, vec!["e", "b", "a", "d", "c"]);
}

#[test]
fn wrappers_with_the_same_start_open_from_the_outside_in() {
    let source = file("", SOURCE);
    let tokens = tokens(&source);
    let wrappers =
        vec![wrapper(0, "<a>", 1, "</a>"), wrapper(0, "<b>", 11, "</b>"), wrapper(0, "<c>", 6, "</c>")];
    assert_eq!(
        render(&source, tokens, wrappers),
        Ok("<b><c><a>fn</a> main</c>() {}</b>\n".to_string())
    );
}

#[test]
fn wrappers_inside_one_another_close_from_the_inside_out() {
    let source = file("", SOURCE);
    let tokens = tokens(&source);
    let wrappers = vec![
        wrapper(3, "<in>", 6, "</in>"),
        wrapper(0, "<out>", 12, "</out>"),
        wrapper(7, "<p>", 8, "</p>"),
        wrapper(3, "<mid>", 8, "</mid>"),
    ];
    assert_eq!(
        render(&source, tokens, wrappers),
        Ok("<out>fn <mid><in>main</in><p>()</p></mid> {}\n</out>".to_string())
    );
}

#[test]
fn of_two_wrappers_that_cross_the_first_is_never_closed() {
    let source = file("", SOURCE);
    let tokens = tokens(&source);
    let wrappers = vec![wrapper(0, "<x>", 6, "</x>"), wrapper(3, "<y>", 11, "</y>")];
    assert_eq!(render(&source, tokens, wrappers), Ok("<x>fn <y>main() {}</y>\n".to_string()));
}

#[test]
fn an_interval_may_be_empty_but_not_reversed() {
    let source = file("a.rs", "abc");
    let empty = read_tokens(vec![lexeme(0, 0)], &source);
    // the empty range at the start is given the first character
    assert_eq!(source.interval_to_snippet(&empty[0].interval), Some("a".to_string()));
    let mut token = read_tokens(vec![lexeme(1, 3)], &source).remove(0);
    assert_eq!(source.interval_to_snippet(&token.interval), Some("bc".to_string()));
    token.interval.lower_bound = 3;
    assert_eq!(source.interval_to_snippet(&token.interval), Some(String::new()));
    token.interval.lower_bound = 4;
    assert_eq!(source.interval_to_snippet(&token.interval), None);
    token.interval.lower_bound = 0;
    token.interval.upper_bound = usize::MAX;
    assert_eq!(source.interval_to_snippet(&token.interval), None);
}

#[test]
fn tokens_and_intervals_can_be_copied_and_compared() {
    let source = file("a.rs", "abc");
    let tokens = read_tokens(vec![lexeme(0, 1), lexeme(1, 3)], &source);
    let copy = tokens[0].clone();
    assert_eq!(copy.compiler_token, CompilerToken::Lexeme);
    assert!(copy.interval == tokens[0].interval);
    assert!(copy.interval != tokens[1].interval);
    assert!(tokens[1].interval.clone() == tokens[1].interval);
}
