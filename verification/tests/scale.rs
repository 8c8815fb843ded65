use source_browser::goto::{collect_mappings, Mapping, Region};
use source_browser::lexer::{read_tokens, CompilerToken, SourceFile, TokenAndSpan};
use source_browser::render::{render, Chunk, Wrapper};

#[test]
fn a_long_file_with_many_wrappers_is_rendered() {
    let count = 100_000;
    let text = "ab ".repeat(count);
    let source = SourceFile::new("long.rs", Some(&text), 0, true);
    let mut lexed = Vec::new();
    let mut wrappers = Vec::new();
    for i in 0..count {
        lexed.push(TokenAndSpan { tok: CompilerToken::Lexeme, lo: 3 * i, hi: 3 * i + 2 });
        lexed.push(TokenAndSpan { tok: CompilerToken::Lexeme, lo: 3 * i + 2, hi: 3 * i + 3 });
        // given from the back, so that sorting has work to do
        let at = 3 * (count - 1 - i);
        wrappers.push(Wrapper::new(Chunk::new(at, "[".to_string()), Chunk::new(at + 1, "]".to_string())));
    }
    wrappers.push(Wrapper::new(Chunk::new(0, "{".to_string()), Chunk::new(3 * count - 1, "}".to_string())));
    let tokens = read_tokens(lexed, &source);
    assert_eq!(tokens.len(), 2 * count);
    let result = render(&source, tokens, wrappers).unwrap();
    assert_eq!(result.len(), 5 * count + 2);
    assert!(result.starts_with("{[ab] [ab] "));
    assert!(result.ends_with("[ab] [ab] }"));
}

#[test]
fn many_references_are_indexed() {
    let count = 200_000;
    let mut pairs: Vec<Mapping> = Vec::new();
    for i in 0..count {
        let file = if i % 2 == 0 { "a.rs" } else { "b.rs" };
        let occurrence = Region { filename: file.to_string(), start: 10 * i, end: 10 * i + 1 };
        let target = (i / 4) % 50_000;
        let definition = Region { filename: "a.rs".to_string(), start: 10 * target + 5, end: 10 * target + 6 };
        pairs.push((Some(occurrence), Some(definition)));
    }
    let (active_regions, definitions) = collect_mappings(pairs);
    assert_eq!(active_regions.len(), count);
    assert_eq!(definitions.len(), 50_000);
    for (i, definition) in definitions.iter().enumerate() {
        assert_eq!(definition.id as usize, i);
        assert_eq!(definition.region.start, 10 * i + 5);
    }
    for (i, active_region) in active_regions.iter().enumerate() {
        assert_eq!(active_region.definition_id as usize, (i / 4) % 50_000);
    }
}
