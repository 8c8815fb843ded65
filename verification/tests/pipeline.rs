use source_browser::goto::{collect_mappings, Mapping, Region};
use source_browser::lexer::{read_tokens, CompilerToken, SourceFile, SourceMap, Token, TokenAndSpan};
use source_browser::links::take_wrappers;
use source_browser::paths::{write_path, PathExtensions, SplitPath};
use source_browser::render::{render, Wrapper};
use source_browser::template::render_code;

const MAIN: &str = "fn g() {}\nfn main() { g(); f(); }\n";
const A: &str = "pub fn f() {}\n";

/// Words and single other characters, as a tokenizer would hand them out.
fn tokenize(source: &SourceFile, text: &str) -> Vec<Token> {
    let chars: Vec<char> = text.chars().collect();
    let mut lexed = Vec::new();
    let mut i = 0;
    while i < chars.len() {
        let mut j = i + 1;
        if chars[i].is_alphanumeric() {
            while j < chars.len() && chars[j].is_alphanumeric() {
                j += 1;
            }
        }
        let start = source.start_pos;
        lexed.push(TokenAndSpan { tok: CompilerToken::Lexeme, lo: start + i, hi: start + j });
        i = j;
    }
    let end = source.start_pos + i;
    lexed.push(TokenAndSpan { tok: CompilerToken::Eof, lo: end, hi: end });
    read_tokens(lexed, source)
}

fn place(filename: &str, start: usize, end: usize) -> Option<Region> {
    Some(Region { filename: filename.to_string(), start, end })
}

#[test]
fn a_program_of_two_files_is_rendered_with_its_links() {
    let pairs: Vec<Mapping> = vec![
        (place("src/main.rs", 3, 3), place("src/main.rs", 3, 3)),
        (place("src/main.rs", 22, 22), place("src/main.rs", 3, 3)),
        (place("src/main.rs", 13, 16), None),
        (place("src/main.rs", 27, 27), place("src/a.rs", 7, 7)),
    ];
    let (active_regions, definitions) = collect_mappings(pairs);
    assert_eq!(definitions.len(), 2);
    assert_eq!(active_regions.len(), 2);

    let mut located: Vec<(String, Wrapper)> = Vec::new();
    for definition in definitions.iter() {
        located.push((definition.region.filename.clone(), definition.to_wrapper()));
    }
    for active_region in active_regions.iter() {
        let definition = &definitions[active_region.definition_id as usize];
        let wrapper = active_region.to_wrapper(&definition.region.filename).unwrap();
        located.push((active_region.region.filename.clone(), wrapper));
    }

    let sources = SourceMap {
        files: vec![
            SourceFile::new("src/main.rs", Some(MAIN), 0, true),
            SourceFile::new("<std macros>", Some("x"), 100, false),
            SourceFile::new("src/a.rs", Some(A), 200, true),
        ],
    };
    let texts = [MAIN, A];
    let base = SplitPath::parse("src");
    let template = "<ol>{{lines}}</ol><pre>{{code}}</pre>";
    let mut pages = Vec::new();
    for (source, text) in sources.filemaps().into_iter().zip(texts) {
        let tokens = tokenize(source, text);
        let wrappers = take_wrappers(&mut located, &source.name);
        let result = render(source, tokens, wrappers).expect("token.snippet");
        let full = render_code(template, &result);
        let relative = SplitPath::parse(&source.name).relative_to(&base).unwrap();
        pages.push((write_path(&relative, "html"), full));
    }
    assert!(located.is_empty());

    assert_eq!(pages.len(), 2);
    assert_eq!(pages[0].0, "main.html");
    assert_eq!(
        pages[0].1,
        [
            "<ol><li>1</li><li>2</li></ol><pre>",
            "fn <span class=\"definition\" id=\"def-0\" name=\"def-0\">g</span>() {}\n",
            "fn main() { <a class=\"active-region\" href=\"#def-0\">g</a>(); ",
            "<a class=\"active-region\" href=\"./a.html#def-1\">f</a>(); }\n",
            "</pre>",
        ]
        .concat()
    );
    assert_eq!(pages[1].0, "a.html");
    assert_eq!(
        pages[1].1,
        [
            "<ol><li>1</li></ol><pre>",
            "pub fn <span class=\"definition\" id=\"def-1\" name=\"def-1\">f</span>() {}\n",
            "</pre>",
        ]
        .concat()
    );
}
