use source_browser::template::{count_lines, render_code, render_lines, render_template, replace};
use source_browser::text::{chars_of, text_of};

#[test]
fn lines_are_counted_as_the_standard_library_counts_them() {
    for text in ["", "\n", "a", "a\n", "a\nb", "a\nb\n", "\n\n", "a\r\nb", "é\nü\n\nx"] {
        assert_eq!(count_lines(text), text.lines().count(), "{:?}", text);
    }
    assert_eq!(count_lines("fn main() {}\n"), 1);
    assert_eq!(count_lines("a\n\nb"), 3);
}

#[test]
fn line_items_number_the_lines_from_one() {
    assert_eq!(render_lines(0), "");
    assert_eq!(render_lines(1), "<li>1</li>");
    assert_eq!(render_lines(3), "<li>1</li><li>2</li><li>3</li>");
    assert!(render_lines(12).ends_with("<li>9</li><li>10</li><li>11</li><li>12</li>"));
}

#[test]
fn replace_does_what_the_standard_library_does() {
    let cases = [
        ("", "a", "b"),
        ("abc", "b", "xx"),
        ("aaaa", "aa", "b"),
        ("aaa", "aa", "b"),
        ("abab", "ab", ""),
        ("abc", "abcd", "x"),
        ("abc", "", "-"),
        ("", "", "-"),
        ("{{code}} and {{code}}", "{{code}}", "<b>"),
        ("ééé", "é", "e"),
        ("ababa", "aba", "x"),
    ];
    for (text, from, to) in cases {
        assert_eq!(replace(text, from, to), text.replace(from, to), "{:?}", (text, from, to));
    }
    assert_eq!(replace("ababa", "aba", "x"), "xba");
    assert_eq!(replace("abc", "", "-"), "-a-b-c-");
}

#[test]
fn a_template_is_filled_one_variable_after_the_other() {
    let variables = vec![
        ("{{a}}".to_string(), "{{b}}".to_string()),
        ("{{b}}".to_string(), "x".to_string()),
    ];
    assert_eq!(render_template("{{a}}-{{b}}", &variables), "x-x");
    assert_eq!(render_template("{{a}}-{{b}}", &Vec::new()), "{{a}}-{{b}}");
}

#[test]
fn a_page_holds_the_code_and_the_numbers_of_its_lines() {
    let template = "<ol>{{lines}}</ol><pre>{{code}}</pre>";
    assert_eq!(
        render_code(template, "fn main() {\n}\n"),
        "<ol><li>1</li><li>2</li></ol><pre>fn main() {\n}\n</pre>"
    );
    assert_eq!(render_code(template, ""), "<ol></ol><pre></pre>");
    assert_eq!(render_code("plain", "x"), "plain");
}

#[test]
fn code_that_names_a_variable_is_left_as_it_is() {
    assert_eq!(render_code("{{lines}}|{{code}}", "{{lines}}"), "<li>1</li>|{{lines}}");
}

#[test]
fn texts_come_apart_into_characters() {
    assert_eq!(chars_of("aé"), vec!['a', 'é']);
    assert_eq!(chars_of(""), Vec::<char>::new());
    let chars = chars_of("hello");
    assert_eq!(text_of(&chars, 1, 4), "ell");
    assert_eq!(text_of(&chars, 2, 2), "");
    assert_eq!(text_of(&chars, 0, 5), "hello");
}
