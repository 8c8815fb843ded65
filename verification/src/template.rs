//! The page around a rendered file.

use crate::links::{decimal, decimal_text};
use crate::text::{chars_of, push_char};
use vstd::prelude::*;
use vstd::string::*;

verus! {

/// How many of the characters are line feeds.
pub open spec fn newlines(text: Seq<char>) -> nat
    decreases text.len(),
{
    if text.len() == 0 {
        0
    } else {
        newlines(text.drop_last()) + if text.last() == '\n' {
            1nat
        } else {
            0nat
        }
    }
}

/// How many lines the text has: a line ends with a line feed, and what
/// follows the last line feed is a line if it is not empty.
pub open spec fn line_count(text: Seq<char>) -> nat {
    newlines(text) + if text.len() > 0 && text.last() != '\n' {
        1nat
    } else {
        0nat
    }
}

/// Counts the lines of a text.
pub fn count_lines(text: &str) -> (count: usize)
    ensures
        count == line_count(text@),
{
    broadcast use vstd::string::axiom_spec_iter;

    let len: usize = text.unicode_len();
    let mut count: usize = 0;
    let mut open_line = false;
    for c in it: text.chars()
        invariant
            it.seq() == text@,
            text@.len() == len,
            count == newlines(text@.take(it.index())),
            count <= it.index(),
            open_line == (it.index() > 0 && text@[it.index() - 1] != '\n'),
            open_line ==> count < it.index(),
    {
        assert(text@.take(it.index() + 1).drop_last() =~= text@.take(it.index()));
        if c == '\n' {
            count += 1;
            open_line = false;
        } else {
            open_line = true;
        }
    }
    assert(text@.take(text@.len() as int) =~= text@);
    assert(open_line == (text@.len() > 0 && text@.last() != '\n'));
    if open_line {
        count += 1;
    }
    count
}

/// The list items that number the lines from 1 to `count`.
pub open spec fn line_items(count: nat) -> Seq<char>
    decreases count,
{
    if count == 0 {
        Seq::empty()
    } else {
        line_items((count - 1) as nat) + "<li>"@ + decimal(count) + "</li>"@
    }
}

/// Writes the list items that number the lines from 1 to `lines_count`.
pub fn render_lines(lines_count: usize) -> (items: String)
    ensures
        items@ == line_items(lines_count as nat),
{
    let mut items = String::new();
    let mut line: usize = 0;
    while line < lines_count
        invariant
            line <= lines_count,
            items@ == line_items(line as nat),
        decreases lines_count - line,
    {
        line += 1;
        let ghost before = items@;
        items.append("<li>");
        items.append(decimal_text(line as u64).as_str());
        items.append("</li>");
        assert(items@ =~= before + "<li>"@ + decimal(line as nat) + "</li>"@);
    }
    items
}

/// `text` with `to` in place of `from`, wherever `from` occurs: the
/// occurrences are taken from the left, and none begins within another. An
/// empty `from` occurs in front of every character and at the end.
pub open spec fn replaced(text: Seq<char>, from: Seq<char>, to: Seq<char>) -> Seq<char>
    decreases text.len(),
{
    if from.len() <= text.len() && text.take(from.len() as int) == from {
        if from.len() > 0 {
            to + replaced(text.skip(from.len() as int), from, to)
        } else if text.len() > 0 {
            to + seq![text[0]] + replaced(text.skip(1), from, to)
        } else {
            to
        }
    } else if text.len() == 0 {
        Seq::empty()
    } else {
        seq![text[0]] + replaced(text.skip(1), from, to)
    }
}

/// Whether `pattern` stands in `text` at index `at`.
fn stands_at(text: &Vec<char>, pattern: &Vec<char>, at: usize) -> (found: bool)
    requires
        at <= text@.len(),
    ensures
        found == (pattern@.len() <= text@.len() - at && text@.skip(at as int).take(
            pattern@.len() as int,
        ) == pattern@),
{
    if pattern.len() > text.len() - at {
        return false;
    }
    let ghost window = text@.skip(at as int).take(pattern@.len() as int);
    let mut j: usize = 0;
    while j < pattern.len()
        invariant
            j <= pattern@.len() <= text@.len() - at,
            at <= text@.len() <= usize::MAX,
            window == text@.skip(at as int).take(pattern@.len() as int),
            forall|k: int| 0 <= k < j ==> window[k] == pattern@[k],
        decreases pattern@.len() - j,
    {
        if text[at + j] != pattern[j] {
            assert(window[j as int] != pattern@[j as int]);
            return false;
        }
        j += 1;
    }
    assert(window =~= pattern@);
    true
}

/// Replaces `from` by `to` wherever it occurs in `text`.
pub fn replace(text: &str, from: &str, to: &str) -> (result: String)
    ensures
        result@ == replaced(text@, from@, to@),
{
    let chars = chars_of(text);
    let pattern = chars_of(from);
    let n: usize = chars.len();
    let m: usize = pattern.len();
    let mut result = String::new();
    let mut i: usize = 0;
    assert(chars@.skip(0) =~= chars@);
    while i < n
        invariant
            i <= n == chars@.len(),
            m == pattern@.len(),
            chars@ == text@,
            pattern@ == from@,
            result@ + replaced(chars@.skip(i as int), from@, to@) == replaced(text@, from@, to@),
        decreases n - i,
    {
        let ghost rest = chars@.skip(i as int);
        let ghost before = result@;
        assert(rest[0] == chars@[i as int]);
        if stands_at(&chars, &pattern, i) {
            result.append(to);
            if m > 0 {
                assert(rest.skip(m as int) =~= chars@.skip(i + m));
                assert(result@ + replaced(chars@.skip(i + m), from@, to@) =~= before + replaced(
                    rest,
                    from@,
                    to@,
                ));
                i += m;
            } else {
                push_char(&mut result, chars[i]);
                assert(rest.skip(1) =~= chars@.skip(i + 1));
                assert(result@ + replaced(chars@.skip(i + 1), from@, to@) =~= before + replaced(
                    rest,
                    from@,
                    to@,
                ));
                i += 1;
            }
        } else {
            push_char(&mut result, chars[i]);
            assert(rest.skip(1) =~= chars@.skip(i + 1));
            assert(result@ + replaced(chars@.skip(i + 1), from@, to@) =~= before + replaced(
                rest,
                from@,
                to@,
            ));
            i += 1;
        }
    }
    let ghost rest = chars@.skip(n as int);
    assert(rest.len() == 0);
    if m == 0 {
        assert(rest.take(0) =~= from@);
        result.append(to);
    }
    assert(result@ =~= replaced(text@, from@, to@));
    result
}

/// The template with each variable replaced by its value, one variable
/// after the other: a later variable is also replaced in the values put in
/// for an earlier one.
pub open spec fn filled(template: Seq<char>, variables: Seq<(String, String)>) -> Seq<char>
    decreases variables.len(),
{
    if variables.len() == 0 {
        template
    } else {
        filled(
            replaced(template, variables.first().0@, variables.first().1@),
            variables.drop_first(),
        )
    }
}

/// Fills a template: replaces each variable by its value.
pub fn render_template(template: &str, variables: &Vec<(String, String)>) -> (page: String)
    ensures
        page@ == filled(template@, variables@),
{
    let mut page = String::from_str(template);
    let mut i: usize = 0;
    assert(variables@.skip(0) =~= variables@);
    while i < variables.len()
        invariant
            i <= variables@.len(),
            filled(page@, variables@.skip(i as int)) == filled(template@, variables@),
        decreases variables@.len() - i,
    {
        assert(variables@.skip(i as int).first() == variables@[i as int]);
        assert(variables@.skip(i as int).drop_first() =~= variables@.skip(i + 1));
        page = replace(page.as_str(), variables[i].0.as_str(), variables[i].1.as_str());
        i += 1;
    }
    page
}

/// The page for a rendered file: the template with the numbers of the
/// file's lines in place of `{{lines}}` and the rendered file in place of
/// `{{code}}`.
pub open spec fn page(template: Seq<char>, code: Seq<char>) -> Seq<char> {
    replaced(replaced(template, "{{lines}}"@, line_items(line_count(code))), "{{code}}"@, code)
}

/// Puts a rendered file into the template of a page.
pub fn render_code(template: &str, data: &str) -> (text: String)
    ensures
        text@ == page(template@, data@),
{
    let lines = render_lines(count_lines(data));
    let mut variables: Vec<(String, String)> = Vec::new();
    variables.push((String::from_str("{{lines}}"), lines));
    variables.push((String::from_str("{{code}}"), String::from_str(data)));
    let text = render_template(template, &variables);
    proof {
        let first = replaced(template@, variables@[0].0@, variables@[0].1@);
        assert(variables@.drop_first().drop_first().len() == 0);
        assert(variables@.drop_first().first() == variables@[1]);
        assert(filled(first, variables@.drop_first()) == filled(
            replaced(first, variables@[1].0@, variables@[1].1@),
            variables@.drop_first().drop_first(),
        ));
    }
    text
}

} // verus!
