use source_browser::html::tags::{Div, Span, A};
use source_browser::html::{concat_chunks, Tag};

#[test]
fn test_simple_tag() {
    let tag = Span::new();
    assert_eq!("<span>", tag.render_open());
    assert_eq!("</span>", tag.render_close());
}

#[test]
fn test_class_and_id() {
    let tag = Span::new().add_class("foo").add_id("bar");
    assert_eq!(r#"<span class="foo" id="bar">"#, tag.render_open());
    assert_eq!("</span>", tag.render_close());
}

#[test]
fn test_href() {
    let tag = A::new().set_href("foo");
    assert_eq!(r#"<a href="foo">"#, tag.render_open());
    assert_eq!("</a>", tag.render_close());
}

#[test]
fn div_renders_with_its_keyword() {
    let tag = Div::new();
    assert_eq!("<div>", tag.render_open());
    assert_eq!("</div>", tag.render_close());
}

#[test]
fn a_class_added_twice_is_written_once() {
    let tag = Span::new().add_class("foo").add_class("bar").add_class("foo");
    assert_eq!(r#"<span class="foo bar">"#, tag.render_open());
}

#[test]
fn an_id_added_twice_is_written_once() {
    let tag = Div::new().add_id("x").add_id("x");
    assert_eq!(r#"<div id="x">"#, tag.render_open());
}

#[test]
fn attributes_come_in_a_fixed_order() {
    let tag = A::new().set_href("a.html#def-3").set_name("n").add_id("i").add_class("c");
    assert_eq!(r#"<a class="c" id="i" name="n" href="a.html#def-3">"#, tag.render_open());
    assert_eq!(r#"class="c" id="i" name="n" href="a.html#def-3""#, tag.render_attributes());
}

#[test]
fn own_attributes_leave_out_those_of_the_kind() {
    let tag = A::new().set_href("x").add_class("c");
    assert_eq!(vec![("class".to_string(), "c".to_string())], tag.attributes());
}

#[test]
fn a_later_name_replaces_an_earlier_one() {
    let tag = Tag::new(Span).set_name("one").set_name("two");
    assert_eq!(r#"<span name="two">"#, tag.render_open());
}

#[test]
fn a_later_href_replaces_an_earlier_one() {
    let tag = A::new().set_href("one").set_href("two");
    assert_eq!(r#"<a href="two">"#, tag.render_open());
}

#[test]
fn concat_chunks_puts_the_separator_between() {
    let chunks = vec!["a".to_string(), "b".to_string(), "c".to_string()];
    assert_eq!("a, b, c", concat_chunks(&chunks, ", "));
    assert_eq!("a", concat_chunks(&vec!["a".to_string()], ", "));
    assert_eq!("", concat_chunks(&Vec::new(), ", "));
}
