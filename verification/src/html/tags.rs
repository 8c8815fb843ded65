//! The kinds of tag.

use crate::html::{attribute_views, Attribute, Tag};
use vstd::prelude::*;
use vstd::string::*;

verus! {

/// A kind of tag: the word it is written with, and the attributes that it
/// adds to those that every tag has.
pub trait TagType {
    /// The word of this kind.
    spec fn keyword_text(&self) -> Seq<char>;

    /// The attributes that this kind adds.
    spec fn attribute_list(&self) -> Seq<Attribute>;

    fn keyword(&self) -> (keyword: String)
        ensures
            keyword@ == self.keyword_text(),
    ;

    fn attributes(&self) -> (attributes: Vec<(String, String)>)
        ensures
            attribute_views(attributes@) == self.attribute_list(),
    ;
}

#[derive(Debug)]
pub struct Span;

impl Span {
    pub fn new() -> (tag: Tag<Span>)
        ensures
            tag@ == (crate::html::TagView {
                keyword: "span"@,
                classes: Seq::empty(),
                ids: Seq::empty(),
                name: None,
                kind_attributes: Seq::empty(),
            }),
    {
        Tag::new(Span)
    }
}

impl TagType for Span {
    open spec fn keyword_text(&self) -> Seq<char> {
        "span"@
    }

    open spec fn attribute_list(&self) -> Seq<Attribute> {
        Seq::empty()
    }

    fn keyword(&self) -> (keyword: String) {
        String::from_str("span")
    }

    fn attributes(&self) -> (attributes: Vec<(String, String)>) {
        let attributes: Vec<(String, String)> = Vec::new();
        assert(attribute_views(attributes@) =~= Seq::empty());
        attributes
    }
}

#[derive(Debug)]
pub struct Div;

impl Div {
    pub fn new() -> (tag: Tag<Div>)
        ensures
            tag@ == (crate::html::TagView {
                keyword: "div"@,
                classes: Seq::empty(),
                ids: Seq::empty(),
                name: None,
                kind_attributes: Seq::empty(),
            }),
    {
        Tag::new(Div)
    }
}

impl TagType for Div {
    open spec fn keyword_text(&self) -> Seq<char> {
        "div"@
    }

    open spec fn attribute_list(&self) -> Seq<Attribute> {
        Seq::empty()
    }

    fn keyword(&self) -> (keyword: String) {
        String::from_str("div")
    }

    fn attributes(&self) -> (attributes: Vec<(String, String)>) {
        let attributes: Vec<(String, String)> = Vec::new();
        assert(attribute_views(attributes@) =~= Seq::empty());
        attributes
    }
}

/// A link.
#[derive(Debug)]
pub struct A {
    /// Where the link points to.
    pub href: Option<String>,
}

impl A {
    pub fn new() -> (tag: Tag<A>)
        ensures
            tag@ == (crate::html::TagView {
                keyword: "a"@,
                classes: Seq::empty(),
                ids: Seq::empty(),
                name: None,
                kind_attributes: Seq::empty(),
            }),
    {
        Tag::new(A { href: None })
    }
}

impl TagType for A {
    open spec fn keyword_text(&self) -> Seq<char> {
        "a"@
    }

    open spec fn attribute_list(&self) -> Seq<Attribute> {
        match self.href {
            Some(href) => seq![("href"@, href@)],
            None => Seq::empty(),
        }
    }

    fn keyword(&self) -> (keyword: String) {
        String::from_str("a")
    }

    fn attributes(&self) -> (attributes: Vec<(String, String)>) {
        let mut attributes: Vec<(String, String)> = Vec::new();
        if let Some(href) = &self.href {
            attributes.push((String::from_str("href"), href.clone()));
        }
        assert(attribute_views(attributes@) =~= self.attribute_list());
        attributes
    }
}

} // verus!
