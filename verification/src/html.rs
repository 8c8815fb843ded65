//! Markup tags: what a tag holds and how it is written.

pub mod tags;

use crate::html::tags::{TagType, A};
use vstd::prelude::*;
use vstd::string::*;

verus! {

/// A tag of kind `T` with its classes, ids and name. Classes and ids are
/// sets: adding one that is there changes nothing. They are written in the
/// order in which they were added.
#[derive(Debug)]
pub struct Tag<T: TagType> {
    tag_type: T,
    classes: Vec<String>,
    ids: Vec<String>,
    name: Option<String>,
}

/// An attribute: its keyword and its value.
pub type Attribute = (Seq<char>, Seq<char>);

/// A tag as plain values.
pub struct TagView {
    /// The word of the tag's kind, such as `span`.
    pub keyword: Seq<char>,
    pub classes: Seq<Seq<char>>,
    pub ids: Seq<Seq<char>>,
    pub name: Option<Seq<char>>,
    /// The attributes that the tag's kind adds.
    pub kind_attributes: Seq<Attribute>,
}

/// The strings as plain values.
pub open spec fn texts(strings: Seq<String>) -> Seq<Seq<char>> {
    strings.map_values(|s: String| s@)
}

/// The attributes as plain values.
pub open spec fn attribute_views(attributes: Seq<(String, String)>) -> Seq<Attribute> {
    attributes.map_values(|a: (String, String)| (a.0@, a.1@))
}

/// `set` with `item` in it: unchanged where it is there already, else with
/// `item` at the end.
pub open spec fn with_member(set: Seq<Seq<char>>, item: Seq<char>) -> Seq<Seq<char>> {
    if set.contains(item) {
        set
    } else {
        set.push(item)
    }
}

/// The chunks one after the other, with `separator` between each two.
pub open spec fn joined_with(chunks: Seq<Seq<char>>, separator: Seq<char>) -> Seq<char>
    decreases chunks.len(),
{
    if chunks.len() == 0 {
        Seq::empty()
    } else if chunks.len() == 1 {
        chunks[0]
    } else {
        joined_with(chunks.drop_last(), separator) + separator + chunks.last()
    }
}

/// The attributes that a tag has of itself: its classes, its ids and its
/// name, each only where there is one.
pub open spec fn own_attributes(tag: TagView) -> Seq<Attribute> {
    (if tag.classes.len() > 0 {
        seq![("class"@, joined_with(tag.classes, " "@))]
    } else {
        Seq::empty()
    }) + (if tag.ids.len() > 0 {
        seq![("id"@, joined_with(tag.ids, " "@))]
    } else {
        Seq::empty()
    }) + (match tag.name {
        Some(name) => seq![("name"@, name)],
        None => Seq::empty(),
    })
}

/// An attribute as written in a tag: `keyword="value"`.
pub open spec fn attribute_text(attribute: Attribute) -> Seq<char> {
    attribute.0 + "=\""@ + attribute.1 + "\""@
}

/// All attributes of a tag as written: its own, then those of its kind, with
/// a space between each two.
pub open spec fn attributes_text(tag: TagView) -> Seq<char> {
    joined_with(
        (own_attributes(tag) + tag.kind_attributes).map_values(|a: Attribute| attribute_text(a)),
        " "@,
    )
}

/// The opening tag: `<keyword attributes>`, without the space where there
/// are no attributes.
pub open spec fn open_text(tag: TagView) -> Seq<char> {
    "<"@ + tag.keyword + (if attributes_text(tag).len() > 0 {
        " "@
    } else {
        Seq::empty()
    }) + attributes_text(tag) + ">"@
}

/// The closing tag: `</keyword>`.
pub open spec fn close_text(tag: TagView) -> Seq<char> {
    "</"@ + tag.keyword + ">"@
}

impl<T: TagType> View for Tag<T> {
    type V = TagView;

    closed spec fn view(&self) -> TagView {
        TagView {
            keyword: self.tag_type.keyword_text(),
            classes: texts(self.classes@),
            ids: texts(self.ids@),
            name: match self.name {
                Some(name) => Some(name@),
                None => None,
            },
            kind_attributes: self.tag_type.attribute_list(),
        }
    }
}

/// Adds `item` to the set `set`.
fn insert(set: &mut Vec<String>, item: &str)
    requires
        texts(old(set)@).no_duplicates(),
    ensures
        texts(final(set)@) == with_member(texts(old(set)@), item@),
        texts(final(set)@).no_duplicates(),
{
    let owned = String::from_str(item);
    let mut i: usize = 0;
    while i < set.len()
        invariant
            i <= set@.len(),
            set@ == old(set)@,
            owned@ == item@,
            texts(set@).no_duplicates(),
            forall|j: int| 0 <= j < i ==> texts(set@)[j] != item@,
        decreases set@.len() - i,
    {
        if set[i] == owned {
            assert(texts(set@)[i as int] == item@);
            assert(texts(set@).contains(item@));
            return ;
        }
        i += 1;
    }
    proof {
        crate::sequences::lemma_no_duplicates_push(texts(set@), item@);
    }
    set.push(owned);
    assert(texts(set@) =~= texts(old(set)@).push(item@));
}

/// Writes the chunks one after the other, with `separator` between each two.
pub fn concat_chunks(chunks: &Vec<String>, separator: &str) -> (text: String)
    ensures
        text@ == joined_with(texts(chunks@), separator@),
{
    let mut buf = String::new();
    if chunks.len() > 0 {
        buf.append(chunks[0].as_str());
        assert(texts(chunks@).take(1).len() == 1);
        assert(buf@ =~= joined_with(texts(chunks@).take(1), separator@));
        let mut i: usize = 1;
        while i < chunks.len()
            invariant
                1 <= i <= chunks@.len(),
                buf@ == joined_with(texts(chunks@).take(i as int), separator@),
            decreases chunks@.len() - i,
        {
            buf.append(separator);
            buf.append(chunks[i].as_str());
            proof {
                let next = texts(chunks@).take(i + 1);
                assert(next.drop_last() =~= texts(chunks@).take(i as int));
                assert(next.last() == chunks@[i as int]@);
            }
            i += 1;
        }
        assert(texts(chunks@).take(i as int) =~= texts(chunks@));
    }
    buf
}

/// Writes one attribute: `keyword="value"`.
fn render_attribute(keyword: &String, value: &String) -> (text: String)
    ensures
        text@ == attribute_text((keyword@, value@)),
{
    let mut buf = String::new();
    buf.append(keyword.as_str());
    buf.append("=\"");
    buf.append(value.as_str());
    buf.append("\"");
    assert(buf@ =~= attribute_text((keyword@, value@)));
    buf
}

impl<T: TagType> Tag<T> {
    #[verifier::type_invariant]
    spec fn no_member_twice(self) -> bool {
        texts(self.classes@).no_duplicates() && texts(self.ids@).no_duplicates()
    }

    /// A tag of the given kind, without classes, ids or name.
    pub fn new(tag_type: T) -> (tag: Tag<T>)
        ensures
            tag@ == (TagView {
                keyword: tag_type.keyword_text(),
                classes: Seq::empty(),
                ids: Seq::empty(),
                name: None,
                kind_attributes: tag_type.attribute_list(),
            }),
    {
        let tag = Tag { tag_type, ids: Vec::new(), classes: Vec::new(), name: None };
        assert(tag@.classes =~= Seq::empty());
        assert(tag@.ids =~= Seq::empty());
        tag
    }

    pub fn add_class(self, class: &str) -> (tag: Tag<T>)
        ensures
            tag@ == (TagView { classes: with_member(self@.classes, class@), ..self@ }),
            tag@.classes.no_duplicates(),
    {
        proof {
            use_type_invariant(&self);
        }
        let Tag { tag_type, mut classes, ids, name } = self;
        insert(&mut classes, class);
        Tag { tag_type, classes, ids, name }
    }

    pub fn add_id(self, id: &str) -> (tag: Tag<T>)
        ensures
            tag@ == (TagView { ids: with_member(self@.ids, id@), ..self@ }),
            tag@.ids.no_duplicates(),
    {
        proof {
            use_type_invariant(&self);
        }
        let Tag { tag_type, classes, mut ids, name } = self;
        insert(&mut ids, id);
        Tag { tag_type, classes, ids, name }
    }

    pub fn set_name(self, name: &str) -> (tag: Tag<T>)
        ensures
            tag@ == (TagView { name: Some(name@), ..self@ }),
    {
        proof {
            use_type_invariant(&self);
        }
        let Tag { tag_type, classes, ids, name: _ } = self;
        Tag { tag_type, classes, ids, name: Some(String::from_str(name)) }
    }

    pub fn render_open(&self) -> (text: String)
        ensures
            text@ == open_text(self@),
    {
        let attributes = self.render_attributes();
        let mut buf = String::new();
        buf.append("<");
        buf.append(self.tag_type.keyword().as_str());
        if !attributes.as_str().is_empty() {
            buf.append(" ");
        }
        buf.append(attributes.as_str());
        buf.append(">");
        assert(buf@ =~= open_text(self@));
        buf
    }

    pub fn render_close(&self) -> (text: String)
        ensures
            text@ == close_text(self@),
    {
        let mut buf = String::new();
        buf.append("</");
        buf.append(self.tag_type.keyword().as_str());
        buf.append(">");
        assert(buf@ =~= close_text(self@));
        buf
    }

    /// The attributes that the tag has of itself.
    pub fn attributes(&self) -> (attributes: Vec<(String, String)>)
        ensures
            attribute_views(attributes@) == own_attributes(self@),
    {
        let mut attributes: Vec<(String, String)> = Vec::new();
        if self.classes.len() > 0 {
            attributes.push((String::from_str("class"), concat_chunks(&self.classes, " ")));
        }
        if self.ids.len() > 0 {
            attributes.push((String::from_str("id"), concat_chunks(&self.ids, " ")));
        }
        if let Some(name) = &self.name {
            attributes.push((String::from_str("name"), name.clone()));
        }
        assert(attribute_views(attributes@) =~= own_attributes(self@));
        attributes
    }

    /// All attributes as written, with a space between each two.
    pub fn render_attributes(&self) -> (text: String)
        ensures
            text@ == attributes_text(self@),
    {
        let mut attributes = self.attributes();
        let mut tag_type_attributes = self.tag_type.attributes();
        attributes.append(&mut tag_type_attributes);
        let ghost all = own_attributes(self@) + self@.kind_attributes;
        assert(attribute_views(attributes@) =~= all);
        let mut written: Vec<String> = Vec::new();
        let mut i: usize = 0;
        while i < attributes.len()
            invariant
                i <= attributes@.len(),
                attribute_views(attributes@) == all,
                written@.len() == i,
                forall|j: int| 0 <= j < i ==> (#[trigger] written@[j])@ == attribute_text(all[j]),
            decreases attributes@.len() - i,
        {
            assert(all[i as int] == (attributes@[i as int].0@, attributes@[i as int].1@));
            written.push(render_attribute(&attributes[i].0, &attributes[i].1));
            i += 1;
        }
        assert(texts(written@) =~= all.map_values(|a: Attribute| attribute_text(a)));
        concat_chunks(&written, " ")
    }
}

impl Tag<A> {
    /// Sets where the link points to.
    pub fn set_href(self, href: &str) -> (tag: Tag<A>)
        ensures
            tag@ == (TagView { kind_attributes: seq![("href"@, href@)], ..self@ }),
    {
        proof {
            use_type_invariant(&self);
        }
        let Tag { tag_type: _, classes, ids, name } = self;
        Tag { tag_type: A { href: Some(String::from_str(href)) }, classes, ids, name }
    }
}

} // verus!
