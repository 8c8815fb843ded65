//! From the index to markup: the anchor around each definition and the link
//! around each place that refers to one.

use crate::goto::{ActiveRegion, Definition};
use crate::html::tags::{Span, A};
use crate::html::{close_text, open_text, TagView};
use crate::paths::{
    component_views, path_text, relative_components, with_extension, write_path, PathExtensions,
    SplitPath, SplitPathView,
};
use crate::render::{Chunk, Wrapper};
use vstd::prelude::*;
use vstd::string::*;

verus! {

/// The digit `d` as written.
pub open spec fn digit(d: nat) -> Seq<char> {
    if d == 0 {
        "0"@
    } else if d == 1 {
        "1"@
    } else if d == 2 {
        "2"@
    } else if d == 3 {
        "3"@
    } else if d == 4 {
        "4"@
    } else if d == 5 {
        "5"@
    } else if d == 6 {
        "6"@
    } else if d == 7 {
        "7"@
    } else if d == 8 {
        "8"@
    } else {
        "9"@
    }
}

/// The number `n` as written in base ten.
pub open spec fn decimal(n: nat) -> Seq<char>
    decreases n,
{
    if n < 10 {
        digit(n)
    } else {
        decimal(n / 10) + digit(n % 10)
    }
}

/// The name under which definition `id` can be linked to: `def-<id>`.
pub open spec fn anchor(id: u32) -> Seq<char> {
    "def-"@ + decimal(id as nat)
}

fn digit_text(d: u64) -> (text: &'static str)
    requires
        d < 10,
    ensures
        text@ == digit(d as nat),
{
    if d == 0 {
        "0"
    } else if d == 1 {
        "1"
    } else if d == 2 {
        "2"
    } else if d == 3 {
        "3"
    } else if d == 4 {
        "4"
    } else if d == 5 {
        "5"
    } else if d == 6 {
        "6"
    } else if d == 7 {
        "7"
    } else if d == 8 {
        "8"
    } else {
        "9"
    }
}

/// Writes a number in base ten.
pub fn decimal_text(n: u64) -> (text: String)
    ensures
        text@ == decimal(n as nat),
    decreases n,
{
    if n < 10 {
        String::from_str(digit_text(n))
    } else {
        let mut text = decimal_text(n / 10);
        text.append(digit_text(n % 10));
        text
    }
}

/// Writes the name under which a definition can be linked to.
pub fn anchor_text(id: u32) -> (text: String)
    ensures
        text@ == anchor(id),
{
    let mut text = String::from_str("def-");
    text.append(decimal_text(id as u64).as_str());
    text
}

/// The tag around definition `id`.
pub open spec fn definition_tag(id: u32) -> TagView {
    TagView {
        keyword: "span"@,
        classes: seq!["definition"@],
        ids: seq![anchor(id)],
        name: Some(anchor(id)),
        kind_attributes: Seq::empty(),
    }
}

/// The tag around a place that refers to a definition reached by `href`.
pub open spec fn link_tag(href: Seq<char>) -> TagView {
    TagView {
        keyword: "a"@,
        classes: seq!["active-region"@],
        ids: Seq::empty(),
        name: None,
        kind_attributes: seq![("href"@, href)],
    }
}

/// Where a link to definition `id` points, when `way` leads from the file
/// with the link to the file with the definition: the way with the
/// extension `html`, written as a path without its first character, then
/// `#` and the anchor. From a file to itself the way is empty, and the link
/// is the anchor alone. The first step of a way out of a file leaves the
/// file, so what is left of its `..` is the file's directory.
pub open spec fn href(way: Seq<crate::paths::ComponentView>, id: u32) -> Seq<char> {
    let path = path_text(with_extension(way, "html"@));
    (if path.len() > 0 {
        path.skip(1)
    } else {
        path
    }) + "#"@ + anchor(id)
}

/// Writes where a link to definition `id` points.
pub fn href_text(way: &Vec<crate::paths::Component>, id: u32) -> (text: String)
    ensures
        text@ == href(component_views(way@), id),
{
    let path = write_path(way, "html");
    let len: usize = path.as_str().unicode_len();
    let mut text = if len > 0 {
        let rest = String::from_str(path.as_str().substring_char(1, len));
        assert(rest@ =~= path@.skip(1));
        rest
    } else {
        path
    };
    text.append("#");
    text.append(anchor_text(id).as_str());
    text
}

/// Whether `wrapper` puts the opening and closing of `tag` around the region
/// from `start` to `end`.
pub open spec fn wraps(wrapper: Wrapper, start: usize, end: usize, tag: TagView) -> bool {
    &&& wrapper.prefix.position == start
    &&& wrapper.prefix.text@ == open_text(tag)
    &&& wrapper.postfix.position == end
    &&& wrapper.postfix.text@ == close_text(tag)
}

impl Definition {
    /// The anchor around this definition.
    pub fn to_wrapper(&self) -> (wrapper: Wrapper)
        ensures
            wraps(wrapper, self.region.start, self.region.end, definition_tag(self.id)),
    {
        let anchor = anchor_text(self.id);
        let tag = Span::new().add_class("definition").add_id(anchor.as_str()).set_name(
            anchor.as_str(),
        );
        assert(tag@.classes =~= seq!["definition"@]);
        assert(tag@.ids =~= seq![anchor@]);
        Wrapper::new(
            Chunk::new(self.region.start, tag.render_open()),
            Chunk::new(self.region.end, tag.render_close()),
        )
    }
}

impl ActiveRegion {
    /// The link around this region, when its file is `from` and the file of
    /// the definition it refers to is `target`; `None` where no way leads from
    /// the one to the other.
    pub fn link_to(&self, target: &SplitPath, from: &SplitPath) -> (link: Option<Wrapper>)
        ensures
            match relative_components(target@, from@) {
                Some(way) => link matches Some(wrapper) && wraps(
                    wrapper,
                    self.region.start,
                    self.region.end,
                    link_tag(href(way, self.definition_id)),
                ),
                None => link is None,
            },
    {
        match target.relative_to(from) {
            Some(way) => {
                let href = href_text(&way, self.definition_id);
                let tag = A::new().add_class("active-region").set_href(href.as_str());
                assert(tag@.classes =~= seq!["active-region"@]);
                Some(
                    Wrapper::new(
                        Chunk::new(self.region.start, tag.render_open()),
                        Chunk::new(self.region.end, tag.render_close()),
                    ),
                )
            },
            None => None,
        }
    }

    /// The link around this region to the definition it refers to, which is
    /// in the file `def_filename`. The two file names are read as paths by the
    /// system this runs on; what `link_to` says holds for what it makes of
    /// them.
    pub fn to_wrapper(&self, def_filename: &str) -> (link: Option<Wrapper>)
        ensures
            exists|target: SplitPathView, from: SplitPathView|
                match #[trigger] relative_components(target, from) {
                    Some(way) => link matches Some(wrapper) && wraps(
                        wrapper,
                        self.region.start,
                        self.region.end,
                        link_tag(href(way, self.definition_id)),
                    ),
                    None => link is None,
                },
    {
        let from = SplitPath::parse(self.region.filename.as_str());
        let target = SplitPath::parse(def_filename);
        let link = self.link_to(&target, &from);
        assert(match relative_components(target@, from@) {
            Some(way) => link matches Some(wrapper) && wraps(
                wrapper,
                self.region.start,
                self.region.end,
                link_tag(href(way, self.definition_id)),
            ),
            None => link is None,
        });
        link
    }
}

/// A wrapper and the name of the file it belongs to.
pub type Located = (String, Wrapper);

/// The wrappers among `located` that belong to the file `filename`, in their
/// order.
pub open spec fn of_file(located: Seq<Located>, filename: Seq<char>) -> Seq<Wrapper>
    decreases located.len(),
{
    if located.len() == 0 {
        Seq::empty()
    } else if located.first().0@ == filename {
        seq![located.first().1] + of_file(located.drop_first(), filename)
    } else {
        of_file(located.drop_first(), filename)
    }
}

/// What is left of `located` without the wrappers of the file `filename`.
pub open spec fn of_other_files(located: Seq<Located>, filename: Seq<char>) -> Seq<Located>
    decreases located.len(),
{
    if located.len() == 0 {
        Seq::empty()
    } else if located.first().0@ == filename {
        of_other_files(located.drop_first(), filename)
    } else {
        seq![located.first()] + of_other_files(located.drop_first(), filename)
    }
}

/// Takes the wrappers of one file out of `located`.
pub fn take_wrappers(located: &mut Vec<Located>, filename: &str) -> (wrappers: Vec<Wrapper>)
    ensures
        wrappers@ == of_file(old(located)@, filename@),
        final(located)@ == of_other_files(old(located)@, filename@),
{
    let ghost all = located@;
    let name = String::from_str(filename);
    let mut taken: Vec<Wrapper> = Vec::new();
    let mut left: Vec<Located> = Vec::new();
    assert(all.skip(all.len() as int) =~= Seq::<Located>::empty());
    while located.len() > 0
        invariant
            located@.len() <= all.len(),
            located@ == all.take(located@.len() as int),
            name@ == filename@,
            taken@ == of_file(all.skip(located@.len() as int), filename@).reverse(),
            left@ == of_other_files(all.skip(located@.len() as int), filename@).reverse(),
        decreases located@.len(),
    {
        let ghost n = located@.len() as int;
        let (file, wrapper) = located.pop().unwrap();
        proof {
            assert(located@ =~= all.take(n - 1));
            assert(all.skip(n - 1).first() == all[n - 1]);
            assert(all.skip(n - 1).drop_first() =~= all.skip(n));
        }
        let ghost rest_taken = of_file(all.skip(n), filename@);
        let ghost rest_left = of_other_files(all.skip(n), filename@);
        if file == name {
            taken.push(wrapper);
            assert(taken@ =~= (seq![wrapper] + rest_taken).reverse());
        } else {
            left.push((file, wrapper));
            assert(left@ =~= (seq![(file, wrapper)] + rest_left).reverse());
        }
    }
    assert(all.skip(0) =~= all);
    let mut others = crate::custom_collections::reversed(left);
    located.append(&mut others);
    let wrappers = crate::custom_collections::reversed(taken);
    assert(wrappers@ =~= of_file(all, filename@));
    assert(located@ =~= of_other_files(all, filename@));
    wrappers
}

} // verus!
