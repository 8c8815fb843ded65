//! Paths as lists of components, and the way from one path to another.

use vstd::prelude::*;
use vstd::string::*;

verus! {

/// One step of a path.
#[derive(Debug)]
pub enum Component {
    /// A drive or share, as some systems write in front of a path.
    Prefix(String),
    /// The root directory.
    RootDir,
    /// The directory itself, written `.`.
    CurDir,
    /// The directory above, written `..`.
    ParentDir,
    /// A file or directory of the given name.
    Normal(String),
}

/// A component as plain values.
pub enum ComponentView {
    Prefix(Seq<char>),
    RootDir,
    CurDir,
    ParentDir,
    Normal(Seq<char>),
}

impl View for Component {
    type V = ComponentView;

    open spec fn view(&self) -> ComponentView {
        match self {
            Component::Prefix(text) => ComponentView::Prefix(text@),
            Component::RootDir => ComponentView::RootDir,
            Component::CurDir => ComponentView::CurDir,
            Component::ParentDir => ComponentView::ParentDir,
            Component::Normal(name) => ComponentView::Normal(name@),
        }
    }
}

impl Clone for Component {
    fn clone(&self) -> (copy: Component)
        ensures
            copy@ == self@,
    {
        match self {
            Component::Prefix(text) => Component::Prefix(text.clone()),
            Component::RootDir => Component::RootDir,
            Component::CurDir => Component::CurDir,
            Component::ParentDir => Component::ParentDir,
            Component::Normal(name) => Component::Normal(name.clone()),
        }
    }
}

impl PartialEq for Component {
    fn eq(&self, other: &Component) -> (equal: bool) {
        match (self, other) {
            (Component::Prefix(a), Component::Prefix(b)) => *a == *b,
            (Component::RootDir, Component::RootDir) => true,
            (Component::CurDir, Component::CurDir) => true,
            (Component::ParentDir, Component::ParentDir) => true,
            (Component::Normal(a), Component::Normal(b)) => *a == *b,
            _ => false,
        }
    }
}

impl vstd::std_specs::cmp::PartialEqSpecImpl for Component {
    open spec fn obeys_eq_spec() -> bool {
        true
    }

    open spec fn eq_spec(&self, other: &Component) -> bool {
        self@ == other@
    }
}

/// A path taken apart: whether it is absolute, and its components in order.
#[derive(Debug)]
pub struct SplitPath {
    pub absolute: bool,
    pub components: Vec<Component>,
}

/// A path as plain values.
pub struct SplitPathView {
    pub absolute: bool,
    pub components: Seq<ComponentView>,
}

/// The components as plain values.
pub open spec fn component_views(components: Seq<Component>) -> Seq<ComponentView> {
    components.map_values(|c: Component| c@)
}

impl View for SplitPath {
    type V = SplitPathView;

    open spec fn view(&self) -> SplitPathView {
        SplitPathView { absolute: self.absolute, components: component_views(self.components@) }
    }
}

/// `count` steps upwards.
pub open spec fn upwards(count: int) -> Seq<ComponentView> {
    Seq::new(
        if count > 0 {
            count as nat
        } else {
            0
        },
        |i: int| ComponentView::ParentDir,
    )
}

/// The way from `base` to `path`, both read from component `i` on, when
/// `found` is the way found for the components in front of `i`. As long as
/// nothing has been found, components that the two share are passed over. A
/// `.` in `base` stands for the component of `path` beside it. Where the two
/// part, the way leads upwards once for every component left in `base`, and
/// then down the rest of `path`; there is no way past a `..` in `base`.
pub open spec fn way(
    path: Seq<ComponentView>,
    base: Seq<ComponentView>,
    i: int,
    found: Seq<ComponentView>,
) -> Option<Seq<ComponentView>>
    decreases path.len() + base.len() - i,
{
    if i < 0 || (i >= path.len() && i >= base.len()) {
        Some(found)
    } else if i >= base.len() {
        Some(found + path.skip(i))
    } else if i >= path.len() {
        way(path, base, i + 1, found.push(ComponentView::ParentDir))
    } else if found.len() == 0 && path[i] == base[i] {
        way(path, base, i + 1, found)
    } else if base[i] == ComponentView::CurDir {
        way(path, base, i + 1, found.push(path[i]))
    } else if base[i] == ComponentView::ParentDir {
        None
    } else {
        Some(found + upwards(base.len() - i) + path.skip(i))
    }
}

/// The components that lead from `base` to `path`. An absolute path is its
/// own way from a relative base; there is no way from an absolute base to a
/// relative path.
pub open spec fn relative_components(path: SplitPathView, base: SplitPathView) -> Option<
    Seq<ComponentView>,
> {
    if path.absolute != base.absolute {
        if path.absolute {
            Some(path.components)
        } else {
            None
        }
    } else {
        way(path.components, base.components, 0, Seq::empty())
    }
}

/// Appends copies of the components of `from`, from index `start` on.
fn extend_from(components: &mut Vec<Component>, from: &Vec<Component>, start: usize)
    requires
        start <= from@.len(),
    ensures
        component_views(final(components)@) == component_views(old(components)@) + component_views(
            from@,
        ).skip(start as int),
{
    let mut i: usize = start;
    assert(component_views(components@) =~= component_views(old(components)@) + component_views(
        from@,
    ).subrange(start as int, i as int));
    while i < from.len()
        invariant
            start <= i <= from@.len(),
            component_views(components@) == component_views(old(components)@) + component_views(
                from@,
            ).subrange(start as int, i as int),
        decreases from@.len() - i,
    {
        let ghost before = components@;
        let copy = from[i].clone();
        components.push(copy);
        i += 1;
        assert(component_views(components@) =~= component_views(before).push(copy@));
        assert(component_views(from@)[i - 1] == copy@);
        assert(component_views(components@) =~= component_views(old(components)@)
            + component_views(from@).subrange(start as int, i as int));
    }
    assert(component_views(from@).subrange(start as int, i as int) =~= component_views(
        from@,
    ).skip(start as int));
}

pub trait PathExtensions {
    /// The components that lead from `base` to this path, if there is such a
    /// way.
    fn relative_to(&self, base: &SplitPath) -> (relative: Option<Vec<Component>>)
        ensures
            relative is Some <==> relative_components(self.split(), base@) is Some,
            relative matches Some(components) ==> Some(component_views(components@))
                == relative_components(self.split(), base@),
    ;

    /// This path, taken apart.
    spec fn split(&self) -> SplitPathView;
}

impl PathExtensions for SplitPath {
    open spec fn split(&self) -> SplitPathView {
        self@
    }

    fn relative_to(&self, base: &SplitPath) -> (relative: Option<Vec<Component>>) {
        if self.absolute != base.absolute {
            if self.absolute {
                let mut comps: Vec<Component> = Vec::new();
                extend_from(&mut comps, &self.components, 0);
                assert(component_views(comps@) =~= self@.components);
                Some(comps)
            } else {
                None
            }
        } else {
            let ghost path = self@.components;
            let ghost stem = base@.components;
            let mut comps: Vec<Component> = Vec::new();
            let mut i: usize = 0;
            assert(component_views(comps@) =~= Seq::empty());
            loop
                invariant
                    self.absolute == base.absolute,
                    path == component_views(self.components@),
                    stem == component_views(base.components@),
                    i <= self.components@.len() || i <= base.components@.len(),
                    way(path, stem, i as int, component_views(comps@)) == way(
                        path,
                        stem,
                        0,
                        Seq::empty(),
                    ),
                decreases self.components@.len() + base.components@.len() - i,
            {
                let in_path = i < self.components.len();
                let in_base = i < base.components.len();
                assert(path.len() == self.components@.len());
                assert(stem.len() == base.components@.len());
                let ghost before = comps@;
                if !in_path && !in_base {
                    return Some(comps);
                } else if !in_base {
                    extend_from(&mut comps, &self.components, i);
                    return Some(comps);
                } else if !in_path {
                    comps.push(Component::ParentDir);
                    assert(component_views(comps@) =~= component_views(before).push(
                        ComponentView::ParentDir,
                    ));
                } else {
                    let a = &self.components[i];
                    let b = &base.components[i];
                    assert(path[i as int] == a@ && stem[i as int] == b@);
                    if comps.len() == 0 && *a == *b {
                    } else if *b == Component::CurDir {
                        comps.push(a.clone());
                        assert(component_views(comps@) =~= component_views(before).push(a@));
                    } else if *b == Component::ParentDir {
                        return None;
                    } else {
                        let ghost found = component_views(comps@);
                        let mut k: usize = i;
                        assert(component_views(comps@) =~= found + upwards(k - i));
                        while k < base.components.len()
                            invariant
                                i <= k <= base.components@.len(),
                                component_views(comps@) == found + upwards(k - i),
                            decreases base.components@.len() - k,
                        {
                            let ghost sofar = comps@;
                            comps.push(Component::ParentDir);
                            k += 1;
                            assert(component_views(comps@) =~= component_views(sofar).push(
                                ComponentView::ParentDir,
                            ));
                            assert(component_views(comps@) =~= found + upwards(k - i));
                        }
                        extend_from(&mut comps, &self.components, i);
                        return Some(comps);
                    }
                }
                i += 1;
            }
        }
    }
}

/// Whether the path is absolute, as `std::path::Path::is_absolute` says of
/// the path that `std::path::Path::new` makes of the text. What counts as
/// absolute depends on the system, so nothing is stated of the answer.
#[verifier::external_body]
fn path_is_absolute(path: &str) -> (absolute: bool) {
    std::path::Path::new(path).is_absolute()
}

/// The components that `std::path::Path::components` finds in the path that
/// `std::path::Path::new` makes of the text, each as the component of this
/// library that stands for it. How a text falls into components depends on
/// the system, so nothing is stated of the result.
#[verifier::external_body]
fn path_components(path: &str) -> (components: Vec<Component>) {
    let mut components = Vec::new();
    for part in std::path::Path::new(path).components() {
        let text = part.as_os_str().to_string_lossy().into_owned();
        components.push(match part {
            std::path::Component::Prefix(_) => Component::Prefix(text),
            std::path::Component::RootDir => Component::RootDir,
            std::path::Component::CurDir => Component::CurDir,
            std::path::Component::ParentDir => Component::ParentDir,
            std::path::Component::Normal(_) => Component::Normal(text),
        });
    }
    components
}

impl SplitPath {
    /// Takes a path apart as the system this runs on reads it.
    pub fn parse(path: &str) -> (split: SplitPath) {
        SplitPath { absolute: path_is_absolute(path), components: path_components(path) }
    }
}

/// Index of the last `.` in `name`, or -1 where there is none.
pub open spec fn last_dot(name: Seq<char>) -> int
    decreases name.len(),
{
    if name.len() == 0 {
        -1
    } else if name.last() == '.' {
        name.len() - 1
    } else {
        last_dot(name.drop_last())
    }
}

/// The file name with its extension replaced: what follows the last `.` is
/// the extension, unless that `.` is the first character of the name; a name
/// without extension gets one.
pub open spec fn renamed(name: Seq<char>, extension: Seq<char>) -> Seq<char> {
    (if last_dot(name) > 0 {
        name.take(last_dot(name))
    } else {
        name
    }) + "."@ + extension
}

/// The components with the extension of the file they lead to replaced. A
/// way that does not end in a name is left as it is.
pub open spec fn with_extension(components: Seq<ComponentView>, extension: Seq<char>) -> Seq<
    ComponentView,
> {
    if components.len() > 0 && components.last() is Normal {
        components.drop_last().push(
            ComponentView::Normal(renamed(components.last()->Normal_0, extension)),
        )
    } else {
        components
    }
}

/// A component as written in a path.
pub open spec fn component_text(component: ComponentView) -> Seq<char> {
    match component {
        ComponentView::Prefix(text) => text,
        ComponentView::RootDir => "/"@,
        ComponentView::CurDir => "."@,
        ComponentView::ParentDir => ".."@,
        ComponentView::Normal(name) => name,
    }
}

/// The components written as one path, with `/` between each two, but none
/// behind the root.
pub open spec fn path_text(components: Seq<ComponentView>) -> Seq<char>
    decreases components.len(),
{
    if components.len() == 0 {
        Seq::empty()
    } else if components.len() == 1 {
        component_text(components[0])
    } else {
        path_text(components.drop_last()) + (if components[components.len() - 2] is RootDir {
            Seq::empty()
        } else {
            "/"@
        }) + component_text(components.last())
    }
}

/// Replaces the extension of a file name.
pub fn rename(name: &String, extension: &str) -> (text: String)
    ensures
        text@ == renamed(name@, extension@),
{
    let len: usize = name.as_str().unicode_len();
    let mut i: usize = len;
    assert(name@.take(i as int) =~= name@);
    while i > 0 && name.as_str().get_char(i - 1) != '.'
        invariant
            i <= len == name@.len(),
            last_dot(name@) == last_dot(name@.take(i as int)),
        decreases i,
    {
        assert(name@.take(i as int).drop_last() =~= name@.take(i - 1));
        i -= 1;
    }
    assert(i > 0 ==> name@.take(i as int).last() == '.');
    assert(last_dot(name@) == i - 1);
    let mut text = if i > 1 {
        String::from_str(name.as_str().substring_char(0, i - 1))
    } else {
        name.clone()
    };
    assert(i > 1 ==> name@.subrange(0, i - 1) =~= name@.take(i - 1));
    text.append(".");
    text.append(extension);
    text
}

/// Writes one component.
fn write_component(text: &mut String, component: &Component)
    ensures
        final(text)@ == old(text)@ + component_text(component@),
{
    match component {
        Component::Prefix(prefix) => text.append(prefix.as_str()),
        Component::RootDir => text.append("/"),
        Component::CurDir => text.append("."),
        Component::ParentDir => text.append(".."),
        Component::Normal(name) => text.append(name.as_str()),
    }
}

/// Writes the components as one path, after giving the file they lead to the
/// extension `extension`.
pub fn write_path(components: &Vec<Component>, extension: &str) -> (text: String)
    ensures
        text@ == path_text(with_extension(component_views(components@), extension@)),
{
    let ghost views = component_views(components@);
    let ghost target = with_extension(views, extension@);
    let mut text = String::new();
    let n: usize = components.len();
    let mut i: usize = 0;
    assert(target.len() == n);
    while i < n
        invariant
            i <= n == components@.len(),
            views == component_views(components@),
            target == with_extension(views, extension@),
            target.len() == n,
            text@ == path_text(target.take(i as int)),
        decreases n - i,
    {
        let ghost front = target.take(i as int);
        let ghost next = target.take(i + 1);
        proof {
            assert(next.drop_last() =~= front);
            assert(next.last() == target[i as int]);
            assert(i > 0 ==> next[i - 1] == target[i - 1]);
            assert(i + 1 < n ==> target[i as int] == views[i as int]);
            assert(i > 0 ==> target[i - 1] == views[i - 1]);
            assert(views[i as int] == components@[i as int]@);
            assert(i > 0 ==> views[i - 1] == components@[i - 1]@);
        }
        if i > 0 {
            let after_root = match &components[i - 1] {
                Component::RootDir => true,
                _ => false,
            };
            if !after_root {
                text.append("/");
            }
        }
        if i + 1 == n {
            match &components[i] {
                Component::Normal(name) => {
                    let renamed_to = rename(name, extension);
                    text.append(renamed_to.as_str());
                },
                other => {
                    write_component(&mut text, other);
                },
            }
        } else {
            write_component(&mut text, &components[i]);
        }
        assert(text@ =~= path_text(next));
        i += 1;
    }
    assert(target.take(n as int) =~= target);
    text
}

} // verus!
