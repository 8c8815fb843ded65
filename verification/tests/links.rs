use source_browser::goto::{ActiveRegion, Definition, Region};
use source_browser::links::{anchor_text, decimal_text, href_text};
use source_browser::paths::{rename, write_path, Component, PathExtensions, SplitPath};

fn normal(name: &str) -> Component {
    Component::Normal(name.to_string())
}

fn relative(names: &[&str]) -> SplitPath {
    SplitPath { absolute: false, components: names.iter().map(|n| part(n)).collect() }
}

fn part(name: &str) -> Component {
    match name {
        "/" => Component::RootDir,
        "." => Component::CurDir,
        ".." => Component::ParentDir,
        _ => normal(name),
    }
}

fn absolute(names: &[&str]) -> SplitPath {
    let mut components = vec![Component::RootDir];
    components.extend(names.iter().map(|n| part(n)));
    SplitPath { absolute: true, components }
}

fn way(path: &SplitPath, base: &SplitPath) -> Option<String> {
    path.relative_to(base).map(|c| write_path(&c, "html"))
}

#[test]
fn decimal_text_writes_numbers() {
    assert_eq!(decimal_text(0), "0");
    assert_eq!(decimal_text(7), "7");
    assert_eq!(decimal_text(10), "10");
    assert_eq!(decimal_text(123456789), "123456789");
    assert_eq!(decimal_text(4294967295), "4294967295");
    assert_eq!(decimal_text(u64::MAX), "18446744073709551615");
    assert_eq!(anchor_text(u32::MAX), "def-4294967295");
    assert_eq!(anchor_text(42), "def-42");
}

#[test]
fn the_way_to_the_same_file_is_empty() {
    assert_eq!(relative(&["src", "a.rs"]).relative_to(&relative(&["src", "a.rs"])), Some(vec![]));
    assert_eq!(href_text(&vec![], 3), "#def-3");
}

#[test]
fn the_way_to_a_file_beside_leads_up_once() {
    let found = relative(&["src", "a.rs"]).relative_to(&relative(&["src", "b.rs"])).unwrap();
    assert_eq!(found, vec![Component::ParentDir, normal("a.rs")]);
    assert_eq!(write_path(&found, "html"), "../a.html");
    assert_eq!(href_text(&found, 12), "./a.html#def-12");
}

#[test]
fn the_way_leads_up_once_for_each_component_left_in_the_base() {
    assert_eq!(
        way(&relative(&["src", "a.rs"]), &relative(&["src", "x", "y", "b.rs"])),
        Some("../../../a.html".to_string())
    );
    assert_eq!(
        way(&relative(&["src", "x", "a.rs"]), &relative(&["src", "b.rs"])),
        Some("../x/a.html".to_string())
    );
    assert_eq!(
        way(&relative(&["a", "b"]), &relative(&["a", "b", "c", "d"])),
        Some("../..".to_string())
    );
    assert_eq!(
        way(&relative(&["a", "b", "c.rs"]), &relative(&["a"])),
        Some("b/c.html".to_string())
    );
    assert_eq!(way(&absolute(&["a", "b.rs"]), &absolute(&["a", "c.rs"])), Some("../b.html".to_string()));
}

#[test]
fn an_absolute_path_is_its_own_way_from_a_relative_base() {
    assert_eq!(way(&absolute(&["a", "b.rs"]), &relative(&["c"])), Some("/a/b.html".to_string()));
    assert_eq!(relative(&["a"]).relative_to(&absolute(&["c"])), None);
}

#[test]
fn there_is_no_way_past_a_parent_step_in_the_base() {
    assert_eq!(relative(&["a", "b"]).relative_to(&relative(&["x", ".."])), Some(vec![
        Component::ParentDir,
        Component::ParentDir,
        normal("a"),
        normal("b")
    ]));
    assert_eq!(relative(&["a", "b"]).relative_to(&relative(&["..", "x"])), None);
    assert_eq!(relative(&["a", "b"]).relative_to(&relative(&["a", "..", "x"])), None);
}

#[test]
fn a_dot_in_the_base_stands_for_the_component_beside_it() {
    assert_eq!(
        relative(&["a", "b"]).relative_to(&relative(&["."])),
        Some(vec![normal("a"), normal("b")])
    );
    assert_eq!(
        relative(&["a", "b"]).relative_to(&relative(&[".", "c"])),
        Some(vec![normal("a"), Component::ParentDir, normal("b")])
    );
}

#[test]
fn rename_replaces_what_follows_the_last_dot() {
    assert_eq!(rename(&"main.rs".to_string(), "html"), "main.html");
    assert_eq!(rename(&"a.b.rs".to_string(), "html"), "a.b.html");
    assert_eq!(rename(&"Makefile".to_string(), "html"), "Makefile.html");
    assert_eq!(rename(&".hidden".to_string(), "html"), ".hidden.html");
    assert_eq!(rename(&"x.".to_string(), "html"), "x.html");
    assert_eq!(rename(&"é.rs".to_string(), "html"), "é.html");
}

#[test]
fn write_path_leaves_a_way_without_a_name_as_it_is() {
    assert_eq!(write_path(&vec![Component::ParentDir], "html"), "..");
    assert_eq!(write_path(&vec![Component::RootDir], "html"), "/");
    assert_eq!(write_path(&vec![Component::CurDir, normal("a"), Component::ParentDir], "html"), "./a/..");
    assert_eq!(write_path(&vec![Component::Prefix("C:".to_string()), normal("a")], "txt"), "C:/a.txt");
}

#[test]
fn a_definition_is_wrapped_in_an_anchor() {
    let definition =
        Definition { id: 7, region: Region { filename: "src/a.rs".to_string(), start: 3, end: 9 } };
    let wrapper = definition.to_wrapper();
    assert_eq!(wrapper.prefix.position, 3);
    assert_eq!(wrapper.prefix.text, r#"<span class="definition" id="def-7" name="def-7">"#);
    assert_eq!(wrapper.postfix.position, 9);
    assert_eq!(wrapper.postfix.text, "</span>");
}

#[test]
fn a_reference_is_wrapped_in_a_link() {
    let active = ActiveRegion {
        definition_id: 15,
        region: Region { filename: "src/b.rs".to_string(), start: 20, end: 24 },
    };
    let wrapper = active.link_to(&relative(&["src", "x", "a.rs"]), &relative(&["src", "b.rs"])).unwrap();
    assert_eq!(wrapper.prefix.position, 20);
    assert_eq!(wrapper.prefix.text, r##"<a class="active-region" href="./x/a.html#def-15">"##);
    assert_eq!(wrapper.postfix.position, 24);
    assert_eq!(wrapper.postfix.text, "</a>");
    assert!(active.link_to(&relative(&["a"]), &absolute(&["b"])).is_none());
}

#[test]
fn file_names_are_read_as_paths() {
    let active = ActiveRegion {
        definition_id: 2,
        region: Region { filename: "src/b.rs".to_string(), start: 1, end: 2 },
    };
    let same = active.to_wrapper("src/b.rs").unwrap();
    assert_eq!(same.prefix.text, r##"<a class="active-region" href="#def-2">"##);
    let beside = active.to_wrapper("src/a.rs").unwrap();
    assert_eq!(beside.prefix.text, r##"<a class="active-region" href="./a.html#def-2">"##);
    assert_eq!(beside.prefix.position, 1);
    assert_eq!(beside.postfix.position, 2);
    assert_eq!(beside.postfix.text, "</a>");
    let split = SplitPath::parse("src//x/./a.rs");
    assert!(!split.absolute);
    assert_eq!(split.components, vec![normal("src"), normal("x"), normal("a.rs")]);
}
