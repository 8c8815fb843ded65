use source_browser::conversions::{
    def_id_to_node_id, path_resolution_to_def_id, path_resolution_to_node_id, span_to_region, Def,
    DefId, PathResolution, Span, LOCAL_CRATE,
};
use source_browser::goto::Region;
use source_browser::links::take_wrappers;
use source_browser::render::{Chunk, Wrapper};

#[test]
fn a_span_covers_up_to_the_character_before_its_end() {
    let span = Span { filename: "a.rs".to_string(), lo: 4, hi: 9, dummy: false };
    assert_eq!(
        span_to_region(span),
        Some(Region { filename: "a.rs".to_string(), start: 4, end: 8 })
    );
}

#[test]
fn the_dummy_span_has_no_region() {
    let span = Span { filename: String::new(), lo: 0, hi: 0, dummy: true };
    assert_eq!(span_to_region(span), None);
}

#[test]
fn primitive_types_and_self_have_no_definition() {
    let id = DefId { krate: LOCAL_CRATE, node: 12 };
    assert_eq!(path_resolution_to_def_id(&PathResolution { base_def: Def::PrimTy, def_id: id }), None);
    assert_eq!(path_resolution_to_def_id(&PathResolution { base_def: Def::SelfTy, def_id: id }), None);
    assert_eq!(
        path_resolution_to_def_id(&PathResolution { base_def: Def::Other, def_id: id }),
        Some(id)
    );
}

#[test]
fn only_definitions_of_this_crate_have_a_node() {
    assert_eq!(def_id_to_node_id(DefId { krate: LOCAL_CRATE, node: 12 }), Some(12));
    assert_eq!(def_id_to_node_id(DefId { krate: 3, node: 12 }), None);
    let local = PathResolution { base_def: Def::Other, def_id: DefId { krate: LOCAL_CRATE, node: 7 } };
    let foreign = PathResolution { base_def: Def::Other, def_id: DefId { krate: 1, node: 7 } };
    let primitive = PathResolution { base_def: Def::PrimTy, def_id: DefId { krate: LOCAL_CRATE, node: 7 } };
    assert_eq!(path_resolution_to_node_id(&local), Some(7));
    assert_eq!(path_resolution_to_node_id(&foreign), None);
    assert_eq!(path_resolution_to_node_id(&primitive), None);
}

fn located(file: &str, text: &str) -> (String, Wrapper) {
    (file.to_string(), Wrapper::new(Chunk::new(0, text.to_string()), Chunk::new(1, String::new())))
}

#[test]
fn wrappers_are_taken_file_by_file() {
    let mut all = vec![located("a.rs", "1"), located("b.rs", "2"), located("a.rs", "3"), located("c.rs", "4")];
    let of_a: Vec<String> = take_wrappers(&mut all, "a.rs").into_iter().map(|w| w.prefix.text).collect();
    assert_eq!(of_a, vec!["1", "3"]);
    let left: Vec<&str> = all.iter().map(|l| l.1.prefix.text.as_str()).collect();
    assert_eq!(left, vec!["2", "4"]);
    assert!(take_wrappers(&mut all, "a.rs").is_empty());
    assert!(take_wrappers(&mut all, "x.rs").is_empty());
    assert_eq!(all.len(), 2);
}
