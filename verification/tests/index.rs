use source_browser::goto::{
    collect_mappings, has_both, ActiveRegion, Definition, Region, UniqRegionRegistry,
};

fn region(start: usize, end: usize) -> Region {
    Region { filename: "main.rs".to_string(), start, end }
}

fn in_file(filename: &str, start: usize, end: usize) -> Region {
    Region { filename: filename.to_string(), start, end }
}

fn defs(definitions: &Vec<Definition>) -> Vec<(u32, String, usize, usize)> {
    definitions.iter().map(|d| (d.id, d.region.filename.clone(), d.region.start, d.region.end)).collect()
}

fn refs(active: &Vec<ActiveRegion>) -> Vec<(u32, String, usize, usize)> {
    active
        .iter()
        .map(|a| (a.definition_id, a.region.filename.clone(), a.region.start, a.region.end))
        .collect()
}

#[test]
fn no_pairs_give_an_empty_index() {
    let (active, definitions) = collect_mappings(Vec::new());
    assert!(active.is_empty());
    assert!(definitions.is_empty());
}

#[test]
fn two_references_to_one_place_give_one_definition() {
    let pairs = vec![
        (Some(region(5, 8)), Some(region(0, 2))),
        (Some(region(5, 8)), Some(region(0, 2))),
    ];
    let (active, definitions) = collect_mappings(pairs);
    assert_eq!(defs(&definitions), vec![(0, "main.rs".to_string(), 0, 2)]);
    assert_eq!(
        refs(&active),
        vec![(0, "main.rs".to_string(), 5, 8), (0, "main.rs".to_string(), 5, 8)]
    );
}

#[test]
fn a_reference_to_itself_is_left_out() {
    let (active, definitions) = collect_mappings(vec![(Some(region(3, 4)), Some(region(3, 4)))]);
    assert!(active.is_empty());
    assert!(definitions.is_empty());
}

#[test]
fn a_pair_with_a_side_missing_is_left_out() {
    let pairs = vec![
        (None, Some(region(0, 2))),
        (Some(region(5, 8)), None),
        (None, None),
        (Some(region(9, 9)), Some(region(0, 2))),
    ];
    let (active, definitions) = collect_mappings(pairs);
    assert_eq!(defs(&definitions), vec![(0, "main.rs".to_string(), 0, 2)]);
    assert_eq!(refs(&active), vec![(0, "main.rs".to_string(), 9, 9)]);
}

#[test]
fn definitions_are_numbered_in_the_order_they_are_first_referred_to() {
    let pairs = vec![
        (Some(region(10, 11)), Some(region(4, 5))),
        (Some(region(20, 21)), Some(region(0, 1))),
        (Some(region(30, 31)), Some(region(4, 5))),
        (Some(region(40, 41)), Some(in_file("lib.rs", 4, 5))),
        (Some(region(50, 51)), Some(region(0, 1))),
    ];
    let (active, definitions) = collect_mappings(pairs);
    assert_eq!(
        defs(&definitions),
        vec![
            (0, "main.rs".to_string(), 4, 5),
            (1, "main.rs".to_string(), 0, 1),
            (2, "lib.rs".to_string(), 4, 5)
        ]
    );
    let ids: Vec<u32> = active.iter().map(|a| a.definition_id).collect();
    assert_eq!(ids, vec![0, 1, 0, 2, 1]);
    for a in active.iter() {
        assert!((a.definition_id as usize) < definitions.len());
        assert_eq!(definitions[a.definition_id as usize].id, a.definition_id);
    }
}

#[test]
fn places_differ_by_file_start_or_end() {
    let pairs = vec![
        (Some(region(9, 9)), Some(region(0, 2))),
        (Some(region(9, 9)), Some(region(0, 3))),
        (Some(region(9, 9)), Some(region(1, 2))),
        (Some(region(9, 9)), Some(in_file("x.rs", 0, 2))),
        (Some(in_file("x.rs", 0, 2)), Some(region(0, 2))),
    ];
    let (active, definitions) = collect_mappings(pairs);
    assert_eq!(definitions.len(), 4);
    let ids: Vec<u32> = active.iter().map(|a| a.definition_id).collect();
    assert_eq!(ids, vec![0, 1, 2, 3, 0]);
}

#[test]
fn the_registry_numbers_from_zero_and_knows_what_it_has_seen() {
    let mut registry = UniqRegionRegistry::new();
    assert_eq!(registry.get_or_register(region(0, 2)), 0);
    assert_eq!(registry.get_or_register(region(5, 8)), 1);
    assert_eq!(registry.get_or_register(region(0, 2)), 0);
    assert_eq!(registry.get_or_register(in_file("lib.rs", 0, 2)), 2);
    assert_eq!(registry.get_or_register(region(5, 8)), 1);
    let definitions = registry.generate();
    assert_eq!(
        defs(&definitions),
        vec![
            (0, "main.rs".to_string(), 0, 2),
            (1, "main.rs".to_string(), 5, 8),
            (2, "lib.rs".to_string(), 0, 2)
        ]
    );
}

#[test]
fn an_empty_registry_generates_nothing() {
    assert!(UniqRegionRegistry::new().generate().is_empty());
}

#[test]
fn has_both_wants_both() {
    assert_eq!(has_both((Some(1), Some(2))), Some((1, 2)));
    assert_eq!(has_both((Some(1), None)), None);
    assert_eq!(has_both((None, Some(2))), None);
    assert_eq!(has_both::<u8>((None, None)), None);
}

#[test]
fn regions_are_equal_when_all_parts_are() {
    assert!(region(1, 2) == region(1, 2));
    assert!(region(1, 2) != region(1, 3));
    assert!(region(1, 2) != region(0, 2));
    assert!(region(1, 2) != in_file("lib.rs", 1, 2));
    let copy = region(1, 2).clone();
    assert!(copy == region(1, 2));
}
