//! The index of references: which places in the source refer to which
//! definitions.

use std::collections::HashMap;
use vstd::prelude::*;

verus! {

/// A place in the source: an inclusive range of character offsets within one
/// named file.
#[derive(Debug)]
pub struct Region {
    pub filename: String,
    /// Offset of the first character.
    pub start: usize,
    /// Offset of the last character.
    pub end: usize,
}

/// A region as plain values. Two regions are the same place when their views
/// are equal.
pub struct RegionView {
    pub filename: Seq<char>,
    pub start: int,
    pub end: int,
}

impl View for Region {
    type V = RegionView;

    open spec fn view(&self) -> RegionView {
        RegionView { filename: self.filename@, start: self.start as int, end: self.end as int }
    }
}

impl Clone for Region {
    fn clone(&self) -> (copy: Region)
        ensures
            copy@ == self@,
    {
        Region { filename: self.filename.clone(), start: self.start, end: self.end }
    }
}

impl PartialEq for Region {
    fn eq(&self, other: &Region) -> (equal: bool) {
        self.start == other.start && self.end == other.end && self.filename == other.filename
    }
}

impl Eq for Region {

}

impl vstd::std_specs::cmp::PartialEqSpecImpl for Region {
    open spec fn obeys_eq_spec() -> bool {
        true
    }

    open spec fn eq_spec(&self, other: &Region) -> bool {
        self@ == other@
    }
}

/// A place that others refer to, with the number it is known by.
#[derive(Debug)]
pub struct Definition {
    pub id: u32,
    pub region: Region,
}

impl Clone for Definition {
    fn clone(&self) -> (copy: Definition)
        ensures
            copy.id == self.id,
            copy.region@ == self.region@,
    {
        Definition { id: self.id, region: self.region.clone() }
    }
}

/// A place that refers to a definition.
#[derive(Debug)]
pub struct ActiveRegion {
    pub definition_id: u32,
    pub region: Region,
}

/// The pair, if both of its sides are there.
pub open spec fn both<T>(tuple: (Option<T>, Option<T>)) -> Option<(T, T)> {
    match tuple {
        (Some(a), Some(b)) => Some((a, b)),
        _ => None,
    }
}

pub fn has_both<T>(tuple: (Option<T>, Option<T>)) -> (pair: Option<(T, T)>)
    ensures
        pair == both(tuple),
{
    match tuple {
        (Some(a), Some(b)) => Some((a, b)),
        _ => None,
    }
}

/// Gives each distinct region a number: the regions are numbered from 0 in
/// the order in which they are first seen.
pub struct UniqRegionRegistry {
    /// The registered regions; the number of each is its index.
    regions: Vec<Region>,
    /// The names of the files that hold a registered region, each once.
    files: Vec<String>,
    /// For each of these files, the numbers of its regions, found by their two
    /// offsets.
    places: Vec<HashMap<u128, u32>>,
}

impl View for UniqRegionRegistry {
    type V = Seq<RegionView>;

    /// The registered regions; the number of each is its index.
    closed spec fn view(&self) -> Seq<RegionView> {
        self.regions@.map_values(|r: Region| r@)
    }
}

/// The two offsets of a region as one number.
spec fn place_key(start: int, end: int) -> int {
    start * 0x1_0000_0000_0000_0000 + end
}

fn key_of(region: &Region) -> (key: u128)
    ensures
        key == place_key(region.start as int, region.end as int),
{
    (region.start as u128) * 0x1_0000_0000_0000_0000u128 + (region.end as u128)
}

impl UniqRegionRegistry {
    /// Region `i` is found under its file and its offsets.
    spec fn indexed(&self, i: int) -> bool {
        exists|f: int|
            0 <= f < self.files@.len() && (#[trigger] self.files@[f])@ == self.regions@[i].filename@
                && self.places@[f]@.contains_key(
                place_key(self.regions@[i].start as int, self.regions@[i].end as int) as u128,
            ) && self.places@[f]@[place_key(
                self.regions@[i].start as int,
                self.regions@[i].end as int,
            ) as u128] == i
    }

    /// What is found under file `f` and `key` is the number of a region of
    /// that file with these offsets.
    spec fn points_back(&self, f: int, key: u128) -> bool {
        let id = self.places@[f]@[key] as int;
        &&& 0 <= id < self.regions@.len()
        &&& self.regions@[id].filename@ == self.files@[f]@
        &&& place_key(self.regions@[id].start as int, self.regions@[id].end as int) == key
    }

    /// No region is registered twice, every number fits its type, and every
    /// region is found by its file and its offsets.
    pub closed spec fn wf(&self) -> bool {
        &&& self@.no_duplicates()
        &&& self@.len() <= u32::MAX
        &&& self.places@.len() == self.files@.len()
        &&& forall|a: int, b: int|
            0 <= a < b < self.files@.len() ==> (#[trigger] self.files@[a])@ != (
            #[trigger] self.files@[b])@
        &&& forall|i: int| 0 <= i < self.regions@.len() ==> #[trigger] self.indexed(i)
        &&& forall|f: int, key: u128|
            0 <= f < self.files@.len() && self.places@[f]@.contains_key(key)
                ==> #[trigger] self.points_back(f, key)
    }

    pub fn new() -> (registry: UniqRegionRegistry)
        ensures
            registry@ == Seq::<RegionView>::empty(),
            registry.wf(),
    {
        let registry = UniqRegionRegistry {
            regions: Vec::new(),
            files: Vec::new(),
            places: Vec::new(),
        };
        assert(registry@ =~= Seq::<RegionView>::empty());
        registry
    }

    /// Where the file called `filename` stands among the files.
    fn file_index(&self, filename: &String) -> (found: Option<usize>)
        ensures
            match found {
                Some(f) => f < self.files@.len() && self.files@[f as int]@ == filename@,
                None => forall|f: int| 0 <= f < self.files@.len() ==> self.files@[f]@ != filename@,
            },
    {
        let mut f: usize = 0;
        while f < self.files.len()
            invariant
                f <= self.files@.len(),
                forall|g: int| 0 <= g < f ==> self.files@[g]@ != filename@,
            decreases self.files@.len() - f,
        {
            if self.files[f] == *filename {
                return Some(f);
            }
            f += 1;
        }
        None
    }

    /// The number of `region`, if it is registered.
    fn lookup(&self, region: &Region) -> (found: Option<u32>)
        requires
            self.wf(),
        ensures
            match found {
                Some(id) => 0 <= id < self@.len() && self@[id as int] == region@,
                None => !self@.contains(region@),
            },
    {
        broadcast use vstd::std_specs::hash::group_hash_axioms;

        let key = key_of(region);
        let found = match self.file_index(&region.filename) {
            Some(f) => match self.places[f].get(&key) {
                Some(id) => {
                    assert(self.points_back(f as int, key));
                    Some(*id)
                },
                None => None,
            },
            None => None,
        };
        proof {
            if found is None && self@.contains(region@) {
                let i = choose|i: int| 0 <= i < self@.len() && self@[i] == region@;
                assert(self.regions@[i]@ == region@);
                assert(self.indexed(i));
            }
        }
        found
    }

    /// The number of `region`, which is registered now if it was not before.
    pub fn get_or_register(&mut self, region: Region) -> (id: u32)
        requires
            old(self).wf(),
            old(self)@.contains(region@) || old(self)@.len() < u32::MAX,
        ensures
            final(self).wf(),
            0 <= id < final(self)@.len(),
            final(self)@[id as int] == region@,
            old(self)@.contains(region@) ==> final(self)@ == old(self)@,
            !old(self)@.contains(region@) ==> final(self)@ == old(self)@.push(region@),
    {
        broadcast use vstd::std_specs::hash::group_hash_axioms;

        if let Some(id) = self.lookup(&region) {
            return id;
        }
        let id: u32 = self.regions.len() as u32;
        let key = key_of(&region);
        let f: usize = match self.file_index(&region.filename) {
            Some(f) => f,
            None => {
                self.files.push(region.filename.clone());
                self.places.push(HashMap::new());
                self.files.len() - 1
            },
        };
        let ghost before = *self;
        proof {
            assert forall|i: int| 0 <= i < before.regions@.len() implies #[trigger] before.indexed(
                i,
            ) by {
                assert(old(self).indexed(i));
                let g = choose|g: int|
                    0 <= g < old(self).files@.len() && (#[trigger] old(self).files@[g])@ == old(
                        self,
                    ).regions@[i].filename@ && old(self).places@[g]@.contains_key(
                        place_key(
                            old(self).regions@[i].start as int,
                            old(self).regions@[i].end as int,
                        ) as u128,
                    ) && old(self).places@[g]@[place_key(
                        old(self).regions@[i].start as int,
                        old(self).regions@[i].end as int,
                    ) as u128] == i;
                assert(before.files@[g] == old(self).files@[g]);
                assert(before.places@[g] == old(self).places@[g]);
            }
            assert forall|g: int, k: u128|
                0 <= g < before.files@.len() && before.places@[g]@.contains_key(
                    k,
                ) implies #[trigger] before.points_back(g, k) by {
                if g < old(self).files@.len() {
                    assert(before.files@[g] == old(self).files@[g]);
                    assert(before.places@[g] == old(self).places@[g]);
                    assert(old(self).points_back(g, k));
                }
            }
            assert(!before.places@[f as int]@.contains_key(key)) by {
                if before.places@[f as int]@.contains_key(key) {
                    assert(before.points_back(f as int, key));
                    let other = before.places@[f as int]@[key] as int;
                    assert(before.regions@[other]@ == region@);
                    assert(old(self)@[other] == region@);
                }
            }
        }
        let mut places = self.places.remove(f);
        places.insert(key, id);
        self.places.insert(f, places);
        self.regions.push(region);
        proof {
            assert(self@ =~= old(self)@.push(region@));
            crate::sequences::lemma_no_duplicates_push(old(self)@, region@);
            assert(self.files@ == before.files@);
            assert(self.places@.len() == before.places@.len());
            assert forall|g: int| 0 <= g < self.places@.len() && g != f implies self.places@[g]
                == before.places@[g] by {}
            assert(self.places@[f as int]@ == before.places@[f as int]@.insert(key, id));
            assert forall|i: int| 0 <= i < self.regions@.len() implies #[trigger] self.indexed(
                i,
            ) by {
                if i < before.regions@.len() {
                    assert(before.indexed(i));
                    let g = choose|g: int|
                        0 <= g < before.files@.len() && (#[trigger] before.files@[g])@
                            == before.regions@[i].filename@ && before.places@[g]@.contains_key(
                            place_key(
                                before.regions@[i].start as int,
                                before.regions@[i].end as int,
                            ) as u128,
                        ) && before.places@[g]@[place_key(
                            before.regions@[i].start as int,
                            before.regions@[i].end as int,
                        ) as u128] == i;
                    assert(self.regions@[i] == before.regions@[i]);
                    assert((self.files@[g])@ == self.regions@[i].filename@);
                } else {
                    assert((self.files@[f as int])@ == self.regions@[i].filename@);
                }
            }
            assert forall|g: int, k: u128|
                0 <= g < self.files@.len() && self.places@[g]@.contains_key(
                    k,
                ) implies #[trigger] self.points_back(g, k) by {
                if g == f && k == key {
                } else {
                    assert(before.places@[g]@.contains_key(k));
                    assert(before.points_back(g, k));
                    let other = before.places@[g]@[k] as int;
                    assert(self.regions@[other] == before.regions@[other]);
                }
            }
        }
        id
    }

    /// The registered regions as definitions, each with its number, in the
    /// order of their numbers.
    pub fn generate(self) -> (definitions: Vec<Definition>)
        requires
            self.wf(),
        ensures
            definitions@.len() == self@.len(),
            forall|i: int|
                0 <= i < definitions@.len() ==> (#[trigger] definitions@[i]).id == i
                    && definitions@[i].region@ == self@[i],
    {
        let ghost all = self@;
        let mut regions = self.regions;
        let mut backwards: Vec<Definition> = Vec::new();
        while regions.len() > 0
            invariant
                regions@.len() <= all.len() <= u32::MAX,
                forall|i: int| 0 <= i < regions@.len() ==> (#[trigger] regions@[i])@ == all[i],
                backwards@.len() == all.len() - regions@.len(),
                forall|i: int|
                    0 <= i < backwards@.len() ==> (#[trigger] backwards@[i]).id == all.len() - 1
                        - i && backwards@[i].region@ == all[all.len() - 1 - i],
            decreases regions@.len(),
        {
            let id: usize = regions.len() - 1;
            let region = regions.pop().unwrap();
            backwards.push(Definition { id: id as u32, region });
        }
        let definitions = crate::custom_collections::reversed(backwards);
        definitions
    }
}

/// A pair as the analysis reports it: the place of an occurrence and the place
/// of what it refers to, each absent where the analysis has no place for it.
pub type Mapping = (Option<Region>, Option<Region>);

/// The pairs as plain values.
pub open spec fn mapping_views(pairs: Seq<Mapping>) -> Seq<(Option<RegionView>, Option<RegionView>)> {
    pairs.map_values(
        |p: Mapping|
            (
                match p.0 {
                    Some(r) => Some(r@),
                    None => None,
                },
                match p.1 {
                    Some(r) => Some(r@),
                    None => None,
                },
            ),
    )
}

/// The pair counts as a reference: both places are there, and they differ.
pub open spec fn is_reference(pair: (Option<RegionView>, Option<RegionView>)) -> bool {
    pair.0 is Some && pair.1 is Some && pair.0 != pair.1
}

/// The references among `pairs`, in their order, each as the place of the
/// occurrence and the place of the definition.
pub open spec fn references(pairs: Seq<(Option<RegionView>, Option<RegionView>)>) -> Seq<
    (RegionView, RegionView),
>
    decreases pairs.len(),
{
    if pairs.len() == 0 {
        Seq::empty()
    } else if is_reference(pairs.last()) {
        references(pairs.drop_last()).push((pairs.last().0.unwrap(), pairs.last().1.unwrap()))
    } else {
        references(pairs.drop_last())
    }
}

/// The places that the references point to, each once, in the order in which
/// they are first referred to.
pub open spec fn defined(refs: Seq<(RegionView, RegionView)>) -> Seq<RegionView>
    decreases refs.len(),
{
    if refs.len() == 0 {
        Seq::empty()
    } else if defined(refs.drop_last()).contains(refs.last().1) {
        defined(refs.drop_last())
    } else {
        defined(refs.drop_last()).push(refs.last().1)
    }
}

/// Every place referred to is among the definitions, and none is there
/// twice.
pub proof fn lemma_defined_once(refs: Seq<(RegionView, RegionView)>)
    ensures
        defined(refs).no_duplicates(),
        forall|j: int| 0 <= j < refs.len() ==> defined(refs).contains(#[trigger] refs[j].1),
    decreases refs.len(),
{
    if refs.len() > 0 {
        let shorter = refs.drop_last();
        lemma_defined_once(shorter);
        let before = defined(shorter);
        if !before.contains(refs.last().1) {
            crate::sequences::lemma_no_duplicates_push(before, refs.last().1);
        }
        assert forall|j: int| 0 <= j < refs.len() implies defined(refs).contains(
            #[trigger] refs[j].1,
        ) by {
            if j < shorter.len() {
                assert(shorter[j] == refs[j]);
                assert(before.contains(refs[j].1));
                let x = choose|x: int| 0 <= x < before.len() && before[x] == refs[j].1;
                assert(defined(refs)[x] == refs[j].1);
            } else if !before.contains(refs.last().1) {
                assert(defined(refs)[before.len() as int] == refs.last().1);
            }
        }
    }
}

/// Builds the index from what the analysis found. A pair with a side missing
/// is left out, and so is one whose two sides are the same place. Every
/// other pair gives one active region, in the order of the pairs. Every
/// place referred to gives one definition; the definitions are numbered from
/// 0 in the order in which they are first referred to, and returned in that
/// order.
pub fn collect_mappings(pairs: Vec<Mapping>) -> (index: (Vec<ActiveRegion>, Vec<Definition>))
    requires
        pairs@.len() <= u32::MAX,
    ensures
        ({
            let refs = references(mapping_views(pairs@));
            let (active_regions, definitions) = index;
            &&& active_regions@.len() == refs.len()
            &&& definitions@.len() == defined(refs).len()
            &&& forall|i: int|
                0 <= i < definitions@.len() ==> (#[trigger] definitions@[i]).id == i
                    && definitions@[i].region@ == defined(refs)[i]
            &&& forall|j: int|
                0 <= j < active_regions@.len() ==> (#[trigger] active_regions@[j]).region@
                    == refs[j].0 && active_regions@[j].definition_id < definitions@.len()
                    && defined(refs)[active_regions@[j].definition_id as int] == refs[j].1
        }),
{
    let ghost all = pairs@;
    let ghost views = mapping_views(all);
    let mut rest = crate::custom_collections::reversed(pairs);
    let mut registry = UniqRegionRegistry::new();
    let mut active_regions: Vec<ActiveRegion> = Vec::new();
    assert(views.take(0) =~= Seq::empty());
    while rest.len() > 0
        invariant
            rest@.len() <= all.len() <= u32::MAX,
            rest@ == all.reverse().take(rest@.len() as int),
            views == mapping_views(all),
            registry.wf(),
            registry@ == defined(references(views.take(all.len() - rest@.len()))),
            active_regions@.len() == references(views.take(all.len() - rest@.len())).len(),
            forall|j: int|
                0 <= j < active_regions@.len() ==> (#[trigger] active_regions@[j]).region@
                    == references(views.take(all.len() - rest@.len()))[j].0
                    && active_regions@[j].definition_id < registry@.len()
                    && registry@[active_regions@[j].definition_id as int] == references(
                    views.take(all.len() - rest@.len()),
                )[j].1,
        decreases rest@.len(),
    {
        let ghost i = all.len() - rest@.len();
        let ghost before = references(views.take(i));
        let ghost left = rest@.len() as int;
        let pair = rest.pop().unwrap();
        proof {
            assert(pair == all[i]);
            assert(rest@ =~= all.reverse().take(left - 1));
            assert(views.take(i + 1).drop_last() =~= views.take(i));
            assert(views.take(i + 1).last() == views[i]);
            lemma_defined_short(before);
            lemma_references_short(views.take(i));
        }
        match has_both(pair) {
            Some((active_region, def_region)) => {
                if active_region != def_region {
                    let ghost now = references(views.take(i + 1));
                    assert(now == before.push((active_region@, def_region@)));
                    assert(now.drop_last() =~= before);
                    let def_id = registry.get_or_register(def_region);
                    active_regions.push(
                        ActiveRegion { definition_id: def_id, region: active_region },
                    );
                }
            },
            None => {},
        }
    }
    proof {
        assert(views.take(all.len() as int) =~= views);
    }
    let definitions = registry.generate();
    (active_regions, definitions)
}

/// There are no more references than pairs.
pub proof fn lemma_references_short(pairs: Seq<(Option<RegionView>, Option<RegionView>)>)
    ensures
        references(pairs).len() <= pairs.len(),
    decreases pairs.len(),
{
    if pairs.len() > 0 {
        lemma_references_short(pairs.drop_last());
    }
}

/// There are no more definitions than references.
pub proof fn lemma_defined_short(refs: Seq<(RegionView, RegionView)>)
    ensures
        defined(refs).len() <= refs.len(),
    decreases refs.len(),
{
    if refs.len() > 0 {
        lemma_defined_short(refs.drop_last());
    }
}

/// The references among pairs listed one after the other are those of the
/// first list followed by those of the second.
pub proof fn lemma_references_concat(
    a: Seq<(Option<RegionView>, Option<RegionView>)>,
    b: Seq<(Option<RegionView>, Option<RegionView>)>,
)
    ensures
        references(a + b) == references(a) + references(b),
    decreases b.len(),
{
    if b.len() == 0 {
        assert(a + b =~= a);
        assert(references(a) + references(b) =~= references(a));
    } else {
        lemma_references_concat(a, b.drop_last());
        assert((a + b).drop_last() =~= a + b.drop_last());
        assert((a + b).last() == b.last());
        if is_reference(b.last()) {
            let r = (b.last().0.unwrap(), b.last().1.unwrap());
            assert((references(a) + references(b.drop_last())).push(r) =~= references(a)
                + references(b.drop_last()).push(r));
        }
    }
}

/// A pair that refers to its own place, or lacks a side, leaves no trace in
/// the index: the references, and with them the active regions and the
/// definitions, are those of the other pairs.
pub proof fn lemma_self_reference_excluded(
    pairs: Seq<(Option<RegionView>, Option<RegionView>)>,
    i: int,
)
    requires
        0 <= i < pairs.len(),
        pairs[i].0 == pairs[i].1 || pairs[i].0 is None || pairs[i].1 is None,
    ensures
        references(pairs) == references(pairs.remove(i)),
        pairs.len() == 1 ==> references(pairs).len() == 0 && defined(references(pairs)).len() == 0,
{
    let front = pairs.take(i);
    let one = seq![pairs[i]];
    let back = pairs.skip(i + 1);
    assert(pairs =~= front + one + back);
    assert(pairs.remove(i) =~= front + back);
    lemma_references_concat(front + one, back);
    lemma_references_concat(front, one);
    lemma_references_concat(front, back);
    assert(one.drop_last().len() == 0);
    assert(references(one.drop_last()).len() == 0);
    assert(references(one) =~= Seq::empty());
    assert(references(front) + references(one) =~= references(front));
    if pairs.len() == 1 {
        assert(pairs.remove(i) =~= Seq::empty());
    }
}

/// Every place referred to is defined exactly once, however many references
/// point to it: references to the same place carry the same number.
pub proof fn lemma_shared_definition(
    refs: Seq<(RegionView, RegionView)>,
    j1: int,
    j2: int,
    id1: int,
    id2: int,
)
    requires
        0 <= j1 < refs.len(),
        0 <= j2 < refs.len(),
        refs[j1].1 == refs[j2].1,
        0 <= id1 < defined(refs).len(),
        0 <= id2 < defined(refs).len(),
        defined(refs)[id1] == refs[j1].1,
        defined(refs)[id2] == refs[j2].1,
    ensures
        id1 == id2,
        defined(refs).to_multiset().count(refs[j1].1) == 1,
{
    lemma_defined_once(refs);
    let defs = defined(refs);
    assert(defs.contains(refs[j1].1));
    defs.lemma_multiset_has_no_duplicates();
    vstd::seq_lib::to_multiset_contains(defs, refs[j1].1);
}

/// Two references to one place give two active regions and one definition.
pub proof fn lemma_two_references_one_definition(
    first: RegionView,
    second: RegionView,
    definition: RegionView,
)
    requires
        first != definition,
        second != definition,
    ensures
        references(seq![(Some(first), Some(definition)), (Some(second), Some(definition))])
            == seq![(first, definition), (second, definition)],
        defined(seq![(first, definition), (second, definition)]) == seq![definition],
{
    let pairs = seq![(Some(first), Some(definition)), (Some(second), Some(definition))];
    let one = seq![(Some(first), Some(definition))];
    assert(pairs.drop_last() =~= one);
    assert(one.drop_last().len() == 0);
    assert(references(one.drop_last()).len() == 0);
    assert(references(one) =~= seq![(first, definition)]);
    assert(references(pairs) =~= seq![(first, definition), (second, definition)]);
    let refs = seq![(first, definition), (second, definition)];
    let head = seq![(first, definition)];
    assert(refs.drop_last() =~= head);
    assert(head.drop_last().len() == 0);
    assert(defined(head.drop_last()).len() == 0);
    assert(!defined(head.drop_last()).contains(definition));
    assert(defined(head) =~= seq![definition]);
    assert(defined(head)[0] == definition);
    assert(defined(refs) =~= seq![definition]);
}

} // verus!
