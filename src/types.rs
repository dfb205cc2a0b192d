//! Block types and the per-chunk record as it is stored on disk.
use std::collections::HashMap;
use vstd::prelude::*;

verus! {

/// Declares hematite-nbt's `nbt::Value`, a value of the tag format, so
/// that the chunk record can carry such values through untouched. Nothing
/// is assumed of what a value holds.
#[verifier::external_type_specification]
#[verifier::external_body]
pub struct ExTagValue(nbt::Value);

/// Relies on the `Clone` that `nbt::Value` derives: the copy is the same
/// value.
pub assume_specification[ <nbt::Value as Clone>::clone ](v: &nbt::Value) -> (r: nbt::Value)
    ensures
        r == *v,
;

/// A copy of a list of tag values.
pub fn copy_tags(v: &Vec<nbt::Value>) -> (r: Vec<nbt::Value>)
    ensures
        r@ == v@,
{
    let r = v.clone();
    assert(r@ =~= v@);
    r
}

/// A copy of a list of lists of tag values.
pub fn copy_tag_lists(v: &Vec<Vec<nbt::Value>>) -> (r: Vec<Vec<nbt::Value>>)
    ensures
        r@.len() == v@.len(),
        forall|i: int| 0 <= i < v@.len() ==> (#[trigger] r@[i])@ == v@[i]@,
{
    let mut r: Vec<Vec<nbt::Value>> = Vec::new();
    let mut i: usize = 0;
    while i < v.len()
        invariant
            i <= v@.len(),
            r@.len() == i,
            forall|k: int| 0 <= k < i ==> (#[trigger] r@[k])@ == v@[k]@,
        decreases v@.len() - i,
    {
        r.push(copy_tags(&v[i]));
        i = i + 1;
    }
    r
}

/// A property name and its value, as plain text.
pub type PropertyView = (Seq<char>, Seq<char>);

/// The set of property pairs held by `props`.
pub open spec fn property_set(props: Seq<(String, String)>) -> Set<PropertyView> {
    Set::new(|p: PropertyView| exists|i: int| 0 <= i < props.len() && (#[trigger] props[i]).0@ == p.0 && props[i].1@ == p.1)
}

/// The pairs of `s` whose name is not `k`.
pub open spec fn drop_key(s: Set<PropertyView>, k: Seq<char>) -> Set<PropertyView> {
    Set::new(|p: PropertyView| s.contains(p) && p.0 != k)
}

/// Whether the property names of `props` are pairwise distinct.
pub open spec fn distinct_keys(props: Seq<(String, String)>) -> bool {
    forall|i: int, j: int| 0 <= i < j < props.len() ==> (#[trigger] props[i]).0@ != (#[trigger] props[j]).0@
}

/// A kind of block: a namespaced name and a set of property assignments.
/// Two block types are the same when their names and their property sets
/// agree; the order in which the properties were given does not matter.
#[derive(Clone, Debug)]
pub struct BlockType {
    pub name: String,
    pub properties: Vec<(String, String)>,
}

impl View for BlockType {
    type V = (Seq<char>, Set<PropertyView>);

    open spec fn view(&self) -> (Seq<char>, Set<PropertyView>) {
        (self.name@, property_set(self.properties@))
    }
}

/// Whether `props` holds the pair `(k, v)`.
fn has_property(props: &Vec<(String, String)>, k: &String, v: &String) -> (r: bool)
    ensures
        r == property_set(props@).contains((k@, v@)),
{
    let mut i: usize = 0;
    while i < props.len()
        invariant
            i <= props.len(),
            forall|j: int| 0 <= j < i ==> !((#[trigger] props@[j]).0@ == k@ && props@[j].1@ == v@),
        decreases props.len() - i,
    {
        if props[i].0 == *k && props[i].1 == *v {
            assert(property_set(props@).contains((k@, v@)));
            return true;
        }
        i = i + 1;
    }
    false
}

/// Whether every pair of `a` is also in `b`.
fn properties_within(a: &Vec<(String, String)>, b: &Vec<(String, String)>) -> (r: bool)
    ensures
        r == property_set(a@).subset_of(property_set(b@)),
{
    let mut i: usize = 0;
    while i < a.len()
        invariant
            i <= a.len(),
            forall|j: int| 0 <= j < i ==> property_set(b@).contains(((#[trigger] a@[j]).0@, a@[j].1@)),
        decreases a.len() - i,
    {
        if !has_property(b, &a[i].0, &a[i].1) {
            assert(property_set(a@).contains((a@[i as int].0@, a@[i as int].1@)));
            return false;
        }
        i = i + 1;
    }
    true
}

impl BlockType {
    /// A block type with the given name and no properties.
    pub fn new(name: &str) -> (r: BlockType)
        ensures
            r@ == (name@, Set::<PropertyView>::empty()),
            r.properties@.len() == 0,
    {
        let r = BlockType { name: name.to_owned(), properties: Vec::new() };
        assert(property_set(r.properties@) =~= Set::<PropertyView>::empty());
        r
    }

    /// This block type with property `key` set to `value`, replacing any
    /// earlier value of that property.
    pub fn with_property(self, key: &str, value: &str) -> (r: BlockType)
        requires
            distinct_keys(self.properties@),
        ensures
            r.name@ == self.name@,
            distinct_keys(r.properties@),
            r@.1 == drop_key(property_set(self.properties@), key@).insert(
                (key@, value@),
            ),
    {
        let key_s = key.to_owned();
        let mut kept: Vec<(String, String)> = Vec::new();
        let mut i: usize = 0;
        while i < self.properties.len()
            invariant
                i <= self.properties.len(),
                distinct_keys(self.properties@),
                key_s@ == key@,
                forall|j: int| 0 <= j < kept.len() ==> (#[trigger] kept@[j]).0@ != key@,
                distinct_keys(kept@),
                forall|j: int|
                    0 <= j < kept.len() ==> exists|m: int|
                        0 <= m < i && #[trigger] kept@[j].0@ == self.properties@[m].0@
                            && kept@[j].1@ == self.properties@[m].1@,
                property_set(kept@) == drop_key(property_set(self.properties@.subrange(0, i as int)), key@),
            decreases self.properties.len() - i,
        {
            let ghost before = kept@;
            let differs = !(self.properties[i].0 == key_s);
            if differs {
                let k = self.properties[i].0.clone();
                let v = self.properties[i].1.clone();
                kept.push((k, v));
                assert forall|j: int| 0 <= j < kept@.len() - 1 implies (#[trigger] kept@[j]).0@
                    != kept@[kept@.len() - 1].0@ by {
                    let m = choose|m: int|
                        0 <= m < i && kept@[j].0@ == self.properties@[m].0@ && kept@[j].1@
                            == self.properties@[m].1@;
                    assert(self.properties@[m].0@ != self.properties@[i as int].0@);
                }
            }
            proof {
                let s0 = self.properties@.subrange(0, i as int);
                let s1 = self.properties@.subrange(0, i + 1);
                let pushed = kept@.len() > before.len();
                assert(pushed == differs);
                assert(pushed ==> kept@[before.len() as int].0@ == self.properties@[i as int].0@);
                assert(pushed ==> kept@[before.len() as int].1@ == self.properties@[i as int].1@);
                assert(forall|m: int| 0 <= m < i ==> s1[m] == s0[m]);
                assert(s1[i as int] == self.properties@[i as int]);
                assert(forall|j: int| 0 <= j < before.len() ==> kept@[j] == before[j]);
                assert forall|p: PropertyView| #[trigger] property_set(kept@).contains(p) implies drop_key(property_set(s1), key@).contains(p) by {
                    let j = choose|j: int| 0 <= j < kept@.len() && (#[trigger] kept@[j]).0@ == p.0 && kept@[j].1@ == p.1;
                    if j < before.len() {
                        assert(before[j] == kept@[j]);
                        assert(property_set(before).contains(p));
                        assert(drop_key(property_set(s0), key@).contains(p));
                        let m = choose|m: int| 0 <= m < s0.len() && (#[trigger] s0[m]).0@ == p.0 && s0[m].1@ == p.1;
                        assert(s1[m] == s0[m]);
                    } else {
                        assert(pushed);
                        assert(j == before.len());
                        assert(s1[i as int].0@ == p.0);
                        assert(property_set(s1).contains(p));
                    }
                }
                assert forall|p: PropertyView| #[trigger] drop_key(property_set(s1), key@).contains(p) implies property_set(kept@).contains(p) by {
                    let m = choose|m: int| 0 <= m < s1.len() && (#[trigger] s1[m]).0@ == p.0 && s1[m].1@ == p.1;
                    if m < i {
                        assert(s0[m] == s1[m]);
                        assert(property_set(s0).contains(p));
                        assert(drop_key(property_set(s0), key@).contains(p));
                        assert(property_set(before).contains(p));
                        let j = choose|j: int| 0 <= j < before.len() && (#[trigger] before[j]).0@ == p.0 && before[j].1@ == p.1;
                        assert(kept@[j] == before[j]);
                    } else {
                        assert(pushed);
                        assert(kept@[before.len() as int].0@ == p.0);
                    }
                }
                assert(property_set(kept@) =~= drop_key(property_set(s1), key@));
            }
            i = i + 1;
        }
        assert(self.properties@.subrange(0, self.properties@.len() as int) == self.properties@);
        let ghost before = kept@;
        kept.push((key_s, value.to_owned()));
        let r = BlockType { name: self.name, properties: kept };
        proof {
            assert(property_set(kept@) =~= property_set(before).insert((key@, value@))) by {
                assert forall|p: PropertyView| #[trigger] property_set(kept@).contains(p) implies property_set(before).insert((key@, value@)).contains(p) by {
                    let j = choose|j: int| 0 <= j < kept@.len() && kept@[j].0@ == p.0 && kept@[j].1@ == p.1;
                    if j < before.len() {
                        assert(before[j] == kept@[j]);
                    }
                }
                assert forall|p: PropertyView| #[trigger] property_set(before).insert((key@, value@)).contains(p) implies property_set(kept@).contains(p) by {
                    if p != (key@, value@) {
                        let j = choose|j: int| 0 <= j < before.len() && (#[trigger] before[j]).0@ == p.0 && before[j].1@ == p.1;
                        assert(kept@[j] == before[j]);
                    } else {
                        assert(kept@[kept@.len() - 1].0@ == p.0);
                    }
                }
            }
        }
        r
    }

    /// Whether `self` and `other` are the same block type.
    pub fn same_as(&self, other: &BlockType) -> (r: bool)
        ensures
            r == (self@ == other@),
    {
        let r = self.name == other.name && properties_within(&self.properties, &other.properties)
            && properties_within(&other.properties, &self.properties);
        proof {
            if r {
                assert(property_set(self.properties@) =~= property_set(other.properties@));
            }
        }
        r
    }

    /// A copy of this block type.
    pub fn duplicate(&self) -> (r: BlockType)
        ensures
            r@ == self@,
            r.properties@.len() == self.properties@.len(),
            distinct_keys(self.properties@) ==> distinct_keys(r.properties@),
    {
        let mut props: Vec<(String, String)> = Vec::new();
        let mut i: usize = 0;
        while i < self.properties.len()
            invariant
                i <= self.properties.len(),
                props@.len() == i,
                forall|j: int| 0 <= j < i ==> (#[trigger] props@[j]).0@ == self.properties@[j].0@
                    && props@[j].1@ == self.properties@[j].1@,
            decreases self.properties.len() - i,
        {
            props.push((self.properties[i].0.clone(), self.properties[i].1.clone()));
            i = i + 1;
        }
        let r = BlockType { name: self.name.clone(), properties: props };
        assert(property_set(r.properties@) =~= property_set(self.properties@)) by {
            assert forall|p: PropertyView| #[trigger] property_set(self.properties@).contains(p) implies property_set(r.properties@).contains(p) by {
                let j = choose|j: int| 0 <= j < self.properties@.len() && (#[trigger] self.properties@[j]).0@ == p.0 && self.properties@[j].1@ == p.1;
                assert(r.properties@[j].0@ == p.0);
            }
            assert forall|p: PropertyView| #[trigger] property_set(r.properties@).contains(p) implies property_set(self.properties@).contains(p) by {
                let j = choose|j: int| 0 <= j < r.properties@.len() && (#[trigger] r.properties@[j]).0@ == p.0 && r.properties@[j].1@ == p.1;
                assert(self.properties@[j].0@ == p.0);
            }
        }
        r
    }
}

impl PartialEq for BlockType {
    fn eq(&self, other: &BlockType) -> (r: bool) {
        self.same_as(other)
    }
}

impl vstd::std_specs::cmp::PartialEqSpecImpl for BlockType {
    open spec fn obeys_eq_spec() -> bool {
        true
    }

    open spec fn eq_spec(&self, other: &BlockType) -> bool {
        self@ == other@
    }
}

/// The biomes of a section.
#[derive(Clone, Debug)]
pub struct Biomes {
    pub palette: Vec<String>,
}

/// The stored block contents of a section: its palette and, unless the
/// section is uniform, the packed index fields.
#[derive(Clone, Debug)]
pub struct BlockStates {
    pub palette: Vec<BlockType>,
    pub data: Option<Vec<i64>>,
}

/// One section as stored in a chunk record.
#[derive(Clone, Debug)]
pub struct Section {
    pub biomes: Biomes,
    pub block_states: Option<BlockStates>,
    pub sky_light: Option<Vec<i8>>,
    pub y: i8,
}

/// Structure references and starts of a chunk.
#[derive(Clone, Debug)]
pub struct Structures {
    pub references: HashMap<String, Vec<i64>>,
    pub starts: HashMap<String, nbt::Value>,
}

/// A chunk record as stored in a region file.
#[derive(Clone, Debug)]
pub struct ChunkData {
    pub height_maps: HashMap<String, Vec<i64>>,
    pub structures: Structures,
    pub block_entities: Vec<nbt::Value>,
    pub block_ticks: Vec<nbt::Value>,
    pub fluid_ticks: Vec<nbt::Value>,
    pub post_processing: Vec<Vec<nbt::Value>>,
    pub sections: Vec<Section>,
    pub data_version: i32,
    pub inhabitied_time: Option<i64>,
    pub is_light_on: Option<bool>,
    pub last_update: i64,
    pub x_pos: i32,
    pub y_pos: i32,
    pub z_pos: i32,
    pub status: String,
}

} // verus!
