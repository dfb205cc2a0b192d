//! A chunk: 24 stacked sections plus the rest of its record, carried
//! through unchanged.
use crate::palette::BlockView;
use crate::section::{air, cell_index, decodes, encodes, is_fresh, lemma_section_round_trip, Section};
use crate::types;
use crate::types::{copy_tag_lists, copy_tags, BlockType, ChunkData};
use std::collections::HashMap;
use vstd::prelude::*;

verus! {

/// `r` carries every field of the record `d` other than its sections as
/// it is.
pub open spec fn keeps_record(d: ChunkData, r: ChunkData) -> bool {
    &&& r.height_maps@ == d.height_maps@
    &&& r.structures.references@ == d.structures.references@
    &&& r.structures.starts@ == d.structures.starts@
    &&& r.block_entities@ == d.block_entities@
    &&& r.block_ticks@ == d.block_ticks@
    &&& r.fluid_ticks@ == d.fluid_ticks@
    &&& r.post_processing@.len() == d.post_processing@.len()
    &&& forall|i: int| 0 <= i < d.post_processing@.len() ==> (#[trigger] r.post_processing@[i])@ == d.post_processing@[i]@
    &&& r.data_version == d.data_version
    &&& r.inhabitied_time == d.inhabitied_time
    &&& r.is_light_on == d.is_light_on
    &&& r.last_update == d.last_update
    &&& r.x_pos == d.x_pos
    &&& r.y_pos == d.y_pos
    &&& r.z_pos == d.z_pos
    &&& r.status@ == d.status@
}

/// Sections in a chunk.
pub const CHUNK_SECTIONS: usize = 24;

/// Why a chunk record could not be turned into a chunk.
#[derive(Clone, Copy, Debug, PartialEq, Eq)]
pub enum ChunkError {
    /// The record does not hold exactly 24 sections.
    WrongSectionCount,
    /// The section at this position has packed cells that cannot be decoded.
    MalformedSection(usize),
}

/// Chunk-local height of world height `y` for a chunk whose lowest section
/// sits at section height `y_pos`.
pub open spec fn local_y(y_pos: i32, y: int) -> int {
    y - y_pos * 16
}

/// Whether world height `y` lies inside a chunk whose lowest section sits
/// at section height `y_pos`.
pub open spec fn height_in_chunk(y_pos: i32, y: int) -> bool {
    0 <= local_y(y_pos, y) < 384
}

/// A chunk in memory: its stored record, kept for everything but the
/// sections, and its 24 editable sections from the lowest up.
#[derive(Clone, Debug)]
pub struct Chunk {
    pub data: ChunkData,
    pub dirty: bool,
    pub sections: Vec<Section>,
}

impl Chunk {
    /// 24 well-formed sections.
    pub open spec fn wf(&self) -> bool {
        &&& self.sections@.len() == CHUNK_SECTIONS
        &&& forall|i: int| 0 <= i < CHUNK_SECTIONS ==> (#[trigger] self.sections@[i]).wf()
    }

    /// The block type at (x, y, z): x and z inside the chunk, y in world
    /// height.
    pub open spec fn block(&self, x: int, y: int, z: int) -> BlockView {
        let ly = local_y(self.data.y_pos, y);
        self.sections@[ly / 16].cells()[cell_index(x, ly % 16, z)]
    }

    /// What `from_data(data)` returns: an error exactly when the record
    /// does not hold 24 sections or one of them cannot be decoded (the
    /// first such), else the chunk of the decoded sections with the record
    /// kept.
    pub open spec fn from_data_gives(data: ChunkData, r: Result<Chunk, ChunkError>) -> bool {
        &&& (data.sections@.len() != CHUNK_SECTIONS <==> r == Err::<Chunk, ChunkError>(ChunkError::WrongSectionCount))
        &&& (r matches Err(ChunkError::MalformedSection(i)) ==> i < CHUNK_SECTIONS && decodes(data.sections@[i as int], None)
                && forall|k: int| 0 <= k < i ==> !decodes(#[trigger] data.sections@[k], None))
        &&& (r is Ok <==> data.sections@.len() == CHUNK_SECTIONS && forall|k: int| 0 <= k < CHUNK_SECTIONS ==> !decodes(#[trigger] data.sections@[k], None))
        &&& (r matches Ok(c) ==> {
            &&& c.wf()
            &&& c.data == data
            &&& forall|k: int| 0 <= k < CHUNK_SECTIONS ==> decodes(#[trigger] data.sections@[k], Some(c.sections@[k]))
        })
    }

    /// What `to_nbt()` of `c` returns: a record whose position is the
    /// chunk's and whose 24 sections are the chunk's, encoded and stamped
    /// with their section heights.
    pub open spec fn to_nbt_gives(c: Chunk, r: ChunkData) -> bool {
        &&& keeps_record(c.data, r)
        &&& r.sections@.len() == CHUNK_SECTIONS
        &&& forall|i: int|
            0 <= i < CHUNK_SECTIONS ==> encodes(c.sections@[i], (c.data.y_pos + i) as i8, #[trigger] r.sections@[i])
    }

    /// An empty chunk at chunk coordinates (x, z): 24 sections of air from
    /// section height -4 up.
    pub fn new(x: i32, z: i32) -> (r: Chunk)
        ensures
            r.wf(),
            r.data.x_pos == x,
            r.data.z_pos == z,
            r.data.y_pos == -4,
            r.data.data_version == 2865,
            r.data.status@ == "full"@,
            r.data.last_update == 0,
            r.data.inhabitied_time is None,
            r.data.is_light_on == Some(true),
            r.data.height_maps@ == Map::<String, Vec<i64>>::empty(),
            r.data.structures.references@ == Map::<String, Vec<i64>>::empty(),
            r.data.structures.starts@ == Map::<String, nbt::Value>::empty(),
            r.data.block_entities@.len() == 0,
            r.data.block_ticks@.len() == 0,
            r.data.fluid_ticks@.len() == 0,
            r.data.post_processing@.len() == CHUNK_SECTIONS,
            forall|i: int| 0 <= i < CHUNK_SECTIONS ==> (#[trigger] r.data.post_processing@[i])@.len() == 0,
            r.data.sections@.len() == CHUNK_SECTIONS,
            forall|i: int| 0 <= i < CHUNK_SECTIONS ==> (#[trigger] r.data.sections@[i]).block_states is Some
                && r.data.sections@[i].block_states->0.data is None
                && r.data.sections@[i].block_states->0.palette@.len() == 1
                && r.data.sections@[i].block_states->0.palette@[0]@ == air(),
            forall|i: int| 0 <= i < CHUNK_SECTIONS ==> #[trigger] is_fresh(r.sections@[i]),
            forall|i: int| 0 <= i < CHUNK_SECTIONS ==> (#[trigger] r.data.sections@[i]).y == -4 + i,
            forall|i: int| 0 <= i < CHUNK_SECTIONS ==> (#[trigger] r.sections@[i]).cells() == Seq::new(4096, |k: int| air()),
            forall|i: int| 0 <= i < CHUNK_SECTIONS ==> (#[trigger] r.sections@[i]).palette.entries@.len() == 1,
    {
        let mut records: Vec<types::Section> = Vec::new();
        let mut sections: Vec<Section> = Vec::new();
        let mut i: usize = 0;
        while i < CHUNK_SECTIONS
            invariant
                i <= CHUNK_SECTIONS,
                records@.len() == i,
                sections@.len() == i,
                forall|k: int| 0 <= k < i ==> (#[trigger] records@[k]).y == -4 + k,
                forall|k: int| 0 <= k < i ==> (#[trigger] records@[k]).block_states is Some
                    && records@[k].block_states->0.data is None
                    && records@[k].block_states->0.palette@.len() == 1
                    && records@[k].block_states->0.palette@[0]@ == air(),
                forall|k: int| 0 <= k < i ==> #[trigger] is_fresh(sections@[k]),
                forall|k: int| 0 <= k < i ==> (#[trigger] sections@[k]).wf(),
                forall|k: int| 0 <= k < i ==> (#[trigger] sections@[k]).palette.entries@.len() == 1,
                forall|k: int| 0 <= k < i ==> (#[trigger] sections@[k]).cells() == Seq::new(4096, |m: int| air()),
            decreases CHUNK_SECTIONS - i,
        {
            let mut biomes = Vec::new();
            biomes.push("minecraft:plains".to_owned());
            let mut palette = Vec::new();
            palette.push(BlockType::new("minecraft:air"));
            records.push(
                types::Section {
                    biomes: types::Biomes { palette: biomes },
                    block_states: Some(types::BlockStates { palette, data: None }),
                    sky_light: None,
                    y: (i as i8) - 4,
                },
            );
            sections.push(Section::new());
            i = i + 1;
        }
        let mut post_processing: Vec<Vec<nbt::Value>> = Vec::new();
        let mut p: usize = 0;
        while p < CHUNK_SECTIONS
            invariant
                p <= CHUNK_SECTIONS,
                post_processing@.len() == p,
                forall|k: int| 0 <= k < p ==> (#[trigger] post_processing@[k])@.len() == 0,
            decreases CHUNK_SECTIONS - p,
        {
            post_processing.push(Vec::new());
            p = p + 1;
        }
        Chunk {
            data: ChunkData {
                height_maps: HashMap::new(),
                structures: types::Structures { references: HashMap::new(), starts: HashMap::new() },
                block_entities: Vec::new(),
                block_ticks: Vec::new(),
                fluid_ticks: Vec::new(),
                post_processing,
                sections: records,
                data_version: 2865,
                inhabitied_time: None,
                is_light_on: Some(true),
                last_update: 0,
                x_pos: x,
                y_pos: -4,
                z_pos: z,
                status: "full".to_owned(),
            },
            dirty: false,
            sections,
        }
    }

    /// A chunk from its stored record: each of the 24 section records is
    /// decoded, and the record itself is kept as it is.
    pub fn from_data(data: ChunkData) -> (r: Result<Chunk, ChunkError>)
        ensures
            Chunk::from_data_gives(data, r),
    {
        if data.sections.len() != CHUNK_SECTIONS {
            return Err(ChunkError::WrongSectionCount);
        }
        let mut sections: Vec<Section> = Vec::new();
        let mut i: usize = 0;
        while i < CHUNK_SECTIONS
            invariant
                i <= CHUNK_SECTIONS,
                data.sections@.len() == CHUNK_SECTIONS,
                sections@.len() == i,
                forall|k: int| 0 <= k < i ==> !decodes(#[trigger] data.sections@[k], None),
                forall|k: int| 0 <= k < i ==> decodes(#[trigger] data.sections@[k], Some(sections@[k])),
                forall|k: int| 0 <= k < i ==> (#[trigger] sections@[k]).wf(),
            decreases CHUNK_SECTIONS - i,
        {
            match Section::from_data(&data.sections[i]) {
                Some(s) => {
                    proof {
                        lemma_decodes_unique(data.sections@[i as int], s);
                    }
                    sections.push(s);
                },
                None => {
                    return Err(ChunkError::MalformedSection(i));
                },
            }
            i = i + 1;
        }
        Ok(Chunk { data, dirty: false, sections })
    }

    /// Sets the block at (x, y, z) to `block`: x and z inside the chunk, y in
    /// world height.
    pub fn set_block(&mut self, x: i32, y: i32, z: i32, block: &BlockType)
        requires
            old(self).wf(),
            0 <= x < 16,
            0 <= z < 16,
            height_in_chunk(old(self).data.y_pos, y as int),
            old(self).sections@[local_y(old(self).data.y_pos, y as int) / 16].palette.types().contains(block@)
                || old(self).sections@[local_y(old(self).data.y_pos, y as int) / 16].palette.entries@.len() < 65536,
        ensures
            final(self).wf(),
            final(self).data == old(self).data,
            forall|k: int| 0 <= k < CHUNK_SECTIONS && k != local_y(old(self).data.y_pos, y as int) / 16
                ==> #[trigger] final(self).sections@[k] == old(self).sections@[k],
            final(self).sections@[local_y(old(self).data.y_pos, y as int) / 16].cells()
                == old(self).sections@[local_y(old(self).data.y_pos, y as int) / 16].cells().update(
                    cell_index(x as int, local_y(old(self).data.y_pos, y as int) % 16, z as int),
                    block@,
                ),
            final(self).block(x as int, y as int, z as int) == block@,
    {
        let ly = (y as i64) - (self.data.y_pos as i64) * 16;
        let section_index = (ly / 16) as usize;
        let section_y = (ly % 16) as i32;
        let ghost before = self.sections@;
        self.sections[section_index].set_block(x, section_y, z, block);
        proof {
            assert forall|k: int| 0 <= k < CHUNK_SECTIONS implies (#[trigger] self.sections@[k]).wf() by {
                if k != section_index {
                    assert(self.sections@[k] == before[k]);
                }
            }
        }
    }
}

impl Chunk {
    /// The block type at (x, y, z): x and z inside the chunk, y in world
    /// height.
    pub fn get_block(&self, x: i32, y: i32, z: i32) -> (r: BlockType)
        requires
            self.wf(),
            0 <= x < 16,
            0 <= z < 16,
            height_in_chunk(self.data.y_pos, y as int),
        ensures
            r@ == self.block(x as int, y as int, z as int),
    {
        let ly = (y as i64) - (self.data.y_pos as i64) * 16;
        self.sections[(ly / 16) as usize].block_at(x, (ly % 16) as i32, z)
    }

    /// Whether setting a block of type `block` at world height `y` keeps the
    /// section's palette within 65536 entries.
    pub fn has_room_for(&self, y: i32, block: &BlockType) -> (r: bool)
        requires
            self.wf(),
            height_in_chunk(self.data.y_pos, y as int),
        ensures
            r == (self.sections@[local_y(self.data.y_pos, y as int) / 16].palette.types().contains(block@)
                || self.sections@[local_y(self.data.y_pos, y as int) / 16].palette.entries@.len() < 65536),
    {
        let ly = (y as i64) - (self.data.y_pos as i64) * 16;
        let palette = &self.sections[(ly / 16) as usize].palette;
        palette.len() < 65536 || palette.find(block).is_some()
    }

    /// The stored record of this chunk: the record it was made from, with
    /// each section replaced by its freshly encoded form, stamped with its
    /// section height `y_pos + i` (kept to its low 8 bits).
    pub fn to_nbt(&self) -> (r: ChunkData)
        requires
            self.wf(),
        ensures
            Chunk::to_nbt_gives(*self, r),
    {
        let mut records: Vec<types::Section> = Vec::new();
        let mut i: usize = 0;
        while i < CHUNK_SECTIONS
            invariant
                i <= CHUNK_SECTIONS,
                self.wf(),
                records@.len() == i,
                forall|k: int|
                    0 <= k < i ==> encodes(self.sections@[k], (self.data.y_pos + k) as i8, #[trigger] records@[k]),
            decreases CHUNK_SECTIONS - i,
        {
            #[verifier::truncate]
            let y = ((self.data.y_pos as i64) + (i as i64)) as i8;
            records.push(self.sections[i].to_nbt(y));
            i = i + 1;
        }
        let d = &self.data;
        ChunkData {
            height_maps: d.height_maps.clone(),
            structures: types::Structures {
                references: d.structures.references.clone(),
                starts: d.structures.starts.clone(),
            },
            block_entities: copy_tags(&d.block_entities),
            block_ticks: copy_tags(&d.block_ticks),
            fluid_ticks: copy_tags(&d.fluid_ticks),
            post_processing: copy_tag_lists(&d.post_processing),
            sections: records,
            data_version: d.data_version,
            inhabitied_time: d.inhabitied_time,
            is_light_on: d.is_light_on,
            last_update: d.last_update,
            x_pos: d.x_pos,
            y_pos: d.y_pos,
            z_pos: d.z_pos,
            status: d.status.clone(),
        }
    }
}

/// Storing a chunk and decoding the record gives back a chunk with the
/// same position and the same block type everywhere.
pub proof fn lemma_chunk_round_trip(c: Chunk, record: ChunkData, back: Result<Chunk, ChunkError>)
    requires
        c.wf(),
        Chunk::to_nbt_gives(c, record),
        Chunk::from_data_gives(record, back),
    ensures
        back is Ok,
        keeps_record(c.data, back->Ok_0.data),
        back->Ok_0.data.y_pos == c.data.y_pos,
        back->Ok_0.data.x_pos == c.data.x_pos,
        back->Ok_0.data.z_pos == c.data.z_pos,
        forall|k: int| 0 <= k < CHUNK_SECTIONS ==> (#[trigger] back->Ok_0.sections@[k]).cells() == c.sections@[k].cells(),
        forall|x: int, y: int, z: int|
            height_in_chunk(c.data.y_pos, y) ==> #[trigger] back->Ok_0.block(x, y, z) == c.block(x, y, z),
{
    assert forall|k: int| 0 <= k < CHUNK_SECTIONS implies !decodes(#[trigger] record.sections@[k], None) by {
        if decodes(record.sections@[k], None) {
            lemma_section_round_trip(c.sections@[k], (c.data.y_pos + k) as i8, record.sections@[k], None);
        }
    }
    let d = back->Ok_0;
    assert forall|k: int| 0 <= k < CHUNK_SECTIONS implies (#[trigger] d.sections@[k]).cells() == c.sections@[k].cells() by {
        lemma_section_round_trip(c.sections@[k], (c.data.y_pos + k) as i8, record.sections@[k], Some(d.sections@[k]));
    }
    assert forall|x: int, y: int, z: int| height_in_chunk(c.data.y_pos, y) implies #[trigger] d.block(x, y, z) == c.block(x, y, z) by {
        let ly = local_y(c.data.y_pos, y);
        assert(d.sections@[ly / 16].cells() == c.sections@[ly / 16].cells());
    }
}

/// Decoding a record and encoding the chunk again gives back every field
/// of the record but the sections as it was, and sections that decode to
/// the same blocks as the record's own.
pub proof fn lemma_record_round_trip(data: ChunkData, c: Chunk, r: ChunkData)
    requires
        Chunk::from_data_gives(data, Ok::<Chunk, ChunkError>(c)),
        Chunk::to_nbt_gives(c, r),
    ensures
        keeps_record(data, r),
        r.sections@.len() == data.sections@.len(),
        forall|k: int, back: Section|
            0 <= k < CHUNK_SECTIONS && #[trigger] decodes(r.sections@[k], Some(back)) ==> back.cells() == c.sections@[k].cells()
                && decodes(data.sections@[k], Some(c.sections@[k])),
{
    assert forall|k: int, back: Section|
        0 <= k < CHUNK_SECTIONS && #[trigger] decodes(r.sections@[k], Some(back)) implies back.cells() == c.sections@[k].cells()
            && decodes(data.sections@[k], Some(c.sections@[k])) by {
        lemma_section_round_trip(c.sections@[k], (c.data.y_pos + k) as i8, r.sections@[k], Some(back));
    }
}

proof fn lemma_decodes_unique(data: types::Section, s: Section)
    requires
        decodes(data, Some(s)),
    ensures
        !decodes(data, None),
{
}

} // verus!
