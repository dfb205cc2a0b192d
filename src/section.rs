//! One 16x16x16 cube of blocks, editable in memory and convertible to and
//! from its stored, bit-packed form.
use crate::bits::{
    clear_from, field_shift, filled_bits, lemma_field_layout, lemma_mask_is_pow2, lemma_word_fill,
    field_at, fields_per_word, get_data, lemma_bits_for_least, num_bits_for,
    num_data_bits, set_data, valid_width, words_needed,
};
use crate::palette::{BlockView, Palette};
use crate::types;
use crate::types::BlockType;
use vstd::arithmetic::power2::pow2;
use vstd::prelude::*;

verus! {

/// Cells in one section.
pub const SECTION_CELLS: usize = 4096;

/// How many times `v` occurs in `s`.
pub open spec fn occurrences(s: Seq<u16>, v: nat) -> nat
    decreases s.len(),
{
    if s.len() == 0 {
        0
    } else {
        occurrences(s.drop_last(), v) + if s.last() as nat == v {
            1nat
        } else {
            0nat
        }
    }
}

proof fn lemma_occurrences_bound(s: Seq<u16>, v: nat)
    ensures
        occurrences(s, v) <= s.len(),
    decreases s.len(),
{
    if s.len() > 0 {
        lemma_occurrences_bound(s.drop_last(), v);
    }
}

proof fn lemma_occurrences_update(s: Seq<u16>, i: int, a: u16, v: nat)
    requires
        0 <= i < s.len(),
    ensures
        occurrences(s.update(i, a), v) as int == occurrences(s, v) as int - (if s[i] as nat == v {
            1int
        } else {
            0int
        }) + (if a as nat == v {
            1int
        } else {
            0int
        }),
    decreases s.len(),
{
    let t = s.update(i, a);
    if i == s.len() - 1 {
        assert(t.drop_last() =~= s.drop_last());
    } else {
        assert(t.drop_last() =~= s.drop_last().update(i, a));
        lemma_occurrences_update(s.drop_last(), i, a, v);
    }
}

proof fn lemma_occurrences_zeros(n: nat, v: nat)
    ensures
        occurrences(Seq::new(n, |k: int| 0u16), v) == if v == 0 {
            n
        } else {
            0
        },
    decreases n,
{
    if n > 0 {
        assert(Seq::new(n, |k: int| 0u16).drop_last() =~= Seq::new((n - 1) as nat, |k: int| 0u16));
        lemma_occurrences_zeros((n - 1) as nat, v);
    }
}

/// The block type of the air that fills a new section.
pub open spec fn air() -> BlockView {
    ("minecraft:air"@, Set::empty())
}

/// Position of cell (x, y, z) in the cell array: y first, then z, then x,
/// with y scaled by 64.
pub open spec fn cell_index(x: int, y: int, z: int) -> int {
    y * 64 + z * 16 + x
}

/// The identities of the block types of a stored palette.
pub open spec fn palette_views(p: Seq<BlockType>) -> Seq<BlockView> {
    p.map_values(|b: BlockType| b@)
}

/// A section in memory: its biomes, its palette, and the palette index of
/// each cell. With no cell array the section is uniform: every cell holds
/// the palette's only entry.
#[derive(Clone, Debug)]
pub struct Section {
    pub biomes: Vec<String>,
    pub blocks: Option<Vec<u16>>,
    pub palette: Palette,
}

/// Whether `a` and `b` hold the same strings in the same order.
pub open spec fn same_strings(a: Seq<String>, b: Seq<String>) -> bool {
    &&& a.len() == b.len()
    &&& forall|i: int| 0 <= i < a.len() ==> (#[trigger] a[i])@ == b[i]@
}

fn copy_strings(v: &Vec<String>) -> (r: Vec<String>)
    ensures
        same_strings(r@, v@),
{
    let mut r: Vec<String> = Vec::new();
    let mut i: usize = 0;
    while i < v.len()
        invariant
            i <= v@.len(),
            r@.len() == i,
            forall|k: int| 0 <= k < i ==> (#[trigger] r@[k])@ == v@[k]@,
        decreases v@.len() - i,
    {
        r.push(v[i].clone());
        i = i + 1;
    }
    r
}

/// The largest of the first `n` indices of `b`, or -1 when `n` is 0.
pub open spec fn max_before(b: Seq<u16>, n: int) -> int
    decreases n,
{
    if n <= 0 {
        -1
    } else {
        let m = max_before(b, n - 1);
        if (b[n - 1] as int) > m {
            b[n - 1] as int
        } else {
            m
        }
    }
}

/// Palette indices appear in order of first use: each cell names an entry
/// already named by an earlier cell, or the next one.
pub open spec fn first_use_order(b: Seq<u16>) -> bool {
    forall|i: int| 0 <= i < b.len() ==> (#[trigger] b[i] as int) <= max_before(b, i) + 1
}

proof fn lemma_max_before_push(b: Seq<u16>, x: u16, n: int)
    requires
        0 <= n <= b.len(),
    ensures
        max_before(b.push(x), n) == max_before(b, n),
    decreases n,
{
    if n > 0 {
        lemma_max_before_push(b, x, n - 1);
    }
}

/// `s` is a section as `Section::new` makes it: no cell array, one air
/// entry with 4096 references, and the plains biome.
pub open spec fn is_fresh(s: Section) -> bool {
    &&& s.blocks is None
    &&& s.palette.types() == seq![air()]
    &&& s.palette.counts() == seq![4096nat]
    &&& s.biomes@.len() == 1
    &&& s.biomes@[0]@ == "minecraft:plains"@
}

/// `r` is the stored form of `s` at vertical slot `y`.
pub open spec fn encodes(s: Section, y: i8, r: types::Section) -> bool {
    &&& r.y == y
    &&& r.sky_light is None
    &&& same_strings(r.biomes.palette@, s.biomes@)
    &&& r.block_states is Some
    &&& palette_views(r.block_states->0.palette@) == s.palette.types()
    &&& match s.blocks {
        None => r.block_states->0.data is None,
        Some(b) => {
            let nb = num_bits_for(s.palette.entries@.len());
            &&& r.block_states->0.data is Some
            &&& valid_width(nb as u32)
            &&& nb == nb as u32
            &&& r.block_states->0.data->0@.len() == words_needed(SECTION_CELLS as nat, nb as u32)
            &&& forall|i: nat|
                i < SECTION_CELLS ==> #[trigger] field_at(nb as u32, r.block_states->0.data->0@, i)
                    == b@[i as int]
            &&& forall|w: int|
                0 <= w < r.block_states->0.data->0@.len() ==> clear_from(
                    #[trigger] r.block_states->0.data->0@[w] as u64,
                    filled_bits(nb as u32, w as nat, SECTION_CELLS as nat),
                )
        },
    }
}

/// Whether the packed cells `d` over a stored palette of `len` entries can
/// be decoded: the width fits, the array is long enough, and every field
/// names an entry.
pub open spec fn packed_cells_valid(len: nat, d: Seq<i64>) -> bool {
    let nb = num_bits_for(len);
    &&& len <= 65536
    &&& d.len() >= words_needed(SECTION_CELLS as nat, nb as u32)
    &&& forall|i: nat| i < SECTION_CELLS ==> (#[trigger] field_at(nb as u32, d, i) as nat) < len
}

/// `r` is what decoding the stored section `data` gives.
pub open spec fn decodes(data: types::Section, r: Option<Section>) -> bool {
    match data.block_states {
        None => r is Some && r->0.wf() && is_fresh(r->0) && r->0.cells() == Seq::new(4096, |i: int| air()),
        Some(st) => match st.data {
            None => r is Some && r->0.wf() && r->0.cells() == Seq::new(
                4096,
                |i: int|
                    if st.palette@.len() == 0 {
                        air()
                    } else {
                        st.palette@[0]@
                    },
            ) && if st.palette@.len() == 0 {
                is_fresh(r->0)
            } else {
                &&& r->0.blocks is None
                &&& r->0.palette.types() == seq![st.palette@[0]@]
                &&& r->0.palette.counts() == seq![4096nat]
                &&& same_strings(r->0.biomes@, data.biomes.palette@)
            },
            Some(d) => {
                let nb = num_bits_for(st.palette@.len());
                &&& (r is Some <==> packed_cells_valid(st.palette@.len(), d@))
                &&& r is Some ==> r->0.wf() && r->0.cells() == Seq::new(
                    4096,
                    |i: int| st.palette@[field_at(nb as u32, d@, i as nat) as int]@,
                )
                &&& r is Some ==> {
                    &&& r->0.blocks is Some
                    &&& first_use_order(r->0.blocks->0@)
                    &&& forall|j: int| 0 <= j < r->0.palette.entries@.len() ==> #[trigger] r->0.palette.counts()[j] >= 1
                    &&& same_strings(r->0.biomes@, data.biomes.palette@)
                }
            },
        },
    }
}

proof fn lemma_filled_step(nb: u32, i: nat, w: nat)
    requires
        valid_width(nb),
    ensures
        w == i / fields_per_word(nb) ==> filled_bits(nb, w, i) == field_shift(nb, i)
            && filled_bits(nb, w, i + 1) == field_shift(nb, i) + nb,
        w != i / fields_per_word(nb) ==> filled_bits(nb, w, i + 1) == filled_bits(nb, w, i),
{
    let f = fields_per_word(nb) as int;
    let n = nb as int;
    assert(f >= 4) by {
        assert(64int / n >= 4) by (nonlinear_arith)
            requires
                4 <= n <= 16,
        ;
    }
    let q = (i as int) / f;
    let r = (i as int) % f;
    vstd::arithmetic::div_mod::lemma_fundamental_div_mod(i as int, f);
    assert(0 <= r < f);
    let wi = w as int;
    if wi == q {
        assert(wi * f == q * f);
        assert(r * n + n == (r + 1) * n) by (nonlinear_arith);
    } else if wi < q {
        assert(wi * f + f <= q * f) by (nonlinear_arith)
            requires
                wi + 1 <= q,
                f >= 0,
        ;
    } else {
        assert(q * f + f <= wi * f) by (nonlinear_arith)
            requires
                q + 1 <= wi,
                f >= 0,
        ;
    }
}

proof fn lemma_width_fits(len: nat)
    requires
        1 <= len <= 65536,
    ensures
        valid_width(num_bits_for(len) as u32),
        num_bits_for(len) == num_bits_for(len) as u32,
        len <= pow2(num_bits_for(len)),
{
    lemma_bits_for_least(len);
    vstd::arithmetic::power2::lemma2_to64();
    if num_bits_for(len) > 16 {
        vstd::arithmetic::power2::lemma_pow2_strictly_increases(16, (num_bits_for(len) - 1) as nat);
    }
}

proof fn lemma_words_cover(nb: u32, i: nat)
    requires
        valid_width(nb),
        i < SECTION_CELLS,
    ensures
        i / fields_per_word(nb) < words_needed(SECTION_CELLS as nat, nb),
{
    let f = fields_per_word(nb) as int;
    assert(f >= 4) by {
        assert(64int / (nb as int) >= 4) by (nonlinear_arith)
            requires
                4 <= nb <= 16,
        ;
    }
    assert((i as int) / f < (4096 + f - 1) / f) by (nonlinear_arith)
        requires
            f >= 1,
            0 <= i < 4096,
    ;
}

impl Section {
    /// The invariant: the palette has no duplicates and at most 65536
    /// entries; a uniform section has a one-entry palette with 4096
    /// references; otherwise there are 4096 cells, each naming an entry,
    /// and each entry's count is the number of cells naming it.
    pub open spec fn wf(&self) -> bool {
        &&& self.palette.wf()
        &&& 1 <= self.palette.entries@.len() <= 65536
        &&& match self.blocks {
            None => self.palette.entries@.len() == 1 && self.palette.counts()[0] == 4096,
            Some(b) => {
                &&& b@.len() == SECTION_CELLS
                &&& forall|i: int| 0 <= i < b@.len() ==> (#[trigger] b@[i] as int) < self.palette.entries@.len()
                &&& forall|j: int|
                    0 <= j < self.palette.entries@.len() ==> #[trigger] self.palette.counts()[j]
                        == occurrences(b@, j as nat)
            },
        }
    }

    /// The block type of each cell.
    pub open spec fn cells(&self) -> Seq<BlockView> {
        match self.blocks {
            None => Seq::new(4096, |i: int| self.palette.types()[0]),
            Some(b) => Seq::new(4096, |i: int| self.palette.types()[b@[i] as int]),
        }
    }

    /// A section of air.
    pub fn new() -> (r: Section)
        ensures
            r.wf(),
            is_fresh(r),
            r.palette.entries@.len() == 1,
            r.cells() == Seq::new(4096, |i: int| air()),
    {
        let air_block = BlockType::new("minecraft:air");
        let mut biomes = Vec::new();
        biomes.push("minecraft:plains".to_owned());
        let r = Section { biomes, blocks: None, palette: Palette::new_with_block(&air_block, 4096) };
        assert(r.palette.entries@.len() == r.palette.counts().len());
        assert(r.palette.counts()[0] == 4096);
        assert(r.cells() =~= Seq::new(4096, |i: int| air()));
        r
    }

    /// A section whose every cell holds `block`.
    fn uniform(block: &BlockType, biomes: Vec<String>) -> (r: Section)
        ensures
            r.wf(),
            r.cells() == Seq::new(4096, |i: int| block@),
            r.blocks is None,
            r.palette.types() == seq![block@],
            r.palette.counts() == seq![4096nat],
            r.biomes == biomes,
    {
        let r = Section { biomes, blocks: None, palette: Palette::new_with_block(block, 4096) };
        assert(r.palette.entries@.len() == r.palette.counts().len());
        assert(r.palette.counts()[0] == 4096);
        assert(r.cells() =~= Seq::new(4096, |i: int| block@));
        r
    }

    /// Decodes a stored section. A section with no packed cells is uniform,
    /// filled with the first palette entry (with air if the palette is
    /// empty). Otherwise the cells are unpacked at the width that the
    /// stored palette's length gives, and the palette is rebuilt in order
    /// of first occurrence. `None` when the packed cells cannot be decoded.
    pub fn from_data(data: &types::Section) -> (r: Option<Section>)
        ensures
            decodes(*data, r),
    {
        match &data.block_states {
            None => Some(Self::new()),
            Some(states) => match &states.data {
                None => {
                    if states.palette.len() == 0 {
                        let r = Self::new();
                        assert(r.cells() =~= Seq::new(4096, |i: int| if states.palette@.len() == 0 { air() } else { states.palette@[0]@ }));
                        Some(r)
                    } else {
                        let r = Self::uniform(&states.palette[0], copy_strings(&data.biomes.palette));
                        assert(r.cells() =~= Seq::new(4096, |i: int| if states.palette@.len() == 0 { air() } else { states.palette@[0]@ }));
                        Some(r)
                    }
                },
                Some(block_data) => {
                    let len = states.palette.len();
                    if len > 65536 {
                        assert(decodes(*data, None::<Section>));
                        return None;
                    }
                    let num_bits = num_data_bits(len);
                    if len == 0 {
                        proof {
                            if packed_cells_valid(0, block_data@) {
                                assert((field_at(num_bits, block_data@, 0) as nat) < 0nat);
                            }
                        }
                        assert(decodes(*data, None::<Section>));
                        return None;
                    }
                    proof {
                        lemma_width_fits(len as nat);
                    }
                    assert(64u32 / num_bits >= 4) by (nonlinear_arith)
                        requires
                            4 <= num_bits <= 16,
                    ;
                    let per_word = (64 / num_bits) as usize;
                    let needed = (SECTION_CELLS + per_word - 1) / per_word;
                    if block_data.len() < needed {
                        assert(decodes(*data, None::<Section>));
                        return None;
                    }
                    let ghost nb = num_bits;
                    let ghost d = block_data@;
                    let mut blocks: Vec<u16> = Vec::new();
                    let mut palette = Palette::new();
                    let mut i: usize = 0;
                    while i < SECTION_CELLS
                        invariant
                            i <= SECTION_CELLS,
                            nb == num_bits,
                            d == block_data@,
                            valid_width(num_bits),
                            num_bits as nat == num_bits_for(len as nat),
                            len == states.palette@.len(),
                            1 <= len <= 65536,
                            block_data@.len() >= words_needed(SECTION_CELLS as nat, num_bits),
                            blocks@.len() == i,
                            palette.wf(),
                            palette.entries@.len() <= i,
                            data.block_states is Some,
                            data.block_states->0.data is Some,
                            data.block_states->0.data->0@ == d,
                            data.block_states->0.palette@ == states.palette@,
                            forall|k: nat| k < i ==> (#[trigger] field_at(num_bits, d, k) as nat) < len,
                            forall|k: int| 0 <= k < i ==> (#[trigger] blocks@[k] as int) < palette.entries@.len(),
                            forall|k: int|
                                0 <= k < i ==> palette.types()[#[trigger] blocks@[k] as int]
                                    == states.palette@[field_at(num_bits, d, k as nat) as int]@,
                            forall|j: int|
                                0 <= j < palette.entries@.len() ==> #[trigger] palette.counts()[j]
                                    == occurrences(blocks@, j as nat),
                            forall|j: int| 0 <= j < palette.entries@.len() ==> #[trigger] palette.counts()[j] >= 1,
                            palette.entries@.len() == max_before(blocks@, i as int) + 1,
                            first_use_order(blocks@),
                        decreases SECTION_CELLS - i,
                    {
                        proof {
                            lemma_words_cover(num_bits, i as nat);
                        }
                        let index = get_data(num_bits, block_data, i);
                        if index as usize >= len {
                            proof {
                                assert(num_bits_for(len as nat) as u32 == num_bits);
                                assert(field_at(num_bits_for(len as nat) as u32, d, i as nat) == index);
                                assert(!packed_cells_valid(len as nat, d));
                                assert(data.block_states->0.data->0@ == d);
                                assert(data.block_states->0.palette@.len() == len);
                            }
                            return None;
                        }
                        let ghost before = palette;
                        let ghost old_blocks = blocks@;
                        proof {
                            assert forall|j: int| 0 <= j < before.entries@.len() implies #[trigger] before.counts()[j] < u32::MAX by {
                                lemma_occurrences_bound(old_blocks, j as nat);
                            }
                        }
                        let r = palette.inc_block(&states.palette[index as usize]);
                        blocks.push(r);
                        proof {
                            assert(blocks@.drop_last() =~= old_blocks);
                            let b = states.palette@[index as int]@;
                            assert forall|j: int| 0 <= j < palette.entries@.len() implies #[trigger] occurrences(blocks@, j as nat)
                                == occurrences(old_blocks, j as nat) + if r as nat == j as nat { 1nat } else { 0nat } by {
                                assert(blocks@.last() == r);
                            }
                            if before.types().contains(b) {
                                assert(palette.counts() == before.counts().update(r as int, before.counts()[r as int] + 1));
                            } else {
                                assert(palette.counts() == before.counts().push(1));
                                lemma_occurrences_absent(old_blocks, r as nat);
                            }
                            assert(blocks@ == old_blocks.push(r));
                            lemma_max_before_push(old_blocks, r, i as int);
                            assert(max_before(blocks@, i + 1) == if (r as int) > max_before(old_blocks, i as int) {
                                r as int
                            } else {
                                max_before(old_blocks, i as int)
                            });
                            assert forall|k: int| 0 <= k < blocks@.len() implies (#[trigger] blocks@[k] as int) <= max_before(blocks@, k) + 1 by {
                                if k < i {
                                    lemma_max_before_push(old_blocks, r, k);
                                    assert(blocks@[k] == old_blocks[k]);
                                }
                            }
                            assert forall|j: int| 0 <= j < palette.entries@.len() implies #[trigger] palette.counts()[j] >= 1 by {
                                if j < before.entries@.len() {
                                    assert(before.counts()[j] >= 1);
                                }
                            }
                            assert forall|j: int| 0 <= j < palette.entries@.len() implies #[trigger] palette.counts()[j]
                                == occurrences(blocks@, j as nat) by {
                                if j < before.entries@.len() {
                                    assert(before.counts()[j] == occurrences(old_blocks, j as nat));
                                } else {
                                    assert(occurrences(old_blocks, j as nat) == 0) by {
                                        lemma_occurrences_absent(old_blocks, j as nat);
                                    }
                                }
                            }
                            assert forall|k: int| 0 <= k < i + 1 implies palette.types()[#[trigger] blocks@[k] as int]
                                == states.palette@[field_at(num_bits, d, k as nat) as int]@ by {
                                if k < i {
                                    assert(blocks@[k] == old_blocks[k]);
                                    assert(before.types()[old_blocks[k] as int] == states.palette@[field_at(num_bits, d, k as nat) as int]@);
                                    assert(palette.types()[old_blocks[k] as int] == before.types()[old_blocks[k] as int]);
                                }
                            }
                            assert forall|k: nat| k < i + 1 implies (#[trigger] field_at(num_bits, d, k) as nat) < len by {
                                if k == i {
                                    assert(field_at(num_bits, d, i as nat) == index);
                                }
                            }
                        }
                        i = i + 1;
                    }
                    assert(max_before(blocks@, 4096) + 1 == palette.entries@.len());
                    let ghost cells = blocks@;
                    let r = Section { biomes: copy_strings(&data.biomes.palette), blocks: Some(blocks), palette };
                    proof {
                        assert(packed_cells_valid(len as nat, d)) by {
                            assert forall|k: nat| k < SECTION_CELLS implies (#[trigger] field_at(num_bits, d, k) as nat) < len by {
                                assert((field_at(num_bits, d, k) as nat) < len);
                            }
                        }
                        assert(r.cells() =~= Seq::new(4096, |k: int| states.palette@[field_at(nb as u32, d, k as nat) as int]@));
                    }
                    assert((cells[0] as int) < r.palette.entries@.len());
                    assert(r.wf());
                    assert(decodes(*data, Some(r)));
                    Some(r)
                },
            },
        }
    }
}

impl Section {
    /// Sets cell (x, y, z) to `block`.
    pub fn set_block(&mut self, x: i32, y: i32, z: i32, block: &BlockType)
        requires
            old(self).wf(),
            0 <= x < 16,
            0 <= y < 16,
            0 <= z < 16,
            old(self).palette.types().contains(block@) || old(self).palette.entries@.len() < 65536,
        ensures
            final(self).wf(),
            final(self).cells() == old(self).cells().update(cell_index(x as int, y as int, z as int), block@),
            final(self).blocks is Some,
            final(self).biomes == old(self).biomes,
            old(self).palette.types().contains(block@) ==> final(self).palette.types() == old(self).palette.types(),
            !old(self).palette.types().contains(block@) ==> final(self).palette.types()
                == old(self).palette.types().push(block@),
    {
        let ghost old_cells = self.cells();
        let mut blocks = match self.blocks.take() {
            Some(b) => b,
            None => {
                let zeros = vec![0u16; SECTION_CELLS];
                proof {
                    assert(zeros@ =~= Seq::new(4096, |k: int| 0u16));
                    lemma_occurrences_zeros(4096, 0);
                }
                zeros
            },
        };
        let index = (y * 64 + z * 16 + x) as usize;
        let ghost before = self.palette;
        let ghost cells0 = blocks@;
        proof {
            assert(cells0.len() == 4096);
            assert(forall|k: int| 0 <= k < 4096 ==> (#[trigger] cells0[k] as int) < before.entries@.len());
            assert(forall|j: int| 0 <= j < before.entries@.len() ==> #[trigger] before.counts()[j] == occurrences(cells0, j as nat));
            assert(forall|k: int| 0 <= k < 4096 ==> #[trigger] old_cells[k] == before.types()[cells0[k] as int]);
        }
        let old_index = blocks[index];
        proof {
            assert(cells0[index as int] == old_index);
            let other: u16 = if old_index == 0 { 1 } else { 0 };
            lemma_occurrences_update(cells0, index as int, other, old_index as nat);
        }
        self.palette.dec_block(old_index);
        let ghost mid = self.palette;
        proof {
            assert forall|j: int| 0 <= j < mid.entries@.len() implies #[trigger] mid.counts()[j] < u32::MAX by {
                assert(mid.types().len() == before.types().len());
                lemma_occurrences_bound(cells0, j as nat);
            }
            assert(mid.wf()) by {
                assert(mid.types() == before.types());
            }
            assert(before == old(self).palette);
            assert(mid.types().len() == mid.entries@.len());
            assert(before.types().len() == before.entries@.len());
        }
        let new_index = self.palette.inc_block(block);
        blocks.set(index, new_index);
        proof {
            let cells1 = blocks@;
            assert(cells1 == cells0.update(index as int, new_index));
            assert(mid.counts() == before.counts().update(old_index as int, (before.counts()[old_index as int] - 1) as nat));
            assert(mid.counts().len() == mid.entries@.len());
            assert(before.counts().len() == before.entries@.len());
            assert(self.palette.types().len() == self.palette.entries@.len());
            assert(self.palette.counts().len() == self.palette.entries@.len());
            if mid.types().contains(block@) {
                assert(self.palette.counts() == mid.counts().update(new_index as int, mid.counts()[new_index as int] + 1));
                assert(self.palette.entries@.len() == mid.entries@.len());
            } else {
                assert(self.palette.counts() == mid.counts().push(1));
                assert(new_index as int == mid.entries@.len());
                assert(self.palette.entries@.len() == mid.entries@.len() + 1);
            }
            assert forall|j: int| 0 <= j < self.palette.entries@.len() implies #[trigger] self.palette.counts()[j]
                == occurrences(cells1, j as nat) by {
                lemma_occurrences_update(cells0, index as int, new_index, j as nat);
                if j >= mid.entries@.len() {
                    lemma_occurrences_absent(cells0, j as nat);
                    assert(self.palette.counts()[j] == 1);
                } else {
                    assert(before.counts()[j] == occurrences(cells0, j as nat));
                    assert(mid.counts()[j] == before.counts()[j] - if j == old_index as int { 1int } else { 0int });
                    assert(self.palette.counts()[j] == mid.counts()[j] + if j == new_index as int { 1int } else { 0int });
                }
            }
            assert forall|k: int| 0 <= k < cells1.len() implies (#[trigger] cells1[k] as int) < self.palette.entries@.len() by {
                if k != index {
                    assert(cells1[k] == cells0[k]);
                }
            }
        }
        self.blocks = Some(blocks);
        proof {
            assert(self.cells() =~= old_cells.update(cell_index(x as int, y as int, z as int), block@)) by {
                assert forall|k: int| 0 <= k < 4096 && k != index implies self.palette.types()[cells0[k] as int] == old_cells[k] by {
                    assert(self.palette.types()[cells0[k] as int] == mid.types()[cells0[k] as int]);
                }
            }
        }
    }

    /// The block type of cell (x, y, z).
    pub fn block_at(&self, x: i32, y: i32, z: i32) -> (r: BlockType)
        requires
            self.wf(),
            0 <= x < 16,
            0 <= y < 16,
            0 <= z < 16,
        ensures
            r@ == self.cells()[cell_index(x as int, y as int, z as int)],
    {
        let index = (y * 64 + z * 16 + x) as usize;
        match &self.blocks {
            None => self.palette.entries[0].ty.duplicate(),
            Some(b) => self.palette.entries[b[index] as usize].ty.duplicate(),
        }
    }

    /// The stored form of this section at vertical slot `y`: the palette in
    /// index order, unused entries included, and the cells packed at the
    /// width that the palette's length gives.
    pub fn to_nbt(&self, y: i8) -> (r: types::Section)
        requires
            self.wf(),
        ensures
            encodes(*self, y, r),
    {
        let mut palette: Vec<BlockType> = Vec::new();
        let mut k: usize = 0;
        while k < self.palette.entries.len()
            invariant
                k <= self.palette.entries@.len(),
                palette@.len() == k,
                forall|m: int| 0 <= m < k ==> (#[trigger] palette@[m])@ == self.palette.types()[m],
            decreases self.palette.entries@.len() - k,
        {
            palette.push(self.palette.entries[k].ty.duplicate());
            k = k + 1;
        }
        assert(palette_views(palette@) =~= self.palette.types());
        let data = match &self.blocks {
            None => None,
            Some(blocks) => {
                let len = self.palette.entries.len();
                proof {
                    lemma_width_fits(len as nat);
                }
                let num_bits = num_data_bits(len);
                assert(64u32 / num_bits >= 4) by (nonlinear_arith)
                    requires
                        4 <= num_bits <= 16,
                ;
                let per_word = (64 / num_bits) as usize;
                let num_longs = (SECTION_CELLS + (per_word - 1)) / per_word;
                let mut data = vec![0i64; num_longs];
                proof {
                    assert forall|w: int| 0 <= w < data@.len() implies clear_from(#[trigger] data@[w] as u64, filled_bits(num_bits, w as nat, 0)) by {
                        let z = data@[w] as u64;
                        assert(z == 0);
                        assert(z >> 0u64 == 0) by (bit_vector)
                            requires
                                z == 0,
                        ;
                    }
                }
                let mut i: usize = 0;
                while i < SECTION_CELLS
                    invariant
                        i <= SECTION_CELLS,
                        valid_width(num_bits),
                        num_bits as nat == num_bits_for(len as nat),
                        len == self.palette.entries@.len(),
                        len <= pow2(num_bits as nat),
                        self.wf(),
                        self.blocks == Some(*blocks),
                        data@.len() == num_longs,
                        num_longs == words_needed(SECTION_CELLS as nat, num_bits),
                        forall|k: nat| k < i ==> #[trigger] field_at(num_bits, data@, k) == blocks@[k as int],
                        forall|w: int|
                            0 <= w < data@.len() ==> clear_from(#[trigger] data@[w] as u64, filled_bits(num_bits, w as nat, i as nat)),
                    decreases SECTION_CELLS - i,
                {
                    proof {
                        lemma_words_cover(num_bits, i as nat);
                    }
                    let ghost before = data@;
                    set_data(num_bits, &mut data, i, blocks[i]);
                    proof {
                        assert forall|k: nat| k < i + 1 implies #[trigger] field_at(num_bits, data@, k) == blocks@[k as int] by {
                            if k < i {
                                lemma_words_cover(num_bits, k);
                                assert(field_at(num_bits, before, k) == blocks@[k as int]);
                            }
                        }
                        let w0 = (i as nat) / fields_per_word(num_bits);
                        assert forall|w: int| 0 <= w < data@.len() implies clear_from(
                            #[trigger] data@[w] as u64, filled_bits(num_bits, w as nat, (i + 1) as nat)) by {
                            lemma_filled_step(num_bits, i as nat, w as nat);
                            assert(clear_from(before[w] as u64, filled_bits(num_bits, w as nat, i as nat)));
                            if w == w0 {
                                let sh = field_shift(num_bits, i as nat);
                                lemma_field_layout(num_bits, i as nat);
                                lemma_mask_is_pow2(num_bits);
                                assert((blocks@[i as int] as nat) < len);
                                lemma_word_fill(before[w] as u64, sh as u64, num_bits as u64, blocks@[i as int] as u64);
                            }
                        }
                    }
                    i = i + 1;
                }
                Some(data)
            },
        };
        let biomes = copy_strings(&self.biomes);
        types::Section {
            biomes: types::Biomes { palette: biomes },
            block_states: Some(types::BlockStates { palette, data }),
            sky_light: None,
            y,
        }
    }
}

/// Storing a well-formed section and decoding the result gives back a
/// section with the same block type in every cell.
pub proof fn lemma_section_round_trip(s: Section, y: i8, stored: types::Section, back: Option<Section>)
    requires
        s.wf(),
        encodes(s, y, stored),
        decodes(stored, back),
    ensures
        back is Some,
        back->0.cells() == s.cells(),
{
    let st = stored.block_states->0;
    assert(st.palette@.len() == s.palette.entries@.len()) by {
        assert(palette_views(st.palette@).len() == st.palette@.len());
    }
    assert(forall|m: int| 0 <= m < st.palette@.len() ==> st.palette@[m]@ == #[trigger] s.palette.types()[m]) by {
        assert forall|m: int| 0 <= m < st.palette@.len() implies st.palette@[m]@ == #[trigger] s.palette.types()[m] by {
            assert(palette_views(st.palette@)[m] == st.palette@[m]@);
        }
    }
    match s.blocks {
        None => {
            assert(back->0.cells() =~= s.cells());
        },
        Some(b) => {
            let d = st.data->0@;
            let len = st.palette@.len();
            let nb = num_bits_for(len);
            assert(packed_cells_valid(len, d)) by {
                assert forall|i: nat| i < SECTION_CELLS implies (#[trigger] field_at(nb as u32, d, i) as nat) < len by {
                    assert(field_at(nb as u32, d, i) == b@[i as int]);
                }
            }
            assert(back->0.cells() =~= s.cells()) by {
                assert forall|i: int| 0 <= i < 4096 implies back->0.cells()[i] == s.cells()[i] by {
                    assert(field_at(nb as u32, d, i as nat) == b@[i]);
                }
            }
        },
    }
}

proof fn lemma_occurrences_absent(s: Seq<u16>, v: nat)
    requires
        forall|k: int| 0 <= k < s.len() ==> (#[trigger] s[k] as nat) < v,
    ensures
        occurrences(s, v) == 0,
    decreases s.len(),
{
    if s.len() > 0 {
        assert((s[s.len() - 1] as nat) < v);
        lemma_occurrences_absent(s.drop_last(), v);
    }
}

} // verus!
