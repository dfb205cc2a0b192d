//! A deduplicating, reference-counted table of block types.
use crate::types::{BlockType, PropertyView};
use vstd::prelude::*;

verus! {

/// The identity of a block type.
pub type BlockView = (Seq<char>, Set<PropertyView>);

/// One block type of a palette and how many cells refer to it.
#[derive(Clone, Debug)]
pub struct PaletteEntry {
    pub ty: BlockType,
    pub ref_cnt: u32,
}

/// Block types in order of first insertion. An index, once given out,
/// names the same block type for the palette's whole life; entries are
/// never removed, even when nothing refers to them any more.
#[derive(Clone, Debug)]
pub struct Palette {
    pub entries: Vec<PaletteEntry>,
}

/// `after` is `before` with one more reference to `block`, which sits at
/// index `r`: the index it had, or a new last one.
pub open spec fn increments(before: Palette, block: BlockView, after: Palette, r: nat) -> bool {
    &&& after.wf()
    &&& after.entries@.len() == before.entries@.len() + if before.types().contains(block) {
        0int
    } else {
        1int
    }
    &&& r < after.entries@.len()
    &&& after.types()[r as int] == block
    &&& before.types().contains(block) ==> {
        &&& after.types() == before.types()
        &&& after.counts() == before.counts().update(r as int, before.counts()[r as int] + 1)
    }
    &&& !before.types().contains(block) ==> {
        &&& r == before.entries@.len()
        &&& after.types() == before.types().push(block)
        &&& after.counts() == before.counts().push(1)
    }
}

/// Adding the same block type twice gives the same index both times, and
/// each time one more reference.
pub proof fn lemma_increment_same(p0: Palette, p1: Palette, p2: Palette, b: BlockView, r1: nat, r2: nat)
    requires
        increments(p0, b, p1, r1),
        increments(p1, b, p2, r2),
    ensures
        r1 == r2,
        p2.types() == p1.types(),
        p2.counts()[r2 as int] == p1.counts()[r1 as int] + 1,
        p1.counts()[r1 as int] == if p0.types().contains(b) { p0.counts()[r1 as int] + 1 } else { 1 },
{
    assert(p1.types().contains(b)) by {
        assert(p1.types()[r1 as int] == b);
    }
    if r1 != r2 {
        assert(p1.types()[r1 as int] == p1.types()[r2 as int]);
        if r1 < r2 {
            assert(p1.types()[r1 as int] != p1.types()[r2 as int]);
        } else {
            assert(p1.types()[r2 as int] != p1.types()[r1 as int]);
        }
    }
}

/// A block type the palette does not hold gets the next index, with one
/// reference; so distinct block types added to an empty palette get the
/// indices 0, 1, 2, ... in order.
pub proof fn lemma_increment_fresh(p0: Palette, p1: Palette, b: BlockView, r: nat)
    requires
        increments(p0, b, p1, r),
        !p0.types().contains(b),
    ensures
        r == p0.entries@.len(),
        p1.entries@.len() == r + 1,
        p1.counts()[r as int] == 1,
{
    assert(p1.types().len() == p1.entries@.len());
}

/// `ps[k + 1]` is `ps[k]` after adding `bs[k]`, which got index `rs[k]`,
/// for each call `k` of a run of `inc_block` calls.
pub open spec fn increment_run(ps: Seq<Palette>, bs: Seq<BlockView>, rs: Seq<nat>) -> bool {
    &&& ps.len() == bs.len() + 1
    &&& rs.len() == bs.len()
    &&& forall|k: int| 0 <= k < bs.len() ==> increments(ps[k], #[trigger] bs[k], ps[k + 1], rs[k])
}

proof fn lemma_run_prefix(ps: Seq<Palette>, bs: Seq<BlockView>, rs: Seq<nat>, k: int, m: int)
    requires
        increment_run(ps, bs, rs),
        0 <= k <= m < ps.len(),
    ensures
        ps[k].types().len() <= ps[m].types().len(),
        forall|t: int| 0 <= t < ps[k].types().len() ==> #[trigger] ps[m].types()[t] == ps[k].types()[t],
    decreases m - k,
{
    if k < m {
        lemma_run_prefix(ps, bs, rs, k, m - 1);
        assert(increments(ps[m - 1], bs[m - 1], ps[m], rs[m - 1]));
    }
}

/// Adding a block type again, however many other calls came between, gives
/// the index it got the first time, and that index keeps naming it.
pub proof fn lemma_run_same_index(ps: Seq<Palette>, bs: Seq<BlockView>, rs: Seq<nat>, j: int, k: int)
    requires
        increment_run(ps, bs, rs),
        0 <= j < k < bs.len(),
        bs[j] == bs[k],
    ensures
        rs[k] == rs[j],
        ps[k + 1].types()[rs[j] as int] == bs[j],
        ps[k + 1].entries@.len() == ps[k].entries@.len(),
{
    assert(increments(ps[j], bs[j], ps[j + 1], rs[j]));
    assert(increments(ps[k], bs[k], ps[k + 1], rs[k]));
    lemma_run_prefix(ps, bs, rs, j + 1, k);
    assert(ps[j + 1].types().len() == ps[j + 1].entries@.len());
    assert(ps[k].types()[rs[j] as int] == bs[j]);
    assert(ps[k].types().contains(bs[k]));
    assert(ps[k + 1].types()[rs[j] as int] == bs[j]);
    if rs[k] != rs[j] {
        let (a, b) = if rs[k] < rs[j] { (rs[k] as int, rs[j] as int) } else { (rs[j] as int, rs[k] as int) };
        assert(ps[k + 1].types()[a] != ps[k + 1].types()[b]);
    }
}

/// Adding a block type `n` times to a palette that does not hold it gives
/// the same new index every time, and leaves `n` references on it.
pub proof fn lemma_run_repeated(ps: Seq<Palette>, bs: Seq<BlockView>, rs: Seq<nat>, b: BlockView, m: int)
    requires
        increment_run(ps, bs, rs),
        forall|k: int| 0 <= k < bs.len() ==> #[trigger] bs[k] == b,
        !ps[0].types().contains(b),
        1 <= m <= bs.len(),
    ensures
        forall|k: int| 0 <= k < m ==> #[trigger] rs[k] == ps[0].entries@.len(),
        ps[m].types()[ps[0].entries@.len() as int] == b,
        ps[m].counts()[ps[0].entries@.len() as int] == m,
        ps[m].entries@.len() == ps[0].entries@.len() + 1,
    decreases m,
{
    let r0 = ps[0].entries@.len() as int;
    assert(increments(ps[0], bs[0], ps[1], rs[0]));
    assert(bs[0] == b);
    if m > 1 {
        lemma_run_repeated(ps, bs, rs, b, m - 1);
        let k = m - 1;
        assert(bs[k] == b);
        assert(increments(ps[k], bs[k], ps[k + 1], rs[k]));
        assert(ps[k].types().len() == ps[k].entries@.len());
        assert(ps[k].types().contains(b));
        assert(ps[k + 1].types()[rs[k] as int] == b);
        if rs[k] as int != r0 {
            let (x, y) = if (rs[k] as int) < r0 { (rs[k] as int, r0) } else { (r0, rs[k] as int) };
            assert(ps[k + 1].types()[x] != ps[k + 1].types()[y]);
        }
    } else {
        assert(ps[1].types() == ps[0].types().push(b));
    }
}

/// Adding pairwise distinct block types to an empty palette gives the
/// indices 0, 1, 2, ... in order, and the palette lists them in that order.
pub proof fn lemma_run_distinct(ps: Seq<Palette>, bs: Seq<BlockView>, rs: Seq<nat>, m: int)
    requires
        increment_run(ps, bs, rs),
        ps[0].entries@.len() == 0,
        forall|a: int, c: int| 0 <= a < c < bs.len() ==> bs[a] != bs[c],
        0 <= m <= bs.len(),
    ensures
        forall|k: int| 0 <= k < m ==> #[trigger] rs[k] == k,
        ps[m].types() == bs.subrange(0, m),
        ps[m].entries@.len() == m,
    decreases m,
{
    if m == 0 {
        assert(ps[0].types() =~= bs.subrange(0, 0));
    } else {
        lemma_run_distinct(ps, bs, rs, m - 1);
        let k = m - 1;
        assert(increments(ps[k], bs[k], ps[k + 1], rs[k]));
        if ps[k].types().contains(bs[k]) {
            let t = choose|t: int| 0 <= t < ps[k].types().len() && ps[k].types()[t] == bs[k];
            assert(bs.subrange(0, k)[t] == bs[t]);
        }
        assert(ps[m].types() =~= bs.subrange(0, m));
        assert(ps[m].types().len() == ps[m].entries@.len());
    }
}

impl Palette {
    /// The block types, by index.
    pub open spec fn types(&self) -> Seq<BlockView> {
        self.entries@.map_values(|e: PaletteEntry| e.ty@)
    }

    /// The reference counts, by index.
    pub open spec fn counts(&self) -> Seq<nat> {
        self.entries@.map_values(|e: PaletteEntry| e.ref_cnt as nat)
    }

    /// No block type appears at two indices.
    pub open spec fn wf(&self) -> bool {
        forall|i: int, j: int|
            0 <= i < j < self.entries@.len() ==> (#[trigger] self.types()[i]) != (#[trigger] self.types()[j])
    }

    /// An empty palette.
    pub fn new() -> (r: Palette)
        ensures
            r.wf(),
            r.types() == Seq::<BlockView>::empty(),
            r.entries@.len() == 0,
    {
        let r = Palette { entries: Vec::new() };
        assert(r.types() =~= Seq::<BlockView>::empty());
        r
    }

    /// A palette holding `block` alone, with `ref_cnt` references.
    pub fn new_with_block(block: &BlockType, ref_cnt: u32) -> (r: Palette)
        ensures
            r.wf(),
            r.types() == seq![block@],
            r.counts() == seq![ref_cnt as nat],
    {
        let mut entries = Vec::new();
        entries.push(PaletteEntry { ty: block.duplicate(), ref_cnt });
        let r = Palette { entries };
        assert(r.types() =~= seq![block@]);
        assert(r.counts() =~= seq![ref_cnt as nat]);
        r
    }

    /// The number of entries.
    pub fn len(&self) -> (r: usize)
        ensures
            r == self.entries@.len(),
    {
        self.entries.len()
    }

    /// The index of `block`, if the palette holds it.
    pub fn find(&self, block: &BlockType) -> (r: Option<usize>)
        ensures
            match r {
                Some(i) => i < self.entries@.len() && self.types()[i as int] == block@,
                None => !self.types().contains(block@),
            },
    {
        let mut i: usize = 0;
        while i < self.entries.len()
            invariant
                i <= self.entries.len(),
                forall|j: int| 0 <= j < i ==> self.types()[j] != block@,
            decreases self.entries.len() - i,
        {
            if self.entries[i].ty.same_as(block) {
                return Some(i);
            }
            i = i + 1;
        }
        None
    }

    /// Adds one reference to `block` and returns its index: the index it
    /// already had, or the next free one if it is new.
    pub fn inc_block(&mut self, block: &BlockType) -> (r: u16)
        requires
            old(self).wf(),
            old(self).entries@.len() <= 65536,
            old(self).types().contains(block@) || old(self).entries@.len() < 65536,
            forall|i: int| 0 <= i < old(self).entries@.len() ==> #[trigger] old(self).counts()[i] < u32::MAX,
        ensures
            increments(*old(self), block@, *final(self), r as nat),
    {
        match self.find(block) {
            Some(index) => {
                let ghost before = *self;
                let cnt = self.entries[index].ref_cnt;
                assert(before.counts()[index as int] == cnt as nat);
                self.entries[index].ref_cnt = cnt + 1;
                assert(self.types() =~= before.types());
                assert(self.counts() =~= before.counts().update(index as int, before.counts()[index as int] + 1));
                index as u16
            },
            None => {
                let ghost before = *self;
                let index = self.entries.len();
                self.entries.push(PaletteEntry { ty: block.duplicate(), ref_cnt: 1 });
                assert(self.types() =~= before.types().push(block@));
                assert(self.counts() =~= before.counts().push(1));
                index as u16
            },
        }
    }

    /// Removes one reference from the entry at `index`. The entry stays in
    /// the palette.
    pub fn dec_block(&mut self, index: u16)
        requires
            (index as int) < old(self).entries@.len(),
            old(self).counts()[index as int] > 0,
        ensures
            final(self).types() == old(self).types(),
            final(self).counts() == old(self).counts().update(index as int, (old(self).counts()[index as int] - 1) as nat),
    {
        let ghost before = *self;
        let i = index as usize;
        let cnt = self.entries[i].ref_cnt;
        assert(before.counts()[i as int] == cnt as nat);
        self.entries[i].ref_cnt = cnt - 1;
        assert(self.types() =~= before.types());
        assert(self.counts() =~= before.counts().update(i as int, (before.counts()[i as int] - 1) as nat));
    }
}

} // verus!
