use vstd::prelude::*;

use crate::coords::{in_view, ChunkPos, ChunkView};
use crate::terrain::ChunkData;

verus! {

/// Some view in the demand snapshot `views` holds the chunk at `p`.
pub open spec fn demanded(views: Seq<ChunkView>, p: ChunkPos) -> bool {
    exists|i: int| 0 <= i < views.len() && in_view(#[trigger] views[i], p)
}

/// Whether some view in the demand snapshot holds the chunk at `p`.
pub fn is_demanded(views: &Vec<ChunkView>, p: ChunkPos) -> (r: bool)
    ensures
        r == demanded(views@, p),
{
    let mut i: usize = 0;
    while i < views.len()
        invariant
            i <= views@.len(),
            forall|k: int| 0 <= k < i ==> !in_view(#[trigger] views@[k], p),
        decreases views@.len() - i,
    {
        if views[i].contains(p) {
            return true;
        }
        i += 1;
    }
    false
}

/// A chunk in the store, with the coordinate it was generated for.
pub struct ResidentChunk {
    pub pos: ChunkPos,
    pub data: ChunkData,
}

pub open spec fn seq_has(s: Seq<ResidentChunk>, p: ChunkPos) -> bool {
    exists|i: int| 0 <= i < s.len() && (#[trigger] s[i]).pos == p
}

pub open spec fn seq_unique(s: Seq<ResidentChunk>) -> bool {
    forall|i: int, j: int| 0 <= i < j < s.len() ==> (#[trigger] s[i]).pos != (#[trigger] s[j]).pos
}

pub open spec fn seq_map(s: Seq<ResidentChunk>) -> Map<ChunkPos, ChunkData> {
    Map::new(
        |p: ChunkPos| seq_has(s, p),
        |p: ChunkPos| s[choose|i: int| 0 <= i < s.len() && (#[trigger] s[i]).pos == p].data,
    )
}

proof fn lemma_seq_map_at(s: Seq<ResidentChunk>, i: int)
    requires
        seq_unique(s),
        0 <= i < s.len(),
    ensures
        seq_map(s).contains_key(s[i].pos),
        seq_map(s)[s[i].pos] == s[i].data,
{
    let p = s[i].pos;
    assert(seq_has(s, p));
    let j = choose|j: int| 0 <= j < s.len() && (#[trigger] s[j]).pos == p;
    if j != i {
        if j < i {
            assert(s[j].pos != s[i].pos);
        } else {
            assert(s[i].pos != s[j].pos);
        }
    }
}

/// The single authoritative map from chunk coordinate to chunk data.
pub struct ChunkStore {
    entries: Vec<ResidentChunk>,
}

impl View for ChunkStore {
    type V = Map<ChunkPos, ChunkData>;

    closed spec fn view(&self) -> Map<ChunkPos, ChunkData> {
        seq_map(self.entries@)
    }
}

impl ChunkStore {
    pub closed spec fn wf(&self) -> bool {
        &&& seq_unique(self.entries@)
        &&& forall|i: int| 0 <= i < self.entries@.len() ==> (#[trigger] self.entries@[i]).data.wf()
    }

    pub fn new() -> (r: ChunkStore)
        ensures
            r.wf(),
            r@ == Map::<ChunkPos, ChunkData>::empty(),
    {
        let r = ChunkStore { entries: Vec::new() };
        assert(r@ =~= Map::<ChunkPos, ChunkData>::empty());
        r
    }

    fn find(&self, p: ChunkPos) -> (r: Option<usize>)
        requires
            self.wf(),
        ensures
            match r {
                Some(i) => i < self.entries@.len() && self.entries@[i as int].pos == p,
                None => !self@.contains_key(p),
            },
    {
        let mut i: usize = 0;
        while i < self.entries.len()
            invariant
                i <= self.entries@.len(),
                forall|k: int| 0 <= k < i ==> (#[trigger] self.entries@[k]).pos != p,
            decreases self.entries@.len() - i,
        {
            if self.entries[i].pos == p {
                return Some(i);
            }
            i += 1;
        }
        None
    }

    /// Whether the chunk at `p` is resident.
    pub fn contains(&self, p: ChunkPos) -> (r: bool)
        requires
            self.wf(),
        ensures
            r == self@.contains_key(p),
    {
        match self.find(p) {
            Some(i) => {
                proof {
                    lemma_seq_map_at(self.entries@, i as int);
                }
                true
            },
            None => false,
        }
    }

    /// The chunk at `p`, if it is resident.
    pub fn get(&self, p: ChunkPos) -> (r: Option<&ChunkData>)
        requires
            self.wf(),
        ensures
            match r {
                Some(d) => self@.contains_key(p) && *d == self@[p],
                None => !self@.contains_key(p),
            },
    {
        match self.find(p) {
            Some(i) => {
                proof {
                    lemma_seq_map_at(self.entries@, i as int);
                }
                Some(&self.entries[i].data)
            },
            None => None,
        }
    }

    /// Number of resident chunks.
    pub fn len(&self) -> (r: usize)
        requires
            self.wf(),
        ensures
            r == self@.dom().len(),
    {
        proof {
            self.lemma_dom_len();
        }
        self.entries.len()
    }

    proof fn lemma_dom_len(&self)
        requires
            self.wf(),
        ensures
            self@.dom().len() == self.entries@.len(),
        decreases self.entries@.len(),
    {
        let s = self.entries@;
        let keys = s.map_values(|e: ResidentChunk| e.pos);
        assert(keys.no_duplicates()) by {
            assert forall|i: int, j: int| 0 <= i < keys.len() && 0 <= j < keys.len() && i != j
                implies keys[i] != keys[j] by {
                if i < j {
                    assert(s[i].pos != s[j].pos);
                } else {
                    assert(s[j].pos != s[i].pos);
                }
            }
        }
        assert(self@.dom() =~= keys.to_set()) by {
            assert forall|p: ChunkPos| self@.dom().contains(p) <==> keys.to_set().contains(p) by {
                if self@.dom().contains(p) {
                    let i = choose|i: int| 0 <= i < s.len() && (#[trigger] s[i]).pos == p;
                    assert(keys[i] == p);
                }
                if keys.to_set().contains(p) {
                    let i = choose|i: int| 0 <= i < keys.len() && keys[i] == p;
                    assert(s[i].pos == p);
                }
            }
        }
        keys.unique_seq_to_set();
    }

    /// Puts `data` in the store at `p`, in place of any chunk already there.
    pub fn insert(&mut self, p: ChunkPos, data: ChunkData)
        requires
            old(self).wf(),
            data.wf(),
        ensures
            final(self).wf(),
            final(self)@ == old(self)@.insert(p, data),
    {
        let ghost old_map = self@;
        match self.find(p) {
            Some(i) => {
                self.entries.remove(i);
                self.entries.insert(i, ResidentChunk { pos: p, data });
                let ghost s = self.entries@;
                assert(seq_unique(s));
                assert(self@ =~= old_map.insert(p, data)) by {
                    lemma_seq_map_at(s, i as int);
                    assert forall|q: ChunkPos| #[trigger] self@.contains_key(q) <==> old_map.insert(
                        p,
                        data,
                    ).contains_key(q) by {
                        if seq_has(s, q) {
                            let k = choose|k: int| 0 <= k < s.len() && (#[trigger] s[k]).pos == q;
                            if k != i {
                                lemma_seq_map_at(old(self).entries@, k);
                            }
                        }
                        if old_map.contains_key(q) && q != p {
                            let k = choose|k: int|
                                0 <= k < old(self).entries@.len()
                                    && (#[trigger] old(self).entries@[k]).pos == q;
                            assert(s[k].pos == q);
                        }
                    }
                    assert forall|q: ChunkPos| #[trigger] self@.contains_key(q) && q != p implies self@[q]
                        == old_map[q] by {
                        let k = choose|k: int| 0 <= k < s.len() && (#[trigger] s[k]).pos == q;
                        lemma_seq_map_at(s, k);
                        lemma_seq_map_at(old(self).entries@, k);
                    }
                }
            },
            None => {
                self.entries.push(ResidentChunk { pos: p, data });
                let ghost s = self.entries@;
                assert(seq_unique(s)) by {
                    assert forall|i: int, j: int| 0 <= i < j < s.len() implies (#[trigger] s[i]).pos
                        != (#[trigger] s[j]).pos by {
                        if j == s.len() - 1 {
                            assert(old(self).entries@[i] == s[i]);
                            assert(!seq_has(old(self).entries@, p));
                        }
                    }
                }
                assert(self@ =~= old_map.insert(p, data)) by {
                    lemma_seq_map_at(s, s.len() - 1);
                    assert forall|q: ChunkPos| #[trigger] self@.contains_key(q) <==> old_map.insert(
                        p,
                        data,
                    ).contains_key(q) by {
                        if seq_has(s, q) {
                            let k = choose|k: int| 0 <= k < s.len() && (#[trigger] s[k]).pos == q;
                            if k < s.len() - 1 {
                                lemma_seq_map_at(old(self).entries@, k);
                            }
                        }
                        if old_map.contains_key(q) {
                            let k = choose|k: int|
                                0 <= k < old(self).entries@.len()
                                    && (#[trigger] old(self).entries@[k]).pos == q;
                            assert(s[k].pos == q);
                        }
                    }
                    assert forall|q: ChunkPos| #[trigger] self@.contains_key(q) && q != p implies self@[q]
                        == old_map[q] by {
                        let k = choose|k: int| 0 <= k < s.len() && (#[trigger] s[k]).pos == q;
                        lemma_seq_map_at(s, k);
                        lemma_seq_map_at(old(self).entries@, k);
                    }
                }
            },
        }
    }

    /// Removes every chunk that no view in `views` holds and that is not
    /// marked as viewed; keeps the others unchanged.
    pub fn evict_unless(&mut self, views: &Vec<ChunkView>)
        requires
            old(self).wf(),
        ensures
            final(self).wf(),
            forall|p: ChunkPos| #[trigger] final(self)@.contains_key(p) <==> old(self)@.contains_key(p)
                && (demanded(views@, p) || old(self)@[p].viewed),
            forall|p: ChunkPos| #[trigger] final(self)@.contains_key(p) ==> final(self)@[p] == old(self)@[p],
    {
        let ghost orig = self.entries@;
        let mut kept: Vec<ResidentChunk> = Vec::new();
        while self.entries.len() > 0
            invariant
                seq_unique(orig),
                forall|i: int| 0 <= i < orig.len() ==> (#[trigger] orig[i]).data.wf(),
                self.entries@.len() <= orig.len(),
                self.entries@ == orig.take(self.entries@.len() as int),
                seq_unique(kept@),
                forall|i: int, j: int|
                    0 <= i < self.entries@.len() && 0 <= j < kept@.len() ==> (#[trigger] self.entries@[i]).pos
                        != (#[trigger] kept@[j]).pos,
                forall|j: int|
                    0 <= j < kept@.len() ==> {
                        &&& (demanded(views@, (#[trigger] kept@[j]).pos) || kept@[j].data.viewed)
                        &&& seq_has(orig, kept@[j].pos)
                        &&& seq_map(orig)[kept@[j].pos] == kept@[j].data
                        &&& kept@[j].data.wf()
                    },
                forall|j: int|
                    self.entries@.len() <= j < orig.len() && (demanded(views@, (#[trigger] orig[j]).pos)
                        || orig[j].data.viewed) ==> seq_has(kept@, orig[j].pos),
            decreases self.entries@.len(),
        {
            let n: usize = self.entries.len();
            let e = self.entries.pop().unwrap();
            assert(e == orig[n - 1]);
            proof {
                lemma_seq_map_at(orig, n - 1);
            }
            if e.data.viewed || is_demanded(views, e.pos) {
                let ghost before = kept@;
                kept.push(e);
                assert forall|i: int, j: int| 0 <= i < j < kept@.len() implies (#[trigger] kept@[i]).pos
                    != (#[trigger] kept@[j]).pos by {
                    if j == kept@.len() - 1 {
                        assert(orig[n - 1].pos != before[i].pos);
                    }
                }
                assert forall|j: int|
                    self.entries@.len() <= j < orig.len() && (demanded(views@, (#[trigger] orig[j]).pos)
                        || orig[j].data.viewed) implies seq_has(kept@, orig[j].pos) by {
                    if j == n - 1 {
                        assert(kept@[kept@.len() - 1] == orig[j]);
                    } else {
                        let k = choose|k: int| 0 <= k < before.len() && (#[trigger] before[k]).pos == orig[j].pos;
                        assert(kept@[k] == before[k]);
                    }
                }
            }
            assert(self.entries@ =~= orig.take(self.entries@.len() as int));
            assert forall|i: int, j: int|
                0 <= i < self.entries@.len() && 0 <= j < kept@.len() implies (#[trigger] self.entries@[i]).pos
                    != (#[trigger] kept@[j]).pos by {
                assert(self.entries@[i] == orig[i]);
                if j == kept@.len() - 1 && kept@[j] == e {
                    assert(orig[i].pos != orig[n - 1].pos);
                }
            }
        }
        self.entries = kept;
        let ghost om = seq_map(orig);
        assert forall|p: ChunkPos| #[trigger] self@.contains_key(p) <==> om.contains_key(p)
            && (demanded(views@, p) || om[p].viewed) by {
            if self@.contains_key(p) {
                let j = choose|j: int| 0 <= j < self.entries@.len() && (#[trigger] self.entries@[j]).pos == p;
                assert(self.entries@[j].pos == p);
            }
            if om.contains_key(p) {
                let j = choose|j: int| 0 <= j < orig.len() && (#[trigger] orig[j]).pos == p;
                lemma_seq_map_at(orig, j);
            }
        }
        assert forall|p: ChunkPos| #[trigger] self@.contains_key(p) implies self@[p] == om[p] by {
            let j = choose|j: int| 0 <= j < self.entries@.len() && (#[trigger] self.entries@[j]).pos == p;
            lemma_seq_map_at(self.entries@, j);
        }
    }

    /// Inserts each generated chunk whose coordinate some view in `views`
    /// still holds, in order; a chunk no view holds any more is dropped.
    pub fn apply_inserts(&mut self, results: Vec<ResidentChunk>, views: &Vec<ChunkView>)
        requires
            old(self).wf(),
            forall|i: int| 0 <= i < results@.len() ==> (#[trigger] results@[i]).data.wf(),
        ensures
            final(self).wf(),
            final(self)@ == inserted(old(self)@, results@, views@),
    {
        let mut results = results;
        let ghost orig_results = results@;
        while results.len() > 0
            invariant
                self.wf(),
                forall|i: int| 0 <= i < results@.len() ==> (#[trigger] results@[i]).data.wf(),
                inserted(self@, results@, views@) == inserted(old(self)@, orig_results, views@),
            decreases results@.len(),
        {
            let ghost rs = results@;
            let r = results.remove(0);
            assert(rs[0] == r);
            assert(results@ =~= rs.drop_first());
            if is_demanded(views, r.pos) {
                self.insert(r.pos, r.data);
            }
        }
    }

    /// Marks the chunk at `p` as viewed or not; false when it is not resident.
    pub fn set_viewed(&mut self, p: ChunkPos, viewed: bool) -> (r: bool)
        requires
            old(self).wf(),
        ensures
            final(self).wf(),
            r == old(self)@.contains_key(p),
            r ==> final(self)@ == old(self)@.insert(p, ChunkData { viewed, ..old(self)@[p] }),
            !r ==> final(self)@ == old(self)@,
    {
        match self.find(p) {
            Some(i) => {
                proof {
                    lemma_seq_map_at(self.entries@, i as int);
                }
                let mut e = self.entries.remove(i);
                e.data.set_viewed(viewed);
                assert(e.data == ChunkData { viewed, ..old(self)@[p] });
                self.entries.insert(i, e);
                proof {
                    assert(seq_unique(self.entries@));
                    let s = self.entries@;
                    assert(s =~= old(self).entries@.update(i as int, s[i as int]));
                    lemma_seq_map_update(old(self).entries@, i as int, s[i as int]);
                }
                true
            },
            None => false,
        }
    }

    /// Replaces the block at local (x, y, z) of the chunk at `p`; false when
    /// that chunk is not resident.
    pub fn set_block(&mut self, p: ChunkPos, x: usize, y: usize, z: usize, block: u16) -> (r: bool)
        requires
            old(self).wf(),
            crate::terrain::in_chunk(x as int, y as int, z as int),
        ensures
            final(self).wf(),
            r == old(self)@.contains_key(p),
            r ==> final(self)@.dom() == old(self)@.dom(),
            r ==> final(self)@[p].blocks@ == old(self)@[p].blocks@.update(
                crate::terrain::block_index(x as int, y as int, z as int),
                block,
            ),
            r ==> final(self)@[p].viewed == old(self)@[p].viewed,
            forall|q: ChunkPos| q != p && #[trigger] old(self)@.contains_key(q) ==> final(self)@[q] == old(self)@[q],
            !r ==> final(self)@ == old(self)@,
    {
        match self.find(p) {
            Some(i) => {
                proof {
                    lemma_seq_map_at(self.entries@, i as int);
                }
                let mut e = self.entries.remove(i);
                e.data.set_block(x, y, z, block);
                self.entries.insert(i, e);
                proof {
                    assert(seq_unique(self.entries@));
                    let s = self.entries@;
                    assert(s =~= old(self).entries@.update(i as int, s[i as int]));
                    lemma_seq_map_update(old(self).entries@, i as int, s[i as int]);
                }
                true
            },
            None => false,
        }
    }
}

/// The store after inserting, in order, each result whose coordinate some
/// view in `views` holds.
pub open spec fn inserted(
    m: Map<ChunkPos, ChunkData>,
    results: Seq<ResidentChunk>,
    views: Seq<ChunkView>,
) -> Map<ChunkPos, ChunkData>
    decreases results.len(),
{
    if results.len() == 0 {
        m
    } else {
        let r = results[0];
        inserted(
            if demanded(views, r.pos) {
                m.insert(r.pos, r.data)
            } else {
                m
            },
            results.drop_first(),
            views,
        )
    }
}

proof fn lemma_seq_map_update(s: Seq<ResidentChunk>, i: int, e: ResidentChunk)
    requires
        seq_unique(s),
        0 <= i < s.len(),
        e.pos == s[i].pos,
    ensures
        seq_unique(s.update(i, e)),
        seq_map(s.update(i, e)) == seq_map(s).insert(e.pos, e.data),
{
    let t = s.update(i, e);
    assert(seq_unique(t)) by {
        assert forall|a: int, b: int| 0 <= a < b < t.len() implies (#[trigger] t[a]).pos != (#[trigger] t[b]).pos by {
            assert(s[a].pos != s[b].pos);
        }
    }
    assert forall|q: ChunkPos| #[trigger] seq_map(t).contains_key(q) <==> seq_map(s).insert(e.pos, e.data).contains_key(q) by {
        if seq_has(t, q) {
            let k = choose|k: int| 0 <= k < t.len() && (#[trigger] t[k]).pos == q;
            assert(s[k].pos == q);
        }
        if seq_has(s, q) {
            let k = choose|k: int| 0 <= k < s.len() && (#[trigger] s[k]).pos == q;
            assert(t[k].pos == q);
        }
        if q == e.pos {
            assert(t[i].pos == q);
        }
    }
    assert forall|q: ChunkPos| #[trigger] seq_map(t).contains_key(q) implies seq_map(t)[q] == seq_map(s).insert(e.pos, e.data)[q] by {
        let k = choose|k: int| 0 <= k < t.len() && (#[trigger] t[k]).pos == q;
        lemma_seq_map_at(t, k);
        if k != i {
            lemma_seq_map_at(s, k);
        }
    }
    assert(seq_map(t) =~= seq_map(s).insert(e.pos, e.data));
}

} // verus!
