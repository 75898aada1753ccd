use vstd::prelude::*;

use crate::aggregate::{aggregate, demand_order, priority_of, viewable_sources, DemandRecord};
use crate::coords::{ChunkPos, ChunkView};
use crate::relocation::TargetPosition;
use crate::geometry::view_fits;
use crate::relocation::{Relocation, SetClientLocation};
use crate::store::{demanded, inserted, ChunkStore, ResidentChunk};
use crate::coords::{chunk_of, CHUNK_HEIGHT, WORLD_Y_OFFSET};
use crate::terrain::{block_index, ChunkData};

verus! {

/// What a generation worker reports for one requested coordinate.
pub enum GenOutcome {
    /// The chunk was generated.
    Done(ResidentChunk),
    /// Generation failed; the coordinate may be requested again.
    Failed(ChunkPos),
}

pub open spec fn outcome_pos(o: GenOutcome) -> ChunkPos {
    match o {
        GenOutcome::Done(c) => c.pos,
        GenOutcome::Failed(p) => p,
    }
}

/// Some outcome in `outcomes` is for the coordinate `p`.
pub open spec fn reported(outcomes: Seq<GenOutcome>, p: ChunkPos) -> bool {
    exists|i: int| 0 <= i < outcomes.len() && outcome_pos(#[trigger] outcomes[i]) == p
}

/// The generated chunks among `outcomes`, in order.
pub open spec fn done_chunks(outcomes: Seq<GenOutcome>) -> Seq<ResidentChunk>
    decreases outcomes.len(),
{
    if outcomes.len() == 0 {
        seq![]
    } else {
        match outcomes[0] {
            GenOutcome::Done(c) => seq![c] + done_chunks(outcomes.drop_first()),
            GenOutcome::Failed(_) => done_chunks(outcomes.drop_first()),
        }
    }
}

/// Everything one world-mutation turn hands back to its host: the
/// coordinates to generate and the relocations that may now take effect.
pub struct TickReport {
    pub requests: Vec<DemandRecord>,
    pub commits: Vec<(u64, Relocation)>,
}

/// The state owned by the world-mutation turn: resident chunks, the
/// coordinates being generated, and the pending relocations.
pub struct World {
    store: ChunkStore,
    in_flight: Vec<ChunkPos>,
    relocations: SetClientLocation,
    tick: u64,
    batch_limit: usize,
}

proof fn lemma_inserted_keeps(m: Map<ChunkPos, ChunkData>, s: Seq<ResidentChunk>, views: Seq<ChunkView>, p: ChunkPos)
    requires
        m.contains_key(p),
    ensures
        inserted(m, s, views).contains_key(p),
    decreases s.len(),
{
    if s.len() > 0 {
        let r = s[0];
        let m2 = if demanded(views, r.pos) {
            m.insert(r.pos, r.data)
        } else {
            m
        };
        lemma_inserted_keeps(m2, s.drop_first(), views, p);
    }
}

fn without(v: &Vec<ChunkPos>, p: ChunkPos) -> (r: Vec<ChunkPos>)
    requires
        v@.no_duplicates(),
    ensures
        r@.no_duplicates(),
        forall|x: ChunkPos| r@.contains(x) <==> v@.contains(x) && x != p,
{
    let mut out: Vec<ChunkPos> = Vec::new();
    let mut i: usize = 0;
    while i < v.len()
        invariant
            i <= v@.len(),
            v@.no_duplicates(),
            out@.no_duplicates(),
            forall|x: ChunkPos| out@.contains(x) <==> v@.take(i as int).contains(x) && x != p,
        decreases v@.len() - i,
    {
        let x = v[i];
        let ghost t1 = v@.take(i as int);
        let ghost t2 = v@.take(i + 1);
        assert(t2 =~= t1.push(x));
        let ghost ob = out@;
        if x != p {
            assert(!out@.contains(x)) by {
                if out@.contains(x) {
                    let k = choose|k: int| 0 <= k < t1.len() && t1[k] == x;
                    assert(v@[k] == v@[i as int]);
                }
            }
            out.push(x);
        }
        assert forall|y: ChunkPos| out@.contains(y) <==> t2.contains(y) && y != p by {
            if t2.contains(y) && y != x {
                let k = choose|k: int| 0 <= k < t2.len() && t2[k] == y;
                assert(t1[k] == y);
            }
            if t1.contains(y) {
                let k = choose|k: int| 0 <= k < t1.len() && t1[k] == y;
                assert(t2[k] == y);
            }
            if y == x {
                assert(t2[i as int] == y);
            }
            if out@.contains(y) && y == x && x != p {
                assert(out@[out@.len() - 1] == y);
            }
            if out@.contains(y) && y != x {
                let k = choose|k: int| 0 <= k < out@.len() && out@[k] == y;
                if x != p {
                    assert(k < ob.len());
                }
                assert(ob[k] == y);
                assert(ob.contains(y));
            }
            if ob.contains(y) {
                let k = choose|k: int| 0 <= k < ob.len() && ob[k] == y;
                assert(out@[k] == y);
            }
        }
        i += 1;
    }
    assert(v@.take(v@.len() as int) =~= v@);
    out
}

impl World {
    /// The store is well formed, and no coordinate has two generation tasks.
    pub closed spec fn wf(&self) -> bool {
        &&& self.store.wf()
        &&& self.in_flight@.no_duplicates()
    }

    /// The resident chunks.
    pub closed spec fn chunks(&self) -> Map<ChunkPos, ChunkData> {
        self.store@
    }

    /// The coordinates with a generation task under way.
    pub closed spec fn generating(&self) -> Set<ChunkPos> {
        Set::new(|p: ChunkPos| self.in_flight@.contains(p))
    }

    /// The coordinates with a generation task under way, in request order.
    pub closed spec fn in_flight_seq(&self) -> Seq<ChunkPos> {
        self.in_flight@
    }

    /// The pending relocations, by observer id.
    pub closed spec fn pending(&self) -> Map<u64, Relocation> {
        self.relocations@
    }

    pub closed spec fn ticks(&self) -> u64 {
        self.tick
    }

    pub closed spec fn limit(&self) -> usize {
        self.batch_limit
    }

    /// An empty world that requests at most `batch_limit` chunks per tick.
    pub fn new(batch_limit: usize) -> (r: World)
        ensures
            r.wf(),
            r.chunks() == Map::<ChunkPos, ChunkData>::empty(),
            r.generating() == Set::<ChunkPos>::empty(),
            r.pending() == Map::<u64, Relocation>::empty(),
            r.ticks() == 0,
            r.limit() == batch_limit,
    {
        let r = World {
            store: ChunkStore::new(),
            in_flight: Vec::new(),
            relocations: SetClientLocation::new(),
            tick: 0,
            batch_limit,
        };
        assert(r.generating() =~= Set::<ChunkPos>::empty());
        r
    }

    /// The chunk store, for reading.
    pub fn store(&self) -> (r: &ChunkStore)
        requires
            self.wf(),
        ensures
            r.wf(),
            r@ == self.chunks(),
    {
        &self.store
    }

    /// Number of coordinates being generated.
    pub fn generating_count(&self) -> (r: usize)
        ensures
            r == self.in_flight_seq().len(),
    {
        self.in_flight.len()
    }

    /// Whether a generation task for `p` is under way.
    pub fn is_generating(&self, p: ChunkPos) -> (r: bool)
        ensures
            r == self.generating().contains(p),
    {
        let mut i: usize = 0;
        while i < self.in_flight.len()
            invariant
                i <= self.in_flight@.len(),
                forall|k: int| 0 <= k < i ==> self.in_flight@[k] != p,
            decreases self.in_flight@.len() - i,
        {
            if self.in_flight[i] == p {
                assert(self.in_flight@.contains(p));
                return true;
            }
            i += 1;
        }
        false
    }

    /// Queues a relocation of `client`; see `SetClientLocation::set_location`.
    pub fn set_location(&mut self, client: u64, loc: u64, pos: TargetPosition, destination: ChunkPos)
        ensures
            final(self).pending() == old(self).pending().insert(
                client,
                Relocation { location: loc, position: pos, destination },
            ),
            final(self).chunks() == old(self).chunks(),
            final(self).generating() == old(self).generating(),
            final(self).in_flight_seq() == old(self).in_flight_seq(),
            final(self).wf() == old(self).wf(),
            final(self).ticks() == old(self).ticks(),
            final(self).limit() == old(self).limit(),
    {
        self.relocations.set_location(client, loc, pos, destination);
    }

    /// Sets the block at world (x, y, z) in the resident chunk that holds
    /// it; false, with nothing changed, when that chunk is not resident or
    /// the height lies outside the chunk.
    pub fn set_block(&mut self, x: i32, y: i32, z: i32, block: u16) -> (r: bool)
        requires
            old(self).wf(),
        ensures
            final(self).wf(),
            ({
                let c = ChunkPos { x: chunk_of(x as int) as i32, z: chunk_of(z as int) as i32 };
                let i = block_index(x - 16 * c.x, y + WORLD_Y_OFFSET, z - 16 * c.z);
                &&& r == (old(self).chunks().contains_key(c) && 0 <= y + WORLD_Y_OFFSET < CHUNK_HEIGHT)
                &&& r ==> final(self).chunks().dom() == old(self).chunks().dom()
                &&& r ==> final(self).chunks()[c].blocks@ == old(self).chunks()[c].blocks@.update(i, block)
                &&& r ==> final(self).chunks()[c].viewed == old(self).chunks()[c].viewed
                &&& forall|q: ChunkPos|
                    q != c && #[trigger] old(self).chunks().contains_key(q) ==> final(self).chunks()[q] == old(self).chunks()[q]
                &&& !r ==> final(self).chunks() == old(self).chunks()
            }),
            final(self).in_flight_seq() == old(self).in_flight_seq(),
            final(self).pending() == old(self).pending(),
            final(self).ticks() == old(self).ticks(),
            final(self).limit() == old(self).limit(),
    {
        let c = ChunkPos::from_block(x, z);
        let ly: i64 = y as i64 + WORLD_Y_OFFSET;
        if ly < 0 || ly >= CHUNK_HEIGHT as i64 {
            return false;
        }
        let lx: i64 = x as i64 - 16 * c.x as i64;
        let lz: i64 = z as i64 - 16 * c.z as i64;
        proof {
            crate::coords::lemma_chunk_of_bounds(x as int);
            crate::coords::lemma_chunk_of_bounds(z as int);
        }
        self.store.set_block(c, lx as usize, ly as usize, lz as usize, block)
    }

    /// Forgets a client that went away.
    pub fn remove_client(&mut self, client: u64)
        ensures
            final(self).pending() == old(self).pending().remove(client),
            final(self).chunks() == old(self).chunks(),
            final(self).in_flight_seq() == old(self).in_flight_seq(),
            final(self).wf() == old(self).wf(),
            final(self).ticks() == old(self).ticks(),
            final(self).limit() == old(self).limit(),
    {
        self.relocations.remove_client(client);
    }

    /// One world-mutation turn. It takes the outcomes the workers reported
    /// since the last turn and the current views, and in order: clears the
    /// reported coordinates from the generation set; inserts each generated
    /// chunk that some view still holds; evicts every chunk no view holds
    /// unless it is marked viewed; commits the relocations whose destination
    /// is resident; and requests the chunks in view that are neither resident
    /// nor being generated, which then count as being generated.
    pub fn run_tick(&mut self, views: &Vec<ChunkView>, outcomes: Vec<GenOutcome>) -> (r: TickReport)
        requires
            old(self).wf(),
            old(self).ticks() < u64::MAX,
            forall|i: int| 0 <= i < views@.len() ==> view_fits(#[trigger] views@[i]),
            forall|i: int|
                0 <= i < outcomes@.len() ==> match #[trigger] outcomes@[i] {
                    GenOutcome::Done(c) => c.data.wf(),
                    GenOutcome::Failed(_) => true,
                },
        ensures
            final(self).wf(),
            final(self).in_flight_seq().no_duplicates(),
            final(self).ticks() == old(self).ticks() + 1,
            final(self).limit() == old(self).limit(),
            ({
                let mid = inserted(old(self).chunks(), done_chunks(outcomes@), views@);
                &&& forall|p: ChunkPos| #[trigger] final(self).chunks().contains_key(p) <==> mid.contains_key(p)
                    && (demanded(views@, p) || mid[p].viewed)
                &&& forall|p: ChunkPos| #[trigger] final(self).chunks().contains_key(p) ==> final(self).chunks()[p] == mid[p]
            }),
            forall|p: ChunkPos|
                old(self).chunks().contains_key(p) && demanded(views@, p) ==> #[trigger] final(self).chunks().contains_key(p),
            forall|j: int| 0 <= j < r.requests@.len() ==> {
                &&& demanded(views@, (#[trigger] r.requests@[j]).pos)
                &&& !final(self).chunks().contains_key(r.requests@[j].pos)
                &&& !(old(self).generating().contains(r.requests@[j].pos) && !reported(outcomes@, r.requests@[j].pos))
                &&& r.requests@[j].priority == priority_of(views@, r.requests@[j].pos)
                &&& r.requests@[j].tick == old(self).ticks()
            },
            forall|i: int, j: int|
                0 <= i < j < r.requests@.len() ==> (#[trigger] r.requests@[i]).pos != (#[trigger] r.requests@[j]).pos,
            r.requests@.len() <= old(self).limit(),
            r.requests@.len() < old(self).limit() ==> forall|p: ChunkPos|
                demanded(views@, p) && !final(self).chunks().contains_key(p) && !(old(self).generating().contains(p)
                    && !reported(outcomes@, p)) ==> exists|j: int|
                    0 <= j < r.requests@.len() && (#[trigger] r.requests@[j]).pos == p,
            exists|q: Seq<Seq<ChunkPos>>| #[trigger] viewable_sources(views@, q) && r.requests@.map_values(
                |d: DemandRecord| d.pos,
            ) == demand_order(
                q,
                final(self).chunks().dom(),
                Set::new(|p: ChunkPos| old(self).generating().contains(p) && !reported(outcomes@, p)),
            ).take(r.requests@.len() as int),
            r.requests@.len() < old(self).limit() ==> forall|p: ChunkPos|
                demanded(views@, p) && !final(self).chunks().contains_key(p) ==> #[trigger] final(self).generating().contains(p),
            forall|p: ChunkPos| #[trigger] final(self).generating().contains(p) <==> (old(self).generating().contains(p)
                && !reported(outcomes@, p)) || exists|j: int|
                0 <= j < r.requests@.len() && (#[trigger] r.requests@[j]).pos == p,
            forall|c: u64| #[trigger] final(self).pending().contains_key(c) <==> old(self).pending().contains_key(c)
                && !final(self).chunks().contains_key(old(self).pending()[c].destination),
            forall|c: u64| #[trigger] final(self).pending().contains_key(c) ==> final(self).pending()[c] == old(self).pending()[c],
            forall|j: int| 0 <= j < r.commits@.len() ==> {
                &&& old(self).pending().contains_key((#[trigger] r.commits@[j]).0)
                &&& old(self).pending()[r.commits@[j].0] == r.commits@[j].1
                &&& final(self).chunks().contains_key(r.commits@[j].1.destination)
            },
            forall|i: int, j: int| 0 <= i < j < r.commits@.len() ==> (#[trigger] r.commits@[i]).0 != (#[trigger] r.commits@[j]).0,
            forall|c: u64|
                #[trigger] old(self).pending().contains_key(c) && final(self).chunks().contains_key(old(self).pending()[c].destination)
                    ==> exists|j: int| 0 <= j < r.commits@.len() && (#[trigger] r.commits@[j]).0 == c,
    {
        let ghost orig = outcomes@;
        let ghost flying0 = self.in_flight@;
        let total: usize = outcomes.len();
        let mut outcomes = outcomes;
        let mut done: Vec<ResidentChunk> = Vec::new();
        let mut consumed: usize = 0;
        while outcomes.len() > 0
            invariant
                self.in_flight@.no_duplicates(),
                self.store.wf(),
                self.store@ == old(self).store@,
                consumed + outcomes@.len() == orig.len(),
                orig.len() == total,
                self.tick == old(self).tick,
                self.batch_limit == old(self).batch_limit,
                self.relocations@ == old(self).relocations@,
                outcomes@ == orig.skip(consumed as int),
                done@ + done_chunks(outcomes@) == done_chunks(orig),
                forall|i: int| 0 <= i < done@.len() ==> (#[trigger] done@[i]).data.wf(),
                forall|i: int|
                    0 <= i < outcomes@.len() ==> match #[trigger] outcomes@[i] {
                        GenOutcome::Done(c) => c.data.wf(),
                        GenOutcome::Failed(_) => true,
                    },
                forall|p: ChunkPos| #[trigger] self.in_flight@.contains(p) <==> flying0.contains(p)
                    && !reported(orig.take(consumed as int), p),
            decreases outcomes@.len(),
        {
            let ghost before = outcomes@;
            let ghost done_before = done@;
            let o = outcomes.remove(0);
            assert(before[0] == o);
            assert(outcomes@ =~= before.drop_first());
            assert(orig[consumed as int] == o);
            assert(orig.skip(consumed + 1) =~= before.drop_first());
            assert(orig.take(consumed + 1) =~= orig.take(consumed as int).push(o));
            let p = match &o {
                GenOutcome::Done(c) => c.pos,
                GenOutcome::Failed(p) => *p,
            };
            assert(p == outcome_pos(o));
            let ghost fl = self.in_flight@;
            self.in_flight = without(&self.in_flight, p);
            match o {
                GenOutcome::Done(c) => {
                    done.push(c);
                    assert(done@ + done_chunks(outcomes@) =~= done_before + done_chunks(before));
                },
                GenOutcome::Failed(_) => {},
            }
            assert forall|q: ChunkPos| reported(orig.take(consumed + 1), q) <==> reported(orig.take(consumed as int), q) || q == p by {
                let t = orig.take(consumed + 1);
                if reported(t, q) {
                    let i = choose|i: int| 0 <= i < t.len() && outcome_pos(#[trigger] t[i]) == q;
                    if i < consumed {
                        assert(orig.take(consumed as int)[i] == t[i]);
                    }
                }
                if reported(orig.take(consumed as int), q) {
                    let i = choose|i: int| 0 <= i < consumed && outcome_pos(#[trigger] orig.take(consumed as int)[i]) == q;
                    assert(t[i] == orig.take(consumed as int)[i]);
                }
                if q == p {
                    assert(outcome_pos(t[consumed as int]) == q);
                }
            }
            assert forall|q: ChunkPos| #[trigger] self.in_flight@.contains(q) <==> flying0.contains(q)
                && !reported(orig.take(consumed + 1), q) by {
                assert(self.in_flight@.contains(q) <==> fl.contains(q) && q != p);
            }
            consumed += 1;
        }
        assert(orig.take(consumed as int) =~= orig);
        assert(done_chunks(outcomes@) =~= Seq::<ResidentChunk>::empty());
        assert(done@ =~= done_chunks(orig));
        let ghost settled = self.in_flight@;
        self.store.apply_inserts(done, views);
        let ghost mid = self.store@;
        self.store.evict_unless(views);
        proof {
            assert forall|p: ChunkPos|
                old(self).chunks().contains_key(p) && demanded(views@, p) implies #[trigger] self.store@.contains_key(p) by {
                lemma_inserted_keeps(old(self).store@, done_chunks(orig), views@, p);
            }
        }
        let commits = self.relocations.process(&self.store);
        let ghost store_after = self.store@;
        let ghost pending_after = self.relocations@;
        let requests = aggregate(views, &self.store, &self.in_flight, self.batch_limit, self.tick);
        proof {
            let settled_set = Set::new(|p: ChunkPos| old(self).generating().contains(p) && !reported(orig, p));
            assert(settled.to_set() =~= settled_set) by {
                assert forall|p: ChunkPos| settled.to_set().contains(p) <==> settled_set.contains(p) by {
                    assert(settled.to_set().contains(p) <==> settled.contains(p));
                    assert(old(self).generating().contains(p) <==> flying0.contains(p));
                }
            }
        }
        let mut j: usize = 0;
        while j < requests.len()
            invariant
                j <= requests@.len(),
                self.in_flight@.no_duplicates(),
                self.store.wf(),
                self.store@ == store_after,
                self.relocations@ == pending_after,
                self.tick == old(self).tick,
                self.batch_limit == old(self).batch_limit,
                forall|i: int| 0 <= i < requests@.len() ==> !settled.contains((#[trigger] requests@[i]).pos),
                forall|a: int, b: int| 0 <= a < b < requests@.len() ==> (#[trigger] requests@[a]).pos != (#[trigger] requests@[b]).pos,
                forall|p: ChunkPos| #[trigger] self.in_flight@.contains(p) <==> settled.contains(p) || exists|i: int|
                    0 <= i < j && (#[trigger] requests@[i]).pos == p,
            decreases requests@.len() - j,
        {
            let p = requests[j].pos;
            let ghost before = self.in_flight@;
            assert(!before.contains(p)) by {
                if before.contains(p) {
                    if !settled.contains(p) {
                        let i = choose|i: int| 0 <= i < j && (#[trigger] requests@[i]).pos == p;
                        assert(requests@[i].pos != requests@[j as int].pos);
                    }
                }
            }
            self.in_flight.push(p);
            assert forall|q: ChunkPos| #[trigger] self.in_flight@.contains(q) <==> settled.contains(q) || exists|i: int|
                0 <= i < j + 1 && (#[trigger] requests@[i]).pos == q by {
                if self.in_flight@.contains(q) && q != p {
                    let k = choose|k: int| 0 <= k < self.in_flight@.len() && self.in_flight@[k] == q;
                    assert(before[k] == q);
                }
                if before.contains(q) {
                    let k = choose|k: int| 0 <= k < before.len() && before[k] == q;
                    assert(self.in_flight@[k] == q);
                }
                if q == p {
                    assert(self.in_flight@[self.in_flight@.len() - 1] == q);
                }
                if exists|i: int| 0 <= i < j + 1 && (#[trigger] requests@[i]).pos == q {
                    let i = choose|i: int| 0 <= i < j + 1 && (#[trigger] requests@[i]).pos == q;
                    if i < j {
                        assert(before.contains(q));
                    }
                }
            }
            j += 1;
        }
        self.tick = self.tick + 1;
        let r = TickReport { requests, commits };
        assert forall|p: ChunkPos| #[trigger] self.generating().contains(p) <==> (old(self).generating().contains(p)
            && !reported(orig, p)) || exists|j: int| 0 <= j < r.requests@.len() && (#[trigger] r.requests@[j]).pos == p by {
            assert(self.generating().contains(p) <==> self.in_flight@.contains(p));
            assert(old(self).generating().contains(p) <==> flying0.contains(p));
            if exists|j: int| 0 <= j < r.requests@.len() && (#[trigger] r.requests@[j]).pos == p {
                let j = choose|j: int| 0 <= j < r.requests@.len() && (#[trigger] r.requests@[j]).pos == p;
                assert(r.requests@[j] == requests@[j]);
            }
            if exists|j: int| 0 <= j < requests@.len() && (#[trigger] requests@[j]).pos == p {
                let j = choose|j: int| 0 <= j < requests@.len() && (#[trigger] requests@[j]).pos == p;
                assert(r.requests@[j].pos == p);
            }
        }
        assert forall|p: ChunkPos|
            r.requests@.len() < old(self).limit() && demanded(views@, p) && !self.store@.contains_key(p)
                implies #[trigger] self.generating().contains(p) by {
            assert(self.generating().contains(p) <==> self.in_flight@.contains(p));
            if !settled.contains(p) {
                assert(!self.store@.contains_key(p));
                assert(exists|j: int| 0 <= j < requests@.len() && (#[trigger] requests@[j]).pos == p);
            }
        }
        assert forall|c: u64|
            #[trigger] old(self).pending().contains_key(c) && self.store@.contains_key(old(self).pending()[c].destination)
                implies exists|j: int| 0 <= j < r.commits@.len() && (#[trigger] r.commits@[j]).0 == c by {
            assert(old(self).relocations@.contains_key(c));
            let j = choose|j: int| 0 <= j < commits@.len() && (#[trigger] commits@[j]).0 == c;
            assert(r.commits@[j].0 == c);
        }
        r
    }
}

} // verus!
