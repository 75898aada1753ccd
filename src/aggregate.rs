use vstd::prelude::*;

use crate::coords::{dist_sq, in_view, ChunkPos, ChunkView};
use crate::geometry::{rings_ascending, view_fits, viewable_chunks};
use crate::interleave::{interleaved, lemma_interleaved_contains, Interleave};
use crate::store::{demanded, ChunkStore};
use crate::unique::{dedup, lemma_dedup_correct, Unique};

verus! {

/// The priority of a chunk at distance zero from its nearest observer;
/// priorities fall off with the inverse of the squared distance.
pub const PRIORITY_SCALE: u32 = 1048576;

/// A chunk coordinate waiting for generation, how urgent it is (higher is
/// more urgent), and the tick that asked for it.
#[derive(Clone, Copy, Debug, PartialEq, Eq, Structural, Hash)]
pub struct DemandRecord {
    pub pos: ChunkPos,
    pub priority: u32,
    pub tick: u64,
}

/// Squared distance from `p` to the nearest centre among `views`.
pub open spec fn nearest_dist_sq(views: Seq<ChunkView>, p: ChunkPos) -> int
    decreases views.len(),
{
    if views.len() == 0 {
        0
    } else if views.len() == 1 {
        dist_sq(views[0].pos, p)
    } else {
        let rest = nearest_dist_sq(views.drop_last(), p);
        let d = dist_sq(views.last().pos, p);
        if d < rest {
            d
        } else {
            rest
        }
    }
}

/// Priority of a chunk: the scale divided by one more than the squared
/// distance to the nearest observer.
pub open spec fn priority_of(views: Seq<ChunkView>, p: ChunkPos) -> int {
    PRIORITY_SCALE as int / (1 + nearest_dist_sq(views, p))
}

/// The items of `s` that are neither resident nor already being generated.
pub open spec fn missing(s: Seq<ChunkPos>, resident: Set<ChunkPos>, in_flight: Set<ChunkPos>) -> Seq<ChunkPos>
    decreases s.len(),
{
    if s.len() == 0 {
        seq![]
    } else {
        let x = s.last();
        missing(s.drop_last(), resident, in_flight) + if !resident.contains(x) && !in_flight.contains(x) {
            seq![x]
        } else {
            seq![]
        }
    }
}

/// The order in which chunks are requested: the observers' sequences
/// interleaved, without what is resident or being generated, each once.
pub open spec fn demand_order(
    sources: Seq<Seq<ChunkPos>>,
    resident: Set<ChunkPos>,
    in_flight: Set<ChunkPos>,
) -> Seq<ChunkPos> {
    dedup(missing(interleaved(sources), resident, in_flight))
}

proof fn lemma_missing_contains(s: Seq<ChunkPos>, resident: Set<ChunkPos>, in_flight: Set<ChunkPos>, x: ChunkPos)
    ensures
        missing(s, resident, in_flight).contains(x) <==> s.contains(x) && !resident.contains(x)
            && !in_flight.contains(x),
    decreases s.len(),
{
    if s.len() > 0 {
        let init = s.drop_last();
        lemma_missing_contains(init, resident, in_flight, x);
        let m = missing(s, resident, in_flight);
        let mi = missing(init, resident, in_flight);
        assert(s.contains(x) <==> init.contains(x) || s.last() == x) by {
            if s.contains(x) && s.last() != x {
                let k = choose|k: int| 0 <= k < s.len() && s[k] == x;
                assert(init[k] == x);
            }
            if init.contains(x) {
                let k = choose|k: int| 0 <= k < init.len() && init[k] == x;
                assert(s[k] == x);
            }
            if s.last() == x {
                assert(s[s.len() - 1] == x);
            }
        }
        if m.contains(x) {
            let k = choose|k: int| 0 <= k < m.len() && m[k] == x;
            if k < mi.len() {
                assert(mi[k] == x);
            }
        }
        if mi.contains(x) {
            let k = choose|k: int| 0 <= k < mi.len() && mi[k] == x;
            assert(m[k] == x);
        }
        if s.last() == x && !resident.contains(x) && !in_flight.contains(x) {
            assert(m[m.len() - 1] == x);
        }
    }
}

/// `sources` holds, for each view in turn, the chunks that view holds, each
/// once, nearest rings first.
pub open spec fn viewable_sources(views: Seq<ChunkView>, sources: Seq<Seq<ChunkPos>>) -> bool {
    &&& sources.len() == views.len()
    &&& forall|i: int| 0 <= i < views.len() ==> (#[trigger] sources[i]).no_duplicates()
    &&& forall|i: int| 0 <= i < views.len() ==> rings_ascending(views[i].pos, #[trigger] sources[i])
    &&& forall|i: int, p: ChunkPos| 0 <= i < views.len() ==> (#[trigger] sources[i].contains(p) <==> in_view(views[i], p))
}

/// Everything the demand order holds, and nothing twice.
pub proof fn lemma_demand_order(
    sources: Seq<Seq<ChunkPos>>,
    resident: Set<ChunkPos>,
    in_flight: Set<ChunkPos>,
)
    ensures
        demand_order(sources, resident, in_flight).no_duplicates(),
        forall|x: ChunkPos| #[trigger] demand_order(sources, resident, in_flight).contains(x) <==> {
            &&& exists|i: int| 0 <= i < sources.len() && (#[trigger] sources[i]).contains(x)
            &&& !resident.contains(x)
            &&& !in_flight.contains(x)
        },
{
    let m = missing(interleaved(sources), resident, in_flight);
    lemma_dedup_correct(m);
    assert forall|x: ChunkPos| #[trigger] demand_order(sources, resident, in_flight).contains(x) <==> {
        &&& exists|i: int| 0 <= i < sources.len() && (#[trigger] sources[i]).contains(x)
        &&& !resident.contains(x)
        &&& !in_flight.contains(x)
    } by {
        lemma_missing_contains(interleaved(sources), resident, in_flight, x);
        lemma_interleaved_contains(sources, x);
    }
}

fn contains_pos(v: &Vec<ChunkPos>, p: ChunkPos) -> (r: bool)
    ensures
        r == v@.contains(p),
{
    let mut i: usize = 0;
    while i < v.len()
        invariant
            i <= v@.len(),
            forall|k: int| 0 <= k < i ==> v@[k] != p,
        decreases v@.len() - i,
    {
        if v[i] == p {
            return true;
        }
        i += 1;
    }
    false
}

/// The chunks to request, in order: the sources interleaved, without the
/// resident ones and those being generated, each once.
pub fn order_demand(sources: Vec<Vec<ChunkPos>>, store: &ChunkStore, in_flight: &Vec<ChunkPos>) -> (r: Vec<
    ChunkPos,
>)
    requires
        store.wf(),
    ensures
        r@ == demand_order(sources@.map_values(|s: Vec<ChunkPos>| s@), store@.dom(), in_flight@.to_set()),
{
    let ghost q = sources@.map_values(|s: Vec<ChunkPos>| s@);
    let ghost resident = store@.dom();
    let ghost flying = in_flight@.to_set();
    let mut merged = Interleave::new(sources);
    let all = merged.collect_all();
    let mut kept: Vec<ChunkPos> = Vec::new();
    let mut i: usize = 0;
    while i < all.len()
        invariant
            i <= all@.len(),
            store.wf(),
            resident == store@.dom(),
            flying == in_flight@.to_set(),
            kept@ == missing(all@.take(i as int), resident, flying),
        decreases all@.len() - i,
    {
        let p = all[i];
        assert(all@.take(i + 1).drop_last() =~= all@.take(i as int));
        if !store.contains(p) && !contains_pos(in_flight, p) {
            kept.push(p);
            assert(kept@ =~= missing(all@.take(i + 1), resident, flying));
        } else {
            assert(kept@ =~= missing(all@.take(i + 1), resident, flying));
        }
        i += 1;
    }
    assert(all@.take(all@.len() as int) =~= all@);
    let mut unique = Unique::new(kept);
    unique.collect_all()
}

/// Priority of the chunk at `p` for the observers in `views`.
pub fn priority(views: &Vec<ChunkView>, p: ChunkPos) -> (r: u32)
    requires
        views@.len() > 0,
    ensures
        r == priority_of(views@, p),
{
    let mut best: u128 = views[0].pos.distance_squared(&p);
    let mut i: usize = 1;
    while i < views.len()
        invariant
            1 <= i <= views@.len(),
            best == nearest_dist_sq(views@.take(i as int), p),
            best < 0x4_0000_0000_0000_0000,
        decreases views@.len() - i,
    {
        assert(views@.take(i + 1).drop_last() =~= views@.take(i as int));
        let d = views[i].pos.distance_squared(&p);
        if d < best {
            best = d;
        }
        i += 1;
    }
    assert(views@.take(views@.len() as int) =~= views@);
    assert(views@.take(1)[0] == views@[0]);
    proof {
        lemma_nearest_nonneg(views@, p);
    }
    let r: u128 = PRIORITY_SCALE as u128 / (1 + best);
    assert(r <= PRIORITY_SCALE) by (nonlinear_arith)
        requires
            r == PRIORITY_SCALE as int / (1 + best),
            best >= 0,
    ;
    r as u32
}

proof fn lemma_nearest_nonneg(views: Seq<ChunkView>, p: ChunkPos)
    ensures
        nearest_dist_sq(views, p) >= 0,
    decreases views.len(),
{
    if views.len() > 1 {
        lemma_nearest_nonneg(views.drop_last(), p);
    }
    if views.len() > 0 {
        let v = views.last();
        assert(dist_sq(v.pos, p) >= 0) by (nonlinear_arith);
        assert(dist_sq(views[0].pos, p) >= 0) by (nonlinear_arith);
    }
}

/// The generation requests of one tick: the chunks some view holds that are
/// neither resident nor being generated, each once, at most `limit` of them,
/// the observers' sequences taken in turn, nearest rings first in each.
pub fn aggregate(
    views: &Vec<ChunkView>,
    store: &ChunkStore,
    in_flight: &Vec<ChunkPos>,
    limit: usize,
    tick: u64,
) -> (r: Vec<DemandRecord>)
    requires
        store.wf(),
        forall|i: int| 0 <= i < views@.len() ==> view_fits(#[trigger] views@[i]),
    ensures
        r@.len() <= limit,
        forall|j: int| 0 <= j < r@.len() ==> {
            &&& demanded(views@, (#[trigger] r@[j]).pos)
            &&& !store@.contains_key(r@[j].pos)
            &&& !in_flight@.contains(r@[j].pos)
            &&& r@[j].priority == priority_of(views@, r@[j].pos)
            &&& r@[j].tick == tick
        },
        forall|i: int, j: int| 0 <= i < j < r@.len() ==> (#[trigger] r@[i]).pos != (#[trigger] r@[j]).pos,
        r@.len() < limit ==> forall|p: ChunkPos|
            demanded(views@, p) && !store@.contains_key(p) && !in_flight@.contains(p) ==> exists|j: int|
                0 <= j < r@.len() && (#[trigger] r@[j]).pos == p,
        exists|q: Seq<Seq<ChunkPos>>| #[trigger] viewable_sources(views@, q) && r@.map_values(|d: DemandRecord| d.pos)
            == demand_order(q, store@.dom(), in_flight@.to_set()).take(r@.len() as int),
{
    let mut sources: Vec<Vec<ChunkPos>> = Vec::new();
    let mut i: usize = 0;
    while i < views.len()
        invariant
            i <= views@.len(),
            sources@.len() == i,
            forall|k: int| 0 <= k < views@.len() ==> view_fits(#[trigger] views@[k]),
            forall|k: int, p: ChunkPos|
                0 <= k < i ==> (#[trigger] sources@[k]@.contains(p) <==> in_view(views@[k], p)),
            forall|k: int| 0 <= k < i ==> (#[trigger] sources@[k])@.no_duplicates(),
            forall|k: int| 0 <= k < i ==> rings_ascending(views@[k].pos, (#[trigger] sources@[k])@),
        decreases views@.len() - i,
    {
        let s = viewable_chunks(views[i]);
        sources.push(s);
        i += 1;
    }
    let ghost q = sources@.map_values(|s: Vec<ChunkPos>| s@);
    let order = order_demand(sources, store, in_flight);
    proof {
        lemma_demand_order(q, store@.dom(), in_flight@.to_set());
        assert forall|p: ChunkPos| (exists|k: int| 0 <= k < q.len() && (#[trigger] q[k]).contains(p))
            <==> demanded(views@, p) by {
            if exists|k: int| 0 <= k < q.len() && (#[trigger] q[k]).contains(p) {
                let k = choose|k: int| 0 <= k < q.len() && (#[trigger] q[k]).contains(p);
                assert(q[k] == sources@[k]@);
                assert(in_view(views@[k], p));
            }
            if demanded(views@, p) {
                let k = choose|k: int| 0 <= k < views@.len() && in_view(#[trigger] views@[k], p);
                assert(q[k] == sources@[k]@);
                assert(q[k].contains(p));
            }
        }
        assert forall|p: ChunkPos| in_flight@.to_set().contains(p) <==> in_flight@.contains(p) by {}
    }
    let mut out: Vec<DemandRecord> = Vec::new();
    let mut j: usize = 0;
    while j < order.len() && j < limit
        invariant
            j <= order@.len(),
            j <= limit,
            out@.len() == j,
            order@.no_duplicates(),
            forall|k: int| 0 <= k < j ==> {
                &&& (#[trigger] out@[k]).pos == order@[k]
                &&& out@[k].priority == priority_of(views@, out@[k].pos)
                &&& out@[k].tick == tick
            },
            forall|x: ChunkPos| #[trigger] order@.contains(x) ==> demanded(views@, x) && !store@.contains_key(x)
                && !in_flight@.contains(x),
        decreases order@.len() - j,
    {
        let p = order[j];
        assert(order@.contains(p));
        let pr = priority(views, p);
        out.push(DemandRecord { pos: p, priority: pr, tick });
        j += 1;
    }
    proof {
        assert(viewable_sources(views@, q)) by {
            assert forall|k: int| 0 <= k < views@.len() implies (#[trigger] q[k]).no_duplicates() by {
                assert(q[k] == sources@[k]@);
            }
            assert forall|k: int| 0 <= k < views@.len() implies rings_ascending(views@[k].pos, #[trigger] q[k]) by {
                assert(q[k] == sources@[k]@);
            }
            assert forall|k: int, p: ChunkPos| 0 <= k < views@.len() implies (#[trigger] q[k].contains(p)
                <==> in_view(views@[k], p)) by {
                assert(q[k] == sources@[k]@);
            }
        }
        assert(out@.map_values(|d: DemandRecord| d.pos) =~= order@.take(out@.len() as int));
        assert forall|k: int| 0 <= k < out@.len() implies demanded(views@, (#[trigger] out@[k]).pos)
            && !store@.contains_key(out@[k].pos) && !in_flight@.contains(out@[k].pos) by {
            assert(order@.contains(order@[k]));
        }
        if out@.len() < limit {
            assert forall|p: ChunkPos|
                demanded(views@, p) && !store@.contains_key(p) && !in_flight@.contains(p) implies exists|k: int|
                    0 <= k < out@.len() && (#[trigger] out@[k]).pos == p by {
                assert(order@.contains(p));
                let k = choose|k: int| 0 <= k < order@.len() && order@[k] == p;
                assert(out@[k].pos == p);
            }
        }
    }
    out
}

} // verus!
