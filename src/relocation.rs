use vstd::prelude::*;

use fxhash::FxHashMap;

use crate::coords::ChunkPos;
use crate::store::ChunkStore;

verus! {

/// A position in the world, carried as the bit patterns of its three
/// floating-point coordinates; the queue never reads it.
#[derive(Clone, Copy, Debug, PartialEq, Eq, Structural, Hash)]
pub struct TargetPosition {
    pub x_bits: u64,
    pub y_bits: u64,
    pub z_bits: u64,
}

/// A requested move: the location (world instance) to move to, the position
/// there, and the chunk that must be resident before the move commits.
#[derive(Clone, Copy, Debug, PartialEq, Eq, Structural, Hash)]
pub struct Relocation {
    pub location: u64,
    pub position: TargetPosition,
    pub destination: ChunkPos,
}

/// Pending relocations, keyed by observer id.
#[verifier::external_body]
pub struct PendingMap {
    map: FxHashMap<u64, Relocation>,
}

/// The relocations a `PendingMap` holds, by observer id.
pub uninterp spec fn pending_contents(m: PendingMap) -> Map<u64, Relocation>;

/// Relies on `Default` for fxhash's `FxHashMap` (std's `HashMap` with the Fx
/// hasher): a new map is empty.
#[verifier::external_body]
fn pending_new() -> (r: PendingMap)
    ensures
        pending_contents(r).dom() == Set::<u64>::empty(),
{
    PendingMap { map: FxHashMap::default() }
}

/// Relies on `HashMap::insert` of fxhash's `FxHashMap`: afterwards the key
/// maps to the new value, in place of any older one.
#[verifier::external_body]
fn pending_insert(m: &mut PendingMap, k: u64, v: Relocation)
    ensures
        pending_contents(*final(m)) == pending_contents(*old(m)).insert(k, v),
{
    m.map.insert(k, v);
}

/// Relies on `HashMap::remove` of fxhash's `FxHashMap`: it hands back the
/// value the key had, if any, and the key is gone afterwards.
#[verifier::external_body]
fn pending_remove(m: &mut PendingMap, k: u64) -> (r: Option<Relocation>)
    ensures
        pending_contents(*final(m)) == pending_contents(*old(m)).remove(k),
        r == (if pending_contents(*old(m)).contains_key(k) {
            Some(pending_contents(*old(m))[k])
        } else {
            None
        }),
{
    m.map.remove(&k)
}

/// Relies on `HashMap::keys` of fxhash's `FxHashMap`: every key once, in an
/// order the map chooses.
#[verifier::external_body]
fn pending_keys(m: &PendingMap) -> (r: Vec<u64>)
    ensures
        r@.no_duplicates(),
        r@.to_set() == pending_contents(*m).dom(),
{
    m.map.keys().copied().collect()
}

/// Moves that wait until their destination chunk is resident.
pub struct SetClientLocation {
    pending: PendingMap,
}

impl View for SetClientLocation {
    type V = Map<u64, Relocation>;

    closed spec fn view(&self) -> Map<u64, Relocation> {
        pending_contents(self.pending)
    }
}

impl SetClientLocation {
    pub fn new() -> (r: SetClientLocation)
        ensures
            r@ == Map::<u64, Relocation>::empty(),
    {
        let r = SetClientLocation { pending: pending_new() };
        assert(r@ =~= Map::<u64, Relocation>::empty());
        r
    }

    /// Requests that `client` move to `loc` at `pos`, once the chunk
    /// `destination` is resident; replaces any older request of the client.
    pub fn set_location(&mut self, client: u64, loc: u64, pos: TargetPosition, destination: ChunkPos)
        ensures
            final(self)@ == old(self)@.insert(
                client,
                Relocation { location: loc, position: pos, destination },
            ),
    {
        pending_insert(&mut self.pending, client, Relocation { location: loc, position: pos, destination });
    }

    /// Drops the pending request of a client that went away.
    pub fn remove_client(&mut self, client: u64)
        ensures
            final(self)@ == old(self)@.remove(client),
    {
        let _ = pending_remove(&mut self.pending, client);
    }

    /// Commits every request whose destination chunk is resident: those
    /// leave the queue and are handed back, each once; the others stay.
    pub fn process(&mut self, store: &ChunkStore) -> (r: Vec<(u64, Relocation)>)
        requires
            store.wf(),
        ensures
            forall|c: u64| #[trigger] final(self)@.contains_key(c) <==> old(self)@.contains_key(c)
                && !store@.contains_key(old(self)@[c].destination),
            forall|c: u64| #[trigger] final(self)@.contains_key(c) ==> final(self)@[c] == old(self)@[c],
            forall|j: int| 0 <= j < r@.len() ==> {
                &&& old(self)@.contains_key((#[trigger] r@[j]).0)
                &&& old(self)@[r@[j].0] == r@[j].1
                &&& store@.contains_key(r@[j].1.destination)
            },
            forall|i: int, j: int| 0 <= i < j < r@.len() ==> (#[trigger] r@[i]).0 != (#[trigger] r@[j]).0,
            forall|c: u64|
                #[trigger] old(self)@.contains_key(c) && store@.contains_key(old(self)@[c].destination)
                    ==> exists|j: int| 0 <= j < r@.len() && (#[trigger] r@[j]).0 == c,
    {
        let ghost start = self@;
        let keys = pending_keys(&self.pending);
        let mut commits: Vec<(u64, Relocation)> = Vec::new();
        let mut i: usize = 0;
        while i < keys.len()
            invariant
                i <= keys@.len(),
                store.wf(),
                keys@.no_duplicates(),
                keys@.to_set() == start.dom(),
                forall|c: u64| #[trigger] self@.contains_key(c) <==> start.contains_key(c)
                    && !(keys@.take(i as int).contains(c) && store@.contains_key(start[c].destination)),
                forall|c: u64| #[trigger] self@.contains_key(c) ==> self@[c] == start[c],
                forall|j: int| 0 <= j < commits@.len() ==> {
                    &&& start.contains_key((#[trigger] commits@[j]).0)
                    &&& start[commits@[j].0] == commits@[j].1
                    &&& store@.contains_key(commits@[j].1.destination)
                    &&& keys@.take(i as int).contains(commits@[j].0)
                },
                forall|a: int, b: int| 0 <= a < b < commits@.len() ==> (#[trigger] commits@[a]).0 != (#[trigger] commits@[b]).0,
                forall|c: u64|
                    #[trigger] start.contains_key(c) && keys@.take(i as int).contains(c) && store@.contains_key(start[c].destination)
                        ==> exists|j: int| 0 <= j < commits@.len() && (#[trigger] commits@[j]).0 == c,
            decreases keys@.len() - i,
        {
            let k = keys[i];
            let ghost before = commits@;
            assert(keys@.take(i + 1) =~= keys@.take(i as int).push(k));
            assert(!keys@.take(i as int).contains(k)) by {
                if keys@.take(i as int).contains(k) {
                    let a = choose|a: int| 0 <= a < i && keys@.take(i as int)[a] == k;
                    assert(keys@[a] == keys@[i as int]);
                }
            }
            assert(start.dom().contains(k)) by {
                assert(keys@.to_set().contains(k));
            }
            assert(self@.contains_key(k));
            let ghost cur = self@;
            match pending_remove(&mut self.pending, k) {
                Some(v) => {
                    if store.contains(v.destination) {
                        commits.push((k, v));
                        assert forall|c: u64|
                            #[trigger] start.contains_key(c) && keys@.take(i + 1).contains(c) && store@.contains_key(start[c].destination)
                                implies exists|j: int| 0 <= j < commits@.len() && (#[trigger] commits@[j]).0 == c by {
                            if c == k {
                                assert(commits@[commits@.len() - 1].0 == c);
                            } else {
                                assert(keys@.take(i as int).contains(c));
                                let j = choose|j: int| 0 <= j < before.len() && (#[trigger] before[j]).0 == c;
                                assert(commits@[j].0 == c);
                            }
                        }
                        assert forall|j: int| 0 <= j < commits@.len() implies keys@.take(i + 1).contains((#[trigger] commits@[j]).0) by {
                            if j < before.len() {
                                assert(before[j] == commits@[j]);
                                assert(keys@.take(i as int).contains(commits@[j].0));
                                let a = choose|a: int| 0 <= a < i && keys@.take(i as int)[a] == commits@[j].0;
                                assert(keys@.take(i + 1)[a] == commits@[j].0);
                            } else {
                                assert(keys@.take(i + 1)[i as int] == k);
                            }
                        }
                    } else {
                        pending_insert(&mut self.pending, k, v);
                        assert(self@ =~= cur);
                        assert forall|j: int| 0 <= j < commits@.len() implies keys@.take(i + 1).contains((#[trigger] commits@[j]).0) by {
                            let a = choose|a: int| 0 <= a < i && keys@.take(i as int)[a] == commits@[j].0;
                            assert(keys@.take(i + 1)[a] == commits@[j].0);
                        }
                        assert forall|c: u64|
                            #[trigger] start.contains_key(c) && keys@.take(i + 1).contains(c) && store@.contains_key(start[c].destination)
                                implies exists|j: int| 0 <= j < commits@.len() && (#[trigger] commits@[j]).0 == c by {
                            assert(c != k);
                            assert(keys@.take(i as int).contains(c));
                        }
                    }
                },
                None => {},
            }
            i += 1;
        }
        assert(keys@.take(keys@.len() as int) =~= keys@);
        assert forall|c: u64| #[trigger] start.contains_key(c) implies keys@.contains(c) by {
            assert(keys@.to_set().contains(c));
        }
        commits
    }
}

} // verus!
