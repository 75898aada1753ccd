use vstd::prelude::*;

use fxhash::FxHashSet;

use crate::coords::ChunkPos;

verus! {

/// `s` with every item that `seen` holds, or that occurs earlier in `s`,
/// left out.
pub open spec fn dedup_from<T>(seen: Set<T>, s: Seq<T>) -> Seq<T>
    decreases s.len(),
{
    if s.len() == 0 {
        seq![]
    } else if seen.contains(s[0]) {
        dedup_from(seen, s.drop_first())
    } else {
        seq![s[0]] + dedup_from(seen.insert(s[0]), s.drop_first())
    }
}

/// `s` with repeated items left out after their first occurrence.
pub open spec fn dedup<T>(s: Seq<T>) -> Seq<T> {
    dedup_from(Set::empty(), s)
}

/// The position of the first occurrence of `x` in `s`.
pub open spec fn first_index<T>(s: Seq<T>, x: T) -> int
    decreases s.len(),
{
    if s.len() == 0 || s[0] == x {
        0
    } else {
        1 + first_index(s.drop_first(), x)
    }
}

proof fn lemma_first_index_nonneg<T>(s: Seq<T>, x: T)
    ensures
        first_index(s, x) >= 0,
    decreases s.len(),
{
    if s.len() > 0 && s[0] != x {
        lemma_first_index_nonneg(s.drop_first(), x);
    }
}

proof fn lemma_dedup_from<T>(seen: Set<T>, s: Seq<T>)
    ensures
        dedup_from(seen, s).no_duplicates(),
        forall|x: T| dedup_from(seen, s).contains(x) <==> s.contains(x) && !seen.contains(x),
        forall|i: int, j: int|
            0 <= i < j < dedup_from(seen, s).len() ==> first_index(s, dedup_from(seen, s)[i])
                < first_index(s, dedup_from(seen, s)[j]),
    decreases s.len(),
{
    if s.len() > 0 {
        let a = s[0];
        let r = s.drop_first();
        assert forall|x: T| s.contains(x) <==> x == a || r.contains(x) by {
            if s.contains(x) && x != a {
                let k = choose|k: int| 0 <= k < s.len() && s[k] == x;
                assert(r[k - 1] == x);
            }
            if r.contains(x) {
                let k = choose|k: int| 0 <= k < r.len() && r[k] == x;
                assert(s[k + 1] == x);
            }
            if x == a {
                assert(s[0] == x);
            }
        }
        if seen.contains(a) {
            lemma_dedup_from(seen, r);
            let d = dedup_from(seen, r);
            assert forall|i: int, j: int| 0 <= i < j < d.len() implies first_index(s, d[i])
                < first_index(s, d[j]) by {
                assert(d.contains(d[i]));
                assert(d.contains(d[j]));
            }
        } else {
            let seen2 = seen.insert(a);
            lemma_dedup_from(seen2, r);
            let d2 = dedup_from(seen2, r);
            let d = dedup_from(seen, s);
            assert(d == seq![a] + d2);
            assert(seen2.contains(a));
            assert forall|k: int| 0 <= k < d2.len() implies d2[k] != a by {
                assert(d2.contains(d2[k]));
                assert(!seen2.contains(d2[k]));
            }
            assert forall|x: T| d.contains(x) <==> s.contains(x) && !seen.contains(x) by {
                assert(s.contains(x) <==> x == a || r.contains(x));
                assert(d2.contains(x) <==> r.contains(x) && !seen2.contains(x));
                if d.contains(x) && x != a {
                    let k = choose|k: int| 0 <= k < d.len() && d[k] == x;
                    assert(d2[k - 1] == x);
                }
                if d2.contains(x) {
                    let k = choose|k: int| 0 <= k < d2.len() && d2[k] == x;
                    assert(d[k + 1] == x);
                }
                if x == a {
                    assert(d[0] == x);
                }
            }
            assert forall|i: int, j: int| 0 <= i < j < d.len() implies d[i] != d[j] by {
                if i > 0 {
                    assert(d[i] == d2[i - 1]);
                }
                assert(d[j] == d2[j - 1]);
            }
            assert forall|i: int, j: int| 0 <= i < j < d.len() implies first_index(s, d[i])
                < first_index(s, d[j]) by {
                assert(d[j] == d2[j - 1]);
                assert(d2.contains(d2[j - 1]));
                lemma_first_index_nonneg(r, d[j]);
                if i > 0 {
                    assert(d[i] == d2[i - 1]);
                    assert(d2.contains(d2[i - 1]));
                }
            }
        }
    }
}

/// Deduplication keeps the first occurrence of every item and nothing else:
/// the result has no repeated item, holds exactly the items of `s`, and
/// keeps them in the order of their first occurrences in `s`.
pub proof fn lemma_dedup_correct<T>(s: Seq<T>)
    ensures
        dedup(s).no_duplicates(),
        forall|x: T| dedup(s).contains(x) <==> s.contains(x),
        forall|i: int, j: int|
            0 <= i < j < dedup(s).len() ==> first_index(s, dedup(s)[i]) < first_index(
                s,
                dedup(s)[j],
            ),
{
    lemma_dedup_from(Set::<T>::empty(), s);
}

/// A set of chunk coordinates with constant-time membership.
#[verifier::external_body]
pub struct SeenSet {
    set: FxHashSet<(i32, i32)>,
}

/// The coordinates a `SeenSet` holds.
pub uninterp spec fn seen_contents(s: SeenSet) -> Set<ChunkPos>;

/// Relies on `Default` for fxhash's `FxHashSet` (std's `HashSet` with the Fx
/// hasher): a new set is empty.
#[verifier::external_body]
fn seen_new() -> (r: SeenSet)
    ensures
        seen_contents(r) == Set::<ChunkPos>::empty(),
{
    SeenSet { set: FxHashSet::default() }
}

/// Relies on `HashSet::insert` of fxhash's `FxHashSet`: it returns whether the
/// value was absent, and the set holds it afterwards.
#[verifier::external_body]
fn seen_insert(s: &mut SeenSet, p: ChunkPos) -> (r: bool)
    ensures
        r == !seen_contents(*old(s)).contains(p),
        seen_contents(*final(s)) == seen_contents(*old(s)).insert(p),
{
    s.set.insert((p.x, p.z))
}

/// Hands out the coordinates of a sequence with repeats suppressed after
/// their first occurrence.
pub struct Unique {
    items: Vec<ChunkPos>,
    next: usize,
    seen: SeenSet,
}

impl Unique {
    pub closed spec fn wf(&self) -> bool {
        self.next <= self.items@.len()
    }

    /// What the remaining calls of `next` hand out.
    pub closed spec fn remaining(&self) -> Seq<ChunkPos> {
        dedup_from(seen_contents(self.seen), self.items@.skip(self.next as int))
    }

    pub fn new(items: Vec<ChunkPos>) -> (r: Unique)
        ensures
            r.wf(),
            r.remaining() == dedup(items@),
    {
        let r = Unique { items, next: 0, seen: seen_new() };
        assert(r.items@.skip(0) =~= r.items@);
        r
    }

    /// The next coordinate not handed out before, or `None` at the end.
    pub fn next(&mut self) -> (r: Option<ChunkPos>)
        requires
            old(self).wf(),
        ensures
            final(self).wf(),
            match r {
                Some(x) => old(self).remaining() == seq![x] + final(self).remaining(),
                None => {
                    &&& old(self).remaining() == Seq::<ChunkPos>::empty()
                    &&& final(self).remaining() == Seq::<ChunkPos>::empty()
                },
            },
    {
        while self.next < self.items.len()
            invariant
                self.wf(),
                self.remaining() == old(self).remaining(),
            decreases self.items@.len() - self.next,
        {
            let item = self.items[self.next];
            let ghost s = self.items@.skip(self.next as int);
            let ghost seen0 = seen_contents(self.seen);
            assert(s.drop_first() =~= self.items@.skip(self.next + 1));
            assert(s[0] == item);
            self.next += 1;
            if seen_insert(&mut self.seen, item) {
                return Some(item);
            }
            assert(seen_contents(self.seen) =~= seen0);
        }
        assert(self.items@.skip(self.next as int) =~= Seq::<ChunkPos>::empty());
        None
    }

    /// Hands out everything that is left at once.
    pub fn collect_all(&mut self) -> (r: Vec<ChunkPos>)
        requires
            old(self).wf(),
        ensures
            final(self).wf(),
            r@ == old(self).remaining(),
    {
        let mut out: Vec<ChunkPos> = Vec::new();
        loop
            invariant
                self.wf(),
                out@ + self.remaining() == old(self).remaining(),
            decreases self.remaining().len(),
        {
            match self.next() {
                Some(x) => {
                    out.push(x);
                    assert(out@ + self.remaining() =~= old(self).remaining());
                },
                None => {
                    assert(out@ =~= out@ + self.remaining());
                    return out;
                },
            }
        }
    }
}

/// Turns a sequence of coordinates into its deduplication.
pub trait IntoUnique: Sized {
    spec fn unique_source(&self) -> Seq<ChunkPos>;

    fn unique(self) -> (r: Unique)
        ensures
            r.wf(),
            r.remaining() == dedup(self.unique_source()),
    ;
}

impl IntoUnique for Vec<ChunkPos> {
    open spec fn unique_source(&self) -> Seq<ChunkPos> {
        self@
    }

    fn unique(self) -> (r: Unique) {
        Unique::new(self)
    }
}

} // verus!
