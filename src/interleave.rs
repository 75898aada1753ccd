use vstd::prelude::*;

verus! {

/// Items still waiting in all sources together.
pub open spec fn pending_total<T>(q: Seq<Seq<T>>) -> nat
    decreases q.len(),
{
    if q.len() == 0 {
        0
    } else {
        q[0].len() + pending_total(q.drop_first())
    }
}

/// What is left of a source once its first item is taken: nothing, when it
/// had one item, so that an exhausted source leaves the rotation.
pub open spec fn rest<T>(s: Seq<T>) -> Seq<Seq<T>> {
    if s.len() > 1 {
        seq![s.drop_first()]
    } else {
        seq![]
    }
}

/// The output of interleaving the sources `q`, in order: the first source
/// hands out its first item and moves to the back of the rotation; an empty
/// source is dropped.
pub open spec fn interleaved<T>(q: Seq<Seq<T>>) -> Seq<T>
    decreases pending_total(q), q.len(),
    via interleaved_decreases::<T>
{
    if q.len() == 0 {
        seq![]
    } else if q[0].len() == 0 {
        interleaved(q.drop_first())
    } else {
        seq![q[0][0]] + interleaved(q.drop_first() + rest(q[0]))
    }
}

#[via_fn]
proof fn interleaved_decreases<T>(q: Seq<Seq<T>>) {
    if q.len() > 0 {
        lemma_pending_total_step(q);
    }
}

/// Taking the first item of the first source leaves one item fewer waiting.
proof fn lemma_pending_total_step<T>(q: Seq<Seq<T>>)
    requires
        q.len() > 0,
    ensures
        pending_total(q) == q[0].len() + pending_total(q.drop_first()),
        q[0].len() > 0 ==> pending_total(q.drop_first() + rest(q[0])) == pending_total(q) - 1,
{
    if q[0].len() > 0 {
        lemma_pending_total_append(q.drop_first(), rest(q[0]));
        assert(pending_total(rest(q[0])) == q[0].len() - 1) by {
            let e: Seq<Seq<T>> = seq![];
            assert(pending_total(e) == 0);
            if q[0].len() > 1 {
                assert(rest(q[0]).drop_first() =~= e);
            } else {
                assert(rest(q[0]) =~= e);
            }
        }
    }
}

pub proof fn lemma_pending_total_append<T>(a: Seq<Seq<T>>, b: Seq<Seq<T>>)
    ensures
        pending_total(a + b) == pending_total(a) + pending_total(b),
    decreases a.len(),
{
    if a.len() == 0 {
        assert(a + b =~= b);
    } else {
        assert((a + b).drop_first() =~= a.drop_first() + b);
        lemma_pending_total_append(a.drop_first(), b);
    }
}

/// Round `r` of an interleaving: item `r` of every source that has more than
/// `r` items, in source order.
pub open spec fn round_at<T>(q: Seq<Seq<T>>, r: nat) -> Seq<T>
    decreases q.len(),
{
    if q.len() == 0 {
        seq![]
    } else {
        (if q[0].len() > r {
            seq![q[0][r as int]]
        } else {
            seq![]
        }) + round_at(q.drop_first(), r)
    }
}

/// Rounds `0 .. k` of an interleaving, one after another.
pub open spec fn first_rounds<T>(q: Seq<Seq<T>>, k: nat) -> Seq<T>
    decreases k,
{
    if k == 0 {
        seq![]
    } else {
        first_rounds(q, (k - 1) as nat) + round_at(q, (k - 1) as nat)
    }
}

/// The sources after one full round: each loses its first item, and those
/// left empty are dropped.
pub open spec fn tails<T>(q: Seq<Seq<T>>) -> Seq<Seq<T>>
    decreases q.len(),
{
    if q.len() == 0 {
        seq![]
    } else {
        rest(q[0]) + tails(q.drop_first())
    }
}

proof fn lemma_round_at_append<T>(a: Seq<Seq<T>>, b: Seq<Seq<T>>, r: nat)
    ensures
        round_at(a + b, r) == round_at(a, r) + round_at(b, r),
    decreases a.len(),
{
    if a.len() == 0 {
        assert(a + b =~= b);
        assert(round_at(a, r) + round_at(b, r) =~= round_at(b, r));
    } else {
        assert((a + b).drop_first() =~= a.drop_first() + b);
        lemma_round_at_append(a.drop_first(), b, r);
        assert((a + b)[0] == a[0]);
        let h = if a[0].len() > r {
            seq![a[0][r as int]]
        } else {
            seq![]
        };
        assert(round_at(a + b, r) == h + round_at(a.drop_first() + b, r));
        assert(h + (round_at(a.drop_first(), r) + round_at(b, r)) =~= (h + round_at(
            a.drop_first(),
            r,
        )) + round_at(b, r));
    }
}

proof fn lemma_round_at_tails<T>(q: Seq<Seq<T>>, r: nat)
    ensures
        round_at(tails(q), r) == round_at(q, r + 1),
    decreases q.len(),
{
    if q.len() > 0 {
        lemma_round_at_tails(q.drop_first(), r);
        lemma_round_at_append(rest(q[0]), tails(q.drop_first()), r);
        let s = q[0];
        if s.len() > 1 {
            let t = rest(s);
            assert(t.drop_first() =~= seq![]);
            assert(round_at(t.drop_first(), r) =~= seq![]);
            if s.len() > r + 1 {
                assert(t[0][r as int] == s[(r + 1) as int]);
            }
            assert(round_at(t, r) =~= (if s.len() > r + 1 {
                seq![s[(r + 1) as int]]
            } else {
                seq![]
            }));
        } else {
            assert(round_at(rest(s), r) =~= seq![]);
        }
        assert(round_at(q, r + 1) =~= (if s.len() > r + 1 {
            seq![s[(r + 1) as int]]
        } else {
            seq![]
        }) + round_at(q.drop_first(), r + 1));
    }
}

proof fn lemma_round_at_len<T>(q: Seq<Seq<T>>, r: nat)
    ensures
        round_at(q, r).len() <= q.len(),
    decreases q.len(),
{
    if q.len() > 0 {
        lemma_round_at_len(q.drop_first(), r);
    }
}

/// Interleaving `a` ahead of `b` first hands out one item of each source of
/// `a`, and then interleaves `b` followed by what is left of `a`.
proof fn lemma_interleaved_one_round<T>(a: Seq<Seq<T>>, b: Seq<Seq<T>>)
    ensures
        interleaved(a + b) == round_at(a, 0) + interleaved(b + tails(a)),
    decreases a.len(),
{
    if a.len() == 0 {
        assert(a + b =~= b);
        assert(b + tails(a) =~= b);
        assert(round_at(a, 0) + interleaved(b) =~= interleaved(b));
    } else {
        let s = a[0];
        let ab = a + b;
        assert(ab[0] == s);
        assert(ab.drop_first() =~= a.drop_first() + b);
        assert(tails(a) == rest(s) + tails(a.drop_first()));
        if s.len() == 0 {
            lemma_interleaved_one_round(a.drop_first(), b);
            assert(round_at(a, 0) =~= round_at(a.drop_first(), 0));
            assert(rest(s) =~= seq![]);
            assert(tails(a) =~= tails(a.drop_first()));
        } else {
            let b2 = b + rest(s);
            lemma_interleaved_one_round(a.drop_first(), b2);
            assert(ab.drop_first() + rest(s) =~= a.drop_first() + b2);
            assert(b2 + tails(a.drop_first()) =~= b + tails(a));
            assert(round_at(a, 0) =~= seq![s[0]] + round_at(a.drop_first(), 0));
            assert(interleaved(ab) == seq![s[0]] + interleaved(a.drop_first() + b2));
            assert(seq![s[0]] + (round_at(a.drop_first(), 0) + interleaved(b + tails(a)))
                =~= (seq![s[0]] + round_at(a.drop_first(), 0)) + interleaved(b + tails(a)));
        }
    }
}

proof fn lemma_first_rounds_shift<T>(q: Seq<Seq<T>>, m: nat)
    ensures
        round_at(q, 0) + first_rounds(tails(q), m) == first_rounds(q, m + 1),
    decreases m,
{
    if m == 0 {
        assert(first_rounds(q, 0) =~= Seq::<T>::empty());
        assert(first_rounds(q, 1) =~= round_at(q, 0));
        assert(round_at(q, 0) + first_rounds(tails(q), 0) =~= round_at(q, 0));
    } else {
        lemma_first_rounds_shift(q, (m - 1) as nat);
        lemma_round_at_tails(q, (m - 1) as nat);
        assert(round_at(q, 0) + first_rounds(tails(q), m) =~= (round_at(q, 0) + first_rounds(
            tails(q),
            (m - 1) as nat,
        )) + round_at(tails(q), (m - 1) as nat));
    }
}

proof fn lemma_interleaved_rounds<T>(q: Seq<Seq<T>>, k: nat)
    ensures
        first_rounds(q, k).len() <= interleaved(q).len(),
        interleaved(q).take(first_rounds(q, k).len() as int) == first_rounds(q, k),
    decreases k,
{
    if k == 0 {
        assert(interleaved(q).take(0) =~= first_rounds(q, 0));
    } else {
        let empty: Seq<Seq<T>> = seq![];
        lemma_interleaved_one_round(q, empty);
        assert(q + empty =~= q);
        assert(empty + tails(q) =~= tails(q));
        lemma_interleaved_rounds(tails(q), (k - 1) as nat);
        lemma_first_rounds_shift(q, (k - 1) as nat);
        let r0 = round_at(q, 0);
        let rest_rounds = first_rounds(tails(q), (k - 1) as nat);
        assert(interleaved(q) == r0 + interleaved(tails(q)));
        assert(interleaved(q).take(first_rounds(q, k).len() as int) =~= r0 + interleaved(
            tails(q),
        ).take(rest_rounds.len() as int));
    }
}

proof fn lemma_first_rounds_len<T>(q: Seq<Seq<T>>, k: nat)
    ensures
        first_rounds(q, k).len() <= q.len() * k,
    decreases k,
{
    if k > 0 {
        lemma_first_rounds_len(q, (k - 1) as nat);
        lemma_round_at_len(q, (k - 1) as nat);
        assert(q.len() * (k - 1) + q.len() == q.len() * k) by (nonlinear_arith);
    }
}

/// Interleaving is fair: its output begins with round 0, round 1, ...,
/// round k - 1, where round j holds item j of every source longer than j.
/// Each round has at most one item per source, so the first N * k items of
/// an interleaving of N sources hold the first min(k, L) items of every
/// source of length L.
pub proof fn lemma_interleave_fair<T>(q: Seq<Seq<T>>, k: nat)
    ensures
        first_rounds(q, k).len() <= q.len() * k,
        first_rounds(q, k).len() <= interleaved(q).len(),
        interleaved(q).take(first_rounds(q, k).len() as int) == first_rounds(q, k),
{
    lemma_interleaved_rounds(q, k);
    lemma_first_rounds_len(q, k);
}

/// The interleaving of its sources holds every item once.
pub proof fn lemma_interleaved_len<T>(q: Seq<Seq<T>>)
    ensures
        interleaved(q).len() == pending_total(q),
    decreases pending_total(q), q.len(),
{
    if q.len() > 0 {
        lemma_pending_total_step(q);
        if q[0].len() == 0 {
            lemma_interleaved_len(q.drop_first());
        } else {
            lemma_interleaved_len(q.drop_first() + rest(q[0]));
        }
    }
}

/// An item comes out of the interleaving exactly when some source holds it.
pub proof fn lemma_interleaved_contains<T>(q: Seq<Seq<T>>, x: T)
    ensures
        interleaved(q).contains(x) <==> exists|i: int| 0 <= i < q.len() && (#[trigger] q[i]).contains(x),
    decreases pending_total(q), q.len(),
{
    if q.len() > 0 {
        lemma_pending_total_step(q);
        let s = q[0];
        if s.len() == 0 {
            lemma_interleaved_contains(q.drop_first(), x);
            if exists|i: int| 0 <= i < q.len() && (#[trigger] q[i]).contains(x) {
                let i = choose|i: int| 0 <= i < q.len() && (#[trigger] q[i]).contains(x);
                assert(i > 0);
                assert(q.drop_first()[i - 1] == q[i]);
            }
            if exists|i: int| 0 <= i < q.drop_first().len() && (#[trigger] q.drop_first()[i]).contains(x) {
                let i = choose|i: int| 0 <= i < q.drop_first().len() && (#[trigger] q.drop_first()[i]).contains(x);
                assert(q[i + 1] == q.drop_first()[i]);
            }
        } else {
            let q2 = q.drop_first() + rest(s);
            lemma_interleaved_contains(q2, x);
            let out = interleaved(q);
            assert(out == seq![s[0]] + interleaved(q2));
            assert(out.contains(x) <==> x == s[0] || interleaved(q2).contains(x)) by {
                if out.contains(x) && x != s[0] {
                    let k = choose|k: int| 0 <= k < out.len() && out[k] == x;
                    assert(interleaved(q2)[k - 1] == x);
                }
                if interleaved(q2).contains(x) {
                    let k = choose|k: int| 0 <= k < interleaved(q2).len() && interleaved(q2)[k] == x;
                    assert(out[k + 1] == x);
                }
                if x == s[0] {
                    assert(out[0] == x);
                }
            }
            assert(s.contains(x) <==> x == s[0] || s.drop_first().contains(x)) by {
                if s.contains(x) && x != s[0] {
                    let k = choose|k: int| 0 <= k < s.len() && s[k] == x;
                    assert(s.drop_first()[k - 1] == x);
                }
                if s.drop_first().contains(x) {
                    let k = choose|k: int| 0 <= k < s.drop_first().len() && s.drop_first()[k] == x;
                    assert(s[k + 1] == x);
                }
                if x == s[0] {
                    assert(s[0] == x);
                }
            }
            if exists|i: int| 0 <= i < q.len() && (#[trigger] q[i]).contains(x) {
                let i = choose|i: int| 0 <= i < q.len() && (#[trigger] q[i]).contains(x);
                if i > 0 {
                    assert(q2[i - 1] == q[i]);
                } else if x != s[0] {
                    assert(s.len() > 1);
                    assert(q2[q2.len() - 1] == s.drop_first());
                }
            }
            if exists|i: int| 0 <= i < q2.len() && (#[trigger] q2[i]).contains(x) {
                let i = choose|i: int| 0 <= i < q2.len() && (#[trigger] q2[i]).contains(x);
                if i < q.len() - 1 {
                    assert(q[i + 1] == q2[i]);
                } else {
                    assert(s.len() > 1);
                    assert(q2[i] == s.drop_first());
                    assert(q[0].contains(x));
                }
            }
        }
    }
}

/// Round-robin merge of several sources: each call of `next` takes one item
/// from the source at the front of the rotation and moves that source to the
/// back; a source that runs out leaves the rotation.
pub struct Interleave<T> {
    sources: Vec<Vec<T>>,
}

impl<T> Interleave<T> {
    /// What the sources still hold, in rotation order.
    pub closed spec fn pending(&self) -> Seq<Seq<T>> {
        self.sources@.map_values(|s: Vec<T>| s@)
    }

    pub fn new(sources: Vec<Vec<T>>) -> (r: Interleave<T>)
        ensures
            r.pending() == sources@.map_values(|s: Vec<T>| s@),
    {
        Interleave { sources }
    }

    /// The next item of the interleaving, or `None` once every source is
    /// exhausted.
    pub fn next(&mut self) -> (r: Option<T>)
        ensures
            match r {
                Some(x) => interleaved(old(self).pending()) == seq![x] + interleaved(
                    final(self).pending(),
                ),
                None => {
                    &&& interleaved(old(self).pending()) == Seq::<T>::empty()
                    &&& final(self).pending().len() == 0
                },
            },
    {
        loop
            invariant
                interleaved(self.pending()) == interleaved(old(self).pending()),
            decreases self.sources@.len(),
        {
            if self.sources.len() == 0 {
                assert(self.pending().len() == 0);
                return None;
            }
            let ghost q = self.pending();
            let mut first = self.sources.remove(0);
            assert(self.pending() =~= q.drop_first());
            assert(q[0] == first@);
            if first.len() > 0 {
                let item = first.remove(0);
                if first.len() > 0 {
                    self.sources.push(first);
                    assert(self.pending() =~= q.drop_first() + rest(q[0]));
                } else {
                    assert(self.pending() =~= q.drop_first() + rest(q[0]));
                }
                return Some(item);
            }
        }
    }

    /// Hands out the whole interleaving at once.
    pub fn collect_all(&mut self) -> (r: Vec<T>)
        ensures
            r@ == interleaved(old(self).pending()),
            interleaved(final(self).pending()) == Seq::<T>::empty(),
    {
        let mut out: Vec<T> = Vec::new();
        proof {
            lemma_interleaved_len(self.pending());
        }
        loop
            invariant
                out@ + interleaved(self.pending()) == interleaved(old(self).pending()),
            decreases interleaved(self.pending()).len(),
        {
            let ghost before = self.pending();
            match self.next() {
                Some(x) => {
                    out.push(x);
                    assert(out@ + interleaved(self.pending()) =~= interleaved(old(self).pending()));
                },
                None => {
                    assert(interleaved(self.pending()) =~= Seq::<T>::empty());
                    assert(out@ =~= out@ + interleaved(self.pending()));
                    return out;
                },
            }
        }
    }
}

/// Turns a collection of sources into their interleaving.
pub trait IntoInterleave<T>: Sized {
    spec fn interleave_sources(&self) -> Seq<Seq<T>>;

    fn interleave(self) -> (r: Interleave<T>)
        ensures
            r.pending() == self.interleave_sources(),
    ;
}

impl<T> IntoInterleave<T> for Vec<Vec<T>> {
    open spec fn interleave_sources(&self) -> Seq<Seq<T>> {
        self@.map_values(|s: Vec<T>| s@)
    }

    fn interleave(self) -> (r: Interleave<T>) {
        Interleave::new(self)
    }
}

} // verus!
