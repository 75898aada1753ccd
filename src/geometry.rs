use vstd::prelude::*;

use crate::coords::{abs, in_view, reach, ring_of, ChunkPos, ChunkView, VIEW_RADIUS_MARGIN};

verus! {

/// Every chunk a view may hold has coordinates that fit in `i32`.
pub open spec fn view_fits(v: ChunkView) -> bool {
    &&& i32::MIN <= v.pos.x - reach(v)
    &&& v.pos.x + reach(v) <= i32::MAX
    &&& i32::MIN <= v.pos.z - reach(v)
    &&& v.pos.z + reach(v) <= i32::MAX
}

/// A sequence of chunks runs outward: no chunk lies on a nearer ring than the
/// one before it.
pub open spec fn rings_ascending(c: ChunkPos, s: Seq<ChunkPos>) -> bool {
    forall|i: int, j: int| 0 <= i < j < s.len() ==> ring_of(c, s[i]) <= ring_of(c, s[j])
}

/// A chunk in view lies on a ring no further out than the view's reach.
pub proof fn lemma_in_view_within_reach(v: ChunkView, p: ChunkPos)
    requires
        in_view(v, p),
    ensures
        ring_of(v.pos, p) <= reach(v),
{
    let dx = v.pos.x - p.x;
    let dz = v.pos.z - p.z;
    let r = reach(v);
    assert(abs(dx) <= r) by (nonlinear_arith)
        requires
            dx * dx + dz * dz <= r * r,
            r >= 0,
            abs(dx) == if dx < 0 { -dx } else { dx },
    ;
    assert(abs(dz) <= r) by (nonlinear_arith)
        requires
            dx * dx + dz * dz <= r * r,
            r >= 0,
            abs(dz) == if dz < 0 { -dz } else { dz },
    ;
}

/// The chunks of ring `d` around the view's centre that the view holds.
fn ring_chunks(v: ChunkView, d: i64) -> (seg: Vec<ChunkPos>)
    requires
        view_fits(v),
        0 <= d <= reach(v),
    ensures
        seg@.no_duplicates(),
        forall|k: int|
            0 <= k < seg@.len() ==> ring_of(v.pos, #[trigger] seg@[k]) == d && in_view(v, seg@[k]),
        forall|p: ChunkPos| ring_of(v.pos, p) == d && in_view(v, p) ==> seg@.contains(p),
{
    let cx: i64 = v.pos.x as i64;
    let cz: i64 = v.pos.z as i64;
    let mut seg: Vec<ChunkPos> = Vec::new();
    if d == 0 {
        seg.push(v.pos);
        assert(reach(v) * reach(v) >= 0) by (nonlinear_arith);
        assert(seg@[0] == v.pos);
        assert forall|p: ChunkPos| ring_of(v.pos, p) == d && in_view(v, p) implies seg@.contains(
            p,
        ) by {
            assert(p == v.pos);
            assert(seg@[0] == p);
        }
        return seg;
    }
    // The two rows of the ring: z at distance d on either side, x across the ring.

    let mut x: i64 = cx - d;
    while x <= cx + d
        invariant
            view_fits(v),
            0 < d <= reach(v),
            cx == v.pos.x,
            cz == v.pos.z,
            cx - d <= x <= cx + d + 1,
            seg@.no_duplicates(),
            forall|k: int|
                0 <= k < seg@.len() ==> {
                    &&& ring_of(v.pos, #[trigger] seg@[k]) == d
                    &&& in_view(v, seg@[k])
                    &&& abs(seg@[k].z - cz) == d
                    &&& seg@[k].x < x
                },
            forall|p: ChunkPos|
                ring_of(v.pos, p) == d && in_view(v, p) && abs(p.z - cz) == d && p.x < x
                    ==> seg@.contains(p),
        decreases cx + d + 1 - x,
    {
        let ghost before = seg@;
        let hi = ChunkPos { x: x as i32, z: (cz + d) as i32 };
        let lo = ChunkPos { x: x as i32, z: (cz - d) as i32 };
        if v.contains(hi) {
            seg.push(hi);
        }
        let ghost mid = seg@;
        if v.contains(lo) {
            seg.push(lo);
        }
        assert forall|p: ChunkPos|
            ring_of(v.pos, p) == d && in_view(v, p) && abs(p.z - cz) == d && p.x < x + 1
                implies seg@.contains(p) by {
            if p.x < x {
                assert(before.contains(p));
                let k = choose|k: int| 0 <= k < before.len() && before[k] == p;
                assert(seg@[k] == p);
            } else if p.z == cz + d {
                assert(p == hi);
                assert(mid[before.len() as int] == p);
                assert(seg@[before.len() as int] == p);
            } else {
                assert(p == lo);
                assert(seg@[seg@.len() - 1] == p);
            }
        }
        x += 1;
    }

    // The two columns of the ring: x at distance d on either side, z strictly inside.
    let mut z: i64 = cz - d + 1;
    while z < cz + d
        invariant
            view_fits(v),
            0 < d <= reach(v),
            cx == v.pos.x,
            cz == v.pos.z,
            cz - d + 1 <= z <= cz + d,
            seg@.no_duplicates(),
            forall|k: int|
                0 <= k < seg@.len() ==> {
                    &&& ring_of(v.pos, #[trigger] seg@[k]) == d
                    &&& in_view(v, seg@[k])
                    &&& (abs(seg@[k].z - cz) == d || (abs(seg@[k].x - cx) == d && seg@[k].z < z))
                },
            forall|p: ChunkPos|
                ring_of(v.pos, p) == d && in_view(v, p) && (abs(p.z - cz) == d || p.z < z)
                    ==> seg@.contains(p),
        decreases cz + d - z,
    {
        let ghost before = seg@;
        let right = ChunkPos { x: (cx + d) as i32, z: z as i32 };
        let left = ChunkPos { x: (cx - d) as i32, z: z as i32 };
        if v.contains(right) {
            seg.push(right);
        }
        let ghost mid = seg@;
        if v.contains(left) {
            seg.push(left);
        }
        assert forall|p: ChunkPos|
            ring_of(v.pos, p) == d && in_view(v, p) && (abs(p.z - cz) == d || p.z < z + 1)
                implies seg@.contains(p) by {
            if abs(p.z - cz) == d || p.z < z {
                assert(before.contains(p));
                let k = choose|k: int| 0 <= k < before.len() && before[k] == p;
                assert(seg@[k] == p);
            } else if p.x == cx + d {
                assert(p == right);
                assert(mid[before.len() as int] == p);
                assert(seg@[before.len() as int] == p);
            } else {
                assert(p == left);
                assert(seg@[seg@.len() - 1] == p);
            }
        }
        z += 1;
    }
    seg
}

/// The chunks a view holds, nearest rings first, each once.
pub fn viewable_chunks(v: ChunkView) -> (r: Vec<ChunkPos>)
    requires
        view_fits(v),
    ensures
        r@.no_duplicates(),
        forall|p: ChunkPos| r@.contains(p) <==> in_view(v, p),
        rings_ascending(v.pos, r@),
{
    let top: i64 = v.dist as i64 + VIEW_RADIUS_MARGIN as i64;
    let mut out: Vec<ChunkPos> = Vec::new();
    let mut d: i64 = 0;
    while d <= top
        invariant
            view_fits(v),
            top == reach(v),
            0 <= d <= top + 1,
            out@.no_duplicates(),
            rings_ascending(v.pos, out@),
            forall|k: int|
                0 <= k < out@.len() ==> ring_of(v.pos, #[trigger] out@[k]) < d && in_view(
                    v,
                    out@[k],
                ),
            forall|p: ChunkPos| ring_of(v.pos, p) < d && in_view(v, p) ==> out@.contains(p),
        decreases top + 1 - d,
    {
        let ghost before = out@;
        let mut seg = ring_chunks(v, d);
        let ghost s = seg@;
        out.append(&mut seg);
        assert(out@ == before + s);
        assert forall|k: int| 0 <= k < out@.len() implies ring_of(v.pos, #[trigger] out@[k]) < d
            + 1 && in_view(v, out@[k]) by {
            if k >= before.len() {
                assert(out@[k] == s[k - before.len()]);
            }
        }
        assert forall|p: ChunkPos| ring_of(v.pos, p) < d + 1 && in_view(v, p) implies out@.contains(
            p,
        ) by {
            if ring_of(v.pos, p) < d {
                let k = choose|k: int| 0 <= k < before.len() && before[k] == p;
                assert(out@[k] == p);
            } else {
                let k = choose|k: int| 0 <= k < s.len() && s[k] == p;
                assert(out@[before.len() + k] == p);
            }
        }
        assert forall|i: int, j: int| 0 <= i < j < out@.len() implies out@[i] != out@[j] by {
            if j >= before.len() && i < before.len() {
                assert(out@[j] == s[j - before.len()]);
            } else if i >= before.len() {
                assert(out@[j] == s[j - before.len()]);
                assert(out@[i] == s[i - before.len()]);
            }
        }
        assert forall|i: int, j: int| 0 <= i < j < out@.len() implies ring_of(v.pos, out@[i])
            <= ring_of(v.pos, out@[j]) by {
            if j >= before.len() {
                assert(out@[j] == s[j - before.len()]);
                if i >= before.len() {
                    assert(out@[i] == s[i - before.len()]);
                }
            }
        }
        d += 1;
    }
    assert forall|p: ChunkPos| in_view(v, p) implies out@.contains(p) by {
        lemma_in_view_within_reach(v, p);
    }
    out
}

} // verus!
