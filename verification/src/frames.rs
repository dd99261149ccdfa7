//! The frame-delta engine: the changed subset of a new frame against
//! the frame before it, looked up through a coordinate-keyed map.

use vstd::prelude::*;

use std::collections::HashMap;

use crate::pixel::Pixel;

verus! {

broadcast use vstd::std_specs::hash::group_hash_axioms;

/// One map key per canvas coordinate: `x` in the high 16 bits of the
/// low 32, `y` in the low 16.
pub open spec fn coord_key(x: u16, y: u16) -> u64 {
    (x * 0x10000 + y) as u64
}

/// The color a pixel carries, as one triple.
pub open spec fn color_of(p: Pixel) -> (u16, u16, u16) {
    (p.r, p.g, p.b)
}

/// The color that `prev` leaves at coordinate `(x, y)`: the last
/// pixel of `prev` at that coordinate wins, as it would on the
/// canvas; `None` when the coordinate is untouched.
pub open spec fn lookup_prev(prev: Seq<Pixel>, x: u16, y: u16) -> Option<(u16, u16, u16)>
    decreases prev.len(),
{
    if prev.len() == 0 {
        None
    } else if prev.last().x == x && prev.last().y == y {
        Some(color_of(prev.last()))
    } else {
        lookup_prev(prev.drop_last(), x, y)
    }
}

/// A pixel of the new frame counts as changed when its coordinate is
/// absent from the previous frame, or any one of its three channels
/// differs from the color recorded there.
pub open spec fn changed_pixel(prev: Seq<Pixel>, p: Pixel) -> bool {
    match lookup_prev(prev, p.x, p.y) {
        None => true,
        Some(c) => p.r != c.0 || p.g != c.1 || p.b != c.2,
    }
}

/// The delta of a new frame against the previous one: the changed
/// pixels of `cur`, in `cur`'s order.  Pixels of `prev` with no
/// successor in `cur` are not reported; the canvas is only ever
/// overwritten, never erased.
pub open spec fn delta_spec(prev: Seq<Pixel>, cur: Seq<Pixel>) -> Seq<Pixel>
    decreases cur.len(),
{
    if cur.len() == 0 {
        Seq::empty()
    } else if changed_pixel(prev, cur.last()) {
        delta_spec(prev, cur.drop_last()).push(cur.last())
    } else {
        delta_spec(prev, cur.drop_last())
    }
}

/// The coordinate map that a frame builds up when walked in order:
/// later pixels at a coordinate override earlier ones.
pub open spec fn prev_map(prev: Seq<Pixel>) -> Map<u64, (u16, u16, u16)>
    decreases prev.len(),
{
    if prev.len() == 0 {
        Map::empty()
    } else {
        prev_map(prev.drop_last()).insert(
            coord_key(prev.last().x, prev.last().y),
            color_of(prev.last()),
        )
    }
}

/// Distinct coordinates get distinct keys.
proof fn lemma_coord_key_injective(x1: u16, y1: u16, x2: u16, y2: u16)
    ensures
        (coord_key(x1, y1) == coord_key(x2, y2)) <==> (x1 == x2 && y1 == y2),
{
}

/// The coordinate map agrees with the last-wins lookup: a key is
/// present exactly when the lookup finds a color, and then maps to
/// that color.
proof fn lemma_prev_map_lookup(prev: Seq<Pixel>, x: u16, y: u16)
    ensures
        prev_map(prev).contains_key(coord_key(x, y)) <==> lookup_prev(prev, x, y) is Some,
        lookup_prev(prev, x, y) is Some ==> prev_map(prev)[coord_key(x, y)] == lookup_prev(
            prev,
            x,
            y,
        )->Some_0,
    decreases prev.len(),
{
    if prev.len() > 0 {
        lemma_prev_map_lookup(prev.drop_last(), x, y);
        let l = prev.last();
        if !(l.x == x && l.y == y) {
            lemma_coord_key_injective(x, y, l.x, l.y);
        }
    }
}

/// A frame that paints each coordinate at most once.
pub open spec fn coords_unique(frame: Seq<Pixel>) -> bool {
    forall|i: int, j: int|
        0 <= i < frame.len() && 0 <= j < frame.len() && (#[trigger] frame[i]).x == (
        #[trigger] frame[j]).x && frame[i].y == frame[j].y ==> i == j
}

/// In a coordinate-unique frame, the lookup at a pixel's coordinate
/// finds exactly that pixel's color.
proof fn lemma_lookup_prev_unique(frame: Seq<Pixel>, i: int)
    requires
        coords_unique(frame),
        0 <= i < frame.len(),
    ensures
        lookup_prev(frame, frame[i].x, frame[i].y) == Some(color_of(frame[i])),
    decreases frame.len(),
{
    let l = frame.last();
    if l.x == frame[i].x && l.y == frame[i].y {
        assert(i == frame.len() - 1);
    } else {
        assert(i < frame.len() - 1);
        assert(coords_unique(frame.drop_last())) by {
            assert(forall|a: int|
                0 <= a < frame.drop_last().len() ==> #[trigger] frame.drop_last()[a] == frame[a]);
        }
        assert(frame.drop_last()[i] == frame[i]);
        lemma_lookup_prev_unique(frame.drop_last(), i);
    }
}

/// The delta of the first `k` pixels of a coordinate-unique frame
/// against the whole of it is empty.
proof fn lemma_delta_self_prefix(frame: Seq<Pixel>, k: int)
    requires
        coords_unique(frame),
        0 <= k <= frame.len(),
    ensures
        delta_spec(frame, frame.take(k)) == Seq::<Pixel>::empty(),
    decreases k,
{
    if k > 0 {
        lemma_delta_self_prefix(frame, k - 1);
        assert(frame.take(k).drop_last() =~= frame.take(k - 1));
        assert(frame.take(k).last() == frame[k - 1]);
        lemma_lookup_prev_unique(frame, k - 1);
        assert(!changed_pixel(frame, frame[k - 1]));
    }
}

/// An unchanged frame produces an empty delta: when a frame paints
/// each coordinate once, no pixel of it counts as changed against the
/// frame itself.
pub proof fn lemma_delta_of_unchanged_frame_is_empty(frame: Seq<Pixel>)
    requires
        coords_unique(frame),
    ensures
        delta_spec(frame, frame) == Seq::<Pixel>::empty(),
{
    lemma_delta_self_prefix(frame, frame.len() as int);
    assert(frame.take(frame.len() as int) =~= frame);
}

/// The changed subset of `current` against `previous`: every pixel of
/// `current` whose coordinate is new or whose color differs in any
/// channel from what `previous` left there, in `current`'s order.
/// The previous frame is consulted through a hash map keyed by
/// coordinate, one lookup per candidate pixel.
pub fn frame_delta(previous: &Vec<Pixel>, current: &Vec<Pixel>) -> (r: Vec<Pixel>)
    ensures
        r@ == delta_spec(previous@, current@),
{
    let mut map: HashMap<u64, (u16, u16, u16)> = HashMap::new();
    let mut i: usize = 0;
    while i < previous.len()
        invariant
            i <= previous@.len(),
            map@ == prev_map(previous@.take(i as int)),
        decreases previous@.len() - i,
    {
        let p = previous[i];
        let key: u64 = (p.x as u64) * 0x10000 + (p.y as u64);
        map.insert(key, (p.r, p.g, p.b));
        proof {
            assert(previous@.take(i + 1).drop_last() =~= previous@.take(i as int));
            assert(previous@.take(i + 1).last() == p);
        }
        i = i + 1;
    }
    proof {
        assert(previous@.take(previous@.len() as int) =~= previous@);
    }
    let mut out: Vec<Pixel> = Vec::new();
    let mut j: usize = 0;
    while j < current.len()
        invariant
            j <= current@.len(),
            map@ == prev_map(previous@),
            out@ == delta_spec(previous@, current@.take(j as int)),
        decreases current@.len() - j,
    {
        let p = current[j];
        let key: u64 = (p.x as u64) * 0x10000 + (p.y as u64);
        let changed: bool = match map.get(&key) {
            Some(c) => p.r != c.0 || p.g != c.1 || p.b != c.2,
            None => true,
        };
        proof {
            lemma_prev_map_lookup(previous@, p.x, p.y);
            assert(changed == changed_pixel(previous@, p));
            assert(current@.take(j + 1).drop_last() =~= current@.take(j as int));
            assert(current@.take(j + 1).last() == p);
        }
        if changed {
            out.push(p);
        }
        j = j + 1;
    }
    proof {
        assert(current@.take(current@.len() as int) =~= current@);
    }
    out
}

} // verus!
