//! The block-merging optimizer: a greedy single pass that replaces
//! each complete same-colored 2x2 group of still-unconsumed pixels
//! by one big pixel; merged blocks never overlap.

use vstd::prelude::*;

use crate::pixel::Pixel;

verus! {

/// The pixel one step east of `p`, with the same color and flag.
pub open spec fn east_of(p: Pixel) -> Pixel {
    Pixel { x: ((p.x + 1) as u16), y: p.y, r: p.r, g: p.g, b: p.b, big: p.big }
}

/// The pixel one step south of `p`, with the same color and flag.
pub open spec fn south_of(p: Pixel) -> Pixel {
    Pixel { x: p.x, y: ((p.y + 1) as u16), r: p.r, g: p.g, b: p.b, big: p.big }
}

/// The pixel diagonally south-east of `p`, with the same color and flag.
pub open spec fn diag_of(p: Pixel) -> Pixel {
    Pixel { x: ((p.x + 1) as u16), y: ((p.y + 1) as u16), r: p.r, g: p.g, b: p.b, big: p.big }
}

/// `p` together with its three 2x2 neighbors forms a complete
/// same-colored quad inside `pixels`.  An anchor on the last canvas
/// row or column has no room for its neighbors and never anchors a
/// quad.
pub open spec fn quad_present(pixels: Seq<Pixel>, p: Pixel) -> bool {
    &&& p.x < 0xffff
    &&& p.y < 0xffff
    &&& pixels.contains(east_of(p))
    &&& pixels.contains(south_of(p))
    &&& pixels.contains(diag_of(p))
}

/// `p` may merge now: its whole quad is present in the input and none
/// of its three neighbors was already consumed by a previous merge.
pub open spec fn mergeable(pixels: Seq<Pixel>, ignored: Seq<Pixel>, p: Pixel) -> bool {
    &&& quad_present(pixels, p)
    &&& !ignored.contains(east_of(p))
    &&& !ignored.contains(south_of(p))
    &&& !ignored.contains(diag_of(p))
}

/// `p` with its merged-block flag set to `big`.
pub open spec fn with_big(p: Pixel, big: bool) -> Pixel {
    Pixel { x: p.x, y: p.y, r: p.r, g: p.g, b: p.b, big }
}

/// What the greedy pass emits from position `i` on, given the pixels
/// already consumed by an earlier merge.  A consumed pixel is
/// skipped; an anchor whose whole quad is present and unconsumed is
/// emitted as a big pixel and all four members of its quad are marked
/// consumed, so no later merge can reuse any of them; any other pixel
/// passes through with the flag cleared.
pub open spec fn optimize_from(pixels: Seq<Pixel>, i: int, ignored: Seq<Pixel>) -> Seq<Pixel>
    decreases pixels.len() - i,
{
    if i < 0 || i >= pixels.len() {
        Seq::empty()
    } else {
        let p = pixels[i];
        if ignored.contains(p) {
            optimize_from(pixels, i + 1, ignored)
        } else if mergeable(pixels, ignored, p) {
            seq![with_big(p, true)] + optimize_from(
                pixels,
                i + 1,
                ignored.push(east_of(p)).push(south_of(p)).push(diag_of(p)).push(p),
            )
        } else {
            seq![with_big(p, false)] + optimize_from(pixels, i + 1, ignored)
        }
    }
}

/// The whole optimized sequence: the greedy pass started at the first
/// pixel with nothing consumed yet.
pub open spec fn optimize_spec(pixels: Seq<Pixel>) -> Seq<Pixel> {
    optimize_from(pixels, 0, Seq::empty())
}

/// Whether `v` holds a pixel structurally equal to `p`.
fn contains_pixel(v: &Vec<Pixel>, p: Pixel) -> (r: bool)
    ensures
        r == v@.contains(p),
{
    let mut i: usize = 0;
    while i < v.len()
        invariant
            i <= v@.len(),
            forall|j: int| 0 <= j < i ==> v@[j] != p,
        decreases v@.len() - i,
    {
        if v[i] == p {
            assert(v@.contains(p)) by {
                assert(v@[i as int] == p);
            }
            return true;
        }
        i = i + 1;
    }
    false
}

/// Losslessly coalesces same-colored 2x2 blocks: every contiguous
/// quad of pixels sharing one color whose anchor is reached first is
/// replaced by a single big pixel at the anchor's coordinate, all
/// four members of the quad are consumed, and every other pixel
/// passes through with `big = false`.  A pixel already consumed by an
/// earlier merge is skipped as an anchor and refused as a neighbor,
/// so merged blocks never overlap.  Greedy, single pass, in the
/// input's order.
pub fn optimize_pixels(pixels: &Vec<Pixel>) -> (r: Vec<Pixel>)
    ensures
        r@ == optimize_spec(pixels@),
{
    let mut optimized: Vec<Pixel> = Vec::new();
    let mut ignored: Vec<Pixel> = Vec::new();
    let mut i: usize = 0;
    while i < pixels.len()
        invariant
            i <= pixels@.len(),
            optimize_spec(pixels@) == optimized@ + optimize_from(pixels@, i as int, ignored@),
        decreases pixels@.len() - i,
    {
        let ghost old_optimized = optimized@;
        let ghost old_ignored = ignored@;
        let p = pixels[i];
        if contains_pixel(&ignored, p) {
            proof {
                assert(optimize_from(pixels@, i as int, old_ignored) == optimize_from(
                    pixels@,
                    i + 1,
                    old_ignored,
                ));
            }
        } else {
            let mut merged: bool = false;
            if p.x < 0xffff && p.y < 0xffff {
                let east = Pixel { x: p.x + 1, y: p.y, r: p.r, g: p.g, b: p.b, big: p.big };
                let south = Pixel { x: p.x, y: p.y + 1, r: p.r, g: p.g, b: p.b, big: p.big };
                let diag = Pixel { x: p.x + 1, y: p.y + 1, r: p.r, g: p.g, b: p.b, big: p.big };
                let quad_here = contains_pixel(pixels, east) && contains_pixel(pixels, south)
                    && contains_pixel(pixels, diag);
                let unconsumed = !contains_pixel(&ignored, east) && !contains_pixel(
                    &ignored,
                    south,
                ) && !contains_pixel(&ignored, diag);
                if quad_here && unconsumed {
                    ignored.push(east);
                    ignored.push(south);
                    ignored.push(diag);
                    ignored.push(p);
                    optimized.push(Pixel { x: p.x, y: p.y, r: p.r, g: p.g, b: p.b, big: true });
                    merged = true;
                    proof {
                        assert(mergeable(pixels@, old_ignored, p));
                        assert(optimize_from(pixels@, i as int, old_ignored) == seq![
                            with_big(p, true),
                        ] + optimize_from(pixels@, i + 1, ignored@));
                        assert(old_optimized + (seq![with_big(p, true)] + optimize_from(
                            pixels@,
                            i + 1,
                            ignored@,
                        )) =~= optimized@ + optimize_from(pixels@, i + 1, ignored@));
                    }
                }
            }
            if !merged {
                optimized.push(Pixel { x: p.x, y: p.y, r: p.r, g: p.g, b: p.b, big: false });
                proof {
                    assert(!mergeable(pixels@, old_ignored, p));
                    assert(optimize_from(pixels@, i as int, old_ignored) == seq![
                        with_big(p, false),
                    ] + optimize_from(pixels@, i + 1, old_ignored));
                    assert(old_optimized + (seq![with_big(p, false)] + optimize_from(
                        pixels@,
                        i + 1,
                        old_ignored,
                    )) =~= optimized@ + optimize_from(pixels@, i + 1, old_ignored));
                }
            }
        }
        i = i + 1;
    }
    optimized
}

/// From any position, the pass emits at most one pixel per remaining
/// input position.
proof fn lemma_optimize_from_len(pixels: Seq<Pixel>, i: int, ignored: Seq<Pixel>)
    requires
        0 <= i <= pixels.len(),
    ensures
        optimize_from(pixels, i, ignored).len() <= pixels.len() - i,
    decreases pixels.len() - i,
{
    if i < pixels.len() {
        let p = pixels[i];
        if ignored.contains(p) {
            lemma_optimize_from_len(pixels, i + 1, ignored);
        } else if mergeable(pixels, ignored, p) {
            lemma_optimize_from_len(
                pixels,
                i + 1,
                ignored.push(east_of(p)).push(south_of(p)).push(diag_of(p)).push(p),
            );
        } else {
            lemma_optimize_from_len(pixels, i + 1, ignored);
        }
    }
}

/// While no remaining pixel is consumed and none anchors a complete
/// quad, the pass emits exactly one pixel per remaining position.
proof fn lemma_optimize_from_len_no_quad(pixels: Seq<Pixel>, i: int, ignored: Seq<Pixel>)
    requires
        0 <= i <= pixels.len(),
        forall|j: int| i <= j < pixels.len() ==> !ignored.contains(#[trigger] pixels[j]),
        forall|j: int| i <= j < pixels.len() ==> !quad_present(pixels, #[trigger] pixels[j]),
    ensures
        optimize_from(pixels, i, ignored).len() == pixels.len() - i,
    decreases pixels.len() - i,
{
    if i < pixels.len() {
        lemma_optimize_from_len_no_quad(pixels, i + 1, ignored);
    }
}

/// The optimizer is a reducing transform: the optimized sequence is
/// never longer than its input.
pub proof fn lemma_optimize_reduces(pixels: Seq<Pixel>)
    ensures
        optimize_spec(pixels).len() <= pixels.len(),
{
    lemma_optimize_from_len(pixels, 0, Seq::empty());
}

/// When the input holds no complete same-colored quad at all, the
/// optimizer keeps the length: every pixel passes through.
pub proof fn lemma_optimize_keeps_len_without_quads(pixels: Seq<Pixel>)
    requires
        forall|i: int| 0 <= i < pixels.len() ==> !quad_present(pixels, #[trigger] pixels[i]),
    ensures
        optimize_spec(pixels).len() == pixels.len(),
{
    lemma_optimize_from_len_no_quad(pixels, 0, Seq::empty());
}

/// One painted canvas cell: a coordinate and the color put there.
pub struct CanvasCell {
    pub x: u16,
    pub y: u16,
    pub r: u16,
    pub g: u16,
    pub b: u16,
}

/// The cell at `(x, y)` painted with `p`'s color.
pub open spec fn cell_at(x: u16, y: u16, p: Pixel) -> CanvasCell {
    CanvasCell { x, y, r: p.r, g: p.g, b: p.b }
}

/// The cells one pixel command paints: a plain pixel paints its own
/// cell, a big pixel paints its 2x2 block.
pub open spec fn cells_of(p: Pixel) -> Set<CanvasCell> {
    if p.big {
        set![
            cell_at(p.x, p.y, p),
            cell_at(((p.x + 1) as u16), p.y, p),
            cell_at(p.x, ((p.y + 1) as u16), p),
            cell_at(((p.x + 1) as u16), ((p.y + 1) as u16), p),
        ]
    } else {
        set![cell_at(p.x, p.y, p)]
    }
}

/// Every cell painted by a sequence of pixel commands.
pub open spec fn painted_cells(pixels: Seq<Pixel>) -> Set<CanvasCell>
    decreases pixels.len(),
{
    if pixels.len() == 0 {
        Set::empty()
    } else {
        painted_cells(pixels.drop_last()).union(cells_of(pixels.last()))
    }
}

/// A cell is painted by a sequence exactly when some command of the
/// sequence paints it.
proof fn lemma_painted_cells_member(pixels: Seq<Pixel>, c: CanvasCell)
    ensures
        painted_cells(pixels).contains(c) <==> exists|i: int|
            0 <= i < pixels.len() && cells_of(#[trigger] pixels[i]).contains(c),
    decreases pixels.len(),
{
    if pixels.len() > 0 {
        lemma_painted_cells_member(pixels.drop_last(), c);
        if painted_cells(pixels).contains(c) {
            if cells_of(pixels.last()).contains(c) {
                assert(cells_of(pixels[pixels.len() - 1]).contains(c));
            } else {
                let i = choose|i: int|
                    0 <= i < pixels.drop_last().len() && cells_of(
                        #[trigger] pixels.drop_last()[i],
                    ).contains(c);
                assert(cells_of(pixels[i]).contains(c));
            }
        }
        if exists|i: int| 0 <= i < pixels.len() && cells_of(#[trigger] pixels[i]).contains(c) {
            let i = choose|i: int|
                0 <= i < pixels.len() && cells_of(#[trigger] pixels[i]).contains(c);
            if i < pixels.len() - 1 {
                assert(cells_of(pixels.drop_last()[i]).contains(c));
            }
        }
    }
}

/// A pixel sequence of plain (unmerged) commands only.
pub open spec fn all_plain(pixels: Seq<Pixel>) -> bool {
    forall|i: int| 0 <= i < pixels.len() ==> !(#[trigger] pixels[i]).big
}

/// Every emitted pixel is an input pixel with its flag rewritten, and
/// one emitted as big anchors a complete quad of the input.
proof fn lemma_optimize_from_elements(pixels: Seq<Pixel>, i: int, ignored: Seq<Pixel>)
    requires
        0 <= i <= pixels.len(),
    ensures
        forall|k: int|
            0 <= k < optimize_from(pixels, i, ignored).len() ==> exists|j: int|
                i <= j < pixels.len() && ((#[trigger] optimize_from(pixels, i, ignored)[k]
                    == with_big(#[trigger] pixels[j], false)) || (optimize_from(
                    pixels,
                    i,
                    ignored,
                )[k] == with_big(pixels[j], true) && quad_present(pixels, pixels[j]))),
    decreases pixels.len() - i,
{
    if i < pixels.len() {
        let p = pixels[i];
        let out = optimize_from(pixels, i, ignored);
        if ignored.contains(p) {
            let rest = optimize_from(pixels, i + 1, ignored);
            lemma_optimize_from_elements(pixels, i + 1, ignored);
            assert forall|k: int| 0 <= k < out.len() implies exists|j: int|
                i <= j < pixels.len() && ((#[trigger] out[k] == with_big(pixels[j], false)) || (
                out[k] == with_big(pixels[j], true) && quad_present(pixels, pixels[j]))) by {
                assert(out[k] == rest[k]);
            }
        } else if mergeable(pixels, ignored, p) {
            let grown = ignored.push(east_of(p)).push(south_of(p)).push(diag_of(p)).push(p);
            let rest = optimize_from(pixels, i + 1, grown);
            lemma_optimize_from_elements(pixels, i + 1, grown);
            assert forall|k: int| 0 <= k < out.len() implies exists|j: int|
                i <= j < pixels.len() && ((#[trigger] out[k] == with_big(pixels[j], false)) || (
                out[k] == with_big(pixels[j], true) && quad_present(pixels, pixels[j]))) by {
                if k == 0 {
                    assert(out[0] == with_big(pixels[i], true) && quad_present(pixels, pixels[i]));
                } else {
                    assert(out[k] == rest[k - 1]);
                }
            }
        } else {
            let rest = optimize_from(pixels, i + 1, ignored);
            lemma_optimize_from_elements(pixels, i + 1, ignored);
            assert forall|k: int| 0 <= k < out.len() implies exists|j: int|
                i <= j < pixels.len() && ((#[trigger] out[k] == with_big(pixels[j], false)) || (
                out[k] == with_big(pixels[j], true) && quad_present(pixels, pixels[j]))) by {
                if k == 0 {
                    assert(out[0] == with_big(pixels[i], false));
                } else {
                    assert(out[k] == rest[k - 1]);
                }
            }
        }
    }
}

/// Nothing new is painted: every cell the optimized sequence paints
/// was already painted by the plain input.
proof fn lemma_optimize_sound_cells(pixels: Seq<Pixel>, i: int, ignored: Seq<Pixel>, c: CanvasCell)
    requires
        0 <= i <= pixels.len(),
        all_plain(pixels),
        painted_cells(optimize_from(pixels, i, ignored)).contains(c),
    ensures
        painted_cells(pixels).contains(c),
{
    let out = optimize_from(pixels, i, ignored);
    lemma_painted_cells_member(out, c);
    let k = choose|k: int| 0 <= k < out.len() && cells_of(#[trigger] out[k]).contains(c);
    lemma_optimize_from_elements(pixels, i, ignored);
    let j = choose|j: int|
        i <= j < pixels.len() && ((out[k] == with_big(#[trigger] pixels[j], false)) || (out[k]
            == with_big(pixels[j], true) && quad_present(pixels, pixels[j])));
    let p = pixels[j];
    lemma_painted_cells_member(pixels, c);
    if out[k] == with_big(p, false) {
        assert(cells_of(p).contains(c));
    } else {
        assert(quad_present(pixels, p));
        if c == cell_at(p.x, p.y, p) {
            assert(cells_of(pixels[j]).contains(c));
        } else if c == cell_at(((p.x + 1) as u16), p.y, p) {
            let je = choose|t: int| 0 <= t < pixels.len() && pixels[t] == east_of(p);
            assert(cells_of(pixels[je]).contains(c));
        } else if c == cell_at(p.x, ((p.y + 1) as u16), p) {
            let js = choose|t: int| 0 <= t < pixels.len() && pixels[t] == south_of(p);
            assert(cells_of(pixels[js]).contains(c));
        } else {
            assert(c == cell_at(((p.x + 1) as u16), ((p.y + 1) as u16), p));
            let jd = choose|t: int| 0 <= t < pixels.len() && pixels[t] == diag_of(p);
            assert(cells_of(pixels[jd]).contains(c));
        }
    }
}

/// Nothing is lost: every remaining input pixel that is not already
/// consumed has its cell painted by what the pass emits.
proof fn lemma_optimize_covers_cells(pixels: Seq<Pixel>, i: int, ignored: Seq<Pixel>)
    requires
        0 <= i <= pixels.len(),
    ensures
        forall|j: int|
            i <= j < pixels.len() && !ignored.contains(#[trigger] pixels[j]) ==> painted_cells(
                optimize_from(pixels, i, ignored),
            ).contains(cell_at(pixels[j].x, pixels[j].y, pixels[j])),
    decreases pixels.len() - i,
{
    if i < pixels.len() {
        let p = pixels[i];
        let out = optimize_from(pixels, i, ignored);
        if ignored.contains(p) {
            lemma_optimize_covers_cells(pixels, i + 1, ignored);
        } else if mergeable(pixels, ignored, p) {
            let grown = ignored.push(east_of(p)).push(south_of(p)).push(diag_of(p)).push(p);
            let rest = optimize_from(pixels, i + 1, grown);
            let anchor = with_big(p, true);
            lemma_optimize_covers_cells(pixels, i + 1, grown);
            assert forall|j: int|
                i <= j < pixels.len() && !ignored.contains(#[trigger] pixels[j]) implies
                painted_cells(out).contains(cell_at(pixels[j].x, pixels[j].y, pixels[j])) by {
                let c = cell_at(pixels[j].x, pixels[j].y, pixels[j]);
                lemma_painted_cells_member(out, c);
                if pixels[j] == p || pixels[j] == east_of(p) || pixels[j] == south_of(p)
                    || pixels[j] == diag_of(p) {
                    assert(cells_of(anchor).contains(c));
                    assert(out[0] == anchor);
                } else {
                    assert(!grown.contains(pixels[j])) by {
                        if grown.contains(pixels[j]) {
                            let t = choose|t: int|
                                0 <= t < grown.len() && grown[t] == pixels[j];
                            if t < ignored.len() {
                                assert(ignored[t] == pixels[j]);
                                assert(ignored.contains(pixels[j]));
                            } else {
                                assert(grown[ignored.len() as int] == east_of(p));
                                assert(grown[ignored.len() as int + 1] == south_of(p));
                                assert(grown[ignored.len() as int + 2] == diag_of(p));
                                assert(grown[ignored.len() as int + 3] == p);
                            }
                        }
                    }
                    assert(painted_cells(rest).contains(c));
                    lemma_painted_cells_member(rest, c);
                    let k = choose|k: int|
                        0 <= k < rest.len() && cells_of(#[trigger] rest[k]).contains(c);
                    assert(out[k + 1] == rest[k]);
                }
            }
        } else {
            let rest = optimize_from(pixels, i + 1, ignored);
            let emitted = with_big(p, false);
            lemma_optimize_covers_cells(pixels, i + 1, ignored);
            assert forall|j: int|
                i <= j < pixels.len() && !ignored.contains(#[trigger] pixels[j]) implies
                painted_cells(out).contains(cell_at(pixels[j].x, pixels[j].y, pixels[j])) by {
                let c = cell_at(pixels[j].x, pixels[j].y, pixels[j]);
                lemma_painted_cells_member(out, c);
                if j == i {
                    assert(cells_of(emitted).contains(c));
                    assert(out[0] == emitted);
                } else {
                    assert(painted_cells(rest).contains(c));
                    lemma_painted_cells_member(rest, c);
                    let k = choose|k: int|
                        0 <= k < rest.len() && cells_of(#[trigger] rest[k]).contains(c);
                    assert(out[k + 1] == rest[k]);
                }
            }
        }
    }
}

/// The optimizer is lossless: over plain input commands, the
/// optimized sequence paints exactly the same colored cells as the
/// input, no cell lost to a merge and none invented by one.
pub proof fn lemma_optimize_paints_the_same_cells(pixels: Seq<Pixel>)
    requires
        all_plain(pixels),
    ensures
        painted_cells(optimize_spec(pixels)) == painted_cells(pixels),
{
    let opt = optimize_spec(pixels);
    assert forall|c: CanvasCell| painted_cells(opt).contains(c) implies painted_cells(
        pixels,
    ).contains(c) by {
        lemma_optimize_sound_cells(pixels, 0, Seq::empty(), c);
    }
    assert forall|c: CanvasCell| painted_cells(pixels).contains(c) implies painted_cells(
        opt,
    ).contains(c) by {
        lemma_painted_cells_member(pixels, c);
        let j = choose|j: int| 0 <= j < pixels.len() && cells_of(#[trigger] pixels[j]).contains(c);
        assert(c == cell_at(pixels[j].x, pixels[j].y, pixels[j]));
        lemma_optimize_covers_cells(pixels, 0, Seq::empty());
        assert(!Seq::<Pixel>::empty().contains(pixels[j]));
    }
    assert(painted_cells(opt) =~= painted_cells(pixels));
}

/// The four plain pixels a merged big pixel stands for: its anchor
/// and the anchor's three 2x2 neighbors.
pub open spec fn block_of(w: Pixel) -> Set<Pixel> {
    let a = with_big(w, false);
    set![a, east_of(a), south_of(a), diag_of(a)]
}

/// Whatever the pass emits as a big pixel was merged now, not
/// earlier: none of its four block members was already consumed when
/// the pass started at `i`.
proof fn lemma_big_blocks_fresh(pixels: Seq<Pixel>, i: int, ignored: Seq<Pixel>)
    requires
        0 <= i <= pixels.len(),
        all_plain(pixels),
    ensures
        forall|k: int|
            0 <= k < optimize_from(pixels, i, ignored).len() && (#[trigger] optimize_from(
                pixels,
                i,
                ignored,
            )[k]).big ==> forall|q: Pixel|
                block_of(optimize_from(pixels, i, ignored)[k]).contains(q) ==> !ignored.contains(
                    q,
                ),
    decreases pixels.len() - i,
{
    if i < pixels.len() {
        let p = pixels[i];
        let out = optimize_from(pixels, i, ignored);
        if ignored.contains(p) {
            let rest = optimize_from(pixels, i + 1, ignored);
            lemma_big_blocks_fresh(pixels, i + 1, ignored);
            assert forall|k: int| 0 <= k < out.len() && (#[trigger] out[k]).big implies forall|
                q: Pixel,
            |
                block_of(out[k]).contains(q) ==> !ignored.contains(q) by {
                assert(out[k] == rest[k]);
            }
        } else if mergeable(pixels, ignored, p) {
            let grown = ignored.push(east_of(p)).push(south_of(p)).push(diag_of(p)).push(p);
            let rest = optimize_from(pixels, i + 1, grown);
            let anchor = with_big(p, true);
            lemma_big_blocks_fresh(pixels, i + 1, grown);
            assert forall|k: int| 0 <= k < out.len() && (#[trigger] out[k]).big implies forall|
                q: Pixel,
            |
                block_of(out[k]).contains(q) ==> !ignored.contains(q) by {
                if k == 0 {
                    assert(out[0] == anchor);
                    assert(with_big(anchor, false) == p);
                    assert forall|q: Pixel| block_of(anchor).contains(q) implies !ignored.contains(
                        q,
                    ) by {
                        assert(q == p || q == east_of(p) || q == south_of(p) || q == diag_of(p));
                    }
                } else {
                    assert(out[k] == rest[k - 1]);
                    assert forall|q: Pixel| block_of(out[k]).contains(q) implies !ignored.contains(
                        q,
                    ) by {
                        assert(!grown.contains(q));
                        if ignored.contains(q) {
                            let t = choose|t: int|
                                0 <= t < ignored.len() && ignored[t] == q;
                            assert(grown[t] == q);
                            assert(grown.contains(q));
                        }
                    }
                }
            }
        } else {
            let rest = optimize_from(pixels, i + 1, ignored);
            lemma_big_blocks_fresh(pixels, i + 1, ignored);
            assert forall|k: int| 0 <= k < out.len() && (#[trigger] out[k]).big implies forall|
                q: Pixel,
            |
                block_of(out[k]).contains(q) ==> !ignored.contains(q) by {
                assert(!out[0].big);
                assert(k > 0);
                assert(out[k] == rest[k - 1]);
            }
        }
    }
}

/// From any starting point, two distinct big pixels the pass emits
/// stand for disjoint 2x2 blocks.
proof fn lemma_optimize_from_blocks_disjoint(pixels: Seq<Pixel>, i: int, ignored: Seq<Pixel>)
    requires
        0 <= i <= pixels.len(),
        all_plain(pixels),
    ensures
        forall|k1: int, k2: int|
            0 <= k1 < k2 < optimize_from(pixels, i, ignored).len() && (#[trigger] optimize_from(
                pixels,
                i,
                ignored,
            )[k1]).big && (#[trigger] optimize_from(pixels, i, ignored)[k2]).big ==> block_of(
                optimize_from(pixels, i, ignored)[k1],
            ).disjoint(block_of(optimize_from(pixels, i, ignored)[k2])),
    decreases pixels.len() - i,
{
    if i < pixels.len() {
        let p = pixels[i];
        let out = optimize_from(pixels, i, ignored);
        if ignored.contains(p) {
            let rest = optimize_from(pixels, i + 1, ignored);
            lemma_optimize_from_blocks_disjoint(pixels, i + 1, ignored);
            assert forall|k1: int, k2: int|
                0 <= k1 < k2 < out.len() && (#[trigger] out[k1]).big && (
                #[trigger] out[k2]).big implies block_of(out[k1]).disjoint(
                block_of(out[k2]),
            ) by {
                assert(out[k1] == rest[k1]);
                assert(out[k2] == rest[k2]);
            }
        } else if mergeable(pixels, ignored, p) {
            let grown = ignored.push(east_of(p)).push(south_of(p)).push(diag_of(p)).push(p);
            let rest = optimize_from(pixels, i + 1, grown);
            let anchor = with_big(p, true);
            lemma_optimize_from_blocks_disjoint(pixels, i + 1, grown);
            lemma_big_blocks_fresh(pixels, i + 1, grown);
            assert forall|k1: int, k2: int|
                0 <= k1 < k2 < out.len() && (#[trigger] out[k1]).big && (
                #[trigger] out[k2]).big implies block_of(out[k1]).disjoint(
                block_of(out[k2]),
            ) by {
                if k1 == 0 {
                    assert(out[0] == anchor);
                    assert(out[k2] == rest[k2 - 1]);
                    assert(with_big(anchor, false) == p);
                    assert forall|q: Pixel| block_of(anchor).contains(q) implies !block_of(
                        out[k2],
                    ).contains(q) by {
                        assert(q == p || q == east_of(p) || q == south_of(p) || q == diag_of(p));
                        assert(grown[ignored.len() as int] == east_of(p));
                        assert(grown[ignored.len() as int + 1] == south_of(p));
                        assert(grown[ignored.len() as int + 2] == diag_of(p));
                        assert(grown[ignored.len() as int + 3] == p);
                        assert(grown.contains(q));
                    }
                } else {
                    assert(out[k1] == rest[k1 - 1]);
                    assert(out[k2] == rest[k2 - 1]);
                }
            }
        } else {
            let rest = optimize_from(pixels, i + 1, ignored);
            lemma_optimize_from_blocks_disjoint(pixels, i + 1, ignored);
            assert forall|k1: int, k2: int|
                0 <= k1 < k2 < out.len() && (#[trigger] out[k1]).big && (
                #[trigger] out[k2]).big implies block_of(out[k1]).disjoint(
                block_of(out[k2]),
            ) by {
                assert(!out[0].big);
                assert(k1 > 0);
                assert(out[k1] == rest[k1 - 1]);
                assert(out[k2] == rest[k2 - 1]);
            }
        }
    }
}

/// Merges never overlap: over plain input commands, any two big
/// pixels of the optimized sequence stand for disjoint 2x2 blocks,
/// so no input pixel is consumed by one merge and used again by
/// another.
pub proof fn lemma_optimize_merged_blocks_disjoint(pixels: Seq<Pixel>)
    requires
        all_plain(pixels),
    ensures
        forall|k1: int, k2: int|
            0 <= k1 < optimize_spec(pixels).len() && 0 <= k2 < optimize_spec(pixels).len() && k1
                != k2 && (#[trigger] optimize_spec(pixels)[k1]).big && (#[trigger] optimize_spec(
                pixels,
            )[k2]).big ==> block_of(optimize_spec(pixels)[k1]).disjoint(
                block_of(optimize_spec(pixels)[k2]),
            ),
{
    let out = optimize_spec(pixels);
    lemma_optimize_from_blocks_disjoint(pixels, 0, Seq::empty());
    assert forall|k1: int, k2: int|
        0 <= k1 < out.len() && 0 <= k2 < out.len() && k1 != k2 && (#[trigger] out[k1]).big && (
        #[trigger] out[k2]).big implies block_of(out[k1]).disjoint(block_of(out[k2])) by {
        if k1 < k2 {
            assert(block_of(out[k1]).disjoint(block_of(out[k2])));
        } else {
            assert(block_of(out[k2]).disjoint(block_of(out[k1])));
            assert forall|q: Pixel| block_of(out[k1]).contains(q) implies !block_of(
                out[k2],
            ).contains(q) by {
                if block_of(out[k2]).contains(q) {
                    assert(!block_of(out[k1]).contains(q));
                }
            }
        }
    }
}

/// `b` is one of the three 2x2 neighbors of the anchor `a`.
pub open spec fn neighbor_of(a: Pixel, b: Pixel) -> bool {
    ||| b == east_of(a)
    ||| b == south_of(a)
    ||| b == diag_of(a)
}

/// Every neighbor stands after its anchor in the input: the order of
/// a row- or column-major scan, where `(x, y)` always comes before
/// `(x+1, y)`, `(x, y+1)` and `(x+1, y+1)`.
pub open spec fn anchors_come_first(pixels: Seq<Pixel>) -> bool {
    forall|i: int, j: int|
        0 <= i < pixels.len() && 0 <= j < pixels.len() && #[trigger] neighbor_of(
            pixels[i],
            pixels[j],
        ) ==> j > i
}

/// The rest of the pass still has a position that will be skipped or
/// merged: one that is already consumed, or one that anchors a
/// complete quad.
spec fn pending_reduction(pixels: Seq<Pixel>, k: int, ignored: Seq<Pixel>) -> bool {
    exists|j: int|
        k <= j < pixels.len() && (ignored.contains(#[trigger] pixels[j]) || quad_present(
            pixels,
            pixels[j],
        ))
}

/// While a skip or a merge is still ahead and neighbors follow their
/// anchors, the pass emits strictly fewer pixels than remain.
proof fn lemma_optimize_from_strict(pixels: Seq<Pixel>, k: int, ignored: Seq<Pixel>)
    requires
        0 <= k <= pixels.len(),
        anchors_come_first(pixels),
        pending_reduction(pixels, k, ignored),
    ensures
        optimize_from(pixels, k, ignored).len() < pixels.len() - k,
    decreases pixels.len() - k,
{
    let w = choose|j: int|
        k <= j < pixels.len() && (ignored.contains(#[trigger] pixels[j]) || quad_present(
            pixels,
            pixels[j],
        ));
    let p = pixels[k];
    if ignored.contains(p) {
        lemma_optimize_from_len(pixels, k + 1, ignored);
    } else if mergeable(pixels, ignored, p) {
        let grown = ignored.push(east_of(p)).push(south_of(p)).push(diag_of(p)).push(p);
        let j0 = choose|j: int| 0 <= j < pixels.len() && pixels[j] == east_of(p);
        assert(pixels.contains(east_of(p)));
        assert(neighbor_of(pixels[k], pixels[j0]));
        assert(j0 > k);
        assert(grown[ignored.len() as int] == east_of(p));
        assert(grown.contains(pixels[j0]));
        assert(pending_reduction(pixels, k + 1, grown));
        lemma_optimize_from_strict(pixels, k + 1, grown);
    } else if quad_present(pixels, p) {
        // The quad is present but a neighbor was already consumed:
        // that neighbor stands after the anchor and will be skipped.
        let consumed = if ignored.contains(east_of(p)) {
            east_of(p)
        } else if ignored.contains(south_of(p)) {
            south_of(p)
        } else {
            diag_of(p)
        };
        assert(ignored.contains(consumed));
        assert(pixels.contains(consumed));
        let j0 = choose|j: int| 0 <= j < pixels.len() && pixels[j] == consumed;
        assert(neighbor_of(pixels[k], pixels[j0]));
        assert(j0 > k);
        assert(pending_reduction(pixels, k + 1, ignored)) by {
            assert(k + 1 <= j0 < pixels.len() && ignored.contains(pixels[j0]));
        }
        lemma_optimize_from_strict(pixels, k + 1, ignored);
    } else {
        assert(w != k);
        assert(pending_reduction(pixels, k + 1, ignored)) by {
            assert(k + 1 <= w < pixels.len() && (ignored.contains(pixels[w]) || quad_present(
                pixels,
                pixels[w],
            )));
        }
        lemma_optimize_from_strict(pixels, k + 1, ignored);
    }
}

/// When neighbors follow their anchors in the input's order, the
/// presence of any complete same-colored quad makes the optimizer
/// strictly shorter than its input; together with
/// [`lemma_optimize_keeps_len_without_quads`] the length is kept
/// exactly when no such quad exists.
pub proof fn lemma_optimize_strictly_reduces_with_quad(pixels: Seq<Pixel>)
    requires
        anchors_come_first(pixels),
        exists|i: int| 0 <= i < pixels.len() && quad_present(pixels, #[trigger] pixels[i]),
    ensures
        optimize_spec(pixels).len() < pixels.len(),
{
    let i = choose|i: int| 0 <= i < pixels.len() && quad_present(pixels, #[trigger] pixels[i]);
    assert(pending_reduction(pixels, 0, Seq::empty())) by {
        assert(0 <= i < pixels.len() && (Seq::<Pixel>::empty().contains(pixels[i])
            || quad_present(pixels, pixels[i])));
    }
    lemma_optimize_from_strict(pixels, 0, Seq::empty());
}

} // verus!
