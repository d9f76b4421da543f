//! Atlas construction. All sprites referenced by block models are packed into
//! one RGBA8 texture. Every sprite, and every frame of an animation strip, is
//! drawn with a one-texel border that repeats its edge, so that sampling and
//! mip generation do not bleed between neighbors.
//!
//! An animated sprite occupies one slot with its frames stacked at a distance
//! of `frame_stride`; the renderer moves down the strip by that distance.

use crate::error::{err, fails_with, AssetError, AssetResult};
use crate::order::{
    is_stable_order, is_total_preorder, law_pair_order, law_stable_order_is_unique,
    lemma_insert_keeps_order, lemma_order_exists, name_at_most, pair_le,
};
use crate::sprites::{Sprite, SpriteRef, SpriteStore};
use crate::text::{qualified, qualified_name, str_eq};
use vstd::prelude::*;

verus! {

/// Width of the border around a frame.
pub const GUTTER: u32 = 1;

/// Where one sprite lives inside the atlas texture.
#[derive(Clone, Copy, Debug, PartialEq, Eq, Structural)]
pub struct AtlasEntry {
    /// Top-left texel of the sprite's first frame (inside the border).
    pub x: u32,
    pub y: u32,
    pub frame_w: u32,
    pub frame_h: u32,
    /// Animation rows stacked in this slot (1 = still sprite).
    pub frames: u32,
    /// Vertical distance between frame origins.
    pub frame_stride: u32,
    /// Width of the slot in the atlas.
    pub slot_stride: u32,
}

#[derive(Clone, Copy, Debug, PartialEq, Eq, Structural)]
pub enum Layer {
    Opaque,
    Cutout,
    Translucent,
}

/// Tick-driven animation of a sprite.
#[derive(Debug)]
pub struct AnimTable {
    /// Game ticks each frame is shown.
    pub frametime: u32,
    /// Playback order (indices into the strip); empty = sequential.
    pub frames: Vec<u16>,
    pub interpolate: bool,
}

/// At least 1.
pub open spec fn at_least_one(n: int) -> int {
    if n < 1 {
        1
    } else {
        n
    }
}

impl AnimTable {
    /// The number of steps of the animation.
    pub open spec fn steps(&self, strip_frames: u32) -> u32 {
        if self.frames.len() == 0 {
            strip_frames
        } else {
            self.frames.len() as u32
        }
    }

    /// The strip row shown at a tick: the step that the tick falls on, read
    /// through the playback order where there is one.
    pub open spec fn row_at(&self, tick: u64, strip_frames: u32) -> int {
        let step = (tick as int / at_least_one(self.frametime as int)) % at_least_one(
            self.steps(strip_frames) as int,
        );
        if self.frames.len() == 0 {
            step
        } else {
            self.frames@[step] as int
        }
    }

    /// Strip row shown at `tick`.
    pub fn frame_at(&self, tick: u64, strip_frames: u32) -> (r: u32)
        ensures
            r == self.row_at(tick, strip_frames),
    {
        let steps: u32 = if self.frames.len() == 0 {
            strip_frames
        } else {
            let len: u64 = self.frames.len() as u64;
            proof {
                assert(len as u32 == len % 0x1_0000_0000) by (bit_vector);
            }
            #[verifier::truncate]
            let n: u32 = len as u32;
            n
        };
        let frametime: u64 = if self.frametime < 1 { 1 } else { self.frametime as u64 };
        let period: u64 = if steps < 1 { 1 } else { steps as u64 };
        let step: u64 = (tick / frametime) % period;
        if self.frames.len() == 0 {
            step as u32
        } else {
            self.frames[step as usize] as u32
        }
    }
}

/// An animation without a playback order shows a row of its strip, and one
/// with a playback order shows one of the rows that the order names.
pub proof fn law_row_is_in_range(a: AnimTable, tick: u64, strip_frames: u32)
    requires
        a.frames.len() <= u32::MAX,
    ensures
        a.frames.len() == 0 ==> 0 <= a.row_at(tick, strip_frames) < at_least_one(
            strip_frames as int,
        ),
        a.frames.len() > 0 ==> exists|i: int|
            0 <= i < a.frames.len() && a.row_at(tick, strip_frames) == #[trigger] a.frames@[i],
{
    let step = (tick as int / at_least_one(a.frametime as int)) % at_least_one(
        a.steps(strip_frames) as int,
    );
    if a.frames.len() > 0 {
        assert(a.row_at(tick, strip_frames) == a.frames@[step]);
    }
}

/// The first tick of a frame shows it for `frametime` ticks: the row does not
/// change within a frame's time.
pub proof fn law_row_holds_for_frametime(a: AnimTable, k: u64, d: u64, strip_frames: u32)
    requires
        a.frametime >= 1,
        d < a.frametime,
        k * a.frametime + d <= u64::MAX,
    ensures
        a.row_at((k * a.frametime + d) as u64, strip_frames) == a.row_at(
            (k * a.frametime) as u64,
            strip_frames,
        ),
{
    let f = a.frametime as int;
    assert(0 <= k * f) by (nonlinear_arith)
        requires
            k >= 0,
            f >= 1,
    ;
    assert((k * f + d) / f == k && (k * f) / f == k) by (nonlinear_arith)
        requires
            f >= 1,
            0 <= d < f,
            k >= 0,
    {
        vstd::arithmetic::div_mod::lemma_fundamental_div_mod_converse(
            k as int * f + d as int,
            f,
            k as int,
            d as int,
        );
        vstd::arithmetic::div_mod::lemma_fundamental_div_mod_converse(
            k as int * f,
            f,
            k as int,
            0,
        );
    }
}

/// Ticks until an animation starts over.
pub open spec fn period_of(a: AnimTable, strip_frames: u32) -> int {
    at_least_one(a.steps(strip_frames) as int) * at_least_one(a.frametime as int)
}

/// Playback goes around: one full period later the same row is shown.
pub proof fn law_rows_repeat(a: AnimTable, tick: u64, strip_frames: u32)
    requires
        tick + period_of(a, strip_frames) <= u64::MAX,
    ensures
        period_of(a, strip_frames) >= 1,
        a.row_at((tick + period_of(a, strip_frames)) as u64, strip_frames) == a.row_at(
            tick,
            strip_frames,
        ),
{
    let f = at_least_one(a.frametime as int);
    let s = at_least_one(a.steps(strip_frames) as int);
    assert(s * f >= 1) by (nonlinear_arith)
        requires
            s >= 1,
            f >= 1,
    ;
    vstd::arithmetic::div_mod::lemma_hoist_over_denominator(tick as int, s, f as nat);
    vstd::arithmetic::div_mod::lemma_mod_multiples_vanish(1, tick as int / f, s);
}

/// The source texel under a corner of a mip texel, moved into the image.
pub open spec fn mip_source(dx: int, dy: int, corner: int, w: int, h: int) -> int {
    let x = 2 * dx + corner % 2;
    let y = 2 * dy + corner / 2;
    let cx = if x < w - 1 {
        x
    } else {
        w - 1
    };
    let cy = if y < h - 1 {
        y
    } else {
        h - 1
    };
    (cy * w + cx) * 4
}

/// Summed alpha of the four source texels.
pub open spec fn mip_alpha(src: Seq<u8>, dx: int, dy: int, w: int, h: int) -> int {
    src[mip_source(dx, dy, 0, w, h) + 3] + src[mip_source(dx, dy, 1, w, h) + 3] + src[mip_source(
        dx,
        dy,
        2,
        w,
        h,
    ) + 3] + src[mip_source(dx, dy, 3, w, h) + 3]
}

/// A color channel of one source texel, weighted by its alpha.
pub open spec fn weighted(src: Seq<u8>, at: int, c: int) -> int {
    src[at + c] * src[at + 3]
}

/// Summed color channel of the four source texels, weighted by alpha.
pub open spec fn mip_color(src: Seq<u8>, dx: int, dy: int, w: int, h: int, c: int) -> int {
    weighted(src, mip_source(dx, dy, 0, w, h), c) + weighted(src, mip_source(dx, dy, 1, w, h), c)
        + weighted(src, mip_source(dx, dy, 2, w, h), c) + weighted(
        src,
        mip_source(dx, dy, 3, w, h),
        c,
    )
}

/// One byte of a mip texel: colors are the alpha-weighted average of the four
/// source texels (0 where all are transparent), and alpha is 255 where the
/// average alpha is at least one half, else 0.
pub open spec fn mip_byte(src: Seq<u8>, dx: int, dy: int, w: int, h: int, c: int) -> u8 {
    let a = mip_alpha(src, dx, dy, w, h);
    if c == 3 {
        if a >= 510 {
            255
        } else {
            0
        }
    } else if a > 0 {
        (mip_color(src, dx, dy, w, h, c) / a) as u8
    } else {
        0
    }
}

/// The mip image of a source image.
pub open spec fn mip_image(src: Seq<u8>, w: int, h: int, dw: int, dh: int) -> Seq<u8> {
    Seq::new(
        (dw * dh * 4) as nat,
        |i: int| mip_byte(src, (i / 4) % dw, (i / 4) / dw, w, h, i % 4),
    )
}

proof fn lemma_mip_source(dx: int, dy: int, corner: int, w: int, h: int)
    requires
        dx >= 0,
        dy >= 0,
        0 <= corner < 4,
        w >= 1,
        h >= 1,
    ensures
        0 <= mip_source(dx, dy, corner, w, h),
        mip_source(dx, dy, corner, w, h) + 4 <= w * h * 4,
{
    let x = 2 * dx + corner % 2;
    let y = 2 * dy + corner / 2;
    let cx = if x < w - 1 {
        x
    } else {
        w - 1
    };
    let cy = if y < h - 1 {
        y
    } else {
        h - 1
    };
    assert(0 <= cy * w + cx && cy * w + cx + 1 <= w * h) by (nonlinear_arith)
        requires
            0 <= cx <= w - 1,
            0 <= cy <= h - 1,
    ;
}

proof fn lemma_weighted_bound(src: Seq<u8>, at: int, c: int)
    ensures
        0 <= weighted(src, at, c) <= 255 * src[at + 3],
{
    let p = src[at + c] as int;
    let a = src[at + 3] as int;
    assert(0 <= p * a <= 255 * a) by (nonlinear_arith)
        requires
            0 <= p <= 255,
            0 <= a,
    ;
}

fn corner_at(dx: u32, dy: u32, corner: u32, w: u32, h: u32) -> (r: usize)
    requires
        corner < 4,
        w >= 1,
        h >= 1,
        w * h * 4 <= u32::MAX,
        2 * dx + 1 <= u32::MAX,
        2 * dy + 1 <= u32::MAX,
    ensures
        r == mip_source(dx as int, dy as int, corner as int, w as int, h as int),
        r + 4 <= w * h * 4,
{
    proof {
        lemma_mip_source(dx as int, dy as int, corner as int, w as int, h as int);
    }
    let x: u32 = 2 * dx + corner % 2;
    let y: u32 = 2 * dy + corner / 2;
    let cx: u32 = if x < w - 1 { x } else { w - 1 };
    let cy: u32 = if y < h - 1 { y } else { h - 1 };
    assert(0 <= cy * w <= cy * w + cx) by (nonlinear_arith)
        requires
            cy >= 0,
            w >= 0,
            cx >= 0,
    ;
    ((cy * w + cx) * 4) as usize
}

/// A 2x2 box filter weighted by alpha, with the resulting alpha sharpened to
/// 0 or 255.
pub fn downsample_cutout(src: &[u8], w: u32, h: u32, dw: u32, dh: u32) -> (r: Vec<u8>)
    requires
        w >= 1,
        h >= 1,
        w * h * 4 <= u32::MAX,
        src.len() >= w * h * 4,
        dw * dh * 4 <= u32::MAX,
    ensures
        r@ == mip_image(src@, w as int, h as int, dw as int, dh as int),
{
    let ghost want = mip_image(src@, w as int, h as int, dw as int, dh as int);
    let mut out: Vec<u8> = Vec::new();
    let mut dy: u32 = 0;
    proof {
        assert(0 <= dw * dh) by (nonlinear_arith)
            requires
                dw >= 0,
                dh >= 0,
        ;
    }
    while dy < dh
        invariant
            w >= 1,
            h >= 1,
            w * h * 4 <= u32::MAX,
            src.len() >= w * h * 4,
            0 <= dw * dh * 4 <= u32::MAX,
            want == mip_image(src@, w as int, h as int, dw as int, dh as int),
            dy <= dh,
            out@ == want.take(dy * dw * 4),
            out@.len() == dy * dw * 4,
        decreases dh - dy,
    {
        let mut dx: u32 = 0;
        while dx < dw
            invariant
                w >= 1,
                h >= 1,
                w * h * 4 <= u32::MAX,
                src.len() >= w * h * 4,
                0 <= dw * dh * 4 <= u32::MAX,
                want == mip_image(src@, w as int, h as int, dw as int, dh as int),
                dy < dh,
                dx <= dw,
                out@ == want.take((dy * dw + dx) * 4),
                out@.len() == (dy * dw + dx) * 4,
            decreases dw - dx,
        {
            let ghost t = dy * dw + dx;
            proof {
                assert(0 <= t && t + 1 <= dw * dh) by (nonlinear_arith)
                    requires
                        t == dy * dw + dx,
                        0 <= dx < dw,
                        0 <= dy < dh,
                ;
                assert(t / dw as int == dy && t % dw as int == dx) by {
                    assert(t == dw as int * dy as int + dx) by (nonlinear_arith)
                        requires
                            t == dy * dw + dx,
                    ;
                    vstd::arithmetic::div_mod::lemma_fundamental_div_mod_converse(
                        t,
                        dw as int,
                        dy as int,
                        dx as int,
                    );
                }
            }
            proof {
                assert(dw <= dw * dh && dh <= dw * dh) by (nonlinear_arith)
                    requires
                        dw >= 1,
                        dh >= 1,
                ;
            }
            let s0 = corner_at(dx, dy, 0, w, h);
            let s1 = corner_at(dx, dy, 1, w, h);
            let s2 = corner_at(dx, dy, 2, w, h);
            let s3 = corner_at(dx, dy, 3, w, h);
            proof {
                lemma_weighted_bound(src@, s0 as int, 0);
                lemma_weighted_bound(src@, s1 as int, 0);
                lemma_weighted_bound(src@, s2 as int, 0);
                lemma_weighted_bound(src@, s3 as int, 0);
                lemma_weighted_bound(src@, s0 as int, 1);
                lemma_weighted_bound(src@, s1 as int, 1);
                lemma_weighted_bound(src@, s2 as int, 1);
                lemma_weighted_bound(src@, s3 as int, 1);
                lemma_weighted_bound(src@, s0 as int, 2);
                lemma_weighted_bound(src@, s1 as int, 2);
                lemma_weighted_bound(src@, s2 as int, 2);
                lemma_weighted_bound(src@, s3 as int, 2);
            }
            let a0: u32 = src[s0 + 3] as u32;
            let a1: u32 = src[s1 + 3] as u32;
            let a2: u32 = src[s2 + 3] as u32;
            let a3: u32 = src[s3 + 3] as u32;
            let a: u32 = a0 + a1 + a2 + a3;
            let r: u32 = src[s0] as u32 * a0 + src[s1] as u32 * a1 + src[s2] as u32 * a2 + src[s3] as u32
                * a3;
            let g: u32 = src[s0 + 1] as u32 * a0 + src[s1 + 1] as u32 * a1 + src[s2 + 1] as u32 * a2
                + src[s3 + 1] as u32 * a3;
            let b: u32 = src[s0 + 2] as u32 * a0 + src[s1 + 2] as u32 * a1 + src[s2 + 2] as u32 * a2
                + src[s3 + 2] as u32 * a3;
            let alpha_out: u8 = if a >= 510 { 255 } else { 0 };
            let mut c0: u8 = 0;
            let mut c1: u8 = 0;
            let mut c2: u8 = 0;
            if a > 0 {
                proof {
                    assert(r / a <= 255 && g / a <= 255 && b / a <= 255) by (nonlinear_arith)
                        requires
                            a > 0,
                            r <= 255 * a,
                            g <= 255 * a,
                            b <= 255 * a,
                    ;
                }
                c0 = (r / a) as u8;
                c1 = (g / a) as u8;
                c2 = (b / a) as u8;
            }
            out.push(c0);
            out.push(c1);
            out.push(c2);
            out.push(alpha_out);
            proof {
                assert((t * 4) / 4 == t && (t * 4 + 1) / 4 == t && (t * 4 + 2) / 4 == t && (t * 4
                    + 3) / 4 == t);
                assert(want[t * 4] == c0);
                assert(want[t * 4 + 1] == c1);
                assert(want[t * 4 + 2] == c2);
                assert(want[t * 4 + 3] == alpha_out);
                assert((dy * dw + (dx + 1)) * 4 == t * 4 + 4);
                assert(out@ =~= want.take(t * 4 + 4));
            }
            dx += 1;
        }
        proof {
            assert((dy * dw + dw) * 4 == (dy + 1) * dw * 4) by (nonlinear_arith);
        }
        dy += 1;
    }
    proof {
        assert(dh * dw * 4 == dw * dh * 4) by (nonlinear_arith);
        assert(want.take(want.len() as int) == want);
    }
    out
}

/// The number of frames drawn into a slot.
pub open spec fn frames_of(s: Sprite) -> int {
    s.frame_count_spec() as int
}

/// The height of one frame: a still sprite is one frame.
pub open spec fn frame_height(s: Sprite) -> int {
    if frames_of(s) > 1 {
        s.frame_h as int
    } else {
        s.tex.height as int
    }
}

/// The distance between the tops of two frames.
pub open spec fn stride_of(s: Sprite) -> int {
    frame_height(s) + GUTTER
}

/// The width of a sprite's slot.
pub open spec fn slot_width(s: Sprite) -> int {
    s.tex.width + 2 * GUTTER
}

/// The height of a sprite's slot: the texture with a border, or as much as
/// the stacked frames take.
pub open spec fn slot_height(s: Sprite) -> int {
    let stacked = frames_of(s) * stride_of(s) + GUTTER;
    let plain = s.tex.height + 2 * GUTTER;
    if stacked > plain {
        stacked
    } else {
        plain
    }
}

/// The packing key of a name: its slot height, 0 where the store lacks it.
pub open spec fn slot_key(store: SpriteStore, ns: Seq<char>, name: Seq<char>) -> int {
    match store.lookup(ns, name) {
        Some(s) => slot_height(s),
        None => 0,
    }
}

pub open spec fn slot_keys(store: SpriteStore, names: Seq<SpriteRef>) -> Seq<int> {
    Seq::new(names.len(), |i: int| slot_key(store, names[i].0@, names[i].1@))
}

/// Packing order: tall slots first, equally tall ones by name.
pub open spec fn slots_le(names: Seq<SpriteRef>, keys: Seq<int>) -> spec_fn(int, int) -> bool {
    |a: int, b: int|
        keys[a] > keys[b] || (keys[a] == keys[b] && pair_le(
            (names[a].0@, names[a].1@),
            (names[b].0@, names[b].1@),
        ))
}

/// The packing order of a list of names.
pub open spec fn packing_order(store: SpriteStore, names: Seq<SpriteRef>) -> Seq<usize> {
    choose|r: Seq<usize>|
        is_stable_order(r, names.len() as int, slots_le(names, slot_keys(store, names)))
}

proof fn lemma_slots_preorder(names: Seq<SpriteRef>, keys: Seq<int>)
    ensures
        is_total_preorder(slots_le(names, keys)),
{
    let le = slots_le(names, keys);
    assert forall|a: int, b: int| #[trigger] le(a, b) || le(b, a) by {
        law_pair_order(
            (names[a].0@, names[a].1@),
            (names[b].0@, names[b].1@),
            (names[a].0@, names[a].1@),
        );
    }
    assert forall|a: int, b: int, c: int| #[trigger] le(a, b) && #[trigger] le(b, c) implies le(
        a,
        c,
    ) by {
        law_pair_order(
            (names[a].0@, names[a].1@),
            (names[b].0@, names[b].1@),
            (names[c].0@, names[c].1@),
        );
    }
}

/// A list of names has a packing order.
pub proof fn lemma_packing_order(store: SpriteStore, names: Seq<SpriteRef>)
    requires
        names.len() <= usize::MAX,
    ensures
        is_stable_order(
            packing_order(store, names),
            names.len() as int,
            slots_le(names, slot_keys(store, names)),
        ),
{
    lemma_slots_preorder(names, slot_keys(store, names));
    lemma_order_exists(names.len() as int, slots_le(names, slot_keys(store, names)));
}

fn slot_comes_first(
    names: &[SpriteRef],
    keys: &[u128],
    a: usize,
    b: usize,
    Ghost(k): Ghost<Seq<int>>,
) -> (r: bool)
    requires
        a < names.len(),
        b < names.len(),
        keys.len() == names.len(),
        k.len() == keys.len(),
        forall|i: int| 0 <= i < k.len() ==> #[trigger] k[i] == keys@[i],
    ensures
        r == slots_le(names@, k)(a as int, b as int),
{
    assert(k[a as int] == keys@[a as int] && k[b as int] == keys@[b as int]);
    if keys[a] != keys[b] {
        keys[a] > keys[b]
    } else if str_eq(names[a].0.as_str(), names[b].0.as_str()) {
        name_at_most(names[a].1.as_str(), names[b].1.as_str())
    } else {
        name_at_most(names[a].0.as_str(), names[b].0.as_str())
    }
}

/// The measures of a slot: width, height, frames, frame height, stride.
struct SlotSize {
    w: u128,
    h: u128,
    frames: u32,
    frame_h: u32,
    stride: u128,
}

fn slot_size(s: &Sprite) -> (r: SlotSize)
    ensures
        r.w == slot_width(*s),
        r.h == slot_height(*s),
        r.frames == frames_of(*s),
        r.frame_h == frame_height(*s),
        r.stride == stride_of(*s),
{
    let frames = s.frame_count();
    let frame_h: u32 = if frames > 1 { s.frame_h } else { s.tex.height };
    let stride: u128 = frame_h as u128 + GUTTER as u128;
    proof {
        assert(frames * stride <= 0xffff_ffff * 0x1_0000_0000) by (nonlinear_arith)
            requires
                0 <= frames <= 0xffff_ffff,
                0 <= stride <= 0x1_0000_0000,
        ;
    }
    let stacked: u128 = frames as u128 * stride + GUTTER as u128;
    let plain: u128 = s.tex.height as u128 + 2 * GUTTER as u128;
    SlotSize {
        w: s.tex.width as u128 + 2 * GUTTER as u128,
        h: if stacked > plain { stacked } else { plain },
        frames,
        frame_h,
        stride,
    }
}

fn order_slots(store: &SpriteStore, names: &[SpriteRef]) -> (r: Vec<usize>)
    ensures
        r@ == packing_order(*store, names@),
        is_stable_order(
            r@,
            names@.len() as int,
            slots_le(names@, slot_keys(*store, names@)),
        ),
{
    let ghost k = slot_keys(*store, names@);
    let ghost le = slots_le(names@, k);
    let mut keys: Vec<u128> = Vec::new();
    let mut i: usize = 0;
    while i < names.len()
        invariant
            i <= names.len(),
            k == slot_keys(*store, names@),
            keys.len() == i,
            forall|j: int| 0 <= j < i ==> k[j] == #[trigger] keys@[j],
        decreases names.len() - i,
    {
        let key: u128 = match store.get(names[i].0.as_str(), names[i].1.as_str()) {
            Some(s) => slot_size(s).h,
            None => 0,
        };
        keys.push(key);
        i += 1;
    }
    proof {
        lemma_slots_preorder(names@, k);
    }
    let mut out: Vec<usize> = Vec::new();
    let mut n: usize = 0;
    while n < names.len()
        invariant
            n <= names.len(),
            keys.len() == names.len(),
            k.len() == keys.len(),
            forall|j: int| 0 <= j < k.len() ==> #[trigger] k[j] == keys@[j],
            le == slots_le(names@, k),
            is_total_preorder(le),
            is_stable_order(out@, n as int, le),
        decreases names.len() - n,
    {
        let mut pos: usize = out.len();
        while pos > 0 && !slot_comes_first(names, &keys, out[pos - 1], n, Ghost(k))
            invariant
                n < names.len(),
                keys.len() == names.len(),
                k.len() == keys.len(),
                forall|j: int| 0 <= j < k.len() ==> #[trigger] k[j] == keys@[j],
                pos <= out.len() == n,
                le == slots_le(names@, k),
                is_stable_order(out@, n as int, le),
                forall|j: int| pos <= j < out@.len() ==> !le(#[trigger] out@[j] as int, n as int),
            decreases pos,
        {
            pos -= 1;
        }
        proof {
            lemma_insert_keeps_order(out@, n as int, pos as int, le, n);
        }
        out.insert(pos, n);
        n += 1;
    }
    proof {
        law_stable_order_is_unique(
            out@,
            packing_order(*store, names@),
            names@.len() as int,
            le,
        );
    }
    out
}

/// A shelf packer: rows of sprites, filled from left to right.
#[verifier::ext_equal]
pub struct Shelf {
    pub width: int,
    pub y: int,
    pub row_h: int,
    pub row_x: int,
}

/// The shelf after a slot, and the place of the slot inside its border; no
/// place where the slot is wider than the shelf.
pub open spec fn shelf_place(p: Shelf, w: int, h: int) -> Option<(Shelf, (int, int))> {
    let cell_w = w + 2 * GUTTER;
    let cell_h = h + 2 * GUTTER;
    if cell_w > p.width {
        None
    } else {
        let q = if p.row_x + cell_w > p.width {
            Shelf { width: p.width, y: p.y + p.row_h, row_h: 0, row_x: 0 }
        } else {
            p
        };
        Some(
            (
                Shelf {
                    width: q.width,
                    y: q.y,
                    row_h: if q.row_h < cell_h {
                        cell_h
                    } else {
                        q.row_h
                    },
                    row_x: q.row_x + cell_w,
                },
                (q.row_x + GUTTER, q.y + GUTTER),
            ),
        )
    }
}

/// The shelf and the places after the first `n` slots of a square atlas, where
/// all of them fit.
pub open spec fn shelf_pack(slots: Seq<(int, int)>, size: int, n: int) -> Option<
    (Shelf, Seq<(int, int)>),
>
    decreases n,
{
    if n <= 0 {
        Some((Shelf { width: size, y: 0, row_h: 0, row_x: 0 }, Seq::empty()))
    } else {
        match shelf_pack(slots, size, n - 1) {
            None => None,
            Some((p, places)) => match shelf_place(p, slots[n - 1].0, slots[n - 1].1) {
                None => None,
                Some((q, at)) => if at.1 + slots[n - 1].1 > size {
                    None
                } else {
                    Some((q, places.push(at)))
                },
            },
        }
    }
}

struct ShelfPacker {
    width: u128,
    y: u128,
    row_h: u128,
    row_x: u128,
}

/// No slot is larger than this.
spec fn slot_bound() -> int {
    0x1_0000_0000_0000_0000_0000
}

impl ShelfPacker {
    spec fn model(&self) -> Shelf {
        Shelf {
            width: self.width as int,
            y: self.y as int,
            row_h: self.row_h as int,
            row_x: self.row_x as int,
        }
    }

    fn new(width: u32) -> (r: ShelfPacker)
        ensures
            r.model() == (Shelf { width: width as int, y: 0, row_h: 0, row_x: 0 }),
    {
        ShelfPacker { width: width as u128, y: 0, row_h: 0, row_x: 0 }
    }

    fn place(&mut self, w: u128, h: u128) -> (r: Option<(u128, u128)>)
        requires
            w <= slot_bound(),
            h <= slot_bound(),
            old(self).width <= 0xffff_ffff,
            old(self).row_x <= slot_bound(),
            old(self).y <= slot_bound(),
            old(self).row_h <= 2 * slot_bound(),
        ensures
            match r {
                None => shelf_place(old(self).model(), w as int, h as int) is None
                    && final(self).model() == old(self).model(),
                Some(at) => shelf_place(old(self).model(), w as int, h as int) == Some(
                    (final(self).model(), (at.0 as int, at.1 as int)),
                ),
            },
    {
        let cell_w: u128 = w + 2 * GUTTER as u128;
        let cell_h: u128 = h + 2 * GUTTER as u128;
        if cell_w > self.width {
            return None;
        }
        if self.row_x + cell_w > self.width {
            self.y = self.y + self.row_h;
            self.row_h = 0;
            self.row_x = 0;
        }
        let x = self.row_x;
        let y = self.y;
        self.row_x = self.row_x + cell_w;
        if self.row_h < cell_h {
            self.row_h = cell_h;
        }
        Some((x + GUTTER as u128, y + GUTTER as u128))
    }
}

/// The slot of each name in packing order, as far as the store has it.
pub open spec fn slots_in_order(
    store: SpriteStore,
    names: Seq<SpriteRef>,
    order: Seq<usize>,
) -> Seq<(int, int)> {
    Seq::new(
        order.len(),
        |i: int|
            match store.lookup(
                names[order[i] as int].0@,
                names[order[i] as int].1@,
            ) {
                Some(s) => (slot_width(s), slot_height(s)),
                None => (0, 0),
            },
    )
}

/// The name at a place of the order is in the store.
pub open spec fn present(
    store: SpriteStore,
    names: Seq<SpriteRef>,
    order: Seq<usize>,
    i: int,
) -> bool {
    store.lookup(names[order[i] as int].0@, names[order[i] as int].1@) is Some
}

/// The number of names before the first one that the store lacks.
pub open spec fn present_count(
    store: SpriteStore,
    names: Seq<SpriteRef>,
    order: Seq<usize>,
) -> int
    decreases order.len(),
{
    if order.len() == 0 {
        0
    } else {
        let before = present_count(store, names, order.drop_last());
        if before == order.len() - 1 && present(store, names, order, order.len() - 1) {
            before + 1
        } else {
            before
        }
    }
}

/// The slots up to the first missing name fit into a square of this size.
pub open spec fn fits(
    store: SpriteStore,
    names: Seq<SpriteRef>,
    order: Seq<usize>,
    size: int,
) -> bool {
    shelf_pack(
        slots_in_order(store, names, order),
        size,
        present_count(store, names, order),
    ) is Some
}

/// The side of the atlas: the first of 512, 1024 and 2048 into which the
/// slots fit.
pub open spec fn atlas_side(
    store: SpriteStore,
    names: Seq<SpriteRef>,
    order: Seq<usize>,
) -> Option<u32> {
    if fits(store, names, order, 512) {
        Some(512)
    } else if fits(store, names, order, 1024) {
        Some(1024)
    } else if fits(store, names, order, 2048) {
        Some(2048)
    } else {
        None
    }
}

/// The entry of a sprite at a place.
pub open spec fn entry_at(s: Sprite, at: (int, int)) -> AtlasEntry {
    AtlasEntry {
        x: at.0 as u32,
        y: at.1 as u32,
        frame_w: s.frame_w,
        frame_h: frame_height(s) as u32,
        frames: frames_of(s) as u32,
        frame_stride: stride_of(s) as u32,
        slot_stride: slot_width(s) as u32,
    }
}

/// A slot lies in the square with its border, and in the part of the shelf
/// that is used up: above the row in progress, or in that row left of its end.
spec fn slot_settled(p: Shelf, at: (int, int), slot: (int, int), size: int) -> bool {
    &&& 1 <= at.0
    &&& at.0 + slot.0 + 1 <= size
    &&& 1 <= at.1
    &&& at.1 + slot.1 <= size
    &&& (at.1 + slot.1 + 1 <= p.y || (at.1 == p.y + 1 && at.0 + slot.0 + 1 <= p.row_x && slot.1
        + 2 <= p.row_h))
}

/// The cells of two slots, borders and all, do not meet.
pub open spec fn cells_apart(
    at: (int, int),
    slot: (int, int),
    at2: (int, int),
    slot2: (int, int),
) -> bool {
    ||| at.0 + slot.0 + 1 < at2.0
    ||| at2.0 + slot2.0 + 1 < at.0
    ||| at.1 + slot.1 + 1 < at2.1
    ||| at2.1 + slot2.1 + 1 < at.1
}

/// Slots have a size.
pub open spec fn slots_ok(slots: Seq<(int, int)>, n: int) -> bool {
    n <= slots.len() && forall|i: int|
        0 <= i < n ==> (#[trigger] slots[i]).0 >= 0 && slots[i].1 >= 0
}

proof fn lemma_shelf(slots: Seq<(int, int)>, size: int, n: int)
    requires
        0 <= n,
        slots_ok(slots, n),
        size >= 0,
        shelf_pack(slots, size, n) is Some,
    ensures
        ({
            let (p, places) = shelf_pack(slots, size, n)->0;
            &&& places.len() == n
            &&& p.width == size
            &&& 0 <= p.row_x <= size
            &&& 0 <= p.y <= size
            &&& 0 <= p.row_h <= size + 2
            &&& n == 0 ==> p.y == 0 && p.row_h == 0
            &&& forall|i: int|
                0 <= i < n ==> slot_settled(p, #[trigger] places[i], slots[i], size)
        }),
    decreases n,
{
    if n > 0 {
        lemma_shelf(slots, size, n - 1);
        let (p, places) = shelf_pack(slots, size, n - 1)->0;
        let (q, at) = shelf_place(p, slots[n - 1].0, slots[n - 1].1)->0;
        let (p2, places2) = shelf_pack(slots, size, n)->0;
        assert(slots[n - 1].0 >= 0 && slots[n - 1].1 >= 0);
        assert(p2 == q && places2 == places.push(at));
        assert forall|i: int| 0 <= i < n implies slot_settled(
            p2,
            #[trigger] places2[i],
            slots[i],
            size,
        ) by {
            if i < n - 1 {
                assert(places2[i] == places[i]);
                assert(slot_settled(p, places[i], slots[i], size));
            }
        }
    }
}

/// Packed slots lie inside the atlas and do not meet.
pub proof fn law_slots_do_not_meet(slots: Seq<(int, int)>, size: int, n: int, i: int, j: int)
    requires
        slots_ok(slots, n),
        size >= 0,
        shelf_pack(slots, size, n) is Some,
        0 <= i < n,
        0 <= j < n,
    ensures
        ({
            let places = (shelf_pack(slots, size, n)->0).1;
            &&& places.len() == n
            &&& 1 <= places[i].0 && places[i].0 + slots[i].0 + 1 <= size
            &&& 1 <= places[i].1 && places[i].1 + slots[i].1 <= size
            &&& i != j ==> cells_apart(places[i], slots[i], places[j], slots[j])
        }),
    decreases n,
{
    lemma_shelf(slots, size, n);
    let (p2, places2) = shelf_pack(slots, size, n)->0;
    assert(slot_settled(p2, places2[i], slots[i], size));
    lemma_shelf(slots, size, n - 1);
    let (p, places) = shelf_pack(slots, size, n - 1)->0;
    if i < n - 1 {
        assert(places2[i] == places[i]);
        assert(slot_settled(p, places[i], slots[i], size));
    }
    if j < n - 1 {
        assert(places2[j] == places[j]);
        assert(slot_settled(p, places[j], slots[j], size));
    }
    if i < n - 1 && j < n - 1 {
        law_slots_do_not_meet(slots, size, n - 1, i, j);
    }
    assert(slots[n - 1].0 >= 0);
}

/// Later slots do not matter to whether the earlier ones fit.
proof fn lemma_no_fit_stays(slots: Seq<(int, int)>, size: int, n: int, m: int)
    requires
        n <= m,
        shelf_pack(slots, size, n) is None,
    ensures
        shelf_pack(slots, size, m) is None,
    decreases m - n,
{
    if n < m {
        lemma_no_fit_stays(slots, size, n, m - 1);
        if m <= 0 {
            assert(false);
        }
    }
}

pub proof fn lemma_present_count(
    store: SpriteStore,
    names: Seq<SpriteRef>,
    order: Seq<usize>,
    i: int,
)
    requires
        0 <= i <= order.len(),
        forall|k: int| 0 <= k < i ==> #[trigger] present(store, names, order, k),
    ensures
        i <= present_count(store, names, order) <= order.len(),
        i < order.len() && !present(store, names, order, i) ==> present_count(store, names, order)
            == i,
    decreases order.len(),
{
    if order.len() > 0 {
        let front = order.drop_last();
        let j = if i < order.len() {
            i
        } else {
            i - 1
        };
        assert forall|k: int| 0 <= k < j implies #[trigger] present(store, names, front, k) by {
            assert(present(store, names, order, k));
            assert(front[k] == order[k]);
        }
        if j < front.len() {
            assert(front[j] == order[j]);
        }
        lemma_present_count(store, names, front, j);
        if i == order.len() {
            assert(present(store, names, order, i - 1));
        }
    }
}

/// The sprite at a place of the order.
pub open spec fn sprite_at(
    store: SpriteStore,
    names: Seq<SpriteRef>,
    order: Seq<usize>,
    i: int,
) -> Sprite {
    store.lookup(names[order[i] as int].0@, names[order[i] as int].1@)->0
}

/// The places of all slots in an atlas of this size.
pub open spec fn places_in(
    store: SpriteStore,
    names: Seq<SpriteRef>,
    order: Seq<usize>,
    size: int,
) -> Seq<(int, int)> {
    (shelf_pack(slots_in_order(store, names, order), size, order.len() as int)->0).1
}

/// What packing into one size came to.
enum Attempt {
    NoFit,
    Missing(usize),
    Packed(Vec<AtlasEntry>),
}

proof fn lemma_slots_ok(store: SpriteStore, names: Seq<SpriteRef>, order: Seq<usize>)
    ensures
        slots_ok(slots_in_order(store, names, order), order.len() as int),
{
    let slots = slots_in_order(store, names, order);
    assert forall|i: int| 0 <= i < order.len() implies (#[trigger] slots[i]).0 >= 0 && slots[i].1
        >= 0 by {}
}

fn pack_into(
    store: &SpriteStore,
    names: &[SpriteRef],
    order: &Vec<usize>,
    size: u32,
) -> (r: Attempt)
    requires
        size <= 0xffff,
        forall|i: int| 0 <= i < order.len() ==> (#[trigger] order@[i]) < names@.len(),
    ensures
        match r {
            Attempt::NoFit => !fits(*store, names@, order@, size as int),
            Attempt::Missing(i) => fits(*store, names@, order@, size as int) && i == present_count(
                *store,
                names@,
                order@,
            ) && i < order.len(),
            Attempt::Packed(entries) => {
                &&& fits(*store, names@, order@, size as int)
                &&& present_count(*store, names@, order@) == order.len()
                &&& entries.len() == order.len()
                &&& forall|i: int|
                    0 <= i < entries.len() ==> #[trigger] entries@[i] == entry_at(
                        sprite_at(*store, names@, order@, i),
                        places_in(*store, names@, order@, size as int)[i],
                    )
            },
        },
{
    let ghost slots = slots_in_order(*store, names@, order@);
    let ghost side = size as int;
    proof {
        lemma_slots_ok(*store, names@, order@);
    }
    let mut packer = ShelfPacker::new(size);
    let mut entries: Vec<AtlasEntry> = Vec::new();
    let mut i: usize = 0;
    while i < order.len()
        invariant
            i <= order.len(),
            size <= 0xffff,
            side == size,
            forall|k: int| 0 <= k < order.len() ==> (#[trigger] order@[k]) < names@.len(),
            slots == slots_in_order(*store, names@, order@),
            slots_ok(slots, order.len() as int),
            forall|k: int| 0 <= k < i ==> #[trigger] present(*store, names@, order@, k),
            shelf_pack(slots, side, i as int) is Some,
            (shelf_pack(slots, side, i as int)->0).0 == packer.model(),
            (shelf_pack(slots, side, i as int)->0).1.len() == i,
            entries.len() == i,
            forall|k: int|
                0 <= k < i ==> #[trigger] entries@[k] == entry_at(
                    sprite_at(*store, names@, order@, k),
                    (shelf_pack(slots, side, i as int)->0).1[k],
                ),
        decreases order.len() - i,
    {
        let name = &names[order[i]];
        proof {
            lemma_shelf(slots, side, i as int);
        }
        let sprite = match store.get(name.0.as_str(), name.1.as_str()) {
            Some(s) => s,
            None => {
                proof {
                    assert(!present(*store, names@, order@, i as int));
                    lemma_present_count(*store, names@, order@, i as int);
                }
                return Attempt::Missing(i);
            },
        };
        assert(present(*store, names@, order@, i as int));
        proof {
            lemma_present_count(*store, names@, order@, i + 1);
        }
        let slot = slot_size(sprite);
        assert(slots[i as int] == (slot.w as int, slot.h as int));
        if slot.h > 0xffff || slot.w > 0xffff {
            proof {
                assert(shelf_pack(slots, side, i + 1) is None);
                lemma_no_fit_stays(
                    slots,
                    side,
                    i + 1,
                    present_count(*store, names@, order@),
                );
            }
            return Attempt::NoFit;
        }
        let ghost before = (shelf_pack(slots, side, i as int)->0).1;
        let (x, y) = match packer.place(slot.w, slot.h) {
            Some(at) => at,
            None => {
                proof {
                    assert(shelf_pack(slots, side, i + 1) is None);
                    lemma_no_fit_stays(
                        slots,
                        side,
                        i + 1,
                        present_count(*store, names@, order@),
                    );
                }
                return Attempt::NoFit;
            },
        };
        if y + slot.h > size as u128 {
            proof {
                assert(shelf_pack(slots, side, i + 1) is None);
                lemma_no_fit_stays(
                    slots,
                    side,
                    i + 1,
                    present_count(*store, names@, order@),
                );
            }
            return Attempt::NoFit;
        }
        proof {
            assert(shelf_pack(slots, side, i + 1) == Some(
                (packer.model(), before.push((x as int, y as int))),
            ));
            lemma_shelf(slots, side, i + 1);
            assert(slot_settled(
                packer.model(),
                before.push((x as int, y as int))[i as int],
                slots[i as int],
                side,
            ));
            lemma_stride_fits(*sprite);
        }
        entries.push(
            AtlasEntry {
                x: x as u32,
                y: y as u32,
                frame_w: sprite.frame_w,
                frame_h: slot.frame_h,
                frames: slot.frames,
                frame_stride: slot.stride as u32,
                slot_stride: slot.w as u32,
            },
        );
        i += 1;
    }
    proof {
        lemma_present_count(*store, names@, order@, order@.len() as int);
    }
    Attempt::Packed(entries)
}

/// A frame with its border is no higher than the slot.
proof fn lemma_stride_fits(s: Sprite)
    ensures
        stride_of(s) + 1 <= slot_height(s),
        frames_of(s) > 1 ==> frames_of(s) * stride_of(s) + 1 <= slot_height(s),
        frames_of(s) <= 1 ==> frame_height(s) + 2 <= slot_height(s),
{
    let f = frames_of(s);
    let d = stride_of(s);
    if f > 1 {
        assert(d <= f * d) by (nonlinear_arith)
            requires
                f > 1,
                d >= 0,
        ;
    }
}

/// A number moved into `0..=hi`.
pub open spec fn moved_into(v: int, hi: int) -> int {
    if v < 0 {
        0
    } else if v > hi {
        hi
    } else {
        v
    }
}

/// The texel column of a byte.
pub open spec fn texel_x(side: int, i: int) -> int {
    (i / 4) % side
}

/// The texel row of a byte.
pub open spec fn texel_y(side: int, i: int) -> int {
    (i / 4) / side
}

/// The texel lies on a frame drawn at a place, or on its border.
pub open spec fn on_frame(src_w: int, frame_h: int, x0: int, y0: int, px: int, py: int) -> bool {
    x0 - 1 <= px <= x0 + src_w && y0 - 1 <= py <= y0 + frame_h
}

/// The source texel that a texel of a frame, or of its border, shows: the
/// nearest one of the frame.
pub open spec fn frame_source(
    src_w: int,
    src_h: int,
    frame_h: int,
    frame: int,
    x0: int,
    y0: int,
    px: int,
    py: int,
) -> int {
    let sx = moved_into(px - x0, src_w - 1);
    let row = frame * frame_h + moved_into(py - y0, frame_h - 1);
    let sy = if row < src_h - 1 {
        row
    } else {
        src_h - 1
    };
    sy * src_w + sx
}

/// The canvas with a frame of a strip drawn at a place, border and all.
pub open spec fn with_frame(
    canvas: Seq<u8>,
    side: int,
    s: Sprite,
    frame_h: int,
    frame: int,
    x0: int,
    y0: int,
) -> Seq<u8> {
    Seq::new(
        canvas.len(),
        |i: int|
            {
                let px = texel_x(side, i);
                let py = texel_y(side, i);
                if on_frame(s.tex.width as int, frame_h, x0, y0, px, py) {
                    s.tex.rgba@[frame_source(
                        s.tex.width as int,
                        s.tex.height as int,
                        frame_h,
                        frame,
                        x0,
                        y0,
                        px,
                        py,
                    ) * 4 + i % 4]
                } else {
                    canvas[i]
                }
            },
    )
}

proof fn lemma_texel(side: int, px: int, py: int, c: int)
    requires
        0 <= px < side,
        0 <= py,
        0 <= c < 4,
    ensures
        texel_x(side, (py * side + px) * 4 + c) == px,
        texel_y(side, (py * side + px) * 4 + c) == py,
        ((py * side + px) * 4 + c) % 4 == c,
        (py * side + px) * 4 >= 0,
{
    let t = py * side + px;
    assert(t >= 0) by (nonlinear_arith)
        requires
            t == py * side + px,
            py >= 0,
            side >= 0,
            px >= 0,
    ;
    assert((t * 4 + c) / 4 == t && (t * 4 + c) % 4 == c);
    assert(t == side * py + px) by (nonlinear_arith)
        requires
            t == py * side + px,
    ;
    vstd::arithmetic::div_mod::lemma_fundamental_div_mod_converse(t, side, py, px);
}

proof fn lemma_texel_inverse(side: int, i: int)
    requires
        side > 0,
        i >= 0,
    ensures
        i == (texel_y(side, i) * side + texel_x(side, i)) * 4 + i % 4,
        0 <= texel_x(side, i) < side,
        0 <= texel_y(side, i),
{
    let t = i / 4;
    vstd::arithmetic::div_mod::lemma_fundamental_div_mod(t, side);
    assert(t / side >= 0) by (nonlinear_arith)
        requires
            t >= 0,
            side > 0,
    ;
    assert((t / side) * side == side * (t / side)) by (nonlinear_arith);
}

/// Texel (px, py) comes before (qx, qy) in drawing order.
spec fn drawn_before(px: int, py: int, qx: int, qy: int) -> bool {
    py < qy || (py == qy && px < qx)
}

/// Draws frame `frame` of a strip with a border that repeats its edge.
fn blit_frame_guttered(
    dst: &mut Vec<u8>,
    side: u32,
    s: &Sprite,
    frame_h: u32,
    frame: u32,
    x0: u32,
    y0: u32,
)
    requires
        s.tex.wf(),
        s.tex.width >= 1,
        s.tex.height >= 1,
        frame_h >= 1,
        side <= 0x1000,
        old(dst).len() == side * side * 4,
        x0 >= 1,
        y0 >= 1,
        x0 + s.tex.width + 1 <= side,
        y0 + frame_h + 1 <= side,
    ensures
        final(dst)@ == with_frame(
            old(dst)@,
            side as int,
            *s,
            frame_h as int,
            frame as int,
            x0 as int,
            y0 as int,
        ),
{
    let ghost old_dst = dst@;
    let ghost w = side as int;
    let ghost want = with_frame(
        old_dst,
        w,
        *s,
        frame_h as int,
        frame as int,
        x0 as int,
        y0 as int,
    );
    let src_w: u32 = s.tex.width;
    let src_h: u32 = s.tex.height;
    let mut py: u32 = y0 - 1;
    assert forall|i: int| 0 <= i < old_dst.len() implies old_dst[i] == (if drawn_before(
        texel_x(w, i),
        texel_y(w, i),
        x0 - 1,
        y0 - 1,
    ) {
        want[i]
    } else {
        old_dst[i]
    }) by {}
    while py < y0 + frame_h + 1
        invariant
            s.tex.wf(),
            src_w == s.tex.width,
            src_h == s.tex.height,
            src_w >= 1,
            src_h >= 1,
            frame_h >= 1,
            side <= 0x1000,
            w == side,
            dst.len() == side * side * 4,
            old_dst.len() == dst.len(),
            x0 >= 1,
            y0 >= 1,
            x0 + src_w + 1 <= side,
            y0 + frame_h + 1 <= side,
            y0 - 1 <= py <= y0 + frame_h + 1,
            want == with_frame(
                old_dst,
                w,
                *s,
                frame_h as int,
                frame as int,
                x0 as int,
                y0 as int,
            ),
            forall|i: int| #![trigger dst@[i]]
                0 <= i < dst@.len() ==> dst@[i] == (if drawn_before(
                    texel_x(w, i),
                    texel_y(w, i),
                    x0 - 1,
                    py as int,
                ) {
                    want[i]
                } else {
                    old_dst[i]
                }),
        decreases y0 + frame_h + 1 - py,
    {
        let mut px: u32 = x0 - 1;
        while px < x0 + src_w + 1
            invariant
                s.tex.wf(),
                src_w == s.tex.width,
                src_h == s.tex.height,
                src_w >= 1,
                src_h >= 1,
                frame_h >= 1,
                side <= 0x1000,
                w == side,
                dst.len() == side * side * 4,
                old_dst.len() == dst.len(),
                x0 >= 1,
                y0 >= 1,
                x0 + src_w + 1 <= side,
                y0 + frame_h + 1 <= side,
                y0 - 1 <= py < y0 + frame_h + 1,
                x0 - 1 <= px <= x0 + src_w + 1,
                want == with_frame(
                    old_dst,
                    w,
                    *s,
                    frame_h as int,
                    frame as int,
                    x0 as int,
                    y0 as int,
                ),
                forall|i: int| #![trigger dst@[i]]
                    0 <= i < dst@.len() ==> dst@[i] == (if drawn_before(
                        texel_x(w, i),
                        texel_y(w, i),
                        px as int,
                        py as int,
                    ) {
                        want[i]
                    } else {
                        old_dst[i]
                    }),
            decreases x0 + src_w + 1 - px,
        {
            let sx: u32 = if px < x0 {
                0
            } else if px - x0 > src_w - 1 {
                src_w - 1
            } else {
                px - x0
            };
            let dy: u32 = if py < y0 {
                0
            } else if py - y0 > frame_h - 1 {
                frame_h - 1
            } else {
                py - y0
            };
            proof {
                assert(frame * frame_h <= 0xffff_ffff * 0x1000) by (nonlinear_arith)
                    requires
                        0 <= frame <= 0xffff_ffff,
                        0 <= frame_h <= 0x1000,
                ;
                assert(frame * frame_h >= 0) by (nonlinear_arith)
                    requires
                        0 <= frame,
                        0 <= frame_h,
                ;
            }
            let row: u64 = frame as u64 * frame_h as u64 + dy as u64;
            let sy: u64 = if row < src_h as u64 - 1 { row } else { src_h as u64 - 1 };
            let ghost source = frame_source(
                src_w as int,
                src_h as int,
                frame_h as int,
                frame as int,
                x0 as int,
                y0 as int,
                px as int,
                py as int,
            );
            proof {
                assert(source == sy * src_w + sx);
                assert(0 <= sy * src_w && sy * src_w + sx + 1 <= src_w * src_h)
                    by (nonlinear_arith)
                    requires
                        0 <= sy <= src_h - 1,
                        0 <= sx <= src_w - 1,
                ;
                let t = py * w + px;
                assert(0 <= py * w && t + 1 <= w * w) by (nonlinear_arith)
                    requires
                        t == py * w + px,
                        0 <= py,
                        py + 1 <= w,
                        0 <= px,
                        px + 1 <= w,
                ;
                assert(w * w <= 0x1000 * 0x1000) by (nonlinear_arith)
                    requires
                        0 <= w <= 0x1000,
                ;
                lemma_texel(w, px as int, py as int, 0);
                lemma_texel(w, px as int, py as int, 1);
                lemma_texel(w, px as int, py as int, 2);
                lemma_texel(w, px as int, py as int, 3);
            }
            let si: usize = (sy as usize * src_w as usize + sx as usize) * 4;
            let di: usize = ((py * side + px) * 4) as usize;
            let ghost before = dst@;
            dst.set(di, s.tex.rgba[si]);
            dst.set(di + 1, s.tex.rgba[si + 1]);
            dst.set(di + 2, s.tex.rgba[si + 2]);
            dst.set(di + 3, s.tex.rgba[si + 3]);
            assert forall|i: int| #![trigger dst@[i]] 0 <= i < dst@.len() implies dst@[i] == (
            if drawn_before(texel_x(w, i), texel_y(w, i), px + 1, py as int) {
                want[i]
            } else {
                old_dst[i]
            }) by {
                lemma_texel_inverse(w, i);
                if texel_x(w, i) == px && texel_y(w, i) == py {
                    assert(i == di + i % 4);
                    assert(want[i] == s.tex.rgba@[source * 4 + i % 4]);
                } else {
                    assert(!(di <= i < di + 4));
                    assert(dst@[i] == before[i]);
                }
            }
            px += 1;
        }
        assert forall|i: int| #![trigger dst@[i]] 0 <= i < dst@.len() implies dst@[i] == (
        if drawn_before(texel_x(w, i), texel_y(w, i), x0 - 1, py + 1) {
            want[i]
        } else {
            old_dst[i]
        }) by {
            let tx = texel_x(w, i);
            let ty = texel_y(w, i);
            if ty == py && tx >= x0 + src_w + 1 {
                assert(want[i] == old_dst[i]);
            }
            if ty == py + 1 && tx < x0 - 1 {
                assert(want[i] == old_dst[i]);
            }
        }
        py += 1;
    }
    assert forall|i: int| 0 <= i < dst@.len() implies dst@[i] == want[i] by {
        let ty = texel_y(w, i);
        if !drawn_before(texel_x(w, i), ty, x0 - 1, py as int) {
            assert(want[i] == old_dst[i]);
        }
    }
    assert(dst@ =~= want);
}

/// The canvas with the first `n` frames of a sprite stacked at a place.
pub open spec fn with_frames(canvas: Seq<u8>, side: int, s: Sprite, at: (int, int), n: int) -> Seq<
    u8,
>
    decreases n,
{
    if n <= 0 {
        canvas
    } else {
        with_frame(
            with_frames(canvas, side, s, at, n - 1),
            side,
            s,
            frame_height(s),
            n - 1,
            at.0,
            at.1 + (n - 1) * stride_of(s),
        )
    }
}

/// The number of frames that are drawn: one for a still sprite.
pub open spec fn drawn_frames(s: Sprite) -> int {
    if frames_of(s) > 1 {
        frames_of(s)
    } else {
        1
    }
}

/// The canvas with the first `n` sprites drawn at their places.
pub open spec fn with_sprites(
    canvas: Seq<u8>,
    side: int,
    sprites: Seq<Sprite>,
    places: Seq<(int, int)>,
    n: int,
) -> Seq<u8>
    decreases n,
{
    if n <= 0 {
        canvas
    } else {
        with_frames(
            with_sprites(canvas, side, sprites, places, n - 1),
            side,
            sprites[n - 1],
            places[n - 1],
            drawn_frames(sprites[n - 1]),
        )
    }
}

/// The sprites in packing order.
pub open spec fn sprites_in_order(
    store: SpriteStore,
    names: Seq<SpriteRef>,
    order: Seq<usize>,
) -> Seq<Sprite> {
    Seq::new(order.len(), |i: int| sprite_at(store, names, order, i))
}

/// An all-transparent canvas.
pub open spec fn blank(side: int) -> Seq<u8> {
    Seq::new((side * side * 4) as nat, |i: int| 0u8)
}

/// The pixels of the atlas.
pub open spec fn atlas_pixels(
    store: SpriteStore,
    names: Seq<SpriteRef>,
    order: Seq<usize>,
    side: int,
) -> Seq<u8> {
    with_sprites(
        blank(side),
        side,
        sprites_in_order(store, names, order),
        places_in(store, names, order, side),
        order.len() as int,
    )
}

/// What an animation table says.
pub open spec fn table_view(t: AnimTable) -> (u32, Seq<u16>, bool) {
    (t.frametime, t.frames@, t.interpolate)
}

/// The animation table of a sprite: one tick per frame and sequential where
/// the sprite declares none.
pub open spec fn table_of(s: Sprite) -> (u32, Seq<u16>, bool) {
    match s.animation {
        Some(a) => (a.frametime, a.frames@, a.interpolate),
        None => (1, Seq::empty(), false),
    }
}

/// The animation tables of the first `n` sprites: those with several frames.
pub open spec fn tables_in_order(
    names: Seq<SpriteRef>,
    order: Seq<usize>,
    sprites: Seq<Sprite>,
    n: int,
) -> Seq<((Seq<char>, Seq<char>), (u32, Seq<u16>, bool))>
    decreases n,
{
    if n <= 0 {
        Seq::empty()
    } else {
        let before = tables_in_order(names, order, sprites, n - 1);
        let name = names[order[n - 1] as int];
        if frames_of(sprites[n - 1]) > 1 {
            before.push(((name.0@, name.1@), table_of(sprites[n - 1])))
        } else {
            before
        }
    }
}

/// What a list of named tables says.
pub open spec fn tables_view(v: Seq<(SpriteRef, AnimTable)>) -> Seq<
    ((Seq<char>, Seq<char>), (u32, Seq<u16>, bool)),
> {
    Seq::new(v.len(), |i: int| ((v[i].0.0@, v[i].0.1@), table_view(v[i].1)))
}

/// The compiled atlas: pixels, mip chain, layout and animations.
#[derive(Debug)]
pub struct Atlas {
    pub width: u32,
    pub height: u32,
    /// RGBA8, mip level 0.
    pub pixels: Vec<u8>,
    /// Mip images starting at level 1.
    pub mips: Vec<Vec<u8>>,
    pub entries: Vec<(SpriteRef, AtlasEntry)>,
    pub animations: Vec<(SpriteRef, AnimTable)>,
}

/// The position of the last entry of a name, -1 where there is none.
pub open spec fn last_entry<T>(v: Seq<(SpriteRef, T)>, ns: Seq<char>, name: Seq<char>) -> int
    decreases v.len(),
{
    if v.len() == 0 {
        -1
    } else if v.last().0.0@ == ns && v.last().0.1@ == name {
        v.len() - 1
    } else {
        last_entry(v.drop_last(), ns, name)
    }
}

pub proof fn lemma_last_entry<T>(v: Seq<(SpriteRef, T)>, ns: Seq<char>, name: Seq<char>, i: int)
    requires
        -1 <= i < v.len(),
        forall|k: int|
            i < k < v.len() ==> !((#[trigger] v[k]).0.0@ == ns && v[k].0.1@ == name),
        i >= 0 ==> v[i].0.0@ == ns && v[i].0.1@ == name,
    ensures
        last_entry(v, ns, name) == i,
    decreases v.len(),
{
    if v.len() > 0 && i < v.len() - 1 {
        assert(!(v[v.len() - 1].0.0@ == ns && v[v.len() - 1].0.1@ == name));
        lemma_last_entry(v.drop_last(), ns, name, i);
    }
}

/// The last entry of a name.
pub fn find_last_entry<'a, T>(v: &'a [(SpriteRef, T)], ns: &str, name: &str) -> (r: Option<&'a T>)
    ensures
        match r {
            Some(e) => last_entry(v@, ns@, name@) >= 0 && *e == v@[last_entry(
                v@,
                ns@,
                name@,
            )].1,
            None => last_entry(v@, ns@, name@) == -1,
        },
{
    let mut i: usize = v.len();
    while i > 0
        invariant
            i <= v.len(),
            forall|k: int|
                i <= k < v@.len() ==> !((#[trigger] v@[k]).0.0@ == ns@ && v@[k].0.1@ == name@),
        decreases i,
    {
        if str_eq(v[i - 1].0.0.as_str(), ns) && str_eq(v[i - 1].0.1.as_str(), name) {
            proof {
                lemma_last_entry(v@, ns@, name@, i - 1);
            }
            return Some(&v[i - 1].1);
        }
        i -= 1;
    }
    proof {
        lemma_last_entry(v@, ns@, name@, -1);
    }
    None
}

impl Atlas {
    pub fn mip_levels(&self) -> (r: u32)
        requires
            self.mips.len() < u32::MAX,
        ensures
            r == self.mips.len() + 1,
    {
        self.mips.len() as u32 + 1
    }

    pub fn get(&self, ns: &str, name: &str) -> (r: Option<&AtlasEntry>)
        ensures
            match r {
                Some(e) => last_entry(self.entries@, ns@, name@) >= 0 && *e
                    == self.entries@[last_entry(self.entries@, ns@, name@)].1,
                None => last_entry(self.entries@, ns@, name@) == -1,
            },
    {
        find_last_entry(&self.entries, ns, name)
    }

    pub fn anim(&self, ns: &str, name: &str) -> (r: Option<&AnimTable>)
        ensures
            match r {
                Some(t) => last_entry(self.animations@, ns@, name@) >= 0 && *t
                    == self.animations@[last_entry(self.animations@, ns@, name@)].1,
                None => last_entry(self.animations@, ns@, name@) == -1,
            },
    {
        find_last_entry(&self.animations, ns, name)
    }

    /// The atlas of a list of names over a store.
    pub open spec fn is_atlas_of(
        &self,
        store: SpriteStore,
        names: Seq<SpriteRef>,
        order: Seq<usize>,
        side: u32,
    ) -> bool {
        let n = side as int;
        let p0 = atlas_pixels(store, names, order, n);
        let p1 = mip_image(p0, n, n, n / 2, n / 2);
        let p2 = mip_image(p1, n / 2, n / 2, n / 4, n / 4);
        let p3 = mip_image(p2, n / 4, n / 4, n / 8, n / 8);
        &&& self.width == side
        &&& self.height == side
        &&& self.pixels@ == p0
        &&& self.mips.len() == 3
        &&& self.mips@[0]@ == p1
        &&& self.mips@[1]@ == p2
        &&& self.mips@[2]@ == p3
        &&& self.entries.len() == names.len()
        &&& forall|i: int| #![trigger self.entries@[i]]
            0 <= i < names.len() ==> {
                &&& self.entries@[i].0 == names[order[i] as int]
                &&& self.entries@[i].1 == entry_at(
                    sprite_at(store, names, order, i),
                    places_in(store, names, order, n)[i],
                )
            }
        &&& tables_view(self.animations@) == tables_in_order(
            names,
            order,
            sprites_in_order(store, names, order),
            names.len() as int,
        )
    }
}

proof fn lemma_canvas_len(
    canvas: Seq<u8>,
    side: int,
    sprites: Seq<Sprite>,
    places: Seq<(int, int)>,
    n: int,
)
    ensures
        with_sprites(canvas, side, sprites, places, n).len() == canvas.len(),
    decreases n,
{
    if n > 0 {
        lemma_canvas_len(canvas, side, sprites, places, n - 1);
        lemma_frames_len(
            with_sprites(canvas, side, sprites, places, n - 1),
            side,
            sprites[n - 1],
            places[n - 1],
            drawn_frames(sprites[n - 1]),
        );
    }
}

proof fn lemma_frames_len(canvas: Seq<u8>, side: int, s: Sprite, at: (int, int), n: int)
    ensures
        with_frames(canvas, side, s, at, n).len() == canvas.len(),
    decreases n,
{
    if n > 0 {
        lemma_frames_len(canvas, side, s, at, n - 1);
    }
}

/// Draws all frames of a sprite at its place.
fn draw_sprite(dst: &mut Vec<u8>, side: u32, s: &Sprite, e: &AtlasEntry, Ghost(at): Ghost<
    (int, int),
>)
    requires
        s.wf(),
        side <= 0x1000,
        old(dst).len() == side * side * 4,
        *e == entry_at(*s, at),
        1 <= at.0,
        at.0 + slot_width(*s) + 1 <= side,
        1 <= at.1,
        at.1 + slot_height(*s) <= side,
    ensures
        final(dst)@ == with_frames(old(dst)@, side as int, *s, at, drawn_frames(*s)),
        final(dst).len() == old(dst).len(),
{
    let ghost canvas = dst@;
    let frames: u32 = if e.frames > 1 { e.frames } else { 1 };
    proof {
        lemma_stride_fits(*s);
    }
    let mut f: u32 = 0;
    while f < frames
        invariant
            s.wf(),
            side <= 0x1000,
            dst.len() == side * side * 4,
            canvas.len() == dst.len(),
            *e == entry_at(*s, at),
            1 <= at.0,
            at.0 + slot_width(*s) + 1 <= side,
            1 <= at.1,
            at.1 + slot_height(*s) <= side,
            stride_of(*s) + 1 <= slot_height(*s),
            frames_of(*s) > 1 ==> frames_of(*s) * stride_of(*s) + 1 <= slot_height(*s),
            frames_of(*s) <= 1 ==> frame_height(*s) + 2 <= slot_height(*s),
            frames == drawn_frames(*s),
            f <= frames,
            dst@ == with_frames(canvas, side as int, *s, at, f as int),
        decreases frames - f,
    {
        proof {
            let d = stride_of(*s);
            if frames_of(*s) > 1 {
                assert(f * d + d <= frames * d) by (nonlinear_arith)
                    requires
                        f + 1 <= frames,
                        d >= 0,
                ;
            }
            assert(0 <= f * d) by (nonlinear_arith)
                requires
                    f >= 0,
                    d >= 0,
            ;
            if frames_of(*s) <= 1 {
                assert(f * d == 0) by (nonlinear_arith)
                    requires
                        f == 0,
                ;
            }
        }
        blit_frame_guttered(dst, side, s, e.frame_h, f, e.x, e.y + f * e.frame_stride);
        f += 1;
    }
}

fn table_for(s: &Sprite) -> (r: AnimTable)
    ensures
        table_view(r) == table_of(*s),
{
    match &s.animation {
        Some(a) => {
            let frames = a.frames.clone();
            assert(frames@ =~= a.frames@);
            AnimTable { frametime: a.frametime, frames, interpolate: a.interpolate }
        },
        None => AnimTable { frametime: 1, frames: Vec::new(), interpolate: false },
    }
}

fn assemble(
    store: &SpriteStore,
    names: &[SpriteRef],
    order: &Vec<usize>,
    entries: Vec<AtlasEntry>,
    side: u32,
) -> (r: Atlas)
    requires
        store.wf(),
        side == 512 || side == 1024 || side == 2048,
        order@.len() == names@.len(),
        forall|i: int| 0 <= i < order.len() ==> (#[trigger] order@[i]) < names@.len(),
        fits(*store, names@, order@, side as int),
        present_count(*store, names@, order@) == order.len(),
        entries.len() == order.len(),
        forall|i: int|
            0 <= i < entries.len() ==> #[trigger] entries@[i] == entry_at(
                sprite_at(*store, names@, order@, i),
                places_in(*store, names@, order@, side as int)[i],
            ),
    ensures
        r.is_atlas_of(*store, names@, order@, side),
{
    let ghost n = side as int;
    let ghost slots = slots_in_order(*store, names@, order@);
    let ghost places = places_in(*store, names@, order@, n);
    let ghost sprites = sprites_in_order(*store, names@, order@);
    proof {
        lemma_slots_ok(*store, names@, order@);
        lemma_shelf(slots, n, order@.len() as int);
        assert(side * side * 4 <= 2048 * 2048 * 4) by (nonlinear_arith)
            requires
                0 <= side <= 2048,
        ;
    }
    let mut pixels: Vec<u8> = vec![0; side as usize * side as usize * 4];
    assert(pixels@ =~= blank(n));
    let mut named: Vec<(SpriteRef, AtlasEntry)> = Vec::new();
    let mut animations: Vec<(SpriteRef, AnimTable)> = Vec::new();
    let mut i: usize = 0;
    while i < order.len()
        invariant
            store.wf(),
            side <= 2048,
            n == side,
            i <= order.len(),
            order@.len() == names@.len(),
            forall|k: int| 0 <= k < order.len() ==> (#[trigger] order@[k]) < names@.len(),
            present_count(*store, names@, order@) == order.len(),
            slots == slots_in_order(*store, names@, order@),
            places == places_in(*store, names@, order@, n),
            sprites == sprites_in_order(*store, names@, order@),
            shelf_pack(slots, n, order@.len() as int) is Some,
            places == (shelf_pack(slots, n, order@.len() as int)->0).1,
            forall|k: int|
                0 <= k < order.len() ==> slot_settled(
                    (shelf_pack(slots, n, order@.len() as int)->0).0,
                    #[trigger] places[k],
                    slots[k],
                    n,
                ),
            entries.len() == order.len(),
            forall|k: int|
                0 <= k < entries.len() ==> #[trigger] entries@[k] == entry_at(
                    sprite_at(*store, names@, order@, k),
                    places[k],
                ),
            pixels.len() == side * side * 4,
            pixels@ == with_sprites(blank(n), n, sprites, places, i as int),
            named.len() == i,
            forall|k: int| #![trigger named@[k]]
                0 <= k < i ==> named@[k].0 == names@[order@[k] as int] && named@[k].1
                    == entries@[k],
            tables_view(animations@) == tables_in_order(names@, order@, sprites, i as int),
        decreases order.len() - i,
    {
        let name = &names[order[i]];
        let entry = entries[i];
        proof {
            lemma_all_present(*store, names@, order@, i as int);
            assert(slot_settled(
                (shelf_pack(slots, n, order@.len() as int)->0).0,
                places[i as int],
                slots[i as int],
                n,
            ));
            assert(sprites[i as int] == sprite_at(*store, names@, order@, i as int));
        }
        match store.get(name.0.as_str(), name.1.as_str()) {
            Some(sprite) => {
                proof {
                    assert(*sprite == sprites[i as int]);
                    assert(slots[i as int] == (slot_width(*sprite), slot_height(*sprite)));
                    lemma_lookup_wf(*store, name.0@, name.1@);
                }
                draw_sprite(&mut pixels, side, sprite, &entry, Ghost(places[i as int]));
                if entry.frames > 1 {
                    let ghost before = tables_view(animations@);
                    let table = table_for(sprite);
                    animations.push(((name.0.clone(), name.1.clone()), table));
                    assert(tables_view(animations@) =~= before.push(
                        ((name.0@, name.1@), table_of(*sprite)),
                    ));
                }
            },
            None => {
                assert(false);
            },
        }
        named.push(((name.0.clone(), name.1.clone()), entry));
        i += 1;
    }
    let half: u32 = side / 2;
    let quarter: u32 = side / 4;
    let eighth: u32 = side / 8;
    proof {
        assert(half * half * 4 <= 1024 * 1024 * 4 && quarter * quarter * 4 <= 1024 * 1024 * 4
            && eighth * eighth * 4 <= 1024 * 1024 * 4) by (nonlinear_arith)
            requires
                0 <= half <= 1024,
                0 <= quarter <= 1024,
                0 <= eighth <= 1024,
        ;
        assert(0 <= half * half && 0 <= quarter * quarter) by (nonlinear_arith)
            requires
                0 <= half,
                0 <= quarter,
        ;
    }
    let m1 = downsample_cutout(&pixels, side, side, half, half);
    let m2 = downsample_cutout(&m1, half, half, quarter, quarter);
    let m3 = downsample_cutout(&m2, quarter, quarter, eighth, eighth);
    let mut mips: Vec<Vec<u8>> = Vec::new();
    mips.push(m1);
    mips.push(m2);
    mips.push(m3);
    Atlas { width: side, height: side, pixels, mips, entries: named, animations }
}

proof fn lemma_all_present(store: SpriteStore, names: Seq<SpriteRef>, order: Seq<usize>, i: int)
    requires
        present_count(store, names, order) == order.len(),
        0 <= i < order.len(),
    ensures
        present(store, names, order, i),
    decreases order.len(),
{
    lemma_present_count(store, names, order, 0);
    lemma_present_count(store, names, order.drop_last(), 0);
    if i < order.len() - 1 {
        lemma_all_present(store, names, order.drop_last(), i);
        assert(order.drop_last()[i] == order[i]);
    }
}

proof fn lemma_lookup_wf(store: SpriteStore, ns: Seq<char>, name: Seq<char>)
    requires
        store.wf(),
        store.lookup(ns, name) is Some,
    ensures
        (store.lookup(ns, name)->0).wf(),
{
    crate::sprites::lemma_pair_pos_bounds(store.names@, ns, name);
}

/// Builds the atlas of the sprites that the block models reference.
pub fn build(store: &SpriteStore, sprite_names: &[SpriteRef]) -> (r: AssetResult<Atlas>)
    requires
        store.wf(),
    ensures
        ({
            let order = packing_order(*store, sprite_names@);
            let found = present_count(*store, sprite_names@, order);
            match atlas_side(*store, sprite_names@, order) {
                None => fails_with(
                    r,
                    "atlas"@,
                    "failed to pack all sprites (atlas too large)"@,
                ),
                Some(side) => if found < sprite_names@.len() {
                    let missing = sprite_names@[order[found] as int];
                    fails_with(
                        r,
                        qualified(missing.0@, missing.1@),
                        "sprite missing from store"@,
                    )
                } else {
                    r matches Ok(a) && a.is_atlas_of(*store, sprite_names@, order, side)
                },
            }
        }),
{
    let order = order_slots(store, sprite_names);
    let mut attempt: u32 = 0;
    let mut side: u32 = 512;
    while attempt < 3
        invariant
            store.wf(),
            order@ == packing_order(*store, sprite_names@),
            is_stable_order(
                order@,
                sprite_names@.len() as int,
                slots_le(sprite_names@, slot_keys(*store, sprite_names@)),
            ),
            attempt <= 3,
            attempt == 0 ==> side == 512,
            attempt == 1 ==> side == 1024 && !fits(*store, sprite_names@, order@, 512),
            attempt == 2 ==> side == 2048 && !fits(*store, sprite_names@, order@, 512) && !fits(
                *store,
                sprite_names@,
                order@,
                1024,
            ),
            attempt == 3 ==> atlas_side(*store, sprite_names@, order@) is None,
        decreases 3 - attempt,
    {
        match pack_into(store, sprite_names, &order, side) {
            Attempt::NoFit => {
                attempt += 1;
                if attempt < 3 {
                    side = side * 2;
                }
            },
            Attempt::Missing(i) => {
                let name = &sprite_names[order[i]];
                return Err(
                    AssetError {
                        path: qualified_name(name.0.as_str(), name.1.as_str()),
                        message: "sprite missing from store".to_owned(),
                    },
                );
            },
            Attempt::Packed(entries) => {
                return Ok(assemble(store, sprite_names, &order, entries, side));
            },
        }
    }
    err("atlas", "failed to pack all sprites (atlas too large)")
}

/// The first frame of every entry of a built atlas lies inside the atlas.
pub proof fn law_entries_lie_inside(
    a: Atlas,
    store: SpriteStore,
    names: Seq<SpriteRef>,
    side: u32,
    i: int,
)
    requires
        store.wf(),
        names.len() <= usize::MAX,
        atlas_side(store, names, packing_order(store, names)) == Some(side),
        present_count(store, names, packing_order(store, names)) == names.len(),
        a.is_atlas_of(store, names, packing_order(store, names), side),
        0 <= i < a.entries.len(),
    ensures
        ({
            let e = a.entries@[i].1;
            &&& 1 <= e.x && e.x + e.frame_w <= side
            &&& 1 <= e.y && e.y + e.frame_h <= side
        }),
        a.width == side,
        a.pixels.len() == side * side * 4,
{
    let order = packing_order(store, names);
    let n = side as int;
    lemma_packing_order(store, names);
    assert(order.len() == names.len());
    let s = sprite_at(store, names, order, i);
    let slots = slots_in_order(store, names, order);
    let places = places_in(store, names, order, n);
    lemma_slots_ok(store, names, order);
    lemma_shelf(slots, n, names.len() as int);
    lemma_all_present(store, names, order, i);
    lemma_lookup_wf(store, names[order[i] as int].0@, names[order[i] as int].1@);
    assert(slots[i] == (slot_width(s), slot_height(s)));
    assert(slot_settled((shelf_pack(slots, n, names.len() as int)->0).0, places[i], slots[i], n));
    lemma_stride_fits(s);
    lemma_canvas_len(blank(n), n, sprites_in_order(store, names, order), places, names.len() as int);
    assert(n * n * 4 >= 0) by (nonlinear_arith);
    assert(a.entries@[i].1 == entry_at(s, places[i]));
}

/// Drawing a sprite changes nothing outside its cell.
proof fn lemma_frames_stay_in_cell(
    canvas: Seq<u8>,
    side: int,
    s: Sprite,
    at: (int, int),
    n: int,
    i: int,
)
    requires
        0 <= i < canvas.len(),
        0 <= n <= drawn_frames(s),
        texel_x(side, i) < at.0 - 1 || texel_x(side, i) >= at.0 - 1 + slot_width(s) || texel_y(
            side,
            i,
        ) < at.1 - 1 || texel_y(side, i) >= at.1 - 1 + slot_height(s),
    ensures
        with_frames(canvas, side, s, at, n)[i] == canvas[i],
    decreases n,
{
    if n > 0 {
        lemma_frames_stay_in_cell(canvas, side, s, at, n - 1, i);
        lemma_frames_len(canvas, side, s, at, n - 1);
        lemma_stride_fits(s);
        let d = stride_of(s);
        assert((n - 1) * d >= 0) by (nonlinear_arith)
            requires
                n >= 1,
                d >= 0,
        ;
        if frames_of(s) > 1 {
            let f = frames_of(s);
            assert((n - 1) * d + d <= f * d) by (nonlinear_arith)
                requires
                    n <= f,
                    d >= 0,
            ;
        } else {
            assert((n - 1) * d == 0) by (nonlinear_arith)
                requires
                    n == 1,
            ;
        }
    }
}

/// A texel inside a drawn frame shows the frame's texel.
proof fn lemma_frames_show_texel(
    canvas: Seq<u8>,
    side: int,
    s: Sprite,
    at: (int, int),
    n: int,
    f: int,
    u: int,
    v: int,
    i: int,
)
    requires
        0 <= i < canvas.len(),
        0 <= f < n <= drawn_frames(s),
        0 <= u < s.tex.width,
        0 <= v < frame_height(s),
        texel_x(side, i) == at.0 + u,
        texel_y(side, i) == at.1 + f * stride_of(s) + v,
    ensures
        with_frames(canvas, side, s, at, n)[i] == s.tex.rgba@[frame_texel(s, f, u, v) * 4 + i % 4],
    decreases n,
{
    lemma_frames_len(canvas, side, s, at, n - 1);
    let d = stride_of(s);
    if f < n - 1 {
        lemma_frames_show_texel(canvas, side, s, at, n - 1, f, u, v, i);
        assert(f * d + d <= (n - 1) * d) by (nonlinear_arith)
            requires
                f + 1 <= n - 1,
                d >= 0,
        ;
    }
}

/// The texel of a sprite's texture that stands at (u, v) of a frame; frames
/// beyond the texture repeat its last row.
pub open spec fn frame_texel(s: Sprite, f: int, u: int, v: int) -> int {
    let row = f * frame_height(s) + v;
    let sy = if row < s.tex.height - 1 {
        row
    } else {
        s.tex.height - 1
    };
    sy * s.tex.width + u
}

/// Every frame of every packed sprite stands in the atlas at its entry's
/// place, one frame stride below the other, untouched by its neighbors.
pub proof fn law_atlas_shows_frames(
    store: SpriteStore,
    names: Seq<SpriteRef>,
    order: Seq<usize>,
    side: int,
    k: int,
    f: int,
    u: int,
    v: int,
    c: int,
)
    requires
        store.wf(),
        0 < side,
        present_count(store, names, order) == order.len(),
        fits(store, names, order, side),
        0 <= k < order.len(),
        ({
            let s = sprite_at(store, names, order, k);
            0 <= f < drawn_frames(s) && 0 <= u < s.tex.width && 0 <= v < frame_height(s)
        }),
        0 <= c < 4,
    ensures
        ({
            let s = sprite_at(store, names, order, k);
            let at = places_in(store, names, order, side)[k];
            let px = at.0 + u;
            let py = at.1 + f * stride_of(s) + v;
            &&& 0 <= px < side
            &&& 0 <= py < side
            &&& atlas_pixels(store, names, order, side)[(py * side + px) * 4 + c]
                == s.tex.rgba@[frame_texel(s, f, u, v) * 4 + c]
        }),
{
    let s = sprite_at(store, names, order, k);
    let sprites = sprites_in_order(store, names, order);
    let slots = slots_in_order(store, names, order);
    let places = places_in(store, names, order, side);
    let at = places[k];
    let n = order.len() as int;
    let px = at.0 + u;
    let py = at.1 + f * stride_of(s) + v;
    lemma_slots_ok(store, names, order);
    lemma_shelf(slots, side, n);
    lemma_all_present(store, names, order, k);
    assert(slots[k] == (slot_width(s), slot_height(s)));
    assert(slot_settled((shelf_pack(slots, side, n)->0).0, places[k], slots[k], side));
    lemma_stride_fits(s);
    let d = stride_of(s);
    let fc = drawn_frames(s);
    assert(0 <= f * d) by (nonlinear_arith)
        requires
            f >= 0,
            d >= 0,
    ;
    assert(f * d + d <= fc * d) by (nonlinear_arith)
        requires
            f + 1 <= fc,
            d >= 0,
    ;
    if frames_of(s) <= 1 {
        assert(f * d == 0) by (nonlinear_arith)
            requires
                f == 0,
        ;
    }
    let i = (py * side + px) * 4 + c;
    lemma_texel(side, px, py, c);
    assert(i < side * side * 4) by (nonlinear_arith)
        requires
            i == (py * side + px) * 4 + c,
            0 <= px < side,
            0 <= py < side,
            0 <= c < 4,
    ;
    lemma_canvas_len(blank(side), side, sprites, places, k);
    lemma_frames_show_texel(
        with_sprites(blank(side), side, sprites, places, k),
        side,
        s,
        at,
        fc,
        f,
        u,
        v,
        i,
    );
    assert(sprites[k] == s);
    lemma_later_sprites_keep(store, names, order, side, k, k + 1, n, i, px, py);
}

/// Sprites drawn later leave a texel of an earlier sprite's cell as it is.
proof fn lemma_later_sprites_keep(
    store: SpriteStore,
    names: Seq<SpriteRef>,
    order: Seq<usize>,
    side: int,
    k: int,
    from: int,
    to: int,
    i: int,
    px: int,
    py: int,
)
    requires
        store.wf(),
        0 < side,
        present_count(store, names, order) == order.len(),
        fits(store, names, order, side),
        0 <= k < from <= to <= order.len(),
        0 <= i < side * side * 4,
        texel_x(side, i) == px,
        texel_y(side, i) == py,
        ({
            let s = sprite_at(store, names, order, k);
            let at = places_in(store, names, order, side)[k];
            at.0 <= px < at.0 + slot_width(s) && at.1 <= py < at.1 + slot_height(s)
        }),
    ensures
        ({
            let sprites = sprites_in_order(store, names, order);
            let places = places_in(store, names, order, side);
            with_sprites(blank(side), side, sprites, places, to)[i] == with_sprites(
                blank(side),
                side,
                sprites,
                places,
                from,
            )[i]
        }),
    decreases to,
{
    if from < to {
        let sprites = sprites_in_order(store, names, order);
        let slots = slots_in_order(store, names, order);
        let places = places_in(store, names, order, side);
        let n = order.len() as int;
        lemma_later_sprites_keep(store, names, order, side, k, from, to - 1, i, px, py);
        lemma_canvas_len(blank(side), side, sprites, places, to - 1);
        lemma_slots_ok(store, names, order);
        lemma_shelf(slots, side, n);
        lemma_all_present(store, names, order, k);
        lemma_all_present(store, names, order, to - 1);
        let s = sprite_at(store, names, order, k);
        let t = sprite_at(store, names, order, to - 1);
        assert(slots[k] == (slot_width(s), slot_height(s)));
        assert(slots[to - 1] == (slot_width(t), slot_height(t)));
        law_slots_do_not_meet(slots, side, n, k, to - 1);
        lemma_frames_stay_in_cell(
            with_sprites(blank(side), side, sprites, places, to - 1),
            side,
            t,
            places[to - 1],
            drawn_frames(t),
            i,
        );
    }
}

/// Frames are shown in turn: in the playback order, or in that of the strip,
/// each for its time, and from the first again behind the last.
pub proof fn law_frames_follow_each_other(
    a: AnimTable,
    strip_frames: u32,
    round: nat,
    i: nat,
    d: nat,
    tick: u64,
)
    requires
        a.frametime > 0,
        i < a.steps(strip_frames),
        d < a.frametime,
        tick == (round * a.steps(strip_frames) + i) * a.frametime + d,
        a.frames@.len() <= u32::MAX,
    ensures
        a.frames@.len() == 0 ==> a.steps(strip_frames) == strip_frames && a.row_at(
            tick,
            strip_frames,
        ) == i,
        a.frames@.len() > 0 ==> a.steps(strip_frames) == a.frames@.len() && a.row_at(
            tick,
            strip_frames,
        ) == a.frames@[i as int],
{
    let n = a.steps(strip_frames) as int;
    let q = (round * n + i) as int;
    let f = a.frametime as int;
    vstd::arithmetic::div_mod::lemma_fundamental_div_mod_converse(tick as int, f, q, d as int);
    vstd::arithmetic::div_mod::lemma_fundamental_div_mod_converse(q, n, round as int, i as int);
}

/// A texel of a mip image is made of the four source texels at twice its
/// place; beyond the image those of its last row and column are taken.
pub proof fn law_mips_halve_the_image(dx: int, dy: int, w: int, h: int)
    requires
        0 <= dx,
        0 <= dy,
        w > 0,
        h > 0,
    ensures
        2 * dx + 1 < w && 2 * dy + 1 < h ==> {
            let at = (2 * dy * w + 2 * dx) * 4;
            &&& mip_source(dx, dy, 0, w, h) == at
            &&& mip_source(dx, dy, 1, w, h) == at + 4
            &&& mip_source(dx, dy, 2, w, h) == at + 4 * w
            &&& mip_source(dx, dy, 3, w, h) == at + 4 * w + 4
        },
        2 * dx + 1 == w ==> mip_source(dx, dy, 1, w, h) == mip_source(dx, dy, 0, w, h)
            && mip_source(dx, dy, 3, w, h) == mip_source(dx, dy, 2, w, h),
        2 * dy + 1 == h ==> mip_source(dx, dy, 2, w, h) == mip_source(dx, dy, 0, w, h)
            && mip_source(dx, dy, 3, w, h) == mip_source(dx, dy, 1, w, h),
{
    assert((2 * dy + 1) * w == 2 * dy * w + w) by (nonlinear_arith);
}

/// Four texels of one opaque color give that color. Where one texel is seen
/// and the others are clear, its color is kept. The result is opaque where the
/// four are so by half or more, and clear elsewhere.
pub proof fn law_mips_average_colors(
    src: Seq<u8>,
    dx: int,
    dy: int,
    w: int,
    h: int,
    c: int,
    v: u8,
)
    requires
        0 <= c < 3,
    ensures
        ({
            let s = |k: int| mip_source(dx, dy, k, w, h);
            let alpha = |k: int| src[s(k) + 3] as int;
            &&& (forall|k: int|
                0 <= k < 4 ==> #[trigger] src[s(k) + c] == v && src[s(k) + 3] == 255) ==> mip_byte(
                src,
                dx,
                dy,
                w,
                h,
                c,
            ) == v
            &&& alpha(0) > 0 && alpha(1) == 0 && alpha(2) == 0 && alpha(3) == 0 ==> mip_byte(
                src,
                dx,
                dy,
                w,
                h,
                c,
            ) == src[s(0) + c]
            &&& alpha(3) > 0 && alpha(1) == 0 && alpha(2) == 0 && alpha(0) == 0 ==> mip_byte(
                src,
                dx,
                dy,
                w,
                h,
                c,
            ) == src[s(3) + c]
            &&& alpha(0) == 0 && alpha(1) == 0 && alpha(2) == 0 && alpha(3) == 0 ==> mip_byte(
                src,
                dx,
                dy,
                w,
                h,
                c,
            ) == 0
            &&& alpha(0) + alpha(1) + alpha(2) + alpha(3) >= 510 ==> mip_byte(src, dx, dy, w, h, 3)
                == 255
            &&& alpha(0) + alpha(1) + alpha(2) + alpha(3) < 510 ==> mip_byte(src, dx, dy, w, h, 3)
                == 0
        }),
{
    let s = |k: int| mip_source(dx, dy, k, w, h);
    let alpha = |k: int| src[s(k) + 3] as int;
    let color = |k: int| src[s(k) + c] as int;
    assert(weighted(src, s(0), c) == color(0) * alpha(0));
    assert(weighted(src, s(1), c) == color(1) * alpha(1));
    assert(weighted(src, s(2), c) == color(2) * alpha(2));
    assert(weighted(src, s(3), c) == color(3) * alpha(3));
    lemma_single_weight(color(0), alpha(0));
    lemma_single_weight(color(1), alpha(1));
    lemma_single_weight(color(2), alpha(2));
    lemma_single_weight(color(3), alpha(3));
    if forall|k: int| 0 <= k < 4 ==> #[trigger] src[s(k) + c] == v && src[s(k) + 3] == 255 {
        assert(src[s(0) + c] == v && src[s(1) + c] == v && src[s(2) + c] == v && src[s(3) + c] == v);
        assert(mip_alpha(src, dx, dy, w, h) == 1020);
        assert(mip_color(src, dx, dy, w, h, c) == v * 1020);
    }
}

proof fn lemma_single_weight(color: int, alpha: int)
    ensures
        alpha == 0 ==> color * alpha == 0,
        alpha > 0 ==> (color * alpha) / alpha == color,
{
    if alpha > 0 {
        vstd::arithmetic::div_mod::lemma_div_multiples_vanish(color, alpha);
        assert(color * alpha == alpha * color) by (nonlinear_arith);
    } else if alpha == 0 {
        assert(color * alpha == 0) by (nonlinear_arith)
            requires
                alpha == 0,
        ;
    }
}

/// The bytes of a mip image stand row by row, four to a texel.
pub proof fn law_mip_bytes_stand_in_rows(
    src: Seq<u8>,
    w: int,
    h: int,
    dw: int,
    dh: int,
    x: int,
    y: int,
    c: int,
)
    requires
        0 <= x < dw,
        0 <= y < dh,
        0 <= c < 4,
    ensures
        mip_image(src, w, h, dw, dh).len() == dw * dh * 4,
        mip_image(src, w, h, dw, dh)[(y * dw + x) * 4 + c] == mip_byte(src, x, y, w, h, c),
{
    let i = (y * dw + x) * 4 + c;
    let t = y * dw + x;
    assert(0 <= t < dw * dh && dw * dh >= 0) by (nonlinear_arith)
        requires
            t == y * dw + x,
            0 <= x < dw,
            0 <= y < dh,
    ;
    assert(i / 4 == t && i % 4 == c);
    vstd::arithmetic::div_mod::lemma_fundamental_div_mod_converse(t, dw, y, x);
}

/// A slot has a border of one texel around the texture; stacked frames have
/// one between them.
pub proof fn law_slots_have_borders(s: Sprite)
    ensures
        slot_width(s) == s.tex.width + 2,
        s.frame_count_spec() <= 1 ==> frame_height(s) == s.tex.height && slot_height(s)
            >= s.tex.height + 2,
        s.frame_count_spec() == 1 ==> slot_height(s) == s.tex.height + 2,
        s.frame_count_spec() > 1 ==> frame_height(s) == s.frame_h && slot_height(s)
            >= s.frame_count_spec() * (s.frame_h + 1) + 1 && slot_height(s) >= s.tex.height + 2,
        s.frame_count_spec() > 1 ==> slot_height(s) == s.frame_count_spec() * (s.frame_h + 1) + 1
            || slot_height(s) == s.tex.height + 2,
        stride_of(s) == frame_height(s) + 1,
{
    assert(s.frame_count_spec() == 1 ==> s.frame_count_spec() * stride_of(s) == stride_of(s))
        by (nonlinear_arith);
}

/// Slots stand side by side in a row while they fit, and begin a row below the
/// tallest of the last one where they do not; one wider than the square has no
/// place.
pub proof fn law_slots_stand_in_rows(p: Shelf, w: int, h: int)
    ensures
        w + 2 > p.width ==> shelf_place(p, w, h) is None,
        w + 2 <= p.width && p.row_x + w + 2 <= p.width ==> (shelf_place(p, w, h) matches Some(r)
            && r.1 == (p.row_x + 1, p.y + 1) && r.0.row_x == p.row_x + w + 2 && r.0.y == p.y
            && r.0.row_h >= h + 2 && r.0.row_h >= p.row_h && (r.0.row_h == h + 2 || r.0.row_h
            == p.row_h) && r.0.width == p.width),
        w + 2 <= p.width && p.row_x + w + 2 > p.width ==> (shelf_place(p, w, h) matches Some(r)
            && r.1 == (1int, p.y + p.row_h + 1) && r.0.row_x == w + 2 && r.0.y == p.y + p.row_h
            && r.0.width == p.width && (h + 2 >= 0 ==> r.0.row_h == h + 2)),
{
}

/// The first slot stands in the corner, inside its border.
pub proof fn law_first_slot_stands_in_the_corner(slots: Seq<(int, int)>, size: int)
    requires
        slots.len() > 0,
        slots[0].0 + 2 <= size,
        slots[0].1 + 1 <= size,
    ensures
        shelf_pack(slots, size, 1) matches Some(r) && r.1 == seq![(1int, 1int)],
{
    reveal_with_fuel(shelf_pack, 2);
    assert((shelf_pack(slots, size, 1)->0).1 =~= seq![(1int, 1int)]);
}

/// Tall slots are packed first, equally tall ones by name.
pub proof fn law_tall_slots_are_first(names: Seq<SpriteRef>, keys: Seq<int>, a: int, b: int)
    ensures
        keys[a] > keys[b] ==> slots_le(names, keys)(a, b) && !slots_le(names, keys)(b, a),
        keys[a] == keys[b] ==> slots_le(names, keys)(a, b) == pair_le(
            (names[a].0@, names[a].1@),
            (names[b].0@, names[b].1@),
        ),
{
}

/// The atlas has the smallest side of 512, 1024 and 2048 that holds its slots.
pub proof fn law_smallest_side_is_taken(
    store: SpriteStore,
    names: Seq<SpriteRef>,
    order: Seq<usize>,
)
    ensures
        atlas_side(store, names, order) matches Some(n) ==> fits(store, names, order, n as int) && (
        n == 512 || n == 1024 || n == 2048),
        atlas_side(store, names, order) == Some(1024u32) ==> !fits(store, names, order, 512),
        atlas_side(store, names, order) == Some(2048u32) ==> !fits(store, names, order, 1024)
            && !fits(store, names, order, 512),
        atlas_side(store, names, order) is None ==> !fits(store, names, order, 512) && !fits(
            store,
            names,
            order,
            1024,
        ) && !fits(store, names, order, 2048),
{
}

/// An entry tells where the first frame of its sprite stands, how large it is,
/// how many there are and how far apart.
pub proof fn law_entries_tell_their_frames(s: Sprite, at: (int, int))
    requires
        0 <= at.0 <= u32::MAX,
        0 <= at.1 <= u32::MAX,
        0 <= frame_height(s) < u32::MAX,
        s.tex.width < u32::MAX - 2,
    ensures
        ({
            let e = entry_at(s, at);
            &&& e.x == at.0 && e.y == at.1
            &&& e.frame_w == s.frame_w
            &&& s.frame_count_spec() > 1 ==> e.frame_h == s.frame_h
            &&& s.frame_count_spec() <= 1 ==> e.frame_h == s.tex.height
            &&& e.frames == s.frame_count_spec()
            &&& e.frame_stride == e.frame_h + 1
            &&& e.slot_stride == s.tex.width + 2
        }),
{
}

/// A frame shows its texels, and its border those next to it.
pub proof fn law_borders_repeat_the_edge(
    w: int,
    h: int,
    frame_h: int,
    frame: int,
    x0: int,
    y0: int,
    u: int,
    v: int,
)
    requires
        0 <= u < w,
        0 <= v < frame_h,
        0 <= frame,
        frame * frame_h + frame_h <= h,
    ensures
        ({
            let shown = |px: int, py: int| frame_source(w, h, frame_h, frame, x0, y0, px, py);
            &&& shown(x0 + u, y0 + v) == (frame * frame_h + v) * w + u
            &&& shown(x0 - 1, y0 + v) == shown(x0, y0 + v)
            &&& shown(x0 + w, y0 + v) == shown(x0 + w - 1, y0 + v)
            &&& shown(x0 + u, y0 - 1) == shown(x0 + u, y0)
            &&& shown(x0 + u, y0 + frame_h) == shown(x0 + u, y0 + frame_h - 1)
            &&& on_frame(w, frame_h, x0, y0, x0 - 1, y0 - 1)
            &&& on_frame(w, frame_h, x0, y0, x0 + w, y0 + frame_h)
            &&& !on_frame(w, frame_h, x0, y0, x0 - 2, y0 + v)
            &&& !on_frame(w, frame_h, x0, y0, x0 + w + 1, y0 + v)
            &&& !on_frame(w, frame_h, x0, y0, x0 + u, y0 - 2)
            &&& !on_frame(w, frame_h, x0, y0, x0 + u, y0 + frame_h + 1)
        }),
{
}

/// The border of a frame is drawn: a byte beside the frame, above it or below
/// it is that of the nearest texel of the frame, and a byte that lies off the
/// frame and its border stays.
pub proof fn law_frames_are_drawn_with_borders(
    canvas: Seq<u8>,
    side: int,
    s: Sprite,
    frame_h: int,
    frame: int,
    at: (int, int),
    i: int,
)
    requires
        0 <= i < canvas.len(),
    ensures
        ({
            let (px, py) = ((i / 4) % side, (i / 4) / side);
            let w = s.tex.width as int;
            let drawn = with_frame(canvas, side, s, frame_h, frame, at.0, at.1);
            &&& drawn.len() == canvas.len()
            &&& (px < at.0 - 1 || px > at.0 + w || py < at.1 - 1 || py > at.1 + frame_h) ==> drawn[i]
                == canvas[i]
            &&& at.0 - 1 <= px <= at.0 + w && at.1 - 1 <= py <= at.1 + frame_h ==> drawn[i]
                == s.tex.rgba@[frame_source(
                w,
                s.tex.height as int,
                frame_h,
                frame,
                at.0,
                at.1,
                px,
                py,
            ) * 4 + i % 4]
        }),
{
}

/// A sprite with several frames has a table of its times; others have none.
pub proof fn law_animated_sprites_have_tables(
    names: Seq<SpriteRef>,
    order: Seq<usize>,
    sprites: Seq<Sprite>,
    n: int,
)
    requires
        0 < n <= sprites.len(),
    ensures
        ({
            let before = tables_in_order(names, order, sprites, n - 1);
            let after = tables_in_order(names, order, sprites, n);
            let s = sprites[n - 1];
            let name = names[order[n - 1] as int];
            &&& s.frame_count_spec() <= 1 ==> after == before
            &&& s.frame_count_spec() > 1 ==> after.len() == before.len() + 1 && after.last().0 == (
                name.0@,
                name.1@,
            ) && (s.animation matches Some(a) ==> after.last().1 == (
                a.frametime,
                a.frames@,
                a.interpolate,
            ))
        }),
        tables_in_order(names, order, sprites, 0).len() == 0,
        sprites[n - 1].animation is None ==> table_of(sprites[n - 1]) == (
            1u32,
            Seq::<u16>::empty(),
            false,
        ),
{
}

/// An atlas has its pixels and three mip images, each half the size of the one
/// before it.
pub proof fn law_atlas_has_three_mips(
    a: Atlas,
    store: SpriteStore,
    names: Seq<SpriteRef>,
    order: Seq<usize>,
    side: u32,
)
    requires
        a.is_atlas_of(store, names, order, side),
    ensures
        a.width == side && a.height == side,
        a.mips@.len() == 3,
        ({
            let n = side as int;
            &&& a.mips@[0]@ == mip_image(a.pixels@, n, n, n / 2, n / 2)
            &&& a.mips@[1]@ == mip_image(a.mips@[0]@, n / 2, n / 2, n / 4, n / 4)
            &&& a.mips@[2]@ == mip_image(a.mips@[1]@, n / 4, n / 4, n / 8, n / 8)
        }),
        a.entries@.len() == names.len(),
{
}

/// A slot is packed by its height, and a name without a sprite last.
pub proof fn law_slots_are_packed_by_height(store: SpriteStore, ns: Seq<char>, name: Seq<char>)
    ensures
        store.lookup(ns, name) matches Some(s) ==> slot_key(store, ns, name) == slot_height(s),
        store.lookup(ns, name) is None ==> slot_key(store, ns, name) == 0,
{
}

/// In packing order no slot is taller than one before it.
pub proof fn law_packing_goes_from_tall_to_low(
    store: SpriteStore,
    names: Seq<SpriteRef>,
    i: int,
    j: int,
)
    requires
        names.len() <= usize::MAX,
        0 <= i < j < names.len(),
    ensures
        ({
            let order = packing_order(store, names);
            let (a, b) = (names[order[i] as int], names[order[j] as int]);
            &&& order.len() == names.len()
            &&& slot_key(store, a.0@, a.1@) >= slot_key(store, b.0@, b.1@)
            &&& slot_key(store, a.0@, a.1@) == slot_key(store, b.0@, b.1@) ==> pair_le(
                (a.0@, a.1@),
                (b.0@, b.1@),
            )
        }),
{
    lemma_packing_order(store, names);
    let order = packing_order(store, names);
    let le = slots_le(names, slot_keys(store, names));
    assert(le(order[i] as int, order[j] as int));
}

} // verus!
