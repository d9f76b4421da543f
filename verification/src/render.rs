//! What the renderer decides before it talks to a GPU: sprite places, meshes
//! and their light, animation rows, stage settings, and which path a frame
//! takes.

use crate::atlas::{
    atlas_side, last_entry, law_entries_lie_inside, packing_order, present_count, Atlas, AtlasEntry,
};
use crate::bits;
use crate::chunk::{
    mesh_world, world_part, MeshLayer, MeshedChunk, SpriteRect, TintPolicy, Vertex,
};
use crate::effects::{
    num, ExposureConfig, RenderQuality, Rgb, ShaderEffectConfig, Tonemap,
};
use crate::grid::{volume, World};
use crate::light::{LightGrid, LightLevels};
use crate::registry::{AnimRow, Registry};
use crate::scalar::F32;
use crate::sprites::{SpriteRef, SpriteStore};
use vstd::prelude::*;

verus! {

/// The first `n` images behind each other.
pub open spec fn images(v: Seq<Vec<u8>>, n: int) -> Seq<u8>
    decreases n,
{
    if n <= 0 {
        Seq::empty()
    } else {
        images(v, n - 1) + v[n - 1]@
    }
}

fn append_bytes(out: &mut Vec<u8>, bytes: &[u8])
    ensures
        final(out)@ == old(out)@ + bytes@,
{
    let ghost start = out@;
    let mut i: usize = 0;
    while i < bytes.len()
        invariant
            i <= bytes.len(),
            out@ == start + bytes@.take(i as int),
        decreases bytes.len() - i,
    {
        out.push(bytes[i]);
        i += 1;
    }
    assert(bytes@.take(i as int) =~= bytes@);
}

/// The atlas with its smaller images, as the GPU takes them.
pub fn mip_concat(atlas: &Atlas) -> (r: Vec<u8>)
    ensures
        r@ == atlas.pixels@ + images(atlas.mips@, atlas.mips.len() as int),
{
    let mut out: Vec<u8> = Vec::new();
    append_bytes(&mut out, &atlas.pixels);
    assert(out@ =~= atlas.pixels@);
    let mut n: usize = 0;
    assert(atlas.pixels@ + images(atlas.mips@, 0) =~= atlas.pixels@);
    while n < atlas.mips.len()
        invariant
            n <= atlas.mips.len(),
            out@ == atlas.pixels@ + images(atlas.mips@, n as int),
        decreases atlas.mips.len() - n,
    {
        let ghost before = out@;
        append_bytes(&mut out, &atlas.mips[n]);
        assert(out@ =~= atlas.pixels@ + images(atlas.mips@, n + 1));
        n += 1;
    }
    out
}

/// Where a row of an entry's first frame starts in the pixels.
pub open spec fn row_start(width: int, e: AtlasEntry, row: int) -> int {
    ((e.y + row) * width + e.x) * 4
}

/// The first frame of the entry lies in the pixels.
pub open spec fn in_atlas(atlas: Atlas, e: AtlasEntry) -> bool {
    forall|row: int|
        0 <= row < e.frame_h ==> #[trigger] row_start(atlas.width as int, e, row) + e.frame_w * 4
            <= atlas.pixels.len()
}

/// Every pixel of the entry's first frame is fully opaque.
pub open spec fn is_opaque(atlas: Atlas, e: AtlasEntry) -> bool {
    forall|row: int, col: int|
        0 <= row < e.frame_h && 0 <= col < e.frame_w ==> #[trigger] pixel_alpha(
            atlas,
            e,
            row,
            col,
        ) == 255
}

/// The alpha of a pixel of the entry's first frame.
pub open spec fn pixel_alpha(atlas: Atlas, e: AtlasEntry, row: int, col: int) -> u8 {
    atlas.pixels@[row_start(atlas.width as int, e, row) + col * 4 + 3]
}

/// Whether an entry is fully opaque.
pub fn atlas_opaque(atlas: &Atlas, e: &AtlasEntry) -> (r: bool)
    requires
        in_atlas(*atlas, *e),
    ensures
        r == is_opaque(*atlas, *e),
{
    let mut row: u32 = 0;
    while row < e.frame_h
        invariant
            row <= e.frame_h,
            in_atlas(*atlas, *e),
            forall|p: int, c: int|
                0 <= p < row && 0 <= c < e.frame_w ==> #[trigger] pixel_alpha(*atlas, *e, p, c)
                    == 255,
        decreases e.frame_h - row,
    {
        let ghost start = row_start(atlas.width as int, *e, row as int);
        assert(start + e.frame_w * 4 <= atlas.pixels.len());
        let line: u128 = (e.y as u128 + row as u128) * atlas.width as u128;
        assert((e.y + row) * atlas.width <= 0x1_ffff_fffe * 0xffff_ffff) by (nonlinear_arith)
            requires
                e.y + row <= 0x1_ffff_fffe,
                atlas.width <= 0xffff_ffff,
                e.y + row >= 0,
        ;
        assert(0 <= (e.y + row) * atlas.width) by (nonlinear_arith)
            requires
                e.y + row >= 0,
                atlas.width >= 0,
        ;
        let from: usize = ((line + e.x as u128) * 4) as usize;
        assert(from == start);
        let mut col: u32 = 0;
        while col < e.frame_w
            invariant
                row < e.frame_h,
                col <= e.frame_w,
                from == start,
                start == row_start(atlas.width as int, *e, row as int),
                start + e.frame_w * 4 <= atlas.pixels.len(),
                forall|c: int|
                    0 <= c < col ==> #[trigger] pixel_alpha(*atlas, *e, row as int, c) == 255,
            decreases e.frame_w - col,
        {
            let at: usize = from + col as usize * 4 + 3;
            assert(atlas.pixels@[at as int] == pixel_alpha(*atlas, *e, row as int, col as int));
            if atlas.pixels[at] != 255 {
                return false;
            }
            col += 1;
        }
        row += 1;
    }
    true
}

/// The place of a sprite: where its name has an entry in the atlas.
pub open spec fn rect_of(atlas: Atlas, name: (String, String)) -> Option<SpriteRect> {
    let i = last_entry(atlas.entries@, name.0@, name.1@);
    if i >= 0 {
        let e = atlas.entries@[i].1;
        Some((e.x, e.y, e.frame_w, e.frame_h, e.frames, e.frame_stride, is_opaque(atlas, e)))
    } else {
        None
    }
}

/// The places of all sprites of a registry.
pub open spec fn rects_of(atlas: Atlas, registry: Registry) -> Seq<Option<SpriteRect>> {
    Seq::new(registry.sprite_names@.len(), |i: int| rect_of(atlas, registry.sprite_names@[i]))
}

/// All entries lie in the atlas.
pub open spec fn atlas_is_whole(atlas: Atlas) -> bool {
    forall|i: int| 0 <= i < atlas.entries.len() ==> in_atlas(atlas, (#[trigger] atlas.entries@[i]).1)
}

proof fn lemma_rows_rise(width: int, e: AtlasEntry, a: int, b: int)
    requires
        0 <= a <= b,
        width >= 0,
    ensures
        row_start(width, e, a) <= row_start(width, e, b),
{
    assert((e.y + a) * width <= (e.y + b) * width) by (nonlinear_arith)
        requires
            a <= b,
            width >= 0,
    ;
}

fn entry_fits(atlas: &Atlas, e: &AtlasEntry) -> (r: bool)
    ensures
        r == in_atlas(*atlas, *e),
{
    if e.frame_h == 0 {
        return true;
    }
    let line: u128 = e.y as u128 + (e.frame_h - 1) as u128;
    assert(line * atlas.width <= 0x1_ffff_fffe * 0xffff_ffff) by (nonlinear_arith)
        requires
            0 <= line <= 0x1_ffff_fffe,
            0 <= atlas.width <= 0xffff_ffff,
    ;
    let end: u128 = (line * atlas.width as u128 + e.x as u128) * 4 + e.frame_w as u128 * 4;
    let ghost last = e.frame_h - 1;
    assert(end == row_start(atlas.width as int, *e, last) + e.frame_w * 4);
    let r = end <= atlas.pixels.len() as u128;
    proof {
        if r {
            assert forall|row: int| 0 <= row < e.frame_h implies #[trigger] row_start(
                atlas.width as int,
                *e,
                row,
            ) + e.frame_w * 4 <= atlas.pixels.len() by {
                lemma_rows_rise(atlas.width as int, *e, row, last);
            }
        }
    }
    r
}

/// Whether all entries lie in the atlas.
pub fn atlas_fits(atlas: &Atlas) -> (r: bool)
    ensures
        r == atlas_is_whole(*atlas),
{
    let mut i: usize = 0;
    while i < atlas.entries.len()
        invariant
            i <= atlas.entries.len(),
            forall|k: int| 0 <= k < i ==> in_atlas(*atlas, (#[trigger] atlas.entries@[k]).1),
        decreases atlas.entries.len() - i,
    {
        if !entry_fits(atlas, &atlas.entries[i].1) {
            return false;
        }
        i += 1;
    }
    true
}

/// A built atlas can be meshed with: each of its entries lies in its pixels.
pub proof fn law_built_atlas_is_whole(
    a: Atlas,
    store: SpriteStore,
    names: Seq<SpriteRef>,
    side: u32,
)
    requires
        store.wf(),
        names.len() <= usize::MAX,
        atlas_side(store, names, packing_order(store, names)) == Some(side),
        present_count(store, names, packing_order(store, names)) == names.len(),
        a.is_atlas_of(store, names, packing_order(store, names), side),
    ensures
        atlas_is_whole(a),
{
    assert forall|i: int| 0 <= i < a.entries.len() implies in_atlas(
        a,
        (#[trigger] a.entries@[i]).1,
    ) by {
        law_entries_lie_inside(a, store, names, side, i);
        let e = a.entries@[i].1;
        assert forall|row: int| 0 <= row < e.frame_h implies #[trigger] row_start(
            a.width as int,
            e,
            row,
        ) + e.frame_w * 4 <= a.pixels.len() by {
            assert((e.y + row) * side + side <= side * side) by (nonlinear_arith)
                requires
                    e.y + row + 1 <= side,
            ;
        }
    }
}

/// Finds the places of all sprites.
pub fn sprite_rects(registry: &Registry, atlas: &Atlas) -> (r: Vec<Option<SpriteRect>>)
    requires
        atlas_is_whole(*atlas),
    ensures
        r@ == rects_of(*atlas, *registry),
{
    let mut out: Vec<Option<SpriteRect>> = Vec::new();
    let mut i: usize = 0;
    while i < registry.sprite_names.len()
        invariant
            i <= registry.sprite_names.len(),
            atlas_is_whole(*atlas),
            out@ == rects_of(*atlas, *registry).take(i as int),
        decreases registry.sprite_names.len() - i,
    {
        let name = &registry.sprite_names[i];
        let rect = match atlas.get(name.0.as_str(), name.1.as_str()) {
            Some(e) => {
                proof {
                    lemma_entry_place(atlas.entries@, name.0@, name.1@);
                }
                let k = Ghost(last_entry(atlas.entries@, name.0@, name.1@));
                assert(in_atlas(*atlas, atlas.entries@[k@].1));
                Some(
                    (
                        e.x,
                        e.y,
                        e.frame_w,
                        e.frame_h,
                        e.frames,
                        e.frame_stride,
                        atlas_opaque(atlas, e),
                    ),
                )
            },
            None => None,
        };
        out.push(rect);
        assert(out@ =~= rects_of(*atlas, *registry).take(i + 1));
        i += 1;
    }
    assert(out@ =~= rects_of(*atlas, *registry));
    out
}

proof fn lemma_entry_place<T>(v: Seq<((String, String), T)>, ns: Seq<char>, name: Seq<char>)
    ensures
        -1 <= last_entry(v, ns, name) < v.len(),
    decreases v.len(),
{
    if v.len() > 0 {
        lemma_entry_place(v.drop_last(), ns, name);
    }
}

/// The grass tint of the plains, opaque.
pub const PLAINS_TINT: [u8; 4] = [145, 189, 89, 255];

/// Meshes a world with the sprites of an atlas.
pub fn build_meshes(world: &World, registry: &Registry, atlas: &Atlas) -> (r: MeshedChunk)
    requires
        world.wf(),
        atlas_is_whole(*atlas),
    ensures
        r.holds(
            world_part(
                *world,
                *registry,
                rects_of(*atlas, *registry),
                PLAINS_TINT,
                volume(world.size),
            ),
        ),
{
    let rects = sprite_rects(registry, atlas);
    mesh_world(world, registry, &rects, &TintPolicy { tint0: PLAINS_TINT })
}

/// A coordinate moved into a side of the grid.
pub open spec fn into_side(v: i64, side: u32) -> int {
    if v < 0 {
        0
    } else if v >= side {
        side - 1
    } else {
        v as int
    }
}

fn moved_in(v: i64, side: u32) -> (r: i64)
    requires
        side > 0,
    ensures
        r == into_side(v, side),
{
    if v < 0 {
        0
    } else if v >= side as i64 {
        side as i64 - 1
    } else {
        v
    }
}

/// The light of a vertex that stands in a cell, brought into the world; full
/// sky where the grid has no such cell.
pub open spec fn light_in(grid: LightGrid, size: [u32; 3], at: [i64; 3]) -> LightLevels {
    match grid.at(into_side(at[0], size[0]), into_side(at[1], size[1]), into_side(at[2], size[2])) {
        Some(l) => l,
        None => [15u8, 0u8],
    }
}

/// The layer with other light.
pub open spec fn relit(
    before: Seq<Vertex>,
    after: Seq<Vertex>,
    places: Seq<[i64; 3]>,
    grid: LightGrid,
    size: [u32; 3],
) -> bool {
    &&& after.len() == before.len()
    &&& forall|i: int| #![trigger after[i]]
        0 <= i < after.len() ==> after[i] == (Vertex {
            light: light_in(grid, size, places[i]),
            ..before[i]
        })
}

/// Gives each vertex of a layer the light of the cell it stands in.
pub fn light_layer(layer: &mut MeshLayer, places: &[[i64; 3]], grid: &LightGrid, size: [u32; 3])
    requires
        grid.wf(),
        places.len() == old(layer).vertices.len(),
        old(layer).vertices.len() > 0 ==> size[0] > 0 && size[1] > 0 && size[2] > 0,
    ensures
        final(layer).indices == old(layer).indices,
        relit(old(layer).vertices@, final(layer).vertices@, places@, *grid, size),
{
    let ghost before = layer.vertices@;
    let mut i: usize = 0;
    while i < layer.vertices.len()
        invariant
            i <= layer.vertices.len(),
            grid.wf(),
            places.len() == layer.vertices.len(),
            layer.vertices.len() > 0 ==> size[0] > 0 && size[1] > 0 && size[2] > 0,
            before.len() == layer.vertices.len(),
            layer.indices == old(layer).indices,
            forall|k: int| #![trigger layer.vertices@[k]]
                0 <= k < i ==> layer.vertices@[k] == (Vertex {
                    light: light_in(*grid, size, places@[k]),
                    ..before[k]
                }),
            forall|k: int|
                i <= k < before.len() ==> #[trigger] layer.vertices@[k] == before[k],
        decreases layer.vertices.len() - i,
    {
        let at = places[i];
        let light = match grid.get(
            moved_in(at[0], size[0]),
            moved_in(at[1], size[1]),
            moved_in(at[2], size[2]),
        ) {
            Some(l) => l,
            None => [15u8, 0u8],
        };
        let v = layer.vertices[i];
        layer.vertices.set(i, Vertex { light, ..v });
        i += 1;
    }
}

/// The cells in which the vertices of a mesh stand.
#[derive(Debug)]
pub struct MeshPlaces {
    pub opaque: Vec<[i64; 3]>,
    pub cutout: Vec<[i64; 3]>,
    pub translucent: Vec<[i64; 3]>,
}

/// Gives a mesh the light of a grid over a world of a size.
pub fn build_lighting_meshes(
    mesh: MeshedChunk,
    places: &MeshPlaces,
    grid: &LightGrid,
    size: [u32; 3],
) -> (r: MeshedChunk)
    requires
        grid.wf(),
        mesh.opaque.vertices.len() > 0 || mesh.cutout.vertices.len() > 0
            || mesh.translucent.vertices.len() > 0 ==> size[0] > 0 && size[1] > 0 && size[2] > 0,
        places.opaque.len() == mesh.opaque.vertices.len(),
        places.cutout.len() == mesh.cutout.vertices.len(),
        places.translucent.len() == mesh.translucent.vertices.len(),
    ensures
        r.opaque.indices == mesh.opaque.indices,
        r.cutout.indices == mesh.cutout.indices,
        r.translucent.indices == mesh.translucent.indices,
        relit(mesh.opaque.vertices@, r.opaque.vertices@, places.opaque@, *grid, size),
        relit(mesh.cutout.vertices@, r.cutout.vertices@, places.cutout@, *grid, size),
        relit(
            mesh.translucent.vertices@,
            r.translucent.vertices@,
            places.translucent@,
            *grid,
            size,
        ),
{
    let mut out = mesh;
    light_layer(&mut out.opaque, &places.opaque, grid, size);
    light_layer(&mut out.cutout, &places.cutout, grid, size);
    light_layer(&mut out.translucent, &places.translucent, grid, size);
    out
}

/// One animated sprite's slot. Slot `i` serves the vertices whose animation
/// id is `i + 1`.
#[derive(Debug)]
pub struct AnimSlot {
    pub frametime: u32,
    /// Playback order; empty for the rows of the strip in turn.
    pub frames: Vec<u16>,
    pub strip_frames: u32,
    pub interpolate: bool,
    /// Pixels from one frame to the next.
    pub frame_stride: u32,
    pub atlas_height: u32,
}

/// The frame stride of a sprite; 0 where it has no name or no place.
pub open spec fn stride_in(atlas: Atlas, registry: Registry, sprite: u32) -> u32 {
    if sprite < registry.sprite_names.len() {
        let name = registry.sprite_names@[sprite as int];
        let i = last_entry(atlas.entries@, name.0@, name.1@);
        if i >= 0 {
            atlas.entries@[i].1.frame_stride
        } else {
            0
        }
    } else {
        0
    }
}

/// The slot of an animation row.
pub open spec fn is_slot_of(slot: AnimSlot, row: AnimRow, atlas: Atlas, registry: Registry) -> bool {
    &&& slot.frametime == row.1
    &&& slot.frames@ == row.2@
    &&& slot.strip_frames == row.3
    &&& slot.interpolate == row.4
    &&& slot.frame_stride == stride_in(atlas, registry, row.0)
    &&& slot.atlas_height == atlas.height
}

/// Builds the slots of a registry's animations, one for each, in their order.
pub fn build_anim_slots(registry: &Registry, atlas: &Atlas) -> (r: Vec<AnimSlot>)
    ensures
        r.len() == registry.anims.len(),
        forall|i: int|
            0 <= i < r.len() ==> is_slot_of(
                #[trigger] r@[i],
                registry.anims@[i],
                *atlas,
                *registry,
            ),
{
    let mut out: Vec<AnimSlot> = Vec::new();
    let mut i: usize = 0;
    while i < registry.anims.len()
        invariant
            i <= registry.anims.len(),
            out.len() == i,
            forall|k: int|
                0 <= k < i ==> is_slot_of(
                    #[trigger] out@[k],
                    registry.anims@[k],
                    *atlas,
                    *registry,
                ),
        decreases registry.anims.len() - i,
    {
        let row = &registry.anims[i];
        let sprite: usize = row.0 as usize;
        let stride: u32 = if sprite < registry.sprite_names.len() {
            let name = &registry.sprite_names[sprite];
            match atlas.get(name.0.as_str(), name.1.as_str()) {
                Some(e) => e.frame_stride,
                None => 0,
            }
        } else {
            0
        };
        let frames = row.2.clone();
        assert(frames@ =~= row.2@);
        out.push(
            AnimSlot {
                frametime: row.1,
                frames,
                strip_frames: row.3,
                interpolate: row.4,
                frame_stride: stride,
                atlas_height: atlas.height,
            },
        );
        i += 1;
    }
    out
}

/// Where an animation stands: a row, and how far it is on the way to the next
/// one, in ticks out of its frame time.
#[derive(Clone, Copy, Debug, PartialEq, Eq, Structural)]
pub struct AnimStep {
    pub row: u32,
    pub phase: u64,
    pub period: u64,
}

impl AnimSlot {
    /// Steps of the playback.
    pub open spec fn length(&self) -> nat {
        if self.frames.len() == 0 {
            self.strip_frames as nat
        } else {
            self.frames.len() as nat
        }
    }

    pub open spec fn period(&self) -> int {
        if self.frametime == 0 {
            1
        } else {
            self.frametime as int
        }
    }

    /// The step at a tick.
    pub open spec fn step_at(&self, tick: u64) -> Option<AnimStep> {
        if self.length() == 0 {
            None
        } else {
            let i = (tick as int / self.period()) % (self.length() as int);
            Some(
                AnimStep {
                    row: if self.frames.len() == 0 {
                        i as u32
                    } else {
                        self.frames@[i] as u32
                    },
                    phase: if self.interpolate && self.length() > 1 {
                        (tick as int % self.period()) as u64
                    } else {
                        0
                    },
                    period: self.period() as u64,
                },
            )
        }
    }

    /// Where the animation stands at a tick; nothing for an animation without
    /// frames.
    pub fn step(&self, tick: u64) -> (r: Option<AnimStep>)
        ensures
            r == self.step_at(tick),
    {
        let period: u64 = if self.frametime == 0 { 1 } else { self.frametime as u64 };
        let length: u64 = if self.frames.len() == 0 {
            self.strip_frames as u64
        } else {
            self.frames.len() as u64
        };
        if length == 0 {
            return None;
        }
        let i: u64 = (tick / period) % length;
        assert(i < length) by {
            vstd::arithmetic::div_mod::lemma_mod_bound(
                (tick / period) as int,
                length as int,
            );
        }
        let row: u32 = if self.frames.len() == 0 {
            i as u32
        } else {
            self.frames[i as usize] as u32
        };
        let phase: u64 = if self.interpolate && length > 1 {
            tick % period
        } else {
            0
        };
        Some(AnimStep { row, phase, period })
    }
}

/// Steps of the animation slots 1 to 63 at a tick; slot 0 is for sprites that
/// stand still.
pub fn animation_steps(slots: &[AnimSlot], tick: u64) -> (r: Vec<Option<AnimStep>>)
    ensures
        r.len() == 64,
        r@[0] is None,
        forall|i: int|
            1 <= i < 64 ==> #[trigger] r@[i] == (if i <= slots.len() {
                slots@[i - 1].step_at(tick)
            } else {
                None
            }),
{
    let mut out: Vec<Option<AnimStep>> = Vec::new();
    out.push(None);
    let mut i: usize = 1;
    while i < 64
        invariant
            1 <= i <= 64,
            out.len() == i,
            out@[0] is None,
            forall|k: int|
                1 <= k < i ==> #[trigger] out@[k] == (if k <= slots.len() {
                    slots@[k - 1].step_at(tick)
                } else {
                    None
                }),
        decreases 64 - i,
    {
        if i <= slots.len() {
            out.push(slots[i - 1].step(tick));
        } else {
            out.push(None);
        }
        i += 1;
    }
    out
}

/// How a layer meets what is behind it.
#[derive(Clone, Copy, Debug, PartialEq, Eq, Structural)]
pub enum BlendMode {
    /// Pixels are there or not.
    Cutout,
    /// Pixels are mixed with what is behind them.
    Alpha,
}

/// Effect flags of the lighting stage.
pub const SSAO: u32 = 1;

pub const SHADOWS: u32 = 2;

pub const ATMOSPHERE: u32 = 4;

pub const WATER: u32 = 8;

pub const FOG: u32 = 16;

/// A flag where a stage runs.
pub open spec fn flag_if(on: bool, flag: u32) -> int {
    if on {
        flag as int
    } else {
        0
    }
}

/// The values that the lighting stage takes out of a configuration. A stage
/// that does not run has neutral values.
#[derive(Clone, Copy, Debug, PartialEq, Eq, Structural)]
pub struct StageValues {
    /// Which stages run.
    pub flags: u32,
    pub shadow_samples: u32,
    /// 0 for none, 1 for the filmic curve, 2 for Reinhard.
    pub tonemap: u32,
    pub mie_g: F32,
    pub sun_illuminance: F32,
    pub rayleigh: Rgb,
    pub mie: F32,
    pub water_octaves: u32,
    pub water_amplitude: F32,
    pub water_speed: F32,
    pub water_reflection: F32,
    pub absorption: Rgb,
    pub fog_density: F32,
    pub fog_tint: Rgb,
    pub ao_strength: F32,
    pub ao_radius: F32,
    pub cloud_altitude: F32,
    pub cloud_thickness: F32,
    pub cloud_coverage: F32,
    pub cloud_steps: u32,
    pub cloud_density: F32,
    pub cloud_wind: F32,
    pub exposure: Option<ExposureConfig>,
}

/// Three equal numbers.
pub open spec fn gray(v: F32) -> Rgb {
    Rgb { r: v, g: v, b: v }
}

/// The number of a tonemap operator.
pub open spec fn tonemap_number(t: Tonemap) -> u32 {
    match t {
        Tonemap::Off => 0,
        Tonemap::Aces => 1,
        Tonemap::Reinhard => 2,
    }
}

/// The values of the lighting stage.
pub open spec fn stage_values_of(c: ShaderEffectConfig) -> StageValues {
    StageValues {
        flags: (flag_if(c.ssao is Some, SSAO) + flag_if(c.shadows is Some, SHADOWS) + flag_if(
            c.atmosphere is Some,
            ATMOSPHERE,
        ) + flag_if(c.water is Some, WATER) + flag_if(c.fog is Some, FOG)) as u32,
        shadow_samples: match c.shadows {
            Some(s) => if s.samples < 16 {
                s.samples
            } else {
                16
            },
            None => 0,
        },
        tonemap: match c.post {
            Some(p) => tonemap_number(p.tonemap),
            None => 0,
        },
        mie_g: match c.atmosphere {
            Some(a) => a.mie_g,
            None => num(bits::CENTI_76),
        },
        sun_illuminance: match c.atmosphere {
            Some(a) => a.sun_illuminance,
            None => num(bits::THIRTY),
        },
        rayleigh: match c.atmosphere {
            Some(a) => a.rayleigh,
            None => Rgb {
                r: num(bits::RAYLEIGH_R),
                g: num(bits::RAYLEIGH_G),
                b: num(bits::RAYLEIGH_B),
            },
        },
        mie: match c.atmosphere {
            Some(a) => a.mie,
            None => num(bits::MIE),
        },
        water_octaves: match c.water {
            Some(w) => w.octaves,
            None => 4,
        },
        water_amplitude: match c.water {
            Some(w) => w.amplitude,
            None => num(bits::CENTI_50),
        },
        water_speed: match c.water {
            Some(w) => w.speed,
            None => num(bits::ONE),
        },
        water_reflection: match c.water {
            Some(w) => w.reflection_strength,
            None => num(bits::CENTI_60),
        },
        absorption: match c.water {
            Some(w) => w.absorption,
            None => Rgb {
                r: num(bits::CENTI_45),
                g: num(bits::CENTI_8),
                b: num(bits::CENTI_3),
            },
        },
        fog_density: match c.fog {
            Some(f) => f.density,
            None => num(bits::ZERO),
        },
        fog_tint: match c.fog {
            Some(f) => f.tint,
            None => gray(num(bits::ONE)),
        },
        ao_strength: match c.ssao {
            Some(a) => a.strength,
            None => num(bits::ZERO),
        },
        ao_radius: match c.ssao {
            Some(a) => a.radius,
            None => num(bits::THREE),
        },
        cloud_altitude: match c.clouds {
            Some(k) => k.altitude,
            None => num(bits::ZERO),
        },
        cloud_thickness: match c.clouds {
            Some(k) => k.thickness,
            None => num(bits::ZERO),
        },
        cloud_coverage: match c.clouds {
            Some(k) => k.coverage,
            None => num(bits::ZERO),
        },
        cloud_steps: match c.clouds {
            Some(k) => k.steps,
            None => 0,
        },
        cloud_density: match c.clouds {
            Some(k) => k.density,
            None => num(bits::ZERO),
        },
        cloud_wind: match c.clouds {
            Some(k) => k.wind_speed,
            None => num(bits::ZERO),
        },
        exposure: c.exposure,
    }
}

fn number(bits: u32) -> (r: F32)
    ensures
        r == num(bits),
{
    F32 { bits }
}

/// Takes the values of the lighting stage out of a configuration.
pub fn stage_values(c: &ShaderEffectConfig) -> (r: StageValues)
    ensures
        r == stage_values_of(*c),
{
    let mut flags: u32 = 0;
    if c.ssao.is_some() {
        flags = flags + SSAO;
    }
    if c.shadows.is_some() {
        flags = flags + SHADOWS;
    }
    if c.atmosphere.is_some() {
        flags = flags + ATMOSPHERE;
    }
    if c.water.is_some() {
        flags = flags + WATER;
    }
    if c.fog.is_some() {
        flags = flags + FOG;
    }
    let shadow_samples: u32 = match &c.shadows {
        Some(s) => if s.samples < 16 {
            s.samples
        } else {
            16
        },
        None => 0,
    };
    let tonemap: u32 = match &c.post {
        Some(p) => match p.tonemap {
            Tonemap::Off => 0,
            Tonemap::Aces => 1,
            Tonemap::Reinhard => 2,
        },
        None => 0,
    };
    let zero = number(bits::ZERO);
    let one = number(bits::ONE);
    let (mie_g, sun_illuminance, rayleigh, mie) = match &c.atmosphere {
        Some(a) => (a.mie_g, a.sun_illuminance, a.rayleigh, a.mie),
        None => (
            number(bits::CENTI_76),
            number(bits::THIRTY),
            Rgb {
                r: number(bits::RAYLEIGH_R),
                g: number(bits::RAYLEIGH_G),
                b: number(bits::RAYLEIGH_B),
            },
            number(bits::MIE),
        ),
    };
    let (water_octaves, water_amplitude, water_speed, water_reflection, absorption) =
        match &c.water {
        Some(w) => (w.octaves, w.amplitude, w.speed, w.reflection_strength, w.absorption),
        None => (
            4u32,
            number(bits::CENTI_50),
            one,
            number(bits::CENTI_60),
            Rgb {
                r: number(bits::CENTI_45),
                g: number(bits::CENTI_8),
                b: number(bits::CENTI_3),
            },
        ),
    };
    let (fog_density, fog_tint) = match &c.fog {
        Some(f) => (f.density, f.tint),
        None => (zero, Rgb { r: one, g: one, b: one }),
    };
    let (ao_strength, ao_radius) = match &c.ssao {
        Some(a) => (a.strength, a.radius),
        None => (zero, number(bits::THREE)),
    };
    let (cloud_altitude, cloud_thickness, cloud_coverage, cloud_steps, cloud_density, cloud_wind) =
        match &c.clouds {
        Some(k) => (k.altitude, k.thickness, k.coverage, k.steps, k.density, k.wind_speed),
        None => (zero, zero, zero, 0u32, zero, zero),
    };
    StageValues {
        flags,
        shadow_samples,
        tonemap,
        mie_g,
        sun_illuminance,
        rayleigh,
        mie,
        water_octaves,
        water_amplitude,
        water_speed,
        water_reflection,
        absorption,
        fog_density,
        fog_tint,
        ao_strength,
        ao_radius,
        cloud_altitude,
        cloud_thickness,
        cloud_coverage,
        cloud_steps,
        cloud_density,
        cloud_wind,
        exposure: c.exposure,
    }
}

/// The settings of the post pass.
#[derive(Clone, Copy, Debug, PartialEq, Eq, Structural)]
pub struct PostParams {
    /// 1 for the filmic curve, 2 for bloom, 4 for the vignette, added up.
    pub flags: u32,
    pub bloom_threshold: F32,
    pub bloom_intensity: F32,
    pub vignette: F32,
}

/// The settings of the post pass: those of the staged configuration, or of
/// the quality where nothing is staged.
pub open spec fn post_params_of(
    staged: Option<ShaderEffectConfig>,
    q: RenderQuality,
) -> PostParams {
    match staged {
        Some(c) => match c.post {
            Some(p) => PostParams {
                flags: (4 + flag_if(p.bloom, 2)) as u32,
                bloom_threshold: p.bloom_threshold,
                bloom_intensity: p.bloom_intensity,
                vignette: p.vignette,
            },
            None => PostParams {
                flags: 0,
                bloom_threshold: num(bits::CENTI_80),
                bloom_intensity: num(bits::ZERO),
                vignette: num(bits::ZERO),
            },
        },
        None => match q {
            RenderQuality::High => PostParams {
                flags: 7,
                bloom_threshold: num(bits::ONE),
                bloom_intensity: num(bits::CENTI_60),
                vignette: num(bits::CENTI_25),
            },
            RenderQuality::Ultra => PostParams {
                flags: 7,
                bloom_threshold: num(bits::CENTI_85),
                bloom_intensity: num(bits::CENTI_90),
                vignette: num(bits::CENTI_30),
            },
            _ => PostParams {
                flags: 0,
                bloom_threshold: num(bits::ZERO),
                bloom_intensity: num(bits::ZERO),
                vignette: num(bits::ZERO),
            },
        },
    }
}

pub fn post_params(staged: Option<&ShaderEffectConfig>, q: RenderQuality) -> (r: PostParams)
    ensures
        r == post_params_of(
            match staged {
                Some(c) => Some(*c),
                None => None,
            },
            q,
        ),
{
    match staged {
        Some(c) => match &c.post {
            Some(p) => PostParams {
                flags: if p.bloom { 6 } else { 4 },
                bloom_threshold: p.bloom_threshold,
                bloom_intensity: p.bloom_intensity,
                vignette: p.vignette,
            },
            None => PostParams {
                flags: 0,
                bloom_threshold: number(bits::CENTI_80),
                bloom_intensity: number(bits::ZERO),
                vignette: number(bits::ZERO),
            },
        },
        None => match q {
            RenderQuality::High => PostParams {
                flags: 7,
                bloom_threshold: number(bits::ONE),
                bloom_intensity: number(bits::CENTI_60),
                vignette: number(bits::CENTI_25),
            },
            RenderQuality::Ultra => PostParams {
                flags: 7,
                bloom_threshold: number(bits::CENTI_85),
                bloom_intensity: number(bits::CENTI_90),
                vignette: number(bits::CENTI_30),
            },
            _ => PostParams {
                flags: 0,
                bloom_threshold: number(bits::ZERO),
                bloom_intensity: number(bits::ZERO),
                vignette: number(bits::ZERO),
            },
        },
    }
}

/// The way a frame is drawn.
#[derive(Clone, Copy, Debug, PartialEq, Eq, Structural)]
pub enum FramePath {
    /// Geometry buffer, shadows, lighting and post.
    Staged,
    /// An offscreen scene and the post pass.
    Scaled,
    /// Straight into the target.
    Direct,
}

/// Chooses the way a frame is drawn.
pub fn frame_path(staged: bool, q: RenderQuality) -> (r: FramePath)
    ensures
        r == (if staged {
            FramePath::Staged
        } else if q == RenderQuality::Medium {
            FramePath::Direct
        } else {
            FramePath::Scaled
        }),
{
    if staged {
        FramePath::Staged
    } else if q.post_process() {
        FramePath::Scaled
    } else {
        match q {
            RenderQuality::Low => FramePath::Scaled,
            _ => FramePath::Direct,
        }
    }
}

/// Size of captured frames.
pub const CAPTURE_WIDTH: u32 = 1280;

pub const CAPTURE_HEIGHT: u32 = 720;

/// The size of a frame: that of the window where it goes there, and the fixed
/// size of captures otherwise.
pub fn frame_dims(to_window: bool, surface: Option<(u32, u32)>) -> (r: (u32, u32))
    ensures
        r == (if to_window && surface is Some {
            surface->0
        } else {
            (CAPTURE_WIDTH, CAPTURE_HEIGHT)
        }),
{
    match surface {
        Some(s) => if to_window {
            s
        } else {
            (CAPTURE_WIDTH, CAPTURE_HEIGHT)
        },
        None => (CAPTURE_WIDTH, CAPTURE_HEIGHT),
    }
}

/// The largest size for which every whole number is a binary32 number.
pub const EXACT_SIZE: u32 = 0x100_0000;

/// A side of the scene: half of the frame's at low quality, rounded up at a
/// half, and at least one pixel.
pub open spec fn scene_side(q: RenderQuality, side: u32) -> int {
    let s = if q == RenderQuality::Low {
        (side + 1) / 2
    } else {
        side as int
    };
    if s < 1 {
        1
    } else {
        s
    }
}

fn scaled_side(q: RenderQuality, side: u32) -> (r: u32)
    requires
        side <= EXACT_SIZE,
    ensures
        r == scene_side(q, side),
{
    let s: u32 = match q {
        RenderQuality::Low => (side + 1) / 2,
        _ => side,
    };
    if s < 1 {
        1
    } else {
        s
    }
}

/// The size of the offscreen scene of a frame.
pub fn scene_size(q: RenderQuality, w: u32, h: u32) -> (r: (u32, u32))
    requires
        w <= EXACT_SIZE,
        h <= EXACT_SIZE,
    ensures
        r.0 == scene_side(q, w),
        r.1 == scene_side(q, h),
{
    (scaled_side(q, w), scaled_side(q, h))
}

/// What a change of configuration does to the staged pipeline.
#[derive(Clone, Copy, Debug, PartialEq, Eq, Structural)]
pub enum StagedChange {
    /// Nothing is staged any more.
    TearDown,
    /// The pipeline fits already.
    Keep,
    Rebuild,
}

/// Decides what a configuration does to the staged pipeline.
pub fn staged_change(current: Option<&ShaderEffectConfig>, config: &ShaderEffectConfig) -> (r:
    StagedChange)
    ensures
        r == (if !config.is_staged() {
            StagedChange::TearDown
        } else {
            match current {
                Some(c) => if c.same_config(config) {
                    StagedChange::Keep
                } else {
                    StagedChange::Rebuild
                },
                None => StagedChange::Rebuild,
            }
        }),
{
    if !config.uses_staged_pipeline() {
        return StagedChange::TearDown;
    }
    match current {
        Some(c) => if c.same(config) {
            StagedChange::Keep
        } else {
            StagedChange::Rebuild
        },
        None => StagedChange::Rebuild,
    }
}

/// The side of the shadow map.
pub fn shadow_resolution(config: &ShaderEffectConfig) -> (r: u32)
    ensures
        r == (match config.shadows {
            Some(s) => s.resolution,
            None => 1024,
        }),
{
    match &config.shadows {
        Some(s) => s.resolution,
        None => 1024,
    }
}

/// Bytes of a row of pixels in a readback buffer: filled up to a multiple of
/// 256.
pub open spec fn padded(w: int) -> int {
    ((w * 4 + 255) / 256) * 256
}

pub fn padded_row(w: u32) -> (r: u32)
    requires
        padded(w as int) <= u32::MAX,
    ensures
        r == padded(w as int),
        r >= w * 4,
        r % 256 == 0,
{
    let bytes: u64 = w as u64 * 4 + 255;
    ((bytes / 256) * 256) as u32
}

/// The first `n` rows of an image without the filling.
pub open spec fn rows(data: Seq<u8>, row: int, stride: int, n: int) -> Seq<u8>
    decreases n,
{
    if n <= 0 {
        Seq::empty()
    } else {
        let from = (n - 1) * stride;
        rows(data, row, stride, n - 1) + data.subrange(from, from + row)
    }
}

/// Takes the filling out of a readback buffer.
pub fn unpad_rows(data: &[u8], row: usize, stride: usize, h: usize) -> (r: Vec<u8>)
    requires
        row <= stride,
        h * stride <= data.len(),
    ensures
        r@ == rows(data@, row as int, stride as int, h as int),
{
    let mut out: Vec<u8> = Vec::new();
    let mut n: usize = 0;
    let mut from: usize = 0;
    while n < h
        invariant
            n <= h,
            row <= stride,
            h * stride <= data.len(),
            from == n * stride,
            out@ == rows(data@, row as int, stride as int, n as int),
        decreases h - n,
    {
        assert((n + 1) * stride <= h * stride) by (nonlinear_arith)
            requires
                n + 1 <= h,
                stride >= 0,
        ;
        assert((n + 1) * stride == n * stride + stride) by (nonlinear_arith);
        let ghost before = out@;
        let mut k: usize = 0;
        while k < row
            invariant
                k <= row,
                from + row <= data.len(),
                out@ == before + data@.subrange(from as int, from + k),
            decreases row - k,
        {
            out.push(data[from + k]);
            assert(data@.subrange(from as int, from + k + 1) =~= data@.subrange(
                from as int,
                from + k,
            ).push(data@[from + k]));
            k += 1;
        }
        from += stride;
        n += 1;
    }
    out
}

/// The images of a list stand behind each other in its order.
pub proof fn law_images_follow_each_other(v: Seq<Vec<u8>>, n: int, i: int, k: int)
    requires
        0 <= i < n <= v.len(),
        0 <= k < v[i]@.len(),
    ensures
        images(v, 0).len() == 0,
        images(v, n).len() == images(v, n - 1).len() + v[n - 1]@.len(),
        images(v, i).len() + k < images(v, n).len(),
        images(v, n)[images(v, i).len() + k] == v[i]@[k],
    decreases n,
{
    if i < n - 1 {
        law_images_follow_each_other(v, n - 1, i, k);
    }
}

/// The place of a sprite is that of the last entry of its name; a name without
/// an entry has none.
pub proof fn law_sprites_have_the_place_of_their_entry(
    atlas: Atlas,
    name: (String, String),
    i: int,
)
    requires
        -1 <= i < atlas.entries@.len(),
        forall|k: int|
            i < k < atlas.entries@.len() ==> !((#[trigger] atlas.entries@[k]).0.0@ == name.0@
                && atlas.entries@[k].0.1@ == name.1@),
        i >= 0 ==> atlas.entries@[i].0.0@ == name.0@ && atlas.entries@[i].0.1@ == name.1@,
    ensures
        i == -1 ==> rect_of(atlas, name) is None,
        i >= 0 ==> ({
            let e = atlas.entries@[i].1;
            rect_of(atlas, name) matches Some(r) && r.0 == e.x && r.1 == e.y && r.2 == e.frame_w
                && r.3 == e.frame_h && r.4 == e.frames && r.5 == e.frame_stride && r.6 == is_opaque(
                atlas,
                e,
            )
        }),
{
    crate::atlas::lemma_last_entry(atlas.entries@, name.0@, name.1@, i);
}

/// A sprite is opaque where every pixel of its first frame is.
pub proof fn law_opaque_entries(atlas: Atlas, e: AtlasEntry, row: int, col: int)
    requires
        0 <= row < e.frame_h,
        0 <= col < e.frame_w,
    ensures
        is_opaque(atlas, e) ==> atlas.pixels@[((e.y + row) * atlas.width + e.x) * 4 + col * 4 + 3]
            == 255,
        atlas.pixels@[((e.y + row) * atlas.width + e.x) * 4 + col * 4 + 3] != 255 ==> !is_opaque(
            atlas,
            e,
        ),
{
    assert(pixel_alpha(atlas, e, row, col) == atlas.pixels@[((e.y + row) * atlas.width + e.x) * 4
        + col * 4 + 3]);
}

/// A vertex has the light of the cell it stands in; beyond the world that of
/// the nearest cell.
pub proof fn law_vertices_take_the_nearest_light(
    grid: LightGrid,
    size: [u32; 3],
    at: [i64; 3],
    x: int,
    y: int,
    z: int,
)
    requires
        grid.size == size,
        0 <= x < size[0] && 0 <= y < size[1] && 0 <= z < size[2],
        at[0] == x || (at[0] < 0 && x == 0) || (at[0] >= size[0] && x == size[0] - 1),
        at[1] == y || (at[1] < 0 && y == 0) || (at[1] >= size[1] && y == size[1] - 1),
        at[2] == z || (at[2] < 0 && z == 0) || (at[2] >= size[2] && z == size[2] - 1),
    ensures
        Some(light_in(grid, size, at)) == grid.at(x, y, z),
{
}

/// Where there is no grid, a vertex has full sky light and no block light.
pub proof fn law_light_without_a_grid(grid: LightGrid, size: [u32; 3], at: [i64; 3])
    requires
        grid.size[0] == 0,
    ensures
        light_in(grid, size, at)@ == seq![15u8, 0u8],
{
    assert([15u8, 0u8]@ =~= seq![15u8, 0u8]);
}

/// Lighting a layer changes the light of its vertices and nothing else.
pub proof fn law_lighting_changes_light_alone(
    before: Seq<Vertex>,
    after: Seq<Vertex>,
    places: Seq<[i64; 3]>,
    grid: LightGrid,
    size: [u32; 3],
    i: int,
)
    requires
        relit(before, after, places, grid, size),
        0 <= i < before.len(),
    ensures
        after.len() == before.len(),
        after[i].light == light_in(grid, size, places[i]),
        after[i] == (Vertex { light: after[i].light, ..before[i] }),
{
}

/// The step at a tick: frames follow each other in the playback order, or in
/// that of the strip, each for its time, and start over behind the last. Only
/// blended animations have a phase, the ticks since the frame began.
pub proof fn law_frames_play_in_turn(a: AnimSlot, round: nat, i: nat, d: nat, tick: u64)
    requires
        a.frametime > 0,
        i < a.length(),
        d < a.frametime,
        tick == (round * a.length() + i) * a.frametime + d,
    ensures
        a.step_at(tick) matches Some(s) && {
            &&& a.frames@.len() == 0 ==> s.row == i
            &&& a.frames@.len() > 0 ==> s.row == a.frames@[i as int]
            &&& a.interpolate && a.length() > 1 ==> s.phase == d
            &&& !a.interpolate || a.length() == 1 ==> s.phase == 0
            &&& s.period == a.frametime
        },
{
    let q = (round * a.length() + i) as int;
    let f = a.frametime as int;
    vstd::arithmetic::div_mod::lemma_fundamental_div_mod_converse(tick as int, f, q, d as int);
    vstd::arithmetic::div_mod::lemma_fundamental_div_mod_converse(
        q,
        a.length() as int,
        round as int,
        i as int,
    );
}

/// An animation without frames has no step, and one without a time changes
/// every tick.
pub proof fn law_empty_animations_stand_still(a: AnimSlot, tick: u64)
    ensures
        a.frames@.len() == 0 && a.strip_frames == 0 ==> a.step_at(tick) is None,
        a.frametime == 0 && a.length() > 0 ==> (a.step_at(tick) matches Some(s) && s.period == 1),
        a.frames@.len() > 0 ==> a.length() == a.frames@.len(),
        a.frames@.len() == 0 ==> a.length() == a.strip_frames,
{
}

/// The slot of an animation row has the row's times and frames and the stride
/// of its sprite's entry.
pub proof fn law_slots_follow_rows(
    slot: AnimSlot,
    row: AnimRow,
    atlas: Atlas,
    registry: Registry,
    i: int,
)
    requires
        is_slot_of(slot, row, atlas, registry),
        row.0 < registry.sprite_names@.len(),
        0 <= i < atlas.entries@.len(),
        ({
            let name = registry.sprite_names@[row.0 as int];
            &&& atlas.entries@[i].0.0@ == name.0@ && atlas.entries@[i].0.1@ == name.1@
            &&& forall|k: int|
                i < k < atlas.entries@.len() ==> !((#[trigger] atlas.entries@[k]).0.0@ == name.0@
                    && atlas.entries@[k].0.1@ == name.1@)
        }),
    ensures
        slot.frame_stride == atlas.entries@[i].1.frame_stride,
        slot.frametime == row.1,
        slot.frames@ == row.2@,
        slot.strip_frames == row.3,
        slot.interpolate == row.4,
        slot.atlas_height == atlas.height,
{
    let name = registry.sprite_names@[row.0 as int];
    crate::atlas::lemma_last_entry(atlas.entries@, name.0@, name.1@, i);
}

/// The flags of the lighting stage: 1 for ambient occlusion, 2 for shadows, 4
/// for the sky, 8 for water and 16 for fog.
pub proof fn law_stages_have_flags(c: ShaderEffectConfig)
    ensures
        ({
            let f = stage_values_of(c).flags as int;
            &&& f % 2 == 1 <==> c.ssao is Some
            &&& (f / 2) % 2 == 1 <==> c.shadows is Some
            &&& (f / 4) % 2 == 1 <==> c.atmosphere is Some
            &&& (f / 8) % 2 == 1 <==> c.water is Some
            &&& (f / 16) % 2 == 1 <==> c.fog is Some
            &&& f < 32
        }),
{
}

/// The values of a stage that runs are those of its configuration.
pub proof fn law_stage_values_are_configured(c: ShaderEffectConfig)
    ensures
        ({
            let v = stage_values_of(c);
            &&& c.shadows matches Some(s) ==> v.shadow_samples == if s.samples > 16 {
                16
            } else {
                s.samples
            }
            &&& c.post matches Some(p) ==> {
                &&& p.tonemap == Tonemap::Off ==> v.tonemap == 0
                &&& p.tonemap == Tonemap::Aces ==> v.tonemap == 1
                &&& p.tonemap == Tonemap::Reinhard ==> v.tonemap == 2
            }
            &&& c.atmosphere matches Some(a) ==> v.mie_g == a.mie_g && v.sun_illuminance
                == a.sun_illuminance && v.rayleigh == a.rayleigh && v.mie == a.mie
            &&& c.water matches Some(w) ==> v.water_octaves == w.octaves && v.water_amplitude
                == w.amplitude && v.water_speed == w.speed && v.water_reflection
                == w.reflection_strength && v.absorption == w.absorption
            &&& c.fog matches Some(f) ==> v.fog_density == f.density && v.fog_tint == f.tint
            &&& c.ssao matches Some(a) ==> v.ao_strength == a.strength && v.ao_radius == a.radius
            &&& c.clouds matches Some(k) ==> v.cloud_altitude == k.altitude && v.cloud_thickness
                == k.thickness && v.cloud_coverage == k.coverage && v.cloud_steps == k.steps
                && v.cloud_density == k.density && v.cloud_wind == k.wind_speed
            &&& v.exposure == c.exposure
        }),
{
}

/// The values of a stage that does not run.
pub proof fn law_idle_stages_have_defaults(c: ShaderEffectConfig)
    ensures
        ({
            let v = stage_values_of(c);
            &&& c.shadows is None ==> v.shadow_samples == 0
            &&& c.post is None ==> v.tonemap == 0
            &&& c.atmosphere is None ==> v.mie_g.bits == 0x3f428f5c && v.sun_illuminance.bits == 0x41f00000
                && v.mie.bits == 0x37b02928 && v.rayleigh.r.bits == 0x36c29d9f && v.rayleigh.g.bits == 0x37627e0f
                && v.rayleigh.b.bits == 0x380ad4db
            &&& c.water is None ==> v.water_octaves == 4 && v.water_amplitude.bits == 0x3f000000
                && v.water_speed.bits == 0x3f800000 && v.water_reflection.bits == 0x3f19999a
                && v.absorption.r.bits == 0x3ee66666 && v.absorption.g.bits == 0x3da3d70a
                && v.absorption.b.bits == 0x3cf5c28f
            &&& c.fog is None ==> v.fog_density.bits == 0 && v.fog_tint.r.bits == 0x3f800000
                && v.fog_tint.g == v.fog_tint.r && v.fog_tint.b == v.fog_tint.r
            &&& c.ssao is None ==> v.ao_strength.bits == 0 && v.ao_radius.bits == 0x40400000
            &&& c.clouds is None ==> v.cloud_altitude.bits == 0 && v.cloud_thickness.bits == 0
                && v.cloud_coverage.bits == 0 && v.cloud_steps == 0 && v.cloud_density.bits == 0
                && v.cloud_wind.bits == 0
        }),
{
}

/// The post pass of a staged configuration: bit 4 and, with bloom, bit 2; of
/// a quality without one: all three bits for high and ultra, none below.
pub proof fn law_post_passes(c: ShaderEffectConfig, q: RenderQuality)
    ensures
        c.post matches Some(p) ==> {
            let r = post_params_of(Some(c), q);
            &&& p.bloom ==> r.flags == 6
            &&& !p.bloom ==> r.flags == 4
            &&& r.bloom_threshold == p.bloom_threshold && r.bloom_intensity == p.bloom_intensity
            &&& r.vignette == p.vignette
        },
        c.post is None ==> {
            let r = post_params_of(Some(c), q);
            r.flags == 0 && r.bloom_intensity.bits == 0 && r.vignette.bits == 0
                && r.bloom_threshold.bits == 0x3f4ccccd
        },
        ({
            let r = post_params_of(None, RenderQuality::High);
            r.flags == 7 && r.bloom_threshold.bits == 0x3f800000 && r.bloom_intensity.bits == 0x3f19999a
                && r.vignette.bits == 0x3e800000
        }),
        ({
            let r = post_params_of(None, RenderQuality::Ultra);
            r.flags == 7 && r.bloom_threshold.bits == 0x3f59999a && r.bloom_intensity.bits == 0x3f666666
                && r.vignette.bits == 0x3e99999a
        }),
        post_params_of(None, RenderQuality::Low).flags == 0,
        post_params_of(None, RenderQuality::Medium).flags == 0,
{
}

/// The scene has the size of the frame, and half of it, rounded up, at low
/// quality; never less than a pixel.
pub proof fn law_low_quality_halves_the_scene(q: RenderQuality, side: u32)
    ensures
        q != RenderQuality::Low && side > 0 ==> scene_side(q, side) == side,
        q == RenderQuality::Low && side > 0 ==> side <= 2 * scene_side(q, side) <= side + 1,
        scene_side(q, 0) == 1,
{
}

/// Rows of pixels are filled up to the next multiple of 256 bytes.
pub proof fn law_rows_are_filled_up(w: int)
    requires
        w >= 0,
    ensures
        padded(w) % 256 == 0,
        4 * w <= padded(w) < 4 * w + 256,
{
}

/// Without the filling, a row's bytes stand behind those of the row above.
pub proof fn law_filling_is_cut(data: Seq<u8>, row: int, stride: int, n: int, r: int, c: int)
    requires
        0 <= c < row <= stride,
        0 <= r < n,
        n * stride <= data.len(),
    ensures
        rows(data, row, stride, n).len() == n * row,
        rows(data, row, stride, n)[r * row + c] == data[r * stride + c],
    decreases n,
{
    let from = (n - 1) * stride;
    assert(0 <= from && from + stride == n * stride) by (nonlinear_arith)
        requires
            from == (n - 1) * stride,
            n >= 1,
            stride >= 0,
    ;
    lemma_rows_len(data, row, stride, n);
    lemma_rows_len(data, row, stride, n - 1);
    assert((n - 1) * row + row == n * row) by (nonlinear_arith);
    if r < n - 1 {
        law_filling_is_cut(data, row, stride, n - 1, r, c);
        assert(r * row + c < (n - 1) * row && r * row >= 0) by (nonlinear_arith)
            requires
                0 <= r < n - 1,
                0 <= c < row,
        ;
    } else {
        assert(r * row == (n - 1) * row && r * stride == from);
        assert(r * row >= 0) by (nonlinear_arith)
            requires
                r >= 0,
                row > 0,
        ;
    }
}

proof fn lemma_rows_len(data: Seq<u8>, row: int, stride: int, n: int)
    requires
        0 <= row <= stride,
        0 <= n,
        n * stride <= data.len(),
    ensures
        rows(data, row, stride, n).len() == n * row,
    decreases n,
{
    if n > 0 {
        let from = (n - 1) * stride;
        assert(0 <= from && from + stride == n * stride && (n - 1) * row + row == n * row)
            by (nonlinear_arith)
            requires
                from == (n - 1) * stride,
                n >= 1,
                stride >= 0,
        ;
        lemma_rows_len(data, row, stride, n - 1);
    } else {
        assert(n * row == 0) by (nonlinear_arith)
            requires
                n == 0,
        ;
    }
}

/// The plains' tint and the size of a capture.
pub proof fn law_captures_and_tints()
    ensures
        PLAINS_TINT@ == seq![145u8, 189, 89, 255],
        CAPTURE_WIDTH == 1280,
        CAPTURE_HEIGHT == 720,
{
    assert(PLAINS_TINT@ =~= seq![145u8, 189, 89, 255]);
}

} // verus!
