//! The chunk mesher: face existence, per-position variant choice, tint and
//! layer of every quad of a world.
//!
//! A vertex keeps its cell, its block-local corner and its sprite-local
//! texture coordinate apart; turning them into positions and texture
//! coordinates of the atlas is left to the reader of the mesh.

use crate::blockstates::{ModelInstance, Occlusion};
use crate::compiled::{sprite_id_spec, CompiledAppearance, RuntimeModel};
use crate::grid::{
    advance, cell_index, coords, in_grid, lemma_cell_index_bounds, lemma_cell_of_coords,
    lemma_coords_of_cell, lemma_end_index, volume, World,
};
use crate::models::{face_corners, face_corners_spec, Direction, FaceQuad, SpriteId};
use crate::registry::{
    all_matches, first_match, picked, resolve_appearance, unpacked, AppearanceRef, Registry,
};
use crate::scalar::F32;
use crate::text::{pairs_of, str_eq};
use vstd::prelude::*;

verus! {

/// One mesh vertex.
#[derive(Clone, Copy, Debug, PartialEq, Eq)]
pub struct Vertex {
    /// The block the vertex belongs to.
    pub cell: [i64; 3],
    /// Block-local corner, 0..16.
    pub corner: [F32; 3],
    /// Sprite-local texture coordinate, 0..16.
    pub uv: [F32; 2],
    /// The sprite's rectangle in the atlas: x, y, frame width, frame height.
    pub rect: [u32; 4],
    /// RGBA tint, red in the lowest byte.
    pub tint: u32,
    pub shade: u8,
    /// Animation slot; 0 = static.
    pub anim_id: u8,
    /// Light (block, sky): full brightness.
    pub light: [u8; 2],
}

/// One mesh layer's output.
#[derive(Debug)]
pub struct MeshLayer {
    pub vertices: Vec<Vertex>,
    pub indices: Vec<u32>,
}

/// Render buckets the mesher fills.
#[derive(Debug)]
pub struct MeshedChunk {
    pub opaque: MeshLayer,
    pub cutout: MeshLayer,
    pub translucent: MeshLayer,
}

/// Tint decisions: one tint for every block.
pub struct TintPolicy {
    /// RGBA tint applied to faces of tint index 0.
    pub tint0: [u8; 4],
}

/// A sprite in the atlas: x, y, frame width, frame height, frames, frame
/// stride, and whether the sprite is fully opaque.
pub type SpriteRect = (u32, u32, u32, u32, u32, u32, bool);

/// The bucket of a quad.
#[derive(Clone, Copy, Debug, PartialEq, Eq, Structural)]
pub enum Bucket {
    Opaque,
    Cutout,
    Translucent,
}

/// A quad and the bucket it goes to.
pub struct Emitted {
    pub bucket: Bucket,
    pub verts: [Vertex; 4],
}

/// Directional brightness of a face: up, down, north and south, west and east.
pub open spec fn face_shade_spec(d: Direction) -> u8 {
    match d {
        Direction::Up => 255,
        Direction::Down => 128,
        Direction::North => 204,
        Direction::South => 204,
        Direction::West => 153,
        Direction::East => 153,
    }
}

fn face_shade(d: Direction) -> (r: u8)
    ensures
        r == face_shade_spec(d),
{
    match d {
        Direction::Up => 255,
        Direction::Down => 128,
        Direction::North => 204,
        Direction::South => 204,
        Direction::West => 153,
        Direction::East => 153,
    }
}

/// The step to the neighbor in a direction.
pub open spec fn offset_of(d: Direction) -> (int, int, int) {
    match d {
        Direction::Down => (0, -1, 0),
        Direction::Up => (0, 1, 0),
        Direction::North => (0, 0, -1),
        Direction::South => (0, 0, 1),
        Direction::West => (-1, 0, 0),
        Direction::East => (1, 0, 0),
    }
}

fn cull_offset(d: Direction) -> (r: (i64, i64, i64))
    ensures
        (r.0 as int, r.1 as int, r.2 as int) == offset_of(d),
{
    match d {
        Direction::Down => (0, -1, 0),
        Direction::Up => (0, 1, 0),
        Direction::North => (0, 0, -1),
        Direction::South => (0, 0, 1),
        Direction::West => (-1, 0, 0),
        Direction::East => (1, 0, 0),
    }
}

/// Texture coordinates matching the corner order: the rectangle's corners
/// from the lower left on (v grows downward).
pub open spec fn quad_uvs_spec(uv: [F32; 4]) -> [[F32; 2]; 4] {
    [[uv[0], uv[3]], [uv[2], uv[3]], [uv[2], uv[1]], [uv[0], uv[1]]]
}

fn quad_uvs(q: &FaceQuad) -> (r: [[F32; 2]; 4])
    ensures
        r == quad_uvs_spec(q.uv),
{
    [
        [q.uv[0], q.uv[3]],
        [q.uv[2], q.uv[3]],
        [q.uv[2], q.uv[1]],
        [q.uv[0], q.uv[1]],
    ]
}

/// Per-position hash for variant selection: the coordinates are mixed into
/// one word, then scrambled by two multiply-xorshift rounds.
pub open spec fn pos_hash_spec(x: i64, y: i64, z: i64) -> u64 {
    let h0 = 0x9E37_79B9_7F4A_7C15u64 ^ (x as u64).wrapping_mul(0xBF58_476D_1CE4_E5B9) ^ (
    y as u64).wrapping_mul(0x94D0_49BB_1331_11EB) ^ (z as u64).wrapping_mul(0x2545_F491_4F6C_DD1D);
    let h1 = (h0 ^ (h0 >> 30)).wrapping_mul(0xBF58_476D_1CE4_E5B9);
    let h2 = (h1 ^ (h1 >> 27)).wrapping_mul(0x94D0_49BB_1331_11EB);
    h2 ^ (h2 >> 31)
}

pub fn pos_hash(x: i64, y: i64, z: i64) -> (r: u64)
    ensures
        r == pos_hash_spec(x, y, z),
{
    #[verifier::truncate]
    let ux: u64 = x as u64;
    #[verifier::truncate]
    let uy: u64 = y as u64;
    #[verifier::truncate]
    let uz: u64 = z as u64;
    let h0: u64 = 0x9E37_79B9_7F4A_7C15u64 ^ ux.wrapping_mul(0xBF58_476D_1CE4_E5B9)
        ^ uy.wrapping_mul(0x94D0_49BB_1331_11EB) ^ uz.wrapping_mul(0x2545_F491_4F6C_DD1D);
    let h1: u64 = (h0 ^ (h0 >> 30)).wrapping_mul(0xBF58_476D_1CE4_E5B9);
    let h2: u64 = (h1 ^ (h1 >> 27)).wrapping_mul(0x94D0_49BB_1331_11EB);
    h2 ^ (h2 >> 31)
}

/// RGBA packed with red in the lowest byte.
pub open spec fn packed_rgba(c: [u8; 4]) -> u32 {
    (c[0] + 0x100 * c[1] + 0x1_0000 * c[2] + 0x100_0000 * c[3]) as u32
}

/// The tint of a quad: the policy's color for tint index 0, white otherwise.
pub open spec fn tint_of(tint: Option<i32>, tint0: [u8; 4]) -> u32 {
    if tint == Some(0i32) {
        packed_rgba(tint0)
    } else {
        0xffff_ffff
    }
}

/// The vertex `i` of a quad at a cell.
pub open spec fn vertex_of(
    q: FaceQuad,
    rect: SpriteRect,
    tint0: [u8; 4],
    x: i64,
    y: i64,
    z: i64,
    anim_id: u8,
    i: int,
) -> Vertex {
    Vertex {
        cell: [x, y, z],
        corner: q.corners[i],
        uv: quad_uvs_spec(q.uv)[i],
        rect: [rect.0, rect.1, rect.2, rect.3],
        tint: tint_of(q.tint, tint0),
        shade: face_shade_spec(
            match q.shade_override {
                Some(d) => d,
                None => q.dir,
            },
        ),
        anim_id,
        light: [255, 255],
    }
}

/// Forced-translucent quads go to the translucent layer, fully opaque sprites
/// to the opaque one, everything else to the cutout layer.
pub open spec fn bucket_of(q: FaceQuad, rect: SpriteRect) -> Bucket {
    if q.force_translucent {
        Bucket::Translucent
    } else if rect.6 {
        Bucket::Opaque
    } else {
        Bucket::Cutout
    }
}

/// What a quad contributes: nothing where its sprite has no rectangle.
pub open spec fn emitted_of(
    rects: Seq<Option<SpriteRect>>,
    tint0: [u8; 4],
    q: FaceQuad,
    x: i64,
    y: i64,
    z: i64,
    anim_id: u8,
) -> Seq<Emitted> {
    if q.sprite.0 < rects.len() && rects[q.sprite.0 as int] is Some {
        let rect = rects[q.sprite.0 as int]->0;
        seq![
            Emitted {
                bucket: bucket_of(q, rect),
                verts: [
                    vertex_of(q, rect, tint0, x, y, z, anim_id, 0),
                    vertex_of(q, rect, tint0, x, y, z, anim_id, 1),
                    vertex_of(q, rect, tint0, x, y, z, anim_id, 2),
                    vertex_of(q, rect, tint0, x, y, z, anim_id, 3),
                ],
            },
        ]
    } else {
        Seq::empty()
    }
}

/// The vertices that a list of quads leaves in a bucket.
pub open spec fn vertices_in(list: Seq<Emitted>, bucket: Bucket) -> Seq<Vertex>
    decreases list.len(),
{
    if list.len() == 0 {
        Seq::empty()
    } else {
        let before = vertices_in(list.drop_last(), bucket);
        if list.last().bucket == bucket {
            before + list.last().verts@
        } else {
            before
        }
    }
}

/// Two triangles over the four vertices that start at `base`.
pub open spec fn quad_indices(base: u32) -> Seq<u32> {
    seq![
        base,
        (base + 1) as u32,
        (base + 2) as u32,
        base,
        (base + 2) as u32,
        (base + 3) as u32,
    ]
}

/// The indices that a list of quads leaves in a bucket.
pub open spec fn indices_in(list: Seq<Emitted>, bucket: Bucket) -> Seq<u32>
    decreases list.len(),
{
    if list.len() == 0 {
        Seq::empty()
    } else {
        let before = indices_in(list.drop_last(), bucket);
        if list.last().bucket == bucket {
            before + quad_indices(vertices_in(list.drop_last(), bucket).len() as u32)
        } else {
            before
        }
    }
}

impl MeshLayer {
    /// The layer holds what a list of quads leaves in a bucket.
    pub open spec fn holds(&self, list: Seq<Emitted>, bucket: Bucket) -> bool {
        self.vertices@ == vertices_in(list, bucket) && self.indices@ == indices_in(list, bucket)
    }

    fn push_quad(&mut self, verts: [Vertex; 4], Ghost(list): Ghost<Seq<Emitted>>, bucket: Bucket)
        requires
            old(self).holds(list, bucket),
        ensures
            final(self).holds(list.push((Emitted { bucket, verts })), bucket),
    {
        let ghost n = self.vertices.len();
        let ghost next = list.push(Emitted { bucket, verts });
        assert(next.drop_last() == list);
        proof {
            lemma_counts(list, bucket);
        }
        let len: u64 = self.vertices.len() as u64;
        proof {
            lemma_low_word(len);
        }
        #[verifier::truncate]
        let base: u32 = len as u32;
        assert(base <= 0xffff_fffc);
        self.vertices.push(verts[0]);
        self.vertices.push(verts[1]);
        self.vertices.push(verts[2]);
        self.vertices.push(verts[3]);
        self.indices.push(base);
        self.indices.push(base + 1);
        self.indices.push(base + 2);
        self.indices.push(base);
        self.indices.push(base + 2);
        self.indices.push(base + 3);
        assert(self.vertices@ == vertices_in(list, bucket) + verts@);
        assert(self.indices@ == indices_in(list, bucket) + quad_indices(base));
    }
}

proof fn lemma_low_word(n: u64)
    ensures
        n as u32 == n % 0x1_0000_0000,
{
    assert(n as u32 == n % 0x1_0000_0000) by (bit_vector);
}

/// A layer has four vertices and six indices per quad.
pub proof fn lemma_counts(list: Seq<Emitted>, bucket: Bucket)
    ensures
        vertices_in(list, bucket).len() % 4 == 0,
        indices_in(list, bucket).len() * 2 == vertices_in(list, bucket).len() * 3,
    decreases list.len(),
{
    if list.len() > 0 {
        lemma_counts(list.drop_last(), bucket);
    }
}

/// Every index of a layer names one of its vertices, and there are six
/// indices to four vertices.
pub proof fn law_indices_name_vertices(list: Seq<Emitted>, bucket: Bucket)
    requires
        vertices_in(list, bucket).len() <= 0x1_0000_0000,
    ensures
        indices_in(list, bucket).len() * 2 == vertices_in(list, bucket).len() * 3,
        forall|i: int|
            0 <= i < indices_in(list, bucket).len() ==> #[trigger] indices_in(list, bucket)[i]
                < vertices_in(list, bucket).len(),
    decreases list.len(),
{
    lemma_counts(list, bucket);
    if list.len() > 0 {
        law_indices_name_vertices(list.drop_last(), bucket);
        lemma_counts(list.drop_last(), bucket);
    }
}

impl MeshedChunk {
    pub open spec fn holds(&self, list: Seq<Emitted>) -> bool {
        &&& self.opaque.holds(list, Bucket::Opaque)
        &&& self.cutout.holds(list, Bucket::Cutout)
        &&& self.translucent.holds(list, Bucket::Translucent)
    }
}

/// A quad of another bucket leaves a layer as it is.
proof fn lemma_other_bucket(list: Seq<Emitted>, e: Emitted, bucket: Bucket)
    requires
        e.bucket != bucket,
    ensures
        vertices_in(list.push(e), bucket) == vertices_in(list, bucket),
        indices_in(list.push(e), bucket) == indices_in(list, bucket),
{
    assert(list.push(e).drop_last() == list);
}

/// Emits one quad at a world position: shading, tint and layer choice.
fn emit_quad(
    out: &mut MeshedChunk,
    rects: &[Option<SpriteRect>],
    tint0: [u8; 4],
    q: &FaceQuad,
    x: i64,
    y: i64,
    z: i64,
    anim_id: u8,
    Ghost(list): Ghost<Seq<Emitted>>,
)
    requires
        old(out).holds(list),
    ensures
        final(out).holds(list + emitted_of(rects@, tint0, *q, x, y, z, anim_id)),
{
    let slot: usize = q.sprite.0 as usize;
    if slot >= rects.len() {
        assert(list + emitted_of(rects@, tint0, *q, x, y, z, anim_id) == list);
        return ;
    }
    let rect: SpriteRect = match rects[slot] {
        Some(r) => r,
        None => {
            assert(list + emitted_of(rects@, tint0, *q, x, y, z, anim_id) == list);
            return ;
        },
    };
    let uvs = quad_uvs(q);
    let shade: u8 = match q.shade_override {
        Some(d) => face_shade(d),
        None => face_shade(q.dir),
    };
    let white: u32 = 0xffff_ffff;
    let tint: u32 = match q.tint {
        Some(i) => if i == 0 {
            tint0[0] as u32 + 0x100 * tint0[1] as u32 + 0x1_0000 * tint0[2] as u32 + 0x100_0000
                * tint0[3] as u32
        } else {
            white
        },
        None => white,
    };
    let v0 = Vertex {
        cell: [x, y, z],
        corner: q.corners[0],
        uv: uvs[0],
        rect: [rect.0, rect.1, rect.2, rect.3],
        tint,
        shade,
        anim_id,
        light: [255, 255],
    };
    let v1 = Vertex { corner: q.corners[1], uv: uvs[1], ..v0 };
    let v2 = Vertex { corner: q.corners[2], uv: uvs[2], ..v0 };
    let v3 = Vertex { corner: q.corners[3], uv: uvs[3], ..v0 };
    let verts = [v0, v1, v2, v3];
    let bucket = if q.force_translucent {
        Bucket::Translucent
    } else if rect.6 {
        Bucket::Opaque
    } else {
        Bucket::Cutout
    };
    let ghost e = Emitted { bucket, verts };
    proof {
        let want = emitted_of(rects@, tint0, *q, x, y, z, anim_id);
        assert(v0 == vertex_of(*q, rect, tint0, x, y, z, anim_id, 0));
        assert(v1 == vertex_of(*q, rect, tint0, x, y, z, anim_id, 1));
        assert(v2 == vertex_of(*q, rect, tint0, x, y, z, anim_id, 2));
        assert(v3 == vertex_of(*q, rect, tint0, x, y, z, anim_id, 3));
        assert(want =~= seq![e]);
        assert(list + want =~= list.push(e));
        if bucket != Bucket::Opaque {
            lemma_other_bucket(list, e, Bucket::Opaque);
        }
        if bucket != Bucket::Cutout {
            lemma_other_bucket(list, e, Bucket::Cutout);
        }
        if bucket != Bucket::Translucent {
            lemma_other_bucket(list, e, Bucket::Translucent);
        }
    }
    match bucket {
        Bucket::Translucent => out.translucent.push_quad(verts, Ghost(list), bucket),
        Bucket::Opaque => out.opaque.push_quad(verts, Ghost(list), bucket),
        Bucket::Cutout => out.cutout.push_quad(verts, Ghost(list), bucket),
    }
}

/// A face is shown: it has no cull direction, or the neighbor there is air or
/// a known state that neither occludes nor culls its own kind. Cells outside
/// the world never expose faces.
pub open spec fn shown(
    world: World,
    registry: Registry,
    block_id: u32,
    cull: Option<Direction>,
    x: int,
    y: int,
    z: int,
) -> bool {
    match cull {
        None => true,
        Some(d) => {
            let o = offset_of(d);
            match world.lookup((x + o.0) as i64, (y + o.1) as i64, (z + o.2) as i64) {
                None => false,
                Some((nid, nstate)) => if nid == 0 {
                    true
                } else {
                    match registry.state_at(nid, nstate) {
                        None => false,
                        Some(s) => !(s.same_block_cull && nid == block_id) && s.occlusion
                            != Occlusion::Full,
                    }
                },
            }
        },
    }
}

/// What the quads of a model contribute at a cell.
pub open spec fn model_part(
    world: World,
    registry: Registry,
    rects: Seq<Option<SpriteRect>>,
    tint0: [u8; 4],
    block_id: u32,
    quads: Seq<FaceQuad>,
    x: i64,
    y: i64,
    z: i64,
) -> Seq<Emitted>
    decreases quads.len(),
{
    if quads.len() == 0 {
        Seq::empty()
    } else {
        let before = model_part(
            world,
            registry,
            rects,
            tint0,
            block_id,
            quads.drop_last(),
            x,
            y,
            z,
        );
        if shown(world, registry, block_id, quads.last().cull, x as int, y as int, z as int) {
            before + emitted_of(rects, tint0, quads.last(), x, y, z, 0)
        } else {
            before
        }
    }
}

/// What the chosen model instances contribute at a cell.
pub open spec fn instances_part(
    world: World,
    registry: Registry,
    rects: Seq<Option<SpriteRect>>,
    tint0: [u8; 4],
    block_id: u32,
    instances: Seq<ModelInstance>,
    x: i64,
    y: i64,
    z: i64,
) -> Seq<Emitted>
    decreases instances.len(),
{
    if instances.len() == 0 {
        Seq::empty()
    } else {
        let before = instances_part(
            world,
            registry,
            rects,
            tint0,
            block_id,
            instances.drop_last(),
            x,
            y,
            z,
        );
        let id = instances.last().model.0;
        if id < registry.models.len() {
            before + model_part(
                world,
                registry,
                rects,
                tint0,
                block_id,
                registry.models@[id as int].quads@,
                x,
                y,
                z,
            )
        } else {
            before
        }
    }
}

/// The instances that a compiled appearance shows.
pub open spec fn instances_of(
    a: CompiledAppearance,
    props: Seq<(Seq<char>, Seq<char>)>,
    rng: u64,
) -> Seq<ModelInstance> {
    match a {
        CompiledAppearance::Static(m) => seq![picked(m@, rng)],
        CompiledAppearance::Variants(entries) => {
            let i = first_match(entries@, props);
            if i < entries@.len() {
                seq![picked(entries@[i].1@, rng)]
            } else {
                Seq::empty()
            }
        },
        CompiledAppearance::Multipart(entries) => all_matches(entries@, props, rng),
    }
}

/// A face of still water is shown: the neighbor is neither water nor an
/// occluder, and lies in the world.
pub open spec fn fluid_shown(
    world: World,
    registry: Registry,
    d: Direction,
    x: int,
    y: int,
    z: int,
) -> bool {
    let o = offset_of(d);
    match world.lookup((x + o.0) as i64, (y + o.1) as i64, (z + o.2) as i64) {
        None => false,
        Some((nid, nstate)) => {
            &&& !(registry.block_at(nid) matches Some(b) && b.name@ == "water"@)
            &&& !(registry.state_at(nid, nstate) matches Some(s) && s.occlusion == Occlusion::Full)
        },
    }
}

/// The box of a water face: the block up to 14/16 of its height, flattened
/// onto the face.
pub open spec fn fluid_bounds(d: Direction) -> [F32; 6] {
    let o = F32 { bits: 0x0000_0000 };
    let h = F32 { bits: 0x4160_0000 };
    let f = F32 { bits: 0x4180_0000 };
    match d {
        Direction::Up => [o, h, o, f, h, f],
        Direction::Down => [o, o, o, f, o, f],
        Direction::North => [o, o, o, f, h, o],
        Direction::South => [o, o, f, f, h, f],
        Direction::West => [o, o, o, o, h, f],
        Direction::East => [f, o, o, f, h, f],
    }
}

pub open spec fn fluid_quad(d: Direction, sprite: SpriteId) -> FaceQuad {
    let o = F32 { bits: 0x0000_0000 };
    let f = F32 { bits: 0x4180_0000 };
    FaceQuad {
        bounds: fluid_bounds(d),
        corners: face_corners_spec(d, fluid_bounds(d)),
        dir: d,
        sprite,
        uv: [o, o, f, f],
        tint: None,
        cull: None,
        force_translucent: true,
        light_emission: 0,
        shade_override: None,
    }
}

/// What one water face contributes.
pub open spec fn fluid_face_part(
    world: World,
    registry: Registry,
    rects: Seq<Option<SpriteRect>>,
    d: Direction,
    sprite: SpriteId,
    anim_id: u8,
    x: i64,
    y: i64,
    z: i64,
) -> Seq<Emitted> {
    if fluid_shown(world, registry, d, x as int, y as int, z as int) {
        emitted_of(rects, [255, 255, 255, 255], fluid_quad(d, sprite), x, y, z, anim_id)
    } else {
        Seq::empty()
    }
}

/// The animation slot of a sprite, 0 where it has none.
pub open spec fn slot_of(registry: Registry, sprite: SpriteId) -> u8 {
    let i = registry.anim_index(sprite);
    if i < registry.anims.len() && i < 255 {
        (i + 1) as u8
    } else {
        0
    }
}

/// What still water contributes at a cell: its shown faces, in the order up,
/// down, north, south, west, east.
pub open spec fn fluid_part(
    world: World,
    registry: Registry,
    rects: Seq<Option<SpriteRect>>,
    sprite: SpriteId,
    x: i64,
    y: i64,
    z: i64,
) -> Seq<Emitted> {
    let a = slot_of(registry, sprite);
    fluid_face_part(world, registry, rects, Direction::Up, sprite, a, x, y, z) + fluid_face_part(
        world,
        registry,
        rects,
        Direction::Down,
        sprite,
        a,
        x,
        y,
        z,
    ) + fluid_face_part(world, registry, rects, Direction::North, sprite, a, x, y, z)
        + fluid_face_part(world, registry, rects, Direction::South, sprite, a, x, y, z)
        + fluid_face_part(world, registry, rects, Direction::West, sprite, a, x, y, z)
        + fluid_face_part(world, registry, rects, Direction::East, sprite, a, x, y, z)
}

/// What a cell contributes: its models, then, for water, its fluid faces.
pub open spec fn cell_part(
    world: World,
    registry: Registry,
    rects: Seq<Option<SpriteRect>>,
    tint0: [u8; 4],
    x: i64,
    y: i64,
    z: i64,
) -> Seq<Emitted> {
    let (id, state) = world.cell(x as int, y as int, z as int);
    match registry.state_at(id, state) {
        None => Seq::empty(),
        Some(s) => {
            let block = registry.block_at(id)->0;
            let props = unpacked(block.schema_spec(), state as int);
            let solid = instances_part(
                world,
                registry,
                rects,
                tint0,
                id,
                instances_of(s.appearance, props, pos_hash_spec(x, y, z)),
                x,
                y,
                z,
            );
            match sprite_id_spec(registry.sprite_names@, "minecraft"@, "block/water_still"@) {
                Some(sprite) => if block.name@ == "water"@ {
                    solid + fluid_part(world, registry, rects, sprite, x, y, z)
                } else {
                    solid
                },
                None => solid,
            }
        },
    }
}

/// What the first `n` cells of a world contribute, in array order.
pub open spec fn world_part(
    world: World,
    registry: Registry,
    rects: Seq<Option<SpriteRect>>,
    tint0: [u8; 4],
    n: int,
) -> Seq<Emitted>
    decreases n,
{
    if n <= 0 {
        Seq::empty()
    } else {
        let (x, y, z) = coords(world.size, n - 1);
        world_part(world, registry, rects, tint0, n - 1) + cell_part(
            world,
            registry,
            rects,
            tint0,
            x as i64,
            y as i64,
            z as i64,
        )
    }
}

fn is_shown(
    world: &World,
    registry: &Registry,
    block_id: u32,
    cull: Option<Direction>,
    x: u32,
    y: u32,
    z: u32,
) -> (r: bool)
    requires
        world.wf(),
        in_grid(world.size, x as int, y as int, z as int),
    ensures
        r == shown(*world, *registry, block_id, cull, x as int, y as int, z as int),
{
    match cull {
        None => true,
        Some(d) => {
            let (dx, dy, dz) = cull_offset(d);
            match world.get(x as i64 + dx, y as i64 + dy, z as i64 + dz) {
                None => false,
                Some((nid, nstate)) => {
                    if nid == 0 {
                        return true;
                    }
                    match registry.block_by_id(nid) {
                        None => false,
                        Some(b) => match b.state(nstate) {
                            None => false,
                            Some(s) => {
                                if s.same_block_cull && nid == block_id {
                                    false
                                } else {
                                    !s.occlusion.hides_neighbor()
                                }
                            },
                        },
                    }
                },
            }
        },
    }
}

fn is_fluid_shown(world: &World, registry: &Registry, d: Direction, x: u32, y: u32, z: u32) -> (r:
    bool)
    requires
        world.wf(),
        in_grid(world.size, x as int, y as int, z as int),
    ensures
        r == fluid_shown(*world, *registry, d, x as int, y as int, z as int),
{
    let (dx, dy, dz) = cull_offset(d);
    match world.get(x as i64 + dx, y as i64 + dy, z as i64 + dz) {
        None => false,
        Some((nid, nstate)) => match registry.block_by_id(nid) {
            None => true,
            Some(b) => {
                if str_eq(b.name.as_str(), "water") {
                    return false;
                }
                match b.state(nstate) {
                    None => true,
                    Some(s) => !s.occlusion.hides_neighbor(),
                }
            },
        },
    }
}

fn make_fluid_quad(d: Direction, sprite: SpriteId) -> (r: FaceQuad)
    ensures
        r == fluid_quad(d, sprite),
{
    let o = F32 { bits: 0x0000_0000 };
    let h = F32 { bits: 0x4160_0000 };
    let f = F32 { bits: 0x4180_0000 };
    let bounds: [F32; 6] = match d {
        Direction::Up => [o, h, o, f, h, f],
        Direction::Down => [o, o, o, f, o, f],
        Direction::North => [o, o, o, f, h, o],
        Direction::South => [o, o, f, f, h, f],
        Direction::West => [o, o, o, o, h, f],
        Direction::East => [f, o, o, f, h, f],
    };
    FaceQuad {
        bounds,
        corners: face_corners(d, bounds),
        dir: d,
        sprite,
        uv: [o, o, f, f],
        tint: None,
        cull: None,
        force_translucent: true,
        light_emission: 0,
        shade_override: None,
    }
}

fn emit_fluid_face(
    out: &mut MeshedChunk,
    rects: &[Option<SpriteRect>],
    registry: &Registry,
    world: &World,
    d: Direction,
    sprite: SpriteId,
    anim_id: u8,
    x: u32,
    y: u32,
    z: u32,
    Ghost(list): Ghost<Seq<Emitted>>,
)
    requires
        world.wf(),
        in_grid(world.size, x as int, y as int, z as int),
        old(out).holds(list),
    ensures
        final(out).holds(
            list + fluid_face_part(
                *world,
                *registry,
                rects@,
                d,
                sprite,
                anim_id,
                x as i64,
                y as i64,
                z as i64,
            ),
        ),
{
    if is_fluid_shown(world, registry, d, x, y, z) {
        let q = make_fluid_quad(d, sprite);
        emit_quad(
            out,
            rects,
            [255, 255, 255, 255],
            &q,
            x as i64,
            y as i64,
            z as i64,
            anim_id,
            Ghost(list),
        );
    } else {
        assert(list + Seq::<Emitted>::empty() == list);
    }
}

/// Still-water rendering: a 14/16-tall cube from the water sprite on the
/// translucent layer, without the faces against water and occluders.
fn emit_fluid(
    out: &mut MeshedChunk,
    rects: &[Option<SpriteRect>],
    registry: &Registry,
    world: &World,
    x: u32,
    y: u32,
    z: u32,
    sprite: SpriteId,
    Ghost(list): Ghost<Seq<Emitted>>,
)
    requires
        world.wf(),
        in_grid(world.size, x as int, y as int, z as int),
        old(out).holds(list),
    ensures
        final(out).holds(
            list + fluid_part(*world, *registry, rects@, sprite, x as i64, y as i64, z as i64),
        ),
{
    let a: u8 = match registry.anim_slot(sprite) {
        Some(s) => s,
        None => 0,
    };
    let ghost p1 = fluid_face_part(
        *world,
        *registry,
        rects@,
        Direction::Up,
        sprite,
        a,
        x as i64,
        y as i64,
        z as i64,
    );
    let ghost p2 = fluid_face_part(
        *world,
        *registry,
        rects@,
        Direction::Down,
        sprite,
        a,
        x as i64,
        y as i64,
        z as i64,
    );
    let ghost p3 = fluid_face_part(
        *world,
        *registry,
        rects@,
        Direction::North,
        sprite,
        a,
        x as i64,
        y as i64,
        z as i64,
    );
    let ghost p4 = fluid_face_part(
        *world,
        *registry,
        rects@,
        Direction::South,
        sprite,
        a,
        x as i64,
        y as i64,
        z as i64,
    );
    let ghost p5 = fluid_face_part(
        *world,
        *registry,
        rects@,
        Direction::West,
        sprite,
        a,
        x as i64,
        y as i64,
        z as i64,
    );
    let ghost p6 = fluid_face_part(
        *world,
        *registry,
        rects@,
        Direction::East,
        sprite,
        a,
        x as i64,
        y as i64,
        z as i64,
    );
    emit_fluid_face(out, rects, registry, world, Direction::Up, sprite, a, x, y, z, Ghost(list));
    let ghost l1 = list + p1;
    emit_fluid_face(out, rects, registry, world, Direction::Down, sprite, a, x, y, z, Ghost(l1));
    let ghost l2 = l1 + p2;
    emit_fluid_face(out, rects, registry, world, Direction::North, sprite, a, x, y, z, Ghost(l2));
    let ghost l3 = l2 + p3;
    emit_fluid_face(out, rects, registry, world, Direction::South, sprite, a, x, y, z, Ghost(l3));
    let ghost l4 = l3 + p4;
    emit_fluid_face(out, rects, registry, world, Direction::West, sprite, a, x, y, z, Ghost(l4));
    let ghost l5 = l4 + p5;
    emit_fluid_face(out, rects, registry, world, Direction::East, sprite, a, x, y, z, Ghost(l5));
    proof {
        lemma_regroup(list, p1, p2, p3, p4, p5, p6);
    }
}

/// Appending parts one by one appends their concatenation.
proof fn lemma_regroup<T>(
    l: Seq<T>,
    a: Seq<T>,
    b: Seq<T>,
    c: Seq<T>,
    d: Seq<T>,
    e: Seq<T>,
    f: Seq<T>,
)
    ensures
        l + a + b + c + d + e + f == l + (a + b + c + d + e + f),
{
    assert(l + a + b == l + (a + b));
    assert(l + (a + b) + c == l + (a + b + c));
    assert(l + (a + b + c) + d == l + (a + b + c + d));
    assert(l + (a + b + c + d) + e == l + (a + b + c + d + e));
    assert(l + (a + b + c + d + e) + f == l + (a + b + c + d + e + f));
}

fn emit_model(
    out: &mut MeshedChunk,
    rects: &[Option<SpriteRect>],
    registry: &Registry,
    world: &World,
    tint0: [u8; 4],
    block_id: u32,
    model: &RuntimeModel,
    x: u32,
    y: u32,
    z: u32,
    Ghost(list): Ghost<Seq<Emitted>>,
)
    requires
        world.wf(),
        in_grid(world.size, x as int, y as int, z as int),
        old(out).holds(list),
    ensures
        final(out).holds(
            list + model_part(
                *world,
                *registry,
                rects@,
                tint0,
                block_id,
                model.quads@,
                x as i64,
                y as i64,
                z as i64,
            ),
        ),
{
    let ghost part = |n: int|
        model_part(
            *world,
            *registry,
            rects@,
            tint0,
            block_id,
            model.quads@.take(n),
            x as i64,
            y as i64,
            z as i64,
        );
    let mut i: usize = 0;
    assert(list + part(0) == list);
    while i < model.quads.len()
        invariant
            world.wf(),
            in_grid(world.size, x as int, y as int, z as int),
            i <= model.quads.len(),
            out.holds(list + part(i as int)),
            forall|n: int| #[trigger]
                part(n) == model_part(
                    *world,
                    *registry,
                    rects@,
                    tint0,
                    block_id,
                    model.quads@.take(n),
                    x as i64,
                    y as i64,
                    z as i64,
                ),
        decreases model.quads.len() - i,
    {
        let q = model.quads[i];
        assert(model.quads@.take(i + 1).drop_last() == model.quads@.take(i as int));
        assert(model.quads@.take(i + 1).last() == q);
        if is_shown(world, registry, block_id, q.cull, x, y, z) {
            emit_quad(
                out,
                rects,
                tint0,
                &q,
                x as i64,
                y as i64,
                z as i64,
                0,
                Ghost(list + part(i as int)),
            );
            assert(list + part(i as int) + emitted_of(
                rects@,
                tint0,
                q,
                x as i64,
                y as i64,
                z as i64,
                0,
            ) == list + part(i + 1));
        } else {
            assert(part(i + 1) == part(i as int));
        }
        i += 1;
    }
    assert(model.quads@.take(model.quads@.len() as int) == model.quads@);
}

fn emit_cell(
    out: &mut MeshedChunk,
    rects: &[Option<SpriteRect>],
    registry: &Registry,
    world: &World,
    tint0: [u8; 4],
    x: u32,
    y: u32,
    z: u32,
    Ghost(list): Ghost<Seq<Emitted>>,
)
    requires
        world.wf(),
        in_grid(world.size, x as int, y as int, z as int),
        old(out).holds(list),
    ensures
        final(out).holds(
            list + cell_part(*world, *registry, rects@, tint0, x as i64, y as i64, z as i64),
        ),
{
    let ghost whole = cell_part(*world, *registry, rects@, tint0, x as i64, y as i64, z as i64);
    assert(list + Seq::<Emitted>::empty() == list);
    let (block_id, state_id) = match world.get(x as i64, y as i64, z as i64) {
        Some(c) => c,
        None => {
            return ;
        },
    };
    if block_id == 0 {
        return ;
    }
    let block = match registry.block_by_id(block_id) {
        Some(b) => b,
        None => {
            return ;
        },
    };
    let state = match block.state(state_id) {
        Some(s) => s,
        None => {
            return ;
        },
    };
    let props = block.unpack_state(state_id);
    let appearance = match &state.appearance {
        CompiledAppearance::Static(m) => AppearanceRef::Static(m.as_slice()),
        CompiledAppearance::Variants(v) => AppearanceRef::Variants(v.as_slice()),
        CompiledAppearance::Multipart(v) => AppearanceRef::Multipart(v.as_slice()),
    };
    let instances = resolve_appearance(
        appearance,
        &props,
        pos_hash(x as i64, y as i64, z as i64),
    );
    assert(instances@ == instances_of(
        state.appearance,
        pairs_of(props@),
        pos_hash_spec(x as i64, y as i64, z as i64),
    ));
    let ghost part = |n: int|
        instances_part(
            *world,
            *registry,
            rects@,
            tint0,
            block_id,
            instances@.take(n),
            x as i64,
            y as i64,
            z as i64,
        );
    let mut i: usize = 0;
    assert(list + part(0) == list);
    while i < instances.len()
        invariant
            world.wf(),
            in_grid(world.size, x as int, y as int, z as int),
            i <= instances.len(),
            out.holds(list + part(i as int)),
            forall|n: int| #[trigger]
                part(n) == instances_part(
                    *world,
                    *registry,
                    rects@,
                    tint0,
                    block_id,
                    instances@.take(n),
                    x as i64,
                    y as i64,
                    z as i64,
                ),
        decreases instances.len() - i,
    {
        assert(instances@.take(i + 1).drop_last() == instances@.take(i as int));
        assert(instances@.take(i + 1).last() == instances@[i as int]);
        match registry.model(instances[i].model) {
            Some(model) => {
                emit_model(
                    out,
                    rects,
                    registry,
                    world,
                    tint0,
                    block_id,
                    model,
                    x,
                    y,
                    z,
                    Ghost(list + part(i as int)),
                );
                assert(list + part(i as int) + model_part(
                    *world,
                    *registry,
                    rects@,
                    tint0,
                    block_id,
                    model.quads@,
                    x as i64,
                    y as i64,
                    z as i64,
                ) == list + part(i + 1));
            },
            None => {
                assert(part(i + 1) == part(i as int));
            },
        }
        i += 1;
    }
    assert(instances@.take(instances@.len() as int) == instances@);
    let ghost solid = part(instances@.len() as int);
    if str_eq(block.name.as_str(), "water") {
        if let Some(sprite) = registry.sprite_id_by_name("minecraft", "block/water_still") {
            emit_fluid(out, rects, registry, world, x, y, z, sprite, Ghost(list + solid));
            assert(list + solid + fluid_part(
                *world,
                *registry,
                rects@,
                sprite,
                x as i64,
                y as i64,
                z as i64,
            ) == list + whole);
        }
    }
}

/// Meshes one world. `rects` gives each sprite id its place in the atlas.
pub fn mesh_world(
    world: &World,
    registry: &Registry,
    rects: &[Option<SpriteRect>],
    tint: &TintPolicy,
) -> (r: MeshedChunk)
    requires
        world.wf(),
    ensures
        r.holds(world_part(*world, *registry, rects@, tint.tint0, volume(world.size))),
{
    let mut out = MeshedChunk {
        opaque: MeshLayer { vertices: Vec::new(), indices: Vec::new() },
        cutout: MeshLayer { vertices: Vec::new(), indices: Vec::new() },
        translucent: MeshLayer { vertices: Vec::new(), indices: Vec::new() },
    };
    let n: usize = world.blocks.len();
    let mut x: u32 = 0;
    let mut y: u32 = 0;
    let mut z: u32 = 0;
    let mut i: usize = 0;
    proof {
        lemma_end_index(world.size);
    }
    assert(n > 0 ==> in_grid(world.size, 0, 0, 0)) by {
        if n > 0 {
            lemma_cell_of_coords(world.size, 0);
        }
    }
    while i < n
        invariant
            world.wf(),
            n == volume(world.size),
            i <= n,
            i < n ==> in_grid(world.size, x as int, y as int, z as int),
            i == cell_index(world.size, x as int, y as int, z as int),
            out.holds(world_part(*world, *registry, rects@, tint.tint0, i as int)),
        decreases n - i,
    {
        proof {
            lemma_coords_of_cell(world.size, x as int, y as int, z as int);
            lemma_end_index(world.size);
        }
        emit_cell(
            &mut out,
            rects,
            registry,
            world,
            tint.tint0,
            x,
            y,
            z,
            Ghost(world_part(*world, *registry, rects@, tint.tint0, i as int)),
        );
        let next = advance(world.size, x, y, z);
        x = next.0;
        y = next.1;
        z = next.2;
        i += 1;
    }
    out
}

/// The neighbor in a direction hides the face toward it: it lies outside the
/// world, or its state is a known occluder.
pub open spec fn covered(
    world: World,
    registry: Registry,
    d: Direction,
    x: int,
    y: int,
    z: int,
) -> bool {
    let o = offset_of(d);
    match world.lookup((x + o.0) as i64, (y + o.1) as i64, (z + o.2) as i64) {
        None => true,
        Some((nid, nstate)) => nid != 0 && (registry.state_at(nid, nstate) matches Some(s)
            && s.occlusion == Occlusion::Full),
    }
}

/// A buried model contributes nothing: if every quad has a cull direction and
/// every neighbor covers the cell, no quad is emitted.
pub proof fn law_buried_model_emits_nothing(
    world: World,
    registry: Registry,
    rects: Seq<Option<SpriteRect>>,
    tint0: [u8; 4],
    block_id: u32,
    quads: Seq<FaceQuad>,
    x: i64,
    y: i64,
    z: i64,
)
    requires
        forall|i: int| 0 <= i < quads.len() ==> (#[trigger] quads[i]).cull is Some,
        forall|d: Direction| #[trigger]
            covered(world, registry, d, x as int, y as int, z as int),
    ensures
        model_part(world, registry, rects, tint0, block_id, quads, x, y, z)
            == Seq::<Emitted>::empty(),
    decreases quads.len(),
{
    if quads.len() > 0 {
        law_buried_model_emits_nothing(
            world,
            registry,
            rects,
            tint0,
            block_id,
            quads.drop_last(),
            x,
            y,
            z,
        );
        let last = quads[quads.len() - 1];
        assert(covered(world, registry, last.cull->0, x as int, y as int, z as int));
    }
}

/// Water that is closed in on all sides, by water, occluders or the edge of
/// the world, contributes nothing.
pub proof fn law_buried_water_emits_nothing(
    world: World,
    registry: Registry,
    rects: Seq<Option<SpriteRect>>,
    sprite: SpriteId,
    x: i64,
    y: i64,
    z: i64,
)
    requires
        forall|d: Direction| !#[trigger]
            fluid_shown(world, registry, d, x as int, y as int, z as int),
    ensures
        fluid_part(world, registry, rects, sprite, x, y, z) == Seq::<Emitted>::empty(),
{
}

/// A face is culled by the cell that it looks at: above, below, to the north
/// (smaller z), the south (greater z), the west (smaller x) or the east
/// (greater x). It is seen exactly where that cell lies in the world and holds
/// air, or a known state that neither occludes nor culls its own kind. A face
/// without a cull direction is always seen.
pub proof fn law_faces_look_at_their_neighbors(
    world: World,
    registry: Registry,
    block_id: u32,
    x: int,
    y: int,
    z: int,
)
    ensures
        ({
            let seen = |c: Option<(u32, u32)>|
                match c {
                    None => false,
                    Some((nid, nstate)) => nid == 0 || (registry.state_at(nid, nstate) matches Some(
                        s,
                    ) && s.occlusion == Occlusion::Never && !(s.same_block_cull && nid
                        == block_id)),
                };
            &&& shown(world, registry, block_id, None, x, y, z)
            &&& shown(world, registry, block_id, Some(Direction::Up), x, y, z) == seen(
                world.lookup(x as i64, (y + 1) as i64, z as i64),
            )
            &&& shown(world, registry, block_id, Some(Direction::Down), x, y, z) == seen(
                world.lookup(x as i64, (y - 1) as i64, z as i64),
            )
            &&& shown(world, registry, block_id, Some(Direction::North), x, y, z) == seen(
                world.lookup(x as i64, y as i64, (z - 1) as i64),
            )
            &&& shown(world, registry, block_id, Some(Direction::South), x, y, z) == seen(
                world.lookup(x as i64, y as i64, (z + 1) as i64),
            )
            &&& shown(world, registry, block_id, Some(Direction::West), x, y, z) == seen(
                world.lookup((x - 1) as i64, y as i64, z as i64),
            )
            &&& shown(world, registry, block_id, Some(Direction::East), x, y, z) == seen(
                world.lookup((x + 1) as i64, y as i64, z as i64),
            )
        }),
{
}

/// A quad that looks up or down is emitted or not by the cells above and
/// below alone: over a full occluder and under air, a cube shows its top and
/// not its bottom.
pub proof fn law_ground_shows_its_top(
    world: World,
    registry: Registry,
    rects: Seq<Option<SpriteRect>>,
    tint0: [u8; 4],
    block_id: u32,
    top: FaceQuad,
    bottom: FaceQuad,
    x: i64,
    y: i64,
    z: i64,
)
    requires
        0 < y < i64::MAX,
        top.cull == Some(Direction::Up),
        bottom.cull == Some(Direction::Down),
        world.lookup(x, (y + 1) as i64, z) matches Some((id, _)) && id == 0,
        world.lookup(x, (y - 1) as i64, z) is None || (world.lookup(x, (y - 1) as i64, z) matches Some(
            (id, state),
        ) && id != 0 && (registry.state_at(id, state) matches Some(s) && s.occlusion
            == Occlusion::Full)),
        top.sprite.0 < rects.len(),
        rects[top.sprite.0 as int] is Some,
    ensures
        model_part(world, registry, rects, tint0, block_id, seq![bottom, top], x, y, z).len() == 1,
        model_part(
            world,
            registry,
            rects,
            tint0,
            block_id,
            seq![bottom, top],
            x,
            y,
            z,
        )[0].verts[0].corner == top.corners[0],
        model_part(world, registry, rects, tint0, block_id, seq![bottom], x, y, z).len() == 0,
{
    reveal_with_fuel(model_part, 3);
    assert(seq![bottom, top].drop_last() =~= seq![bottom]);
    assert(seq![bottom].drop_last() =~= Seq::<FaceQuad>::empty());
    law_faces_look_at_their_neighbors(world, registry, block_id, x as int, y as int, z as int);
}

/// The quads of a model are emitted one by one, in their order: a list gives
/// what its first part gives and then what the rest gives.
pub proof fn law_models_emit_quad_by_quad(
    world: World,
    registry: Registry,
    rects: Seq<Option<SpriteRect>>,
    tint0: [u8; 4],
    block_id: u32,
    a: Seq<FaceQuad>,
    b: Seq<FaceQuad>,
    x: i64,
    y: i64,
    z: i64,
)
    ensures
        model_part(world, registry, rects, tint0, block_id, a + b, x, y, z) == model_part(
            world,
            registry,
            rects,
            tint0,
            block_id,
            a,
            x,
            y,
            z,
        ) + model_part(world, registry, rects, tint0, block_id, b, x, y, z),
    decreases b.len(),
{
    if b.len() == 0 {
        assert(a + b =~= a);
    } else {
        law_models_emit_quad_by_quad(
            world,
            registry,
            rects,
            tint0,
            block_id,
            a,
            b.drop_last(),
            x,
            y,
            z,
        );
        assert((a + b).drop_last() =~= a + b.drop_last());
        assert((a + b).last() == b.last());
    }
}

/// A quad is emitted once where it is seen and its sprite has a place, and not
/// at all otherwise.
pub proof fn law_seen_quads_are_emitted_once(
    world: World,
    registry: Registry,
    rects: Seq<Option<SpriteRect>>,
    tint0: [u8; 4],
    block_id: u32,
    q: FaceQuad,
    x: i64,
    y: i64,
    z: i64,
)
    ensures
        ({
            let placed = q.sprite.0 < rects.len() && rects[q.sprite.0 as int] is Some;
            model_part(world, registry, rects, tint0, block_id, seq![q], x, y, z).len() == if placed
                && shown(world, registry, block_id, q.cull, x as int, y as int, z as int) {
                1nat
            } else {
                0
            }
        }),
{
    reveal_with_fuel(model_part, 2);
    assert(seq![q].drop_last() =~= Seq::<FaceQuad>::empty());
}

/// What a quad's vertices carry: the cell and its corners; the sprite's place
/// in the atlas; the texture rectangle with its lower edge on the first two
/// corners and its left edge on the first and the last; the tint policy's
/// color, red in the lowest byte, for tint index 0 and white otherwise; the
/// brightness of the side it looks to, or of the side that it is shaded as;
/// and full light. It goes to the translucent layer where it is forced there,
/// else to the opaque layer where its sprite is opaque, else to the cutout
/// layer.
pub proof fn law_vertices_carry_their_quad(
    rects: Seq<Option<SpriteRect>>,
    tint0: [u8; 4],
    q: FaceQuad,
    x: i64,
    y: i64,
    z: i64,
    anim_id: u8,
    i: int,
)
    requires
        q.sprite.0 < rects.len(),
        rects[q.sprite.0 as int] is Some,
        0 <= i < 4,
    ensures
        ({
            let rect = rects[q.sprite.0 as int]->0;
            let e = emitted_of(rects, tint0, q, x, y, z, anim_id)[0];
            let v = e.verts[i];
            let side = match q.shade_override {
                Some(d) => d,
                None => q.dir,
            };
            &&& emitted_of(rects, tint0, q, x, y, z, anim_id).len() == 1
            &&& v.cell@ == seq![x, y, z]
            &&& v.corner == q.corners[i]
            &&& v.rect@ == seq![rect.0, rect.1, rect.2, rect.3]
            &&& v.uv[0] == (if i == 0 || i == 3 {
                q.uv[0]
            } else {
                q.uv[2]
            })
            &&& v.uv[1] == (if i == 0 || i == 1 {
                q.uv[3]
            } else {
                q.uv[1]
            })
            &&& q.tint == Some(0i32) ==> v.tint % 256 == tint0[0] && v.tint / 256 % 256 == tint0[1]
                && v.tint / 65536 % 256 == tint0[2] && v.tint / 16777216 == tint0[3]
            &&& q.tint != Some(0i32) ==> v.tint == 4294967295
            &&& side == Direction::Up ==> v.shade == 255
            &&& side == Direction::Down ==> v.shade == 128
            &&& side == Direction::North || side == Direction::South ==> v.shade == 204
            &&& side == Direction::West || side == Direction::East ==> v.shade == 153
            &&& v.anim_id == anim_id
            &&& v.light@ == seq![255u8, 255]
            &&& e.bucket == Bucket::Translucent <==> q.force_translucent
            &&& e.bucket == Bucket::Opaque <==> !q.force_translucent && rect.6
            &&& e.bucket == Bucket::Cutout <==> !q.force_translucent && !rect.6
        }),
{
}

/// A list of quads without those of the other buckets.
pub open spec fn of_bucket(list: Seq<Emitted>, bucket: Bucket) -> Seq<Emitted> {
    list.filter(|e: Emitted| e.bucket == bucket)
}

/// A layer holds the quads of its bucket in their order, four vertices each,
/// and draws each as the two triangles of its corners 0, 1, 2 and 0, 2, 3.
pub proof fn law_layers_draw_their_quads(list: Seq<Emitted>, bucket: Bucket, k: int, j: int)
    requires
        0 <= k < of_bucket(list, bucket).len(),
        0 <= j < 6,
        4 * of_bucket(list, bucket).len() <= u32::MAX,
    ensures
        vertices_in(list, bucket).len() == 4 * of_bucket(list, bucket).len(),
        indices_in(list, bucket).len() == 6 * of_bucket(list, bucket).len(),
        j < 4 ==> vertices_in(list, bucket)[4 * k + j] == of_bucket(list, bucket)[k].verts[j],
        indices_in(list, bucket)[6 * k + j] == 4 * k + (if j == 0 || j == 3 {
            0int
        } else if j == 1 {
            1
        } else if j == 2 || j == 4 {
            2
        } else {
            3
        }),
    decreases list.len(),
{
    lemma_layer_counts(list, bucket);
    if list.len() > 0 {
        let front = list.drop_last();
        lemma_layer_counts(front, bucket);
        reveal(Seq::filter);
        if k < of_bucket(front, bucket).len() {
            law_layers_draw_their_quads(front, bucket, k, j);
        }
    }
}

proof fn lemma_layer_counts(list: Seq<Emitted>, bucket: Bucket)
    ensures
        vertices_in(list, bucket).len() == 4 * of_bucket(list, bucket).len(),
        indices_in(list, bucket).len() == 6 * of_bucket(list, bucket).len(),
    decreases list.len(),
{
    reveal(Seq::filter);
    if list.len() > 0 {
        lemma_layer_counts(list.drop_last(), bucket);
    }
}

/// A face of still water is seen exactly where the cell that it looks at lies
/// in the world and holds neither water nor an occluder.
pub proof fn law_water_looks_at_its_neighbors(world: World, registry: Registry, x: int, y: int, z: int)
    ensures
        ({
            let seen = |c: Option<(u32, u32)>|
                c matches Some((nid, nstate)) && !(registry.block_at(nid) matches Some(b)
                    && b.name@ == "water"@) && !(registry.state_at(nid, nstate) matches Some(s)
                    && s.occlusion == Occlusion::Full);
            &&& fluid_shown(world, registry, Direction::Up, x, y, z) == seen(
                world.lookup(x as i64, (y + 1) as i64, z as i64),
            )
            &&& fluid_shown(world, registry, Direction::Down, x, y, z) == seen(
                world.lookup(x as i64, (y - 1) as i64, z as i64),
            )
            &&& fluid_shown(world, registry, Direction::North, x, y, z) == seen(
                world.lookup(x as i64, y as i64, (z - 1) as i64),
            )
            &&& fluid_shown(world, registry, Direction::South, x, y, z) == seen(
                world.lookup(x as i64, y as i64, (z + 1) as i64),
            )
            &&& fluid_shown(world, registry, Direction::West, x, y, z) == seen(
                world.lookup((x - 1) as i64, y as i64, z as i64),
            )
            &&& fluid_shown(world, registry, Direction::East, x, y, z) == seen(
                world.lookup((x + 1) as i64, y as i64, z as i64),
            )
        }),
{
}

/// Water is drawn translucent and untinted, with the whole sprite, up to
/// fourteen sixteenths of the block and over all of its ground.
pub proof fn law_water_faces_are_low(d: Direction, sprite: SpriteId, i: int)
    requires
        0 <= i < 4,
    ensures
        ({
            let q = fluid_quad(d, sprite);
            let zero = F32 { bits: 0 };
            let full = F32 { bits: 0x4180_0000 };
            let top = F32 { bits: 0x4160_0000 };
            let c = q.corners[i];
            &&& q.dir == d && q.sprite == sprite && q.force_translucent && q.tint is None
                && q.cull is None && q.shade_override is None
            &&& q.uv@ == seq![zero, zero, full, full]
            &&& c[0] == zero || c[0] == full
            &&& c[1] == zero || c[1] == top
            &&& c[2] == zero || c[2] == full
            &&& d == Direction::Up ==> c[1] == top
            &&& d == Direction::Down ==> c[1] == zero
            &&& d == Direction::North ==> c[2] == zero
            &&& d == Direction::South ==> c[2] == full
            &&& d == Direction::West ==> c[0] == zero
            &&& d == Direction::East ==> c[0] == full
        }),
{
}

proof fn lemma_model_cells(
    world: World,
    registry: Registry,
    rects: Seq<Option<SpriteRect>>,
    tint0: [u8; 4],
    block_id: u32,
    quads: Seq<FaceQuad>,
    x: i64,
    y: i64,
    z: i64,
)
    ensures
        forall|k: int, i: int| #![trigger model_part(world, registry, rects, tint0, block_id, quads, x, y, z)[k].verts[i]]
            0 <= k < model_part(world, registry, rects, tint0, block_id, quads, x, y, z).len() && 0
                <= i < 4 ==> model_part(
                world,
                registry,
                rects,
                tint0,
                block_id,
                quads,
                x,
                y,
                z,
            )[k].verts[i].cell == [x, y, z],
    decreases quads.len(),
{
    if quads.len() > 0 {
        lemma_model_cells(world, registry, rects, tint0, block_id, quads.drop_last(), x, y, z);
    }
}

proof fn lemma_instance_cells(
    world: World,
    registry: Registry,
    rects: Seq<Option<SpriteRect>>,
    tint0: [u8; 4],
    block_id: u32,
    instances: Seq<ModelInstance>,
    x: i64,
    y: i64,
    z: i64,
)
    ensures
        forall|k: int, i: int| #![trigger instances_part(world, registry, rects, tint0, block_id, instances, x, y, z)[k].verts[i]]
            0 <= k < instances_part(world, registry, rects, tint0, block_id, instances, x, y, z).len()
                && 0 <= i < 4 ==> instances_part(
                world,
                registry,
                rects,
                tint0,
                block_id,
                instances,
                x,
                y,
                z,
            )[k].verts[i].cell == [x, y, z],
    decreases instances.len(),
{
    if instances.len() > 0 {
        lemma_instance_cells(
            world,
            registry,
            rects,
            tint0,
            block_id,
            instances.drop_last(),
            x,
            y,
            z,
        );
        let id = instances.last().model.0;
        if id < registry.models.len() {
            lemma_model_cells(
                world,
                registry,
                rects,
                tint0,
                block_id,
                registry.models@[id as int].quads@,
                x,
                y,
                z,
            );
        }
    }
}

/// Whatever a cell shows stands in that cell.
pub proof fn law_quads_stand_in_their_cell(
    world: World,
    registry: Registry,
    rects: Seq<Option<SpriteRect>>,
    tint0: [u8; 4],
    x: i64,
    y: i64,
    z: i64,
    k: int,
    i: int,
)
    requires
        0 <= k < cell_part(world, registry, rects, tint0, x, y, z).len(),
        0 <= i < 4,
    ensures
        cell_part(world, registry, rects, tint0, x, y, z)[k].verts[i].cell@ == seq![x, y, z],
{
    let (id, state) = world.cell(x as int, y as int, z as int);
    if let Some(s) = registry.state_at(id, state) {
        let block = registry.block_at(id)->0;
        let props = unpacked(block.schema_spec(), state as int);
        lemma_instance_cells(
            world,
            registry,
            rects,
            tint0,
            id,
            instances_of(s.appearance, props, pos_hash_spec(x, y, z)),
            x,
            y,
            z,
        );
    }
}

/// Every cell of a world is meshed, in the order of x within z within y: the
/// quads of cell `(x, y, z)` follow those of all cells before it and come
/// before those of the cells behind it.
pub proof fn law_every_cell_is_meshed(
    world: World,
    registry: Registry,
    rects: Seq<Option<SpriteRect>>,
    tint0: [u8; 4],
    x: int,
    y: int,
    z: int,
)
    requires
        in_grid(world.size, x, y, z),
    ensures
        ({
            let i = (y * world.size[2] + z) * world.size[0] + x;
            let before = world_part(world, registry, rects, tint0, i);
            let cell = cell_part(world, registry, rects, tint0, x as i64, y as i64, z as i64);
            let all = world_part(
                world,
                registry,
                rects,
                tint0,
                world.size[0] * world.size[1] * world.size[2],
            );
            &&& before.len() + cell.len() <= all.len()
            &&& all.subrange(before.len() as int, (before.len() + cell.len()) as int) == cell
            &&& all.take(before.len() as int) == before
        }),
{
    lemma_coords_of_cell(world.size, x, y, z);
    lemma_cell_index_bounds(world.size, x, y, z);
    let i = cell_index(world.size, x, y, z);
    let before = world_part(world, registry, rects, tint0, i);
    let cell = cell_part(world, registry, rects, tint0, x as i64, y as i64, z as i64);
    let next = world_part(world, registry, rects, tint0, i + 1);
    let all = world_part(world, registry, rects, tint0, volume(world.size));
    lemma_world_step(world, registry, rects, tint0, i + 1);
    lemma_world_grows(world, registry, rects, tint0, i + 1, volume(world.size));
    lemma_stretch(all, before, cell);
}

/// A list that begins with two others holds the second behind the first.
proof fn lemma_stretch<T>(all: Seq<T>, a: Seq<T>, b: Seq<T>)
    requires
        (a + b).len() <= all.len(),
        all.take((a + b).len() as int) == a + b,
    ensures
        all.subrange(a.len() as int, (a.len() + b.len()) as int) == b,
        all.take(a.len() as int) == a,
{
    let front = all.take((a + b).len() as int);
    assert(all.subrange(a.len() as int, (a.len() + b.len()) as int) =~= b) by {
        assert forall|j: int| 0 <= j < b.len() implies all[a.len() + j] == b[j] by {
            assert(front[a.len() + j] == all[a.len() + j]);
        }
    }
    assert(all.take(a.len() as int) =~= a) by {
        assert forall|j: int| 0 <= j < a.len() implies all[j] == a[j] by {
            assert(front[j] == all[j]);
        }
    }
}

proof fn lemma_world_step(
    world: World,
    registry: Registry,
    rects: Seq<Option<SpriteRect>>,
    tint0: [u8; 4],
    n: int,
)
    requires
        n > 0,
    ensures
        ({
            let (x, y, z) = coords(world.size, n - 1);
            world_part(world, registry, rects, tint0, n) == world_part(
                world,
                registry,
                rects,
                tint0,
                n - 1,
            ) + cell_part(world, registry, rects, tint0, x as i64, y as i64, z as i64)
        }),
{
}

proof fn lemma_world_grows(
    world: World,
    registry: Registry,
    rects: Seq<Option<SpriteRect>>,
    tint0: [u8; 4],
    n: int,
    m: int,
)
    requires
        0 <= n <= m,
    ensures
        ({
            let a = world_part(world, registry, rects, tint0, n);
            let b = world_part(world, registry, rects, tint0, m);
            a.len() <= b.len() && b.take(a.len() as int) == a
        }),
    decreases m - n,
{
    let a = world_part(world, registry, rects, tint0, n);
    let b = world_part(world, registry, rects, tint0, m);
    if n == m {
        assert(b.take(a.len() as int) =~= a);
    } else {
        lemma_world_grows(world, registry, rects, tint0, n, m - 1);
        let c = world_part(world, registry, rects, tint0, m - 1);
        assert(b.take(a.len() as int) =~= c.take(a.len() as int));
    }
}

/// Multiplying by a number that has an inverse tells all words apart.
proof fn lemma_inverse_tells_apart(a: u64, b: u64, c: u64, inverse: u64)
    requires
        (c as int * inverse as int) % 0x1_0000_0000_0000_0000 == 1,
        a.wrapping_mul(c) == b.wrapping_mul(c),
    ensures
        a == b,
{
    let m = 0x1_0000_0000_0000_0000int;
    let (x, y, k, i) = (a as int, b as int, c as int, inverse as int);
    assert((x * k) % m == (y * k) % m);
    vstd::arithmetic::div_mod::lemma_mul_mod_noop_left(x * k, i, m);
    vstd::arithmetic::div_mod::lemma_mul_mod_noop_left(y * k, i, m);
    assert((x * k) * i == x * (k * i)) by (nonlinear_arith);
    assert((y * k) * i == y * (k * i)) by (nonlinear_arith);
    vstd::arithmetic::div_mod::lemma_mul_mod_noop_right(x, k * i, m);
    vstd::arithmetic::div_mod::lemma_mul_mod_noop_right(y, k * i, m);
    assert((x * 1) % m == x && (y * 1) % m == y);
}

/// The two rounds of scrambling tell all words apart.
proof fn lemma_scrambling_tells_apart(a: u64, b: u64)
    requires
        ({
            let a1 = (a ^ (a >> 30)).wrapping_mul(0xBF58_476D_1CE4_E5B9);
            let a2 = (a1 ^ (a1 >> 27)).wrapping_mul(0x94D0_49BB_1331_11EB);
            let b1 = (b ^ (b >> 30)).wrapping_mul(0xBF58_476D_1CE4_E5B9);
            let b2 = (b1 ^ (b1 >> 27)).wrapping_mul(0x94D0_49BB_1331_11EB);
            a2 ^ (a2 >> 31) == b2 ^ (b2 >> 31)
        }),
    ensures
        a == b,
{
    let a1 = (a ^ (a >> 30)).wrapping_mul(0xBF58_476D_1CE4_E5B9);
    let a2 = (a1 ^ (a1 >> 27)).wrapping_mul(0x94D0_49BB_1331_11EB);
    let b1 = (b ^ (b >> 30)).wrapping_mul(0xBF58_476D_1CE4_E5B9);
    let b2 = (b1 ^ (b1 >> 27)).wrapping_mul(0x94D0_49BB_1331_11EB);
    assert(a2 ^ (a2 >> 31) == b2 ^ (b2 >> 31) ==> a2 == b2) by (bit_vector);
    lemma_inverse_tells_apart(
        a1 ^ (a1 >> 27),
        b1 ^ (b1 >> 27),
        0x94D0_49BB_1331_11EB,
        0x3196_42b2_d24d_8ec3,
    );
    assert(a1 ^ (a1 >> 27) == b1 ^ (b1 >> 27) ==> a1 == b1) by (bit_vector);
    lemma_inverse_tells_apart(
        a ^ (a >> 30),
        b ^ (b >> 30),
        0xBF58_476D_1CE4_E5B9,
        0x96de_1b17_3f11_9089,
    );
    assert(a ^ (a >> 30) == b ^ (b >> 30) ==> a == b) by (bit_vector);
}

/// Each coordinate counts: places that differ in one of them have different
/// hashes.
pub proof fn law_hash_tells_places_apart(x: i64, y: i64, z: i64, other: i64)
    ensures
        pos_hash_spec(x, y, z) == pos_hash_spec(other, y, z) ==> x == other,
        pos_hash_spec(x, y, z) == pos_hash_spec(x, other, z) ==> y == other,
        pos_hash_spec(x, y, z) == pos_hash_spec(x, y, other) ==> z == other,
{
    let seed = 0x9E37_79B9_7F4A_7C15u64;
    let (p, q, r) = (
        (x as u64).wrapping_mul(0xBF58_476D_1CE4_E5B9),
        (y as u64).wrapping_mul(0x94D0_49BB_1331_11EB),
        (z as u64).wrapping_mul(0x2545_F491_4F6C_DD1D),
    );
    let (p2, q2, r2) = (
        (other as u64).wrapping_mul(0xBF58_476D_1CE4_E5B9),
        (other as u64).wrapping_mul(0x94D0_49BB_1331_11EB),
        (other as u64).wrapping_mul(0x2545_F491_4F6C_DD1D),
    );
    assert(x as u64 == other as u64 ==> x == other) by (bit_vector);
    assert(y as u64 == other as u64 ==> y == other) by (bit_vector);
    assert(z as u64 == other as u64 ==> z == other) by (bit_vector);
    if pos_hash_spec(x, y, z) == pos_hash_spec(other, y, z) {
        lemma_scrambling_tells_apart(seed ^ p ^ q ^ r, seed ^ p2 ^ q ^ r);
        assert(seed ^ p ^ q ^ r == seed ^ p2 ^ q ^ r ==> p == p2) by (bit_vector);
        lemma_inverse_tells_apart(
            x as u64,
            other as u64,
            0xBF58_476D_1CE4_E5B9,
            0x96de_1b17_3f11_9089,
        );
    }
    if pos_hash_spec(x, y, z) == pos_hash_spec(x, other, z) {
        lemma_scrambling_tells_apart(seed ^ p ^ q ^ r, seed ^ p ^ q2 ^ r);
        assert(seed ^ p ^ q ^ r == seed ^ p ^ q2 ^ r ==> q == q2) by (bit_vector);
        lemma_inverse_tells_apart(
            y as u64,
            other as u64,
            0x94D0_49BB_1331_11EB,
            0x3196_42b2_d24d_8ec3,
        );
    }
    if pos_hash_spec(x, y, z) == pos_hash_spec(x, y, other) {
        lemma_scrambling_tells_apart(seed ^ p ^ q ^ r, seed ^ p ^ q ^ r2);
        assert(seed ^ p ^ q ^ r == seed ^ p ^ q ^ r2 ==> r == r2) by (bit_vector);
        lemma_inverse_tells_apart(
            z as u64,
            other as u64,
            0x2545_F491_4F6C_DD1D,
            0x5907_1d96_d81e_cd35,
        );
    }
}

/// The hashes of the origin and of its neighbors along the axes.
pub proof fn law_hash_has_its_numbers()
    ensures
        pos_hash_spec(0, 0, 0) == 0xe220_a839_7b1d_cdaf,
        pos_hash_spec(1, 0, 0) == 0xf14c_4df0_9bb9_a32e,
        pos_hash_spec(0, 1, 0) == 0x925c_815b_886c_082b,
        pos_hash_spec(0, 0, 1) == 0xa930_2b82_e062_84f8,
{
    assert(0i64 as u64 == 0 && 1i64 as u64 == 1) by (bit_vector);
    assert(0u64.wrapping_mul(0xBF58_476D_1CE4_E5B9) == 0);
    assert(0u64.wrapping_mul(0x94D0_49BB_1331_11EB) == 0);
    assert(0u64.wrapping_mul(0x2545_F491_4F6C_DD1D) == 0);
    assert(1u64.wrapping_mul(0xBF58_476D_1CE4_E5B9) == 0xBF58_476D_1CE4_E5B9);
    assert(1u64.wrapping_mul(0x94D0_49BB_1331_11EB) == 0x94D0_49BB_1331_11EB);
    assert(1u64.wrapping_mul(0x2545_F491_4F6C_DD1D) == 0x2545_F491_4F6C_DD1D);
    assert(0x9E37_79B9_7F4A_7C15u64 ^ 0 ^ 0 ^ 0 == 0x9e37_79b9_7f4a_7c15) by (bit_vector);
    assert(0x9e37_79b9_7f4a_7c15u64 ^ (0x9e37_79b9_7f4a_7c15u64 >> 30) == 0x9e37_79bb_0797_9af0) by (bit_vector);
    assert(0x9e37_79bb_0797_9af0u64.wrapping_mul(0xBF58_476D_1CE4_E5B9) == 0x6f68_261b_57e7_a770);
    assert(0x6f68_261b_57e7_a770u64 ^ (0x6f68_261b_57e7_a770u64 >> 27) == 0x6f68_2616_bae3_641a) by (bit_vector);
    assert(0x6f68_2616_bae3_641au64.wrapping_mul(0x94D0_49BB_1331_11EB) == 0xe220_a838_bf5c_9dde);
    assert(0xe220_a838_bf5c_9ddeu64 ^ (0xe220_a838_bf5c_9ddeu64 >> 31) == 0xe220_a839_7b1d_cdaf) by (bit_vector);
    assert(0x9E37_79B9_7F4A_7C15u64 ^ 0xBF58_476D_1CE4_E5B9 ^ 0 ^ 0 == 0x216f_3ed4_63ae_99ac) by (bit_vector);
    assert(0x216f_3ed4_63ae_99acu64 ^ (0x216f_3ed4_63ae_99acu64 >> 30) == 0x216f_3ed4_e612_62fd) by (bit_vector);
    assert(0x216f_3ed4_e612_62fdu64.wrapping_mul(0xBF58_476D_1CE4_E5B9) == 0xc4a0_1595_8b29_d9d5);
    assert(0xc4a0_1595_8b29_d9d5u64 ^ (0xc4a0_1595_8b29_d9d5u64 >> 27) == 0xc4a0_158d_1f2b_6b64) by (bit_vector);
    assert(0xc4a0_158d_1f2b_6b64u64.wrapping_mul(0x94D0_49BB_1331_11EB) == 0xf14c_4df1_7921_38cc);
    assert(0xf14c_4df1_7921_38ccu64 ^ (0xf14c_4df1_7921_38ccu64 >> 31) == 0xf14c_4df0_9bb9_a32e) by (bit_vector);
    assert(0x9E37_79B9_7F4A_7C15u64 ^ 0 ^ 0x94D0_49BB_1331_11EB ^ 0 == 0xae7_3002_6c7b_6dfe) by (bit_vector);
    assert(0xae7_3002_6c7b_6dfeu64 ^ (0xae7_3002_6c7b_6dfeu64 >> 30) == 0xae7_3002_47e7_adf7) by (bit_vector);
    assert(0xae7_3002_47e7_adf7u64.wrapping_mul(0xBF58_476D_1CE4_E5B9) == 0xa5b5_b081_2906_aa7f);
    assert(0xa5b5_b081_2906_aa7fu64 ^ (0xa5b5_b081_2906_aa7fu64 >> 27) == 0xa5b5_b095_9fb0_ba5a) by (bit_vector);
    assert(0xa5b5_b095_9fb0_ba5au64.wrapping_mul(0x94D0_49BB_1331_11EB) == 0x925c_815a_acd5_0a9e);
    assert(0x925c_815a_acd5_0a9eu64 ^ (0x925c_815a_acd5_0a9eu64 >> 31) == 0x925c_815b_886c_082b) by (bit_vector);
    assert(0x9E37_79B9_7F4A_7C15u64 ^ 0 ^ 0 ^ 0x2545_F491_4F6C_DD1D == 0xbb72_8d28_3026_a108) by (bit_vector);
    assert(0xbb72_8d28_3026_a108u64 ^ (0xbb72_8d28_3026_a108u64 >> 30) == 0xbb72_8d2a_ddec_95a8) by (bit_vector);
    assert(0xbb72_8d2a_ddec_95a8u64.wrapping_mul(0xBF58_476D_1CE4_E5B9) == 0x3d80_341a_ab77_6e68);
    assert(0x3d80_341a_ab77_6e68u64 ^ (0x3d80_341a_ab77_6e68u64 >> 27) == 0x3d80_341d_1b71_ed3d) by (bit_vector);
    assert(0x3d80_341d_1b71_ed3du64.wrapping_mul(0x94D0_49BB_1331_11EB) == 0xa930_2b83_b202_d3ff);
    assert(0xa930_2b83_b202_d3ffu64 ^ (0xa930_2b83_b202_d3ffu64 >> 31) == 0xa930_2b82_e062_84f8) by (bit_vector);
}

} // verus!
