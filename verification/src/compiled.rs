//! Compiled pack structures: what the cache stores and the runtime reads.

use crate::blockstates::{ModelInstance, Occlusion, Predicate, VariantRot};
use crate::models::{FaceQuad, GuiLight, SpriteId};
use crate::scalar::F32;
use crate::text::str_eq;
use vstd::prelude::*;

verus! {

/// A compiled model in the runtime table (index = model id).
#[derive(Debug)]
pub struct RuntimeModel {
    pub quads: Vec<FaceQuad>,
    pub particle: SpriteId,
    pub ambient_occlusion: bool,
    pub gui_light: GuiLight,
    /// The turn that corners and bounds are still to be given; face and cull
    /// directions are turned already.
    pub turn: Option<VariantRot>,
}

/// Per-state data for one block: appearance and occlusion.
#[derive(Debug)]
pub struct RuntimeState {
    pub appearance: CompiledAppearance,
    pub occlusion: Occlusion,
    /// Full-cube geometry with a see-through sprite: faces between two
    /// adjacent blocks of the same kind are culled.
    pub same_block_cull: bool,
}

/// Appearance referencing model ids.
#[derive(Debug)]
pub enum CompiledAppearance {
    Static(Vec<ModelInstance>),
    Variants(Vec<(Predicate, Vec<ModelInstance>)>),
    Multipart(Vec<(Predicate, Vec<ModelInstance>)>),
}

/// One block in the runtime registry.
#[derive(Debug)]
pub struct RuntimeBlock {
    /// Registry name, such as `oak_log`.
    pub name: String,
    /// Property schema (names and values) for state packing.
    pub schema: Vec<(String, Vec<String>)>,
    /// One entry per state combination (state id = packed property index).
    pub states: Vec<RuntimeState>,
}

/// An animated sprite and its timing.
#[derive(Debug)]
pub struct RuntimeAnim {
    pub sprite: SpriteId,
    pub frametime: u32,
    /// Playback order; empty means sequential over `strip_frames` rows.
    pub frames: Vec<u16>,
    /// Total rows in the strip.
    pub strip_frames: u32,
    pub interpolate: bool,
}

/// The complete compiled pack.
#[derive(Debug)]
pub struct CompiledPack {
    /// Interned sprite names, in id order.
    pub sprite_names: Vec<(String, String)>,
    /// Runtime model table (index = model id).
    pub models: Vec<RuntimeModel>,
    /// Blocks, in registry order.
    pub blocks: Vec<RuntimeBlock>,
    /// Animations for animated sprites.
    pub animations: Vec<RuntimeAnim>,
    /// Brightness per face: up, down, north, south, west, east.
    pub face_shade: [F32; 6],
}

/// The first position of a name pair; the length where it does not occur.
pub open spec fn pair_pos(names: Seq<(String, String)>, ns: Seq<char>, name: Seq<char>) -> int
    decreases names.len(),
{
    if names.len() == 0 {
        0
    } else if names[0].0@ == ns && names[0].1@ == name {
        0
    } else {
        1 + pair_pos(names.skip(1), ns, name)
    }
}

pub proof fn lemma_pair_pos(names: Seq<(String, String)>, ns: Seq<char>, name: Seq<char>, i: int)
    requires
        0 <= i <= names.len(),
        forall|k: int|
            0 <= k < i ==> !((#[trigger] names[k]).0@ == ns && names[k].1@ == name),
        i < names.len() ==> names[i].0@ == ns && names[i].1@ == name,
    ensures
        pair_pos(names, ns, name) == i,
    decreases names.len(),
{
    if names.len() > 0 && i > 0 {
        assert(!(names[0].0@ == ns && names[0].1@ == name));
        assert forall|k: int| 0 <= k < i - 1 implies !((#[trigger] names.skip(1)[k]).0@ == ns
            && names.skip(1)[k].1@ == name) by {
            assert(names.skip(1)[k] == names[k + 1]);
        }
        lemma_pair_pos(names.skip(1), ns, name, i - 1);
    }
}

/// The first position of a name pair; the length where it does not occur.
pub fn find_pair(names: &[(String, String)], ns: &str, name: &str) -> (r: usize)
    ensures
        r == pair_pos(names@, ns@, name@),
        r <= names.len(),
        r < names.len() ==> names@[r as int].0@ == ns@ && names@[r as int].1@ == name@,
        forall|k: int|
            0 <= k < r ==> !((#[trigger] names@[k]).0@ == ns@ && names@[k].1@ == name@),
{
    let mut i: usize = 0;
    while i < names.len() && !(str_eq(names[i].1.as_str(), name) && str_eq(names[i].0.as_str(), ns))
        invariant
            i <= names.len(),
            forall|k: int|
                0 <= k < i ==> !((#[trigger] names@[k]).0@ == ns@ && names@[k].1@ == name@),
        decreases names.len() - i,
    {
        i += 1;
    }
    proof {
        lemma_pair_pos(names@, ns@, name@, i as int);
    }
    i
}

/// The sprite id of a name in an interning table: its first position.
pub open spec fn sprite_id_spec(
    names: Seq<(String, String)>,
    ns: Seq<char>,
    name: Seq<char>,
) -> Option<SpriteId> {
    let i = pair_pos(names, ns, name);
    if i < names.len() {
        Some(SpriteId(i as u32))
    } else {
        None
    }
}

/// Brightness of the faces up, down, north, south, west and east: 1, 0.5, 0.8,
/// 0.8, 0.6 and 0.6.
pub open spec fn vanilla_shade() -> Seq<F32> {
    seq![
        F32 { bits: 0x3f80_0000 },
        F32 { bits: 0x3f00_0000 },
        F32 { bits: 0x3f4c_cccd },
        F32 { bits: 0x3f4c_cccd },
        F32 { bits: 0x3f19_999a },
        F32 { bits: 0x3f19_999a },
    ]
}

impl CompiledPack {
    /// Directional brightness: up, down, north, south, west, east.
    pub fn vanilla_face_shade() -> (r: [F32; 6])
        ensures
            r@ == vanilla_shade(),
    {
        [
            F32 { bits: 0x3f80_0000 },  // 1.0
            F32 { bits: 0x3f00_0000 },  // 0.5
            F32 { bits: 0x3f4c_cccd },  // 0.8
            F32 { bits: 0x3f4c_cccd },  // 0.8
            F32 { bits: 0x3f19_999a },  // 0.6
            F32 { bits: 0x3f19_999a },  // 0.6
        ]
    }

    pub fn sprite_id(&self, ns: &str, name: &str) -> (r: Option<SpriteId>)
        ensures
            r == sprite_id_spec(self.sprite_names@, ns@, name@),
    {
        let i = find_pair(&self.sprite_names, ns, name);
        if i < self.sprite_names.len() {
            #[verifier::truncate]
            let id: u32 = i as u32;
            Some(SpriteId(id))
        } else {
            None
        }
    }
}

/// A sprite's id is its place among the interned names; a name that is not
/// among them has none.
pub proof fn law_ids_are_places(names: Seq<(String, String)>, i: int, ns: Seq<char>, name: Seq<char>)
    requires
        0 <= i <= names.len() <= u32::MAX,
        forall|k: int|
            0 <= k < i ==> !((#[trigger] names[k]).0@ == ns && names[k].1@ == name),
        i < names.len() ==> names[i].0@ == ns && names[i].1@ == name,
    ensures
        i < names.len() ==> sprite_id_spec(names, ns, name) == Some(SpriteId(i as u32)),
        i == names.len() ==> sprite_id_spec(names, ns, name) is None,
{
    lemma_pair_pos(names, ns, name, i);
}

/// The faces are shaded, up, down, north, south, west and east: 1, a half,
/// twice 0.8 and twice 0.6.
pub proof fn law_faces_are_shaded()
    ensures
        vanilla_shade().len() == 6,
        vanilla_shade()[0].bits == 0x3f80_0000,
        vanilla_shade()[1].bits == 0x3f00_0000,
        vanilla_shade()[2].bits == 0x3f4c_cccd && vanilla_shade()[3].bits == 0x3f4c_cccd,
        vanilla_shade()[4].bits == 0x3f19_999a && vanilla_shade()[5].bits == 0x3f19_999a,
{
}

} // verus!
