//! Texture metadata of `.mcmeta` sidecar files: animation strips and sampling
//! flags.

use crate::error::{AssetError, AssetResult};
use crate::json::{member, whole_number, Json, JsonShape};
use crate::scalar::F32;
use crate::text::{join3, str_eq};
use vstd::prelude::*;

verus! {

/// How mip levels are generated for a texture with transparent pixels.
#[derive(Clone, Copy, Debug, PartialEq, Eq, Structural)]
pub enum MipStrategy {
    /// Plain average.
    Mean,
    /// A mip texel that touched any transparent pixel becomes transparent.
    StrictCutout,
    /// A mip texel that touched any transparent pixel blends toward black.
    DarkCutout,
}

#[derive(Clone, Copy, Debug, PartialEq, Eq, Structural)]
pub struct TextureMeta {
    /// Linear filtering requested.
    pub blur: bool,
    /// Clamp-to-edge sampling requested.
    pub clamp: bool,
    /// Alpha value added to the cutout threshold.
    pub alpha_cutoff_bias: F32,
    /// Mip generation policy.
    pub mip_strategy: MipStrategy,
}

/// Frame timing and order of a vertical-strip animation.
#[derive(Debug)]
pub struct Animation {
    /// Game ticks each frame is shown.
    pub frametime: u32,
    /// Playback order; indices into the strip rows. Empty = sequential.
    pub frames: Vec<u16>,
    /// Blend toward the next frame instead of hard cuts.
    pub interpolate: bool,
}

/// The `animation` section as written.
#[derive(Debug)]
pub struct AnimationRaw {
    pub frametime: Option<u32>,
    pub interpolate: Option<bool>,
    /// Frame entries: numbers or `{"index": n, "time": t}` objects.
    pub frames: Option<Vec<Json>>,
    /// Frame height in texels (default: image width).
    pub height: Option<u32>,
    /// Frame width in texels (default: image width).
    pub width: Option<u32>,
}

/// The `texture` section as written.
#[derive(Debug)]
pub struct TextureSection {
    pub blur: Option<bool>,
    pub clamp: Option<bool>,
    pub mip_strategy: Option<String>,
    pub alpha_cutoff_bias: Option<F32>,
}

/// A sidecar document as written.
#[derive(Debug)]
pub struct McmetaDoc {
    pub animation: Option<AnimationRaw>,
    pub texture: Option<TextureSection>,
}

impl Default for TextureMeta {
    fn default() -> (r: TextureMeta)
        ensures
            r == default_meta(),
    {
        TextureMeta {
            blur: false,
            clamp: false,
            alpha_cutoff_bias: F32 { bits: 0 },
            mip_strategy: MipStrategy::Mean,
        }
    }
}

/// No flags, no bias, plain mips.
pub open spec fn default_meta() -> TextureMeta {
    TextureMeta {
        blur: false,
        clamp: false,
        alpha_cutoff_bias: F32 { bits: 0 },
        mip_strategy: MipStrategy::Mean,
    }
}

impl Animation {
    /// Number of frames the animation plays through.
    pub fn frame_count(&self, strip_rows: u32) -> (r: u32)
        ensures
            r == self.frame_count_spec(strip_rows),
    {
        if self.frames.len() == 0 {
            strip_rows
        } else {
            #[verifier::truncate]
            let n: u32 = self.frames.len() as u32;
            n
        }
    }

    pub open spec fn frame_count_spec(&self, strip_rows: u32) -> u32 {
        if self.frames.len() == 0 {
            strip_rows
        } else {
            self.frames.len() as u32
        }
    }
}

/// The (index, time) of one frame entry: a number is an index without a time,
/// an object gives an index and, if a whole number, a time. Both are cut to
/// their width.
pub open spec fn frame_entry(j: JsonShape) -> Option<(u16, u32)> {
    match j {
        JsonShape::Number(n) => match n {
            Some(v) => Some((v as u16, 0u32)),
            None => None,
        },
        JsonShape::Object(_) => match member(j, "index"@) {
            Some(index) => match whole_number(index) {
                Some(v) => Some(
                    (
                        v as u16,
                        match member(j, "time"@) {
                            Some(t) => match whole_number(t) {
                                Some(w) => w as u32,
                                None => 0,
                            },
                            None => 0,
                        },
                    ),
                ),
                None => None,
            },
            None => None,
        },
        _ => None,
    }
}

/// The shapes of a list of documents.
pub open spec fn shapes_of(v: Seq<Json>) -> Seq<JsonShape> {
    Seq::new(v.len(), |i: int| v[i].shape())
}

/// The whole numbers of a list, cut to 16 bits; other entries are dropped.
pub open spec fn plain_frames(v: Seq<JsonShape>) -> Seq<u16>
    decreases v.len(),
{
    if v.len() == 0 {
        Seq::empty()
    } else {
        let before = plain_frames(v.drop_last());
        match whole_number(v.last()) {
            Some(n) => before.push(n as u16),
            None => before,
        }
    }
}

fn read_frame(j: &Json) -> (r: Option<(u16, u32)>)
    ensures
        r == frame_entry(j.shape()),
{
    match j {
        Json::Number(n) => match *n {
            Some(v) => {
                #[verifier::truncate]
                let index: u16 = v as u16;
                Some((index, 0))
            },
            None => None,
        },
        Json::Object(_) => {
            let index: u16 = match j.get("index") {
                Some(i) => match i.as_u64() {
                    Some(v) => {
                        #[verifier::truncate]
                        let index: u16 = v as u16;
                        index
                    },
                    None => {
                        return None;
                    },
                },
                None => {
                    return None;
                },
            };
            let time: u32 = match j.get("time") {
                Some(t) => match t.as_u64() {
                    Some(w) => {
                        #[verifier::truncate]
                        let time: u32 = w as u32;
                        time
                    },
                    None => 0,
                },
                None => 0,
            };
            Some((index, time))
        },
        _ => None,
    }
}

impl AnimationRaw {
    /// The frame list is given and every entry of it can be read.
    pub open spec fn frames_readable(&self) -> bool {
        self.frames matches Some(v) && forall|i: int|
            0 <= i < v.len() ==> frame_entry((#[trigger] v@[i]).shape()) is Some
    }

    /// The (index, time) pairs of the frame list, where there is one and every
    /// entry can be read.
    pub fn frame_times(&self) -> (r: Option<Vec<(u16, u32)>>)
        ensures
            r is Some <==> self.frames_readable(),
            r matches Some(t) ==> t.len() == self.frames->0.len() && forall|i: int|
                0 <= i < t.len() ==> Some(#[trigger] t@[i]) == frame_entry(
                    self.frames->0@[i].shape(),
                ),
    {
        match &self.frames {
            None => None,
            Some(v) => {
                let mut out: Vec<(u16, u32)> = Vec::new();
                let mut i: usize = 0;
                while i < v.len()
                    invariant
                        i <= v.len(),
                        self.frames == Some(*v),
                        out.len() == i,
                        forall|k: int|
                            0 <= k < i ==> Some(#[trigger] out@[k]) == frame_entry(v@[k].shape()),
                    decreases v.len() - i,
                {
                    match read_frame(&v[i]) {
                        Some(e) => {
                            out.push(e);
                        },
                        None => {
                            assert(frame_entry(v@[i as int].shape()) is None);
                            return None;
                        },
                    }
                    i += 1;
                }
                assert forall|k: int| 0 <= k < v@.len() implies frame_entry(
                    (#[trigger] v@[k]).shape(),
                ) is Some by {
                    assert(Some(out@[k]) == frame_entry(v@[k].shape()));
                }
                Some(out)
            },
        }
    }

    /// What the section says, with its defaults: one tick per frame, the plain
    /// numbers of the frame list, no interpolation.
    pub open spec fn plain(&self, a: Animation) -> bool {
        &&& a.frametime == (match self.frametime {
            Some(t) => t,
            None => 1,
        })
        &&& a.interpolate == (self.interpolate == Some(true))
        &&& a.frames@ == (match self.frames {
            Some(v) => plain_frames(shapes_of(v@)),
            None => Seq::empty(),
        })
    }

    pub fn into_animation(&self) -> (r: Animation)
        ensures
            self.plain(r),
    {
        let mut frames: Vec<u16> = Vec::new();
        if let Some(v) = &self.frames {
            let ghost shapes = shapes_of(v@);
            let mut i: usize = 0;
            while i < v.len()
                invariant
                    i <= v.len(),
                    shapes == shapes_of(v@),
                    frames@ == plain_frames(shapes.take(i as int)),
                decreases v.len() - i,
            {
                assert(shapes.take(i + 1).drop_last() == shapes.take(i as int));
                assert(shapes.take(i + 1).last() == v@[i as int].shape());
                if let Some(n) = v[i].as_u64() {
                    #[verifier::truncate]
                    let frame: u16 = n as u16;
                    frames.push(frame);
                }
                i += 1;
            }
            assert(shapes.take(shapes.len() as int) == shapes);
        }
        Animation {
            frametime: match self.frametime {
                Some(t) => t,
                None => 1,
            },
            frames,
            interpolate: match self.interpolate {
                Some(b) => b,
                None => false,
            },
        }
    }
}

/// The mip strategy of a name; plain mips where none is given.
pub open spec fn strategy_of(name: Option<Seq<char>>) -> Option<MipStrategy> {
    match name {
        None => Some(MipStrategy::Mean),
        Some(s) => if s == "strict_cutout"@ {
            Some(MipStrategy::StrictCutout)
        } else if s == "dark_cutout"@ {
            Some(MipStrategy::DarkCutout)
        } else if s == "mean"@ {
            Some(MipStrategy::Mean)
        } else {
            None
        },
    }
}

/// The strategy name that a section gives.
pub open spec fn strategy_name(t: TextureSection) -> Option<Seq<char>> {
    match t.mip_strategy {
        Some(s) => Some(s@),
        None => None,
    }
}

/// The metadata of a `texture` section.
pub open spec fn section_meta(t: TextureSection) -> TextureMeta {
    TextureMeta {
        blur: t.blur == Some(true),
        clamp: t.clamp == Some(true),
        alpha_cutoff_bias: match t.alpha_cutoff_bias {
            Some(b) => b,
            None => F32 { bits: 0 },
        },
        mip_strategy: strategy_of(strategy_name(t))->0,
    }
}

/// Reads a sidecar document: the sampling flags, and the animation section as
/// it stands. An unknown mip strategy is an error.
pub fn parse_mcmeta(path: &str, doc: McmetaDoc) -> (r: AssetResult<
    (TextureMeta, Option<AnimationRaw>),
>)
    ensures
        match doc.texture {
            None => r matches Ok(p) && p.0 == default_meta() && p.1 == doc.animation,
            Some(t) => match strategy_of(strategy_name(t)) {
                Some(_) => r matches Ok(p) && p.0 == section_meta(t) && p.1 == doc.animation,
                None => r matches Err(e) && e.path@ == path@ && e.message@
                    == "unknown mipmap_strategy `"@ + strategy_name(t)->0 + "`"@,
            },
        },
{
    let mut meta = TextureMeta::default();
    if let Some(t) = &doc.texture {
        if let Some(b) = t.alpha_cutoff_bias {
            meta.alpha_cutoff_bias = b;
        }
        if let Some(b) = t.blur {
            meta.blur = b;
        }
        if let Some(b) = t.clamp {
            meta.clamp = b;
        }
        if let Some(s) = &t.mip_strategy {
            if str_eq(s.as_str(), "strict_cutout") {
                meta.mip_strategy = MipStrategy::StrictCutout;
            } else if str_eq(s.as_str(), "dark_cutout") {
                meta.mip_strategy = MipStrategy::DarkCutout;
            } else if !str_eq(s.as_str(), "mean") {
                return Err(
                    AssetError {
                        path: path.to_owned(),
                        message: join3("unknown mipmap_strategy `", s.as_str(), "`"),
                    },
                );
            }
        }
    }
    Ok((meta, doc.animation))
}

/// Without metadata a texture is neither blurred nor clamped, has no bias and
/// plain mips.
pub proof fn law_plain_metadata()
    ensures
        !default_meta().blur && !default_meta().clamp,
        default_meta().alpha_cutoff_bias.bits == 0,
        default_meta().mip_strategy == MipStrategy::Mean,
{
}

/// The names of the mip strategies; no other name is one.
pub proof fn law_strategies_have_names(s: Seq<char>)
    ensures
        strategy_of(Some("mean"@)) == Some(MipStrategy::Mean),
        strategy_of(Some("strict_cutout"@)) == Some(MipStrategy::StrictCutout),
        strategy_of(Some("dark_cutout"@)) == Some(MipStrategy::DarkCutout),
        strategy_of(None) == Some(MipStrategy::Mean),
        s != "mean"@ && s != "strict_cutout"@ && s != "dark_cutout"@ ==> strategy_of(Some(s))
            is None,
{
    reveal_strlit("mean");
    reveal_strlit("strict_cutout");
    reveal_strlit("dark_cutout");
    assert("mean"@.len() == 4);
    assert("strict_cutout"@.len() == 13);
    assert("dark_cutout"@.len() == 11);
}

/// A section switches blur and clamp on by `true` alone, and gives its bias
/// and its strategy, with the plain ones where it says nothing.
pub proof fn law_sections_say_what_they_set(t: TextureSection)
    ensures
        section_meta(t).blur <==> t.blur == Some(true),
        section_meta(t).clamp <==> t.clamp == Some(true),
        t.alpha_cutoff_bias matches Some(b) ==> section_meta(t).alpha_cutoff_bias == b,
        t.alpha_cutoff_bias is None ==> section_meta(t).alpha_cutoff_bias.bits == 0,
        t.mip_strategy is None ==> section_meta(t).mip_strategy == MipStrategy::Mean,
        t.mip_strategy matches Some(s) ==> (s@ == "dark_cutout"@ ==> section_meta(t).mip_strategy
            == MipStrategy::DarkCutout) && (s@ == "strict_cutout"@ ==> section_meta(t).mip_strategy
            == MipStrategy::StrictCutout),
{
    law_strategies_have_names(Seq::empty());
}

/// A frame is a number, or an object with an index and perhaps a time.
pub proof fn law_frames_are_read(v: u64, w: u64, members: Seq<(Seq<char>, JsonShape)>)
    requires
        v < 0x1_0000,
        w < 0x1_0000_0000,
    ensures
        frame_entry(JsonShape::Number(Some(v))) == Some((v as u16, 0u32)),
        frame_entry(JsonShape::Null) is None,
        frame_entry(JsonShape::Number(None)) is None,
        ({
            let j = JsonShape::Object(members);
            &&& member(j, "index"@) is None ==> frame_entry(j) is None
            &&& member(j, "index"@) == Some(JsonShape::Number(Some(v))) && member(j, "time"@)
                == Some(JsonShape::Number(Some(w))) ==> frame_entry(j) == Some((v as u16, w as u32))
            &&& member(j, "index"@) == Some(JsonShape::Number(Some(v))) && member(j, "time"@)
                is None ==> frame_entry(j) == Some((v as u16, 0u32))
        }),
{
}

/// The plain numbers of a list are kept in order, and other entries dropped.
pub proof fn law_plain_numbers_are_kept(v: Seq<JsonShape>, n: u64, s: Seq<char>)
    requires
        n < 0x1_0000,
    ensures
        plain_frames(v.push(JsonShape::Number(Some(n)))) == plain_frames(v).push(n as u16),
        plain_frames(v.push(JsonShape::Text(s))) == plain_frames(v),
        plain_frames(Seq::empty()).len() == 0,
{
    assert(v.push(JsonShape::Number(Some(n))).drop_last() =~= v);
    assert(v.push(JsonShape::Text(s)).drop_last() =~= v);
}

/// An animation has as many frames as its list, or as the strip has rows where
/// it gives none.
pub proof fn law_frames_are_counted(a: Animation, rows: u32)
    requires
        a.frames@.len() <= u32::MAX,
    ensures
        a.frames@.len() == 0 ==> a.frame_count_spec(rows) == rows,
        a.frames@.len() > 0 ==> a.frame_count_spec(rows) == a.frames@.len(),
{
}

/// A section without settings shows each frame for one tick, without blending.
pub proof fn law_plain_animations(raw: AnimationRaw, a: Animation)
    requires
        raw.plain(a),
    ensures
        raw.frametime is None ==> a.frametime == 1,
        raw.frametime matches Some(t) ==> a.frametime == t,
        a.interpolate <==> raw.interpolate == Some(true),
        raw.frames is None ==> a.frames@.len() == 0,
{
}

} // verus!
