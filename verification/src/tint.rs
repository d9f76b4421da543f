//! Tint colors of grayscale sprites: the biome colormaps and fixed colors.

use crate::error::{fails_with, AssetError, AssetResult};
use crate::sprites::{Sprite, SpriteStore};
use crate::text::{qualified, qualified_name};
use crate::texture::{near_gray, DecodedTexture};
use vstd::prelude::*;

verus! {

/// Which colormap a tinted face samples.
#[derive(Clone, Copy, Debug, PartialEq, Eq, Structural)]
pub enum Colormap {
    Grass,
    Foliage,
    DryFoliage,
}

/// A tint color: red, green and blue, sRGB.
#[derive(Clone, Copy, Debug, PartialEq, Eq)]
pub struct TintColor(pub [u8; 3]);

/// Water overlay blue (the water of the plains).
pub const WATER: [u8; 3] = [63, 118, 228];

/// Redstone dust without a signal.
pub const REDSTONE_OFF: [u8; 3] = [75, 0, 0];

/// Redstone dust at full signal.
pub const REDSTONE_ON: [u8; 3] = [255, 0, 0];

/// The texel column of the plains biome in a colormap.
pub const PLAINS_X: u32 = 50;

/// The texel row of the plains biome in a colormap.
pub const PLAINS_Y: u32 = 173;

/// The color of the plains where the pack has no colormap.
pub open spec fn fallback(cm: Colormap) -> Seq<u8> {
    match cm {
        Colormap::Grass => seq![145u8, 189, 89],
        Colormap::Foliage => seq![119u8, 171, 47],
        Colormap::DryFoliage => seq![169u8, 146, 82],
    }
}

/// The last texel of a colormap in one direction.
pub open spec fn at_most_255(v: u32) -> int {
    if v < 255 {
        v as int
    } else {
        255
    }
}

/// The texture reaches a texel, under the limit of 32-bit offsets.
pub open spec fn reaches(tex: DecodedTexture, x: int, y: int) -> bool {
    (y * tex.width + x) * 4 + 4 <= tex.rgba.len() && (y * tex.width + x) * 4 <= u32::MAX
}

/// The texture is a copy of a sprite's: size, pixels and metadata.
pub open spec fn is_copy_of(a: Option<DecodedTexture>, b: Option<Sprite>) -> bool {
    match (a, b) {
        (Some(t), Some(s)) => t.width == s.tex.width && t.height == s.tex.height && t.rgba@
            == s.tex.rgba@ && t.meta == s.tex.meta,
        (None, None) => true,
        _ => false,
    }
}

/// The tint lookup tables.
pub struct TintSystem {
    pub grass: Option<DecodedTexture>,
    pub foliage: Option<DecodedTexture>,
    pub dry_foliage: Option<DecodedTexture>,
}

fn colormap(store: &SpriteStore, name: &str) -> (r: Option<DecodedTexture>)
    ensures
        is_copy_of(r, store.lookup("minecraft"@, name@)),
{
    match store.get("minecraft", name) {
        Some(s) => Some(s.tex.copied()),
        None => None,
    }
}

impl TintSystem {
    /// Takes the three colormaps from the pack; each may be missing.
    pub fn load(store: &SpriteStore) -> (r: TintSystem)
        ensures
            is_copy_of(r.grass, store.lookup("minecraft"@, "colormap/grass"@)),
            is_copy_of(r.foliage, store.lookup("minecraft"@, "colormap/foliage"@)),
            is_copy_of(r.dry_foliage, store.lookup("minecraft"@, "colormap/dry_foliage"@)),
    {
        TintSystem {
            grass: colormap(store, "colormap/grass"),
            foliage: colormap(store, "colormap/foliage"),
            dry_foliage: colormap(store, "colormap/dry_foliage"),
        }
    }

    pub open spec fn map_of(&self, cm: Colormap) -> Option<DecodedTexture> {
        match cm {
            Colormap::Grass => self.grass,
            Colormap::Foliage => self.foliage,
            Colormap::DryFoliage => self.dry_foliage,
        }
    }

    /// The colormap, where there is one, reaches the sampled texel.
    pub open spec fn can_sample(&self, cm: Colormap, x: u32, y: u32) -> bool {
        self.map_of(cm) matches Some(tex) ==> reaches(tex, at_most_255(x), at_most_255(y))
    }

    pub open spec fn sampled(&self, cm: Colormap, x: u32, y: u32) -> Seq<u8> {
        match self.map_of(cm) {
            Some(tex) => tex.pixel_spec(at_most_255(x), at_most_255(y)).take(3),
            None => fallback(cm),
        }
    }

    /// The color at a texel of a colormap; coordinates beyond 255 count as 255.
    pub fn sample(&self, cm: Colormap, x: u32, y: u32) -> (r: TintColor)
        requires
            self.can_sample(cm, x, y),
        ensures
            r.0@ == self.sampled(cm, x, y),
    {
        let map = match cm {
            Colormap::Grass => &self.grass,
            Colormap::Foliage => &self.foliage,
            Colormap::DryFoliage => &self.dry_foliage,
        };
        match map {
            Some(tex) => {
                let tx: u32 = if x < 255 { x } else { 255 };
                let ty: u32 = if y < 255 { y } else { 255 };
                let px = tex.pixel(tx, ty);
                let rgb = [px[0], px[1], px[2]];
                assert(rgb@ =~= px@.take(3));
                TintColor(rgb)
            },
            None => {
                let rgb = match cm {
                    Colormap::Grass => [145u8, 189, 89],
                    Colormap::Foliage => [119u8, 171, 47],
                    Colormap::DryFoliage => [169u8, 146, 82],
                };
                assert(rgb@ =~= fallback(cm));
                TintColor(rgb)
            },
        }
    }

    /// The grass tint of the plains.
    pub fn plains_grass(&self) -> (r: TintColor)
        requires
            self.can_sample(Colormap::Grass, PLAINS_X, PLAINS_Y),
        ensures
            r.0@ == self.sampled(Colormap::Grass, PLAINS_X, PLAINS_Y),
    {
        self.sample(Colormap::Grass, PLAINS_X, PLAINS_Y)
    }

    /// The foliage tint of the plains.
    pub fn plains_foliage(&self) -> (r: TintColor)
        requires
            self.can_sample(Colormap::Foliage, PLAINS_X, PLAINS_Y),
        ensures
            r.0@ == self.sampled(Colormap::Foliage, PLAINS_X, PLAINS_Y),
    {
        self.sample(Colormap::Foliage, PLAINS_X, PLAINS_Y)
    }

    /// The dry-foliage tint of the plains.
    pub fn plains_dry_foliage(&self) -> (r: TintColor)
        requires
            self.can_sample(Colormap::DryFoliage, PLAINS_X, PLAINS_Y),
        ensures
            r.0@ == self.sampled(Colormap::DryFoliage, PLAINS_X, PLAINS_Y),
    {
        self.sample(Colormap::DryFoliage, PLAINS_X, PLAINS_Y)
    }
}

/// Whether a sprite is grayscale and so a candidate for tinting.
pub fn assert_tint_candidate(store: &SpriteStore, ns: &str, name: &str) -> (r: AssetResult<bool>)
    ensures
        match store.lookup(ns@, name@) {
            Some(s) => r == Ok::<bool, AssetError>(
                forall|i: int|
                    0 <= i && 4 * i + 3 < s.tex.rgba.len() ==> near_gray(
                        s.tex.rgba@[4 * i],
                        #[trigger] s.tex.rgba@[4 * i + 1],
                        s.tex.rgba@[4 * i + 2],
                    ),
            ),
            None => fails_with(r, qualified(ns@, name@), "sprite not found"@),
        },
{
    match store.get(ns, name) {
        Some(s) => Ok(s.tex.is_grayscale_content()),
        None => Err(
            AssetError {
                path: qualified_name(ns, name),
                message: "sprite not found".to_owned(),
            },
        ),
    }
}

/// The plains' colors without a colormap.
pub proof fn law_colors_without_colormaps(c: TintSystem, x: u32, y: u32)
    ensures
        c.grass is None ==> c.sampled(Colormap::Grass, x, y) == seq![145u8, 189, 89],
        c.foliage is None ==> c.sampled(Colormap::Foliage, x, y) == seq![119u8, 171, 47],
        c.dry_foliage is None ==> c.sampled(Colormap::DryFoliage, x, y) == seq![169u8, 146, 82],
{
}

/// A colormap is sampled at the texel, or at its last row or column of 256
/// where the texel lies beyond: red, green and blue of the pixel there.
pub proof fn law_colormaps_are_sampled(c: TintSystem, tex: DecodedTexture, x: u32, y: u32)
    requires
        x <= 255,
        y <= 255,
        reaches(tex, x as int, y as int),
    ensures
        ({
            let at = (y * tex.width + x) * 4;
            let rgb = seq![tex.rgba@[at], tex.rgba@[at + 1], tex.rgba@[at + 2]];
            &&& c.grass == Some(tex) ==> c.sampled(Colormap::Grass, x, y) == rgb
            &&& c.foliage == Some(tex) ==> c.sampled(Colormap::Foliage, x, y) == rgb
            &&& c.dry_foliage == Some(tex) ==> c.sampled(Colormap::DryFoliage, x, y) == rgb
        }),
        forall|cm: Colormap, more: u32|
            255 <= more ==> #[trigger] c.sampled(cm, more, y) == c.sampled(cm, 255, y),
        forall|cm: Colormap, more: u32|
            255 <= more ==> #[trigger] c.sampled(cm, x, more) == c.sampled(cm, x, 255),
{
    let at = (y * tex.width + x) * 4;
    assert(at >= 0) by (nonlinear_arith)
        requires
            at == (y * tex.width + x) * 4,
            y >= 0,
            x >= 0,
            tex.width >= 0,
    ;
    assert(tex.pixel_spec(x as int, y as int).take(3) =~= seq![
        tex.rgba@[at],
        tex.rgba@[at + 1],
        tex.rgba@[at + 2],
    ]);
}

/// The plains lie at column 50 and row 173 of a colormap.
pub proof fn law_plains_have_their_texel()
    ensures
        PLAINS_X == 50,
        PLAINS_Y == 173,
{
}

/// A colormap is a copy of its sprite's texture, and is there where the sprite
/// is.
pub proof fn law_colormaps_are_copies(a: Option<DecodedTexture>, b: Option<Sprite>)
    requires
        is_copy_of(a, b),
    ensures
        a is Some == b is Some,
        a matches Some(t) ==> t.rgba@ == b->0.tex.rgba@ && t.width == b->0.tex.width && t.height
            == b->0.tex.height && t.meta == b->0.tex.meta,
{
}

} // verus!
