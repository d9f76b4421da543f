//! The effect configuration of the renderer's stages.
//!
//! It says what the stages do and how much of each runs, and names no shader
//! pack: packs are mapped onto it, and the quality presets are values of it.

use crate::bits;
use crate::scalar::F32;
use crate::settings::Quality;
use vstd::prelude::*;

verus! {

/// Three numbers, one per color.
#[derive(Clone, Copy, Debug, PartialEq, Eq, Structural)]
pub struct Rgb {
    pub r: F32,
    pub g: F32,
    pub b: F32,
}

/// The number of a bit pattern.
pub open spec fn num(bits: u32) -> F32 {
    F32 { bits }
}

fn n(bits: u32) -> (r: F32)
    ensures
        r == num(bits),
{
    F32 { bits }
}

/// Render quality of the engine.
#[derive(Clone, Copy, Debug, PartialEq, Eq, Structural)]
pub enum RenderQuality {
    Low,
    Medium,
    High,
    Ultra,
}

impl Default for RenderQuality {
    fn default() -> (r: RenderQuality)
        ensures
            r == RenderQuality::Medium,
    {
        RenderQuality::Medium
    }
}

impl RenderQuality {
    pub open spec fn scale_spec(self) -> F32 {
        if self == RenderQuality::Low {
            num(bits::CENTI_50)
        } else {
            num(bits::ONE)
        }
    }

    /// Scale of the offscreen scene.
    pub fn render_scale(self) -> (r: F32)
        ensures
            r == self.scale_spec(),
    {
        match self {
            RenderQuality::Low => n(bits::CENTI_50),
            _ => n(bits::ONE),
        }
    }

    pub open spec fn post_process_spec(self) -> bool {
        self == RenderQuality::High || self == RenderQuality::Ultra
    }

    /// Whether the post-process pass runs on the unstaged path.
    pub fn post_process(self) -> (r: bool)
        ensures
            r == self.post_process_spec(),
    {
        match self {
            RenderQuality::High | RenderQuality::Ultra => true,
            _ => false,
        }
    }

    pub open spec fn next_spec(self) -> RenderQuality {
        match self {
            RenderQuality::Low => RenderQuality::Medium,
            RenderQuality::Medium => RenderQuality::High,
            RenderQuality::High => RenderQuality::Ultra,
            RenderQuality::Ultra => RenderQuality::Low,
        }
    }

    /// The next preset, from Low to Ultra and around.
    pub fn next(self) -> (r: RenderQuality)
        ensures
            r == self.next_spec(),
    {
        match self {
            RenderQuality::Low => RenderQuality::Medium,
            RenderQuality::Medium => RenderQuality::High,
            RenderQuality::High => RenderQuality::Ultra,
            RenderQuality::Ultra => RenderQuality::Low,
        }
    }
}

/// The engine's preset for the user's.
pub open spec fn engine_quality(q: Quality) -> RenderQuality {
    match q {
        Quality::Low => RenderQuality::Low,
        Quality::Medium => RenderQuality::Medium,
        Quality::High => RenderQuality::High,
        Quality::Ultra => RenderQuality::Ultra,
    }
}

pub fn render_quality(q: Quality) -> (r: RenderQuality)
    ensures
        r == engine_quality(q),
{
    match q {
        Quality::Low => RenderQuality::Low,
        Quality::Medium => RenderQuality::Medium,
        Quality::High => RenderQuality::High,
        Quality::Ultra => RenderQuality::Ultra,
    }
}

/// The presets of user and engine agree: they scale the scene alike, run the
/// post-process pass alike, and go around together.
pub proof fn law_presets_agree(q: Quality)
    ensures
        engine_quality(q).scale_spec() == q.scale_spec(),
        engine_quality(q).post_process_spec() == q.post_process_spec(),
        engine_quality(q.next_spec()) == engine_quality(q).next_spec(),
{
}

/// Everything the client can tune about presentation.
#[derive(Debug)]
pub struct RenderSettings {
    pub quality: RenderQuality,
    /// Id of the enabled shader pack, for display.
    pub shader_pack: Option<String>,
}

/// Directional shadow map.
#[derive(Clone, Copy, Debug, PartialEq, Eq, Structural)]
pub struct ShadowConfig {
    /// Side of the square map.
    pub resolution: u32,
    /// Blocks that the map covers.
    pub distance: F32,
    /// Taps per fragment.
    pub samples: u32,
    /// Strength of the shadow.
    pub strength: F32,
}

/// Screen-space ambient occlusion.
#[derive(Clone, Copy, Debug, PartialEq, Eq, Structural)]
pub struct AoConfig {
    pub slices: u32,
    /// Radius in blocks.
    pub radius: F32,
    pub strength: F32,
}

/// Sky and aerial perspective.
#[derive(Clone, Copy, Debug, PartialEq, Eq, Structural)]
pub struct AtmosphereConfig {
    pub rayleigh: Rgb,
    pub mie: F32,
    pub mie_g: F32,
    pub scale_height: F32,
    pub top_radius: F32,
    pub ground_radius: F32,
    pub sun_illuminance: F32,
}

/// Cloud layer.
#[derive(Clone, Copy, Debug, PartialEq, Eq, Structural)]
pub struct CloudsConfig {
    pub altitude: F32,
    pub thickness: F32,
    pub coverage: F32,
    pub density: F32,
    pub wind_speed: F32,
    /// Steps of the march through the layer.
    pub steps: u32,
}

/// Water surface.
#[derive(Clone, Copy, Debug, PartialEq, Eq, Structural)]
pub struct WaterConfig {
    /// Wave octaves.
    pub octaves: u32,
    pub amplitude: F32,
    pub speed: F32,
    pub absorption: Rgb,
    pub reflection_strength: F32,
}

/// Air fog.
#[derive(Clone, Copy, Debug, PartialEq, Eq, Structural)]
pub struct FogConfig {
    pub density: F32,
    pub tint: Rgb,
}

/// Tonemap operators.
#[derive(Clone, Copy, Debug, PartialEq, Eq, Structural)]
pub enum Tonemap {
    /// None: the linear value, clamped.
    Off,
    Aces,
    Reinhard,
}

/// Post-processing chain.
#[derive(Clone, Copy, Debug, PartialEq, Eq, Structural)]
pub struct PostConfig {
    pub bloom: bool,
    pub bloom_threshold: F32,
    pub bloom_intensity: F32,
    pub tonemap: Tonemap,
    pub vignette: F32,
}

/// Manual exposure.
#[derive(Clone, Copy, Debug, PartialEq, Eq, Structural)]
pub struct ExposureConfig {
    pub f_stops: F32,
    /// One over the shutter time in seconds.
    pub shutter_speed: F32,
    pub iso: F32,
}

/// Which stages run, and how. A stage without a configuration does not run.
#[derive(Clone, Copy, Debug, PartialEq, Eq, Structural)]
pub struct ShaderEffectConfig {
    /// Position of the sun as a part of the day.
    pub sun_angle: F32,
    /// Tilt of the sun's path in degrees.
    pub sun_path_rotation_deg: F32,
    pub shadows: Option<ShadowConfig>,
    pub ssao: Option<AoConfig>,
    pub atmosphere: Option<AtmosphereConfig>,
    pub clouds: Option<CloudsConfig>,
    pub water: Option<WaterConfig>,
    pub fog: Option<FogConfig>,
    pub post: Option<PostConfig>,
    pub exposure: Option<ExposureConfig>,
}

/// The sky of the presets and of packs that ask for one.
pub open spec fn standard_sky() -> AtmosphereConfig {
    AtmosphereConfig {
        rayleigh: Rgb {
            r: num(bits::RAYLEIGH_R),
            g: num(bits::RAYLEIGH_G),
            b: num(bits::RAYLEIGH_B),
        },
        mie: num(bits::MIE),
        mie_g: num(bits::CENTI_76),
        scale_height: num(bits::N8500),
        top_radius: num(bits::TOP_RADIUS),
        ground_radius: num(bits::GROUND_RADIUS),
        sun_illuminance: num(bits::FORTY),
    }
}

pub fn sky() -> (r: AtmosphereConfig)
    ensures
        r == standard_sky(),
{
    AtmosphereConfig {
        rayleigh: Rgb { r: n(bits::RAYLEIGH_R), g: n(bits::RAYLEIGH_G), b: n(bits::RAYLEIGH_B) },
        mie: n(bits::MIE),
        mie_g: n(bits::CENTI_76),
        scale_height: n(bits::N8500),
        top_radius: n(bits::TOP_RADIUS),
        ground_radius: n(bits::GROUND_RADIUS),
        sun_illuminance: n(bits::FORTY),
    }
}

/// The tint of fog.
pub open spec fn standard_tint() -> Rgb {
    Rgb { r: num(bits::CENTI_90), g: num(bits::CENTI_95), b: num(bits::ONE) }
}

pub fn fog_tint() -> (r: Rgb)
    ensures
        r == standard_tint(),
{
    Rgb { r: n(bits::CENTI_90), g: n(bits::CENTI_95), b: n(bits::ONE) }
}

/// Water with its standard absorption.
pub open spec fn standard_water(octaves: u32, amplitude: u32, reflection: u32) -> WaterConfig {
    WaterConfig {
        octaves,
        amplitude: num(amplitude),
        speed: num(bits::ONE),
        absorption: Rgb { r: num(bits::CENTI_45), g: num(bits::CENTI_8), b: num(bits::CENTI_3) },
        reflection_strength: num(reflection),
    }
}

fn water(octaves: u32, amplitude: u32, reflection: u32) -> (r: WaterConfig)
    ensures
        r == standard_water(octaves, amplitude, reflection),
{
    WaterConfig {
        octaves,
        amplitude: n(amplitude),
        speed: n(bits::ONE),
        absorption: Rgb { r: n(bits::CENTI_45), g: n(bits::CENTI_8), b: n(bits::CENTI_3) },
        reflection_strength: n(reflection),
    }
}

/// Clouds at the standard height.
pub open spec fn standard_clouds(thickness: u32, density: u32, steps: u32) -> CloudsConfig {
    CloudsConfig {
        altitude: num(bits::N160),
        thickness: num(thickness),
        coverage: num(bits::CENTI_50),
        density: num(density),
        wind_speed: num(bits::THREE),
        steps,
    }
}

fn clouds(thickness: u32, density: u32, steps: u32) -> (r: CloudsConfig)
    ensures
        r == standard_clouds(thickness, density, steps),
{
    CloudsConfig {
        altitude: n(bits::N160),
        thickness: n(thickness),
        coverage: n(bits::CENTI_50),
        density: n(density),
        wind_speed: n(bits::THREE),
        steps,
    }
}

/// Bloom and a vignette behind the filmic curve.
pub open spec fn standard_post(threshold: u32, intensity: u32, vignette: u32) -> PostConfig {
    PostConfig {
        bloom: true,
        bloom_threshold: num(threshold),
        bloom_intensity: num(intensity),
        tonemap: Tonemap::Aces,
        vignette: num(vignette),
    }
}

fn post(threshold: u32, intensity: u32, vignette: u32) -> (r: PostConfig)
    ensures
        r == standard_post(threshold, intensity, vignette),
{
    PostConfig {
        bloom: true,
        bloom_threshold: n(threshold),
        bloom_intensity: n(intensity),
        tonemap: Tonemap::Aces,
        vignette: n(vignette),
    }
}

/// The reference exposure.
pub open spec fn standard_exposure() -> ExposureConfig {
    ExposureConfig {
        f_stops: num(bits::EIGHT),
        shutter_speed: num(bits::N125),
        iso: num(bits::N200),
    }
}

fn exposure() -> (r: ExposureConfig)
    ensures
        r == standard_exposure(),
{
    ExposureConfig { f_stops: n(bits::EIGHT), shutter_speed: n(bits::N125), iso: n(bits::N200) }
}

/// A configuration of a morning sun without any stage.
pub open spec fn bare() -> ShaderEffectConfig {
    ShaderEffectConfig {
        sun_angle: num(bits::CENTI_18),
        sun_path_rotation_deg: num(bits::MINUS_35),
        shadows: None,
        ssao: None,
        atmosphere: None,
        clouds: None,
        water: None,
        fog: None,
        post: None,
        exposure: None,
    }
}

/// The preset of a quality.
pub open spec fn preset(q: RenderQuality) -> ShaderEffectConfig {
    match q {
        RenderQuality::Low => bare(),
        RenderQuality::Medium => ShaderEffectConfig {
            water: Some(standard_water(2, bits::CENTI_35, bits::CENTI_35)),
            ..bare()
        },
        RenderQuality::High => ShaderEffectConfig {
            shadows: Some(
                ShadowConfig {
                    resolution: 1024,
                    distance: num(bits::NINETY_SIX),
                    samples: 4,
                    strength: num(bits::CENTI_90),
                },
            ),
            ssao: Some(
                AoConfig { slices: 2, radius: num(bits::THREE), strength: num(bits::CENTI_70) },
            ),
            atmosphere: Some(standard_sky()),
            clouds: Some(standard_clouds(bits::SIXTY, bits::CENTI_70, 24)),
            water: Some(standard_water(4, bits::CENTI_50, bits::CENTI_60)),
            fog: Some(FogConfig { density: num(bits::MILLI_1_5), tint: standard_tint() }),
            post: Some(standard_post(bits::ONE, bits::CENTI_50, bits::CENTI_20)),
            exposure: Some(standard_exposure()),
            ..bare()
        },
        RenderQuality::Ultra => ShaderEffectConfig {
            shadows: Some(
                ShadowConfig {
                    resolution: 2048,
                    distance: num(bits::N160),
                    samples: 8,
                    strength: num(bits::ONE),
                },
            ),
            ssao: Some(
                AoConfig { slices: 4, radius: num(bits::FOUR), strength: num(bits::CENTI_85) },
            ),
            atmosphere: Some(standard_sky()),
            clouds: Some(standard_clouds(bits::EIGHTY, bits::CENTI_75, 40)),
            water: Some(standard_water(6, bits::CENTI_60, bits::CENTI_75)),
            fog: Some(FogConfig { density: num(bits::MILLI_2_5), tint: standard_tint() }),
            post: Some(standard_post(bits::CENTI_85, bits::CENTI_70, bits::CENTI_25)),
            exposure: Some(standard_exposure()),
            ..bare()
        },
    }
}

impl ShaderEffectConfig {
    /// The built-in preset of a quality.
    pub fn for_quality(q: RenderQuality) -> (r: ShaderEffectConfig)
        ensures
            r == preset(q),
    {
        let none = ShaderEffectConfig {
            sun_angle: n(bits::CENTI_18),
            sun_path_rotation_deg: n(bits::MINUS_35),
            shadows: None,
            ssao: None,
            atmosphere: None,
            clouds: None,
            water: None,
            fog: None,
            post: None,
            exposure: None,
        };
        match q {
            RenderQuality::Low => none,
            RenderQuality::Medium => ShaderEffectConfig {
                water: Some(water(2, bits::CENTI_35, bits::CENTI_35)),
                ..none
            },
            RenderQuality::High => ShaderEffectConfig {
                shadows: Some(
                    ShadowConfig {
                        resolution: 1024,
                        distance: n(bits::NINETY_SIX),
                        samples: 4,
                        strength: n(bits::CENTI_90),
                    },
                ),
                ssao: Some(
                    AoConfig { slices: 2, radius: n(bits::THREE), strength: n(bits::CENTI_70) },
                ),
                atmosphere: Some(sky()),
                clouds: Some(clouds(bits::SIXTY, bits::CENTI_70, 24)),
                water: Some(water(4, bits::CENTI_50, bits::CENTI_60)),
                fog: Some(FogConfig { density: n(bits::MILLI_1_5), tint: fog_tint() }),
                post: Some(post(bits::ONE, bits::CENTI_50, bits::CENTI_20)),
                exposure: Some(exposure()),
                ..none
            },
            RenderQuality::Ultra => ShaderEffectConfig {
                shadows: Some(
                    ShadowConfig {
                        resolution: 2048,
                        distance: n(bits::N160),
                        samples: 8,
                        strength: n(bits::ONE),
                    },
                ),
                ssao: Some(
                    AoConfig { slices: 4, radius: n(bits::FOUR), strength: n(bits::CENTI_85) },
                ),
                atmosphere: Some(sky()),
                clouds: Some(clouds(bits::EIGHTY, bits::CENTI_75, 40)),
                water: Some(water(6, bits::CENTI_60, bits::CENTI_75)),
                fog: Some(FogConfig { density: n(bits::MILLI_2_5), tint: fog_tint() }),
                post: Some(post(bits::CENTI_85, bits::CENTI_70, bits::CENTI_25)),
                exposure: Some(exposure()),
                ..none
            },
        }
    }

    pub open spec fn is_staged(&self) -> bool {
        self.post is Some || self.shadows is Some || self.ssao is Some
    }

    /// Whether the staged pipeline runs.
    pub fn uses_staged_pipeline(&self) -> (r: bool)
        ensures
            r == self.is_staged(),
    {
        self.post.is_some() || self.shadows.is_some() || self.ssao.is_some()
    }

    /// The two configurations are equal as numbers: zeros of both signs are,
    /// and nothing equals a NaN.
    pub open spec fn same_config(&self, other: &ShaderEffectConfig) -> bool {
        &&& self.sun_angle.same_spec(other.sun_angle)
        &&& self.sun_path_rotation_deg.same_spec(other.sun_path_rotation_deg)
        &&& match (self.shadows, other.shadows) {
            (Some(a), Some(b)) => a.resolution == b.resolution && a.distance.same_spec(b.distance)
                && a.samples == b.samples && a.strength.same_spec(b.strength),
            (None, None) => true,
            _ => false,
        }
        &&& match (self.ssao, other.ssao) {
            (Some(a), Some(b)) => a.slices == b.slices && a.radius.same_spec(b.radius)
                && a.strength.same_spec(b.strength),
            (None, None) => true,
            _ => false,
        }
        &&& match (self.atmosphere, other.atmosphere) {
            (Some(a), Some(b)) => same_rgb(a.rayleigh, b.rayleigh) && a.mie.same_spec(b.mie)
                && a.mie_g.same_spec(b.mie_g) && a.scale_height.same_spec(b.scale_height)
                && a.top_radius.same_spec(b.top_radius) && a.ground_radius.same_spec(
                b.ground_radius,
            ) && a.sun_illuminance.same_spec(b.sun_illuminance),
            (None, None) => true,
            _ => false,
        }
        &&& match (self.clouds, other.clouds) {
            (Some(a), Some(b)) => a.altitude.same_spec(b.altitude) && a.thickness.same_spec(
                b.thickness,
            ) && a.coverage.same_spec(b.coverage) && a.density.same_spec(b.density)
                && a.wind_speed.same_spec(b.wind_speed) && a.steps == b.steps,
            (None, None) => true,
            _ => false,
        }
        &&& match (self.water, other.water) {
            (Some(a), Some(b)) => a.octaves == b.octaves && a.amplitude.same_spec(b.amplitude)
                && a.speed.same_spec(b.speed) && same_rgb(a.absorption, b.absorption)
                && a.reflection_strength.same_spec(b.reflection_strength),
            (None, None) => true,
            _ => false,
        }
        &&& match (self.fog, other.fog) {
            (Some(a), Some(b)) => a.density.same_spec(b.density) && same_rgb(a.tint, b.tint),
            (None, None) => true,
            _ => false,
        }
        &&& match (self.post, other.post) {
            (Some(a), Some(b)) => a.bloom == b.bloom && a.bloom_threshold.same_spec(
                b.bloom_threshold,
            ) && a.bloom_intensity.same_spec(b.bloom_intensity) && a.tonemap == b.tonemap
                && a.vignette.same_spec(b.vignette),
            (None, None) => true,
            _ => false,
        }
        &&& match (self.exposure, other.exposure) {
            (Some(a), Some(b)) => a.f_stops.same_spec(b.f_stops) && a.shutter_speed.same_spec(
                b.shutter_speed,
            ) && a.iso.same_spec(b.iso),
            (None, None) => true,
            _ => false,
        }
    }

    pub fn same(&self, other: &ShaderEffectConfig) -> (r: bool)
        ensures
            r == self.same_config(other),
    {
        let shadows = match (&self.shadows, &other.shadows) {
            (Some(a), Some(b)) => a.resolution == b.resolution && a.distance.same(b.distance)
                && a.samples == b.samples && a.strength.same(b.strength),
            (None, None) => true,
            _ => false,
        };
        let ssao = match (&self.ssao, &other.ssao) {
            (Some(a), Some(b)) => a.slices == b.slices && a.radius.same(b.radius)
                && a.strength.same(b.strength),
            (None, None) => true,
            _ => false,
        };
        let atmosphere = match (&self.atmosphere, &other.atmosphere) {
            (Some(a), Some(b)) => rgb_same(a.rayleigh, b.rayleigh) && a.mie.same(b.mie)
                && a.mie_g.same(b.mie_g) && a.scale_height.same(b.scale_height)
                && a.top_radius.same(b.top_radius) && a.ground_radius.same(b.ground_radius)
                && a.sun_illuminance.same(b.sun_illuminance),
            (None, None) => true,
            _ => false,
        };
        let clouds = match (&self.clouds, &other.clouds) {
            (Some(a), Some(b)) => a.altitude.same(b.altitude) && a.thickness.same(b.thickness)
                && a.coverage.same(b.coverage) && a.density.same(b.density) && a.wind_speed.same(
                b.wind_speed,
            ) && a.steps == b.steps,
            (None, None) => true,
            _ => false,
        };
        let water = match (&self.water, &other.water) {
            (Some(a), Some(b)) => a.octaves == b.octaves && a.amplitude.same(b.amplitude)
                && a.speed.same(b.speed) && rgb_same(a.absorption, b.absorption)
                && a.reflection_strength.same(b.reflection_strength),
            (None, None) => true,
            _ => false,
        };
        let fog = match (&self.fog, &other.fog) {
            (Some(a), Some(b)) => a.density.same(b.density) && rgb_same(a.tint, b.tint),
            (None, None) => true,
            _ => false,
        };
        let post = match (&self.post, &other.post) {
            (Some(a), Some(b)) => a.bloom == b.bloom && a.bloom_threshold.same(b.bloom_threshold)
                && a.bloom_intensity.same(b.bloom_intensity) && a.tonemap == b.tonemap
                && a.vignette.same(b.vignette),
            (None, None) => true,
            _ => false,
        };
        let exposure = match (&self.exposure, &other.exposure) {
            (Some(a), Some(b)) => a.f_stops.same(b.f_stops) && a.shutter_speed.same(
                b.shutter_speed,
            ) && a.iso.same(b.iso),
            (None, None) => true,
            _ => false,
        };
        self.sun_angle.same(other.sun_angle) && self.sun_path_rotation_deg.same(
            other.sun_path_rotation_deg,
        ) && shadows && ssao && atmosphere && clouds && water && fog && post && exposure
    }
}

pub open spec fn same_rgb(a: Rgb, b: Rgb) -> bool {
    a.r.same_spec(b.r) && a.g.same_spec(b.g) && a.b.same_spec(b.b)
}

fn rgb_same(a: Rgb, b: Rgb) -> (r: bool)
    ensures
        r == same_rgb(a, b),
{
    a.r.same(b.r) && a.g.same(b.g) && a.b.same(b.b)
}

/// The presets form a ladder: Low runs no stage, Medium only water, and the
/// two upper ones run every stage, Ultra with larger maps and more steps.
pub proof fn law_quality_ladder()
    ensures
        preset(RenderQuality::Low) == bare(),
        !preset(RenderQuality::Low).is_staged(),
        !preset(RenderQuality::Medium).is_staged(),
        preset(RenderQuality::Medium).water is Some,
        (ShaderEffectConfig { water: None, ..preset(RenderQuality::Medium) }) == bare(),
        preset(RenderQuality::High).is_staged(),
        preset(RenderQuality::Ultra).is_staged(),
        ({
            let h = preset(RenderQuality::High);
            let u = preset(RenderQuality::Ultra);
            &&& h.shadows->0.resolution < u.shadows->0.resolution
            &&& h.shadows->0.samples < u.shadows->0.samples
            &&& h.ssao->0.slices < u.ssao->0.slices
            &&& h.clouds->0.steps < u.clouds->0.steps
            &&& preset(RenderQuality::Medium).water->0.octaves < h.water->0.octaves
            &&& h.water->0.octaves < u.water->0.octaves
            &&& h.shadows is Some && u.shadows is Some && h.ssao is Some && u.ssao is Some
            &&& h.clouds is Some && u.clouds is Some && h.water is Some && u.water is Some
            &&& h.atmosphere is Some && u.atmosphere is Some && h.post is Some && u.post is Some
            &&& h.fog is Some && u.fog is Some && h.exposure is Some && u.exposure is Some
        }),
{
}

/// The numbers of the presets. High: a shadow map of 1024 over 96 blocks, two
/// slices of occlusion, clouds in 24 steps, four octaves of waves. Ultra: 2048
/// over 160, four slices, 40 steps and six octaves. Medium: two octaves of
/// waves and no more. All have the sun of the morning, tilted by 35 degrees.
pub proof fn law_presets_have_their_numbers(q: RenderQuality)
    ensures
        preset(q).sun_angle.bits == 0x3e3851ec,
        preset(q).sun_path_rotation_deg.bits == 0xc20c0000,
        ({
            let c = preset(RenderQuality::High);
            &&& c.shadows matches Some(s) && s.resolution == 1024 && s.samples == 4
            &&& c.shadows->0.distance.bits == 0x42c00000 && c.shadows->0.strength.bits == 0x3f666666
            &&& c.ssao matches Some(a) && a.slices == 2 && a.radius.bits == 0x40400000
            &&& c.ssao->0.strength.bits == 0x3f333333
            &&& c.clouds matches Some(k) && k.steps == 24 && k.altitude.bits == 0x43200000
            &&& c.clouds->0.thickness.bits == 0x42700000 && c.clouds->0.coverage.bits == 0x3f000000
            &&& c.clouds->0.density.bits == 0x3f333333 && c.clouds->0.wind_speed.bits == 0x40400000
            &&& c.water matches Some(w) && w.octaves == 4 && w.amplitude.bits == 0x3f000000
            &&& c.water->0.speed.bits == 0x3f800000 && c.water->0.reflection_strength.bits == 0x3f19999a
            &&& c.water->0.absorption.r.bits == 0x3ee66666 && c.water->0.absorption.g.bits == 0x3da3d70a
            &&& c.water->0.absorption.b.bits == 0x3cf5c28f
            &&& c.fog matches Some(f) && f.density.bits == 0x3ac49ba6
            &&& c.fog->0.tint.r.bits == 0x3f666666 && c.fog->0.tint.g.bits == 0x3f733333
            &&& c.fog->0.tint.b.bits == 0x3f800000
            &&& c.post matches Some(p) && p.bloom && p.tonemap == Tonemap::Aces
            &&& c.post->0.bloom_threshold.bits == 0x3f800000 && c.post->0.bloom_intensity.bits == 0x3f000000
            &&& c.post->0.vignette.bits == 0x3e4ccccd
            &&& c.exposure matches Some(e) && e.f_stops.bits == 0x41000000 && e.iso.bits == 0x43480000
            &&& c.exposure->0.shutter_speed.bits == 0x42fa0000
            &&& c.atmosphere matches Some(a) && a.rayleigh.r.bits == 0x36c29d9f && a.mie.bits == 0x37b02928
            &&& c.atmosphere->0.rayleigh.g.bits == 0x37627e0f && c.atmosphere->0.rayleigh.b.bits == 0x380ad4db
            &&& c.atmosphere->0.mie_g.bits == 0x3f428f5c && c.atmosphere->0.scale_height.bits == 0x4604d000
            &&& c.atmosphere->0.top_radius.bits == 0x4ac57ab0
            &&& c.atmosphere->0.ground_radius.bits == 0x4ac26d70
            &&& c.atmosphere->0.sun_illuminance.bits == 0x42200000
        }),
        ({
            let c = preset(RenderQuality::Ultra);
            &&& c.shadows matches Some(s) && s.resolution == 2048 && s.samples == 8
            &&& c.shadows->0.distance.bits == 0x43200000 && c.shadows->0.strength.bits == 0x3f800000
            &&& c.ssao matches Some(a) && a.slices == 4 && a.radius.bits == 0x40800000
            &&& c.ssao->0.strength.bits == 0x3f59999a
            &&& c.clouds matches Some(k) && k.steps == 40 && k.altitude.bits == 0x43200000
            &&& c.clouds->0.thickness.bits == 0x42a00000 && c.clouds->0.coverage.bits == 0x3f000000
            &&& c.clouds->0.density.bits == 0x3f400000 && c.clouds->0.wind_speed.bits == 0x40400000
            &&& c.water matches Some(w) && w.octaves == 6 && w.amplitude.bits == 0x3f19999a
            &&& c.water->0.speed.bits == 0x3f800000 && c.water->0.reflection_strength.bits == 0x3f400000
            &&& c.water->0.absorption.r.bits == 0x3ee66666 && c.water->0.absorption.g.bits == 0x3da3d70a
            &&& c.water->0.absorption.b.bits == 0x3cf5c28f
            &&& c.fog matches Some(f) && f.density.bits == 0x3b23d70a
            &&& c.fog->0.tint.r.bits == 0x3f666666 && c.fog->0.tint.g.bits == 0x3f733333
            &&& c.fog->0.tint.b.bits == 0x3f800000
            &&& c.post matches Some(p) && p.bloom && p.tonemap == Tonemap::Aces
            &&& c.post->0.bloom_threshold.bits == 0x3f59999a && c.post->0.bloom_intensity.bits == 0x3f333333
            &&& c.post->0.vignette.bits == 0x3e800000
            &&& c.exposure matches Some(e) && e.f_stops.bits == 0x41000000 && e.iso.bits == 0x43480000
            &&& c.exposure->0.shutter_speed.bits == 0x42fa0000
            &&& c.atmosphere matches Some(a) && a.rayleigh.r.bits == 0x36c29d9f && a.mie.bits == 0x37b02928
            &&& c.atmosphere->0.rayleigh.g.bits == 0x37627e0f && c.atmosphere->0.rayleigh.b.bits == 0x380ad4db
            &&& c.atmosphere->0.mie_g.bits == 0x3f428f5c && c.atmosphere->0.scale_height.bits == 0x4604d000
            &&& c.atmosphere->0.top_radius.bits == 0x4ac57ab0
            &&& c.atmosphere->0.ground_radius.bits == 0x4ac26d70
            &&& c.atmosphere->0.sun_illuminance.bits == 0x42200000
        }),
        ({
            let c = preset(RenderQuality::Medium);
            &&& c.water matches Some(w) && w.octaves == 2 && w.amplitude.bits == 0x3eb33333
            &&& c.water->0.speed.bits == 0x3f800000 && c.water->0.reflection_strength.bits == 0x3eb33333
            &&& c.water->0.absorption.r.bits == 0x3ee66666 && c.water->0.absorption.g.bits == 0x3da3d70a
            &&& c.water->0.absorption.b.bits == 0x3cf5c28f
            &&& c.shadows is None && c.ssao is None && c.atmosphere is None && c.clouds is None
            &&& c.fog is None && c.post is None && c.exposure is None
        }),
        ({
            let c = preset(RenderQuality::Low);
            &&& c.shadows is None && c.ssao is None && c.atmosphere is None && c.clouds is None
            &&& c.fog is None && c.post is None && c.exposure is None && c.water is None
        }),
{
}

/// A configuration is staged where it has post processing, shadows or ambient
/// occlusion.
pub proof fn law_staged_configurations(c: ShaderEffectConfig)
    ensures
        c.post is Some ==> c.is_staged(),
        c.shadows is Some ==> c.is_staged(),
        c.ssao is Some ==> c.is_staged(),
        c.post is None && c.shadows is None && c.ssao is None ==> !c.is_staged(),
{
}

/// Configurations that are the same have the same stages with the same whole
/// numbers, switches and curves, and each of their numbers is the same.
pub proof fn law_same_configurations(a: ShaderEffectConfig, b: ShaderEffectConfig)
    requires
        a.same_config(&b),
    ensures
        a.sun_angle.same_spec(b.sun_angle),
        a.sun_path_rotation_deg.same_spec(b.sun_path_rotation_deg),
        a.shadows is Some == b.shadows is Some,
        a.ssao is Some == b.ssao is Some,
        a.atmosphere is Some == b.atmosphere is Some,
        a.clouds is Some == b.clouds is Some,
        a.water is Some == b.water is Some,
        a.fog is Some == b.fog is Some,
        a.post is Some == b.post is Some,
        a.exposure is Some == b.exposure is Some,
        a.shadows is Some ==> a.shadows->0.resolution == b.shadows->0.resolution
            && a.shadows->0.samples == b.shadows->0.samples && a.shadows->0.distance.same_spec(
            b.shadows->0.distance,
        ) && a.shadows->0.strength.same_spec(b.shadows->0.strength),
        a.ssao is Some ==> a.ssao->0.slices == b.ssao->0.slices && a.ssao->0.radius.same_spec(
            b.ssao->0.radius,
        ) && a.ssao->0.strength.same_spec(b.ssao->0.strength),
        a.clouds is Some ==> a.clouds->0.steps == b.clouds->0.steps && a.clouds->0.altitude.same_spec(
            b.clouds->0.altitude,
        ) && a.clouds->0.coverage.same_spec(b.clouds->0.coverage),
        a.water is Some ==> a.water->0.octaves == b.water->0.octaves && a.water->0.amplitude.same_spec(
            b.water->0.amplitude,
        ),
        a.fog is Some ==> a.fog->0.density.same_spec(b.fog->0.density),
        a.post is Some ==> a.post->0.bloom == b.post->0.bloom && a.post->0.tonemap
            == b.post->0.tonemap && a.post->0.vignette.same_spec(b.post->0.vignette),
        a.exposure is Some ==> a.exposure->0.f_stops.same_spec(b.exposure->0.f_stops)
            && a.exposure->0.shutter_speed.same_spec(b.exposure->0.shutter_speed)
            && a.exposure->0.iso.same_spec(b.exposure->0.iso),
{
}

/// A preset is the same as itself and as no other preset.
pub proof fn law_presets_differ(q: RenderQuality, r: RenderQuality)
    ensures
        preset(q).same_config(&preset(r)) <==> q == r,
{
}

/// Configurations that are the same have the same colors and the same numbers
/// in every stage.
pub proof fn law_same_configurations_have_same_numbers(
    a: ShaderEffectConfig,
    b: ShaderEffectConfig,
)
    requires
        a.same_config(&b),
    ensures
        a.atmosphere is Some ==> a.atmosphere->0.rayleigh.r.same_spec(b.atmosphere->0.rayleigh.r) && a.atmosphere->0.rayleigh.g.same_spec(b.atmosphere->0.rayleigh.g) && a.atmosphere->0.rayleigh.b.same_spec(b.atmosphere->0.rayleigh.b) && a.atmosphere->0.mie.same_spec(b.atmosphere->0.mie) && a.atmosphere->0.mie_g.same_spec(b.atmosphere->0.mie_g) && a.atmosphere->0.scale_height.same_spec(b.atmosphere->0.scale_height) && a.atmosphere->0.top_radius.same_spec(b.atmosphere->0.top_radius) && a.atmosphere->0.ground_radius.same_spec(b.atmosphere->0.ground_radius) && a.atmosphere->0.sun_illuminance.same_spec(b.atmosphere->0.sun_illuminance),
        a.clouds is Some ==> a.clouds->0.altitude.same_spec(b.clouds->0.altitude) && a.clouds->0.thickness.same_spec(b.clouds->0.thickness) && a.clouds->0.coverage.same_spec(b.clouds->0.coverage) && a.clouds->0.density.same_spec(b.clouds->0.density) && a.clouds->0.wind_speed.same_spec(b.clouds->0.wind_speed),
        a.water is Some ==> a.water->0.amplitude.same_spec(b.water->0.amplitude) && a.water->0.speed.same_spec(b.water->0.speed) && a.water->0.absorption.r.same_spec(b.water->0.absorption.r) && a.water->0.absorption.g.same_spec(b.water->0.absorption.g) && a.water->0.absorption.b.same_spec(b.water->0.absorption.b) && a.water->0.reflection_strength.same_spec(b.water->0.reflection_strength),
        a.fog is Some ==> a.fog->0.density.same_spec(b.fog->0.density) && a.fog->0.tint.r.same_spec(b.fog->0.tint.r) && a.fog->0.tint.g.same_spec(b.fog->0.tint.g) && a.fog->0.tint.b.same_spec(b.fog->0.tint.b),
        a.post is Some ==> a.post->0.bloom_threshold.same_spec(b.post->0.bloom_threshold) && a.post->0.bloom_intensity.same_spec(b.post->0.bloom_intensity) && a.post->0.vignette.same_spec(b.post->0.vignette),
{
}

} // verus!
