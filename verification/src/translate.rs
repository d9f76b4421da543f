//! Shader-pack options mapped onto the effect configuration.
//!
//! Only the option surface that packs publish in `shaders.properties` is
//! read; no shader program of a pack ever runs. What cannot be mapped is
//! reported, never imitated.

use crate::ascii::{
    number_in, parse_number, same_ignoring_case, str_same_ignoring_case, strip_all, strip_all_chars,
    words, words_of,
};
use crate::bits;
use crate::effects::{
    fog_tint, num, preset, sky, standard_sky, standard_tint, AoConfig, AtmosphereConfig,
    CloudsConfig, ExposureConfig, FogConfig, PostConfig, RenderQuality, ShaderEffectConfig,
    ShadowConfig, Tonemap, WaterConfig,
};
use crate::order::{is_stable_order, order_pairs, pair_le, pairs_le};
use crate::properties::{parse_properties, properties_in, Properties};
use crate::scalar::F32;
use crate::text::{
    chars_of, join2, pairs_of, pieces_of, split_once, split_once_chars, starts_with, str_eq,
    str_starts_with, string_of,
};
use vstd::prelude::*;

verus! {

/// Options by their names.
pub type Options = Map<Seq<char>, Seq<char>>;

/// The numbers that option values stand for, where they are numbers. Percent
/// values come as parts of one, and the fog density in the engine's unit.
#[derive(Clone, Copy, Debug, PartialEq, Eq, Structural)]
pub struct PackNumbers {
    /// `shadowDistance`
    pub shadow_distance: Option<F32>,
    /// `AO_SCALE`, a hundredth of it
    pub ao_scale: Option<F32>,
    /// `sunPathRotation`
    pub sun_path_rotation: Option<F32>,
    /// `CLOUDS_LAYER0_ALTITUDE`
    pub cloud_altitude: Option<F32>,
    /// `CLOUDS_LAYER0_COVERAGE`
    pub cloud_coverage: Option<F32>,
    /// `WAVE_AMPLITUDE`
    pub wave_amplitude: Option<F32>,
    /// `FOG_DENSITY`, a hundredth of it
    pub fog_density: Option<F32>,
    /// `BLOOM_STRENGTH`
    pub bloom_strength: Option<F32>,
    /// `VIGNETTE_STRENGTH`
    pub vignette_strength: Option<F32>,
    /// `F_STOPS`
    pub f_stops: Option<F32>,
    /// `SHUTTER_SPEED`
    pub shutter_speed: Option<F32>,
    /// `ISO`
    pub iso: Option<F32>,
}

/// The texts of the options whose values are numbers with a fraction, where
/// the options are set.
#[derive(Debug)]
pub struct NumberTexts {
    pub shadow_distance: Option<String>,
    pub ao_scale: Option<String>,
    pub sun_path_rotation: Option<String>,
    pub cloud_altitude: Option<String>,
    pub cloud_coverage: Option<String>,
    pub wave_amplitude: Option<String>,
    pub fog_density: Option<String>,
    pub bloom_strength: Option<String>,
    pub vignette_strength: Option<String>,
    pub f_stops: Option<String>,
    pub shutter_speed: Option<String>,
    pub iso: Option<String>,
}

/// The text is the value of an option, where the option is set.
pub open spec fn is_text_of(text: Option<String>, m: Options, key: Seq<char>) -> bool {
    match text {
        Some(t) => m.dom().contains(key) && t@ == m[key],
        None => !m.dom().contains(key),
    }
}

fn text_of_option(options: &Properties, key: &str) -> (r: Option<String>)
    requires
        options.wf(),
    ensures
        is_text_of(r, options.map(), key@),
{
    match options.get(key) {
        Some(v) => Some(v.clone()),
        None => None,
    }
}

/// Picks the texts of the numbers out of the options in force.
pub fn number_texts(options: &Properties) -> (r: NumberTexts)
    requires
        options.wf(),
    ensures
        is_text_of(r.shadow_distance, options.map(), "shadowDistance"@),
        is_text_of(r.ao_scale, options.map(), "AO_SCALE"@),
        is_text_of(r.sun_path_rotation, options.map(), "sunPathRotation"@),
        is_text_of(r.cloud_altitude, options.map(), "CLOUDS_LAYER0_ALTITUDE"@),
        is_text_of(r.cloud_coverage, options.map(), "CLOUDS_LAYER0_COVERAGE"@),
        is_text_of(r.wave_amplitude, options.map(), "WAVE_AMPLITUDE"@),
        is_text_of(r.fog_density, options.map(), "FOG_DENSITY"@),
        is_text_of(r.bloom_strength, options.map(), "BLOOM_STRENGTH"@),
        is_text_of(r.vignette_strength, options.map(), "VIGNETTE_STRENGTH"@),
        is_text_of(r.f_stops, options.map(), "F_STOPS"@),
        is_text_of(r.shutter_speed, options.map(), "SHUTTER_SPEED"@),
        is_text_of(r.iso, options.map(), "ISO"@),
{
    NumberTexts {
        shadow_distance: text_of_option(options, "shadowDistance"),
        ao_scale: text_of_option(options, "AO_SCALE"),
        sun_path_rotation: text_of_option(options, "sunPathRotation"),
        cloud_altitude: text_of_option(options, "CLOUDS_LAYER0_ALTITUDE"),
        cloud_coverage: text_of_option(options, "CLOUDS_LAYER0_COVERAGE"),
        wave_amplitude: text_of_option(options, "WAVE_AMPLITUDE"),
        fog_density: text_of_option(options, "FOG_DENSITY"),
        bloom_strength: text_of_option(options, "BLOOM_STRENGTH"),
        vignette_strength: text_of_option(options, "VIGNETTE_STRENGTH"),
        f_stops: text_of_option(options, "F_STOPS"),
        shutter_speed: text_of_option(options, "SHUTTER_SPEED"),
        iso: text_of_option(options, "ISO"),
    }
}

/// The numbers stem from the options: a number is there only where its option
/// is set.
pub open spec fn numbers_from(x: PackNumbers, m: Options) -> bool {
    &&& x.shadow_distance is Some ==> m.dom().contains("shadowDistance"@)
    &&& x.ao_scale is Some ==> m.dom().contains("AO_SCALE"@)
    &&& x.sun_path_rotation is Some ==> m.dom().contains("sunPathRotation"@)
    &&& x.cloud_altitude is Some ==> m.dom().contains("CLOUDS_LAYER0_ALTITUDE"@)
    &&& x.cloud_coverage is Some ==> m.dom().contains("CLOUDS_LAYER0_COVERAGE"@)
    &&& x.wave_amplitude is Some ==> m.dom().contains("WAVE_AMPLITUDE"@)
    &&& x.fog_density is Some ==> m.dom().contains("FOG_DENSITY"@)
    &&& x.bloom_strength is Some ==> m.dom().contains("BLOOM_STRENGTH"@)
    &&& x.vignette_strength is Some ==> m.dom().contains("VIGNETTE_STRENGTH"@)
    &&& x.f_stops is Some ==> m.dom().contains("F_STOPS"@)
    &&& x.shutter_speed is Some ==> m.dom().contains("SHUTTER_SPEED"@)
    &&& x.iso is Some ==> m.dom().contains("ISO"@)
}

/// The outcome of mapping a pack's options.
#[derive(Debug)]
pub struct ShaderPackConfig {
    pub config: ShaderEffectConfig,
    /// Options that are known and cannot be honored, with their values, in
    /// the order of their names.
    pub unsupported: Vec<(String, String)>,
    /// Options that are not known at all, in the order of their names.
    pub unknown: Vec<(String, String)>,
}

/// The profile names that match a quality, the best first.
pub open spec fn wanted_profiles(q: RenderQuality) -> Seq<Seq<char>> {
    match q {
        RenderQuality::Low => seq!["profile.POTATO"@],
        RenderQuality::Medium => seq!["profile.MEDIUM"@, "profile.LIGHT"@],
        RenderQuality::High => seq!["profile.HIGH"@],
        RenderQuality::Ultra => seq!["profile.ULTRA"@],
    }
}

/// The first entry whose key passes a test; the length where none does.
pub open spec fn first_key(
    entries: Seq<(Seq<char>, Seq<char>)>,
    p: spec_fn(Seq<char>) -> bool,
) -> int
    decreases entries.len(),
{
    if entries.len() == 0 {
        0
    } else if p(entries[0].0) {
        0
    } else {
        1 + first_key(entries.skip(1), p)
    }
}

proof fn lemma_first_key(
    entries: Seq<(Seq<char>, Seq<char>)>,
    p: spec_fn(Seq<char>) -> bool,
    i: int,
)
    requires
        0 <= i <= entries.len(),
        forall|k: int| 0 <= k < i ==> !p((#[trigger] entries[k]).0),
        i < entries.len() ==> p(entries[i].0),
    ensures
        first_key(entries, p) == i,
    decreases entries.len(),
{
    if entries.len() > 0 && i > 0 {
        assert(!p(entries[0].0));
        assert forall|k: int| 0 <= k < i - 1 implies !p((#[trigger] entries.skip(1)[k]).0) by {
            assert(entries.skip(1)[k] == entries[k + 1]);
        }
        lemma_first_key(entries.skip(1), p, i - 1);
    }
}

/// The key of the first of some profiles that is declared, letter case aside.
pub open spec fn declared_among(
    entries: Seq<(Seq<char>, Seq<char>)>,
    wanted: Seq<Seq<char>>,
    n: int,
) -> Option<Seq<char>>
    decreases n,
{
    if n <= 0 {
        None
    } else {
        let earlier = declared_among(entries, wanted, n - 1);
        let i = first_key(entries, |k: Seq<char>| same_ignoring_case(k, wanted[n - 1]));
        if earlier is Some {
            earlier
        } else if i < entries.len() {
            Some(entries[i].0)
        } else {
            None
        }
    }
}

/// The profile that applies: the one that the key `profile` names; or else the
/// one that goes with the quality; or else the first one declared, in the
/// order of the keys.
pub open spec fn selected_profile(
    entries: Seq<(Seq<char>, Seq<char>)>,
    m: Options,
    q: RenderQuality,
) -> Option<Seq<char>> {
    if m.dom().contains("profile"@) {
        Some(m["profile"@])
    } else {
        let wanted = wanted_profiles(q);
        let i = first_key(entries, |k: Seq<char>| starts_with(k, "profile."@));
        match declared_among(entries, wanted, wanted.len() as int) {
            Some(k) => Some(strip_all(k, "profile."@)),
            None => if i < entries.len() {
                Some(strip_all(entries[i].0, "profile."@))
            } else {
                None
            },
        }
    }
}

/// Options with those that the first `n` words of a profile line set.
pub open spec fn with_words(m: Options, w: Seq<Seq<char>>, n: int) -> Options
    decreases n,
{
    if n <= 0 {
        m
    } else {
        match split_once(w[n - 1], '=') {
            Some(p) => with_words(m, w, n - 1).insert(p.0, p.1),
            None => with_words(m, w, n - 1),
        }
    }
}

/// The options in force: those of the file, and over them those of the
/// profile that applies.
pub open spec fn effective_options(
    entries: Seq<(Seq<char>, Seq<char>)>,
    m: Options,
    q: RenderQuality,
) -> Options {
    match selected_profile(entries, m, q) {
        Some(name) => {
            let key = "profile."@ + name;
            if m.dom().contains(key) {
                with_words(m, words(m[key]), words(m[key]).len() as int)
            } else {
                m
            }
        },
        None => m,
    }
}

/// The position of the first key that equals a name, letter case aside.
fn find_same(p: &Properties, name: &str) -> (r: usize)
    ensures
        r == first_key(pairs_of(p.entries@), |k: Seq<char>| same_ignoring_case(k, name@)),
        r <= p.entries.len(),
{
    let ghost test = |k: Seq<char>| same_ignoring_case(k, name@);
    let ghost all = pairs_of(p.entries@);
    let mut i: usize = 0;
    while i < p.entries.len() && !str_same_ignoring_case(p.entries[i].0.as_str(), name)
        invariant
            i <= p.entries.len(),
            all == pairs_of(p.entries@),
            test == (|k: Seq<char>| same_ignoring_case(k, name@)),
            forall|k: int| 0 <= k < i ==> !test((#[trigger] all[k]).0),
        decreases p.entries.len() - i,
    {
        assert(all[i as int].0 == p.entries@[i as int].0@);
        i += 1;
    }
    proof {
        if i < p.entries.len() {
            assert(all[i as int].0 == p.entries@[i as int].0@);
        }
        lemma_first_key(all, test, i as int);
    }
    i
}

/// The position of the first key with a prefix.
fn find_prefix(p: &Properties, prefix: &str) -> (r: usize)
    ensures
        r == first_key(pairs_of(p.entries@), |k: Seq<char>| starts_with(k, prefix@)),
        r <= p.entries.len(),
{
    let ghost test = |k: Seq<char>| starts_with(k, prefix@);
    let ghost all = pairs_of(p.entries@);
    let mut i: usize = 0;
    while i < p.entries.len() && !str_starts_with(p.entries[i].0.as_str(), prefix)
        invariant
            i <= p.entries.len(),
            all == pairs_of(p.entries@),
            test == (|k: Seq<char>| starts_with(k, prefix@)),
            forall|k: int| 0 <= k < i ==> !test((#[trigger] all[k]).0),
        decreases p.entries.len() - i,
    {
        assert(all[i as int].0 == p.entries@[i as int].0@);
        i += 1;
    }
    proof {
        if i < p.entries.len() {
            assert(all[i as int].0 == p.entries@[i as int].0@);
        }
        lemma_first_key(all, test, i as int);
    }
    i
}

fn profile_name(key: &str) -> (r: String)
    ensures
        r@ == strip_all(key@, "profile."@),
{
    let k = chars_of(key);
    let p = chars_of("profile.");
    let rest = strip_all_chars(&k, &p);
    string_of(&rest)
}

/// The position of the entry of the profile that goes with a quality.
fn find_wanted(p: &Properties, q: RenderQuality) -> (r: usize)
    ensures
        r <= p.entries.len(),
        ({
            let all = pairs_of(p.entries@);
            let wanted = wanted_profiles(q);
            declared_among(all, wanted, wanted.len() as int) == (if r < p.entries.len() {
                Some(all[r as int].0)
            } else {
                None
            })
        }),
{
    let ghost all = pairs_of(p.entries@);
    let ghost wanted = wanted_profiles(q);
    let first = match q {
        RenderQuality::Low => "profile.POTATO",
        RenderQuality::Medium => "profile.MEDIUM",
        RenderQuality::High => "profile.HIGH",
        RenderQuality::Ultra => "profile.ULTRA",
    };
    let i = find_same(p, first);
    assert(wanted[0] == first@);
    assert(declared_among(all, wanted, 0) is None);
    assert(declared_among(all, wanted, 1) == (if i < p.entries.len() {
        Some(all[i as int].0)
    } else {
        None
    }));
    if i < p.entries.len() || q != RenderQuality::Medium {
        assert(wanted.len() == 2 ==> declared_among(all, wanted, 2) == declared_among(
            all,
            wanted,
            1,
        ));
        return i;
    }
    let j = find_same(p, "profile.LIGHT");
    assert(wanted[1] == "profile.LIGHT"@);
    assert(declared_among(all, wanted, 2) == (if j < p.entries.len() {
        Some(all[j as int].0)
    } else {
        None
    }));
    j
}

fn select_profile(p: &Properties, q: RenderQuality) -> (r: Option<String>)
    requires
        p.wf(),
    ensures
        match r {
            Some(s) => selected_profile(pairs_of(p.entries@), p.map(), q) == Some(s@),
            None => selected_profile(pairs_of(p.entries@), p.map(), q) is None,
        },
{
    let ghost all = pairs_of(p.entries@);
    match p.get("profile") {
        Some(s) => Some(s.clone()),
        None => {
            let i = find_wanted(p, q);
            if i < p.entries.len() {
                assert(all[i as int].0 == p.entries@[i as int].0@);
                return Some(profile_name(p.entries[i].0.as_str()));
            }
            let j = find_prefix(p, "profile.");
            if j < p.entries.len() {
                assert(all[j as int].0 == p.entries@[j as int].0@);
                Some(profile_name(p.entries[j].0.as_str()))
            } else {
                None
            }
        },
    }
}

/// The options in force out of a properties file's text.
pub open spec fn options_of(file: Properties, text: Seq<char>, q: RenderQuality) -> Options {
    effective_options(pairs_of(file.entries@), properties_in(text), q)
}

/// Puts the profile that applies over the options of a file.
pub fn apply_profile(file: &Properties, q: RenderQuality) -> (r: Properties)
    requires
        file.wf(),
    ensures
        r.wf(),
        r.map() == effective_options(pairs_of(file.entries@), file.map(), q),
{
    let mut out = file.copied();
    assert(out.map() =~= file.map());
    match select_profile(file, q) {
        Some(name) => {
            let key = join2("profile.", name.as_str());
            match file.get(key.as_str()) {
                Some(line) => {
                    let l = chars_of(line.as_str());
                    let w = words_of(&l);
                    let ghost all = pieces_of(w@);
                    let ghost m = file.map();
                    let mut n: usize = 0;
                    while n < w.len()
                        invariant
                            n <= w.len(),
                            all == pieces_of(w@),
                            out.wf(),
                            out.map() == with_words(m, all, n as int),
                        decreases w.len() - n,
                    {
                        assert(all[n as int] == w@[n as int]@);
                        match split_once_chars(&w[n], '=') {
                            Some((k, v)) => {
                                out.put(string_of(&k), string_of(&v));
                            },
                            None => {},
                        }
                        n += 1;
                    }
                },
                None => {},
            }
        },
        None => {},
    }
    out
}

/// The options in force that a properties file's text gives.
pub fn read_options(text: &str, q: RenderQuality) -> (r: Properties)
    ensures
        r.wf(),
        exists|file: Properties| #[trigger] is_reading(text@, q, file, r),
{
    let file = parse_properties(text);
    let r = apply_profile(&file, q);
    assert(is_reading(text@, q, file, r));
    r
}

/// A switch: on for the words that say so, off for any other value, and
/// nothing where it is not set.
pub open spec fn switch(m: Options, key: Seq<char>) -> Option<bool> {
    if m.dom().contains(key) {
        let v = m[key];
        Some(v == "true"@ || v == "1"@ || v == "on"@ || v == "enabled"@)
    } else {
        None
    }
}

/// A whole number, where the option is one.
pub open spec fn whole(m: Options, key: Seq<char>) -> Option<u32> {
    if m.dom().contains(key) {
        number_in(m[key])
    } else {
        None
    }
}

fn switch_of(p: &Properties, key: &str) -> (r: Option<bool>)
    requires
        p.wf(),
    ensures
        r == switch(p.map(), key@),
{
    match p.get(key) {
        Some(v) => Some(
            str_eq(v.as_str(), "true") || str_eq(v.as_str(), "1") || str_eq(v.as_str(), "on")
                || str_eq(v.as_str(), "enabled"),
        ),
        None => None,
    }
}

fn whole_of(p: &Properties, key: &str) -> (r: Option<u32>)
    requires
        p.wf(),
    ensures
        r == whole(p.map(), key@),
{
    match p.get(key) {
        Some(v) => parse_number(v.as_str()),
        None => None,
    }
}

/// A number moved between two limits.
pub open spec fn limited(v: u32, low: u32, high: u32) -> u32 {
    if v < low {
        low
    } else if v > high {
        high
    } else {
        v
    }
}

fn limit(v: u32, low: u32, high: u32) -> (r: u32)
    ensures
        r == limited(v, low, high),
{
    if v < low {
        low
    } else if v > high {
        high
    } else {
        v
    }
}

/// An optional value or a default.
pub open spec fn or_else<T>(v: Option<T>, d: T) -> T {
    match v {
        Some(x) => x,
        None => d,
    }
}

/// A number moved between two limits given by their bits.
pub open spec fn between(v: F32, low: u32, high: u32) -> F32 {
    v.clamp_spec(num(low), num(high))
}

fn clamped(v: F32, low: u32, high: u32) -> (r: F32)
    requires
        num(low).le_spec(num(high)),
    ensures
        r == between(v, low, high),
{
    v.clamp(F32 { bits: low }, F32 { bits: high })
}

/// `low` is at most `high`.
proof fn lemma_limits()
    ensures
        num(bits::SIXTEEN).le_spec(num(bits::N512)),
        num(bits::ZERO).le_spec(num(bits::ONE)),
        num(bits::MINUS_60).le_spec(num(bits::SIXTY)),
        num(bits::FORTY).le_spec(num(bits::N400)),
        num(bits::ZERO).le_spec(num(bits::TWO)),
        num(bits::ZERO).le_spec(num(bits::CENTI_5)),
        num(bits::ONE).le_spec(num(bits::TWENTY_TWO)),
        num(bits::ONE).le_spec(num(bits::N8000)),
        num(bits::FIFTY).le_spec(num(bits::N6400)),
{
    crate::scalar::lemma_bits_order(bits::SIXTEEN, bits::N512);
    crate::scalar::lemma_bits_order(bits::ZERO, bits::ONE);
    crate::scalar::lemma_bits_order(bits::FORTY, bits::N400);
    crate::scalar::lemma_bits_order(bits::ZERO, bits::TWO);
    crate::scalar::lemma_bits_order(bits::ZERO, bits::CENTI_5);
    crate::scalar::lemma_bits_order(bits::ONE, bits::TWENTY_TWO);
    crate::scalar::lemma_bits_order(bits::ONE, bits::N8000);
    crate::scalar::lemma_bits_order(bits::FIFTY, bits::N6400);
    crate::scalar::lemma_signs_order(bits::MINUS_60, bits::SIXTY);
}

/// The shadows of a pack that turns them on over a base without any.
pub open spec fn plain_shadows() -> ShadowConfig {
    ShadowConfig {
        resolution: 2048,
        distance: num(bits::N128),
        samples: 4,
        strength: num(bits::CENTI_90),
    }
}

/// Shadows: on, off or left alone. What the pack does not set of shadows that
/// are on stays as in the base, where it has some.
pub open spec fn shadows_by(
    m: Options,
    x: PackNumbers,
    base: Option<ShadowConfig>,
) -> Option<ShadowConfig> {
    if !m.dom().contains("SHADOWS"@) {
        base
    } else if m["SHADOWS"@] == "0"@ || m["SHADOWS"@] == "false"@ {
        None
    } else {
        let s = or_else(base, plain_shadows());
        Some(
            ShadowConfig {
                resolution: match whole(m, "shadowMapResolution"@) {
                    Some(v) => limited(v, 256, 8192),
                    None => s.resolution,
                },
                distance: match x.shadow_distance {
                    Some(d) => between(d, bits::SIXTEEN, bits::N512),
                    None => s.distance,
                },
                samples: match whole(m, "SHADOW_SAMPLES"@) {
                    Some(v) => limited(v, 1, 16),
                    None => s.samples,
                },
                strength: s.strength,
            },
        )
    }
}

fn translate_shadows(
    p: &Properties,
    x: &PackNumbers,
    base: Option<ShadowConfig>,
) -> (r: Option<ShadowConfig>)
    requires
        p.wf(),
    ensures
        r == shadows_by(p.map(), *x, base),
{
    match p.get("SHADOWS") {
        Some(v) => {
            if str_eq(v.as_str(), "0") || str_eq(v.as_str(), "false") {
                return None;
            }
            proof {
                lemma_limits();
            }
            let s = match base {
                Some(s) => s,
                None => ShadowConfig {
                    resolution: 2048,
                    distance: F32 { bits: bits::N128 },
                    samples: 4,
                    strength: F32 { bits: bits::CENTI_90 },
                },
            };
            let resolution: u32 = match whole_of(p, "shadowMapResolution") {
                Some(v) => limit(v, 256, 8192),
                None => s.resolution,
            };
            let distance = match x.shadow_distance {
                Some(d) => clamped(d, bits::SIXTEEN, bits::N512),
                None => s.distance,
            };
            let samples: u32 = match whole_of(p, "SHADOW_SAMPLES") {
                Some(v) => limit(v, 1, 16),
                None => s.samples,
            };
            Some(ShadowConfig { resolution, distance, samples, ..s })
        },
        None => base,
    }
}

/// Ambient occlusion: off for mode 0, on for another mode, left alone where
/// the mode is no number. The mode sets the slices; radius and strength stay
/// as in the base, where it has some and the pack does not set them.
pub open spec fn ao_by(m: Options, x: PackNumbers, base: Option<AoConfig>) -> Option<AoConfig> {
    match whole(m, "AO"@) {
        Some(mode) => if mode == 0 {
            None
        } else {
            Some(
                AoConfig {
                    slices: limited(mode / 2, 1, 8),
                    radius: match base {
                        Some(a) => a.radius,
                        None => num(bits::THREE),
                    },
                    strength: match x.ao_scale {
                        Some(s) => between(s, bits::ZERO, bits::ONE).at_least_spec(
                            num(bits::CENTI_15),
                        ),
                        None => match base {
                            Some(a) => a.strength,
                            None => num(bits::CENTI_50),
                        },
                    },
                },
            )
        },
        None => base,
    }
}

fn translate_ao(p: &Properties, x: &PackNumbers, base: Option<AoConfig>) -> (r: Option<AoConfig>)
    requires
        p.wf(),
    ensures
        r == ao_by(p.map(), *x, base),
{
    match whole_of(p, "AO") {
        Some(mode) => {
            if mode == 0 {
                return None;
            }
            proof {
                lemma_limits();
            }
            let a = match base {
                Some(a) => a,
                None => AoConfig {
                    slices: 1,
                    radius: F32 { bits: bits::THREE },
                    strength: F32 { bits: bits::CENTI_50 },
                },
            };
            let strength = match x.ao_scale {
                Some(s) => clamped(s, bits::ZERO, bits::ONE).at_least(
                    F32 { bits: bits::CENTI_15 },
                ),
                None => a.strength,
            };
            Some(AoConfig { slices: limit(mode / 2, 1, 8), strength, ..a })
        },
        None => base,
    }
}

/// The sky: on as in the base, where it has one, off, or left alone.
pub open spec fn sky_by(m: Options, base: Option<AtmosphereConfig>) -> Option<AtmosphereConfig> {
    match switch(m, "ATMOSPHERE"@) {
        Some(true) => Some(or_else(base, standard_sky())),
        Some(false) => None,
        None => base,
    }
}

fn translate_sky(p: &Properties, base: Option<AtmosphereConfig>) -> (r: Option<AtmosphereConfig>)
    requires
        p.wf(),
    ensures
        r == sky_by(p.map(), base),
{
    match switch_of(p, "ATMOSPHERE") {
        Some(on) => if on {
            match base {
                Some(s) => Some(s),
                None => Some(sky()),
            }
        } else {
            None
        },
        None => base,
    }
}

/// Clouds: off when the first layer is off and the second not on. A layer
/// that is on tunes the clouds of the base, where it has some.
pub open spec fn clouds_by(
    m: Options,
    x: PackNumbers,
    base: Option<CloudsConfig>,
) -> Option<CloudsConfig> {
    let first = switch(m, "CLOUDS_LAYER0_ENABLED"@);
    let second = switch(m, "CLOUDS_LAYER1_ENABLED"@);
    if first == Some(false) && second != Some(true) {
        None
    } else if first == Some(true) || second == Some(true) {
        match base {
            Some(c) => Some(
                CloudsConfig {
                    altitude: match x.cloud_altitude {
                        Some(a) => between(a, bits::FORTY, bits::N400),
                        None => c.altitude,
                    },
                    coverage: match x.cloud_coverage {
                        Some(v) => between(v, bits::ZERO, bits::ONE),
                        None => c.coverage,
                    },
                    steps: match whole(m, "CLOUDS_LAYER0_SCATTERING_STEPS"@) {
                        Some(s) => limited(s, 4, 64),
                        None => c.steps,
                    },
                    ..c
                },
            ),
            None => None,
        }
    } else {
        base
    }
}

fn translate_clouds(
    p: &Properties,
    x: &PackNumbers,
    base: Option<CloudsConfig>,
) -> (r: Option<CloudsConfig>)
    requires
        p.wf(),
    ensures
        r == clouds_by(p.map(), *x, base),
{
    let first = switch_of(p, "CLOUDS_LAYER0_ENABLED");
    let second = switch_of(p, "CLOUDS_LAYER1_ENABLED");
    let first_off = match first {
        Some(b) => !b,
        None => false,
    };
    let first_on = match first {
        Some(b) => b,
        None => false,
    };
    let second_on = match second {
        Some(b) => b,
        None => false,
    };
    if first_off && !second_on {
        return None;
    }
    if !first_on && !second_on {
        return base;
    }
    match base {
        Some(c) => {
            proof {
                lemma_limits();
            }
            let altitude = match x.cloud_altitude {
                Some(a) => clamped(a, bits::FORTY, bits::N400),
                None => c.altitude,
            };
            let coverage = match x.cloud_coverage {
                Some(v) => clamped(v, bits::ZERO, bits::ONE),
                None => c.coverage,
            };
            let steps: u32 = match whole_of(p, "CLOUDS_LAYER0_SCATTERING_STEPS") {
                Some(s) => limit(s, 4, 64),
                None => c.steps,
            };
            Some(CloudsConfig { altitude, coverage, steps, ..c })
        },
        None => None,
    }
}

/// Water: off for no octaves; a number of octaves tunes the water of the
/// base, where it has some.
pub open spec fn water_by(
    m: Options,
    x: PackNumbers,
    base: Option<WaterConfig>,
) -> Option<WaterConfig> {
    match whole(m, "WATER_OCTAVES"@) {
        Some(octaves) => if octaves == 0 {
            None
        } else {
            match base {
                Some(w) => Some(
                    WaterConfig {
                        octaves: limited(octaves, 1, 8),
                        amplitude: match x.wave_amplitude {
                            Some(a) => between(a, bits::ZERO, bits::TWO),
                            None => w.amplitude,
                        },
                        ..w
                    },
                ),
                None => None,
            }
        },
        None => base,
    }
}

fn translate_water(
    p: &Properties,
    x: &PackNumbers,
    base: Option<WaterConfig>,
) -> (r: Option<WaterConfig>)
    requires
        p.wf(),
    ensures
        r == water_by(p.map(), *x, base),
{
    match whole_of(p, "WATER_OCTAVES") {
        Some(octaves) => {
            if octaves == 0 {
                return None;
            }
            match base {
                Some(w) => {
                    proof {
                        lemma_limits();
                    }
                    let amplitude = match x.wave_amplitude {
                        Some(a) => clamped(a, bits::ZERO, bits::TWO),
                        None => w.amplitude,
                    };
                    Some(WaterConfig { octaves: limit(octaves, 1, 8), amplitude, ..w })
                },
                None => None,
            }
        },
        None => base,
    }
}

/// Fog: on with the base's values or a light haze, off, or left alone.
pub open spec fn fog_by(m: Options, x: PackNumbers, base: Option<FogConfig>) -> Option<FogConfig> {
    match switch(m, "AIR_FOG"@) {
        Some(true) => {
            let f = or_else(
                base,
                FogConfig { density: num(bits::MILLI_2), tint: standard_tint() },
            );
            Some(
                FogConfig {
                    density: match x.fog_density {
                        Some(d) => between(d, bits::ZERO, bits::CENTI_5),
                        None => f.density,
                    },
                    ..f
                },
            )
        },
        Some(false) => None,
        None => base,
    }
}

fn translate_fog(p: &Properties, x: &PackNumbers, base: Option<FogConfig>) -> (r: Option<
    FogConfig,
>)
    requires
        p.wf(),
    ensures
        r == fog_by(p.map(), *x, base),
{
    match switch_of(p, "AIR_FOG") {
        Some(on) => {
            if !on {
                return None;
            }
            let f = match base {
                Some(f) => f,
                None => FogConfig { density: F32 { bits: bits::MILLI_2 }, tint: fog_tint() },
            };
            proof {
                lemma_limits();
            }
            let density = match x.fog_density {
                Some(d) => clamped(d, bits::ZERO, bits::CENTI_5),
                None => f.density,
            };
            Some(FogConfig { density, ..f })
        },
        None => base,
    }
}

/// The pack sets some post-processing option.
pub open spec fn asks_for_post(m: Options) -> bool {
    m.dom().contains("BLOOM"@) || m.dom().contains("BLOOM_STRENGTH"@) || m.dom().contains(
        "VIGNETTE"@,
    ) || m.dom().contains("VIGNETTE_STRENGTH"@) || m.dom().contains("TONEMAP"@)
}

/// The operator that an option names.
pub open spec fn tonemap_by(v: Seq<char>) -> Tonemap {
    if same_ignoring_case(v, "none"@) || v == "0"@ {
        Tonemap::Off
    } else if same_ignoring_case(v, "reinhard"@) {
        Tonemap::Reinhard
    } else {
        Tonemap::Aces
    }
}

/// A plain post chain: every effect off behind the filmic curve.
pub open spec fn plain_post() -> PostConfig {
    PostConfig {
        bloom: false,
        bloom_threshold: num(bits::ONE),
        bloom_intensity: num(bits::CENTI_50),
        tonemap: Tonemap::Aces,
        vignette: num(bits::ZERO),
    }
}

/// The post chain: that of the base, or a plain one when the pack asks for
/// any part of it, tuned by the pack's options.
pub open spec fn post_by(
    m: Options,
    x: PackNumbers,
    base: Option<PostConfig>,
) -> Option<PostConfig> {
    if base is None && !asks_for_post(m) {
        None
    } else {
        let p = or_else(base, plain_post());
        Some(
            PostConfig {
                bloom: or_else(switch(m, "BLOOM"@), p.bloom),
                bloom_threshold: p.bloom_threshold,
                bloom_intensity: match x.bloom_strength {
                    Some(s) => between(s, bits::ZERO, bits::TWO),
                    None => p.bloom_intensity,
                },
                vignette: match x.vignette_strength {
                    Some(s) => between(s, bits::ZERO, bits::ONE),
                    None => match switch(m, "VIGNETTE"@) {
                        Some(true) => num(bits::CENTI_20),
                        Some(false) => num(bits::ZERO),
                        None => p.vignette,
                    },
                },
                tonemap: if m.dom().contains("TONEMAP"@) {
                    tonemap_by(m["TONEMAP"@])
                } else {
                    p.tonemap
                },
            },
        )
    }
}

proof fn lemma_zero_text()
    ensures
        forall|v: Seq<char>| same_ignoring_case(v, "0"@) <==> v == "0"@,
{
    reveal_strlit("0");
    assert forall|v: Seq<char>| same_ignoring_case(v, "0"@) <==> v == "0"@ by {
        let l = crate::ascii::lower(v);
        let z = crate::ascii::lower("0"@);
        assert(z.len() == 1 && z[0] == '0');
        if l == z {
            assert(l.len() == 1);
            assert(crate::ascii::lower_char(v[0]) == l[0]);
            assert(v =~= "0"@);
        }
    }
}

fn tonemap_of(v: &str) -> (r: Tonemap)
    ensures
        r == tonemap_by(v@),
{
    proof {
        lemma_zero_text();
    }
    if str_same_ignoring_case(v, "none") || str_same_ignoring_case(v, "0") {
        Tonemap::Off
    } else if str_same_ignoring_case(v, "reinhard") {
        Tonemap::Reinhard
    } else {
        Tonemap::Aces
    }
}

fn translate_post(
    p: &Properties,
    x: &PackNumbers,
    base: Option<PostConfig>,
) -> (r: Option<PostConfig>)
    requires
        p.wf(),
    ensures
        r == post_by(p.map(), *x, base),
{
    let asked = p.get("BLOOM").is_some() || p.get("BLOOM_STRENGTH").is_some() || p.get(
        "VIGNETTE",
    ).is_some() || p.get("VIGNETTE_STRENGTH").is_some() || p.get("TONEMAP").is_some();
    let c = match base {
        Some(c) => c,
        None => {
            if !asked {
                return None;
            }
            PostConfig {
                bloom: false,
                bloom_threshold: F32 { bits: bits::ONE },
                bloom_intensity: F32 { bits: bits::CENTI_50 },
                tonemap: Tonemap::Aces,
                vignette: F32 { bits: bits::ZERO },
            }
        },
    };
    proof {
        lemma_limits();
    }
    let bloom = match switch_of(p, "BLOOM") {
        Some(b) => b,
        None => c.bloom,
    };
    let bloom_intensity = match x.bloom_strength {
        Some(s) => clamped(s, bits::ZERO, bits::TWO),
        None => c.bloom_intensity,
    };
    let vignette = match x.vignette_strength {
        Some(s) => clamped(s, bits::ZERO, bits::ONE),
        None => match switch_of(p, "VIGNETTE") {
            Some(on) => if on {
                F32 { bits: bits::CENTI_20 }
            } else {
                F32 { bits: bits::ZERO }
            },
            None => c.vignette,
        },
    };
    let tonemap = match p.get("TONEMAP") {
        Some(v) => tonemap_of(v.as_str()),
        None => c.tonemap,
    };
    Some(
        PostConfig {
            bloom,
            bloom_threshold: c.bloom_threshold,
            bloom_intensity,
            tonemap,
            vignette,
        },
    )
}

/// Exposure: set when aperture, shutter and sensitivity are all given.
pub open spec fn exposure_by(
    x: PackNumbers,
    base: Option<ExposureConfig>,
) -> Option<ExposureConfig> {
    match (x.f_stops, x.shutter_speed, x.iso) {
        (Some(f), Some(t), Some(i)) => Some(
            ExposureConfig {
                f_stops: between(f, bits::ONE, bits::TWENTY_TWO),
                shutter_speed: between(t, bits::ONE, bits::N8000),
                iso: between(i, bits::FIFTY, bits::N6400),
            },
        ),
        _ => base,
    }
}

fn translate_exposure(x: &PackNumbers, base: Option<ExposureConfig>) -> (r: Option<
    ExposureConfig,
>)
    ensures
        r == exposure_by(*x, base),
{
    proof {
        lemma_limits();
    }
    match (x.f_stops, x.shutter_speed, x.iso) {
        (Some(f), Some(t), Some(i)) => Some(
            ExposureConfig {
                f_stops: clamped(f, bits::ONE, bits::TWENTY_TWO),
                shutter_speed: clamped(t, bits::ONE, bits::N8000),
                iso: clamped(i, bits::FIFTY, bits::N6400),
            },
        ),
        _ => base,
    }
}

/// The configuration that options and their numbers make of a base.
pub open spec fn configured(
    m: Options,
    x: PackNumbers,
    base: ShaderEffectConfig,
) -> ShaderEffectConfig {
    ShaderEffectConfig {
        sun_angle: base.sun_angle,
        sun_path_rotation_deg: match x.sun_path_rotation {
            Some(d) => between(d, bits::MINUS_60, bits::SIXTY),
            None => base.sun_path_rotation_deg,
        },
        shadows: shadows_by(m, x, base.shadows),
        ssao: ao_by(m, x, base.ssao),
        atmosphere: sky_by(m, base.atmosphere),
        clouds: clouds_by(m, x, base.clouds),
        water: water_by(m, x, base.water),
        fog: fog_by(m, x, base.fog),
        post: post_by(m, x, base.post),
        exposure: exposure_by(x, base.exposure),
    }
}

/// Options that are known and cannot be honored.
pub open spec fn unsupported_names() -> Seq<Seq<char>> {
    seq![
        "TAA"@,
        "DOF"@,
        "POM"@,
        "POM_LAYERS"@,
        "POM_DISTANCE"@,
        "POM_SHADOWING"@,
        "CLOUDS_SHADOWS"@,
        "WATER_CAUSTICS"@,
        "WATER_PARALLAX"@,
        "SSR"@,
        "LENS_FLARES"@,
        "GLARE"@,
        "PALETTE"@,
        "LUT"@,
        "CEL_SHADING"@,
        "FILM_GRAIN"@,
        "LABPBR"@,
        "SUBSURFACE_SCATTERING"@,
        "DH_SHADOWS"@,
        "RAIN_PUDDLES"@,
    ]
}

/// Options that are read, or left out on purpose.
pub open spec fn recognized_names() -> Seq<Seq<char>> {
    seq![
        "profile"@,
        "sun"@,
        "moon"@,
        "clouds"@,
        "separateAo"@,
        "vignette"@,
        "oldLighting"@,
        "oldHandLight"@,
        "underwaterOverlay"@,
        "dynamicHandLight"@,
        "SHADOWS"@,
        "SHADOW_SAMPLES"@,
        "shadowMapResolution"@,
        "shadowDistance"@,
        "AO"@,
        "AO_SCALE"@,
        "sunPathRotation"@,
        "ATMOSPHERE"@,
        "CLOUDS_LAYER0_ENABLED"@,
        "CLOUDS_LAYER1_ENABLED"@,
        "CLOUDS_LAYER0_ALTITUDE"@,
        "CLOUDS_LAYER0_COVERAGE"@,
        "CLOUDS_LAYER0_SCATTERING_STEPS"@,
        "WATER_OCTAVES"@,
        "WAVE_AMPLITUDE"@,
        "AIR_FOG"@,
        "FOG_DENSITY"@,
        "BLOOM"@,
        "BLOOM_STRENGTH"@,
        "VIGNETTE"@,
        "VIGNETTE_STRENGTH"@,
        "TONEMAP"@,
        "F_STOPS"@,
        "ISO"@,
        "SHUTTER_SPEED"@,
        "EXPOSURE"@,
        "RENDER_SCALE_OPTION"@,
        "ATMOSPHERE_SCALE"@,
        "ATMOSPHERE_SCATTERING_STEPS"@,
        "ATMOSPHERE_TRANSMITTANCE_STEPS"@,
        "CLOUDS_SCALE"@,
        "REFLECTIONS"@,
        "REFLECTIONS_SCALE"@,
        "REFLECTIONS_STRIDE"@,
        "REFRACTIONS"@,
    ]
}

/// The first name of a list that equals a key, letter case aside.
pub open spec fn same_name_at(names: Seq<Seq<char>>, key: Seq<char>) -> int
    decreases names.len(),
{
    if names.len() == 0 {
        0
    } else if same_ignoring_case(names[0], key) {
        0
    } else {
        1 + same_name_at(names.skip(1), key)
    }
}

proof fn lemma_same_name_at(names: Seq<Seq<char>>, key: Seq<char>, i: int)
    requires
        0 <= i <= names.len(),
        forall|k: int| 0 <= k < i ==> !same_ignoring_case(#[trigger] names[k], key),
        i < names.len() ==> same_ignoring_case(names[i], key),
    ensures
        same_name_at(names, key) == i,
    decreases names.len(),
{
    if names.len() > 0 && i > 0 {
        assert(!same_ignoring_case(names[0], key));
        assert forall|k: int| 0 <= k < i - 1 implies !same_ignoring_case(
            #[trigger] names.skip(1)[k],
            key,
        ) by {
            assert(names.skip(1)[k] == names[k + 1]);
        }
        lemma_same_name_at(names.skip(1), key, i - 1);
    }
}

/// The option cannot be honored.
pub open spec fn is_unsupported(key: Seq<char>) -> bool {
    same_name_at(unsupported_names(), key) < unsupported_names().len()
}

/// The option is read, or left out on purpose.
pub open spec fn is_recognized_spec(key: Seq<char>) -> bool {
    starts_with(key, "profile."@) || same_name_at(recognized_names(), key)
        < recognized_names().len()
}

/// Names and the views of a table of string slices.
pub open spec fn slices_of(v: Seq<&'static str>) -> Seq<Seq<char>> {
    Seq::new(v.len(), |i: int| v[i]@)
}

fn find_slice(names: &[&'static str], key: &str) -> (r: usize)
    ensures
        r == same_name_at(slices_of(names@), key@),
        r <= names.len(),
{
    let ghost all = slices_of(names@);
    let mut i: usize = 0;
    while i < names.len()
        invariant
            i <= names.len(),
            all == slices_of(names@),
            forall|k: int| 0 <= k < i ==> !same_ignoring_case(#[trigger] all[k], key@),
        decreases names.len() - i,
    {
        assert(all[i as int] == names@[i as int]@);
        if str_same_ignoring_case(names[i], key) {
            proof {
                lemma_same_name_at(all, key@, i as int);
            }
            return i;
        }
        i += 1;
    }
    proof {
        lemma_same_name_at(all, key@, i as int);
    }
    i
}

/// The listed name of an option that cannot be honored.
fn unsupported_name(key: &str) -> (r: Option<&'static str>)
    ensures
        match r {
            Some(s) => is_unsupported(key@) && s@ == unsupported_names()[same_name_at(
                unsupported_names(),
                key@,
            )],
            None => !is_unsupported(key@),
        },
{
    let names: [&'static str; 20] = [
        "TAA",
        "DOF",
        "POM",
        "POM_LAYERS",
        "POM_DISTANCE",
        "POM_SHADOWING",
        "CLOUDS_SHADOWS",
        "WATER_CAUSTICS",
        "WATER_PARALLAX",
        "SSR",
        "LENS_FLARES",
        "GLARE",
        "PALETTE",
        "LUT",
        "CEL_SHADING",
        "FILM_GRAIN",
        "LABPBR",
        "SUBSURFACE_SCATTERING",
        "DH_SHADOWS",
        "RAIN_PUDDLES",
    ];
    assert(slices_of(names@) =~= unsupported_names());
    let i = find_slice(&names, key);
    if i < 20 {
        Some(names[i])
    } else {
        None
    }
}

/// Whether an option is read, or left out on purpose.
pub fn is_recognized(key: &str) -> (r: bool)
    ensures
        r == is_recognized_spec(key@),
{
    let names: [&'static str; 45] = [
        "profile",
        "sun",
        "moon",
        "clouds",
        "separateAo",
        "vignette",
        "oldLighting",
        "oldHandLight",
        "underwaterOverlay",
        "dynamicHandLight",
        "SHADOWS",
        "SHADOW_SAMPLES",
        "shadowMapResolution",
        "shadowDistance",
        "AO",
        "AO_SCALE",
        "sunPathRotation",
        "ATMOSPHERE",
        "CLOUDS_LAYER0_ENABLED",
        "CLOUDS_LAYER1_ENABLED",
        "CLOUDS_LAYER0_ALTITUDE",
        "CLOUDS_LAYER0_COVERAGE",
        "CLOUDS_LAYER0_SCATTERING_STEPS",
        "WATER_OCTAVES",
        "WAVE_AMPLITUDE",
        "AIR_FOG",
        "FOG_DENSITY",
        "BLOOM",
        "BLOOM_STRENGTH",
        "VIGNETTE",
        "VIGNETTE_STRENGTH",
        "TONEMAP",
        "F_STOPS",
        "ISO",
        "SHUTTER_SPEED",
        "EXPOSURE",
        "RENDER_SCALE_OPTION",
        "ATMOSPHERE_SCALE",
        "ATMOSPHERE_SCATTERING_STEPS",
        "ATMOSPHERE_TRANSMITTANCE_STEPS",
        "CLOUDS_SCALE",
        "REFLECTIONS",
        "REFLECTIONS_SCALE",
        "REFLECTIONS_STRIDE",
        "REFRACTIONS",
    ];
    assert(slices_of(names@) =~= recognized_names());
    str_starts_with(key, "profile.") || find_slice(&names, key) < 45
}

/// The options among the first `n` that cannot be honored, under their listed
/// names.
pub open spec fn unsupported_in(entries: Seq<(Seq<char>, Seq<char>)>, n: int) -> Seq<
    (Seq<char>, Seq<char>),
>
    decreases n,
{
    if n <= 0 {
        Seq::empty()
    } else {
        let before = unsupported_in(entries, n - 1);
        let e = entries[n - 1];
        if is_unsupported(e.0) {
            before.push((unsupported_names()[same_name_at(unsupported_names(), e.0)], e.1))
        } else {
            before
        }
    }
}

/// The options among the first `n` that are not known.
pub open spec fn unknown_in(entries: Seq<(Seq<char>, Seq<char>)>, n: int) -> Seq<
    (Seq<char>, Seq<char>),
>
    decreases n,
{
    if n <= 0 {
        Seq::empty()
    } else {
        let before = unknown_in(entries, n - 1);
        let e = entries[n - 1];
        if !is_unsupported(e.0) && !is_recognized_spec(e.0) {
            before.push(e)
        } else {
            before
        }
    }
}

/// The comparison of pairs by name, then by value.
pub open spec fn pair_order(v: Seq<(Seq<char>, Seq<char>)>) -> spec_fn(int, int) -> bool {
    |a: int, b: int| pair_le(v[a], v[b])
}

/// The pairs of a list in their order.
pub open spec fn is_sorted_form(
    r: Seq<(Seq<char>, Seq<char>)>,
    v: Seq<(Seq<char>, Seq<char>)>,
) -> bool {
    exists|perm: Seq<usize>| #[trigger] is_stable_order(perm, v.len() as int, pair_order(v))
        && permuted(r, v, perm)
}

pub open spec fn permuted(
    r: Seq<(Seq<char>, Seq<char>)>,
    v: Seq<(Seq<char>, Seq<char>)>,
    perm: Seq<usize>,
) -> bool {
    r.len() == v.len() && forall|i: int| 0 <= i < r.len() ==> #[trigger] r[i] == v[perm[i] as int]
}

fn sort_pairs(v: &[(String, String)]) -> (r: Vec<(String, String)>)
    ensures
        is_sorted_form(pairs_of(r@), pairs_of(v@)),
{
    let order = order_pairs(v);
    let ghost raw = pairs_of(v@);
    let mut out: Vec<(String, String)> = Vec::new();
    let mut i: usize = 0;
    while i < order.len()
        invariant
            i <= order.len(),
            order.len() == v.len(),
            raw == pairs_of(v@),
            forall|k: int| 0 <= k < order.len() ==> (#[trigger] order@[k]) < v.len(),
            out.len() == i,
            forall|k: int|
                0 <= k < i ==> (#[trigger] out@[k]).0@ == v@[order@[k] as int].0@ && out@[k].1@
                    == v@[order@[k] as int].1@,
        decreases order.len() - i,
    {
        let e = &v[order[i]];
        out.push((e.0.clone(), e.1.clone()));
        i += 1;
    }
    proof {
        let le = pairs_le(v@);
        let le2 = pair_order(raw);
        assert(is_stable_order(order@, raw.len() as int, le2)) by {
            assert forall|a: int, b: int| 0 <= a < b < order@.len() implies le2(
                #[trigger] order@[a] as int,
                #[trigger] order@[b] as int,
            ) && (le2(order@[b] as int, order@[a] as int) ==> order@[a] < order@[b]) by {
                let x = order@[a] as int;
                let y = order@[b] as int;
                assert(raw[x] == (v@[x].0@, v@[x].1@));
                assert(raw[y] == (v@[y].0@, v@[y].1@));
                assert(le(x, y));
            }
        }
        let r = pairs_of(out@);
        assert(permuted(r, raw, order@)) by {
            assert forall|k: int| 0 <= k < r.len() implies #[trigger] r[k]
                == raw[order@[k] as int] by {
                assert(out@[k].0@ == v@[order@[k] as int].0@);
            }
        }
    }
    out
}

/// Maps options in force onto the configuration of a quality. An option that
/// is not set keeps the preset's value.
pub fn translate_options(options: &Properties, q: RenderQuality, x: &PackNumbers) -> (r:
    ShaderPackConfig)
    requires
        options.wf(),
    ensures
        r.config == configured(options.map(), *x, preset(q)),
        is_sorted_form(
            pairs_of(r.unsupported@),
            unsupported_in(pairs_of(options.entries@), options.entries.len() as int),
        ),
        pairs_of(r.unknown@) == unknown_in(
            pairs_of(options.entries@),
            options.entries.len() as int,
        ),
{
    let base = ShaderEffectConfig::for_quality(q);
    proof {
        lemma_limits();
    }
    let rotation = match x.sun_path_rotation {
        Some(d) => clamped(d, bits::MINUS_60, bits::SIXTY),
        None => base.sun_path_rotation_deg,
    };
    let config = ShaderEffectConfig {
        sun_angle: base.sun_angle,
        sun_path_rotation_deg: rotation,
        shadows: translate_shadows(options, x, base.shadows),
        ssao: translate_ao(options, x, base.ssao),
        atmosphere: translate_sky(options, base.atmosphere),
        clouds: translate_clouds(options, x, base.clouds),
        water: translate_water(options, x, base.water),
        fog: translate_fog(options, x, base.fog),
        post: translate_post(options, x, base.post),
        exposure: translate_exposure(x, base.exposure),
    };
    let ghost all = pairs_of(options.entries@);
    let mut unsupported: Vec<(String, String)> = Vec::new();
    let mut unknown: Vec<(String, String)> = Vec::new();
    assert(pairs_of(unsupported@) =~= Seq::<(Seq<char>, Seq<char>)>::empty());
    assert(pairs_of(unknown@) =~= Seq::<(Seq<char>, Seq<char>)>::empty());
    let mut i: usize = 0;
    while i < options.entries.len()
        invariant
            i <= options.entries.len(),
            all == pairs_of(options.entries@),
            pairs_of(unsupported@) == unsupported_in(all, i as int),
            pairs_of(unknown@) == unknown_in(all, i as int),
        decreases options.entries.len() - i,
    {
        let ghost u0 = pairs_of(unsupported@);
        let ghost k0 = pairs_of(unknown@);
        let e = &options.entries[i];
        assert(all[i as int] == (e.0@, e.1@));
        match unsupported_name(e.0.as_str()) {
            Some(name) => {
                unsupported.push((name.to_owned(), e.1.clone()));
                assert(pairs_of(unsupported@) =~= u0.push((name@, e.1@)));
            },
            None => {
                if !is_recognized(e.0.as_str()) {
                    unknown.push((e.0.clone(), e.1.clone()));
                    assert(pairs_of(unknown@) =~= k0.push((e.0@, e.1@)));
                }
            },
        }
        i += 1;
    }
    ShaderPackConfig { config, unsupported: sort_pairs(&unsupported), unknown }
}

/// Maps the text of a `shaders.properties` onto the configuration of a
/// quality; `x` holds the numbers of the options in force.
pub fn translate_shader_config(text: &str, q: RenderQuality, x: &PackNumbers) -> (r:
    ShaderPackConfig)
    ensures
        exists|file: Properties, options: Properties| #[trigger]
            is_reading(text@, q, file, options) && r.config == configured(
                options.map(),
                *x,
                preset(q),
            ) && is_sorted_form(
                pairs_of(r.unsupported@),
                unsupported_in(pairs_of(options.entries@), options.entries.len() as int),
            ) && pairs_of(r.unknown@) == unknown_in(
                pairs_of(options.entries@),
                options.entries.len() as int,
            ),
{
    let file = parse_properties(text);
    let options = apply_profile(&file, q);
    assert(is_reading(text@, q, file, options));
    translate_options(&options, q, x)
}

/// `file` holds the properties of a text and `options` those in force.
pub open spec fn is_reading(
    text: Seq<char>,
    q: RenderQuality,
    file: Properties,
    options: Properties,
) -> bool {
    &&& file.wf()
    &&& file.map() == properties_in(text)
    &&& options.wf()
    &&& options.map() == options_of(file, text, q)
}

/// A pack that sets nothing leaves the preset as it is.
pub proof fn law_silent_pack_keeps_preset(q: RenderQuality)
    ensures
        configured(
            Map::empty(),
            PackNumbers {
                shadow_distance: None,
                ao_scale: None,
                sun_path_rotation: None,
                cloud_altitude: None,
                cloud_coverage: None,
                wave_amplitude: None,
                fog_density: None,
                bloom_strength: None,
                vignette_strength: None,
                f_stops: None,
                shutter_speed: None,
                iso: None,
            },
            preset(q),
        ) == preset(q),
{
}

/// A stage whose options a pack does not set keeps the preset's values.
pub proof fn law_unset_stage_keeps_preset(m: Options, x: PackNumbers, base: ShaderEffectConfig)
    ensures
        !m.dom().contains("SHADOWS"@) ==> configured(m, x, base).shadows == base.shadows,
        !m.dom().contains("AO"@) ==> configured(m, x, base).ssao == base.ssao,
        !m.dom().contains("ATMOSPHERE"@) ==> configured(m, x, base).atmosphere == base.atmosphere,
        !m.dom().contains("CLOUDS_LAYER0_ENABLED"@) && !m.dom().contains("CLOUDS_LAYER1_ENABLED"@)
            ==> configured(m, x, base).clouds == base.clouds,
        !m.dom().contains("WATER_OCTAVES"@) ==> configured(m, x, base).water == base.water,
        !m.dom().contains("AIR_FOG"@) ==> configured(m, x, base).fog == base.fog,
        !asks_for_post(m) && base.post is None ==> configured(m, x, base).post is None,
        x.iso is None ==> configured(m, x, base).exposure == base.exposure,
{
}

/// Every knob that a pack does not set keeps the preset's value: of a stage
/// that the preset runs and that still runs, only what the pack names differs.
pub proof fn law_unset_knob_keeps_preset(m: Options, x: PackNumbers, base: ShaderEffectConfig)
    ensures
        x.sun_path_rotation is None ==> configured(m, x, base).sun_path_rotation_deg
            == base.sun_path_rotation_deg,
        (base.shadows, configured(m, x, base).shadows) matches (Some(b), Some(r)) ==> {
            &&& whole(m, "shadowMapResolution"@) is None ==> r.resolution == b.resolution
            &&& x.shadow_distance is None ==> r.distance == b.distance
            &&& whole(m, "SHADOW_SAMPLES"@) is None ==> r.samples == b.samples
            &&& r.strength == b.strength
        },
        (base.ssao, configured(m, x, base).ssao) matches (Some(b), Some(r)) ==> {
            &&& whole(m, "AO"@) is None ==> r == b
            &&& x.ao_scale is None ==> r.strength == b.strength
            &&& r.radius == b.radius
        },
        (base.atmosphere, configured(m, x, base).atmosphere) matches (Some(b), Some(r)) ==> r == b,
        (base.clouds, configured(m, x, base).clouds) matches (Some(b), Some(r)) ==> {
            &&& x.cloud_altitude is None ==> r.altitude == b.altitude
            &&& x.cloud_coverage is None ==> r.coverage == b.coverage
            &&& whole(m, "CLOUDS_LAYER0_SCATTERING_STEPS"@) is None ==> r.steps == b.steps
            &&& (r.thickness, r.density, r.wind_speed) == (b.thickness, b.density, b.wind_speed)
        },
        (base.water, configured(m, x, base).water) matches (Some(b), Some(r)) ==> {
            &&& whole(m, "WATER_OCTAVES"@) is None ==> r.octaves == b.octaves
            &&& x.wave_amplitude is None ==> r.amplitude == b.amplitude
            &&& (r.speed, r.absorption, r.reflection_strength) == (
                b.speed,
                b.absorption,
                b.reflection_strength,
            )
        },
        (base.fog, configured(m, x, base).fog) matches (Some(b), Some(r)) ==> {
            &&& x.fog_density is None ==> r.density == b.density
            &&& r.tint == b.tint
        },
        (base.post, configured(m, x, base).post) matches (Some(b), Some(r)) ==> {
            &&& switch(m, "BLOOM"@) is None ==> r.bloom == b.bloom
            &&& x.bloom_strength is None ==> r.bloom_intensity == b.bloom_intensity
            &&& x.vignette_strength is None && switch(m, "VIGNETTE"@) is None ==> r.vignette
                == b.vignette
            &&& !m.dom().contains("TONEMAP"@) ==> r.tonemap == b.tonemap
            &&& r.bloom_threshold == b.bloom_threshold
        },
        base.exposure is Some && (x.f_stops is None || x.shutter_speed is None || x.iso is None)
            ==> configured(m, x, base).exposure == base.exposure,
{
}

/// Every option that a pack does not set keeps the preset's value of the knob
/// that it is for, in a stage that the preset runs and that still runs.
pub proof fn law_unset_option_keeps_preset(m: Options, x: PackNumbers, base: ShaderEffectConfig)
    requires
        numbers_from(x, m),
    ensures
        !m.dom().contains("sunPathRotation"@) ==> configured(m, x, base).sun_path_rotation_deg
            == base.sun_path_rotation_deg,
        (base.shadows, configured(m, x, base).shadows) matches (Some(b), Some(r)) ==> {
            &&& !m.dom().contains("shadowMapResolution"@) ==> r.resolution == b.resolution
            &&& !m.dom().contains("shadowDistance"@) ==> r.distance == b.distance
            &&& !m.dom().contains("SHADOW_SAMPLES"@) ==> r.samples == b.samples
        },
        (base.ssao, configured(m, x, base).ssao) matches (Some(b), Some(r)) ==> {
            &&& !m.dom().contains("AO"@) ==> r == b
            &&& !m.dom().contains("AO_SCALE"@) ==> r.strength == b.strength
        },
        (base.clouds, configured(m, x, base).clouds) matches (Some(b), Some(r)) ==> {
            &&& !m.dom().contains("CLOUDS_LAYER0_ALTITUDE"@) ==> r.altitude == b.altitude
            &&& !m.dom().contains("CLOUDS_LAYER0_COVERAGE"@) ==> r.coverage == b.coverage
            &&& !m.dom().contains("CLOUDS_LAYER0_SCATTERING_STEPS"@) ==> r.steps == b.steps
        },
        (base.water, configured(m, x, base).water) matches (Some(b), Some(r)) ==> {
            &&& !m.dom().contains("WATER_OCTAVES"@) ==> r.octaves == b.octaves
            &&& !m.dom().contains("WAVE_AMPLITUDE"@) ==> r.amplitude == b.amplitude
        },
        (base.fog, configured(m, x, base).fog) matches (Some(b), Some(r)) ==> {
            !m.dom().contains("FOG_DENSITY"@) ==> r.density == b.density
        },
        (base.post, configured(m, x, base).post) matches (Some(b), Some(r)) ==> {
            &&& !m.dom().contains("BLOOM"@) ==> r.bloom == b.bloom
            &&& !m.dom().contains("BLOOM_STRENGTH"@) ==> r.bloom_intensity == b.bloom_intensity
            &&& !m.dom().contains("VIGNETTE"@) && !m.dom().contains("VIGNETTE_STRENGTH"@)
                ==> r.vignette == b.vignette
            &&& !m.dom().contains("TONEMAP"@) ==> r.tonemap == b.tonemap
        },
        !(m.dom().contains("F_STOPS"@) && m.dom().contains("SHUTTER_SPEED"@)
            && m.dom().contains("ISO"@)) ==> configured(m, x, base).exposure == base.exposure,
{
    law_unset_knob_keeps_preset(m, x, base);
}

/// Whatever a pack asks for, the whole-number settings stay in the ranges
/// that the renderer accepts, when the base does.
pub proof fn law_settings_stay_in_range(m: Options, x: PackNumbers, base: ShaderEffectConfig)
    requires
        base.shadows matches Some(s) ==> 256 <= s.resolution <= 8192 && 1 <= s.samples <= 16,
        base.ssao matches Some(a) ==> 1 <= a.slices <= 8,
        base.clouds matches Some(c) ==> 4 <= c.steps <= 64,
        base.water matches Some(w) ==> 1 <= w.octaves <= 8,
    ensures
        configured(m, x, base).shadows matches Some(s) ==> 256 <= s.resolution <= 8192 && 1
            <= s.samples <= 16,
        configured(m, x, base).ssao matches Some(a) ==> 1 <= a.slices <= 8,
        configured(m, x, base).clouds matches Some(c) ==> 4 <= c.steps <= 64,
        configured(m, x, base).water matches Some(w) ==> 1 <= w.octaves <= 8,
{
}

/// A number within limits, or none.
pub open spec fn in_range(v: F32, low: u32, high: u32) -> bool {
    v.is_nan_spec() || (num(low).le_spec(v) && v.le_spec(num(high)))
}

/// The numbers of a configuration lie in the ranges that the renderer
/// accepts.
pub open spec fn numbers_in_range(c: ShaderEffectConfig) -> bool {
    &&& in_range(c.sun_path_rotation_deg, bits::MINUS_60, bits::SIXTY)
    &&& c.shadows matches Some(s) ==> in_range(s.distance, bits::SIXTEEN, bits::N512)
    &&& c.ssao matches Some(a) ==> in_range(a.strength, bits::CENTI_15, bits::ONE)
    &&& c.clouds matches Some(l) ==> in_range(l.altitude, bits::FORTY, bits::N400) && in_range(
        l.coverage,
        bits::ZERO,
        bits::ONE,
    )
    &&& c.water matches Some(w) ==> in_range(w.amplitude, bits::ZERO, bits::TWO)
    &&& c.fog matches Some(f) ==> in_range(f.density, bits::ZERO, bits::CENTI_5)
    &&& c.post matches Some(p) ==> in_range(p.bloom_intensity, bits::ZERO, bits::TWO)
        && in_range(p.vignette, bits::ZERO, bits::ONE)
    &&& c.exposure matches Some(e) ==> in_range(e.f_stops, bits::ONE, bits::TWENTY_TWO)
        && in_range(e.shutter_speed, bits::ONE, bits::N8000) && in_range(
        e.iso,
        bits::FIFTY,
        bits::N6400,
    )
}

proof fn lemma_constants_in_range()
    ensures
        in_range(num(bits::MINUS_35), bits::MINUS_60, bits::SIXTY),
        in_range(num(bits::NINETY_SIX), bits::SIXTEEN, bits::N512),
        in_range(num(bits::N160), bits::SIXTEEN, bits::N512),
        in_range(num(bits::N128), bits::SIXTEEN, bits::N512),
        in_range(num(bits::CENTI_50), bits::CENTI_15, bits::ONE),
        in_range(num(bits::CENTI_70), bits::CENTI_15, bits::ONE),
        in_range(num(bits::CENTI_85), bits::CENTI_15, bits::ONE),
        in_range(num(bits::N160), bits::FORTY, bits::N400),
        in_range(num(bits::CENTI_50), bits::ZERO, bits::ONE),
        in_range(num(bits::CENTI_35), bits::ZERO, bits::TWO),
        in_range(num(bits::CENTI_50), bits::ZERO, bits::TWO),
        in_range(num(bits::CENTI_60), bits::ZERO, bits::TWO),
        in_range(num(bits::CENTI_70), bits::ZERO, bits::TWO),
        in_range(num(bits::MILLI_1_5), bits::ZERO, bits::CENTI_5),
        in_range(num(bits::MILLI_2), bits::ZERO, bits::CENTI_5),
        in_range(num(bits::MILLI_2_5), bits::ZERO, bits::CENTI_5),
        in_range(num(bits::ZERO), bits::ZERO, bits::ONE),
        in_range(num(bits::CENTI_20), bits::ZERO, bits::ONE),
        in_range(num(bits::CENTI_25), bits::ZERO, bits::ONE),
        in_range(num(bits::EIGHT), bits::ONE, bits::TWENTY_TWO),
        in_range(num(bits::N125), bits::ONE, bits::N8000),
        in_range(num(bits::N200), bits::FIFTY, bits::N6400),
{
    crate::scalar::lemma_negatives_order(bits::MINUS_60, bits::MINUS_35);
    crate::scalar::lemma_signs_order(bits::MINUS_35, bits::SIXTY);
    assert forall|low: u32, v: u32, high: u32| low <= v <= high <= 0x7f80_0000 implies #[trigger] in_range(
        num(v),
        low,
        high,
    ) by {
        crate::scalar::lemma_bits_order(low, v);
        crate::scalar::lemma_bits_order(v, high);
    }
}

/// Whatever a pack asks for, the numbers stay in the ranges that the renderer
/// accepts, when those of the base do.
pub proof fn law_numbers_stay_in_range(m: Options, x: PackNumbers, base: ShaderEffectConfig)
    requires
        numbers_in_range(base),
    ensures
        numbers_in_range(configured(m, x, base)),
{
    lemma_limits();
    lemma_constants_in_range();
    crate::scalar::lemma_bits_order(bits::CENTI_15, bits::ONE);
}

/// The presets lie in the ranges that the renderer accepts.
pub proof fn law_presets_are_in_range(q: RenderQuality)
    ensures
        numbers_in_range(preset(q)),
        preset(q).shadows matches Some(s) ==> 256 <= s.resolution <= 8192 && 1 <= s.samples <= 16,
        preset(q).ssao matches Some(a) ==> 1 <= a.slices <= 8,
        preset(q).clouds matches Some(c) ==> 4 <= c.steps <= 64,
        preset(q).water matches Some(w) ==> 1 <= w.octaves <= 8,
{
    lemma_constants_in_range();
}

/// One of the first `n` options is known, cannot be honored, and is reported
/// as `e`.
pub open spec fn stands_for_unsupported(
    entries: Seq<(Seq<char>, Seq<char>)>,
    n: int,
    e: (Seq<char>, Seq<char>),
) -> bool {
    exists|i: int|
        0 <= i < n && is_unsupported((#[trigger] entries[i]).0) && e == (
            unsupported_names()[same_name_at(unsupported_names(), entries[i].0)],
            entries[i].1,
        )
}

/// `e` is one of the first `n` options, and it is not known.
pub open spec fn stands_for_unknown(
    entries: Seq<(Seq<char>, Seq<char>)>,
    n: int,
    e: (Seq<char>, Seq<char>),
) -> bool {
    exists|i: int|
        0 <= i < n && !is_unsupported((#[trigger] entries[i]).0) && !is_recognized_spec(
            entries[i].0,
        ) && e == entries[i]
}

/// Every option is accounted for: it is reported as unsupported, reported as
/// unknown, or recognized, and the reports miss none and add none.
pub proof fn law_every_option_is_accounted_for(entries: Seq<(Seq<char>, Seq<char>)>, n: int)
    requires
        0 <= n <= entries.len(),
    ensures
        forall|i: int|
            0 <= i < n && is_unsupported((#[trigger] entries[i]).0) ==> unsupported_in(
                entries,
                n,
            ).contains(
                (
                    unsupported_names()[same_name_at(unsupported_names(), entries[i].0)],
                    entries[i].1,
                ),
            ),
        forall|i: int|
            0 <= i < n && !is_unsupported((#[trigger] entries[i]).0) && !is_recognized_spec(
                entries[i].0,
            ) ==> unknown_in(entries, n).contains(entries[i]),
        forall|j: int|
            0 <= j < unsupported_in(entries, n).len() ==> stands_for_unsupported(
                entries,
                n,
                #[trigger] unsupported_in(entries, n)[j],
            ),
        forall|j: int|
            0 <= j < unknown_in(entries, n).len() ==> stands_for_unknown(
                entries,
                n,
                #[trigger] unknown_in(entries, n)[j],
            ),
        unsupported_in(entries, n).len() + unknown_in(entries, n).len() <= n,
    decreases n,
{
    if n > 0 {
        law_every_option_is_accounted_for(entries, n - 1);
        let u0 = unsupported_in(entries, n - 1);
        let k0 = unknown_in(entries, n - 1);
        let u = unsupported_in(entries, n);
        let k = unknown_in(entries, n);
        assert forall|i: int| 0 <= i < n && is_unsupported(
            (#[trigger] entries[i]).0,
        ) implies u.contains(
            (unsupported_names()[same_name_at(unsupported_names(), entries[i].0)], entries[i].1),
        ) by {
            let e = (
                unsupported_names()[same_name_at(unsupported_names(), entries[i].0)],
                entries[i].1,
            );
            if i < n - 1 {
                assert(u0.contains(e));
                let j = u0.index_of(e);
                assert(u[j] == e);
            } else {
                assert(u[u.len() - 1] == e);
            }
        }
        assert forall|i: int| 0 <= i < n && !is_unsupported((#[trigger] entries[i]).0)
            && !is_recognized_spec(entries[i].0) implies k.contains(entries[i]) by {
            if i < n - 1 {
                assert(k0.contains(entries[i]));
                let j = k0.index_of(entries[i]);
                assert(k[j] == entries[i]);
            } else {
                assert(k[k.len() - 1] == entries[i]);
            }
        }
        assert forall|j: int| 0 <= j < u.len() implies stands_for_unsupported(
            entries,
            n,
            #[trigger] u[j],
        ) by {
            if j < u0.len() {
                assert(u[j] == u0[j]);
                let i = choose|i: int|
                    0 <= i < n - 1 && is_unsupported((#[trigger] entries[i]).0) && u0[j] == (
                        unsupported_names()[same_name_at(unsupported_names(), entries[i].0)],
                        entries[i].1,
                    );
                assert(is_unsupported(entries[i].0));
            } else {
                assert(is_unsupported(entries[n - 1].0));
            }
        }
        assert forall|j: int| 0 <= j < k.len() implies stands_for_unknown(
            entries,
            n,
            #[trigger] k[j],
        ) by {
            if j < k0.len() {
                assert(k[j] == k0[j]);
                let i = choose|i: int|
                    0 <= i < n - 1 && !is_unsupported((#[trigger] entries[i]).0)
                        && !is_recognized_spec(entries[i].0) && k0[j] == entries[i];
                assert(!is_unsupported(entries[i].0));
            } else {
                assert(!is_unsupported(entries[n - 1].0));
            }
        }
    }
}

/// A switch of the pack decides in both directions, whatever the preset says:
/// `true`, `1`, `on` and `enabled` turn its effect on, and every other value
/// turns it off.
pub proof fn law_switches_decide(m: Options, x: PackNumbers, base: ShaderEffectConfig)
    ensures
        m.dom().contains("BLOOM"@) ==> (configured(m, x, base).post matches Some(p) && p.bloom
            == (m["BLOOM"@] == "true"@ || m["BLOOM"@] == "1"@ || m["BLOOM"@]
                == "on"@ || m["BLOOM"@] == "enabled"@)),
        m.dom().contains("ATMOSPHERE"@) ==> configured(m, x, base).atmosphere is Some
            == (m["ATMOSPHERE"@] == "true"@ || m["ATMOSPHERE"@] == "1"@ || m["ATMOSPHERE"@]
                == "on"@ || m["ATMOSPHERE"@] == "enabled"@),
        m.dom().contains("AIR_FOG"@) ==> configured(m, x, base).fog is Some
            == (m["AIR_FOG"@] == "true"@ || m["AIR_FOG"@] == "1"@ || m["AIR_FOG"@]
                == "on"@ || m["AIR_FOG"@] == "enabled"@),
        m.dom().contains("VIGNETTE"@) && x.vignette_strength is None ==> (configured(
            m,
            x,
            base,
        ).post matches Some(p) && p.vignette.bits == if (m["VIGNETTE"@] == "true"@ || m["VIGNETTE"@] == "1"@ || m["VIGNETTE"@]
                == "on"@ || m["VIGNETTE"@] == "enabled"@) {
            0x3e4c_cccdu32
        } else {
            0u32
        }),
        m.dom().contains("CLOUDS_LAYER0_ENABLED"@) && !m.dom().contains("CLOUDS_LAYER1_ENABLED"@)
            ==> configured(m, x, base).clouds is Some == (base.clouds is Some
            && (m["CLOUDS_LAYER0_ENABLED"@] == "true"@ || m["CLOUDS_LAYER0_ENABLED"@] == "1"@ || m["CLOUDS_LAYER0_ENABLED"@]
                == "on"@ || m["CLOUDS_LAYER0_ENABLED"@] == "enabled"@)),
        m.dom().contains("CLOUDS_LAYER1_ENABLED"@)
            && (m["CLOUDS_LAYER1_ENABLED"@] == "true"@ || m["CLOUDS_LAYER1_ENABLED"@] == "1"@ || m["CLOUDS_LAYER1_ENABLED"@]
                == "on"@ || m["CLOUDS_LAYER1_ENABLED"@] == "enabled"@)
            ==> configured(m, x, base).clouds is Some == base.clouds is Some,
{
}

/// Shadows are off for `0` and `false` and on for any other value; ambient
/// occlusion and water are off for the number 0 and, where the preset has
/// water, on for any other number. Each is so whatever the preset says.
pub proof fn law_numbers_switch_stages(m: Options, x: PackNumbers, base: ShaderEffectConfig)
    ensures
        m.dom().contains("SHADOWS"@) ==> configured(m, x, base).shadows is Some == (m["SHADOWS"@]
            != "0"@ && m["SHADOWS"@] != "false"@),
        whole(m, "AO"@) matches Some(n) ==> configured(m, x, base).ssao is Some == (n != 0),
        whole(m, "AO"@) is None ==> configured(m, x, base).ssao == base.ssao,
        whole(m, "WATER_OCTAVES"@) matches Some(n) ==> configured(m, x, base).water is Some == (n
            != 0 && base.water is Some),
        whole(m, "WATER_OCTAVES"@) is None ==> configured(m, x, base).water == base.water,
        m.dom().contains("BLOOM"@) || m.dom().contains("BLOOM_STRENGTH"@) || m.dom().contains(
            "VIGNETTE"@,
        ) || m.dom().contains("VIGNETTE_STRENGTH"@) || m.dom().contains("TONEMAP"@)
            ==> configured(m, x, base).post is Some,
        configured(m, x, base).sun_angle == base.sun_angle,
{
}

/// A number is taken as it is where it lies between two limits, and moved to
/// the nearer limit where it does not.
pub open spec fn is_limited(r: F32, v: F32, low: u32, high: u32) -> bool {
    &&& (F32 { bits: low }).le_spec(v) && v.le_spec(F32 { bits: high }) ==> r == v
    &&& v.lt_spec(F32 { bits: low }) ==> r.bits == low
    &&& (F32 { bits: high }).lt_spec(v) ==> r.bits == high
}

/// A number that a pack sets is taken as it is, within the limits of its knob:
/// shadow distance 16 to 512, cloud altitude 40 to 400, coverage 0 to 1, wave
/// amplitude 0 to 2, fog density 0 to 0.05, bloom strength 0 to 2, vignette 0
/// to 1, tilt of the sun's path -60 to 60, aperture 1 to 22, shutter speed 1
/// to 8000 and sensitivity 50 to 6400. Ambient occlusion goes from 0.15 to 1.
pub proof fn law_set_numbers_are_taken(m: Options, x: PackNumbers, base: ShaderEffectConfig)
    ensures
        x.sun_path_rotation is Some ==> is_limited(
            configured(m, x, base).sun_path_rotation_deg,
            x.sun_path_rotation->0,
            0xc2700000,
            0x42700000,
        ),
        m.dom().contains("SHADOWS"@) ==> (x.shadow_distance is Some && configured(
            m,
            x,
            base,
        ).shadows is Some ==> is_limited(
            configured(m, x, base).shadows->0.distance,
            x.shadow_distance->0,
            0x41800000,
            0x44000000,
        )),
        whole(m, "AO"@) is Some ==> (x.ao_scale is Some && configured(m, x, base).ssao is Some
            && !x.ao_scale->0.is_nan_spec() ==> is_limited(
            configured(m, x, base).ssao->0.strength,
            x.ao_scale->0,
            0x3e19999a,
            0x3f800000,
        )),
        switch(m, "CLOUDS_LAYER0_ENABLED"@) == Some(true) ==> (x.cloud_altitude is Some
            && configured(m, x, base).clouds is Some ==> is_limited(
            configured(m, x, base).clouds->0.altitude,
            x.cloud_altitude->0,
            0x42200000,
            0x43c80000,
        )),
        switch(m, "CLOUDS_LAYER0_ENABLED"@) == Some(true) ==> (x.cloud_coverage is Some
            && configured(m, x, base).clouds is Some ==> is_limited(
            configured(m, x, base).clouds->0.coverage,
            x.cloud_coverage->0,
            0x00000000,
            0x3f800000,
        )),
        whole(m, "WATER_OCTAVES"@) is Some ==> (x.wave_amplitude is Some && configured(
            m,
            x,
            base,
        ).water is Some ==> is_limited(
            configured(m, x, base).water->0.amplitude,
            x.wave_amplitude->0,
            0x00000000,
            0x40000000,
        )),
        switch(m, "AIR_FOG"@) == Some(true) ==> (x.fog_density is Some ==> is_limited(
            configured(m, x, base).fog->0.density,
            x.fog_density->0,
            0x00000000,
            0x3d4ccccd,
        )),
        x.bloom_strength is Some && configured(m, x, base).post is Some ==> is_limited(
            configured(m, x, base).post->0.bloom_intensity,
            x.bloom_strength->0,
            0x00000000,
            0x40000000,
        ),
        x.vignette_strength is Some && configured(m, x, base).post is Some ==> is_limited(
            configured(m, x, base).post->0.vignette,
            x.vignette_strength->0,
            0x00000000,
            0x3f800000,
        ),
        x.f_stops is Some && x.shutter_speed is Some && x.iso is Some ==> (configured(
            m,
            x,
            base,
        ).exposure matches Some(e) && is_limited(e.f_stops, x.f_stops->0, 0x3f800000, 0x41b00000)
            && is_limited(e.shutter_speed, x.shutter_speed->0, 0x3f800000, 0x45fa0000) && is_limited(
            e.iso,
            x.iso->0,
            0x42480000,
            0x45c80000,
        )),
{
    lemma_limits();
    crate::scalar::lemma_bits_order(0x3e19999a, 0x3f800000);
    crate::scalar::lemma_bits_order(0, 0x3e19999a);
}

/// A whole number that a pack sets is taken as it is, within the limits of its
/// knob: the side of the shadow map 256 to 8192, shadow samples 1 to 16, cloud
/// steps 4 to 64 and wave octaves 1 to 8. The mode of ambient occlusion is
/// twice its slices, of which there are 1 to 8.
pub proof fn law_set_whole_numbers_are_taken(m: Options, x: PackNumbers, base: ShaderEffectConfig)
    ensures
        m.dom().contains("SHADOWS"@) ==> (whole(m, "shadowMapResolution"@) is Some && configured(
            m,
            x,
            base,
        ).shadows is Some ==> {
            let v = whole(m, "shadowMapResolution"@)->0;
            let r = configured(m, x, base).shadows->0.resolution;
            &&& 256 <= v <= 8192 ==> r == v
            &&& v < 256 ==> r == 256
            &&& v > 8192 ==> r == 8192
        }),
        m.dom().contains("SHADOWS"@) ==> (whole(m, "SHADOW_SAMPLES"@) is Some && configured(
            m,
            x,
            base,
        ).shadows is Some ==> {
            let v = whole(m, "SHADOW_SAMPLES"@)->0;
            let r = configured(m, x, base).shadows->0.samples;
            &&& 1 <= v <= 16 ==> r == v
            &&& v < 1 ==> r == 1
            &&& v > 16 ==> r == 16
        }),
        switch(m, "CLOUDS_LAYER0_ENABLED"@) == Some(true) ==> (whole(m, "CLOUDS_LAYER0_SCATTERING_STEPS"@) is Some && configured(
            m,
            x,
            base,
        ).clouds is Some ==> {
            let v = whole(m, "CLOUDS_LAYER0_SCATTERING_STEPS"@)->0;
            let r = configured(m, x, base).clouds->0.steps;
            &&& 4 <= v <= 64 ==> r == v
            &&& v < 4 ==> r == 4
            &&& v > 64 ==> r == 64
        }),
        true ==> (whole(m, "WATER_OCTAVES"@) is Some && configured(
            m,
            x,
            base,
        ).water is Some ==> {
            let v = whole(m, "WATER_OCTAVES"@)->0;
            let r = configured(m, x, base).water->0.octaves;
            &&& 1 <= v <= 8 ==> r == v
            &&& v < 1 ==> r == 1
            &&& v > 8 ==> r == 8
        }),
        whole(m, "AO"@) is Some && configured(m, x, base).ssao is Some ==> {
            let v = whole(m, "AO"@)->0;
            let a = configured(m, x, base).ssao->0;
            &&& 2 <= v <= 17 ==> a.slices == v / 2
            &&& v < 2 ==> a.slices == 1
            &&& v > 17 ==> a.slices == 8
        },
{
}

/// The tone curve that an option names, letter case aside: none for `none` and
/// `0`, Reinhard's for `reinhard`, the filmic one for anything else.
pub proof fn law_tone_curves_have_names(m: Options, x: PackNumbers, base: ShaderEffectConfig)
    requires
        m.dom().contains("TONEMAP"@),
    ensures
        ({
            let v = m["TONEMAP"@];
            let r = configured(m, x, base).post->0.tonemap;
            &&& configured(m, x, base).post is Some
            &&& same_ignoring_case(v, "none"@) || v == "0"@ ==> r == Tonemap::Off
            &&& same_ignoring_case(v, "reinhard"@) ==> r == Tonemap::Reinhard
            &&& !same_ignoring_case(v, "none"@) && v != "0"@ && !same_ignoring_case(
                v,
                "reinhard"@,
            ) ==> r == Tonemap::Aces
        }),
{
    reveal_strlit("none");
    reveal_strlit("reinhard");
    reveal_strlit("0");
    let v = m["TONEMAP"@];
    if same_ignoring_case(v, "reinhard"@) {
        assert(crate::ascii::lower(v).len() == 8);
        assert(crate::ascii::lower("none"@).len() == 4);
        assert("0"@.len() == 1);
    }
}

/// The words of a profile line set options, the last word for an option
/// counts, and what no word sets stays.
pub proof fn law_profile_words_set_options(
    m: Options,
    w: Seq<Seq<char>>,
    n: int,
    key: Seq<char>,
    value: Seq<char>,
    i: int,
)
    requires
        0 <= n <= w.len(),
    ensures
        0 <= i < n && split_once(w[i], '=') == Some((key, value)) && (forall|j: int|
            i < j < n ==> !(split_once(#[trigger] w[j], '=') matches Some(p) && p.0 == key))
            ==> with_words(m, w, n).dom().contains(key) && with_words(m, w, n)[key] == value,
        (forall|j: int|
            0 <= j < n ==> !(split_once(#[trigger] w[j], '=') matches Some(p) && p.0 == key))
            ==> with_words(m, w, n).dom().contains(key) == m.dom().contains(key) && (
        m.dom().contains(key) ==> with_words(m, w, n)[key] == m[key]),
    decreases n,
{
    if n > 0 {
        law_profile_words_set_options(m, w, n - 1, key, value, i);
    }
}

/// The profile that a file names with `profile` applies, whatever the quality:
/// its line's words are set over the file's options.
pub proof fn law_named_profile_applies(
    entries: Seq<(Seq<char>, Seq<char>)>,
    m: Options,
    q: RenderQuality,
    key: Seq<char>,
    value: Seq<char>,
    i: int,
)
    requires
        m.dom().contains("profile"@),
        m.dom().contains("profile."@ + m["profile"@]),
        ({
            let w = words(m["profile."@ + m["profile"@]]);
            &&& 0 <= i < w.len()
            &&& split_once(w[i], '=') == Some((key, value))
            &&& forall|j: int|
                i < j < w.len() ==> !(split_once(#[trigger] w[j], '=') matches Some(p) && p.0
                    == key)
        }),
    ensures
        effective_options(entries, m, q).dom().contains(key),
        effective_options(entries, m, q)[key] == value,
{
    let w = words(m["profile."@ + m["profile"@]]);
    law_profile_words_set_options(m, w, w.len() as int, key, value, i);
}

/// Without profiles the options of the file are in force.
pub proof fn law_plain_files_are_taken(
    entries: Seq<(Seq<char>, Seq<char>)>,
    m: Options,
    q: RenderQuality,
)
    requires
        !m.dom().contains("profile"@),
        forall|k: Seq<char>| #[trigger] m.dom().contains(k) ==> !starts_with(k, "profile."@),
    ensures
        effective_options(entries, m, q) == m,
{
    if let Some(name) = selected_profile(entries, m, q) {
        let key = "profile."@ + name;
        assert(starts_with(key, "profile."@)) by {
            assert(key.take("profile."@.len() as int) =~= "profile."@);
        }
    }
}

/// A file that names no profile gets the one that goes with the quality, where
/// it declares that: POTATO for Low, MEDIUM, or else LIGHT, for Medium, HIGH
/// for High and ULTRA for Ultra, letter case aside.
pub proof fn law_quality_selects_its_profile(
    entries: Seq<(Seq<char>, Seq<char>)>,
    m: Options,
    q: RenderQuality,
    i: int,
)
    requires
        !m.dom().contains("profile"@),
        0 <= i < entries.len(),
        q == RenderQuality::Low ==> same_ignoring_case(entries[i].0, "profile.POTATO"@),
        q == RenderQuality::Medium ==> same_ignoring_case(entries[i].0, "profile.MEDIUM"@),
        q == RenderQuality::High ==> same_ignoring_case(entries[i].0, "profile.HIGH"@),
        q == RenderQuality::Ultra ==> same_ignoring_case(entries[i].0, "profile.ULTRA"@),
    ensures
        exists|j: int|
            0 <= j <= i && same_ignoring_case((#[trigger] entries[j]).0, entries[i].0)
                && selected_profile(entries, m, q) == Some(strip_all(entries[j].0, "profile."@)),
{
    let wanted = wanted_profiles(q);
    let p = |k: Seq<char>| same_ignoring_case(k, wanted[0]);
    lemma_first_key_found(entries, p, i);
    let j = first_key(entries, p);
    assert(declared_among(entries, wanted, 0) is None);
    assert(declared_among(entries, wanted, 1) == Some(entries[j].0));
    if wanted.len() == 2 {
        assert(declared_among(entries, wanted, 2) == Some(entries[j].0));
    }
    assert(same_ignoring_case(entries[j].0, entries[i].0));
}

proof fn lemma_first_key_found(
    entries: Seq<(Seq<char>, Seq<char>)>,
    p: spec_fn(Seq<char>) -> bool,
    i: int,
)
    requires
        0 <= i < entries.len(),
        p(entries[i].0),
    ensures
        0 <= first_key(entries, p) <= i,
        p(entries[first_key(entries, p)].0),
    decreases entries.len(),
{
    if !p(entries[0].0) {
        assert(entries.skip(1)[i - 1] == entries[i]);
        lemma_first_key_found(entries.skip(1), p, i - 1);
    }
}

proof fn lemma_same_name_found(names: Seq<Seq<char>>, i: int, key: Seq<char>)
    requires
        0 <= i < names.len(),
        same_ignoring_case(names[i], key),
    ensures
        0 <= same_name_at(names, key) <= i,
    decreases names.len(),
{
    if !same_ignoring_case(names[0], key) {
        assert(names.skip(1)[i - 1] == names[i]);
        lemma_same_name_found(names.skip(1), i - 1, key);
    }
}

/// The options that are known and cannot be honored, in any letter case.
pub proof fn law_unsupported_options_are_known(key: Seq<char>)
    ensures
        same_ignoring_case("TAA"@, key) ==> is_unsupported(key),
        same_ignoring_case("DOF"@, key) ==> is_unsupported(key),
        same_ignoring_case("POM"@, key) ==> is_unsupported(key),
        same_ignoring_case("POM_LAYERS"@, key) ==> is_unsupported(key),
        same_ignoring_case("POM_DISTANCE"@, key) ==> is_unsupported(key),
        same_ignoring_case("POM_SHADOWING"@, key) ==> is_unsupported(key),
        same_ignoring_case("CLOUDS_SHADOWS"@, key) ==> is_unsupported(key),
        same_ignoring_case("WATER_CAUSTICS"@, key) ==> is_unsupported(key),
        same_ignoring_case("WATER_PARALLAX"@, key) ==> is_unsupported(key),
        same_ignoring_case("SSR"@, key) ==> is_unsupported(key),
        same_ignoring_case("LENS_FLARES"@, key) ==> is_unsupported(key),
        same_ignoring_case("GLARE"@, key) ==> is_unsupported(key),
        same_ignoring_case("PALETTE"@, key) ==> is_unsupported(key),
        same_ignoring_case("LUT"@, key) ==> is_unsupported(key),
        same_ignoring_case("CEL_SHADING"@, key) ==> is_unsupported(key),
        same_ignoring_case("FILM_GRAIN"@, key) ==> is_unsupported(key),
        same_ignoring_case("LABPBR"@, key) ==> is_unsupported(key),
        same_ignoring_case("SUBSURFACE_SCATTERING"@, key) ==> is_unsupported(key),
        same_ignoring_case("DH_SHADOWS"@, key) ==> is_unsupported(key),
        same_ignoring_case("RAIN_PUDDLES"@, key) ==> is_unsupported(key),
{
    let names = unsupported_names();
    if same_ignoring_case("TAA"@, key) {
        assert(names[0] == "TAA"@);
        lemma_same_name_found(names, 0, key);
    }
    if same_ignoring_case("DOF"@, key) {
        assert(names[1] == "DOF"@);
        lemma_same_name_found(names, 1, key);
    }
    if same_ignoring_case("POM"@, key) {
        assert(names[2] == "POM"@);
        lemma_same_name_found(names, 2, key);
    }
    if same_ignoring_case("POM_LAYERS"@, key) {
        assert(names[3] == "POM_LAYERS"@);
        lemma_same_name_found(names, 3, key);
    }
    if same_ignoring_case("POM_DISTANCE"@, key) {
        assert(names[4] == "POM_DISTANCE"@);
        lemma_same_name_found(names, 4, key);
    }
    if same_ignoring_case("POM_SHADOWING"@, key) {
        assert(names[5] == "POM_SHADOWING"@);
        lemma_same_name_found(names, 5, key);
    }
    if same_ignoring_case("CLOUDS_SHADOWS"@, key) {
        assert(names[6] == "CLOUDS_SHADOWS"@);
        lemma_same_name_found(names, 6, key);
    }
    if same_ignoring_case("WATER_CAUSTICS"@, key) {
        assert(names[7] == "WATER_CAUSTICS"@);
        lemma_same_name_found(names, 7, key);
    }
    if same_ignoring_case("WATER_PARALLAX"@, key) {
        assert(names[8] == "WATER_PARALLAX"@);
        lemma_same_name_found(names, 8, key);
    }
    if same_ignoring_case("SSR"@, key) {
        assert(names[9] == "SSR"@);
        lemma_same_name_found(names, 9, key);
    }
    if same_ignoring_case("LENS_FLARES"@, key) {
        assert(names[10] == "LENS_FLARES"@);
        lemma_same_name_found(names, 10, key);
    }
    if same_ignoring_case("GLARE"@, key) {
        assert(names[11] == "GLARE"@);
        lemma_same_name_found(names, 11, key);
    }
    if same_ignoring_case("PALETTE"@, key) {
        assert(names[12] == "PALETTE"@);
        lemma_same_name_found(names, 12, key);
    }
    if same_ignoring_case("LUT"@, key) {
        assert(names[13] == "LUT"@);
        lemma_same_name_found(names, 13, key);
    }
    if same_ignoring_case("CEL_SHADING"@, key) {
        assert(names[14] == "CEL_SHADING"@);
        lemma_same_name_found(names, 14, key);
    }
    if same_ignoring_case("FILM_GRAIN"@, key) {
        assert(names[15] == "FILM_GRAIN"@);
        lemma_same_name_found(names, 15, key);
    }
    if same_ignoring_case("LABPBR"@, key) {
        assert(names[16] == "LABPBR"@);
        lemma_same_name_found(names, 16, key);
    }
    if same_ignoring_case("SUBSURFACE_SCATTERING"@, key) {
        assert(names[17] == "SUBSURFACE_SCATTERING"@);
        lemma_same_name_found(names, 17, key);
    }
    if same_ignoring_case("DH_SHADOWS"@, key) {
        assert(names[18] == "DH_SHADOWS"@);
        lemma_same_name_found(names, 18, key);
    }
    if same_ignoring_case("RAIN_PUDDLES"@, key) {
        assert(names[19] == "RAIN_PUDDLES"@);
        lemma_same_name_found(names, 19, key);
    }
}

/// The options that are mapped or passed over on purpose, in any letter case,
/// and the declarations of profiles.
pub proof fn law_mapped_options_are_recognized(key: Seq<char>)
    ensures
        starts_with(key, "profile."@) ==> is_recognized_spec(key),
        same_ignoring_case("profile"@, key) ==> is_recognized_spec(key),
        same_ignoring_case("sun"@, key) ==> is_recognized_spec(key),
        same_ignoring_case("moon"@, key) ==> is_recognized_spec(key),
        same_ignoring_case("clouds"@, key) ==> is_recognized_spec(key),
        same_ignoring_case("separateAo"@, key) ==> is_recognized_spec(key),
        same_ignoring_case("vignette"@, key) ==> is_recognized_spec(key),
        same_ignoring_case("oldLighting"@, key) ==> is_recognized_spec(key),
        same_ignoring_case("oldHandLight"@, key) ==> is_recognized_spec(key),
        same_ignoring_case("underwaterOverlay"@, key) ==> is_recognized_spec(key),
        same_ignoring_case("dynamicHandLight"@, key) ==> is_recognized_spec(key),
        same_ignoring_case("SHADOWS"@, key) ==> is_recognized_spec(key),
        same_ignoring_case("SHADOW_SAMPLES"@, key) ==> is_recognized_spec(key),
        same_ignoring_case("shadowMapResolution"@, key) ==> is_recognized_spec(key),
        same_ignoring_case("shadowDistance"@, key) ==> is_recognized_spec(key),
        same_ignoring_case("AO"@, key) ==> is_recognized_spec(key),
        same_ignoring_case("AO_SCALE"@, key) ==> is_recognized_spec(key),
        same_ignoring_case("sunPathRotation"@, key) ==> is_recognized_spec(key),
        same_ignoring_case("ATMOSPHERE"@, key) ==> is_recognized_spec(key),
        same_ignoring_case("CLOUDS_LAYER0_ENABLED"@, key) ==> is_recognized_spec(key),
        same_ignoring_case("CLOUDS_LAYER1_ENABLED"@, key) ==> is_recognized_spec(key),
        same_ignoring_case("CLOUDS_LAYER0_ALTITUDE"@, key) ==> is_recognized_spec(key),
        same_ignoring_case("CLOUDS_LAYER0_COVERAGE"@, key) ==> is_recognized_spec(key),
        same_ignoring_case("CLOUDS_LAYER0_SCATTERING_STEPS"@, key) ==> is_recognized_spec(key),
        same_ignoring_case("WATER_OCTAVES"@, key) ==> is_recognized_spec(key),
        same_ignoring_case("WAVE_AMPLITUDE"@, key) ==> is_recognized_spec(key),
        same_ignoring_case("AIR_FOG"@, key) ==> is_recognized_spec(key),
        same_ignoring_case("FOG_DENSITY"@, key) ==> is_recognized_spec(key),
        same_ignoring_case("BLOOM"@, key) ==> is_recognized_spec(key),
        same_ignoring_case("BLOOM_STRENGTH"@, key) ==> is_recognized_spec(key),
        same_ignoring_case("VIGNETTE"@, key) ==> is_recognized_spec(key),
        same_ignoring_case("VIGNETTE_STRENGTH"@, key) ==> is_recognized_spec(key),
        same_ignoring_case("TONEMAP"@, key) ==> is_recognized_spec(key),
        same_ignoring_case("F_STOPS"@, key) ==> is_recognized_spec(key),
        same_ignoring_case("ISO"@, key) ==> is_recognized_spec(key),
        same_ignoring_case("SHUTTER_SPEED"@, key) ==> is_recognized_spec(key),
        same_ignoring_case("EXPOSURE"@, key) ==> is_recognized_spec(key),
        same_ignoring_case("RENDER_SCALE_OPTION"@, key) ==> is_recognized_spec(key),
        same_ignoring_case("ATMOSPHERE_SCALE"@, key) ==> is_recognized_spec(key),
        same_ignoring_case("ATMOSPHERE_SCATTERING_STEPS"@, key) ==> is_recognized_spec(key),
        same_ignoring_case("ATMOSPHERE_TRANSMITTANCE_STEPS"@, key) ==> is_recognized_spec(key),
        same_ignoring_case("CLOUDS_SCALE"@, key) ==> is_recognized_spec(key),
        same_ignoring_case("REFLECTIONS"@, key) ==> is_recognized_spec(key),
        same_ignoring_case("REFLECTIONS_SCALE"@, key) ==> is_recognized_spec(key),
        same_ignoring_case("REFLECTIONS_STRIDE"@, key) ==> is_recognized_spec(key),
        same_ignoring_case("REFRACTIONS"@, key) ==> is_recognized_spec(key),
{
    let names = recognized_names();
    if same_ignoring_case("profile"@, key) {
        assert(names[0] == "profile"@);
        lemma_same_name_found(names, 0, key);
    }
    if same_ignoring_case("sun"@, key) {
        assert(names[1] == "sun"@);
        lemma_same_name_found(names, 1, key);
    }
    if same_ignoring_case("moon"@, key) {
        assert(names[2] == "moon"@);
        lemma_same_name_found(names, 2, key);
    }
    if same_ignoring_case("clouds"@, key) {
        assert(names[3] == "clouds"@);
        lemma_same_name_found(names, 3, key);
    }
    if same_ignoring_case("separateAo"@, key) {
        assert(names[4] == "separateAo"@);
        lemma_same_name_found(names, 4, key);
    }
    if same_ignoring_case("vignette"@, key) {
        assert(names[5] == "vignette"@);
        lemma_same_name_found(names, 5, key);
    }
    if same_ignoring_case("oldLighting"@, key) {
        assert(names[6] == "oldLighting"@);
        lemma_same_name_found(names, 6, key);
    }
    if same_ignoring_case("oldHandLight"@, key) {
        assert(names[7] == "oldHandLight"@);
        lemma_same_name_found(names, 7, key);
    }
    if same_ignoring_case("underwaterOverlay"@, key) {
        assert(names[8] == "underwaterOverlay"@);
        lemma_same_name_found(names, 8, key);
    }
    if same_ignoring_case("dynamicHandLight"@, key) {
        assert(names[9] == "dynamicHandLight"@);
        lemma_same_name_found(names, 9, key);
    }
    if same_ignoring_case("SHADOWS"@, key) {
        assert(names[10] == "SHADOWS"@);
        lemma_same_name_found(names, 10, key);
    }
    if same_ignoring_case("SHADOW_SAMPLES"@, key) {
        assert(names[11] == "SHADOW_SAMPLES"@);
        lemma_same_name_found(names, 11, key);
    }
    if same_ignoring_case("shadowMapResolution"@, key) {
        assert(names[12] == "shadowMapResolution"@);
        lemma_same_name_found(names, 12, key);
    }
    if same_ignoring_case("shadowDistance"@, key) {
        assert(names[13] == "shadowDistance"@);
        lemma_same_name_found(names, 13, key);
    }
    if same_ignoring_case("AO"@, key) {
        assert(names[14] == "AO"@);
        lemma_same_name_found(names, 14, key);
    }
    if same_ignoring_case("AO_SCALE"@, key) {
        assert(names[15] == "AO_SCALE"@);
        lemma_same_name_found(names, 15, key);
    }
    if same_ignoring_case("sunPathRotation"@, key) {
        assert(names[16] == "sunPathRotation"@);
        lemma_same_name_found(names, 16, key);
    }
    if same_ignoring_case("ATMOSPHERE"@, key) {
        assert(names[17] == "ATMOSPHERE"@);
        lemma_same_name_found(names, 17, key);
    }
    if same_ignoring_case("CLOUDS_LAYER0_ENABLED"@, key) {
        assert(names[18] == "CLOUDS_LAYER0_ENABLED"@);
        lemma_same_name_found(names, 18, key);
    }
    if same_ignoring_case("CLOUDS_LAYER1_ENABLED"@, key) {
        assert(names[19] == "CLOUDS_LAYER1_ENABLED"@);
        lemma_same_name_found(names, 19, key);
    }
    if same_ignoring_case("CLOUDS_LAYER0_ALTITUDE"@, key) {
        assert(names[20] == "CLOUDS_LAYER0_ALTITUDE"@);
        lemma_same_name_found(names, 20, key);
    }
    if same_ignoring_case("CLOUDS_LAYER0_COVERAGE"@, key) {
        assert(names[21] == "CLOUDS_LAYER0_COVERAGE"@);
        lemma_same_name_found(names, 21, key);
    }
    if same_ignoring_case("CLOUDS_LAYER0_SCATTERING_STEPS"@, key) {
        assert(names[22] == "CLOUDS_LAYER0_SCATTERING_STEPS"@);
        lemma_same_name_found(names, 22, key);
    }
    if same_ignoring_case("WATER_OCTAVES"@, key) {
        assert(names[23] == "WATER_OCTAVES"@);
        lemma_same_name_found(names, 23, key);
    }
    if same_ignoring_case("WAVE_AMPLITUDE"@, key) {
        assert(names[24] == "WAVE_AMPLITUDE"@);
        lemma_same_name_found(names, 24, key);
    }
    if same_ignoring_case("AIR_FOG"@, key) {
        assert(names[25] == "AIR_FOG"@);
        lemma_same_name_found(names, 25, key);
    }
    if same_ignoring_case("FOG_DENSITY"@, key) {
        assert(names[26] == "FOG_DENSITY"@);
        lemma_same_name_found(names, 26, key);
    }
    if same_ignoring_case("BLOOM"@, key) {
        assert(names[27] == "BLOOM"@);
        lemma_same_name_found(names, 27, key);
    }
    if same_ignoring_case("BLOOM_STRENGTH"@, key) {
        assert(names[28] == "BLOOM_STRENGTH"@);
        lemma_same_name_found(names, 28, key);
    }
    if same_ignoring_case("VIGNETTE"@, key) {
        assert(names[29] == "VIGNETTE"@);
        lemma_same_name_found(names, 29, key);
    }
    if same_ignoring_case("VIGNETTE_STRENGTH"@, key) {
        assert(names[30] == "VIGNETTE_STRENGTH"@);
        lemma_same_name_found(names, 30, key);
    }
    if same_ignoring_case("TONEMAP"@, key) {
        assert(names[31] == "TONEMAP"@);
        lemma_same_name_found(names, 31, key);
    }
    if same_ignoring_case("F_STOPS"@, key) {
        assert(names[32] == "F_STOPS"@);
        lemma_same_name_found(names, 32, key);
    }
    if same_ignoring_case("ISO"@, key) {
        assert(names[33] == "ISO"@);
        lemma_same_name_found(names, 33, key);
    }
    if same_ignoring_case("SHUTTER_SPEED"@, key) {
        assert(names[34] == "SHUTTER_SPEED"@);
        lemma_same_name_found(names, 34, key);
    }
    if same_ignoring_case("EXPOSURE"@, key) {
        assert(names[35] == "EXPOSURE"@);
        lemma_same_name_found(names, 35, key);
    }
    if same_ignoring_case("RENDER_SCALE_OPTION"@, key) {
        assert(names[36] == "RENDER_SCALE_OPTION"@);
        lemma_same_name_found(names, 36, key);
    }
    if same_ignoring_case("ATMOSPHERE_SCALE"@, key) {
        assert(names[37] == "ATMOSPHERE_SCALE"@);
        lemma_same_name_found(names, 37, key);
    }
    if same_ignoring_case("ATMOSPHERE_SCATTERING_STEPS"@, key) {
        assert(names[38] == "ATMOSPHERE_SCATTERING_STEPS"@);
        lemma_same_name_found(names, 38, key);
    }
    if same_ignoring_case("ATMOSPHERE_TRANSMITTANCE_STEPS"@, key) {
        assert(names[39] == "ATMOSPHERE_TRANSMITTANCE_STEPS"@);
        lemma_same_name_found(names, 39, key);
    }
    if same_ignoring_case("CLOUDS_SCALE"@, key) {
        assert(names[40] == "CLOUDS_SCALE"@);
        lemma_same_name_found(names, 40, key);
    }
    if same_ignoring_case("REFLECTIONS"@, key) {
        assert(names[41] == "REFLECTIONS"@);
        lemma_same_name_found(names, 41, key);
    }
    if same_ignoring_case("REFLECTIONS_SCALE"@, key) {
        assert(names[42] == "REFLECTIONS_SCALE"@);
        lemma_same_name_found(names, 42, key);
    }
    if same_ignoring_case("REFLECTIONS_STRIDE"@, key) {
        assert(names[43] == "REFLECTIONS_STRIDE"@);
        lemma_same_name_found(names, 43, key);
    }
    if same_ignoring_case("REFRACTIONS"@, key) {
        assert(names[44] == "REFRACTIONS"@);
        lemma_same_name_found(names, 44, key);
    }
}

/// The layers of clouds: they are off where the first is switched off and the
/// second is not switched on, and else as the preset has them.
pub proof fn law_cloud_layers(m: Options, x: PackNumbers, base: ShaderEffectConfig)
    ensures
        ({
            let is_on = |v: Seq<char>| v == "true"@ || v == "1"@ || v == "on"@ || v == "enabled"@;
            let off = m.dom().contains("CLOUDS_LAYER0_ENABLED"@) && !is_on(
                m["CLOUDS_LAYER0_ENABLED"@],
            );
            let second = m.dom().contains("CLOUDS_LAYER1_ENABLED"@) && is_on(
                m["CLOUDS_LAYER1_ENABLED"@],
            );
            configured(m, x, base).clouds is Some == (base.clouds is Some && (!off || second))
        }),
{
}

/// What a pack gets that switches a stage on over a preset without it, and
/// sets nothing of it.
pub proof fn law_stages_start_plain(m: Options, x: PackNumbers, base: ShaderEffectConfig)
    ensures
        base.shadows is None && whole(m, "shadowMapResolution"@) is None && whole(
            m,
            "SHADOW_SAMPLES"@,
        ) is None && x.shadow_distance is None ==> (configured(m, x, base).shadows matches Some(s)
            ==> s.resolution == 2048 && s.samples == 4 && s.distance.bits == 0x43000000 && s.strength.bits
            == 0x3f666666),
        base.ssao is None && x.ao_scale is None ==> (configured(m, x, base).ssao matches Some(a)
            ==> a.radius.bits == 0x40400000 && a.strength.bits == 0x3f000000),
        base.fog is None && x.fog_density is None ==> (configured(m, x, base).fog matches Some(f)
            ==> f.density.bits == 0x3b03126f && f.tint == standard_tint()),
        base.atmosphere is None ==> (configured(m, x, base).atmosphere matches Some(a) ==> a
            == standard_sky()),
        base.post is None ==> (configured(m, x, base).post matches Some(p) ==> {
            &&& p.bloom_threshold.bits == 0x3f800000
            &&& x.bloom_strength is None ==> p.bloom_intensity.bits == 0x3f000000
            &&& !m.dom().contains("BLOOM"@) ==> !p.bloom
            &&& !m.dom().contains("TONEMAP"@) ==> p.tonemap == Tonemap::Aces
            &&& !m.dom().contains("VIGNETTE"@) && x.vignette_strength is None ==> p.vignette.bits
                == 0
        }),
        base.post is None && !m.dom().contains("BLOOM"@) && !m.dom().contains("BLOOM_STRENGTH"@)
            && !m.dom().contains("VIGNETTE"@) && !m.dom().contains("VIGNETTE_STRENGTH"@)
            && !m.dom().contains("TONEMAP"@) ==> configured(m, x, base).post is None,
{
}

/// Where a pack does not declare the profile of the quality, the first profile
/// that it declares applies; medium quality takes LIGHT before that.
pub proof fn law_other_profiles_stand_in(
    entries: Seq<(Seq<char>, Seq<char>)>,
    m: Options,
    i: int,
)
    requires
        !m.dom().contains("profile"@),
        0 <= i < entries.len(),
        forall|k: int|
            0 <= k < entries.len() ==> !same_ignoring_case(
                (#[trigger] entries[k]).0,
                "profile.MEDIUM"@,
            ),
        forall|k: int|
            0 <= k < i ==> !same_ignoring_case((#[trigger] entries[k]).0, "profile.LIGHT"@),
    ensures
        same_ignoring_case(entries[i].0, "profile.LIGHT"@) ==> selected_profile(
            entries,
            m,
            RenderQuality::Medium,
        ) == Some(strip_all(entries[i].0, "profile."@)),
        (forall|k: int|
            0 <= k < entries.len() ==> !same_ignoring_case(
                (#[trigger] entries[k]).0,
                "profile.LIGHT"@,
            )) && (forall|k: int|
            0 <= k < i ==> !starts_with((#[trigger] entries[k]).0, "profile."@)) && starts_with(
            entries[i].0,
            "profile."@,
        ) ==> selected_profile(entries, m, RenderQuality::Medium) == Some(
            strip_all(entries[i].0, "profile."@),
        ),
{
    let n = entries.len() as int;
    let wanted = wanted_profiles(RenderQuality::Medium);
    let first = |k: Seq<char>| same_ignoring_case(k, wanted[0]);
    let second = |k: Seq<char>| same_ignoring_case(k, wanted[1]);
    let any = |k: Seq<char>| starts_with(k, "profile."@);
    lemma_first_key_at(entries, first, n);
    assert(declared_among(entries, wanted, 0) is None);
    assert(declared_among(entries, wanted, 1) is None);
    if same_ignoring_case(entries[i].0, "profile.LIGHT"@) {
        lemma_first_key_at(entries, second, i);
        assert(declared_among(entries, wanted, 2) == Some(entries[i].0));
    } else if forall|k: int|
        0 <= k < entries.len() ==> !same_ignoring_case((#[trigger] entries[k]).0, "profile.LIGHT"@) {
        lemma_first_key_at(entries, second, n);
        assert(declared_among(entries, wanted, 2) is None);
        if (forall|k: int| 0 <= k < i ==> !starts_with((#[trigger] entries[k]).0, "profile."@))
            && starts_with(entries[i].0, "profile."@) {
            lemma_first_key_at(entries, any, i);
        }
    }
}

proof fn lemma_first_key_at(
    entries: Seq<(Seq<char>, Seq<char>)>,
    p: spec_fn(Seq<char>) -> bool,
    i: int,
)
    requires
        0 <= i <= entries.len(),
        forall|k: int| 0 <= k < i ==> !p((#[trigger] entries[k]).0),
        i < entries.len() ==> p(entries[i].0),
    ensures
        first_key(entries, p) == i,
    decreases entries.len(),
{
    if i > 0 {
        assert(!p(entries[0].0));
        let rest = entries.skip(1);
        assert forall|k: int| 0 <= k < i - 1 implies !p((#[trigger] rest[k]).0) by {
            assert(rest[k] == entries[k + 1]);
        }
        lemma_first_key_at(rest, p, i - 1);
    }
}

/// An option that cannot be honored is reported under its name with its value,
/// and one that is not known as it stands; a mapped one is not reported.
pub proof fn law_options_are_reported(entries: Seq<(Seq<char>, Seq<char>)>, n: int)
    requires
        0 < n <= entries.len(),
    ensures
        ({
            let e = entries[n - 1];
            let (u, v) = (unsupported_in(entries, n - 1), unsupported_in(entries, n));
            let (a, b) = (unknown_in(entries, n - 1), unknown_in(entries, n));
            &&& is_unsupported(e.0) ==> v.len() == u.len() + 1 && same_ignoring_case(
                v.last().0,
                e.0,
            ) && v.last().1 == e.1 && b == a
            &&& !is_unsupported(e.0) && is_recognized_spec(e.0) ==> v == u && b == a
            &&& !is_unsupported(e.0) && !is_recognized_spec(e.0) ==> v == u && b == a.push(e)
        }),
{
    let e = entries[n - 1];
    if is_unsupported(e.0) {
        lemma_same_name(unsupported_names(), e.0);
    }
}

proof fn lemma_same_name(names: Seq<Seq<char>>, key: Seq<char>)
    ensures
        0 <= same_name_at(names, key) <= names.len(),
        same_name_at(names, key) < names.len() ==> same_ignoring_case(
            names[same_name_at(names, key)],
            key,
        ),
    decreases names.len(),
{
    if names.len() > 0 && !same_ignoring_case(names[0], key) {
        lemma_same_name(names.skip(1), key);
    }
}

/// The reports stand by name, and are those that were made.
pub proof fn law_reports_stand_by_name(
    r: Seq<(Seq<char>, Seq<char>)>,
    v: Seq<(Seq<char>, Seq<char>)>,
    i: int,
    j: int,
)
    requires
        is_sorted_form(r, v),
        0 <= i < j < r.len(),
    ensures
        r.len() == v.len(),
        pair_le(r[i], r[j]),
        v.contains(r[i]) && v.contains(r[j]),
{
    let perm = choose|perm: Seq<usize>| #[trigger]
        is_stable_order(perm, v.len() as int, pair_order(v)) && permuted(r, v, perm);
    let le = pair_order(v);
    assert(le(perm[i] as int, perm[j] as int));
    assert(r[i] == v[perm[i] as int] && r[j] == v[perm[j] as int]);
}

/// The options in force come out of the properties of the text: without
/// profiles, what the last line for an option states.
pub proof fn law_texts_set_options(
    file: Properties,
    text: Seq<char>,
    q: RenderQuality,
    key: Seq<char>,
    i: int,
)
    requires
        ({
            let lines = crate::text::split(text, '\n');
            &&& 0 <= i < lines.len()
            &&& crate::properties::stated(lines[i]) matches Some(p) && p.0 == key
            &&& forall|j: int|
                i < j < lines.len() ==> !(crate::properties::stated(#[trigger] lines[j]) matches Some(
                    p,
                ) && p.0 == key)
            &&& !properties_in(text).dom().contains("profile"@)
            &&& forall|k: Seq<char>| #[trigger]
                properties_in(text).dom().contains(k) ==> !starts_with(k, "profile."@)
        }),
    ensures
        options_of(file, text, q).dom().contains(key),
        crate::properties::stated(crate::text::split(text, '\n')[i]) matches Some(p) && options_of(
            file,
            text,
            q,
        )[key] == p.1,
{
    let lines = crate::text::split(text, '\n');
    crate::properties::law_last_line_counts(lines, lines.len() as int, key, i);
    law_plain_files_are_taken(pairs_of(file.entries@), properties_in(text), q);
}

/// No other option is one that cannot be honored, and no other, declarations
/// of profiles aside, is mapped.
pub proof fn law_other_options_are_unknown(key: Seq<char>)
    ensures
        !same_ignoring_case("TAA"@, key) && !same_ignoring_case("DOF"@, key) && !same_ignoring_case("POM"@, key) && !same_ignoring_case("POM_LAYERS"@, key) && !same_ignoring_case("POM_DISTANCE"@, key) && !same_ignoring_case("POM_SHADOWING"@, key) && !same_ignoring_case("CLOUDS_SHADOWS"@, key) && !same_ignoring_case("WATER_CAUSTICS"@, key) && !same_ignoring_case("WATER_PARALLAX"@, key) && !same_ignoring_case("SSR"@, key) && !same_ignoring_case("LENS_FLARES"@, key) && !same_ignoring_case("GLARE"@, key) && !same_ignoring_case("PALETTE"@, key) && !same_ignoring_case("LUT"@, key) && !same_ignoring_case("CEL_SHADING"@, key) && !same_ignoring_case("FILM_GRAIN"@, key) && !same_ignoring_case("LABPBR"@, key) && !same_ignoring_case("SUBSURFACE_SCATTERING"@, key) && !same_ignoring_case("DH_SHADOWS"@, key) && !same_ignoring_case("RAIN_PUDDLES"@, key) ==> !is_unsupported(key),
        !starts_with(key, "profile."@) && !same_ignoring_case("profile"@, key) && !same_ignoring_case("sun"@, key) && !same_ignoring_case("moon"@, key) && !same_ignoring_case("clouds"@, key) && !same_ignoring_case("separateAo"@, key) && !same_ignoring_case("vignette"@, key) && !same_ignoring_case("oldLighting"@, key) && !same_ignoring_case("oldHandLight"@, key) && !same_ignoring_case("underwaterOverlay"@, key) && !same_ignoring_case("dynamicHandLight"@, key) && !same_ignoring_case("SHADOWS"@, key) && !same_ignoring_case("SHADOW_SAMPLES"@, key) && !same_ignoring_case("shadowMapResolution"@, key) && !same_ignoring_case("shadowDistance"@, key) && !same_ignoring_case("AO"@, key) && !same_ignoring_case("AO_SCALE"@, key) && !same_ignoring_case("sunPathRotation"@, key) && !same_ignoring_case("ATMOSPHERE"@, key) && !same_ignoring_case("CLOUDS_LAYER0_ENABLED"@, key) && !same_ignoring_case("CLOUDS_LAYER1_ENABLED"@, key) && !same_ignoring_case("CLOUDS_LAYER0_ALTITUDE"@, key) && !same_ignoring_case("CLOUDS_LAYER0_COVERAGE"@, key) && !same_ignoring_case("CLOUDS_LAYER0_SCATTERING_STEPS"@, key) && !same_ignoring_case("WATER_OCTAVES"@, key) && !same_ignoring_case("WAVE_AMPLITUDE"@, key) && !same_ignoring_case("AIR_FOG"@, key) && !same_ignoring_case("FOG_DENSITY"@, key) && !same_ignoring_case("BLOOM"@, key) && !same_ignoring_case("BLOOM_STRENGTH"@, key) && !same_ignoring_case("VIGNETTE"@, key) && !same_ignoring_case("VIGNETTE_STRENGTH"@, key) && !same_ignoring_case("TONEMAP"@, key) && !same_ignoring_case("F_STOPS"@, key) && !same_ignoring_case("ISO"@, key) && !same_ignoring_case("SHUTTER_SPEED"@, key) && !same_ignoring_case("EXPOSURE"@, key) && !same_ignoring_case("RENDER_SCALE_OPTION"@, key) && !same_ignoring_case("ATMOSPHERE_SCALE"@, key) && !same_ignoring_case("ATMOSPHERE_SCATTERING_STEPS"@, key) && !same_ignoring_case("ATMOSPHERE_TRANSMITTANCE_STEPS"@, key) && !same_ignoring_case("CLOUDS_SCALE"@, key) && !same_ignoring_case("REFLECTIONS"@, key) && !same_ignoring_case("REFLECTIONS_SCALE"@, key) && !same_ignoring_case("REFLECTIONS_STRIDE"@, key) && !same_ignoring_case("REFRACTIONS"@, key) ==> !is_recognized_spec(key),
{
    let u = unsupported_names();
    let v = recognized_names();
    lemma_same_name(u, key);
    lemma_same_name(v, key);
    let i = same_name_at(u, key);
    let j = same_name_at(v, key);
    assert(u.len() == 20 && v.len() == 45);
    assert(i == 0 ==> u[i] == "TAA"@);
    assert(i == 1 ==> u[i] == "DOF"@);
    assert(i == 2 ==> u[i] == "POM"@);
    assert(i == 3 ==> u[i] == "POM_LAYERS"@);
    assert(i == 4 ==> u[i] == "POM_DISTANCE"@);
    assert(i == 5 ==> u[i] == "POM_SHADOWING"@);
    assert(i == 6 ==> u[i] == "CLOUDS_SHADOWS"@);
    assert(i == 7 ==> u[i] == "WATER_CAUSTICS"@);
    assert(i == 8 ==> u[i] == "WATER_PARALLAX"@);
    assert(i == 9 ==> u[i] == "SSR"@);
    assert(i == 10 ==> u[i] == "LENS_FLARES"@);
    assert(i == 11 ==> u[i] == "GLARE"@);
    assert(i == 12 ==> u[i] == "PALETTE"@);
    assert(i == 13 ==> u[i] == "LUT"@);
    assert(i == 14 ==> u[i] == "CEL_SHADING"@);
    assert(i == 15 ==> u[i] == "FILM_GRAIN"@);
    assert(i == 16 ==> u[i] == "LABPBR"@);
    assert(i == 17 ==> u[i] == "SUBSURFACE_SCATTERING"@);
    assert(i == 18 ==> u[i] == "DH_SHADOWS"@);
    assert(i == 19 ==> u[i] == "RAIN_PUDDLES"@);
    assert(j == 0 ==> v[j] == "profile"@);
    assert(j == 1 ==> v[j] == "sun"@);
    assert(j == 2 ==> v[j] == "moon"@);
    assert(j == 3 ==> v[j] == "clouds"@);
    assert(j == 4 ==> v[j] == "separateAo"@);
    assert(j == 5 ==> v[j] == "vignette"@);
    assert(j == 6 ==> v[j] == "oldLighting"@);
    assert(j == 7 ==> v[j] == "oldHandLight"@);
    assert(j == 8 ==> v[j] == "underwaterOverlay"@);
    assert(j == 9 ==> v[j] == "dynamicHandLight"@);
    assert(j == 10 ==> v[j] == "SHADOWS"@);
    assert(j == 11 ==> v[j] == "SHADOW_SAMPLES"@);
    assert(j == 12 ==> v[j] == "shadowMapResolution"@);
    assert(j == 13 ==> v[j] == "shadowDistance"@);
    assert(j == 14 ==> v[j] == "AO"@);
    assert(j == 15 ==> v[j] == "AO_SCALE"@);
    assert(j == 16 ==> v[j] == "sunPathRotation"@);
    assert(j == 17 ==> v[j] == "ATMOSPHERE"@);
    assert(j == 18 ==> v[j] == "CLOUDS_LAYER0_ENABLED"@);
    assert(j == 19 ==> v[j] == "CLOUDS_LAYER1_ENABLED"@);
    assert(j == 20 ==> v[j] == "CLOUDS_LAYER0_ALTITUDE"@);
    assert(j == 21 ==> v[j] == "CLOUDS_LAYER0_COVERAGE"@);
    assert(j == 22 ==> v[j] == "CLOUDS_LAYER0_SCATTERING_STEPS"@);
    assert(j == 23 ==> v[j] == "WATER_OCTAVES"@);
    assert(j == 24 ==> v[j] == "WAVE_AMPLITUDE"@);
    assert(j == 25 ==> v[j] == "AIR_FOG"@);
    assert(j == 26 ==> v[j] == "FOG_DENSITY"@);
    assert(j == 27 ==> v[j] == "BLOOM"@);
    assert(j == 28 ==> v[j] == "BLOOM_STRENGTH"@);
    assert(j == 29 ==> v[j] == "VIGNETTE"@);
    assert(j == 30 ==> v[j] == "VIGNETTE_STRENGTH"@);
    assert(j == 31 ==> v[j] == "TONEMAP"@);
    assert(j == 32 ==> v[j] == "F_STOPS"@);
    assert(j == 33 ==> v[j] == "ISO"@);
    assert(j == 34 ==> v[j] == "SHUTTER_SPEED"@);
    assert(j == 35 ==> v[j] == "EXPOSURE"@);
    assert(j == 36 ==> v[j] == "RENDER_SCALE_OPTION"@);
    assert(j == 37 ==> v[j] == "ATMOSPHERE_SCALE"@);
    assert(j == 38 ==> v[j] == "ATMOSPHERE_SCATTERING_STEPS"@);
    assert(j == 39 ==> v[j] == "ATMOSPHERE_TRANSMITTANCE_STEPS"@);
    assert(j == 40 ==> v[j] == "CLOUDS_SCALE"@);
    assert(j == 41 ==> v[j] == "REFLECTIONS"@);
    assert(j == 42 ==> v[j] == "REFLECTIONS_SCALE"@);
    assert(j == 43 ==> v[j] == "REFLECTIONS_STRIDE"@);
    assert(j == 44 ==> v[j] == "REFRACTIONS"@);
}

} // verus!
