//! Shader packs: recognition, records, options and effect presets.

use feathered::effects::{
    render_quality, ExposureConfig, RenderQuality, ShaderEffectConfig, Tonemap,
};
use feathered::library::{folder_record_name, is_stale};
use feathered::managers::{Removal, ShaderPackManager};
use feathered::resource::{entry_target, top_level_dir, ArchiveEntry, EntryTarget};
use feathered::scalar::F32;
use feathered::settings::{PackSettings, Quality};
use feathered::shader::{
    active, components_contain, detect_layout, detect_profile, find_shaders_dir, import_folder,
    list_shaders, parse_properties_text, validate_entries, zip_pack, ShaderEntry, ShaderLayout,
    ShaderPack,
};
use feathered::translate::{
    is_recognized, number_texts, read_options, translate_options, translate_shader_config,
    PackNumbers,
};
use std::io::{Cursor, Read, Write};

fn optifine_files(with_props: bool) -> Vec<String> {
    let mut v = vec!["terrain.vsh".to_string(), "terrain.fsh".into(), "composite.fsh".into()];
    if with_props {
        v.push("shaders.properties".into());
    }
    v
}

const CLAIMS: &str = "profile.requires=OptiFine\nprofile.requires.Iris=1.6\n";

fn import(dir: &str, files: Option<&[String]>, text: Option<&str>) -> Result<ShaderPack, String> {
    let name = dir.rsplit('/').next().unwrap();
    import_folder(
        dir,
        true,
        detect_profile(files),
        dir,
        Some(name),
        name,
        text,
        text.unwrap_or("").as_bytes(),
    )
}

fn make_zip(add: &[(&str, &[u8])]) -> Vec<u8> {
    let mut zip = zip::ZipWriter::new(Cursor::new(Vec::new()));
    let opts: zip::write::SimpleFileOptions = Default::default();
    for (name, bytes) in add {
        zip.start_file(*name, opts).unwrap();
        zip.write_all(bytes).unwrap();
    }
    zip.finish().unwrap().into_inner()
}

/// Installs an archive; gives the pack and the paths it was unpacked to.
fn import_zip(file_name: &str, bytes: &[u8]) -> Result<(ShaderPack, Vec<String>), String> {
    let mut archive = zip::ZipArchive::new(Cursor::new(bytes)).unwrap();
    let mut entries = Vec::new();
    let mut plain = Vec::new();
    for i in 0..archive.len() {
        let mut entry = archive.by_index(i).unwrap();
        let name = entry.name().to_string();
        let is_dir = entry.is_dir();
        let mut text = String::new();
        entry.read_to_string(&mut text).ok();
        plain.push(ArchiveEntry { name: name.clone(), is_dir });
        entries.push(ShaderEntry { name, is_dir, text });
    }
    let v = validate_entries(&entries)?;
    if let Some(fatal) = v.fatal {
        return Err(fatal);
    }
    let top = top_level_dir(&plain);
    let mut written = Vec::new();
    for i in 0..archive.len() {
        let entry = archive.by_index(i).unwrap();
        let enclosed = entry.enclosed_name().map(|p| p.to_str().unwrap().to_string());
        match entry_target(top.as_deref(), enclosed.as_deref()) {
            EntryTarget::Write(p) => written.push(p),
            EntryTarget::Skip => {}
            EntryTarget::Unsafe => return Err("unsafe".into()),
        }
    }
    let names: Vec<String> =
        written.iter().filter_map(|p| p.strip_prefix("shaders/").map(|s| s.to_string())).collect();
    let layout = detect_profile(Some(&names));
    let pack =
        zip_pack(Some(file_name), file_name, "data/shaders/x", "x", b"", layout, v.engines);
    Ok((pack, written))
}

#[test]
fn import_folder_detects_optifine_layout_and_engine_claims() {
    let pack =
        import("/s/NobleStyleSHADERS", Some(&optifine_files(true)), Some(CLAIMS)).unwrap();
    assert_eq!(pack.profile, ShaderLayout::OptifineStyle);
    assert_eq!(pack.engines.len(), 2, "both engine claims parsed");
    assert!(pack
        .engines
        .iter()
        .any(|e| e.engine == "Iris" && e.min_version.as_deref() == Some("1.6")));
    // The summary must not claim the pack is licensed in some way.
    let summary = pack.license_summary(pack.license_file(&[]).as_deref());
    assert!(summary.contains("Third-party"), "summary: {summary}");
    assert!(!summary.to_lowercase().contains("gpl"), "must not guess a license");
    assert_eq!(pack.description.as_deref(), Some("targets OptiFine (from shaders.properties)"));
}

#[test]
fn import_rejects_folder_without_shaders_dir() {
    assert_eq!(
        import("/s/notshader", None, None).unwrap_err(),
        "/s/notshader: no shaders/ directory found (not a shader pack)"
    );
    assert_eq!(
        import_folder("/s/x", false, None, "/s/x", None, "x", None, b"").unwrap_err(),
        "not a directory: /s/x"
    );
}

#[test]
fn import_zip_extracts_wrapped_shaders_dir() {
    let bytes = make_zip(&[
        ("FancyShaders/shaders/terrain.vsh", b"void main(){}".as_slice()),
        ("FancyShaders/shaders/terrain.fsh", b"void main(){}".as_slice()),
    ]);
    let (pack, written) = import_zip("FancyShaders.zip", &bytes).unwrap();
    assert_eq!(pack.profile, ShaderLayout::OptifineStyle);
    assert_eq!(pack.name, "FancyShaders");
    assert!(written.iter().any(|p| p == "shaders/terrain.fsh"));
    assert_eq!(list_shaders(vec![(pack, true)]).len(), 1);
}

#[test]
fn import_zip_rejects_archive_without_shaders_dir() {
    let bytes = make_zip(&[("docs/readme.txt", b"hi")]);
    assert!(import_zip("Random.zip", &bytes).is_err());
}

#[test]
fn license_file_is_preserved_not_relicensed() {
    let pack = import("/s/LicensedPack", Some(&optifine_files(false)), None).unwrap();
    let files = vec!["shaders".to_string(), "COPYING".into(), "LICENSE".into()];
    let lic = pack.license_file(&files).expect("license file found");
    assert_eq!(lic, "LICENSE");
    assert!(pack.license_summary(Some(&lic)).contains("LICENSE"), "summary points at the file");
}

#[test]
fn enable_disable_persists_and_uninstall_clears_active() {
    let pack = import("/s/Pack A", Some(&optifine_files(false)), None).unwrap();
    let id = pack.id.clone();
    let packs = list_shaders(vec![(pack, true)]);
    let mut settings = PackSettings::default();

    assert!(active(&packs, settings.active_shader.as_deref()).is_none());
    assert!(settings.enable(&id).is_none());
    assert_eq!(active(&packs, settings.active_shader.as_deref()), Some(0));

    assert_eq!(settings.disable().as_deref(), Some(id.as_str()));
    assert!(active(&packs, settings.active_shader.as_deref()).is_none());

    // Re-enable then uninstall: the active id must be cleared.
    settings.enable(&id);
    let mgr = ShaderPackManager::open_at("data");
    match mgr.uninstall(&packs[0]) {
        Removal::Record(p) => assert_eq!(p, format!("data/shaders/{id}.folder.json")),
        Removal::Directory(_) => panic!("a folder stays"),
    }
    assert!(settings.forget_shader(&id));
    assert!(active(&packs, settings.active_shader.as_deref()).is_none());
    assert!(!settings.forget_shader(&id));
}

#[test]
fn glsl_passes_layout_detected() {
    let files = vec!["common.glsl".to_string(), "main.gsh".into()];
    let pack = import("/s/GlslPack", Some(&files), None).unwrap();
    assert_eq!(pack.profile, ShaderLayout::GlslPasses);
}

#[test]
fn prune_missing_removes_gone_folder_packs() {
    let pack = import("/s/Vanishing", Some(&optifine_files(false)), None).unwrap();
    let record = folder_record_name(&pack.id);
    assert_eq!(list_shaders(vec![(pack, true)]).len(), 1);
    let pack = import("/s/Vanishing", Some(&optifine_files(false)), None).unwrap();
    assert!(list_shaders(vec![(pack, false)]).is_empty());
    assert!(is_stale(&record, false));
}

#[test]
fn zip_slip_entries_are_rejected() {
    let bytes = make_zip(&[
        ("shaders/terrain.fsh", b"x".as_slice()),
        ("../evil.cfg", b"gotcha".as_slice()),
    ]);
    assert_eq!(import_zip("Evil.zip", &bytes).unwrap_err(), "unsafe archive entry: ../evil.cfg");
}

/// The numbers of options, as the program around the library reads them.
fn numbers(text: &str, q: RenderQuality) -> PackNumbers {
    let texts = number_texts(&read_options(text, q));
    let scaled = |text: Option<String>, by: fn(f32) -> f32| {
        text.and_then(|s| s.parse::<f32>().ok()).map(|v| F32 { bits: by(v).to_bits() })
    };
    let plain = |text: Option<String>| scaled(text, |v| v);
    PackNumbers {
        shadow_distance: plain(texts.shadow_distance),
        ao_scale: scaled(texts.ao_scale, |v| v / 100.0),
        sun_path_rotation: plain(texts.sun_path_rotation),
        cloud_altitude: plain(texts.cloud_altitude),
        cloud_coverage: plain(texts.cloud_coverage),
        wave_amplitude: plain(texts.wave_amplitude),
        fog_density: scaled(texts.fog_density, |v| v * 0.01),
        bloom_strength: plain(texts.bloom_strength),
        vignette_strength: plain(texts.vignette_strength),
        f_stops: plain(texts.f_stops),
        shutter_speed: plain(texts.shutter_speed),
        iso: plain(texts.iso),
    }
}

fn translate(text: &str, q: RenderQuality) -> feathered::translate::ShaderPackConfig {
    translate_shader_config(text, q, &numbers(text, q))
}

fn value(x: F32) -> f32 {
    f32::from_bits(x.bits)
}

#[test]
fn noble_profile_line_expands() {
    let out = translate(
        "profile.POTATO = SHADOWS=3 shadowMapResolution=1024 AO=0 BLOOM=0\n\
         profile.ULTRA = SHADOWS=1 shadowMapResolution=4096 AO=1 AO_SCALE=100 BLOOM=1\n\
         profile=ULTRA\n",
        RenderQuality::Medium,
    );
    let c = out.config;
    assert_eq!(c.shadows.as_ref().unwrap().resolution, 4096);
    assert!(c.ssao.is_some());
    assert_eq!(value(c.ssao.unwrap().strength), 1.0);
    assert!(c.post.unwrap().bloom);
}

#[test]
fn untranslatable_options_are_reported() {
    let out = translate(
        "SHADOWS=1\nPOM=1\nPOM_LAYERS=64\nTAA=1\nmysteryOption=42\n",
        RenderQuality::High,
    );
    let names: Vec<&str> = out.unsupported.iter().map(|(k, _)| k.as_str()).collect();
    assert!(names.contains(&"POM"));
    assert!(names.contains(&"TAA"));
    assert_eq!(names, ["POM", "POM_LAYERS", "TAA"]);
    assert!(out.unknown.iter().any(|(k, _)| k == "mysteryOption"));
}

#[test]
fn disabled_effects_disable_stages() {
    let out = translate("SHADOWS=0\nAO=0\nAIR_FOG=0\n", RenderQuality::Ultra);
    assert!(out.config.shadows.is_none());
    assert!(out.config.ssao.is_none());
    assert!(out.config.fog.is_none());
}

#[test]
fn number_options_are_picked_by_name() {
    let keys = [
        "shadowDistance",
        "AO_SCALE",
        "sunPathRotation",
        "CLOUDS_LAYER0_ALTITUDE",
        "CLOUDS_LAYER0_COVERAGE",
        "WAVE_AMPLITUDE",
        "FOG_DENSITY",
        "BLOOM_STRENGTH",
        "VIGNETTE_STRENGTH",
        "F_STOPS",
        "SHUTTER_SPEED",
        "ISO",
    ];
    let all: String = keys.iter().enumerate().map(|(i, k)| format!("{k}={i}\n")).collect();
    let t = number_texts(&read_options(&all, RenderQuality::Low));
    let got = [
        t.shadow_distance,
        t.ao_scale,
        t.sun_path_rotation,
        t.cloud_altitude,
        t.cloud_coverage,
        t.wave_amplitude,
        t.fog_density,
        t.bloom_strength,
        t.vignette_strength,
        t.f_stops,
        t.shutter_speed,
        t.iso,
    ];
    for (i, text) in got.iter().enumerate() {
        assert_eq!(text.as_deref(), Some(i.to_string().as_str()), "{}", keys[i]);
    }
    // A text need not be a number, and a profile sets options too.
    let text = "ISO=fast\nprofile=A\nprofile.A=F_STOPS=4 ISO=1e2\n";
    let t = number_texts(&read_options(text, RenderQuality::Low));
    assert_eq!((t.iso.as_deref(), t.f_stops.as_deref()), (Some("1e2"), Some("4")));
    assert!(t.shutter_speed.is_none() && t.ao_scale.is_none());
}

#[test]
fn unset_knobs_keep_the_preset() {
    let high = ShaderEffectConfig::for_quality(RenderQuality::High);
    let out = translate("SHADOWS=1\n", RenderQuality::High).config;
    assert_eq!(out, high);
    let s = out.shadows.unwrap();
    assert_eq!((s.resolution, s.samples), (1024, 4));
    assert_eq!((value(s.distance), value(s.strength)), (96.0, 0.9));
    let out = translate("SHADOWS=1\nSHADOW_SAMPLES=2\n", RenderQuality::Ultra).config;
    let s = out.shadows.unwrap();
    assert_eq!((s.resolution, value(s.distance), s.samples), (2048, 160.0, 2));
    // The mode sets the slices alone.
    let out = translate("AO=6\n", RenderQuality::Ultra).config.ssao.unwrap();
    assert_eq!((out.slices, value(out.radius), value(out.strength)), (3, 4.0, 0.85));
    let out = translate("ATMOSPHERE=1\n", RenderQuality::High).config;
    assert_eq!(out, high);
    // A stage that the preset lacks has values of its own.
    let out = translate("SHADOWS=1\nAO=2\n", RenderQuality::Low).config;
    let s = out.shadows.unwrap();
    assert_eq!((s.resolution, value(s.distance), s.samples), (2048, 128.0, 4));
    assert_eq!(value(s.strength), 0.9);
    let a = out.ssao.unwrap();
    assert_eq!((a.slices, value(a.radius), value(a.strength)), (1, 3.0, 0.5));
}

/// The aperture, the shutter speed and the sensitivity of an exposure.
fn camera_of(e: ExposureConfig) -> (f32, f32, f32) {
    (value(e.f_stops), value(e.shutter_speed), value(e.iso))
}

#[test]
fn exposure_translation_matches_noble_semantics() {
    let out = translate(
        "EXPOSURE=0\nF_STOPS=8\nSHUTTER_SPEED=125\nISO=200\n",
        RenderQuality::Medium,
    );
    assert_eq!(camera_of(out.config.exposure.unwrap()), (8.0, 125.0, 200.0));
}

#[test]
fn exposure_matches_noble_fixed_mode() {
    let e = ShaderEffectConfig::for_quality(RenderQuality::High).exposure.unwrap();
    assert_eq!(camera_of(e), (8.0, 125.0, 200.0));
}

#[test]
fn exposure_ev100_formula_matches_noble_fixed_mode() {
    let cfg = ShaderEffectConfig::for_quality(RenderQuality::High);
    let e = cfg.exposure.expect("High preset carries exposure");
    let (n, t, iso) = camera_of(e);
    assert_eq!((n, t, iso), (8.0, 125.0, 200.0));
    // Two to the minus EV100 of these settings.
    let scale = 2.0f32.powf(-((n * n) * t * (100.0 / iso)).log2());
    assert!((scale - 0.00025).abs() < 1e-6);
}

#[test]
fn quality_ladder_is_monotonic() {
    for q in [
        RenderQuality::Low,
        RenderQuality::Medium,
        RenderQuality::High,
        RenderQuality::Ultra,
    ] {
        let c = ShaderEffectConfig::for_quality(q);
        match q {
            RenderQuality::Low => {
                assert!(c.shadows.is_none() && c.atmosphere.is_none() && c.post.is_none());
            }
            RenderQuality::Medium => {
                assert!(c.water.is_some() && c.post.is_none() && c.shadows.is_none());
            }
            RenderQuality::High => {
                assert!(c.shadows.is_some() && c.atmosphere.is_some() && c.post.is_some());
                assert_eq!(c.shadows.unwrap().resolution, 1024);
            }
            RenderQuality::Ultra => {
                assert_eq!(c.shadows.unwrap().resolution, 2048);
                assert_eq!(c.shadows.unwrap().samples, 8);
                assert!(c.clouds.unwrap().steps > c.shadows.unwrap().samples);
            }
        }
    }
}

#[test]
fn quality_ladder_scales_every_stage_monotonically() {
    let mut prev_shadow_res = 0;
    let mut prev_cloud_steps = 0;
    for (i, q) in
        [RenderQuality::Low, RenderQuality::Medium, RenderQuality::High, RenderQuality::Ultra]
            .into_iter()
            .enumerate()
    {
        let cfg = ShaderEffectConfig::for_quality(q);
        match i {
            0 => {
                assert!(
                    cfg.shadows.is_none()
                        && cfg.ssao.is_none()
                        && cfg.atmosphere.is_none()
                        && cfg.clouds.is_none()
                        && cfg.post.is_none()
                );
            }
            1 => {
                assert!(cfg.shadows.is_none() && cfg.water.is_some());
            }
            _ => {
                let sh = cfg.shadows.expect("High/Ultra shadow config");
                assert!(sh.resolution > prev_shadow_res, "shadow res must grow");
                let cl = cfg.clouds.expect("High/Ultra clouds config");
                assert!(cl.steps >= prev_cloud_steps);
                prev_shadow_res = sh.resolution;
                prev_cloud_steps = cl.steps;
            }
        }
    }
}

#[test]
fn effect_config_flags_round_trip() {
    let base = ShaderEffectConfig::for_quality(RenderQuality::High);
    assert!(base.uses_staged_pipeline());
    let mut no_shadows = base.clone();
    no_shadows.shadows = None;
    assert!(no_shadows.uses_staged_pipeline(), "AO+atmo still stage");
    let mut nothing = base.clone();
    nothing.shadows = None;
    nothing.ssao = None;
    nothing.post = None;
    assert!(!nothing.uses_staged_pipeline());
}

#[test]
fn gerstner_water_has_zero_slope_at_peaks_and_valleys() {
    // The derivative of sin(x)*0.5+0.5 raised to a power vanishes at the wave
    // extremes.
    let steepness = 2.2f32;
    let u = 1.0f32;
    let slope = steepness * u.powf(steepness - 1.0) * 0.0;
    assert!(slope.abs() < 1e-6);
}

#[test]
fn preset_numbers_are_exact() {
    let m = ShaderEffectConfig::for_quality(RenderQuality::Medium);
    let w = m.water.unwrap();
    assert_eq!(w.octaves, 2);
    assert_eq!(value(w.amplitude), 0.35);
    assert_eq!(value(w.speed), 1.0);
    assert_eq!(
        [value(w.absorption.r), value(w.absorption.g), value(w.absorption.b)],
        [0.45, 0.08, 0.03]
    );
    assert_eq!(value(w.reflection_strength), 0.35);
    assert_eq!(value(m.sun_angle), 0.18);
    assert_eq!(value(m.sun_path_rotation_deg), -35.0);

    let h = ShaderEffectConfig::for_quality(RenderQuality::High);
    let s = h.shadows.unwrap();
    assert_eq!((s.resolution, value(s.distance), s.samples, value(s.strength)), (1024, 96.0, 4, 0.9));
    let a = h.ssao.unwrap();
    assert_eq!((a.slices, value(a.radius), value(a.strength)), (2, 3.0, 0.7));
    let sky = h.atmosphere.unwrap();
    assert_eq!(
        [value(sky.rayleigh.r), value(sky.rayleigh.g), value(sky.rayleigh.b)],
        [5.8e-6, 13.5e-6, 33.1e-6]
    );
    assert_eq!(value(sky.mie), 21e-6);
    assert_eq!(value(sky.mie_g), 0.76);
    assert_eq!(value(sky.scale_height), 8_500.0);
    assert_eq!(value(sky.top_radius), 6_471e3);
    assert_eq!(value(sky.ground_radius), 6_371e3);
    assert_eq!(value(sky.sun_illuminance), 40.0);
    let c = h.clouds.unwrap();
    assert_eq!(
        [value(c.altitude), value(c.thickness), value(c.coverage), value(c.density), value(c.wind_speed)],
        [160.0, 60.0, 0.5, 0.7, 3.0]
    );
    assert_eq!(c.steps, 24);
    let w = h.water.unwrap();
    assert_eq!((w.octaves, value(w.amplitude), value(w.reflection_strength)), (4, 0.5, 0.6));
    let f = h.fog.unwrap();
    assert_eq!(value(f.density), 0.0015);
    assert_eq!([value(f.tint.r), value(f.tint.g), value(f.tint.b)], [0.9, 0.95, 1.0]);
    let p = h.post.unwrap();
    assert!(p.bloom);
    assert_eq!(p.tonemap, Tonemap::Aces);
    assert_eq!(
        [value(p.bloom_threshold), value(p.bloom_intensity), value(p.vignette)],
        [1.0, 0.5, 0.2]
    );
    let e = h.exposure.unwrap();
    assert_eq!([value(e.f_stops), value(e.shutter_speed), value(e.iso)], [8.0, 125.0, 200.0]);

    let u = ShaderEffectConfig::for_quality(RenderQuality::Ultra);
    let s = u.shadows.unwrap();
    assert_eq!((value(s.distance), value(s.strength)), (160.0, 1.0));
    let a = u.ssao.unwrap();
    assert_eq!((a.slices, value(a.radius), value(a.strength)), (4, 4.0, 0.85));
    let c = u.clouds.unwrap();
    assert_eq!((value(c.thickness), value(c.density), c.steps), (80.0, 0.75, 40));
    let w = u.water.unwrap();
    assert_eq!((w.octaves, value(w.amplitude), value(w.reflection_strength)), (6, 0.6, 0.75));
    assert_eq!(value(u.fog.unwrap().density), 0.0025);
    let p = u.post.unwrap();
    assert_eq!(
        [value(p.bloom_threshold), value(p.bloom_intensity), value(p.vignette)],
        [0.85, 0.7, 0.25]
    );
}

#[test]
fn profile_goes_with_quality() {
    let text = "profile.POTATO=AO=0\nprofile.LIGHT=AO=2\nprofile.HIGH=AO=4\nprofile.ultra=AO=8\n";
    let slices = |q: RenderQuality| translate(text, q).config.ssao.map(|a| a.slices);
    assert_eq!(slices(RenderQuality::Low), None);
    assert_eq!(slices(RenderQuality::Medium), Some(1));
    assert_eq!(slices(RenderQuality::High), Some(2));
    // The key is found letter case aside, and its own name selects the line.
    assert_eq!(slices(RenderQuality::Ultra), Some(4));
    // Without a match the first declared profile applies, in lexical order.
    let other = "profile.ZETA=AO=8\nprofile.BETA=AO=6\n";
    assert_eq!(translate(other, RenderQuality::High).config.ssao.unwrap().slices, 3);
}

#[test]
fn options_are_limited() {
    let out = translate(
        "SHADOWS=true\nshadowMapResolution=99999\nshadowDistance=4\nSHADOW_SAMPLES=0\n\
         AO=99\nAO_SCALE=1\nsunPathRotation=-90\nF_STOPS=0.1\nSHUTTER_SPEED=1e9\nISO=1\n\
         WATER_OCTAVES=20\nWAVE_AMPLITUDE=9\nAIR_FOG=1\nFOG_DENSITY=100\nBLOOM_STRENGTH=7\n\
         VIGNETTE=1\nCLOUDS_LAYER0_ENABLED=on\nCLOUDS_LAYER0_ALTITUDE=1\n\
         CLOUDS_LAYER0_COVERAGE=3\nCLOUDS_LAYER0_SCATTERING_STEPS=1\nTONEMAP=Reinhard\n",
        RenderQuality::High,
    )
    .config;
    let s = out.shadows.unwrap();
    assert_eq!((s.resolution, value(s.distance), s.samples, value(s.strength)), (8192, 16.0, 1, 0.9));
    let a = out.ssao.unwrap();
    assert_eq!((a.slices, value(a.strength)), (8, 0.15));
    assert_eq!(value(out.sun_path_rotation_deg), -60.0);
    let e = out.exposure.unwrap();
    assert_eq!([value(e.f_stops), value(e.shutter_speed), value(e.iso)], [1.0, 8000.0, 50.0]);
    let w = out.water.unwrap();
    assert_eq!((w.octaves, value(w.amplitude)), (8, 2.0));
    assert_eq!(value(out.fog.unwrap().density), 0.05);
    let p = out.post.unwrap();
    assert_eq!((value(p.bloom_intensity), value(p.vignette)), (2.0, 0.2));
    assert_eq!(p.tonemap, Tonemap::Reinhard);
    let c = out.clouds.unwrap();
    assert_eq!((value(c.altitude), value(c.coverage), c.steps), (40.0, 1.0, 4));
}

#[test]
fn post_options_bring_the_stage() {
    let p = translate("BLOOM=1\nTONEMAP=0\n", RenderQuality::Low).config.post.unwrap();
    assert!(p.bloom);
    assert_eq!(p.tonemap, Tonemap::Off);
    assert_eq!([value(p.bloom_threshold), value(p.bloom_intensity), value(p.vignette)], [1.0, 0.5, 0.0]);
    assert!(translate("AO=1\n", RenderQuality::Low).config.post.is_none());
    // Fog without a base gets a light haze.
    let f = translate("AIR_FOG=enabled\n", RenderQuality::Low).config.fog.unwrap();
    assert_eq!(value(f.density), 0.002);
}

#[test]
fn silent_packs_keep_the_preset() {
    for q in [RenderQuality::Low, RenderQuality::Medium, RenderQuality::High, RenderQuality::Ultra] {
        let out = translate("# nothing\n\nno equals sign\n", q);
        assert_eq!(out.config, ShaderEffectConfig::for_quality(q));
        assert!(out.unknown.is_empty() && out.unsupported.is_empty());
    }
}

#[test]
fn every_option_is_reported_once() {
    let options = read_options("taa=1\nTAA=0\nzeta=1\nAO=1\nalpha=2\n", RenderQuality::High);
    let out = translate_options(
        &options,
        RenderQuality::High,
        &numbers("taa=1\nTAA=0\nzeta=1\nAO=1\nalpha=2\n", RenderQuality::High),
    );
    let pair = |a: &str, b: &str| (a.to_string(), b.to_string());
    assert_eq!(out.unsupported, vec![pair("TAA", "0"), pair("TAA", "1")]);
    assert_eq!(out.unknown, vec![pair("alpha", "2"), pair("zeta", "1")]);
    assert!(is_recognized("ao_scale"));
    assert!(is_recognized("profile.X"));
    assert!(!is_recognized("mystery"));
}

#[test]
fn engine_claims_word_for_word() {
    let v = parse_properties_text(
        "# c\nrequires = Iris\niris.features.required = SSBO COMPUTE_SHADERS\nother=1\n\
         profile.requires.profile.requires.X=2\r\n",
    );
    let got: Vec<(String, Option<String>)> =
        v.into_iter().map(|e| (e.engine, e.min_version)).collect();
    assert_eq!(
        got,
        vec![
            ("Iris".to_string(), None),
            ("iris.features.required".to_string(), Some("SSBO COMPUTE_SHADERS".to_string())),
            ("X".to_string(), Some("2".to_string())),
        ]
    );
}

#[test]
fn shader_archives_are_judged() {
    let e = |name: &str, text: &str| ShaderEntry {
        name: name.into(),
        is_dir: false,
        text: text.into(),
    };
    let v = validate_entries(&[e("P/Shaders/a.FSH", ""), e("P/shaders/shaders.properties", CLAIMS)])
        .unwrap();
    assert!(v.fatal.is_none() && v.warnings.is_empty());
    assert_eq!(v.engines.len(), 2);
    let v = validate_entries(&[e("shaders/readme", "")]).unwrap();
    assert_eq!(v.warnings, ["shaders/ exists but contains no recognizable shader files"]);
    let v = validate_entries(&[e("docs/a.fsh", "")]).unwrap();
    assert_eq!(v.fatal.as_deref(), Some("no shaders/ directory in archive"));
    assert!(validate_entries(&[e("/shaders/a.fsh", "")]).is_err());
    assert!(components_contain("MyShaders/x", "shaders"));
    assert!(components_contain("a\\SHADERS\\x", "shaders"));
    assert!(!components_contain("shadersx/y", "shaders"));
}

#[test]
fn layouts_by_names() {
    let v = |n: &[&str]| n.iter().map(|s| s.to_string()).collect::<Vec<String>>();
    assert_eq!(detect_profile(None), None);
    assert_eq!(detect_profile(Some(&v(&["x.txt"]))), Some(ShaderLayout::Unknown));
    assert_eq!(
        detect_profile(Some(&v(&["A.FSH", "b.glsl"]))),
        Some(ShaderLayout::OptifineStyle)
    );
    assert_eq!(
        detect_profile(Some(&v(&["a.fsh", "b.glsl", "c.gsh"]))),
        Some(ShaderLayout::GlslPasses)
    );
    assert_eq!(detect_layout(&v(&["b.glsl", "c.gsh", "a.vsh"])), ShaderLayout::OptifineStyle);
    assert_eq!(detect_layout(&v(&["b.glsl"])), ShaderLayout::GlslPasses);
    assert_eq!(detect_layout(&v(&["b.GLSL"])), ShaderLayout::Unknown);
    let kids = vec![("a".to_string(), false), ("b".to_string(), true)];
    assert_eq!(find_shaders_dir(true, &kids).as_deref(), Some("shaders"));
    assert_eq!(find_shaders_dir(false, &kids).as_deref(), Some("b/shaders"));
    assert_eq!(find_shaders_dir(false, &kids[..1]), None);
}

#[test]
fn license_lines() {
    let mut pack = import("/s/L", Some(&optifine_files(false)), None).unwrap();
    assert_eq!(
        pack.license_summary(None),
        "Third-party shader pack — its own license applies (no license file found; check the \
         pack's distribution page)"
    );
    assert_eq!(
        pack.license_summary(Some("COPYING")),
        "Third-party shader pack — its own license applies (see COPYING)"
    );
    pack.source.license_note = Some("as the author says".into());
    assert_eq!(pack.license_summary(Some("COPYING")), "as the author says");
}

#[test]
fn presets_of_user_and_engine_agree() {
    for q in [Quality::Low, Quality::Medium, Quality::High, Quality::Ultra] {
        assert_eq!(render_quality(q.next()), render_quality(q).next());
        assert_eq!(render_quality(q).render_scale(), q.render_scale());
        assert_eq!(render_quality(q).post_process(), q.post_process());
    }
}
