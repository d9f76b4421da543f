//! Texts, paths, files, command lines, frames and pixels.

use feathered::ascii::{lowercase, parse_number, str_same_ignoring_case};
use feathered::atlas::{build, downsample_cutout, AnimTable};
use feathered::blockstates::compile_when;
use feathered::cache::{content_digest, decode, encode};
use feathered::chunk::pos_hash;
use feathered::cli::{
    arg_flag, arg_value, cache_path, command, expand_tilde, find_pack, menu_choice, packs_action,
    parse_quality, resolve_pack_dir, run_options, shaders_action, Command, MenuChoice, PacksAction,
    ShadersAction,
};
use feathered::effects::{RenderQuality, ShaderEffectConfig};
use feathered::hash::{hex_string, sha256};
use feathered::json::{parse_json, Json};
use feathered::meta::{
    parse_mcmeta, AnimationRaw, McmetaDoc, MipStrategy, TextureMeta, TextureSection,
};
use feathered::models::{
    compile, normalize_ref, rotate_direction, Direction, SpriteInterner,
};
use feathered::models_raw::{RawModel, RawModels};
use feathered::order::{order_descending, order_pairs, sort_by_key};
use feathered::paths::{extension_of, join_path, stem_of};
use feathered::properties::parse_properties;
use feathered::render::{
    frame_dims, frame_path, padded_row, post_params, scene_size, shadow_resolution, stage_values,
    staged_change, unpad_rows, FramePath, StagedChange, ATMOSPHERE, FOG, SHADOWS, SSAO, WATER,
};
use feathered::scalar::F32;
use feathered::settings::Quality;
use feathered::sprites::{
    finalize_animation, frame_count_for_test, resolve_sprite, sprite_name, SpriteStore,
};
use feathered::text::{decimal_string, str_contains, str_strip_prefix};
use feathered::texture::{decode_png, DecodedTexture};

fn args(v: &[&str]) -> Vec<String> {
    v.iter().map(|s| s.to_string()).collect()
}

fn value(x: F32) -> f32 {
    f32::from_bits(x.bits)
}

#[test]
fn hashes_are_sha256() {
    assert_eq!(
        hex_string(&sha256(b"abc"), 32),
        "ba7816bf8f01cfea414140de5dae2223b00361a396177a9cb410ff61f20015ad"
    );
    assert_eq!(hex_string(&sha256(b""), 4), "e3b0c442");
    assert_eq!(hex_string(&[0x0f, 0xa0], 2), "0fa0");
}

#[test]
fn digests_ignore_order_but_not_content() {
    let a = ("a".to_string(), b"one".to_vec());
    let b = ("b".to_string(), b"two".to_vec());
    let d = content_digest(&[a.clone(), b.clone()]);
    assert_eq!(content_digest(&[b.clone(), a.clone()]), d);
    assert_ne!(content_digest(&[a.clone()]), d);
    assert_ne!(content_digest(&[("a".into(), b"onf".to_vec()), b]), d);
    // Two files of one path are ordered by their bytes.
    let c = ("a".to_string(), b"two".to_vec());
    let twice = content_digest(&[a.clone(), c.clone()]);
    assert_eq!(content_digest(&[c.clone(), a.clone()]), twice);
    assert_ne!(content_digest(&[c.clone(), c]), twice);
    // One file: the path, a zero byte, the length and the content are hashed.
    assert_ne!(content_digest(&[a]), sha256(b"one"));
}

#[test]
fn cache_headers_are_checked() {
    let digest = sha256(b"x");
    let blob = encode(digest, b"body");
    assert_eq!(&blob[..4], b"FEAT");
    assert_eq!(blob.len(), 52 + 4);
    assert_eq!(decode(&blob).unwrap(), (digest, b"body".to_vec()));
    let message = |b: &[u8]| decode(b).unwrap_err().message;
    assert_eq!(message(&blob[..51]), "cache too small (missing header)");
    let with = |at: usize, v: u8| {
        let mut b = blob.clone();
        b[at] = v;
        b
    };
    assert_eq!(message(&with(3, b'X')), "bad magic (not a feathered cache)");
    assert_eq!(message(&with(7, 9)), "format version 9 != supported 1");
    assert_eq!(message(&with(11, 2)), "compiler version 2 != supported 1");
    assert_eq!(message(&with(51, 3)), "payload length 3 != file remainder 4");
    assert_eq!(message(&blob[..55]), "payload length 4 != file remainder 3");
}

#[test]
fn json_documents_open_up() {
    let doc = parse_json(r#"{"a":[1,-2,1.5,null,true,"x"],"b":{"c":"d"}}"#).unwrap();
    let Some(Json::Array(v)) = doc.get("a") else { panic!("array") };
    assert_eq!(v[0].as_u64(), Some(1));
    assert_eq!(v[1].as_u64(), None);
    assert_eq!(v[2].as_u64(), None);
    assert!(matches!(v[3], Json::Null));
    assert!(matches!(v[4], Json::Bool(true)));
    assert_eq!(v[5].as_text().unwrap(), "x");
    assert_eq!(doc.get("b").unwrap().get("c").unwrap().as_text().unwrap(), "d");
    assert!(doc.get("z").is_none());
    assert!(parse_json("{").is_none());
}

fn png(width: u32, height: u32, rgba: Vec<u8>) -> Vec<u8> {
    let image = image::RgbaImage::from_raw(width, height, rgba).unwrap();
    let mut out = std::io::Cursor::new(Vec::new());
    image.write_to(&mut out, image::ImageFormat::Png).unwrap();
    out.into_inner()
}

#[test]
fn pictures_are_decoded() {
    let bytes = png(2, 1, vec![1, 2, 3, 255, 9, 8, 7, 0]);
    let tex = decode_png("a.png", &bytes, TextureMeta::default()).unwrap();
    assert_eq!((tex.width, tex.height), (2, 1));
    assert_eq!(tex.pixel(0, 0), [1, 2, 3, 255]);
    assert_eq!(tex.pixel(1, 0), [9, 8, 7, 0]);
    assert!(tex.is_grayscale_content());
    let err = decode_png("a.png", b"no picture", TextureMeta::default()).unwrap_err();
    assert_eq!(err.path, "a.png");
    assert!(!err.message.is_empty());
}

#[test]
fn gray_content_is_recognized() {
    let tex = |px: [u8; 4]| DecodedTexture {
        width: 1,
        height: 1,
        rgba: px.to_vec(),
        meta: TextureMeta::default(),
    };
    assert!(tex([10, 12, 11, 255]).is_grayscale_content());
    assert!(!tex([10, 13, 11, 255]).is_grayscale_content());
}

fn section(strategy: Option<&str>) -> McmetaDoc {
    McmetaDoc {
        animation: None,
        texture: Some(TextureSection {
            blur: Some(true),
            clamp: None,
            mip_strategy: strategy.map(|s| s.to_string()),
            alpha_cutoff_bias: Some(F32 { bits: 0.25f32.to_bits() }),
        }),
    }
}

#[test]
fn texture_sections_are_read() {
    let (meta, anim) = parse_mcmeta("p", section(Some("dark_cutout"))).unwrap();
    assert!(anim.is_none());
    assert!(meta.blur && !meta.clamp);
    assert_eq!(value(meta.alpha_cutoff_bias), 0.25);
    assert_eq!(meta.mip_strategy, MipStrategy::DarkCutout);
    let (meta, _) = parse_mcmeta("p", section(Some("strict_cutout"))).unwrap();
    assert_eq!(meta.mip_strategy, MipStrategy::StrictCutout);
    let (meta, _) = parse_mcmeta("p", section(None)).unwrap();
    assert_eq!(meta.mip_strategy, MipStrategy::Mean);
    let err = parse_mcmeta("p", section(Some("odd"))).unwrap_err();
    assert_eq!(err.describe(), "p: unknown mipmap_strategy `odd`");
    let (meta, _) = parse_mcmeta("p", McmetaDoc { animation: None, texture: None }).unwrap();
    assert_eq!(meta, TextureMeta::default());
}

fn raw(frames: Option<&str>) -> AnimationRaw {
    AnimationRaw {
        frametime: Some(3),
        interpolate: Some(true),
        frames: frames.map(|t| match parse_json(t).unwrap() {
            Json::Array(v) => v,
            _ => panic!("list"),
        }),
        height: None,
        width: None,
    }
}

#[test]
fn frame_lists_are_read() {
    let times = raw(Some(r#"[0,{"index":2,"time":5},{"index":1}]"#)).frame_times().unwrap();
    assert_eq!(times[1], (2, 5));
    assert_eq!((times[0].0, times[2].0), (0, 1));
    assert!(raw(Some(r#"[0,"x"]"#)).frame_times().is_none());
    assert!(raw(None).frame_times().is_none());
    assert_eq!(frame_count_for_test(&raw(None), 7), 7);
    assert_eq!(frame_count_for_test(&raw(Some("[0,1,0]")), 2), 3);
    // A frame beyond the strip makes the list useless.
    assert_eq!(frame_count_for_test(&raw(Some("[0,5]")), 2), 2);
    assert_eq!(frame_count_for_test(&raw(Some("[0,9,1]")), 2), 2);
    let a = finalize_animation(&raw(Some("[0,9,1]")), 2);
    assert!(a.frames.is_empty());
    assert_eq!((a.frametime, a.interpolate, a.frame_count(2)), (3, true, 2));
    let bare = AnimationRaw { frametime: None, interpolate: None, ..raw(Some("[0,9,1]")) };
    let a = finalize_animation(&bare, 2);
    assert!(a.frames.is_empty());
    assert_eq!((a.frametime, a.interpolate, a.frame_count(2)), (1, false, 2));
    let a = finalize_animation(&raw(Some(r#"[1,{"index":0}]"#)), 2);
    assert_eq!(a.frames, [1, 0]);
}

#[test]
fn strips_divide_into_frames() {
    let tex = |w: u32, h: u32| DecodedTexture {
        width: w,
        height: h,
        rgba: vec![0; (w * h * 4) as usize],
        meta: TextureMeta::default(),
    };
    let s = resolve_sprite("m", "a", tex(4, 12), Some(raw(None))).unwrap();
    assert_eq!((s.frame_w, s.frame_h, s.frame_count()), (4, 4, 3));
    assert!(s.is_animated());
    let err = resolve_sprite("m", "a", tex(4, 10), Some(raw(None))).unwrap_err();
    assert_eq!(
        err.describe(),
        "m:textures/a: animation strip 4x10 does not divide into 4x4 frames"
    );
    let s = resolve_sprite("m", "a", tex(4, 10), None).unwrap();
    assert_eq!((s.frame_w, s.frame_h, s.frame_count()), (4, 10, 1));
}

#[test]
fn sprite_names_come_from_paths() {
    let file = "/p/assets/minecraft/textures/block/a.png";
    assert_eq!(sprite_name("textures/block/a", file).as_deref(), Some("block/a"));
    let windows = "p\\minecraft\\textures\\block\\a.png";
    assert_eq!(sprite_name("textures/block/a", windows).as_deref(), Some("block/a"));
    // Sidecars, fonts and files elsewhere are no sprites.
    assert_eq!(sprite_name("textures/block/a.png", file), None);
    assert_eq!(sprite_name("textures/font/a", file), None);
    assert_eq!(sprite_name("models/block/a", "/p/assets/minecraft/models/a.json"), None);
}

#[test]
fn animation_tables_run_around() {
    let t = AnimTable { frametime: 2, frames: vec![3, 1], interpolate: false };
    let at: Vec<u32> = (0..6).map(|i| t.frame_at(i, 9)).collect();
    assert_eq!(at, [3, 3, 1, 1, 3, 3]);
    let t = AnimTable { frametime: 1, frames: Vec::new(), interpolate: false };
    assert_eq!(t.frame_at(7, 3), 1);
}

#[test]
fn cutout_pixels_shrink_without_bleeding() {
    // Two of four texels are seen: their colors alone are averaged.
    let src = [100, 0, 0, 255, 0, 0, 0, 0, 50, 0, 0, 255, 0, 0, 0, 0];
    let out = downsample_cutout(&src, 2, 2, 1, 1);
    assert_eq!(out.len(), 4);
    assert_eq!(out[0], 75);
    let clear = [9, 9, 9, 0, 9, 9, 9, 0, 9, 9, 9, 0, 9, 9, 9, 0];
    assert_eq!(downsample_cutout(&clear, 2, 2, 1, 1)[3], 0);
}

#[test]
fn too_large_sprites_do_not_pack() {
    let wide = DecodedTexture {
        width: 8192,
        height: 1,
        rgba: vec![255; 8192 * 4],
        meta: TextureMeta::default(),
    };
    let store =
        SpriteStore::from_sprites(vec![resolve_sprite("m", "wide", wide, None).unwrap()]);
    let err = build(&store, &[("m".to_string(), "wide".to_string())]).unwrap_err();
    assert_eq!(err.describe(), "atlas: failed to pack all sprites (atlas too large)");
}

#[test]
fn references_have_a_namespace() {
    let n = |s: &str| {
        let (a, b) = normalize_ref(s);
        format!("{a}|{b}")
    };
    assert_eq!(n("minecraft:block/a"), "minecraft|block/a");
    assert_eq!(n("block/a"), "minecraft|block/a");
    assert_eq!(n("x:y:z"), "x|y:z");
}

#[test]
fn interned_sprites_keep_their_ids() {
    let mut i = SpriteInterner::new();
    let a = i.intern("m", "a");
    let b = i.intern("m", "b");
    assert_ne!(a, b);
    assert_eq!(i.intern("m", "a"), a);
    assert_eq!(i.len(), 2);
    assert_eq!(i.name(b).1, "b");
    assert_eq!(i.names().len(), 2);
}

#[test]
fn directions_turn_in_quarters() {
    let y = |d: Direction, n: u8| rotate_direction(d, "y", n);
    assert_eq!(y(Direction::Up, 1), Direction::Up);
    for d in [Direction::North, Direction::East, Direction::South, Direction::West] {
        assert_ne!(y(d, 1), d);
        assert_eq!(y(d, 4), d);
        assert_eq!(y(y(d, 1), 1), y(d, 2));
    }
    assert_eq!(y(Direction::North, 2), Direction::South);
    assert_eq!(Direction::from_name("east"), Some(Direction::East));
    assert_eq!(Direction::from_name("down"), Some(Direction::Down));
    assert_eq!(Direction::from_name("x"), None);
}

fn plain(parent: Option<&str>) -> RawModel {
    RawModel {
        parent: parent.map(|s| s.to_string()),
        textures: Vec::new(),
        elements: None,
        ambientocclusion: None,
        gui_light: None,
        display: Vec::new(),
    }
}

#[test]
fn model_chains_must_end() {
    let mut raws = RawModels::new();
    raws.insert("m", "loop", plain(Some("m:loop")));
    raws.insert("m", "lost", plain(Some("m:none")));
    raws.insert("m", "bare", plain(None));
    let mut i = SpriteInterner::new();
    assert!(compile("m", "loop", &raws, &mut i).is_err());
    assert!(compile("m", "lost", &raws, &mut i).is_err());
    let m = compile("m", "bare", &raws, &mut i).unwrap();
    assert!(m.quads.is_empty());
    assert_eq!(m.particle, ("minecraft".to_string(), "missingno".to_string()));
}

#[test]
fn conditions_match_properties() {
    let p = |k: &str, v: &str| (k.to_string(), v.to_string());
    let when = |t: &str| compile_when(parse_json(t).as_ref());
    let north = [p("north", "side"), p("lit", "true")];
    assert!(when(r#"{"north":"side|up"}"#).matches(&north));
    assert!(!when(r#"{"north":"up"}"#).matches(&north));
    assert!(when(r#"{"AND":[{"north":"side"},{"lit":"true"}]}"#).matches(&north));
    assert!(when(r#"{"OR":[{"north":"up"},{"lit":"true"}]}"#).matches(&north));
    assert!(!when(r#"{"south":"side"}"#).matches(&north));
    assert!(compile_when(None).matches(&[]));
}

#[test]
fn positions_hash_apart() {
    assert_eq!(pos_hash(1, 2, 3), pos_hash(1, 2, 3));
    let all: std::collections::HashSet<u64> =
        (0..50).map(|i| pos_hash(i, 0, 0) ^ pos_hash(0, i, 7)).collect();
    assert!(all.len() > 40);
}

#[test]
fn names_are_ordered_by_their_letters() {
    let pairs = vec![
        ("b".to_string(), "a".to_string()),
        ("a".to_string(), "z".to_string()),
        ("a".to_string(), "b".to_string()),
    ];
    assert_eq!(order_pairs(&pairs), [2, 1, 0]);
    assert_eq!(order_descending(&[3, 9, 3, 5]), [1, 3, 0, 2]);
    let sorted = sort_by_key(vec![("b".to_string(), 1), ("a".to_string(), 2), ("b".to_string(), 3)]);
    assert_eq!(sorted, [2, 1, 3]);
}

#[test]
fn texts_are_taken_apart() {
    assert_eq!(decimal_string(0), "0");
    assert_eq!(decimal_string(u64::MAX), "18446744073709551615");
    assert!(str_contains("abcabd", "abd"));
    assert!(!str_contains("ab", "abc"));
    assert_eq!(str_strip_prefix("~/x", "~/").as_deref(), Some("x"));
    assert_eq!(str_strip_prefix("x", "~/"), None);
    assert_eq!(lowercase("ÄBC"), "äbc");
    assert!(str_same_ignoring_case("Ab", "aB"));
    assert!(!str_same_ignoring_case("Ä", "ä"));
    assert_eq!(parse_number("4096"), Some(4096));
    assert_eq!(parse_number("+7"), Some(7));
    assert_eq!(parse_number(""), None);
    assert_eq!(parse_number("4294967296"), None);
    assert_eq!(parse_number("-1"), None);
}

#[test]
fn paths_are_joined_and_split() {
    assert_eq!(join_path("a", "b"), "a/b");
    assert_eq!(join_path("a/", "b"), "a/b");
    assert_eq!(join_path("a", "/b"), "/b");
    assert_eq!(stem_of("a.tar.zip"), "a.tar");
    assert_eq!(stem_of(".hidden"), ".hidden");
    assert_eq!(extension_of("a.ZIP").as_deref(), Some("ZIP"));
    assert_eq!(extension_of(".zip"), None);
}

#[test]
fn properties_keep_the_last_value() {
    let p = parse_properties("b = 2 # note\n# c=1\n\na=1\nb=3\nempty=\n=x\n");
    assert_eq!(p.get("a").unwrap(), "1");
    assert_eq!(p.get("b").unwrap(), "3");
    assert!(p.get("c").is_none());
    let keys: Vec<&str> = p.entries.iter().map(|e| e.0.as_str()).collect();
    let mut sorted = keys.clone();
    sorted.sort();
    sorted.dedup();
    assert_eq!(keys, sorted);
}

#[test]
fn commands_are_recognized() {
    let c = |v: &[&str]| command(&args(v));
    assert_eq!(c(&["p"]), Command::Help);
    assert_eq!(c(&["p", "first-run"]), Command::FirstRun);
    assert_eq!(c(&["p", "packs", "list"]), Command::Packs);
    assert_eq!(c(&["p", "shaders"]), Command::Shaders);
    assert_eq!(c(&["p", "compile-pack"]), Command::CompilePack);
    assert_eq!(c(&["p", "validate"]), Command::Validate);
    assert_eq!(c(&["p", "render"]), Command::Render);
    assert_eq!(c(&["p", "-h"]), Command::Help);
    assert_eq!(c(&["p", "xyz"]), Command::Unknown);
    assert_eq!(packs_action(&args(&[])), PacksAction::List);
    assert_eq!(packs_action(&args(&["scan"])), PacksAction::Scan);
    assert_eq!(packs_action(&args(&["what"])), PacksAction::Unknown);
    assert_eq!(shaders_action(&args(&["enable", "x"])), ShadersAction::Enable);
    assert_eq!(shaders_action(&args(&[])), ShadersAction::List);
}

#[test]
fn flags_have_values() {
    let a = args(&["render", "--quality", "ULTRA", "--cache", "c.bin", "--screenshot"]);
    assert_eq!(arg_value(&a, "--cache").as_deref(), Some("c.bin"));
    assert_eq!(arg_value(&a, "--screenshot"), None);
    assert!(arg_flag(&a, "--screenshot"));
    assert!(!arg_flag(&a, "--pack-dir"));
    assert_eq!(parse_quality(&a), Quality::Ultra);
    assert_eq!(parse_quality(&args(&["--quality", "best"])), Quality::Medium);
    assert_eq!(cache_path(&args(&[]), "--out"), "target/feathered-cache.bin");
    let o = run_options(&a, "dir".into(), Some(("id".into(), "sd".into())));
    assert_eq!(o.quality, RenderQuality::Ultra);
    assert_eq!(o.cache_path, "c.bin");
    assert_eq!(o.shader_pack.as_deref(), Some("id"));
    assert_eq!(o.shader_config_path.as_deref(), Some("sd"));
    assert_eq!(o.screenshot, None);
}

#[test]
fn packs_answer_to_id_and_name() {
    let packs = vec![
        ("alpha-11".to_string(), "Alpha".to_string()),
        ("beta-22".to_string(), "Beta Pack".to_string()),
    ];
    assert_eq!(find_pack(&packs, "beta"), Some(1));
    assert_eq!(find_pack(&packs, "BETA PACK"), Some(1));
    assert_eq!(find_pack(&packs, ""), Some(0));
    assert_eq!(find_pack(&packs, "gamma"), None);
    let active = || Some(("d".to_string(), "n".to_string()));
    assert_eq!(resolve_pack_dir(&args(&[]), active()), ("d".to_string(), Some("n".to_string())));
    assert_eq!(
        resolve_pack_dir(&args(&["--pack-dir", "x"]), active()),
        ("x".to_string(), None)
    );
    assert_eq!(resolve_pack_dir(&args(&[]), None), ("texture/assets".to_string(), None));
}

#[test]
fn menus_and_home() {
    assert_eq!(menu_choice(" 1\n", false), MenuChoice::Import);
    assert_eq!(menu_choice("2", false), MenuChoice::OpenFolder);
    assert_eq!(menu_choice("3", false), MenuChoice::Browse);
    assert_eq!(menu_choice("4", true), MenuChoice::LocalPack);
    assert_eq!(menu_choice("4", false), MenuChoice::Nothing);
    assert_eq!(menu_choice("", true), MenuChoice::Nothing);
    assert_eq!(expand_tilde("~/p", Some("/home/me")), "/home/me/p");
    assert_eq!(expand_tilde("~/p", None), "~/p");
    assert_eq!(expand_tilde("/p", Some("/home/me")), "/p");
}

#[test]
fn stages_are_flagged() {
    let low = stage_values(&ShaderEffectConfig::for_quality(RenderQuality::Low));
    assert_eq!(low.flags, 0);
    let high = stage_values(&ShaderEffectConfig::for_quality(RenderQuality::High));
    assert_eq!(high.flags, SSAO | SHADOWS | ATMOSPHERE | WATER | FOG);
    assert_eq!(high.shadow_samples, 4);
    assert_eq!(high.cloud_steps, 24);
    assert_eq!(high.tonemap, 1);
    let medium = stage_values(&ShaderEffectConfig::for_quality(RenderQuality::Medium));
    assert_eq!(medium.flags, WATER);
    assert_eq!(medium.water_octaves, 2);
}

#[test]
fn frames_take_a_path() {
    assert_eq!(frame_path(true, RenderQuality::High), FramePath::Staged);
    assert_eq!(frame_path(false, RenderQuality::Medium), FramePath::Direct);
    assert_eq!(frame_path(false, RenderQuality::Low), FramePath::Scaled);
    assert_eq!(frame_dims(true, Some((800, 600))), (800, 600));
    assert_eq!(frame_dims(false, Some((800, 600))), (1280, 720));
    assert_eq!(scene_size(RenderQuality::Low, 101, 0), (51, 1));
    assert_eq!(scene_size(RenderQuality::Medium, 101, 7), (101, 7));
    let high = ShaderEffectConfig::for_quality(RenderQuality::High);
    let low = ShaderEffectConfig::for_quality(RenderQuality::Low);
    assert_eq!(staged_change(None, &high), StagedChange::Rebuild);
    assert_eq!(staged_change(Some(&high), &high), StagedChange::Keep);
    assert_eq!(staged_change(Some(&high), &low), StagedChange::TearDown);
    assert_eq!(shadow_resolution(&high), 1024);
    let p = post_params(Some(&high), RenderQuality::High);
    assert_eq!(value(p.bloom_intensity), 0.5);
}

#[test]
fn captured_rows_lose_their_padding() {
    assert_eq!(padded_row(1280), 5120);
    assert_eq!(padded_row(1), 256);
    assert_eq!(padded_row(65), 512);
    let data = [1, 2, 0, 3, 4, 0];
    assert_eq!(unpad_rows(&data, 2, 3, 2), [1, 2, 3, 4]);
}

#[test]
fn float_bits_order_as_numbers() {
    let f = |x: f32| F32 { bits: x.to_bits() };
    for (a, b) in [(0.0, 1.0), (-1.0, 0.0), (-2.0, -1.0), (0.5, 0.75), (-0.0, 0.0)] {
        assert!(f(a).le(f(b)));
        assert_eq!(f(a).lt(f(b)), a < b);
        assert_eq!(f(a).same(f(b)), a == b);
    }
    assert!(f(f32::NAN).is_nan());
    assert!(!f(f32::NAN).le(f(1.0)));
    for x in [-3.0f32, 0.2, 0.9, 7.0] {
        assert_eq!(value(f(x).clamp(f(0.15), f(1.0))), x.clamp(0.15, 1.0));
        assert_eq!(value(f(x).at_least(f(0.25))), x.max(0.25));
    }
}
