//! The compiler, the atlas, the registry and the mesher on a small pack with
//! the ten required blocks: parent chains, rotations, tint indices, occlusion
//! classes, animation strips, neighbor culling and layer assignment.

use feathered::atlas::Atlas;
use feathered::blockstates::{
    classify_occlusion, compile_multipart, compile_variants, extract_schema, Angle, ModelInstance,
    Occlusion, RawApply, RawBlockstate, RawMultipartPart, RawVariant, RawVariantEntry,
    StateAppearance, VariantRot,
};
use feathered::cache::{atlas_to_cached, cached_to_atlas, content_digest, decode, encode, is_fresh};
use feathered::chunk::{mesh_world, MeshedChunk, TintPolicy, Vertex};
use feathered::compiled::{CompiledAppearance, CompiledPack};
use feathered::compiler::{
    compile_pack, resolve_state, CompileStats, RawBlockstates, REQUIRED_BLOCKS,
};
use feathered::grid::World;
use feathered::json::{parse_json, Json};
use feathered::light::LightGrid;
use feathered::meta::{AnimationRaw, TextureMeta};
use feathered::models::{
    apply_variant_rotation, compile, face_corners, Direction, FaceQuad, ModelId, ModelTable,
    SpriteInterner,
};
use feathered::models_raw::{
    FaceGeometry, RawElement, RawFace, RawModel, RawModels, RawRotation, RawTextureValue,
};
use feathered::registry::{resolve_appearance, AppearanceRef, Registry};
use feathered::render::{
    animation_steps, atlas_fits, build_anim_slots, build_lighting_meshes, build_meshes,
    sprite_rects, MeshPlaces, PLAINS_TINT,
};
use feathered::scalar::F32;
use feathered::scene::{build_validation_world, scene_ids};
use feathered::sprites::{resolve_sprite, Sprite, SpriteStore};
use feathered::texture::DecodedTexture;
use feathered::tint::{assert_tint_candidate, Colormap, TintColor, TintSystem};
use feathered::validate::validate;

const DIRS: [Direction; 6] = [
    Direction::Down,
    Direction::Up,
    Direction::North,
    Direction::South,
    Direction::West,
    Direction::East,
];

fn f(x: f32) -> F32 {
    F32 { bits: x.to_bits() }
}

fn value(x: F32) -> f32 {
    f32::from_bits(x.bits)
}

fn f3(v: [f32; 3]) -> [F32; 3] {
    [f(v[0]), f(v[1]), f(v[2])]
}

fn angle(degrees: f32) -> Angle {
    let whole = degrees.rem_euclid(360.0).round() as u32;
    Angle {
        degrees: f(degrees),
        quarters: ((degrees.round() as i64).rem_euclid(360) / 90) as u8,
        whole,
    }
}

/// The faces of a box, turned about an axis through an origin.
fn geometry(
    from: [f32; 3],
    to: [f32; 3],
    turn: Option<([f32; 3], char, f32)>,
) -> [FaceGeometry; 6] {
    let bounds = [f(from[0]), f(from[1]), f(from[2]), f(to[0]), f(to[1]), f(to[2])];
    DIRS.map(|dir| {
        let mut corners = face_corners(dir, bounds);
        if let Some((origin, axis, degrees)) = turn {
            let (s, c) = degrees.to_radians().sin_cos();
            for corner in corners.iter_mut() {
                let p = [
                    value(corner[0]) - origin[0],
                    value(corner[1]) - origin[1],
                    value(corner[2]) - origin[2],
                ];
                let r = match axis {
                    'x' => [p[0], p[1] * c - p[2] * s, p[1] * s + p[2] * c],
                    _ => [p[0] * c + p[2] * s, p[1], -p[0] * s + p[2] * c],
                };
                *corner = f3([r[0] + origin[0], r[1] + origin[1], r[2] + origin[2]]);
            }
        }
        let mut b = [f32::INFINITY, f32::INFINITY, f32::INFINITY, f32::NEG_INFINITY, f32::NEG_INFINITY, f32::NEG_INFINITY];
        for corner in &corners {
            for k in 0..3 {
                b[k] = b[k].min(value(corner[k]));
                b[k + 3] = b[k + 3].max(value(corner[k]));
            }
        }
        FaceGeometry { bounds: b.map(f), corners }
    })
}

struct Face {
    dir: &'static str,
    texture: &'static str,
    cull: bool,
    tint: bool,
}

fn face(dir: &'static str, texture: &'static str, cull: bool, tint: bool) -> Face {
    Face { dir, texture, cull, tint }
}

fn element(
    from: [f32; 3],
    to: [f32; 3],
    turn: Option<([f32; 3], char, f32)>,
    faces: Vec<Face>,
) -> RawElement {
    RawElement {
        from: f3(from),
        to: f3(to),
        rotation: turn.map(|(origin, axis, degrees)| RawRotation {
            origin: f3(origin),
            axis: Some(axis.to_string()),
            angle: Some(angle(degrees)),
            x: None,
            y: None,
            z: None,
            rescale: true,
        }),
        turned: geometry(from, to, turn),
        shade: None,
        light_emission: None,
        faces: faces
            .into_iter()
            .map(|x| {
                (
                    x.dir.to_string(),
                    RawFace {
                        uv: None,
                        texture: x.texture.to_string(),
                        cullface: if x.cull { Some(x.dir.to_string()) } else { None },
                        tintindex: if x.tint { Some(0) } else { None },
                    },
                )
            })
            .collect(),
        shade_direction_override: None,
    }
}

fn model(
    parent: Option<&str>,
    textures: &[(&str, &str)],
    elements: Option<Vec<RawElement>>,
) -> RawModel {
    RawModel {
        parent: parent.map(|s| s.to_string()),
        textures: textures
            .iter()
            .map(|(k, v)| (k.to_string(), RawTextureValue::Str(v.to_string())))
            .collect(),
        elements,
        ambientocclusion: None,
        gui_light: None,
        display: Vec::new(),
    }
}

fn cube(names: [&'static str; 6], tint_top: bool) -> RawElement {
    let dirs = ["down", "up", "north", "south", "west", "east"];
    let faces = (0..6)
        .map(|i| face(dirs[i], names[i], true, tint_top && i == 1))
        .collect();
    element([0.0; 3], [16.0; 3], None, faces)
}

fn raw_models() -> RawModels {
    let mut m = RawModels::new();
    let mut add = |name: &str, model: RawModel| m.insert("minecraft", name, model);
    add(
        "block/cube",
        model(None, &[], Some(vec![cube(["#down", "#up", "#north", "#south", "#west", "#east"], false)])),
    );
    add(
        "block/cube_all",
        model(
            Some("block/cube"),
            &[
                ("particle", "#all"),
                ("down", "#all"),
                ("up", "#all"),
                ("north", "#all"),
                ("east", "#all"),
                ("south", "#all"),
                ("west", "#all"),
            ],
            None,
        ),
    );
    add(
        "block/cube_column",
        model(
            Some("block/cube"),
            &[
                ("particle", "#side"),
                ("down", "#end"),
                ("up", "#end"),
                ("north", "#side"),
                ("east", "#side"),
                ("south", "#side"),
                ("west", "#side"),
            ],
            None,
        ),
    );
    let log = [("end", "minecraft:block/oak_log_top"), ("side", "minecraft:block/oak_log")];
    add("block/oak_log", model(Some("minecraft:block/cube_column"), &log, None));
    add("block/oak_log_horizontal", model(Some("minecraft:block/cube_column"), &log, None));
    for name in ["block/stone", "block/stone_mirrored"] {
        add(name, model(Some("minecraft:block/cube_all"), &[("all", "minecraft:block/stone")], None));
    }
    add(
        "block/glass",
        RawModel {
            textures: vec![(
                "all".to_string(),
                RawTextureValue::Sprite {
                    sprite: "minecraft:block/glass".to_string(),
                    force_translucent: Some(true),
                },
            )],
            ..model(Some("minecraft:block/cube_all"), &[], None)
        },
    );
    let sides = ["north", "south", "west", "east"];
    add(
        "block/grass_block",
        model(
            None,
            &[
                ("particle", "block/dirt"),
                ("bottom", "block/dirt"),
                ("top", "block/grass_block_top"),
                ("side", "block/grass_block_side"),
                ("overlay", "block/grass_block_side_overlay"),
            ],
            Some(vec![
                cube(["#bottom", "#top", "#side", "#side", "#side", "#side"], true),
                element(
                    [0.0; 3],
                    [16.0; 3],
                    None,
                    sides.iter().map(|d| face(d, "#overlay", true, true)).collect(),
                ),
            ]),
        ),
    );
    add(
        "block/grass_block_snow",
        model(
            None,
            &[
                ("particle", "block/dirt"),
                ("bottom", "block/dirt"),
                ("top", "block/snow"),
                ("side", "block/grass_block_snow"),
            ],
            Some(vec![cube(["#bottom", "#top", "#side", "#side", "#side", "#side"], false)]),
        ),
    );
    add(
        "block/torch",
        model(
            None,
            &[("torch", "block/torch"), ("particle", "#torch")],
            Some(vec![element(
                [7.0, 0.0, 7.0],
                [9.0, 10.0, 9.0],
                None,
                vec![
                    face("down", "#torch", false, false),
                    face("up", "#torch", false, false),
                    face("west", "#torch", false, false),
                    face("east", "#torch", false, false),
                    face("north", "#torch", false, false),
                    face("south", "#torch", false, false),
                ],
            )]),
        ),
    );
    let plate = |texture: &'static str| {
        vec![face("down", texture, false, false), face("up", texture, false, false)]
    };
    add(
        "block/rail",
        model(
            None,
            &[("rail", "block/rail"), ("particle", "#rail")],
            Some(vec![element([0.0, 1.0, 0.0], [16.0, 1.0, 16.0], None, plate("#rail"))]),
        ),
    );
    add("block/rail_corner", model(Some("block/rail"), &[("rail", "block/rail_corner")], None));
    for name in ["block/rail_raised_ne", "block/rail_raised_sw"] {
        add(
            name,
            model(
                None,
                &[("rail", "block/rail"), ("particle", "#rail")],
                Some(vec![element(
                    [0.0, 9.0, 0.0],
                    [16.0, 9.0, 16.0],
                    Some(([8.0, 9.0, 8.0], 'x', 45.0)),
                    plate("#rail"),
                )]),
            ),
        );
    }
    let turn = Some(([8.0, 8.0, 8.0], 'y', 45.0));
    add(
        "block/tinted_cross",
        model(
            None,
            &[("particle", "#cross")],
            Some(vec![
                element(
                    [0.8, 0.0, 8.0],
                    [15.2, 16.0, 8.0],
                    turn,
                    vec![face("north", "#cross", false, true), face("south", "#cross", false, true)],
                ),
                element(
                    [8.0, 0.0, 0.8],
                    [8.0, 16.0, 15.2],
                    turn,
                    vec![face("west", "#cross", false, true), face("east", "#cross", false, true)],
                ),
            ]),
        ),
    );
    add(
        "block/short_grass",
        model(Some("block/tinted_cross"), &[("cross", "block/short_grass")], None),
    );
    add(
        "block/vine",
        model(
            None,
            &[("vine", "block/vine"), ("particle", "#vine")],
            Some(vec![element(
                [0.0, 0.0, 0.8],
                [16.0, 16.0, 0.8],
                None,
                vec![face("north", "#vine", false, true), face("south", "#vine", false, true)],
            )]),
        ),
    );
    for (name, sprite) in [
        ("block/redstone_dust_dot", "block/redstone_dust_dot"),
        ("block/redstone_dust_side", "block/redstone_dust_line0"),
        ("block/redstone_dust_up", "block/redstone_dust_line0"),
    ] {
        add(
            name,
            model(
                None,
                &[("line", sprite), ("particle", "#line")],
                Some(vec![element(
                    [0.0, 0.25, 0.0],
                    [16.0, 0.25, 16.0],
                    None,
                    vec![face("up", "#line", false, true), face("down", "#line", false, true)],
                )]),
            ),
        );
    }
    add("block/water", model(None, &[("particle", "minecraft:block/water_still")], None));
    m
}

fn variant(model: &str, x: f32, y: f32) -> RawVariant {
    RawVariant {
        model: model.to_string(),
        x: if x == 0.0 { None } else { Some(angle(x)) },
        y: if y == 0.0 { None } else { Some(angle(y)) },
        uvlock: None,
        weight: None,
    }
}

fn one(key: &str, v: RawVariant) -> (String, RawVariantEntry) {
    (key.to_string(), RawVariantEntry::One(v))
}

fn variants(list: Vec<(String, RawVariantEntry)>) -> RawBlockstate {
    RawBlockstate { variants: Some(list), multipart: None }
}

fn part(when: &str, v: RawVariant) -> RawMultipartPart {
    RawMultipartPart {
        apply: RawApply::One(v),
        when: if when.is_empty() { None } else { Some(parse_json(when).unwrap()) },
    }
}

fn raw_blockstates() -> RawBlockstates {
    let mut b = RawBlockstates::new();
    let mut add = |name: &str, s: RawBlockstate| b.insert("minecraft", name, s);
    let pool = |turned: [(&str, f32); 4]| {
        RawVariantEntry::Many(turned.iter().map(|(m, y)| variant(m, 0.0, *y)).collect())
    };
    add(
        "stone",
        variants(vec![(
            String::new(),
            pool([
                ("minecraft:block/stone", 0.0),
                ("minecraft:block/stone_mirrored", 0.0),
                ("minecraft:block/stone", 180.0),
                ("minecraft:block/stone_mirrored", 180.0),
            ]),
        )]),
    );
    add(
        "oak_log",
        variants(vec![
            one("axis=x", variant("minecraft:block/oak_log_horizontal", 90.0, 90.0)),
            one("axis=y", variant("minecraft:block/oak_log", 0.0, 0.0)),
            one("axis=z", variant("minecraft:block/oak_log_horizontal", 90.0, 0.0)),
        ]),
    );
    let grass = "minecraft:block/grass_block";
    add(
        "grass_block",
        variants(vec![
            (
                "snowy=false".to_string(),
                pool([(grass, 0.0), (grass, 90.0), (grass, 180.0), (grass, 270.0)]),
            ),
            one("snowy=true", variant("minecraft:block/grass_block_snow", 0.0, 0.0)),
        ]),
    );
    for name in ["glass", "torch", "short_grass", "water"] {
        add(name, variants(vec![one("", variant(&format!("minecraft:block/{name}"), 0.0, 0.0))]));
    }
    let rails = [
        ("north_south", "rail", 0.0),
        ("ascending_east", "rail_raised_ne", 90.0),
        ("ascending_north", "rail_raised_ne", 0.0),
        ("ascending_south", "rail_raised_sw", 0.0),
        ("ascending_west", "rail_raised_sw", 90.0),
        ("east_west", "rail", 90.0),
        ("north_east", "rail_corner", 270.0),
        ("north_west", "rail_corner", 180.0),
        ("south_east", "rail_corner", 0.0),
        ("south_west", "rail_corner", 90.0),
    ];
    add(
        "rail",
        variants(
            rails
                .iter()
                .map(|(shape, m, y)| {
                    one(&format!("shape={shape}"), variant(&format!("minecraft:block/{m}"), 0.0, *y))
                })
                .collect(),
        ),
    );
    let vine = |y: f32| variant("minecraft:block/vine", 0.0, y);
    add(
        "vine",
        RawBlockstate {
            variants: None,
            multipart: Some(vec![
                part(r#"{"north":"true"}"#, vine(0.0)),
                part(r#"{"east":"true"}"#, vine(90.0)),
                part(r#"{"south":"true"}"#, vine(180.0)),
                part(r#"{"west":"true"}"#, vine(270.0)),
            ]),
        },
    );
    let side = |y: f32| variant("minecraft:block/redstone_dust_side", 0.0, y);
    let up = |y: f32| variant("minecraft:block/redstone_dust_up", 0.0, y);
    add(
        "redstone_wire",
        RawBlockstate {
            variants: None,
            multipart: Some(vec![
                part(
                    r#"{"OR":[
                        {"east":"none","north":"none","south":"none","west":"none"},
                        {"east":"side|up","north":"side|up"},
                        {"east":"side|up","south":"side|up"},
                        {"south":"side|up","west":"side|up"},
                        {"north":"side|up","west":"side|up"}
                    ]}"#,
                    variant("minecraft:block/redstone_dust_dot", 0.0, 0.0),
                ),
                part(r#"{"north":"side|up"}"#, side(0.0)),
                part(r#"{"south":"side|up"}"#, side(180.0)),
                part(r#"{"east":"side|up"}"#, side(90.0)),
                part(r#"{"west":"side|up"}"#, side(270.0)),
                part(r#"{"north":"up"}"#, up(0.0)),
                part(r#"{"east":"up"}"#, up(90.0)),
                part(r#"{"south":"up"}"#, up(180.0)),
                part(r#"{"west":"up"}"#, up(270.0)),
            ]),
        },
    );
    b
}

fn texture(width: u32, height: u32, at: impl Fn(u32, u32) -> [u8; 4]) -> DecodedTexture {
    let mut rgba = Vec::new();
    for y in 0..height {
        for x in 0..width {
            rgba.extend_from_slice(&at(x, y));
        }
    }
    DecodedTexture { width, height, rgba, meta: TextureMeta::default() }
}

fn still(name: &str, at: impl Fn(u32, u32) -> [u8; 4]) -> Sprite {
    resolve_sprite("minecraft", name, texture(16, 16, at), None).unwrap()
}

fn strip(name: &str, rows: u32, raw: AnimationRaw) -> Sprite {
    let tex = texture(16, 16 * rows, |_, y| [(y / 16) as u8, 80, 200, 180]);
    resolve_sprite("minecraft", name, tex, Some(raw)).unwrap()
}

fn raw_anim(frametime: u32, frames: Option<Vec<u16>>) -> AnimationRaw {
    AnimationRaw {
        frametime: Some(frametime),
        interpolate: None,
        frames: frames.map(|v| v.into_iter().map(|n| Json::Number(Some(n as u64))).collect()),
        height: None,
        width: None,
    }
}

fn store() -> SpriteStore {
    let mut v = Vec::new();
    for (i, name) in [
        "block/stone",
        "block/oak_log",
        "block/oak_log_top",
        "block/grass_block_side",
        "block/grass_block_snow",
        "block/dirt",
        "block/snow",
    ]
    .iter()
    .enumerate()
    {
        v.push(still(name, |_, _| [40 + i as u8 * 10, 90, 60, 255]));
    }
    v.push(still("block/grass_block_top", |_, _| [120, 121, 120, 255]));
    for name in [
        "block/grass_block_side_overlay",
        "block/torch",
        "block/rail",
        "block/rail_corner",
        "block/short_grass",
        "block/vine",
        "block/redstone_dust_dot",
        "block/redstone_dust_line0",
    ] {
        v.push(still(name, |x, y| {
            if (x + y) % 2 == 0 { [100, 100, 100, 255] } else { [0, 0, 0, 0] }
        }));
    }
    v.push(still("block/glass", |x, y| {
        if x == 0 || y == 0 || x == 15 || y == 15 { [200, 220, 230, 200] } else { [0, 0, 0, 0] }
    }));
    v.push(strip("block/water_still", 32, raw_anim(2, None)));
    let mut there_and_back: Vec<u16> = (0..20).collect();
    there_and_back.extend((1..19).rev());
    v.push(strip("block/lava_still", 20, raw_anim(2, Some(there_and_back))));
    let map = texture(256, 256, |x, y| [x as u8, y as u8, (x ^ y) as u8, 255]);
    v.push(resolve_sprite("minecraft", "colormap/grass", map, None).unwrap());
    SpriteStore::from_sprites(v)
}

fn compiled() -> (CompiledPack, Atlas, CompileStats) {
    compile_pack(&store(), &raw_models(), &raw_blockstates(), true).unwrap()
}

struct Fixture {
    registry: Registry,
    atlas: Atlas,
}

fn fixture() -> Fixture {
    let (pack, atlas, _) = compiled();
    Fixture { registry: Registry::from_compiled(pack), atlas }
}

fn mesh(fx: &Fixture, world: &World, tint: [u8; 4]) -> MeshedChunk {
    assert!(atlas_fits(&fx.atlas));
    mesh_world(world, &fx.registry, &sprite_rects(&fx.registry, &fx.atlas), &TintPolicy { tint0: tint })
}

const WHITE: [u8; 4] = [255, 255, 255, 255];

/// Where a vertex stands, in blocks.
fn pos(v: &Vertex) -> [f32; 3] {
    [0, 1, 2].map(|k| v.cell[k] as f32 + value(v.corner[k]) / 16.0)
}

fn block<'a>(pack: &'a CompiledPack, name: &str) -> &'a feathered::compiled::RuntimeBlock {
    pack.blocks.iter().find(|b| b.name == name).unwrap()
}

#[test]
fn water_animation_strip_resolves() {
    let store = store();
    let water = store.get("minecraft", "block/water_still").unwrap();
    assert_eq!(water.frame_count(), 32);
    assert_eq!(water.animation.as_ref().unwrap().frametime, 2);
    let lava = store.get("minecraft", "block/lava_still").unwrap();
    // lava_still has an explicit 38-entry palindrome frame list.
    assert_eq!(lava.frame_count(), 38);
}

#[test]
fn oak_log_compiles_to_six_quads_with_two_sprites() {
    let (pack, _atlas, _stats) = compiled();
    let log = block(&pack, "oak_log");
    assert_eq!(log.states.len(), 3); // axis x|y|z
    for state in &log.states {
        let CompiledAppearance::Static(instances) = &state.appearance else {
            panic!("oak_log state should be static");
        };
        assert_eq!(instances.len(), 1);
        let model = &pack.models[instances[0].model.0 as usize];
        assert_eq!(model.quads.len(), 6, "oak_log must be a 6-quad cube");
        let sprites: std::collections::HashSet<_> = model.quads.iter().map(|q| q.sprite).collect();
        assert_eq!(sprites.len(), 2, "end + side sprites");
    }
}

#[test]
fn grass_block_has_tinted_faces() {
    let (pack, _atlas, _stats) = compiled();
    let grass = block(&pack, "grass_block");
    let snow_states: Vec<bool> = grass
        .states
        .iter()
        .map(|s| match &s.appearance {
            CompiledAppearance::Static(m) => {
                let model = &pack.models[m[0].model.0 as usize];
                model.quads.iter().any(|q| q.tint.is_some())
            }
            _ => false,
        })
        .collect();
    // snowy=false has tinted top+overlay; snowy=true (grass_block_snow) does not.
    assert!(snow_states.iter().any(|t| *t), "tinted grass state missing");
    assert!(snow_states.len() == 2, "expected snowy and plain states");
}

#[test]
fn stone_occludes_glass_does_not() {
    let (pack, _atlas, _stats) = compiled();
    let stone = block(&pack, "stone");
    assert!(stone.states.iter().all(|s| s.occlusion.hides_neighbor()));
    let glass = block(&pack, "glass");
    assert!(glass.states.iter().all(|s| !s.occlusion.hides_neighbor()));
}

#[test]
fn rail_is_flat_geometry() {
    let (pack, _atlas, _stats) = compiled();
    let rail = block(&pack, "rail");
    let flat = rail
        .states
        .iter()
        .filter_map(|s| match &s.appearance {
            CompiledAppearance::Static(m) => Some(m[0].model),
            _ => None,
        })
        .any(|model_id| {
            pack.models[model_id.0 as usize]
                .quads
                .iter()
                .any(|q| value(q.bounds[4]) - value(q.bounds[1]) < 2.0)
        });
    assert!(flat, "rail flat states must contain a 1/16-tall quad");
    assert_eq!(rail.states.len(), 10); // 10 shape variants
}

#[test]
fn redstone_wire_multipart_states() {
    let (pack, _atlas, _stats) = compiled();
    let wire = block(&pack, "redstone_wire");
    assert_eq!(wire.states.len(), 81); // north/east/south/west x side|up|none
    assert!(wire
        .states
        .iter()
        .any(|s| matches!(s.appearance, CompiledAppearance::Multipart(_))));
}

#[test]
fn all_required_blocks_compile() {
    let (pack, _atlas, stats) = compiled();
    for req in REQUIRED_BLOCKS {
        assert!(pack.blocks.iter().any(|b| b.name == *req), "required block {req} missing");
    }
    assert_eq!(stats.skipped_blocks, 0);
    assert_eq!(stats.blocks, 10);
    assert_eq!(stats.models, pack.models.len());
    assert_eq!(stats.sprites, store().sprites.len());
    assert_eq!(stats.animations, 1);
}

type Body = (Vec<String>, (u32, u32), Vec<u8>, Vec<Vec<u8>>);

#[test]
fn cache_round_trip_preserves_pack() {
    let (pack, atlas, _stats) = compiled();
    let cached = atlas_to_cached(&atlas, &pack.sprite_names);
    let names: Vec<String> = pack.blocks.iter().map(|b| b.name.clone()).collect();
    let payload: Body =
        (names, (cached.width, cached.height), cached.mip0.clone(), cached.mips.clone());
    let digest = content_digest(&[("test".into(), b"hello".to_vec())]);
    let body = bincode::serialize(&payload).unwrap();
    let blob = encode(digest, &body);
    let (digest2, bytes) = decode(&blob).unwrap();
    assert_eq!(digest, digest2);
    assert_eq!(bytes, body);
    let decoded: Body = bincode::deserialize(&bytes).unwrap();
    assert_eq!(decoded.0.len(), pack.blocks.len());
    assert_eq!((decoded.1).0, atlas.width);

    // The atlas itself comes back.
    let back = cached_to_atlas(&cached, &pack.sprite_names);
    assert_eq!((back.width, back.height), (atlas.width, atlas.height));
    assert_eq!(back.pixels, atlas.pixels);
    assert_eq!(back.mips, atlas.mips);
    for (ns, name) in &pack.sprite_names {
        assert_eq!(back.get(ns, name), atlas.get(ns, name));
    }

    // Header validation: corrupt the magic -> rejection.
    let mut bad = blob.clone();
    bad[0] = b'X';
    assert!(decode(&bad).is_err());
    // Truncate -> rejection.
    assert!(decode(&blob[..30]).is_err());

    // A cache is fresh for the pack it was made of, and for no other.
    assert!(is_fresh(&blob, &digest));
    let other = content_digest(&[("test".into(), b"hello!".to_vec())]);
    assert!(!is_fresh(&blob, &other));
    assert!(!is_fresh(&bad, &digest));
}

#[test]
fn atlas_packs_oak_log_top_correctly() {
    let store = store();
    let (_pack, atlas, _stats) = compiled();
    let entry = atlas.get("minecraft", "block/oak_log_top").unwrap();
    let sprite = store.get("minecraft", "block/oak_log_top").unwrap();
    assert_eq!(entry.frame_w, sprite.tex.width);
    assert_eq!(entry.frame_h, sprite.tex.height);
    // Atlas is a power of two with a mip chain.
    assert!(atlas.width.is_power_of_two());
    assert!(atlas.mip_levels() > 1);
}

#[test]
fn atlas_holds_every_frame() {
    let store = store();
    let (pack, atlas, _) = compiled();
    for (ns, name) in &pack.sprite_names {
        let sprite = store.get(ns, name).unwrap();
        let e = atlas.get(ns, name).unwrap();
        for frame in 0..e.frames {
            for y in 0..e.frame_h {
                for x in 0..e.frame_w {
                    let from = sprite.tex.pixel(x, frame * e.frame_h + y);
                    let at = ((e.y + frame * e.frame_stride + y) * atlas.width + e.x + x) * 4;
                    let at = at as usize;
                    assert_eq!(atlas.pixels[at..at + 4], from, "{name} frame {frame}");
                }
            }
        }
    }
    assert!(atlas.height.is_power_of_two());
    // Each mip level is half of the one before, in each direction.
    let (mut w, mut h) = (atlas.width, atlas.height);
    for m in &atlas.mips {
        w = (w / 2).max(1);
        h = (h / 2).max(1);
        assert_eq!(m.len(), (w * h * 4) as usize);
    }
}

#[test]
fn buried_stone_generates_zero_faces() {
    let fx = fixture();
    let mut world = World::new([8, 8, 8]);
    let stone = fx.registry.block_id("stone").unwrap();
    for x in 0..8 {
        for y in 0..8 {
            for z in 0..8 {
                world.set(x, y, z, stone, 0);
            }
        }
    }
    let mesh = mesh(&fx, &world, WHITE);
    // A fully occluded block of stone has no visible faces at all, and the
    // world border never exposes shell faces either.
    assert_eq!(mesh.opaque.vertices.len(), 0, "interior stone must cull entirely");
    assert_eq!(mesh.cutout.vertices.len(), 0);
}

#[test]
fn exposed_stone_generates_exactly_six_faces_per_cube() {
    let fx = fixture();
    let mut world = World::new([8, 8, 8]);
    let stone = fx.registry.block_id("stone").unwrap();
    world.set(4, 4, 4, stone, 0);
    let mesh = mesh(&fx, &world, WHITE);
    assert_eq!(mesh.opaque.vertices.len(), 24);
    assert_eq!(mesh.opaque.indices.len(), 36);
}

#[test]
fn random_variant_pool_picks_deterministically() {
    let fx = fixture();
    let mut world = World::new([8, 8, 8]);
    let stone = fx.registry.block_id("stone").unwrap();
    for x in 0..8 {
        world.set(x, 4, 4, stone, 0);
    }
    let mesh_a = mesh(&fx, &world, WHITE);
    let mesh_b = mesh(&fx, &world, WHITE);
    // Out-of-world borders count as occluders, so the bar at y=4 spanning the
    // full x range shows only its 4 exposed sides per block: 4 x 8 blocks = 32
    // quads = 128 verts.
    assert_eq!(mesh_a.opaque.vertices.len(), 128);
    assert_eq!(mesh_a.opaque.indices.len(), 32 * 6);
    assert_eq!(mesh_a.opaque.vertices, mesh_b.opaque.vertices, "variant pick must be deterministic");
}

#[test]
fn cross_plants_land_in_cutout_layer() {
    let fx = fixture();
    let mut world = World::new([8, 8, 8]);
    let grass = fx.registry.block_id("short_grass").unwrap();
    world.set(4, 1, 4, grass, 0);
    let mesh = mesh(&fx, &world, [145, 189, 89, 255]);
    // tinted_cross is double-sided: 2 planes x 2 faces = 4 quads = 16 verts.
    assert_eq!(mesh.cutout.vertices.len(), 16, "double-sided cross = 4 quads");
    assert_eq!(mesh.opaque.vertices.len(), 0, "plants never land on the opaque layer");
    // Cross quads carry the plains tint.
    assert!(mesh.cutout.vertices.iter().any(|v| v.tint != 0xFFFFFFFF));
}

#[test]
fn glass_goes_cutout_and_neighbors_stay_visible() {
    let fx = fixture();
    let mut world = World::new([8, 8, 8]);
    let glass = fx.registry.block_id("glass").unwrap();
    let stone = fx.registry.block_id("stone").unwrap();
    // Stone under a 2x1 glass roof: stone top must NOT be culled by glass.
    world.set(2, 1, 2, stone, 0);
    world.set(3, 1, 2, stone, 0);
    world.set(2, 2, 2, glass, 0);
    world.set(3, 2, 2, glass, 0);
    let mesh = mesh(&fx, &world, WHITE);
    // Two stones, fully exposed except the shared stone-stone interface
    // (culls BOTH faces: 12 - 2 = 10 quads); glass never occludes them.
    assert_eq!(mesh.opaque.vertices.len(), 40, "stone faces must survive under glass (10 quads)");
    // The model sets `force_translucent`, so the pack itself demands the
    // alpha-blended layer.
    assert_eq!(mesh.translucent.vertices.len(), 32, "glass renders on its pack-declared layer (8 quads)");
    assert_eq!(mesh.cutout.vertices.len(), 0, "no cutout quads in this scene");
}

#[test]
fn water_renders_engine_fluid_on_translucent_layer() {
    let fx = fixture();
    let mut world = World::new([8, 8, 8]);
    let water = fx.registry.block_id("water").unwrap();
    world.set(4, 4, 4, water, 0);
    let m = mesh(&fx, &world, WHITE);
    assert_eq!(m.translucent.vertices.len(), 24, "still water cube = 6 quads");
    assert!(m.translucent.vertices.iter().any(|v| v.anim_id > 0), "water carries an anim slot");
    // Surface sits at 14/16 above the block origin (y=4).
    let max_y = m.translucent.vertices.iter().map(|v| pos(v)[1]).fold(f32::NEG_INFINITY, f32::max);
    assert!((max_y - (4.0 + 14.0 / 16.0)).abs() < 1e-5, "water surface at 14/16, got {max_y}");
    // Fully surrounded water has no faces at all.
    let mut w2 = World::new([8, 8, 8]);
    for x in 0..8 {
        for y in 0..8 {
            for z in 0..8 {
                w2.set(x, y, z, water, 0);
            }
        }
    }
    let m2 = mesh(&fx, &w2, WHITE);
    assert_eq!(m2.translucent.vertices.len(), 0, "buried water culls entirely");
}

#[test]
fn rotated_log_axis_lands_end_caps_on_x_and_z() {
    let fx = fixture();
    let log = fx.registry.block("oak_log").unwrap();
    let dirs_of = |state: u32| -> Vec<u8> {
        let s = log.state(state).unwrap();
        let CompiledAppearance::Static(m) = &s.appearance else {
            panic!("static");
        };
        let model = fx.registry.model(m[0].model).unwrap();
        let mut dirs: Vec<u8> = model.quads.iter().map(|q| q.dir as u8).collect();
        dirs.sort();
        dirs
    };
    // Schema order is axis=x, axis=y, axis=z (state 0,1,2).
    let y_state = dirs_of(1);
    assert_eq!(y_state, [0, 1, 2, 3, 4, 5], "axis=y keeps all six dirs distinct");
    let x_state = dirs_of(0);
    assert_eq!(x_state, [0, 1, 2, 3, 4, 5], "axis=x still has six distinct dirs");
}

#[test]
fn log_ends_follow_the_axis() {
    let fx = fixture();
    let top = fx.registry.sprite_id_by_name("minecraft", "block/oak_log_top").unwrap();
    let ends = |state: u32| -> Vec<Direction> {
        let m = fx.registry.model_of("oak_log", state).unwrap();
        m.quads.iter().filter(|q| q.sprite == top).map(|q| q.dir).collect()
    };
    assert_eq!(ends(1), [Direction::Down, Direction::Up]);
    for d in ends(0) {
        assert!(d == Direction::West || d == Direction::East);
    }
    for d in ends(2) {
        assert!(d == Direction::North || d == Direction::South);
    }
    // Turned models say by how much their geometry is still to be turned.
    let turn = fx.registry.model_of("oak_log", 0).unwrap().turn.unwrap();
    assert_eq!((turn.x.whole, turn.y.whole), (90, 90));
    assert!(fx.registry.model_of("oak_log", 1).unwrap().turn.is_none());
}

fn p(k: &str, v: &str) -> (String, String) {
    (k.to_string(), v.to_string())
}

#[test]
fn states_pack_and_unpack() {
    let fx = fixture();
    let wire = fx.registry.block("redstone_wire").unwrap();
    for id in 0..81u32 {
        let props = wire.unpack_state(id);
        assert_eq!(props.len(), 4);
        assert_eq!(wire.pack_state(&props), id);
    }
    let rail = fx.registry.block("rail").unwrap();
    let id = rail.pack_state(&[p("shape", "north_south")]);
    assert_eq!(rail.unpack_state(id), [p("shape", "north_south")]);
    assert_eq!(rail.pack_state(&[]), 0);
    assert_eq!(rail.pack_state(&[p("shape", "nowhere")]), 0);
    assert!(rail.state(10).is_none());
}

#[test]
fn multipart_shows_every_matching_part() {
    let fx = fixture();
    let wire = fx.registry.block("redstone_wire").unwrap();
    let shown = |props: &[(String, String)]| -> usize {
        let id = wire.pack_state(props);
        let CompiledAppearance::Multipart(parts) = &wire.state(id).unwrap().appearance else {
            panic!("multipart");
        };
        resolve_appearance(AppearanceRef::Multipart(parts), &wire.unpack_state(id), 7).len()
    };
    let all = |v: [&str; 4]| {
        [p("north", v[0]), p("east", v[1]), p("south", v[2]), p("west", v[3])]
    };
    assert_eq!(shown(&all(["none", "none", "none", "none"])), 1);
    assert_eq!(shown(&all(["side", "none", "none", "none"])), 1);
    assert_eq!(shown(&all(["side", "side", "none", "none"])), 3);
    assert_eq!(shown(&all(["up", "none", "side", "none"])), 3);
    assert_eq!(shown(&all(["up", "up", "up", "up"])), 9);
}

#[test]
fn compilation_fails_by_name() {
    let mut states = raw_blockstates();
    let at = states.names.iter().position(|n| n.1 == "vine").unwrap();
    states.names.remove(at);
    states.states.remove(at);
    let err = compile_pack(&store(), &raw_models(), &states, true).unwrap_err();
    assert_eq!(err.path, "blockstates");
    assert_eq!(err.message, "required block `vine` failed to compile");
    assert_eq!(err.describe(), "blockstates: required block `vine` failed to compile");
}

#[test]
fn blocks_without_any_form_are_skipped() {
    let mut states = raw_blockstates();
    states.insert("minecraft", "odd", RawBlockstate { variants: None, multipart: None });
    let (pack, _, stats) = compile_pack(&store(), &raw_models(), &states, false).unwrap();
    assert_eq!(stats.skipped_blocks, 1);
    assert_eq!(pack.blocks.len(), 10);
    // Required blocks alone are looked at when only they are asked for.
    let (_, _, stats) = compile_pack(&store(), &raw_models(), &states, true).unwrap();
    assert_eq!(stats.skipped_blocks, 0);
}

#[test]
fn blocks_with_unresolved_references_are_skipped() {
    let gone = || variant("minecraft:block/gone", 0.0, 0.0);
    let there = || variant("minecraft:block/stone", 0.0, 0.0);
    let mut states = raw_blockstates();
    states.insert("minecraft", "foo", variants(vec![one("", gone())]));
    // One bad reference is enough.
    states.insert(
        "minecraft",
        "half",
        variants(vec![one("lit=true", there()), one("lit=false", gone())]),
    );
    states.insert(
        "minecraft",
        "parts",
        RawBlockstate { variants: None, multipart: Some(vec![part("", there()), part("", gone())]) },
    );
    states.insert("minecraft", "fine", variants(vec![one("", there())]));
    let (pack, _, stats) = compile_pack(&store(), &raw_models(), &states, false).unwrap();
    assert_eq!(stats.skipped_blocks, 3);
    assert_eq!(pack.blocks.len(), 11);
    for name in ["foo", "half", "parts"] {
        assert!(pack.blocks.iter().all(|b| b.name != name), "{name}");
    }
    block(&pack, "fine");
    let mut table = ModelTable::new();
    let err =
        compile_variants(&variants(vec![one("", gone())]), "minecraft", &raw_models(), &mut table)
            .unwrap_err();
    assert_eq!(err.describe(), "blockstate: unresolved model reference");
    // A required block may not be missing.
    let mut states = raw_blockstates();
    states.insert("minecraft", "torch", variants(vec![one("", gone())]));
    let err = compile_pack(&store(), &raw_models(), &states, false).unwrap_err();
    assert_eq!(err.message, "required block `torch` failed to compile");
}

#[test]
fn states_without_geometry_hide_nothing() {
    let mut states = raw_blockstates();
    let stone = || variant("minecraft:block/stone", 0.0, 0.0);
    states.insert(
        "minecraft",
        "shell",
        RawBlockstate {
            variants: None,
            multipart: Some(vec![
                part(r#"{"on":"true","other":"x"}"#, stone()),
                part(r#"{"AND":[{"other":"y"},{"other":"x"}]}"#, stone()),
            ]),
        },
    );
    let (pack, _, _) = compile_pack(&store(), &raw_models(), &states, false).unwrap();
    let b = block(&pack, "shell");
    // The property `on` is seen with one value, and `other` with two.
    let all: Vec<_> = b.states.iter().map(|s| (s.occlusion, s.same_block_cull)).collect();
    assert!(all.contains(&(Occlusion::Full, false)));
    assert!(all.contains(&(Occlusion::Never, false)));
    assert_eq!(all.len(), 2);
    // No part of a vine applies to the state without any side.
    let vine = block(&pack, "vine");
    assert!(vine.states.iter().all(|s| s.occlusion == Occlusion::Never && !s.same_block_cull));
}

#[test]
fn particles_follow_their_variable() {
    let mut raws = RawModels::new();
    let textures = [("particle", "#side"), ("end", "block/b"), ("side", "block/a")];
    raws.insert("minecraft", "m", model(None, &textures, None));
    let lost = [("particle", "#none"), ("side", "block/a"), ("end", "block/b")];
    raws.insert("minecraft", "lost", model(None, &lost, None));
    let around = [("particle", "#one"), ("one", "#two"), ("two", "#one"), ("end", "block/b")];
    raws.insert("minecraft", "around", model(None, &around, None));
    let mut names = SpriteInterner::new();
    let mut particle = |path: &str| compile("minecraft", path, &raws, &mut names).unwrap().particle.1;
    assert_eq!(particle("m"), "block/a");
    assert_eq!(particle("lost"), "block/a");
    assert_eq!(particle("around"), "block/b");
}

#[test]
fn meshes_without_vertices_need_no_world() {
    let world = World::new([0, 0, 0]);
    let fx = fixture();
    let plain = mesh(&fx, &world, WHITE);
    let grid = LightGrid::compute(&world, &fx.registry);
    let places =
        MeshPlaces { opaque: Vec::new(), cutout: Vec::new(), translucent: Vec::new() };
    let lit = build_lighting_meshes(plain, &places, &grid, [0, 0, 0]);
    assert!(lit.opaque.vertices.is_empty() && lit.opaque.indices.is_empty());
}

#[test]
fn quads_keep_their_cells_apart() {
    let fx = fixture();
    let stone = fx.registry.block_id("stone").unwrap();
    let mut world = World::new([8, 8, 8]);
    world.set(2, 3, 5, stone, 0);
    let m = mesh(&fx, &world, WHITE);
    for v in &m.opaque.vertices {
        assert_eq!(v.cell, [2, 3, 5]);
        for (k, x) in pos(v).iter().enumerate() {
            let lo = v.cell[k] as f32;
            assert!(*x == lo || *x == lo + 1.0);
        }
    }
    // Two triangles per quad.
    for (q, i) in m.opaque.indices.chunks(6).enumerate() {
        let b = q as u32 * 4;
        assert_eq!(i, [b, b + 1, b + 2, b, b + 2, b + 3]);
    }
}

#[test]
fn tinted_faces_take_the_policy() {
    let fx = fixture();
    let grass = fx.registry.block_id("grass_block").unwrap();
    let mut world = World::new([4, 4, 4]);
    world.set(1, 1, 1, grass, 0);
    assert!(atlas_fits(&fx.atlas));
    let m = build_meshes(&world, &fx.registry, &fx.atlas);
    let packed = u32::from_le_bytes(PLAINS_TINT);
    let tints: std::collections::HashSet<u32> = m
        .opaque
        .vertices
        .iter()
        .chain(m.cutout.vertices.iter())
        .map(|v| v.tint)
        .collect();
    assert_eq!(tints, [0xFFFF_FFFFu32, packed].into_iter().collect());
}

#[test]
fn light_reaches_the_vertices() {
    let fx = fixture();
    let stone = fx.registry.block_id("stone").unwrap();
    let mut world = World::new([4, 4, 4]);
    world.set(1, 1, 1, stone, 0);
    let grid = LightGrid::compute(&world, &fx.registry);
    let m = mesh(&fx, &world, WHITE);
    let place = |v: &Vertex| pos(v).map(|x| x.floor() as i64);
    let places = MeshPlaces {
        opaque: m.opaque.vertices.iter().map(place).collect(),
        cutout: m.cutout.vertices.iter().map(place).collect(),
        translucent: m.translucent.vertices.iter().map(place).collect(),
    };
    let lit = build_lighting_meshes(m, &places, &grid, [4, 4, 4]);
    assert!(lit.opaque.vertices.iter().any(|v| v.light[0] == 15));
    // The one corner that lies in the stone itself is dark.
    for v in &lit.opaque.vertices {
        if place(v) == [1, 1, 1] {
            assert_eq!(v.light, grid.get(1, 1, 1).unwrap());
        } else {
            assert_eq!(v.light[0], 15);
        }
    }
}

#[test]
fn animation_slots_follow_the_clock() {
    let fx = fixture();
    let slots = build_anim_slots(&fx.registry, &fx.atlas);
    assert_eq!(slots.len(), 1);
    let e = fx.atlas.get("minecraft", "block/water_still").unwrap();
    assert_eq!(slots[0].frame_stride, e.frame_stride);
    assert_eq!(slots[0].strip_frames, 32);
    assert_eq!(slots[0].frametime, 2);
    let row = |tick: u64| animation_steps(&slots, tick)[1].unwrap().row;
    assert_eq!([row(0), row(1), row(2), row(63), row(64)], [0, 0, 1, 31, 0]);
    assert_eq!(animation_steps(&slots, 5).len(), 64);
    assert!(animation_steps(&slots, 5)[0].is_none());
    assert!(animation_steps(&slots, 5)[2].is_none());
}

#[test]
fn the_scene_passes_its_own_validation() {
    let fx = fixture();
    let heights: Vec<F32> = fx
        .registry
        .model_of("rail", 0)
        .unwrap()
        .quads
        .iter()
        .map(|q| f(value(q.bounds[4]) - value(q.bounds[1])))
        .collect();
    let report = validate(&fx.registry, &fx.atlas, &store(), &heights).unwrap();
    for (name, ok, detail) in &report.lines {
        println!("{ok} {name}: {detail}");
    }
    assert_eq!(report.failures(), 0);
    assert_eq!(report.lines.len(), 11);
}

#[test]
fn the_validation_world_names_its_blocks() {
    let fx = fixture();
    let ids = scene_ids(&fx.registry).unwrap();
    assert_eq!(ids.stone, fx.registry.block_id("stone").unwrap());
    let world = build_validation_world(&ids);
    assert_eq!(world.size, [32, 16, 32]);
    let mut seen = std::collections::HashSet::new();
    for b in &world.blocks {
        seen.insert(*b);
    }
    for name in REQUIRED_BLOCKS {
        assert!(seen.contains(&fx.registry.block_id(name).unwrap()), "{name} is in the scene");
    }
    let bare = Registry::from_names_for_tests(&["stone"]);
    assert!(scene_ids(&bare).is_err());
}

#[test]
fn colormaps_are_sampled_by_pixel() {
    let store = store();
    let tints = TintSystem::load(&store);
    let map = tints.grass.as_ref().unwrap();
    let source = &store.get("minecraft", "colormap/grass").unwrap().tex;
    assert_eq!((map.width, map.height, &map.rgba), (source.width, source.height, &source.rgba));
    assert_eq!(map.meta, source.meta);
    assert_eq!(tints.sample(Colormap::Grass, 3, 250), TintColor([3, 250, 3 ^ 250]));
    assert_eq!(tints.plains_grass(), TintColor([50, 173, 50 ^ 173]));
    assert!(assert_tint_candidate(&store, "minecraft", "block/grass_block_top").unwrap());
    assert!(!assert_tint_candidate(&store, "minecraft", "block/stone").unwrap());
    assert!(assert_tint_candidate(&store, "minecraft", "block/none").is_err());
}

#[test]
fn schemas_come_from_keys_and_conditions() {
    let states = raw_blockstates();
    let of = |name: &str| {
        let i = states.names.iter().position(|n| n.1 == name).unwrap();
        extract_schema(&states.states[i]).properties
    };
    let words = |v: &[&str]| v.iter().map(|s| s.to_string()).collect::<Vec<String>>();
    assert_eq!(of("oak_log"), [("axis".to_string(), words(&["x", "y", "z"]))]);
    let wire = of("redstone_wire");
    let names: Vec<&str> = wire.iter().map(|p| p.0.as_str()).collect();
    assert_eq!(names, ["east", "north", "south", "west"]);
    assert_eq!(wire[0].1, words(&["none", "side", "up"]));
    assert!(of("stone").is_empty());
}

#[test]
fn appearances_keep_declaration_order() {
    let states = raw_blockstates();
    let at = |name: &str| {
        let i = states.names.iter().position(|n| n.1 == name).unwrap();
        &states.states[i]
    };
    let raws = raw_models();
    let mut table = ModelTable::new();
    let StateAppearance::Variants(v) =
        compile_variants(at("oak_log"), "minecraft", &raws, &mut table).unwrap()
    else {
        panic!("variants");
    };
    assert_eq!(v.len(), 3);
    assert!(v[0].when.matches(&[p("axis", "x")]));
    assert!(!v[0].when.matches(&[p("axis", "y")]));
    assert_eq!(table.models.len(), 2);
    let StateAppearance::Static(pool) =
        compile_variants(at("stone"), "minecraft", &raws, &mut table).unwrap()
    else {
        panic!("static");
    };
    assert_eq!(pool.len(), 4);
    assert!(compile_variants(at("vine"), "minecraft", &raws, &mut table).is_err());
    let vines =
        compile_multipart(at("vine"), "minecraft", &raws, &mut table).unwrap();
    assert_eq!(resolve_state(&vines, &[p("north", "true"), p("east", "true")]).len(), 2);
    assert!(compile_multipart(at("stone"), "minecraft", &raws, &mut table).is_err());
}

#[test]
fn only_whole_cubes_occlude() {
    let mut names = SpriteInterner::new();
    let raws = raw_models();
    let class = |path: &str, names: &mut SpriteInterner| {
        classify_occlusion(&compile("minecraft", path, &raws, names).unwrap().quads)
    };
    assert_eq!(class("block/stone", &mut names), Occlusion::Full);
    assert_eq!(class("block/torch", &mut names), Occlusion::Never);
    assert_eq!(class("block/grass_block", &mut names), Occlusion::Never);
    assert_eq!(class("block/water", &mut names), Occlusion::Never);

    let quads = compile("minecraft", "block/stone", &raws, &mut names).unwrap().quads;
    assert_eq!(classify_occlusion(&quads), Occlusion::Full);
    assert_eq!(classify_occlusion(&quads[..5]), Occlusion::Never);
    // The box as a whole, and one of half its height.
    let boxed = |h: f32| -> Vec<FaceQuad> {
        let bounds = [f(0.0), f(0.0), f(0.0), f(16.0), f(h), f(16.0)];
        quads
            .iter()
            .map(|q| FaceQuad { bounds, corners: face_corners(q.dir, bounds), ..*q })
            .collect()
    };
    assert_eq!(classify_occlusion(&boxed(16.0)), Occlusion::Full);
    assert_eq!(classify_occlusion(&boxed(8.0)), Occlusion::Never);
    // Each face is culled by the neighbor that it looks at.
    let mut open = boxed(16.0);
    open[2].cull = None;
    assert_eq!(classify_occlusion(&open), Occlusion::Never);
    let mut crossed = boxed(16.0);
    crossed[2].cull = Some(crossed[3].dir);
    assert_eq!(classify_occlusion(&crossed), Occlusion::Never);
}

#[test]
fn turned_quads_face_elsewhere() {
    let mut names = SpriteInterner::new();
    let cube = compile("minecraft", "block/stone", &raw_models(), &mut names).unwrap();
    let rot = VariantRot { x: angle(90.0), y: angle(0.0), uvlock: false };
    for q in &cube.quads {
        let t = apply_variant_rotation(q, &rot);
        let want = match q.dir {
            Direction::Up => Direction::North,
            Direction::North => Direction::Down,
            Direction::Down => Direction::South,
            Direction::South => Direction::Up,
            other => other,
        };
        assert_eq!(t.dir, want);
        assert_eq!(t.cull, Some(want));
    }
}

#[test]
fn animated_sprites_have_slots() {
    let (pack, _, _) = compiled();
    let id = pack.sprite_id("minecraft", "block/water_still").unwrap();
    assert!(pack.sprite_id("minecraft", "block/none").is_none());
    let registry = Registry::from_compiled(pack);
    assert_eq!(registry.anim_slot(id), Some(1));
    assert_eq!(registry.anim_frames(id), Some(32));
    let stone = registry.sprite_id_by_name("minecraft", "block/stone").unwrap();
    assert_eq!(registry.anim_slot(stone), None);
    assert_eq!(registry.anim_frames(stone), None);
    let shade: Vec<f32> = registry.face_shade().iter().map(|x| value(*x)).collect();
    assert_eq!(shade, [1.0, 0.5, 0.8, 0.8, 0.6, 0.6]);
}

#[test]
fn missing_colormaps_have_plain_colors() {
    let tints = TintSystem::load(&SpriteStore::from_sprites(Vec::new()));
    assert_eq!(tints.plains_grass(), TintColor([145, 189, 89]));
    assert_eq!(tints.plains_foliage(), TintColor([119, 171, 47]));
    assert_eq!(tints.plains_dry_foliage(), TintColor([169, 146, 82]));
}

#[test]
fn pools_are_picked_by_weight() {
    let one = |model: u32, weight: u32| ModelInstance {
        model: ModelId(model),
        rot: VariantRot { x: angle(0.0), y: angle(0.0), uvlock: false },
        weight,
    };
    let pool = [one(1, 1), one(2, 3)];
    let picked: Vec<u32> = (0..8)
        .map(|rng| resolve_appearance(AppearanceRef::Static(&pool), &[], rng)[0].model.0)
        .collect();
    assert_eq!(picked, [1, 2, 2, 2, 1, 2, 2, 2]);
}
