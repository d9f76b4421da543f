//! Import, validation, version detection and switching of resource packs.
//! Archives are made in memory; directories are given by their listings.

use feathered::library::{
    check_archive, finish_zip, folder_record_name, import_folder, is_stale, list_packs,
    record_place, scan_step, PackFiles, RecordPlace, ScanStep,
};
use feathered::managers::{Removal, ResourcePackManager};
use feathered::naming::{display_name, hash_hex, new_pack_dir, pack_id, slug_of};
use feathered::pack::{
    discover, holds_assets, is_pack_marker, read_pack_description, FoundPack, PackFile, PackRoot,
};
use feathered::paths::is_within;
use feathered::resource::{
    entry_target, pack_format_to_version, parse_mcmeta_text, sanitize_entry, strip_section_codes,
    top_level_dir, validate_entries, validate_folder, ArchiveEntry, EntryTarget, FolderListing,
    ImportError, ImportReport, PackKind, ResourcePack,
};
use feathered::settings::{load_or_create, PackSettings, Quality};
use std::io::{Cursor, Read, Write};

const MCMETA_26_3: &str =
    r#"{"pack":{"pack_format":97,"description":"Feathered test pack"}}"#;
const MCMETA_1_21: &str =
    r#"{"pack":{"pack_format":61,"description":["Chapter ",{"text":"one","color":"red"}]}}"#;

/// A directory tree: paths of files with their bytes.
type Tree = Vec<(String, Vec<u8>)>;

fn pack_tree(mcmeta: &str) -> Tree {
    vec![
        ("pack.mcmeta".to_string(), mcmeta.as_bytes().to_vec()),
        (
            "assets/minecraft/blockstates/stone.json".to_string(),
            br#"{"variants":{"":{"model":"minecraft:block/stone"}}}"#.to_vec(),
        ),
        ("assets/minecraft/textures/block/stone.png".to_string(), b"\x89PNG fake".to_vec()),
    ]
}

fn has_file(tree: &Tree, path: &str) -> bool {
    tree.iter().any(|f| f.0 == path)
}

/// The entries of a directory of a tree, each with whether it is a directory.
fn entries_of(tree: &Tree, dir: &str) -> Vec<(String, bool)> {
    let mut out: Vec<(String, bool)> = Vec::new();
    for (path, _) in tree {
        let rest = if dir.is_empty() {
            path.as_str()
        } else if let Some(r) = path.strip_prefix(&format!("{dir}/")) {
            r
        } else {
            continue;
        };
        let (name, is_dir) = match rest.split_once('/') {
            Some((head, _)) => (head, true),
            None => (rest, false),
        };
        if !out.iter().any(|e| e.0 == name) {
            out.push((name.to_string(), is_dir));
        }
    }
    out
}

fn listing(tree: &Tree) -> FolderListing {
    let text = tree
        .iter()
        .find(|f| f.0 == "pack.mcmeta")
        .map(|f| String::from_utf8(f.1.clone()).unwrap());
    let has_assets = entries_of(tree, "").iter().any(|e| e.0 == "assets" && e.1);
    FolderListing {
        is_dir: true,
        has_mcmeta: has_file(tree, "pack.mcmeta"),
        mcmeta: text,
        assets: if has_assets { Some(entries_of(tree, "assets")) } else { None },
        entries: entries_of(tree, ""),
    }
}

/// A directory that is not there.
fn gone() -> FolderListing {
    FolderListing {
        is_dir: false,
        has_mcmeta: false,
        mcmeta: None,
        assets: None,
        entries: Vec::new(),
    }
}

fn files(dir: &str, tree: &Tree) -> PackFiles {
    let bytes = tree.iter().find(|f| f.0 == "pack.mcmeta").map(|f| f.1.clone());
    PackFiles {
        dir: dir.to_string(),
        dir_name: dir.rsplit('/').next().unwrap().to_string(),
        has_mcmeta: bytes.is_some(),
        mcmeta: bytes.clone().map(|b| String::from_utf8(b).unwrap()),
        bytes: bytes.unwrap_or_default(),
    }
}

fn names_on(dir: &str) -> Vec<String> {
    dir.split('/').filter(|s| !s.is_empty()).rev().map(|s| s.to_string()).collect()
}

fn import(dir: &str, tree: &Tree) -> Result<ImportReport, ImportError> {
    import_folder(dir, &listing(tree), &names_on(dir), &files(dir, tree))
}

fn make_zip(add: &[(&str, &[u8])]) -> Vec<u8> {
    let mut zip = zip::ZipWriter::new(Cursor::new(Vec::new()));
    let opts: zip::write::SimpleFileOptions = Default::default();
    for (name, bytes) in add {
        zip.start_file(*name, opts).unwrap();
        zip.write_all(bytes).unwrap();
    }
    zip.finish().unwrap().into_inner()
}

fn zip_entries(name: &str, mcmeta: &str) -> Vec<(String, Vec<u8>)> {
    pack_tree(mcmeta).into_iter().map(|(p, b)| (format!("{name}/{p}"), b)).collect()
}

fn entries_in(bytes: &[u8]) -> Vec<ArchiveEntry> {
    let mut archive = zip::ZipArchive::new(Cursor::new(bytes)).unwrap();
    let mut out = Vec::new();
    for i in 0..archive.len() {
        let entry = archive.by_index(i).unwrap();
        out.push(ArchiveEntry { name: entry.name().to_string(), is_dir: entry.is_dir() });
    }
    out
}

/// Imports an archive into a tree of its own.
fn import_zip(file_name: &str, bytes: &[u8]) -> Result<(ImportReport, Tree), ImportError> {
    let entries = entries_in(bytes);
    let verdict = check_archive(&entries, file_name)?;
    let top = top_level_dir(&entries);
    let dir = format!("data/packs/{}", new_pack_dir(file_name, &[0; 16]));
    let mut tree: Tree = Vec::new();
    let mut copied = 0u64;
    let mut archive = zip::ZipArchive::new(Cursor::new(bytes)).unwrap();
    for i in 0..archive.len() {
        let mut entry = archive.by_index(i).unwrap();
        if entry.is_dir() {
            continue;
        }
        let enclosed = entry.enclosed_name().map(|p| p.to_str().unwrap().to_string());
        match entry_target(top.as_deref(), enclosed.as_deref()) {
            EntryTarget::Skip => {}
            EntryTarget::Unsafe => {
                return Err(ImportError::UnsafePath(
                    file_name.to_string(),
                    entry.name().to_string(),
                ));
            }
            EntryTarget::Write(path) => {
                let mut content = Vec::new();
                entry.read_to_end(&mut content).unwrap();
                tree.push((path, content));
                copied += 1;
            }
        }
    }
    let report = finish_zip(Some(file_name), file_name, &files(&dir, &tree), verdict, copied)?;
    Ok((report, tree))
}

fn as_refs(entries: &[(String, Vec<u8>)]) -> Vec<(&str, &[u8])> {
    entries.iter().map(|(n, b)| (n.as_str(), b.as_slice())).collect()
}

#[test]
fn mcmeta_parse_and_version_detection() {
    let m = parse_mcmeta_text(MCMETA_26_3).unwrap();
    assert_eq!(m.pack_format, Some(97));
    assert_eq!(m.description.as_deref(), Some("Feathered test pack"));
    assert_eq!(pack_format_to_version(97), Some("26.3"));
    assert_eq!(pack_format_to_version(61), Some("1.21"));
    assert_eq!(pack_format_to_version(9999), None);

    let m2 = parse_mcmeta_text(MCMETA_1_21).unwrap();
    assert_eq!(m2.pack_format, Some(61));
    // JSON text components flatten to plain text.
    assert_eq!(m2.description.as_deref(), Some("Chapter one"));
}

#[test]
fn supported_formats_range_is_parsed() {
    let m = parse_mcmeta_text(
        r#"{"pack":{"pack_format":46,"supported_formats":{"min_inclusive":40,"max_inclusive":999},"description":"x"}}"#,
    )
    .unwrap();
    assert_eq!(m.pack_format, Some(46));
    assert_eq!(m.supported_formats, Some((40, 999)));
}

#[test]
fn import_folder_validates_and_references_in_place() {
    let src = "/tmp/CoolPack";
    let tree = pack_tree(MCMETA_26_3);
    let report = import(src, &tree).unwrap();

    assert_eq!(report.pack.name, "CoolPack");
    assert_eq!(report.pack.pack_format, Some(97));
    assert_eq!(report.pack.detected_version.as_deref(), Some("26.3"));
    assert_eq!(report.pack.kind, PackKind::Folder);
    assert_eq!(report.files_copied, 0, "folders must not be copied");
    assert_eq!(report.pack.dir, src);
    // The record lives in the data directory.
    let mgr = ResourcePackManager::open_at("/tmp/data");
    let record = mgr.record_path(&report.pack);
    assert!(record.starts_with("/tmp/data/packs/"));
    assert!(record.ends_with(".folder.json"));

    let id = report.pack.id.clone();
    let listed = list_packs(vec![(report.pack, listing(&tree))]);
    assert_eq!(listed.len(), 1);
    assert_eq!(listed[0].id, id);
}

#[test]
fn import_rejects_directory_without_mcmeta() {
    let tree: Tree = vec![("assets/minecraft/x".to_string(), Vec::new())];
    match import("/tmp/notapack", &tree) {
        Err(ImportError::NotAPack(_)) => {}
        other => panic!("expected NotAPack, got {other:?}"),
    }
}

#[test]
fn import_rejects_missing_directory() {
    let none: Tree = Vec::new();
    assert!(matches!(
        import_folder("/tmp/nope", &gone(), &names_on("/tmp/nope"), &files("/tmp/nope", &none)),
        Err(ImportError::NotFound(_))
    ));
}

#[test]
fn import_zip_extracts_and_validates() {
    let entries = zip_entries("MyPack", MCMETA_26_3);
    let bytes = make_zip(&as_refs(&entries));
    let (report, tree) = import_zip("MyPack.zip", &bytes).unwrap();
    assert_eq!(report.pack.kind, PackKind::Zip);
    assert_eq!(report.pack.name, "MyPack");
    assert_eq!(report.pack.pack_format, Some(97));
    assert!(report.files_copied >= 3);
    // The wrapper folder was stripped.
    assert!(has_file(&tree, "pack.mcmeta"));
    assert!(has_file(&tree, "assets/minecraft/blockstates/stone.json"));

    let id = report.pack.id.clone();
    let listed = list_packs(vec![(report.pack, listing(&tree))]);
    assert_eq!(listed.len(), 1);
    assert_eq!(listed[0].id, id);
}

#[test]
fn import_zip_without_wrapper_folder_works() {
    let bytes = make_zip(&[
        ("pack.mcmeta", MCMETA_26_3.as_bytes()),
        ("assets/minecraft/textures/block/x.png", b"x"),
    ]);
    let (_, tree) = import_zip("Flat.zip", &bytes).unwrap();
    assert!(has_file(&tree, "pack.mcmeta"));
}

#[test]
fn import_zip_rejects_non_pack_archive() {
    let bytes = make_zip(&[("docs/readme.txt", b"hello")]);
    assert!(matches!(import_zip("Random.zip", &bytes), Err(ImportError::NotAPack(_))));
}

#[test]
fn import_zip_blocks_zip_slip() {
    let bytes = make_zip(&[
        ("pack.mcmeta", MCMETA_26_3.as_bytes()),
        ("assets/minecraft/x.png", b"x"),
        ("../evil.txt", b"gotcha"),
    ]);
    match import_zip("Evil.zip", &bytes) {
        Err(ImportError::UnsafePath(_, name)) => assert!(name.contains("..")),
        other => panic!("expected UnsafePath, got {other:?}"),
    }
}

#[test]
fn list_skips_and_prunes_stale_folder_packs() {
    let tree = pack_tree(MCMETA_26_3);
    let report = import("/tmp/GonePack", &tree).unwrap();
    let record = folder_record_name(&report.pack.id);
    assert_eq!(record_place(&record, false), RecordPlace::Itself);
    let again = import("/tmp/GonePack", &tree).unwrap();
    assert_eq!(list_packs(vec![(report.pack, listing(&tree))]).len(), 1);

    // The referenced folder disappears: it is not listed, and its record goes.
    assert!(list_packs(vec![(again.pack, gone())]).is_empty());
    assert!(is_stale(&record, false));
    assert!(!is_stale(&record, true));
}

#[test]
fn uninstall_zip_removes_extracted_copy_but_never_original() {
    let entries = zip_entries("Del", MCMETA_26_3);
    let bytes = make_zip(&as_refs(&entries));
    let (report, _) = import_zip("Del.zip", &bytes).unwrap();
    let mgr = ResourcePackManager::open_at("data");
    match mgr.uninstall(&report.pack) {
        Removal::Directory(p) => {
            assert_eq!(p, report.pack.dir);
            assert!(p.starts_with("data/packs/"));
        }
        Removal::Record(_) => panic!("the extracted copy must go"),
    }
    // A folder is never removed, only its record.
    let folder = import("/home/me/Mine", &pack_tree(MCMETA_26_3)).unwrap();
    match mgr.uninstall(&folder.pack) {
        Removal::Record(p) => assert_eq!(p, format!("data/packs/{}.folder.json", folder.pack.id)),
        Removal::Directory(_) => panic!("the user's folder must stay"),
    }
}

#[test]
fn pack_switching_persists_across_instances() {
    let ra = import("/tmp/Alpha", &pack_tree(MCMETA_26_3)).unwrap().pack;
    let rb = import("/tmp/Beta", &pack_tree(MCMETA_1_21)).unwrap().pack;

    let mut settings = PackSettings::default();
    settings.use_pack(&ra.id, ra.pack_format);
    assert_eq!(settings.active_pack.as_deref(), Some(ra.id.as_str()));

    // Switch.
    settings.use_pack(&rb.id, rb.pack_format);
    let (settings, written) = load_or_create(Some(settings));
    assert!(!written);
    assert_eq!(settings.active_pack.as_deref(), Some(rb.id.as_str()));
    assert_eq!(settings.pack_format, Some(61));
    let id = rb.id.clone();
    let listed = list_packs(vec![
        (rb, listing(&pack_tree(MCMETA_1_21))),
        (ra, listing(&pack_tree(MCMETA_26_3))),
    ]);
    assert_eq!(listed.len(), 2);
    assert!(listed.iter().any(|p| p.id == id));
    // By name.
    assert_eq!(listed[0].name, "Alpha");
    assert_eq!(listed[1].name, "Beta");
}

/// The packs of a tree, as a walk over it finds them.
fn found(root: &str, tree: &Tree) -> Vec<FoundPack> {
    let under = if holds_assets(&entries_of(tree, "")) { "assets/" } else { "" };
    let mut list = Vec::new();
    for (path, _) in tree {
        let Some(rest) = path.strip_prefix(under) else { continue };
        let Some((namespace, relative)) = rest.split_once('/') else { continue };
        list.push(PackFile {
            namespace: namespace.to_string(),
            relative: relative.to_string(),
            path: format!("{root}/{path}"),
        });
    }
    let text = tree
        .iter()
        .find(|f| f.0 == "pack.mcmeta")
        .map(|f| String::from_utf8(f.1.clone()).unwrap());
    vec![FoundPack {
        pack: PackRoot {
            root: root.to_string(),
            description: text.and_then(|t| read_pack_description(&t)),
        },
        files: list,
    }]
}

#[test]
fn pack_index_discovery_compiles_and_caches() {
    let tree = pack_tree(MCMETA_26_3);
    let index = discover("/tmp/TinyPack", found("/tmp/TinyPack", &tree)).unwrap();
    assert_eq!(index.packs.len(), 1);
    assert!(
        index.get("minecraft", "blockstates/stone").is_some(),
        "discovery must index blockstates (namespace:path keys, extension stripped)"
    );
    assert!(index.get("minecraft", "textures/block/stone").is_some());

    // The fixture lacks the ten required blocks, so a full compile fails with
    // a clear, named error.
    let store = feathered::sprites::SpriteStore::from_sprites(Vec::new());
    let mut states = feathered::compiler::RawBlockstates::new();
    states.insert(
        "minecraft",
        "stone",
        feathered::blockstates::RawBlockstate { variants: Some(Vec::new()), multipart: None },
    );
    let err = match feathered::compiler::compile_pack(
        &store,
        &feathered::models_raw::RawModels::new(),
        &states,
        false,
    ) {
        Err(e) => e,
        Ok(_) => panic!("incomplete fixture pack must fail compilation"),
    };
    assert!(err.message.contains("required block"), "unexpected error: {}", err.describe());
}

#[test]
fn pack_discovery_finds_26_3() {
    let mut tree = pack_tree(r#"{"pack":{"pack_format":97,"description":"Default 26.3"}}"#);
    for i in 0..11_000u32 {
        tree.push((format!("assets/minecraft/{i}/file.json"), Vec::new()));
    }
    let index = discover("texture/assets", found("texture/assets", &tree)).unwrap();
    assert_eq!(index.packs.len(), 1);
    let desc = index.packs[0].description.clone().unwrap();
    assert!(desc.contains("26.3"), "unexpected description: {desc}");
    assert!(index.keys.len() > 11_000, "index: {}", index.keys.len());
}

#[test]
fn scan_imports_packs_from_a_resourcepacks_folder() {
    let folder = pack_tree(MCMETA_26_3);
    let entries = zip_entries("ZippedPack", MCMETA_26_3);
    let bytes = make_zip(&as_refs(&entries));
    let mut reports = Vec::new();
    // The entries of the scanned directory: name, directory, has metadata.
    for (name, is_dir, has_mcmeta) in
        [("FolderPack", true, true), ("ZippedPack.zip", false, false), ("notes.txt", false, false)]
    {
        match scan_step(name, is_dir, has_mcmeta) {
            ScanStep::ImportFolder => {
                reports.push((import("/rp/FolderPack", &folder).unwrap(), listing(&folder)));
            }
            ScanStep::ImportZip => {
                let (report, tree) = import_zip(name, &bytes).unwrap();
                reports.push((report, listing(&tree)));
            }
            ScanStep::Descend | ScanStep::Pass => {}
        }
    }
    assert_eq!(reports.len(), 2, "both folder and zip packs imported");
    let found: Vec<(ResourcePack, FolderListing)> =
        reports.into_iter().map(|(r, f)| (r.pack, f)).collect();
    assert!(list_packs(found).len() >= 2);
    assert_eq!(scan_step("sub", true, false), ScanStep::Descend);
    assert_eq!(scan_step("B.ZIP", false, false), ScanStep::ImportZip);
    assert_eq!(scan_step(".zip", false, false), ScanStep::Pass);
}

#[test]
fn is_within_rejects_escapes() {
    assert!(is_within("", "a/b/c"));
    assert!(is_within("", "a/../b"));
    assert!(!is_within("", "../a"));
    assert!(!is_within("", "a/../../b"));
    assert!(!is_within("", "/abs"));
}

#[test]
fn quality_presets_have_sane_scales() {
    let scale = |q: Quality| f32::from_bits(q.render_scale().bits);
    assert_eq!(scale(Quality::Low), 0.5);
    assert_eq!(scale(Quality::Medium), 1.0);
    assert!(!Quality::Medium.post_process());
    assert!(Quality::High.post_process());
    assert!(Quality::Ultra.post_process());
    assert_eq!(Quality::Ultra.next(), Quality::Low);
}

#[test]
fn corrupt_settings_become_defaults() {
    let (recovered, written) = load_or_create(None);
    assert!(written);
    assert_eq!(recovered, PackSettings::default());
    assert_eq!(recovered.quality, Quality::Medium);

    let mut s = PackSettings::default();
    s.active_pack = Some("abc".into());
    s.quality = Quality::High;
    s.onboarded = true;
    let (loaded, written) = load_or_create(Some(s));
    assert!(!written);
    assert_eq!(loaded.active_pack.as_deref(), Some("abc"));
    assert_eq!(loaded.quality, Quality::High);
}

#[test]
fn quality_goes_around_in_four_steps() {
    for q in [Quality::Low, Quality::Medium, Quality::High, Quality::Ultra] {
        assert_ne!(q.next(), q);
        assert_ne!(q.next().next(), q);
        assert_eq!(q.next().next().next().next(), q);
    }
}

#[test]
fn forgetting_a_pack_touches_only_the_selected_one() {
    let mut s = PackSettings::default();
    s.use_pack("a-1", Some(97));
    assert!(!s.forget_pack("b-2"));
    assert_eq!(s.active_pack.as_deref(), Some("a-1"));
    assert!(s.forget_pack("a-1"));
    assert_eq!(s.active_pack, None);
    assert!(s.onboarded);
}

#[test]
fn sanitized_names_are_plain_and_safe() {
    assert_eq!(sanitize_entry("a\\b/./c").as_deref(), Some("a/b/c"));
    assert_eq!(sanitize_entry("a//b/").as_deref(), Some("a/b"));
    assert_eq!(sanitize_entry("/a"), None);
    assert_eq!(sanitize_entry("\\a"), None);
    assert_eq!(sanitize_entry("C:/a"), None);
    assert_eq!(sanitize_entry("../a"), None);
    assert_eq!(sanitize_entry("..\\a"), None);
    assert_eq!(sanitize_entry("a\\b/../../c"), None);
    assert_eq!(sanitize_entry("./"), None);
    assert_eq!(sanitize_entry(""), None);
    let plain = sanitize_entry("a/x/../b").unwrap();
    assert_eq!(plain, "a/x/../b");
    assert!(is_within("", &plain));
}

fn written(t: EntryTarget) -> Option<String> {
    match t {
        EntryTarget::Write(p) => Some(p),
        _ => None,
    }
}

#[test]
fn targets_lose_the_wrapper_and_stay_inside() {
    let to = |top: Option<&str>, path: &str| entry_target(top, Some(path));
    assert_eq!(written(to(Some("P"), "P/a/b")).as_deref(), Some("a/b"));
    assert_eq!(written(to(Some("P"), "Q/a")).as_deref(), Some("Q/a"));
    assert_eq!(written(to(None, "P/a")).as_deref(), Some("P/a"));
    assert_eq!(written(to(Some("P"), "./P/a")).as_deref(), Some("./P/a"));
    assert!(matches!(to(Some("P"), "P/."), EntryTarget::Skip));
    assert!(matches!(to(Some("P"), ""), EntryTarget::Skip));
    assert!(matches!(to(Some("P"), "P/../x"), EntryTarget::Unsafe));
    assert!(matches!(to(None, "../x"), EntryTarget::Unsafe));
    assert!(matches!(entry_target(Some("P"), None), EntryTarget::Unsafe));
}

fn entry(name: &str, is_dir: bool) -> ArchiveEntry {
    ArchiveEntry { name: name.to_string(), is_dir }
}

#[test]
fn wrapper_folder_needs_all_files() {
    assert_eq!(top_level_dir(&[entry("P/a", false), entry("P/b", false)]).as_deref(), Some("P"));
    assert_eq!(top_level_dir(&[entry("P/a", false), entry("Q/b", false)]), None);
    assert_eq!(top_level_dir(&[entry("P/a", false), entry("b", false)]), None);
    assert_eq!(top_level_dir(&[entry("P/", true), entry(".x", false)]), None);
    assert_eq!(top_level_dir(&[entry(".git/x", false), entry("P/a", false)]).as_deref(), Some("P"));
}

#[test]
fn archive_problems_are_named() {
    let v = validate_entries(&[entry("docs/readme.txt", false)], "x.zip").unwrap();
    assert!(!v.valid);
    assert_eq!(
        v.problems,
        vec![
            "missing pack.mcmeta".to_string(),
            "no namespace folders (expected e.g. assets/minecraft/...)".to_string(),
        ]
    );
    let v = validate_entries(
        &[entry("P/pack.mcmeta", false), entry("P/assets/minecraft/a", false)],
        "x.zip",
    )
    .unwrap();
    assert!(v.valid);
    assert!(v.problems.is_empty());
    // A metadata file of a picture is no pack metadata.
    let v = validate_entries(&[entry("a.png.mcmeta", false)], "x.zip").unwrap();
    assert_eq!(v.problems.len(), 2);
}

#[test]
fn folder_layouts() {
    let mut f = listing(&pack_tree(MCMETA_26_3));
    let v = validate_folder("d", &f).unwrap();
    assert!(v.valid);
    assert_eq!(v.pack_format, Some(97));
    assert_eq!(v.description.as_deref(), Some("Feathered test pack"));
    f.assets = Some(vec![("icons".to_string(), true), ("a.txt".to_string(), false)]);
    assert!(!validate_folder("d", &f).unwrap().valid);
    f.assets = None;
    f.entries = vec![("minecraft".to_string(), true)];
    assert!(validate_folder("d", &f).unwrap().valid);
    f.entries = vec![("data".to_string(), true)];
    assert!(!validate_folder("d", &f).unwrap().valid);
}

#[test]
fn errors_describe_themselves() {
    assert_eq!(ImportError::NotFound("p".into()).describe(), "not found: p");
    assert_eq!(
        ImportError::NotAPack("p".into()).describe(),
        "p: not a resource pack (missing pack.mcmeta and no namespace folders)"
    );
    assert_eq!(
        ImportError::UnsafePath("p".into(), "../x".into()).describe(),
        "unsafe archive entry in p: ../x"
    );
    assert_eq!(ImportError::Io("p".into(), "m".into()).describe(), "p: m");
}

#[test]
fn slugs_are_safe_and_stable() {
    assert_eq!(slug_of("My Cool_Pack.v2"), "my-cool-pack-v2");
    assert_eq!(slug_of("--a  b--"), "a-b");
    assert_eq!(slug_of("Ünï!"), "n");
    assert_eq!(slug_of("..."), "");
    for name in ["My Cool_Pack.v2", "--a  b--", "Ünï!", "x - y"] {
        let s = slug_of(name);
        assert_eq!(slug_of(&s), s);
        assert!(!s.starts_with('-') && !s.ends_with('-') && !s.contains("--"));
    }
}

#[test]
fn ids_hold_a_slug_and_a_hash() {
    // SHA-256 of nothing begins with e3b0c442.
    assert_eq!(pack_id("Cool Pack", b""), "cool-pack-e3b0c442");
    // SHA-256 of "abc" begins with ba7816bf.
    assert_eq!(pack_id("Cool Pack", b"abc"), "cool-pack-ba7816bf");
    assert_eq!(new_pack_dir("a", b"bc"), "a-ba7816bf");
    assert_eq!(
        hash_hex(b"abc"),
        "ba7816bf8f01cfea414140de5dae2223b00361a396177a9cb410ff61f20015ad"
    );
}

#[test]
fn generic_names_give_way() {
    let names = |v: &[&str]| v.iter().map(|s| s.to_string()).collect::<Vec<String>>();
    assert_eq!(display_name(&names(&["Cool", "packs"]), "/packs/Cool"), "Cool");
    assert_eq!(display_name(&names(&["assets", "Textures", "Mine", "home"]), "p"), "Mine");
    assert_eq!(display_name(&names(&["assets", "texture"]), "p"), "texture");
    assert_eq!(display_name(&[], "/"), "/");
}

#[test]
fn version_labels() {
    let mut pack = import("/tmp/A", &pack_tree(MCMETA_26_3)).unwrap().pack;
    assert_eq!(pack.version_label(), "26.3 (format 97)");
    pack.detected_version = None;
    assert_eq!(pack.version_label(), "unknown (format 97)");
    pack.pack_format = None;
    assert_eq!(pack.version_label(), "unknown");
    pack.detected_version = Some("1.21".into());
    assert_eq!(pack.version_label(), "1.21");
}

#[test]
fn descriptions_lose_color_codes() {
    assert_eq!(strip_section_codes("\u{a7}aGreen \u{a7}lbold\u{a7}"), "Green bold");
    let m = parse_mcmeta_text(
        r#"{"pack":{"description":{"text":"a","extra":[{"text":"b"},"c",{"extra":"d"}]}}}"#,
    )
    .unwrap();
    assert_eq!(m.description.as_deref(), Some("abcd"));
    assert!(parse_mcmeta_text("{not json").is_none());
    assert!(parse_mcmeta_text("{}").is_none());
    let m = parse_mcmeta_text(r#"{"pack":{"supported_formats":[4,7],"description":""}}"#).unwrap();
    assert_eq!(m.supported_formats, Some((4, 7)));
    assert_eq!(m.description, None);
    assert_eq!(m.pack_format, None);
}

#[test]
fn sidecars_win_in_either_order() {
    let file = |relative: &str| PackFile {
        namespace: "minecraft".into(),
        relative: relative.into(),
        path: format!("/p/{relative}"),
    };
    let root = || PackRoot { root: "/p".into(), description: None };
    for order in [["a.png.mcmeta", "a.png.txt"], ["a.png.txt", "a.png.mcmeta"]] {
        let index = discover(
            "/p",
            vec![FoundPack { pack: root(), files: order.iter().map(|n| file(n)).collect() }],
        )
        .unwrap();
        assert_eq!(index.get("minecraft", "a.png").unwrap(), "/p/a.png.mcmeta");
        assert_eq!(index.keys.len(), 1);
    }
}

#[test]
fn index_keys_lose_one_extension() {
    let file = |relative: &str| PackFile {
        namespace: "m".into(),
        relative: relative.into(),
        path: relative.into(),
    };
    let files = vec![file("a/b.json"), file("noext"), file("dot."), file("two..x"), file(".hidden")];
    let pack = PackRoot { root: "/p".into(), description: None };
    let index = discover("/p", vec![FoundPack { pack, files }]).unwrap();
    assert!(index.get("m", "a/b").is_some());
    assert!(index.get("m", "noext").is_some());
    assert!(index.get("m", "dot.").is_some());
    assert!(index.get("m", "two..x").is_some());
    assert_eq!(index.keys.len(), 4);
}

#[test]
fn no_pack_is_an_error_and_roots_are_ordered() {
    let err = discover("/none", Vec::new()).unwrap_err();
    assert_eq!(err.path, "/none");
    assert_eq!(err.message, "no resource pack found (no pack.mcmeta)");
    let pack = |root: &str| FoundPack {
        pack: PackRoot { root: root.into(), description: None },
        files: Vec::new(),
    };
    let index = discover("/", vec![pack("/a-b"), pack("/c"), pack("/a/b")]).unwrap();
    let roots: Vec<&str> = index.packs.iter().map(|p| p.root.as_str()).collect();
    assert_eq!(roots, ["/a/b", "/a-b", "/c"]);
    assert!(is_pack_marker("pack.mcmeta"));
    assert!(is_pack_marker(".mcassetsroot"));
    assert!(!is_pack_marker("mcmeta"));
}

#[test]
fn only_packs_that_validate_are_listed() {
    let tree = pack_tree(MCMETA_26_3);
    let pack = || import("/tmp/P", &tree).unwrap().pack;
    let without = |prefix: &str| -> Tree {
        tree.iter().filter(|f| !f.0.starts_with(prefix)).cloned().collect()
    };
    assert_eq!(list_packs(vec![(pack(), listing(&tree))]).len(), 1);
    assert!(list_packs(vec![(pack(), listing(&without("pack.mcmeta")))]).is_empty());
    assert!(list_packs(vec![(pack(), listing(&without("assets/")))]).is_empty());
    assert!(list_packs(vec![(pack(), gone())]).is_empty());
}

#[test]
fn listing_ignores_letter_case() {
    let mut packs = Vec::new();
    for name in ["beta", "Alpha", "ÄRGER", "Ärger2", "alpha"] {
        let mut p = import("/tmp/X", &pack_tree(MCMETA_26_3)).unwrap().pack;
        p.name = name.to_string();
        packs.push((p, if name == "Ärger2" { gone() } else { listing(&pack_tree(MCMETA_26_3)) }));
    }
    let names: Vec<String> = list_packs(packs).into_iter().map(|p| p.name).collect();
    assert_eq!(names, ["Alpha", "alpha", "beta", "ÄRGER"]);
}

#[test]
fn managers_share_the_data_root() {
    let packs = ResourcePackManager::open_at("/data");
    let shaders = feathered::managers::ShaderPackManager::open_at("/data");
    assert_eq!(packs.base_dir(), "/data/packs");
    assert_eq!(shaders.base_dir(), "/data/shaders");
    assert_eq!(packs.settings_path(), "/data/settings.json");
    assert_eq!(shaders.settings_path(), packs.settings_path());
    assert!(packs.new_pack_dir("a", b"bc").ends_with("/a-ba7816bf"));
}
