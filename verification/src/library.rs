//! Imports into the pack library and its listing.

use crate::ascii::{lowercase, lowercased, same_ignoring_case, str_same_ignoring_case};
use crate::hash::{hex, sha256_of};
use crate::naming::{display_name, hash_hex, marked, pack_id, shown_name};
use crate::order::{
    is_picked, is_stable_order, keys_of, lemma_permutation_is_onto, names_le, sort_by_key,
};
use crate::paths::{extension, extension_of, stem, stem_of};
use crate::resource::{
    first_unsafe, is_verdict, mcmeta_text, opt_text, pack_format_to_version, parse_mcmeta_text,
    validate_entries, validate_folder, version_of, ArchiveEntry, FolderListing, ImportError,
    ImportReport, PackKind, PackValidation, ResourcePack, SourceInfo,
};
use crate::resource::{any_file, folder_has_namespace, is_metadata_entry, is_namespace_entry};
use crate::text::{ends_with, join2, names_of, str_ends_with};
use vstd::prelude::*;

verus! {

/// An archive is a pack: its names are safe, and it has a metadata file at
/// its root and a namespace.
pub open spec fn archive_is_pack(entries: Seq<ArchiveEntry>) -> bool {
    &&& first_unsafe(entries) == entries.len()
    &&& any_file(entries, entries.len() as int, |n: Seq<char>| is_metadata_entry(n))
    &&& any_file(entries, entries.len() as int, |n: Seq<char>| is_namespace_entry(n))
}

/// Checks an archive before it is unpacked.
pub fn check_archive(entries: &[ArchiveEntry], zip_path: &str) -> (r: Result<
    PackValidation,
    ImportError,
>)
    ensures
        match r {
            Ok(v) => archive_is_pack(entries@) && is_verdict(v, true, true) && v.pack_format is None
                && v.description is None,
            Err(ImportError::UnsafePath(p, n)) => first_unsafe(entries@) < entries.len() && p@
                == zip_path@ && n@ == entries@[first_unsafe(entries@)].name@,
            Err(ImportError::NotAPack(p)) => first_unsafe(entries@) == entries.len()
                && !archive_is_pack(entries@) && p@ == zip_path@,
            Err(_) => false,
        },
{
    match validate_entries(entries, zip_path) {
        Ok(v) => if v.valid {
            Ok(v)
        } else {
            Err(ImportError::NotAPack(zip_path.to_owned()))
        },
        Err(e) => Err(e),
    }
}

/// Format and description of a pack: what its metadata says, or else what was
/// found on validation.
pub open spec fn pack_facts(
    mcmeta: Option<Seq<char>>,
    format: Option<u32>,
    description: Option<Seq<char>>,
) -> (Option<u32>, Option<Seq<char>>) {
    match mcmeta {
        Some(text) => match mcmeta_text(text) {
            Some(m) => (m.pack_format, m.description),
            None => (format, description),
        },
        None => (format, description),
    }
}

fn facts_of(mcmeta: Option<&str>, v: PackValidation) -> (r: (Option<u32>, Option<String>))
    ensures
        (r.0, opt_text(r.1)) == pack_facts(
            match mcmeta {
                Some(t) => Some(t@),
                None => None,
            },
            v.pack_format,
            opt_text(v.description),
        ),
{
    match mcmeta {
        Some(text) => match parse_mcmeta_text(text) {
            Some(m) => (m.pack_format, m.description),
            None => (v.pack_format, v.description),
        },
        None => (v.pack_format, v.description),
    }
}

/// The release of an optional format.
pub open spec fn release(format: Option<u32>) -> Option<Seq<char>> {
    match format {
        Some(f) => version_of(f),
        None => None,
    }
}

fn release_of(format: Option<u32>) -> (r: Option<String>)
    ensures
        opt_text(r) == release(format),
{
    match format {
        Some(f) => match pack_format_to_version(f) {
            Some(v) => Some(v.to_owned()),
            None => None,
        },
        None => None,
    }
}

/// The files of a pack directory as they matter to its record.
#[derive(Debug)]
pub struct PackFiles {
    /// The directory.
    pub dir: String,
    /// The last part of its path.
    pub dir_name: String,
    /// There is a file `pack.mcmeta`.
    pub has_mcmeta: bool,
    /// The text of that file, where it can be read.
    pub mcmeta: Option<String>,
    /// The bytes of that file; empty where it cannot be read.
    pub bytes: Vec<u8>,
}

/// The record of a pack unpacked from an archive.
pub open spec fn is_zip_record(
    p: ResourcePack,
    file_name: Option<Seq<char>>,
    zip_path: Seq<char>,
    files: PackFiles,
    v: PackValidation,
) -> bool {
    &&& p.id@ == marked(files.dir_name@, files.bytes@)
    &&& p.name@ == (match file_name {
        Some(n) => stem(n),
        None => "pack"@,
    })
    &&& (p.pack_format, opt_text(p.description)) == pack_facts(
        opt_text(files.mcmeta),
        v.pack_format,
        opt_text(v.description),
    )
    &&& opt_text(p.detected_version) == release(p.pack_format)
    &&& p.kind == PackKind::Zip
    &&& p.dir@ == files.dir@
    &&& p.source.origin@ == (match file_name {
        Some(n) => n,
        None => zip_path,
    })
    &&& p.source.license_note is None
    &&& p.mcmeta_hash@ == hex(sha256_of(files.bytes@))
}

fn text_of(s: &Option<String>) -> (r: Option<&str>)
    ensures
        match r {
            Some(t) => opt_text(*s) == Some(t@),
            None => opt_text(*s) is None,
        },
{
    match s {
        Some(t) => Some(t.as_str()),
        None => None,
    }
}

/// The end of an import from an archive: what was unpacked must itself have a
/// metadata file.
pub fn finish_zip(
    file_name: Option<&str>,
    zip_path: &str,
    files: &PackFiles,
    v: PackValidation,
    files_copied: u64,
) -> (r: Result<ImportReport, ImportError>)
    ensures
        match r {
            Ok(report) => {
                &&& files.has_mcmeta
                &&& report.files_copied == files_copied
                &&& is_zip_record(
                    report.pack,
                    match file_name {
                        Some(n) => Some(n@),
                        None => None,
                    },
                    zip_path@,
                    *files,
                    v,
                )
            },
            Err(e) => !files.has_mcmeta && (e matches ImportError::NotAPack(p) && p@
                == files.dir@),
        },
{
    if !files.has_mcmeta {
        return Err(ImportError::NotAPack(files.dir.clone()));
    }
    let (pack_format, description) = facts_of(text_of(&files.mcmeta), v);
    let name = match file_name {
        Some(n) => stem_of(n),
        None => "pack".to_owned(),
    };
    let origin = match file_name {
        Some(n) => n.to_owned(),
        None => zip_path.to_owned(),
    };
    let pack = ResourcePack {
        id: pack_id(files.dir_name.as_str(), &files.bytes),
        name,
        description,
        pack_format,
        detected_version: release_of(pack_format),
        kind: PackKind::Zip,
        dir: files.dir.clone(),
        source: SourceInfo { origin, license_note: None },
        mcmeta_hash: hash_hex(&files.bytes),
    };
    Ok(ImportReport { pack, files_copied })
}

/// The record of a folder that is referred to.
pub open spec fn is_folder_record(
    p: ResourcePack,
    names: Seq<Seq<char>>,
    files: PackFiles,
    f: FolderListing,
) -> bool {
    let listed = crate::resource::folder_metadata(f);
    &&& p.id@ == marked(files.dir_name@, files.bytes@)
    &&& p.name@ == shown_name(names, files.dir@)
    &&& (p.pack_format, opt_text(p.description)) == pack_facts(
        opt_text(files.mcmeta),
        listed.0,
        listed.1,
    )
    &&& opt_text(p.detected_version) == release(p.pack_format)
    &&& p.kind == PackKind::Folder
    &&& p.dir@ == files.dir@
    &&& p.source.origin@ == files.dir@
    &&& p.source.license_note is None
    &&& p.mcmeta_hash@ == (if files.has_mcmeta {
        hex(sha256_of(files.bytes@))
    } else {
        Seq::empty()
    })
}

/// The folder is a pack.
pub open spec fn folder_is_pack(f: FolderListing) -> bool {
    f.is_dir && f.has_mcmeta && folder_has_namespace(f)
}

/// Imports a folder by reference: nothing is copied. `names` are the names on
/// the folder's path from inside out, `files` its files under the path that
/// is recorded.
pub fn import_folder(dir: &str, f: &FolderListing, names: &[String], files: &PackFiles) -> (r:
    Result<ImportReport, ImportError>)
    ensures
        match r {
            Ok(report) => {
                &&& folder_is_pack(*f)
                &&& report.files_copied == 0
                &&& is_folder_record(report.pack, names_of(names@), *files, *f)
            },
            Err(ImportError::NotFound(p)) => !f.is_dir && p@ == dir@,
            Err(ImportError::NotAPack(p)) => f.is_dir && !folder_is_pack(*f) && p@ == dir@,
            Err(_) => false,
        },
{
    let v = match validate_folder(dir, f) {
        Ok(v) => v,
        Err(e) => {
            return Err(e);
        },
    };
    if !v.valid {
        return Err(ImportError::NotAPack(dir.to_owned()));
    }
    let (pack_format, description) = facts_of(text_of(&files.mcmeta), v);
    let mcmeta_hash = if files.has_mcmeta {
        hash_hex(&files.bytes)
    } else {
        String::new()
    };
    let pack = ResourcePack {
        id: pack_id(files.dir_name.as_str(), &files.bytes),
        name: display_name(names, files.dir.as_str()),
        description,
        pack_format,
        detected_version: release_of(pack_format),
        kind: PackKind::Folder,
        dir: files.dir.clone(),
        source: SourceInfo { origin: files.dir.clone(), license_note: None },
        mcmeta_hash,
    };
    Ok(ImportReport { pack, files_copied: 0 })
}

/// Where the record of a library entry lies.
#[derive(Clone, Copy, Debug, PartialEq, Eq, Structural)]
pub enum RecordPlace {
    /// In a file inside the directory.
    Inside,
    /// The entry is the record of a folder.
    Itself,
    /// The entry is no pack.
    Nowhere,
}

/// The name of the record of a folder.
pub open spec fn is_folder_record_name(name: Seq<char>) -> bool {
    ends_with(name, ".folder.json"@)
}

/// Where the record of an entry of the library directory lies.
pub fn record_place(name: &str, is_dir: bool) -> (r: RecordPlace)
    ensures
        r == (if is_dir {
            RecordPlace::Inside
        } else if is_folder_record_name(name@) {
            RecordPlace::Itself
        } else {
            RecordPlace::Nowhere
        }),
{
    if is_dir {
        RecordPlace::Inside
    } else if str_ends_with(name, ".folder.json") {
        RecordPlace::Itself
    } else {
        RecordPlace::Nowhere
    }
}

/// The name of the record of a folder pack.
pub fn folder_record_name(id: &str) -> (r: String)
    ensures
        r@ == id@ + ".folder.json"@,
        is_folder_record_name(r@),
{
    let r = join2(id, ".folder.json");
    assert(r@.skip(r@.len() - ".folder.json"@.len()) =~= ".folder.json"@);
    r
}

/// Whether the record of a folder is stale: what it names is gone.
pub fn is_stale(name: &str, source_exists: bool) -> (r: bool)
    ensures
        r == (is_folder_record_name(name@) && !source_exists),
{
    str_ends_with(name, ".folder.json") && !source_exists
}

/// The things stand in the stable order of their names, letter case aside.
pub open spec fn listed_by<T>(r: Seq<T>, kept: Seq<T>, names: Seq<Seq<char>>) -> bool {
    exists|perm: Seq<usize>| #[trigger] is_listing(perm, r, kept, names)
}

pub open spec fn is_listing<T>(
    perm: Seq<usize>,
    r: Seq<T>,
    kept: Seq<T>,
    names: Seq<Seq<char>>,
) -> bool {
    &&& is_stable_order(perm, kept.len() as int, names_le(names))
    &&& r.len() == kept.len()
    &&& forall|i: int| 0 <= i < r.len() ==> #[trigger] r[i] == kept[perm[i] as int]
}

/// The names of packs in lower case.
pub open spec fn lowered_names(packs: Seq<ResourcePack>) -> Seq<Seq<char>> {
    Seq::new(packs.len(), |i: int| lowercased(packs[i].name@))
}

/// A listing of keyed things, out of their sorted form.
pub proof fn lemma_listing<T>(r: Seq<T>, items: Seq<(String, T)>, kept: Seq<T>, names: Seq<Seq<char>>)
    requires
        crate::order::sorted_by_key(r, items),
        items.len() == kept.len(),
        names.len() == kept.len(),
        forall|i: int|
            0 <= i < items.len() ==> (#[trigger] items[i]).0@ == names[i] && items[i].1 == kept[i],
    ensures
        listed_by(r, kept, names),
{
    let perm = choose|o: Seq<usize>|
        is_stable_order(o, items.len() as int, names_le(keys_of(items))) && is_picked(r, items, o);
    assert(keys_of(items) =~= names);
    assert(is_listing(perm, r, kept, names)) by {
        assert forall|i: int| 0 <= i < r.len() implies #[trigger] r[i] == kept[perm[i] as int] by {
            assert(perm[i] < kept.len());
            assert(items[perm[i] as int].1 == kept[perm[i] as int]);
        }
    }
}

/// The packs among the first `n` found whose folder validates.
pub open spec fn valid_packs(found: Seq<(ResourcePack, FolderListing)>, n: int) -> Seq<ResourcePack>
    decreases n,
{
    if n <= 0 {
        Seq::empty()
    } else if folder_is_pack(found[n - 1].1) {
        valid_packs(found, n - 1).push(found[n - 1].0)
    } else {
        valid_packs(found, n - 1)
    }
}

/// The installed packs by name: those found whose folder validates. Each
/// record comes with what its directory looks like now.
pub fn list_packs(found: Vec<(ResourcePack, FolderListing)>) -> (r: Vec<ResourcePack>)
    ensures
        ({
            let kept = valid_packs(found@, found@.len() as int);
            listed_by(r@, kept, lowered_names(kept))
        }),
{
    let mut keyed: Vec<(String, ResourcePack)> = Vec::new();
    let ghost mut kept: Seq<ResourcePack> = Seq::empty();
    for entry in it: found
        invariant
            it.seq() == found@,
            kept == valid_packs(found@, it.index() as int),
            keyed@.len() == kept.len(),
            forall|i: int|
                0 <= i < keyed@.len() ==> (#[trigger] keyed@[i]).0@ == lowercased(kept[i].name@)
                    && keyed@[i].1 == kept[i],
    {
        assert(found@[it.index() as int] == entry);
        let (pack, folder) = entry;
        let valid = match validate_folder(pack.dir.as_str(), &folder) {
            Ok(v) => v.valid,
            Err(_) => false,
        };
        if valid {
            let key = lowercase(pack.name.as_str());
            keyed.push((key, pack));
            proof {
                kept = kept.push(pack);
            }
        }
    }
    let ghost items = keyed@;
    let r = sort_by_key(keyed);
    proof {
        lemma_listing(r@, items, kept, lowered_names(kept));
    }
    r
}

/// The pack is one of the first `n` found, and its folder validates.
pub open spec fn is_valid_among(
    found: Seq<(ResourcePack, FolderListing)>,
    n: int,
    pack: ResourcePack,
) -> bool {
    exists|j: int| 0 <= j < n && (#[trigger] found[j]).0 == pack && folder_is_pack(found[j].1)
}

proof fn lemma_valid_packs(found: Seq<(ResourcePack, FolderListing)>, n: int)
    requires
        0 <= n <= found.len(),
    ensures
        forall|i: int|
            0 <= i < valid_packs(found, n).len() ==> is_valid_among(
                found,
                n,
                #[trigger] valid_packs(found, n)[i],
            ),
        forall|j: int|
            0 <= j < n && folder_is_pack((#[trigger] found[j]).1) ==> valid_packs(
                found,
                n,
            ).contains(found[j].0),
    decreases n,
{
    if n > 0 {
        lemma_valid_packs(found, n - 1);
        let before = valid_packs(found, n - 1);
        let after = valid_packs(found, n);
        assert forall|i: int| 0 <= i < after.len() implies is_valid_among(
            found,
            n,
            #[trigger] after[i],
        ) by {
            if i < before.len() {
                assert(after[i] == before[i]);
                let j = choose|j: int|
                    0 <= j < n - 1 && (#[trigger] found[j]).0 == before[i] && folder_is_pack(
                        found[j].1,
                    );
                assert(found[j].0 == after[i]);
            } else {
                assert(found[n - 1].0 == after[i]);
            }
        }
        assert forall|j: int| 0 <= j < n && folder_is_pack((#[trigger] found[j]).1) implies
            after.contains(found[j].0) by {
            if j < n - 1 {
                let k = before.index_of(found[j].0);
                assert(before.contains(found[j].0));
                assert(after[k] == found[j].0);
            } else {
                assert(after[before.len() as int] == found[j].0);
            }
        }
    }
}

/// A pack is listed only if it validates: every listed pack was found with a
/// folder that validates, and every pack found so is listed.
pub proof fn law_listed_packs_validate(
    found: Seq<(ResourcePack, FolderListing)>,
    r: Seq<ResourcePack>,
)
    requires
        ({
            let kept = valid_packs(found, found.len() as int);
            listed_by(r, kept, lowered_names(kept))
        }),
    ensures
        forall|i: int|
            0 <= i < r.len() ==> is_valid_among(found, found.len() as int, #[trigger] r[i]),
        forall|j: int|
            0 <= j < found.len() && folder_is_pack((#[trigger] found[j]).1) ==> r.contains(
                found[j].0,
            ),
{
    let n = found.len() as int;
    let kept = valid_packs(found, n);
    lemma_valid_packs(found, n);
    let perm = choose|perm: Seq<usize>| #[trigger] is_listing(perm, r, kept, lowered_names(kept));
    assert forall|i: int| 0 <= i < r.len() implies is_valid_among(found, n, #[trigger] r[i]) by {
        assert(r[i] == kept[perm[i] as int]);
    }
    assert forall|j: int| 0 <= j < found.len() && folder_is_pack((#[trigger] found[j]).1) implies
        r.contains(found[j].0) by {
        assert(kept.contains(found[j].0));
        let k = kept.index_of(found[j].0);
        lemma_permutation_is_onto(perm, kept.len() as int, k);
        let i = choose|i: int| 0 <= i < perm.len() && #[trigger] perm[i] == k;
        assert(r[i] == kept[k]);
    }
}

/// What a scan does with an entry of a directory.
#[derive(Clone, Copy, Debug, PartialEq, Eq, Structural)]
pub enum ScanStep {
    ImportFolder,
    Descend,
    ImportZip,
    Pass,
}

/// The scan of a directory tree: a directory with metadata is a pack, another
/// one is searched, and a file with the extension `zip` is an archive.
pub fn scan_step(name: &str, is_dir: bool, has_mcmeta: bool) -> (r: ScanStep)
    ensures
        r == (if is_dir && has_mcmeta {
            ScanStep::ImportFolder
        } else if is_dir {
            ScanStep::Descend
        } else if (extension(name@) matches Some(e) && same_ignoring_case(e, "zip"@)) {
            ScanStep::ImportZip
        } else {
            ScanStep::Pass
        }),
{
    if is_dir {
        if has_mcmeta {
            ScanStep::ImportFolder
        } else {
            ScanStep::Descend
        }
    } else {
        match extension_of(name) {
            Some(e) => if str_same_ignoring_case(e.as_str(), "zip") {
                ScanStep::ImportZip
            } else {
                ScanStep::Pass
            },
            None => ScanStep::Pass,
        }
    }
}

/// The record of a pack names the release of its format and nothing where the
/// format is unknown, whether the pack is an archive or a folder.
pub proof fn law_records_name_the_release(
    p: ResourcePack,
    file_name: Option<Seq<char>>,
    zip_path: Seq<char>,
    names: Seq<Seq<char>>,
    files: PackFiles,
    v: PackValidation,
    f: FolderListing,
)
    requires
        is_zip_record(p, file_name, zip_path, files, v) || is_folder_record(p, names, files, f),
    ensures
        p.pack_format is None ==> p.detected_version is None,
        p.pack_format matches Some(n) ==> opt_text(p.detected_version) == version_of(n),
        p.pack_format == Some(4u32) ==> opt_text(p.detected_version) == Some("1.13"@),
        p.pack_format == Some(34u32) ==> opt_text(p.detected_version) == Some("1.19.4"@),
        p.pack_format == Some(64u32) ==> opt_text(p.detected_version) == Some("1.21.2"@),
        p.dir@ == files.dir@,
        p.source.license_note is None,
{
}

/// What the metadata says counts; only where it cannot be read, or is not
/// there, counts what was found on validation.
pub proof fn law_metadata_comes_first(
    text: Seq<char>,
    m: crate::resource::McmetaShape,
    format: Option<u32>,
    description: Option<Seq<char>>,
)
    ensures
        mcmeta_text(text) == Some(m) ==> pack_facts(Some(text), format, description) == (
            m.pack_format,
            m.description,
        ),
        mcmeta_text(text) is None ==> pack_facts(Some(text), format, description) == (
            format,
            description,
        ),
        pack_facts(None, format, description) == (format, description),
{
}

/// An archive's record: named after the file without its extension, or `pack`;
/// its origin is the file's name, or else its path.
pub proof fn law_archive_records(
    p: ResourcePack,
    file_name: Option<Seq<char>>,
    zip_path: Seq<char>,
    files: PackFiles,
    v: PackValidation,
)
    requires
        is_zip_record(p, file_name, zip_path, files, v),
    ensures
        p.kind == PackKind::Zip,
        file_name is None ==> p.name@ == "pack"@ && p.source.origin@ == zip_path,
        file_name matches Some(n) ==> p.name@ == stem(n) && p.source.origin@ == n,
        p.mcmeta_hash@ == hex(sha256_of(files.bytes@)),
{
}

/// A folder's record: its origin is the folder, and without metadata it has no
/// hash.
pub proof fn law_folder_records(
    p: ResourcePack,
    names: Seq<Seq<char>>,
    files: PackFiles,
    f: FolderListing,
)
    requires
        is_folder_record(p, names, files, f),
    ensures
        p.kind == PackKind::Folder,
        p.source.origin@ == files.dir@,
        !files.has_mcmeta ==> p.mcmeta_hash@.len() == 0,
        files.has_mcmeta ==> p.mcmeta_hash@ == hex(sha256_of(files.bytes@)),
{
}

/// A folder is a pack where it is a directory with metadata and a namespace.
pub proof fn law_pack_folders(f: FolderListing)
    ensures
        !f.is_dir || !f.has_mcmeta ==> !folder_is_pack(f),
        folder_is_pack(f) ==> crate::resource::folder_has_namespace(f),
        f.is_dir && f.has_mcmeta && crate::resource::folder_has_namespace(f) ==> folder_is_pack(f),
{
}

/// The packs that validate are kept in order, each once.
pub proof fn law_valid_packs_keep_their_order(found: Seq<(ResourcePack, FolderListing)>, n: int)
    requires
        0 <= n <= found.len(),
    ensures
        valid_packs(found, n) == found.take(n).filter(
            |x: (ResourcePack, FolderListing)| folder_is_pack(x.1),
        ).map_values(|x: (ResourcePack, FolderListing)| x.0),
    decreases n,
{
    reveal(Seq::filter);
    let keep = |x: (ResourcePack, FolderListing)| folder_is_pack(x.1);
    let pick = |x: (ResourcePack, FolderListing)| x.0;
    if n > 0 {
        law_valid_packs_keep_their_order(found, n - 1);
        let t = found.take(n);
        assert(t.drop_last() =~= found.take(n - 1));
        assert(t.last() == found[n - 1]);
        let before = found.take(n - 1).filter(keep);
        assert(before.push(found[n - 1]).map_values(pick) =~= before.map_values(pick).push(
            found[n - 1].0,
        ));
        assert(valid_packs(found, n) =~= t.filter(keep).map_values(pick));
    } else {
        assert(valid_packs(found, n) =~= found.take(n).filter(keep).map_values(pick));
    }
}

/// A record of a folder ends in `.folder.json`.
pub proof fn law_folder_records_have_their_ending(name: Seq<char>)
    ensures
        is_folder_record_name(name + ".folder.json"@),
        is_folder_record_name(name) ==> exists|front: Seq<char>|
            name == #[trigger] (front + ".folder.json"@),
{
    crate::text::law_parts_are_found(name, ".folder.json"@, Seq::empty());
    crate::text::law_found_parts_are_there(name, ".folder.json"@);
}

/// An archive is a pack where every file has a safe name, one is the metadata
/// and one lies in a namespace.
pub proof fn law_pack_archives(entries: Seq<ArchiveEntry>, i: int, j: int)
    requires
        0 <= i < entries.len(),
        0 <= j < entries.len(),
    ensures
        archive_is_pack(entries) && !entries[i].is_dir ==> crate::resource::sanitized(entries[i].name@) is Some,
        (forall|k: int|
            0 <= k < entries.len() ==> (#[trigger] entries[k]).is_dir || crate::resource::sanitized(
                entries[k].name@,
            ) is Some) && !entries[i].is_dir && is_metadata_entry(entries[i].name@)
            && !entries[j].is_dir && is_namespace_entry(entries[j].name@) ==> archive_is_pack(
            entries,
        ),
        (forall|k: int|
            0 <= k < entries.len() ==> (#[trigger] entries[k]).is_dir || !is_metadata_entry(
                entries[k].name@,
            )) ==> !archive_is_pack(entries),
        (forall|k: int|
            0 <= k < entries.len() ==> (#[trigger] entries[k]).is_dir || !is_namespace_entry(
                entries[k].name@,
            )) ==> !archive_is_pack(entries),
{
    lemma_safe_names(entries, i);
    if (forall|k: int|
        0 <= k < entries.len() ==> (#[trigger] entries[k]).is_dir || crate::resource::sanitized(entries[k].name@)
            is Some) {
        crate::resource::law_first_unsafe_file_is_found(entries, entries.len() as int);
    }
    let m = |n: Seq<char>| is_metadata_entry(n);
    let s = |n: Seq<char>| is_namespace_entry(n);
    assert(!entries[i].is_dir && is_metadata_entry(entries[i].name@) ==> m(entries[i].name@));
    assert(!entries[j].is_dir && is_namespace_entry(entries[j].name@) ==> s(entries[j].name@));
}

proof fn lemma_safe_names(entries: Seq<ArchiveEntry>, i: int)
    requires
        0 <= i < entries.len(),
    ensures
        first_unsafe(entries) == entries.len() && !entries[i].is_dir ==> crate::resource::sanitized(entries[i].name@)
            is Some,
    decreases entries.len(),
{
    if i > 0 {
        lemma_safe_names(entries.skip(1), i - 1);
        assert(entries.skip(1)[i - 1] == entries[i]);
    }
}

} // verus!
