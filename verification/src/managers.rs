//! Where the pack managers keep things: the directories and records of
//! resource packs and shader packs under the data root.

use crate::library::folder_record_name;
use crate::naming::{marked, new_pack_dir};
use crate::paths::{join_path, joined_path};
use crate::resource::{PackKind, ResourcePack};
use crate::shader::{ShaderKind, ShaderPack};
use vstd::prelude::*;
use vstd::utf8::*;

verus! {

/// What uninstalling removes.
#[derive(Debug)]
pub enum Removal {
    /// A directory of the library, with all it holds.
    Directory(String),
    /// A record; what it refers to stays.
    Record(String),
}

/// The manager of resource packs.
#[derive(Debug)]
pub struct ResourcePackManager {
    /// The data root.
    pub root: String,
    /// The directory of the packs.
    pub base: String,
}

/// The path of the record of a folder.
pub open spec fn folder_record_path(base: Seq<char>, id: Seq<char>) -> Seq<char> {
    joined_path(base, id + ".folder.json"@)
}

/// The path of a new pack directory.
pub open spec fn new_dir_path(base: Seq<char>, name: Seq<char>, stamp: Seq<u8>) -> Seq<char> {
    joined_path(base, marked(name, encode_utf8(name) + stamp))
}

impl ResourcePackManager {
    pub open spec fn wf(&self) -> bool {
        self.base@ == joined_path(self.root@, "packs"@)
    }

    /// The manager under a data root: packs lie in `packs`, the settings
    /// beside them.
    pub fn open_at(root: &str) -> (r: ResourcePackManager)
        ensures
            r.wf(),
            r.root@ == root@,
    {
        ResourcePackManager { root: root.to_owned(), base: join_path(root, "packs") }
    }

    /// The directory of the packs.
    pub fn base_dir(&self) -> (r: &str)
        ensures
            r@ == self.base@,
    {
        self.base.as_str()
    }

    /// The settings file.
    pub fn settings_path(&self) -> (r: String)
        ensures
            r@ == joined_path(self.root@, "settings.json"@),
    {
        join_path(self.root.as_str(), "settings.json")
    }

    /// The directory for a pack to be unpacked; the stamp keeps two imports of
    /// one name apart.
    pub fn new_pack_dir(&self, name: &str, stamp: &[u8]) -> (r: String)
        ensures
            r@ == new_dir_path(self.base@, name@, stamp@),
    {
        let dir = new_pack_dir(name, stamp);
        join_path(self.base.as_str(), dir.as_str())
    }

    /// Where the record of a pack is written.
    pub fn record_path(&self, pack: &ResourcePack) -> (r: String)
        ensures
            r@ == (match pack.kind {
                PackKind::Zip => joined_path(pack.dir@, "feathered.pack.json"@),
                PackKind::Folder => folder_record_path(self.base@, pack.id@),
            }),
    {
        match pack.kind {
            PackKind::Zip => join_path(pack.dir.as_str(), "feathered.pack.json"),
            PackKind::Folder => {
                let name = folder_record_name(pack.id.as_str());
                join_path(self.base.as_str(), name.as_str())
            },
        }
    }

    /// What uninstalling a pack removes: the unpacked copy, or only the record
    /// of a folder, which itself stays as the user had it.
    pub fn uninstall(&self, pack: &ResourcePack) -> (r: Removal)
        ensures
            match pack.kind {
                PackKind::Zip => r matches Removal::Directory(p) && p@ == pack.dir@,
                PackKind::Folder => r matches Removal::Record(p) && p@ == folder_record_path(
                    self.base@,
                    pack.id@,
                ),
            },
    {
        match pack.kind {
            PackKind::Zip => Removal::Directory(pack.dir.clone()),
            PackKind::Folder => Removal::Record(self.record_path(pack)),
        }
    }
}

/// The manager of shader packs.
#[derive(Debug)]
pub struct ShaderPackManager {
    /// The data root.
    pub root: String,
    /// The directory of the shader packs.
    pub base: String,
}

impl ShaderPackManager {
    pub open spec fn wf(&self) -> bool {
        self.base@ == joined_path(self.root@, "shaders"@)
    }

    /// The manager under a data root: shader packs lie in `shaders`, the
    /// settings beside them.
    pub fn open_at(root: &str) -> (r: ShaderPackManager)
        ensures
            r.wf(),
            r.root@ == root@,
    {
        ShaderPackManager { root: root.to_owned(), base: join_path(root, "shaders") }
    }

    /// The directory of the shader packs.
    pub fn base_dir(&self) -> (r: &str)
        ensures
            r@ == self.base@,
    {
        self.base.as_str()
    }

    /// The settings file.
    pub fn settings_path(&self) -> (r: String)
        ensures
            r@ == joined_path(self.root@, "settings.json"@),
    {
        join_path(self.root.as_str(), "settings.json")
    }

    /// The directory for a shader pack to be unpacked.
    pub fn new_pack_dir(&self, name: &str, stamp: &[u8]) -> (r: String)
        ensures
            r@ == new_dir_path(self.base@, name@, stamp@),
    {
        let dir = new_pack_dir(name, stamp);
        join_path(self.base.as_str(), dir.as_str())
    }

    /// Where the record of a shader pack is written.
    pub fn record_path(&self, pack: &ShaderPack) -> (r: String)
        ensures
            r@ == (match pack.kind {
                ShaderKind::Zip => joined_path(pack.dir@, "feathered.shader.json"@),
                ShaderKind::Folder => folder_record_path(self.base@, pack.id@),
            }),
    {
        match pack.kind {
            ShaderKind::Zip => join_path(pack.dir.as_str(), "feathered.shader.json"),
            ShaderKind::Folder => {
                let name = folder_record_name(pack.id.as_str());
                join_path(self.base.as_str(), name.as_str())
            },
        }
    }

    /// What uninstalling a shader pack removes.
    pub fn uninstall(&self, pack: &ShaderPack) -> (r: Removal)
        ensures
            match pack.kind {
                ShaderKind::Zip => r matches Removal::Directory(p) && p@ == pack.dir@,
                ShaderKind::Folder => r matches Removal::Record(p) && p@ == folder_record_path(
                    self.base@,
                    pack.id@,
                ),
            },
    {
        match pack.kind {
            ShaderKind::Zip => Removal::Directory(pack.dir.clone()),
            ShaderKind::Folder => Removal::Record(self.record_path(pack)),
        }
    }
}

/// The record of a folder lies beside the packs, under its id.
pub proof fn law_records_lie_under_their_id(base: Seq<char>, id: Seq<char>)
    requires
        base.len() > 0 && base.last() != '/',
        id.len() > 0 && id[0] != '/',
    ensures
        folder_record_path(base, id) == base + seq!['/'] + (id + ".folder.json"@),
{
    assert((id + ".folder.json"@)[0] == id[0]);
    crate::paths::law_paths_join_with_one_slash(base, id + ".folder.json"@);
}

/// A new pack lies under its name's mark, which the name and a stamp decide.
pub proof fn law_new_packs_lie_under_their_mark(base: Seq<char>, name: Seq<char>, stamp: Seq<u8>)
    ensures
        new_dir_path(base, name, stamp) == joined_path(
            base,
            marked(name, encode_utf8(name) + stamp),
        ),
{
}

} // verus!
