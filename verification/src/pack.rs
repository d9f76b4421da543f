//! The index of the files of resource packs, by namespace and path.

use crate::compiled::{find_pair, lemma_pair_pos, pair_pos};
use crate::error::{err, fails_with, AssetResult};
use crate::json::{document_shape, member, parse_json, Json, JsonShape};
use crate::order::{is_picked, is_stable_order, keys_of, names_le, sort_by_key};
use crate::paths::{behind_last, last_pos};
use crate::text::{
    chars_of, ends_with, part_string, replace_char, replaced, str_ends_with, string_of,
};
use vstd::prelude::*;

verus! {

/// One resource-pack root.
#[derive(Debug)]
pub struct PackRoot {
    /// The directory that holds the pack's metadata.
    pub root: String,
    /// The description out of `pack.mcmeta`, if there is one.
    pub description: Option<String>,
}

/// A file of a pack: its namespace, its path inside the namespace, and where
/// it lies.
#[derive(Debug)]
pub struct PackFile {
    pub namespace: String,
    pub relative: String,
    pub path: String,
}

/// A pack root with its files.
#[derive(Debug)]
pub struct FoundPack {
    pub pack: PackRoot,
    pub files: Vec<PackFile>,
}

/// The files of all packs by namespace and path without extension. Each key
/// occurs once.
#[derive(Debug)]
pub struct PackIndex {
    pub keys: Vec<(String, String)>,
    /// The file of each key.
    pub paths: Vec<String>,
    /// The packs, by their roots.
    pub packs: Vec<PackRoot>,
}

/// The pack's metadata file, which makes its directory a pack root.
pub fn is_pack_marker(name: &str) -> (r: bool)
    ensures
        r == (name@ == "pack.mcmeta"@ || name@ == ".mcassetsroot"@),
{
    crate::text::str_eq(name, "pack.mcmeta") || crate::text::str_eq(name, ".mcassetsroot")
}

/// Whether the namespaces of a pack lie in its `assets` directory rather than
/// in its root: there is a directory of that name among the root's entries.
pub fn holds_assets(entries: &[(String, bool)]) -> (r: bool)
    ensures
        r == exists|i: int|
            0 <= i < entries.len() && (#[trigger] entries@[i]).1 && entries@[i].0@ == "assets"@,
{
    let mut i: usize = 0;
    while i < entries.len()
        invariant
            i <= entries.len(),
            forall|k: int|
                0 <= k < i ==> !((#[trigger] entries@[k]).1 && entries@[k].0@ == "assets"@),
        decreases entries.len() - i,
    {
        if entries[i].1 && crate::text::str_eq(entries[i].0.as_str(), "assets") {
            return true;
        }
        i += 1;
    }
    false
}

/// The description that a parsed `pack.mcmeta` gives as plain text.
pub open spec fn described(doc: JsonShape) -> Option<Seq<char>> {
    match member(doc, "pack"@) {
        Some(pack) => match member(pack, "description"@) {
            Some(JsonShape::Text(s)) => Some(s),
            _ => None,
        },
        None => None,
    }
}

/// The description in a metadata document.
pub fn description_in(doc: &Json) -> (r: Option<String>)
    ensures
        match r {
            Some(s) => described(doc.shape()) == Some(s@),
            None => described(doc.shape()) is None,
        },
{
    match doc.get("pack") {
        Some(pack) => match pack.get("description") {
            Some(d) => match d.as_text() {
                Some(s) => Some(s.clone()),
                None => None,
            },
            None => None,
        },
        None => None,
    }
}

/// The description in the text of a `pack.mcmeta`.
pub fn read_pack_description(text: &str) -> (r: Option<String>)
    ensures
        match document_shape(text@) {
            Some(doc) => match r {
                Some(s) => described(doc) == Some(s@),
                None => described(doc) is None,
            },
            None => r is None,
        },
{
    match parse_json(text) {
        Some(doc) => description_in(&doc),
        None => None,
    }
}

/// The key of a file: its path without the last extension. An empty
/// extension, and one that follows another dot, belongs to the name.
pub open spec fn key_path(relative: Seq<char>) -> Seq<char> {
    let i = last_pos(relative, '.');
    if i >= 0 && i < relative.len() - 1 && !(i > 0 && relative[i - 1] == '.') {
        relative.take(i)
    } else {
        relative
    }
}

/// The path a file is indexed under; files whose path starts with a dot are
/// not indexed.
pub fn key_of(relative: &str) -> (r: Option<String>)
    ensures
        match r {
            Some(k) => !(relative@.len() > 0 && relative@[0] == '.') && k@ == key_path(relative@),
            None => relative@.len() > 0 && relative@[0] == '.',
        },
{
    let s = chars_of(relative);
    if s.len() > 0 && s[0] == '.' {
        return None;
    }
    let i = behind_last(&s, '.');
    if i >= 1 && i < s.len() && !(i >= 2 && s[i - 2] == '.') {
        let r = part_string(&s, 0, i - 1);
        assert(s@.subrange(0, i - 1) =~= s@.take(i - 1));
        Some(r)
    } else {
        Some(string_of(&s))
    }
}

/// A sidecar with metadata.
pub open spec fn is_sidecar(path: Seq<char>) -> bool {
    ends_with(path, ".mcmeta"@)
}

/// The map with one more file: under a new key it enters; under a known key
/// only a metadata sidecar replaces a file that is none.
pub open spec fn with_file(
    m: Map<(Seq<char>, Seq<char>), Seq<char>>,
    f: PackFile,
) -> Map<(Seq<char>, Seq<char>), Seq<char>> {
    let key = (f.namespace@, key_path(f.relative@));
    if f.relative@.len() > 0 && f.relative@[0] == '.' {
        m
    } else if !m.dom().contains(key) || (is_sidecar(f.path@) && !is_sidecar(m[key])) {
        m.insert(key, f.path@)
    } else {
        m
    }
}

/// The map with the first `n` files of a list.
pub open spec fn with_files(
    m: Map<(Seq<char>, Seq<char>), Seq<char>>,
    files: Seq<PackFile>,
    n: int,
) -> Map<(Seq<char>, Seq<char>), Seq<char>>
    decreases n,
{
    if n <= 0 {
        m
    } else {
        with_file(with_files(m, files, n - 1), files[n - 1])
    }
}

/// The map of the files of the first `n` packs.
pub open spec fn indexed(found: Seq<FoundPack>, n: int) -> Map<(Seq<char>, Seq<char>), Seq<char>>
    decreases n,
{
    if n <= 0 {
        Map::empty()
    } else {
        let files = found[n - 1].files@;
        with_files(indexed(found, n - 1), files, files.len() as int)
    }
}

/// The key that orders roots: as text, with the separator before everything
/// else, so that a directory's tree stands together.
pub open spec fn root_key(root: Seq<char>) -> Seq<char> {
    replaced(root, '/', '\0')
}

impl PackIndex {
    pub open spec fn wf(&self) -> bool {
        &&& self.keys.len() == self.paths.len()
        &&& forall|i: int, j: int| #![trigger self.keys@[i], self.keys@[j]]
            0 <= i < j < self.keys.len() ==> !(self.keys@[i].0@ == self.keys@[j].0@
                && self.keys@[i].1@ == self.keys@[j].1@)
    }

    /// The index as a map.
    pub open spec fn map(&self) -> Map<(Seq<char>, Seq<char>), Seq<char>> {
        Map::new(
            |k: (Seq<char>, Seq<char>)| pair_pos(self.keys@, k.0, k.1) < self.keys.len(),
            |k: (Seq<char>, Seq<char>)| self.paths@[pair_pos(self.keys@, k.0, k.1)]@,
        )
    }

    /// An index without files.
    pub fn new(packs: Vec<PackRoot>) -> (r: PackIndex)
        ensures
            r.wf(),
            r.map() == Map::<(Seq<char>, Seq<char>), Seq<char>>::empty(),
            r.packs@ == packs@,
    {
        let r = PackIndex { keys: Vec::new(), paths: Vec::new(), packs };
        assert(r.map() =~= Map::<(Seq<char>, Seq<char>), Seq<char>>::empty()) by {
            assert forall|k: (Seq<char>, Seq<char>)| !(#[trigger] r.map().dom().contains(k)) by {
                lemma_pair_pos(r.keys@, k.0, k.1, 0);
            }
        }
        r
    }

    /// The file of a key.
    pub fn get(&self, namespace: &str, path: &str) -> (r: Option<&String>)
        requires
            self.wf(),
        ensures
            match r {
                Some(p) => self.map().dom().contains((namespace@, path@)) && self.map()[(
                    namespace@,
                    path@,
                )] == p@,
                None => !self.map().dom().contains((namespace@, path@)),
            },
    {
        let i = find_pair(&self.keys, namespace, path);
        if i < self.keys.len() {
            Some(&self.paths[i])
        } else {
            None
        }
    }

    /// Enters one file.
    pub fn insert(&mut self, f: &PackFile)
        requires
            old(self).wf(),
        ensures
            final(self).wf(),
            final(self).map() == with_file(old(self).map(), *f),
            final(self).packs == old(self).packs,
    {
        let ghost m0 = self.map();
        let ghost keys0 = self.keys@;
        let key = match key_of(f.relative.as_str()) {
            Some(k) => k,
            None => {
                return;
            },
        };
        let ghost k = (f.namespace@, key@);
        let i = find_pair(&self.keys, f.namespace.as_str(), key.as_str());
        assert(m0.dom().contains(k) == (i < self.keys.len()));
        if i < self.keys.len() {
            if str_ends_with(f.path.as_str(), ".mcmeta") && !str_ends_with(
                self.paths[i].as_str(),
                ".mcmeta",
            ) {
                let ghost paths0 = self.paths@;
                self.paths.set(i, f.path.clone());
                assert(self.map() =~= m0.insert(k, f.path@)) by {
                    assert forall|q: (Seq<char>, Seq<char>)|
                        self.map().dom().contains(q) == #[trigger] m0.insert(
                            k,
                            f.path@,
                        ).dom().contains(q) by {}
                    assert forall|q: (Seq<char>, Seq<char>)| #[trigger]
                        self.map().dom().contains(q) implies self.map()[q] == m0.insert(
                        k,
                        f.path@,
                    )[q] by {
                        let p = pair_pos(self.keys@, q.0, q.1);
                        lemma_pos_bounds(self.keys@, q.0, q.1);
                        if p == i {
                            assert(q == k);
                        } else {
                            assert(q != k);
                            assert(self.paths@[p] == paths0[p]);
                        }
                    }
                }
            }
        } else {
            self.keys.push((f.namespace.clone(), key));
            self.paths.push(f.path.clone());
            assert(self.map() =~= m0.insert(k, f.path@)) by {
                assert forall|q: (Seq<char>, Seq<char>)| #![trigger m0.dom().contains(q)]
                    (self.map().dom().contains(q) <==> (m0.dom().contains(q) || q == k)) && (
                    self.map().dom().contains(q) ==> self.map()[q] == m0.insert(
                        k,
                        f.path@,
                    )[q]) by {
                    lemma_pos_bounds(keys0, q.0, q.1);
                    let p = pair_pos(keys0, q.0, q.1);
                    if p < keys0.len() {
                        assert forall|j: int| 0 <= j < p implies !((#[trigger] self.keys@[j]).0@
                            == q.0 && self.keys@[j].1@ == q.1) by {
                            assert(self.keys@[j] == keys0[j]);
                        }
                        assert(self.keys@[p] == keys0[p]);
                        lemma_pair_pos(self.keys@, q.0, q.1, p);
                        assert(q != k);
                    } else {
                        assert forall|j: int| 0 <= j < keys0.len() implies !((
                        #[trigger] self.keys@[j]).0@ == q.0 && self.keys@[j].1@ == q.1) by {
                            assert(self.keys@[j] == keys0[j]);
                        }
                        if q == k {
                            lemma_pair_pos(self.keys@, q.0, q.1, keys0.len() as int);
                        } else {
                            assert(!(self.keys@[keys0.len() as int].0@ == q.0
                                && self.keys@[keys0.len() as int].1@ == q.1));
                            lemma_pair_pos(self.keys@, q.0, q.1, self.keys@.len() as int);
                        }
                    }
                }
                assert forall|q: (Seq<char>, Seq<char>)|
                    self.map().dom().contains(q) == #[trigger] m0.insert(k, f.path@).dom().contains(
                        q,
                    ) by {
                    assert(m0.dom().contains(q) || !m0.dom().contains(q));
                }
            }
        }
    }
}

proof fn lemma_pos_bounds(v: Seq<(String, String)>, a: Seq<char>, b: Seq<char>)
    ensures
        0 <= pair_pos(v, a, b) <= v.len(),
        pair_pos(v, a, b) < v.len() ==> v[pair_pos(v, a, b)].0@ == a && v[pair_pos(v, a, b)].1@
            == b,
        forall|k: int|
            0 <= k < pair_pos(v, a, b) ==> !((#[trigger] v[k]).0@ == a && v[k].1@ == b),
    decreases v.len(),
{
    if v.len() > 0 && !(v[0].0@ == a && v[0].1@ == b) {
        lemma_pos_bounds(v.skip(1), a, b);
        assert forall|k: int| 0 <= k < pair_pos(v, a, b) implies !((#[trigger] v[k]).0@ == a
            && v[k].1@ == b) by {
            if k > 0 {
                assert(v.skip(1)[k - 1] == v[k]);
            }
        }
    }
}

/// Builds the index of the packs found under a directory: the packs stand by
/// their roots, and their files are entered in that order. It is an error
/// when no pack was found.
pub fn discover(base: &str, found: Vec<FoundPack>) -> (r: AssetResult<PackIndex>)
    ensures
        found.len() == 0 ==> fails_with(
            r,
            base@,
            "no resource pack found (no pack.mcmeta)"@,
        ),
        found.len() > 0 ==> r is Ok && r->Ok_0.wf() && indexes(r->Ok_0, found@),
{
    if found.len() == 0 {
        return err(base, "no resource pack found (no pack.mcmeta)");
    }
    let ghost all = found@;
    let mut keyed: Vec<(String, FoundPack)> = Vec::new();
    for pack in it: found
        invariant
            it.seq() == found@,
            all == found@,
            keyed@.len() == it.index(),
            forall|i: int|
                0 <= i < keyed@.len() ==> (#[trigger] keyed@[i]).0@ == root_key(
                    all[i].pack.root@,
                ) && keyed@[i].1 == all[i],
    {
        let root = chars_of(pack.pack.root.as_str());
        let key = replace_char(&root, '/', '\0');
        keyed.push((string_of(&key), pack));
    }
    let ghost items = keyed@;
    let sorted = sort_by_key(keyed);
    let ghost order = sorted@;
    let mut index = PackIndex::new(Vec::new());
    let mut packs: Vec<PackRoot> = Vec::new();
    for entry in it: sorted
        invariant
            it.seq() == sorted@,
            order == sorted@,
            index.wf(),
            index.map() == indexed(order, it.index() as int),
            packs@.len() == it.index(),
            forall|i: int| 0 <= i < packs@.len() ==> #[trigger] packs@[i] == order[i].pack,
    {
        let ghost n = it.index() as int;
        let ghost before = index.map();
        assert(order[n] == entry);
        let mut k: usize = 0;
        while k < entry.files.len()
            invariant
                k <= entry.files.len(),
                index.wf(),
                index.map() == with_files(before, entry.files@, k as int),
            decreases entry.files.len() - k,
        {
            index.insert(&entry.files[k]);
            k += 1;
        }
        packs.push(entry.pack);
    }
    let ghost filled = index;
    index.packs = packs;
    proof {
        assert(index.map() =~= filled.map());
        assert(index.wf());
        assert(keys_of(items) =~= root_keys(all));
        let perm = choose|o: Seq<usize>|
            is_stable_order(
                o,
                items.len() as int,
                names_le(keys_of(items)),
            ) && is_picked(order, items, o);
        assert(is_order_of(perm, order, all)) by {
            assert forall|i: int| 0 <= i < order.len() implies #[trigger] order[i]
                == all[perm[i] as int] by {
                assert(perm[i] < all.len());
                assert(items[perm[i] as int].1 == all[perm[i] as int]);
            }
        }
        assert(is_index_of(index, order, all));
    }
    assert(indexes(index, found@));
    Ok(index)
}

/// The order keys of the roots of packs.
pub open spec fn root_keys(found: Seq<FoundPack>) -> Seq<Seq<char>> {
    Seq::new(found.len(), |i: int| root_key(found[i].pack.root@))
}

/// `perm` puts the packs in the order of their roots, giving `sorted`.
pub open spec fn is_order_of(
    perm: Seq<usize>,
    sorted: Seq<FoundPack>,
    found: Seq<FoundPack>,
) -> bool {
    &&& is_stable_order(
        perm,
        found.len() as int,
        names_le(root_keys(found)),
    )
    &&& sorted.len() == found.len()
    &&& forall|i: int| 0 <= i < sorted.len() ==> #[trigger] sorted[i] == found[perm[i] as int]
}

/// The index holds the packs found, in the order of their roots, and their
/// files.
pub open spec fn is_index_of(
    index: PackIndex,
    sorted: Seq<FoundPack>,
    found: Seq<FoundPack>,
) -> bool {
    &&& exists|perm: Seq<usize>| #[trigger] is_order_of(perm, sorted, found)
    &&& index.map() == indexed(sorted, sorted.len() as int)
    &&& index.packs.len() == sorted.len()
    &&& forall|i: int| 0 <= i < sorted.len() ==> #[trigger] index.packs@[i] == sorted[i].pack
}

/// The index is that of the packs found.
pub open spec fn indexes(index: PackIndex, found: Seq<FoundPack>) -> bool {
    exists|sorted: Seq<FoundPack>| #[trigger] is_index_of(index, sorted, found)
}

/// A sidecar wins over the picture it belongs to in either order of the walk:
/// once both are entered, the key leads to the sidecar.
pub proof fn law_sidecar_wins(
    m: Map<(Seq<char>, Seq<char>), Seq<char>>,
    picture: PackFile,
    sidecar: PackFile,
)
    requires
        picture.namespace@ == sidecar.namespace@,
        key_path(picture.relative@) == key_path(sidecar.relative@),
        !(picture.relative@.len() > 0 && picture.relative@[0] == '.'),
        !(sidecar.relative@.len() > 0 && sidecar.relative@[0] == '.'),
        is_sidecar(sidecar.path@),
        !is_sidecar(picture.path@),
        !m.dom().contains((picture.namespace@, key_path(picture.relative@))),
    ensures
        with_file(with_file(m, picture), sidecar) == with_file(with_file(m, sidecar), picture),
        with_file(with_file(m, picture), sidecar)[(
            picture.namespace@,
            key_path(picture.relative@),
        )] == sidecar.path@,
{
    let k = (picture.namespace@, key_path(picture.relative@));
    assert(m.insert(k, picture.path@).insert(k, sidecar.path@) =~= m.insert(k, sidecar.path@));
}

/// The description of a pack is the text that its document gives.
pub proof fn law_descriptions_are_text(doc: JsonShape, pack: JsonShape, s: Seq<char>)
    ensures
        member(doc, "pack"@) is None ==> described(doc) is None,
        member(doc, "pack"@) == Some(pack) && member(pack, "description"@) == Some(
            JsonShape::Text(s),
        ) ==> described(doc) == Some(s),
        member(doc, "pack"@) == Some(pack) && member(pack, "description"@) is None ==> described(
            doc,
        ) is None,
        member(doc, "pack"@) == Some(pack) && member(pack, "description"@) == Some(JsonShape::Null)
            ==> described(doc) is None,
{
}

/// A file is found under its path without the last extension.
pub proof fn law_keys_have_no_extension(a: Seq<char>, b: Seq<char>)
    requires
        !b.contains('.'),
    ensures
        b.len() > 0 && a.len() > 0 && a.last() != '.' ==> key_path(a.push('.') + b) == a,
        key_path(b) == b,
        key_path(a.push('.')) == a.push('.'),
        key_path(a.push('.').push('.') + b) == a.push('.').push('.') + b,
{
    assert forall|k: int| 0 <= k < b.len() implies #[trigger] b[k] != '.' by {
        assert(b.contains(b[k]));
    }
    let s = a.push('.') + b;
    assert forall|k: int| a.len() < k < s.len() implies #[trigger] s[k] != '.' by {
        assert(s[k] == b[k - a.len() - 1]);
    }
    crate::paths::lemma_last_pos(s, '.', a.len() as int);
    assert(s.take(a.len() as int) =~= a);
    crate::paths::lemma_last_pos(b, '.', -1);
    crate::paths::lemma_last_pos(a.push('.'), '.', a.len() as int);
    let t = a.push('.').push('.') + b;
    assert forall|k: int| a.len() + 1 < k < t.len() implies #[trigger] t[k] != '.' by {
        assert(t[k] == b[k - a.len() - 2]);
    }
    crate::paths::lemma_last_pos(t, '.', a.len() as int + 1);
    assert(t[a.len() as int] == '.');
}

/// The files of a list: hidden ones are passed over, and of several files with
/// one key the first counts where no sidecar is among them.
pub proof fn law_first_file_counts(
    m: Map<(Seq<char>, Seq<char>), Seq<char>>,
    files: Seq<PackFile>,
    n: int,
    key: (Seq<char>, Seq<char>),
    i: int,
)
    requires
        0 <= n <= files.len(),
        0 <= i <= n,
        !m.dom().contains(key),
        forall|k: int|
            0 <= k < i ==> hidden(#[trigger] files[k]) || (files[k].namespace@, key_path(
                files[k].relative@,
            )) != key,
        i < n ==> !hidden(files[i]) && (files[i].namespace@, key_path(files[i].relative@)) == key,
        forall|k: int|
            i < k < n && (files[k].namespace@, key_path(files[k].relative@)) == key ==> !ends_with(
                (#[trigger] files[k]).path@,
                ".mcmeta"@,
            ),
    ensures
        i < n ==> with_files(m, files, n).dom().contains(key) && with_files(m, files, n)[key]
            == files[i].path@,
        i == n ==> !with_files(m, files, n).dom().contains(key),
    decreases n,
{
    if n > 0 {
        if i < n {
            law_first_file_counts(m, files, n - 1, key, if i < n - 1 { i } else { n - 1 });
        } else {
            assert(hidden(files[n - 1]) || (files[n - 1].namespace@, key_path(
                files[n - 1].relative@,
            )) != key);
            law_first_file_counts(m, files, n - 1, key, n - 1);
        }
    }
}

/// A file whose name in the pack begins with a dot.
pub open spec fn hidden(f: PackFile) -> bool {
    f.relative@.len() > 0 && f.relative@[0] == '.'
}

/// What an earlier pack gave under a key stays, unless a sidecar takes the
/// place of a file that is none.
pub proof fn law_earlier_files_stay(
    m: Map<(Seq<char>, Seq<char>), Seq<char>>,
    f: PackFile,
    key: (Seq<char>, Seq<char>),
)
    requires
        m.dom().contains(key),
    ensures
        with_file(m, f).dom().contains(key),
        ends_with(m[key], ".mcmeta"@) ==> with_file(m, f)[key] == m[key],
        !ends_with(f.path@, ".mcmeta"@) ==> with_file(m, f)[key] == m[key],
        (f.namespace@, key_path(f.relative@)) != key ==> with_file(m, f)[key] == m[key],
        hidden(f) ==> with_file(m, f) == m,
        (f.namespace@, key_path(f.relative@)) == key && !hidden(f) && ends_with(
            f.path@,
            ".mcmeta"@,
        ) && !ends_with(m[key], ".mcmeta"@) ==> with_file(m, f)[key] == f.path@,
{
}

/// The slash stands before every other character in the order of roots.
pub proof fn law_slashes_order_first(root: Seq<char>, i: int)
    requires
        0 <= i < root.len(),
    ensures
        root_key(root).len() == root.len(),
        root[i] == '/' ==> root_key(root)[i] as u32 == 0,
        root[i] != '/' ==> root_key(root)[i] == root[i],
{
}

/// What an earlier pack gives under a key without a sidecar, later packs do
/// not take away: the key stays known, and only a sidecar may take its place.
pub proof fn law_earlier_packs_count(
    m: Map<(Seq<char>, Seq<char>), Seq<char>>,
    files: Seq<PackFile>,
    n: int,
    key: (Seq<char>, Seq<char>),
)
    requires
        0 <= n <= files.len(),
        m.dom().contains(key),
        forall|k: int|
            0 <= k < n && (files[k].namespace@, key_path(files[k].relative@)) == key ==> !ends_with(
                (#[trigger] files[k]).path@,
                ".mcmeta"@,
            ),
    ensures
        with_files(m, files, n).dom().contains(key),
        with_files(m, files, n)[key] == m[key],
    decreases n,
{
    if n > 0 {
        law_earlier_packs_count(m, files, n - 1, key);
        let before = with_files(m, files, n - 1);
        law_earlier_files_stay(before, files[n - 1], key);
    }
}

/// The packs of an index are those found, in the order of their roots, and a
/// pack's files come behind those of the packs before it.
pub proof fn law_packs_stand_by_root(
    index: PackIndex,
    sorted: Seq<FoundPack>,
    found: Seq<FoundPack>,
    i: int,
    j: int,
)
    requires
        is_index_of(index, sorted, found),
        0 <= i < j < sorted.len(),
    ensures
        index.packs@.len() == found.len(),
        crate::order::name_le(root_key(index.packs@[i].root@), root_key(index.packs@[j].root@)),
        exists|k: int| 0 <= k < found.len() && index.packs@[i] == (#[trigger] found[k]).pack,
        indexed(sorted, j) == with_files(
            indexed(sorted, j - 1),
            sorted[j - 1].files@,
            sorted[j - 1].files@.len() as int,
        ),
        indexed(sorted, 0) == Map::<(Seq<char>, Seq<char>), Seq<char>>::empty(),
{
    let perm = choose|perm: Seq<usize>| #[trigger] is_order_of(perm, sorted, found);
    let le = names_le(root_keys(found));
    assert(le(perm[i] as int, perm[j] as int));
    assert(sorted[i] == found[perm[i] as int]);
    assert(sorted[j] == found[perm[j] as int]);
    assert(index.packs@[i] == sorted[i].pack);
    assert(index.packs@[j] == sorted[j].pack);
    assert(index.packs@[i] == found[perm[i] as int].pack);
}

/// An index finds what the files of its packs give, taken in the order of
/// their roots.
pub proof fn law_index_finds_the_files(
    index: PackIndex,
    sorted: Seq<FoundPack>,
    found: Seq<FoundPack>,
)
    requires
        is_index_of(index, sorted, found),
    ensures
        sorted.len() == found.len(),
        found.len() == 0 ==> index.map() == Map::<(Seq<char>, Seq<char>), Seq<char>>::empty(),
        found.len() > 0 ==> index.map() == with_files(
            indexed(sorted, sorted.len() - 1),
            sorted.last().files@,
            sorted.last().files@.len() as int,
        ),
{
}

} // verus!
