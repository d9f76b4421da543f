//! Shader packs: how they are told apart and what is recorded of them.
//!
//! Shader packs are other people's works under their own licenses. The crate
//! records where a pack's license lies and claims nothing of it.

use crate::ascii::{
    lowercase, lowercased, same_ignoring_case, str_same_ignoring_case, strip_all, strip_all_chars,
};
use crate::library::{lemma_listing, listed_by};
use crate::naming::{marked, pack_id};
use crate::order::sort_by_key;
use crate::paths::{extension, extension_of, stem, stem_of};
use crate::properties::{read_line, stated};
use crate::resource::{opt_text, SourceInfo};
use crate::text::{
    chars_of, contains, ends_with, find_name, index_of_name, join2, join3, names_of, pieces_of,
    replace_char, replaced, split, split_chars, starts_with, str_contains, str_ends_with, str_eq,
    str_starts_with, string_of,
};
use vstd::prelude::*;

verus! {

/// Which convention a shader pack follows.
#[derive(Clone, Copy, Debug, PartialEq, Eq, Structural)]
pub enum ShaderLayout {
    /// Program files `*.fsh` and `*.vsh`.
    OptifineStyle,
    /// Pass files `*.glsl` and `*.gsh`.
    GlslPasses,
    /// Neither.
    Unknown,
}

/// An engine that a pack claims to work with.
#[derive(Debug)]
pub struct EngineCompat {
    pub engine: String,
    pub min_version: Option<String>,
}

/// An engine claim, as text.
#[verifier::ext_equal]
pub struct EngineShape {
    pub engine: Seq<char>,
    pub min_version: Option<Seq<char>>,
}

impl EngineCompat {
    pub open spec fn shape(&self) -> EngineShape {
        EngineShape { engine: self.engine@, min_version: opt_text(self.min_version) }
    }
}

/// The claims of a list.
pub open spec fn engine_shapes(v: Seq<EngineCompat>) -> Seq<EngineShape> {
    Seq::new(v.len(), |i: int| v[i].shape())
}

/// How a shader pack was installed.
#[derive(Clone, Copy, Debug, PartialEq, Eq, Structural)]
pub enum ShaderKind {
    Zip,
    Folder,
}

/// One installed shader pack.
#[derive(Debug)]
pub struct ShaderPack {
    pub id: String,
    pub name: String,
    pub description: Option<String>,
    pub profile: ShaderLayout,
    /// What the pack claims of itself, word for word.
    pub engines: Vec<EngineCompat>,
    pub dir: String,
    pub kind: ShaderKind,
    pub source: SourceInfo,
}

/// The names under which a pack may bring its license, the best first.
pub open spec fn license_names() -> Seq<Seq<char>> {
    seq!["LICENSE"@, "LICENSE.md"@, "LICENSE.txt"@, "COPYING"@, "license.txt"@]
}

/// The first license name that is among the files of a pack.
pub open spec fn license_among(files: Seq<Seq<char>>, n: int) -> Option<Seq<char>>
    decreases n,
{
    if n <= 0 {
        None
    } else if license_among(files, n - 1) is Some {
        license_among(files, n - 1)
    } else if n <= 5 && index_of_name(files, license_names()[n - 1]) < files.len() {
        Some(license_names()[n - 1])
    } else {
        None
    }
}

/// The line on a pack's license.
pub open spec fn license_line(note: Option<Seq<char>>, file: Option<Seq<char>>) -> Seq<char> {
    match note {
        Some(n) => n,
        None => match file {
            Some(f) => "Third-party shader pack — its own license applies (see "@ + f + ")"@,
            None =>
                "Third-party shader pack — its own license applies (no license file found; check the pack's distribution page)"@,
        },
    }
}

impl ShaderPack {
    /// The pack's own license file among the files it brought, if any.
    pub fn license_file(&self, files: &[String]) -> (r: Option<String>)
        ensures
            match r {
                Some(f) => license_among(names_of(files@), 5) == Some(f@),
                None => license_among(names_of(files@), 5) is None,
            },
    {
        let ghost all = names_of(files@);
        let candidates: [&str; 5] = [
            "LICENSE",
            "LICENSE.md",
            "LICENSE.txt",
            "COPYING",
            "license.txt",
        ];
        let mut n: usize = 0;
        while n < 5
            invariant
                n <= 5,
                all == names_of(files@),
                candidates@.len() == 5,
                forall|i: int| 0 <= i < 5 ==> (#[trigger] candidates@[i])@ == license_names()[i],
                license_among(all, n as int) is None,
            decreases 5 - n,
        {
            let i = find_name(files, candidates[n]);
            if i < files.len() {
                assert(license_among(all, n + 1) == Some(license_names()[n as int]));
                proof {
                    lemma_license_stays(all, n + 1, 5);
                }
                return Some(candidates[n].to_owned());
            }
            n += 1;
        }
        None
    }

    /// A line on the license for people: the note taken down at import, or
    /// where the pack's license is to be found. Nothing is guessed.
    pub fn license_summary(&self, license_file: Option<&str>) -> (r: String)
        ensures
            r@ == license_line(
                opt_text(self.source.license_note),
                match license_file {
                    Some(f) => Some(f@),
                    None => None,
                },
            ),
    {
        match (&self.source.license_note, license_file) {
            (Some(note), _) => note.clone(),
            (None, Some(f)) => join3(
                "Third-party shader pack — its own license applies (see ",
                f,
                ")",
            ),
            (None, None) =>
                "Third-party shader pack — its own license applies (no license file found; check the pack's distribution page)".to_owned(),
        }
    }
}

proof fn lemma_license_stays(files: Seq<Seq<char>>, n: int, m: int)
    requires
        0 <= n <= m,
        license_among(files, n) is Some,
    ensures
        license_among(files, m) == license_among(files, n),
    decreases m,
{
    if n < m {
        lemma_license_stays(files, n, m - 1);
    }
}

/// What a key of `shaders.properties` claims of an engine.
pub open spec fn claim(key: Seq<char>, value: Seq<char>) -> Option<EngineShape> {
    if key == "profile.requires"@ || key == "requires"@ || key == "supports"@ {
        Some(EngineShape { engine: value, min_version: None })
    } else if starts_with(key, "profile.requires."@) {
        Some(
            EngineShape {
                engine: strip_all(key, "profile.requires."@),
                min_version: Some(value),
            },
        )
    } else if starts_with(key, "iris.features."@) || starts_with(key, "optifine.features."@) {
        Some(EngineShape { engine: key, min_version: Some(value) })
    } else {
        None
    }
}

/// The claims of the first `n` lines.
pub open spec fn claims(lines: Seq<Seq<char>>, n: int) -> Seq<EngineShape>
    decreases n,
{
    if n <= 0 {
        Seq::empty()
    } else {
        let before = claims(lines, n - 1);
        match stated(lines[n - 1]) {
            Some(p) => match claim(p.0, p.1) {
                Some(e) => before.push(e),
                None => before,
            },
            None => before,
        }
    }
}

/// The engine claims of a `shaders.properties` text.
pub open spec fn engines_in(text: Seq<char>) -> Seq<EngineShape> {
    claims(split(text, '\n'), split(text, '\n').len() as int)
}

fn claim_of(key: String, value: String) -> (r: Option<EngineCompat>)
    ensures
        match r {
            Some(e) => claim(key@, value@) == Some(e.shape()),
            None => claim(key@, value@) is None,
        },
{
    if str_eq(key.as_str(), "profile.requires") || str_eq(key.as_str(), "requires") || str_eq(
        key.as_str(),
        "supports",
    ) {
        Some(EngineCompat { engine: value, min_version: None })
    } else if str_starts_with(key.as_str(), "profile.requires.") {
        let k = chars_of(key.as_str());
        let p = chars_of("profile.requires.");
        let rest = strip_all_chars(&k, &p);
        Some(EngineCompat { engine: string_of(&rest), min_version: Some(value) })
    } else if str_starts_with(key.as_str(), "iris.features.") || str_starts_with(
        key.as_str(),
        "optifine.features.",
    ) {
        Some(EngineCompat { engine: key, min_version: Some(value) })
    } else {
        None
    }
}

/// Reads the keys of `shaders.properties` that name target engines: the
/// conventional `requires` keys, and the feature keys of engines, each as an
/// entry of its own.
pub fn parse_properties_text(text: &str) -> (r: Vec<EngineCompat>)
    ensures
        engine_shapes(r@) == engines_in(text@),
{
    let t = chars_of(text);
    let lines = split_chars(&t, '\n');
    let ghost all = pieces_of(lines@);
    let mut out: Vec<EngineCompat> = Vec::new();
    assert(engine_shapes(out@) =~= Seq::<EngineShape>::empty());
    let mut n: usize = 0;
    while n < lines.len()
        invariant
            n <= lines.len(),
            all == pieces_of(lines@),
            engine_shapes(out@) == claims(all, n as int),
        decreases lines.len() - n,
    {
        let ghost before = engine_shapes(out@);
        assert(all[n as int] == lines@[n as int]@);
        match read_line(&lines[n]) {
            Some((k, v)) => match claim_of(k, v) {
                Some(e) => {
                    let ghost shape = e.shape();
                    out.push(e);
                    assert(engine_shapes(out@) =~= before.push(shape));
                },
                None => {},
            },
            None => {},
        }
        n += 1;
    }
    out
}

/// A part of a name that is, or ends in, the wanted word.
pub open spec fn part_matches(p: Seq<char>, want: Seq<char>) -> bool {
    same_ignoring_case(p, want) || ends_with(lowercased(p), want)
}

/// Some part of the name, between slashes of either kind, matches.
pub open spec fn any_part_matches(name: Seq<char>, want: Seq<char>) -> bool {
    let parts = split(replaced(name, '\\', '/'), '/');
    exists|i: int| 0 <= i < parts.len() && part_matches(#[trigger] parts[i], want)
}

/// Whether a part of the name is the wanted word or ends in it, so that
/// wrapper folders count.
pub fn components_contain(name: &str, want: &str) -> (r: bool)
    ensures
        r == any_part_matches(name@, want@),
{
    let n = chars_of(name);
    let plain = replace_char(&n, '\\', '/');
    let parts = split_chars(&plain, '/');
    let ghost all = pieces_of(parts@);
    let mut i: usize = 0;
    while i < parts.len()
        invariant
            i <= parts.len(),
            all == pieces_of(parts@),
            all == split(replaced(name@, '\\', '/'), '/'),
            forall|k: int| 0 <= k < i ==> !part_matches(#[trigger] all[k], want@),
        decreases parts.len() - i,
    {
        assert(all[i as int] == parts@[i as int]@);
        let part = string_of(&parts[i]);
        let low = lowercase(part.as_str());
        if str_same_ignoring_case(part.as_str(), want) || str_ends_with(low.as_str(), want) {
            assert(part_matches(all[i as int], want@));
            return true;
        }
        i += 1;
    }
    false
}

/// A program file, by its name in lower case.
pub open spec fn is_program(low: Seq<char>) -> bool {
    ends_with(low, ".fsh"@) || ends_with(low, ".vsh"@)
}

/// A pass file, by its name in lower case.
pub open spec fn is_pass(low: Seq<char>) -> bool {
    ends_with(low, ".glsl"@) || ends_with(low, ".gsh"@)
}

fn program_name(low: &str) -> (r: bool)
    ensures
        r == is_program(low@),
{
    str_ends_with(low, ".fsh") || str_ends_with(low, ".vsh")
}

fn pass_name(low: &str) -> (r: bool)
    ensures
        r == is_pass(low@),
{
    str_ends_with(low, ".glsl") || str_ends_with(low, ".gsh")
}

/// A member of a shader archive with its text; other members than property
/// files need no text.
#[derive(Debug)]
pub struct ShaderEntry {
    pub name: String,
    pub is_dir: bool,
    pub text: String,
}

/// A name that could leave the destination.
pub open spec fn is_unsafe_name(name: Seq<char>) -> bool {
    (name.len() > 0 && name[0] == '/') || contains(name, ".."@)
}

fn unsafe_name(name: &str) -> (r: bool)
    ensures
        r == is_unsafe_name(name@),
{
    let n = chars_of(name);
    (n.len() > 0 && n[0] == '/') || str_contains(name, "..")
}

/// The member lies in a shader directory.
pub open spec fn in_shaders(e: ShaderEntry) -> bool {
    !e.is_dir && any_part_matches(e.name@, "shaders"@)
}

/// The member is a shader file of a shader directory.
pub open spec fn is_shader_file(e: ShaderEntry) -> bool {
    in_shaders(e) && (is_program(lowercased(e.name@)) || is_pass(lowercased(e.name@)))
}

/// The member holds the properties of a shader directory.
pub open spec fn is_properties_file(e: ShaderEntry) -> bool {
    in_shaders(e) && !is_shader_file(e) && ends_with(
        lowercased(e.name@),
        "shaders.properties"@,
    )
}

/// The claims of the last properties file among the first `n` members.
pub open spec fn archive_engines(entries: Seq<ShaderEntry>, n: int) -> Seq<EngineShape>
    decreases n,
{
    if n <= 0 {
        Seq::empty()
    } else if is_properties_file(entries[n - 1]) {
        engines_in(entries[n - 1].text@)
    } else {
        archive_engines(entries, n - 1)
    }
}

/// One of the first `n` members passes a test.
pub open spec fn any_entry(
    entries: Seq<ShaderEntry>,
    n: int,
    p: spec_fn(ShaderEntry) -> bool,
) -> bool {
    exists|i: int| 0 <= i < n && p(#[trigger] entries[i])
}

/// What validation found in a shader archive.
#[derive(Debug)]
pub struct ShaderValidation {
    /// Why the archive cannot be installed.
    pub fatal: Option<String>,
    pub warnings: Vec<String>,
    pub profile: Option<ShaderLayout>,
    pub engines: Vec<EngineCompat>,
}

/// The first unsafe file; the length where there is none.
pub open spec fn first_unsafe_entry(entries: Seq<ShaderEntry>) -> int
    decreases entries.len(),
{
    if entries.len() == 0 {
        0
    } else if !entries[0].is_dir && is_unsafe_name(entries[0].name@) {
        0
    } else {
        1 + first_unsafe_entry(entries.skip(1))
    }
}

proof fn lemma_first_unsafe_entry(entries: Seq<ShaderEntry>, i: int)
    requires
        0 <= i <= entries.len(),
        forall|k: int|
            0 <= k < i ==> (#[trigger] entries[k]).is_dir || !is_unsafe_name(entries[k].name@),
        i < entries.len() ==> !entries[i].is_dir && is_unsafe_name(entries[i].name@),
    ensures
        first_unsafe_entry(entries) == i,
    decreases entries.len(),
{
    if entries.len() > 0 && i > 0 {
        assert(entries[0].is_dir || !is_unsafe_name(entries[0].name@));
        assert forall|k: int| 0 <= k < i - 1 implies (#[trigger] entries.skip(1)[k]).is_dir
            || !is_unsafe_name(entries.skip(1)[k].name@) by {
            assert(entries.skip(1)[k] == entries[k + 1]);
        }
        lemma_first_unsafe_entry(entries.skip(1), i - 1);
    }
}

proof fn lemma_any_entry_step(entries: Seq<ShaderEntry>, n: int, p: spec_fn(ShaderEntry) -> bool)
    requires
        0 <= n < entries.len(),
    ensures
        any_entry(entries, n + 1, p) == (any_entry(entries, n, p) || p(entries[n])),
{
    if any_entry(entries, n, p) {
        let i = choose|i: int| 0 <= i < n && p(#[trigger] entries[i]);
        assert(0 <= i < n + 1);
    }
    if any_entry(entries, n + 1, p) {
        let i = choose|i: int| 0 <= i < n + 1 && p(#[trigger] entries[i]);
        if i < n {
            assert(any_entry(entries, n, p));
        }
    }
}

/// Judges a shader archive by its members, before anything is unpacked. An
/// unsafe name is an error. An archive without a shader directory cannot be
/// installed; one without known shader files can, with a warning.
pub fn validate_entries(entries: &[ShaderEntry]) -> (r: Result<ShaderValidation, String>)
    ensures
        match r {
            Ok(v) => {
                let n = entries.len() as int;
                let found = any_entry(entries@, n, |e: ShaderEntry| in_shaders(e));
                let files = any_entry(entries@, n, |e: ShaderEntry| is_shader_file(e));
                &&& first_unsafe_entry(entries@) == n
                &&& opt_text(v.fatal) == (if found {
                    None
                } else {
                    Some("no shaders/ directory in archive"@)
                })
                &&& names_of(v.warnings@) == (if found && !files {
                    seq!["shaders/ exists but contains no recognizable shader files"@]
                } else {
                    Seq::empty()
                })
                &&& v.profile is None
                &&& engine_shapes(v.engines@) == archive_engines(entries@, n)
            },
            Err(m) => {
                &&& first_unsafe_entry(entries@) < entries.len()
                &&& m@ == "unsafe archive entry: "@ + entries@[first_unsafe_entry(
                    entries@,
                )].name@
            },
        },
{
    let ghost inside = |e: ShaderEntry| in_shaders(e);
    let ghost file = |e: ShaderEntry| is_shader_file(e);
    let mut found = false;
    let mut files = false;
    let mut engines: Vec<EngineCompat> = Vec::new();
    assert(engine_shapes(engines@) =~= Seq::<EngineShape>::empty());
    let mut i: usize = 0;
    while i < entries.len()
        invariant
            i <= entries.len(),
            inside == (|e: ShaderEntry| in_shaders(e)),
            file == (|e: ShaderEntry| is_shader_file(e)),
            forall|k: int|
                0 <= k < i ==> (#[trigger] entries@[k]).is_dir || !is_unsafe_name(
                    entries@[k].name@,
                ),
            found == any_entry(entries@, i as int, inside),
            files == any_entry(entries@, i as int, file),
            engine_shapes(engines@) == archive_engines(entries@, i as int),
        decreases entries.len() - i,
    {
        let ghost had = found;
        let ghost had_files = files;
        let ghost cur = entries@[i as int];
        if !entries[i].is_dir {
            if unsafe_name(entries[i].name.as_str()) {
                proof {
                    lemma_first_unsafe_entry(entries@, i as int);
                }
                return Err(join2("unsafe archive entry: ", entries[i].name.as_str()));
            }
            if components_contain(entries[i].name.as_str(), "shaders") {
                found = true;
                let low = lowercase(entries[i].name.as_str());
                if program_name(low.as_str()) || pass_name(low.as_str()) {
                    files = true;
                } else if str_ends_with(low.as_str(), "shaders.properties") {
                    engines = parse_properties_text(entries[i].text.as_str());
                }
            }
        }
        assert(found == (had || inside(cur)));
        assert(files == (had_files || file(cur)));
        proof {
            lemma_any_entry_step(entries@, i as int, inside);
            lemma_any_entry_step(entries@, i as int, file);
        }
        i += 1;
    }
    proof {
        lemma_first_unsafe_entry(entries@, i as int);
    }
    let fatal = if found {
        None
    } else {
        Some("no shaders/ directory in archive".to_owned())
    };
    let mut warnings: Vec<String> = Vec::new();
    if found && !files {
        warnings.push("shaders/ exists but contains no recognizable shader files".to_owned());
    }
    assert(names_of(warnings@) =~= (if found && !files {
        seq!["shaders/ exists but contains no recognizable shader files"@]
    } else {
        Seq::<Seq<char>>::empty()
    }));
    Ok(ShaderValidation { fatal, warnings, profile: None, engines })
}

/// An archive that passes validation has no file whose name holds a step to
/// the directory above or starts at the root.
pub proof fn law_valid_archive_has_safe_names(entries: Seq<ShaderEntry>, i: int)
    requires
        first_unsafe_entry(entries) == entries.len(),
        0 <= i < entries.len(),
        !entries[i].is_dir,
    ensures
        !is_unsafe_name(entries[i].name@),
    decreases entries.len(),
{
    if i > 0 {
        assert(first_unsafe_entry(entries.skip(1)) == entries.len() - 1);
        assert(entries.skip(1)[i - 1] == entries[i]);
        law_valid_archive_has_safe_names(entries.skip(1), i - 1);
    }
}

/// The shader directory of a pack: `shaders` at its root, or else in the first
/// of its entries that has one.
pub open spec fn shaders_place(direct: bool, children: Seq<(String, bool)>) -> Option<Seq<char>> {
    if direct {
        Some("shaders"@)
    } else {
        let i = first_child(children);
        if i < children.len() {
            Some(children[i].0@ + "/shaders"@)
        } else {
            None
        }
    }
}

/// The first entry that has a shader directory; the length where none has.
pub open spec fn first_child(children: Seq<(String, bool)>) -> int
    decreases children.len(),
{
    if children.len() == 0 {
        0
    } else if children[0].1 {
        0
    } else {
        1 + first_child(children.skip(1))
    }
}

/// Finds the shader directory of a pack. `children` are the entries of the
/// pack's root, each with whether it has a directory `shaders`.
pub fn find_shaders_dir(direct: bool, children: &[(String, bool)]) -> (r: Option<String>)
    ensures
        opt_text(r) == shaders_place(direct, children@),
{
    if direct {
        return Some("shaders".to_owned());
    }
    let mut i: usize = 0;
    assert(children@.skip(0) =~= children@);
    while i < children.len() && !children[i].1
        invariant
            i <= children.len(),
            first_child(children@) == i + first_child(children@.skip(i as int)),
        decreases children.len() - i,
    {
        assert(children@.skip(i as int)[0] == children@[i as int]);
        assert(children@.skip(i as int).skip(1) =~= children@.skip(i + 1));
        i += 1;
    }
    if i < children.len() {
        assert(children@.skip(i as int)[0] == children@[i as int]);
        Some(join2(children[i].0.as_str(), "/shaders"))
    } else {
        None
    }
}

/// How many of the first `n` names are program files.
pub open spec fn programs(low: Seq<Seq<char>>, n: int) -> nat
    decreases n,
{
    if n <= 0 {
        0
    } else if is_program(low[n - 1]) {
        programs(low, n - 1) + 1
    } else {
        programs(low, n - 1)
    }
}

/// How many of the first `n` names are pass files.
pub open spec fn passes(low: Seq<Seq<char>>, n: int) -> nat
    decreases n,
{
    if n <= 0 {
        0
    } else if is_pass(low[n - 1]) && !is_program(low[n - 1]) {
        passes(low, n - 1) + 1
    } else {
        passes(low, n - 1)
    }
}

/// The layout that a shader directory's file names, in lower case, show: that
/// of the more frequent kind, program files on a draw.
pub open spec fn layout_by(low: Seq<Seq<char>>) -> ShaderLayout {
    let f = programs(low, low.len() as int);
    let g = passes(low, low.len() as int);
    if f == 0 && g == 0 {
        ShaderLayout::Unknown
    } else if f >= g {
        ShaderLayout::OptifineStyle
    } else {
        ShaderLayout::GlslPasses
    }
}

/// The layout of lower-case file names.
pub fn layout_of_names(low: &[String]) -> (r: ShaderLayout)
    ensures
        r == layout_by(names_of(low@)),
{
    let ghost all = names_of(low@);
    let mut f: usize = 0;
    let mut g: usize = 0;
    let mut n: usize = 0;
    while n < low.len()
        invariant
            n <= low.len(),
            all == names_of(low@),
            f == programs(all, n as int),
            g == passes(all, n as int),
            f <= n,
            g <= n,
        decreases low.len() - n,
    {
        assert(all[n as int] == low@[n as int]@);
        if program_name(low[n].as_str()) {
            f += 1;
        } else if pass_name(low[n].as_str()) {
            g += 1;
        }
        n += 1;
    }
    if f == 0 && g == 0 {
        ShaderLayout::Unknown
    } else if f >= g {
        ShaderLayout::OptifineStyle
    } else {
        ShaderLayout::GlslPasses
    }
}

/// Names in lower case.
pub open spec fn lowered(names: Seq<Seq<char>>) -> Seq<Seq<char>> {
    Seq::new(names.len(), |i: int| lowercased(names[i]))
}

/// The layout of a shader pack, by the names of the files of its shader
/// directory; nothing where it has none.
pub fn detect_profile(files: Option<&[String]>) -> (r: Option<ShaderLayout>)
    ensures
        r == (match files {
            Some(names) => Some(layout_by(lowered(names_of(names@)))),
            None => None,
        }),
{
    match files {
        Some(names) => {
            let mut low: Vec<String> = Vec::new();
            let mut i: usize = 0;
            while i < names.len()
                invariant
                    i <= names.len(),
                    low.len() == i,
                    forall|k: int| 0 <= k < i ==> (#[trigger] low@[k])@ == lowercased(names@[k]@),
                decreases names.len() - i,
            {
                low.push(lowercase(names[i].as_str()));
                i += 1;
            }
            assert(names_of(low@) =~= lowered(names_of(names@)));
            Some(layout_of_names(&low))
        },
        None => None,
    }
}

/// Some name has one of two extensions.
pub open spec fn any_with_extension(names: Seq<Seq<char>>, a: Seq<char>, b: Seq<char>) -> bool {
    exists|i: int|
        0 <= i < names.len() && (extension(#[trigger] names[i]) == Some(a) || extension(names[i])
            == Some(b))
}

fn has_extension(names: &[String], a: &str, b: &str) -> (r: bool)
    ensures
        r == any_with_extension(names_of(names@), a@, b@),
{
    let ghost all = names_of(names@);
    let mut i: usize = 0;
    while i < names.len()
        invariant
            i <= names.len(),
            all == names_of(names@),
            forall|k: int|
                0 <= k < i ==> !(extension(#[trigger] all[k]) == Some(a@) || extension(all[k])
                    == Some(b@)),
        decreases names.len() - i,
    {
        assert(all[i as int] == names@[i as int]@);
        match extension_of(names[i].as_str()) {
            Some(e) => {
                if str_eq(e.as_str(), a) || str_eq(e.as_str(), b) {
                    assert(any_with_extension(all, a@, b@));
                    return true;
                }
            },
            None => {},
        }
        i += 1;
    }
    false
}

/// The layout of a shader directory by the extensions of its files: one
/// program file is enough, or else one pass file.
pub fn detect_layout(names: &[String]) -> (r: ShaderLayout)
    ensures
        r == (if any_with_extension(names_of(names@), "fsh"@, "vsh"@) {
            ShaderLayout::OptifineStyle
        } else if any_with_extension(names_of(names@), "glsl"@, "gsh"@) {
            ShaderLayout::GlslPasses
        } else {
            ShaderLayout::Unknown
        }),
{
    if has_extension(names, "fsh", "vsh") {
        ShaderLayout::OptifineStyle
    } else if has_extension(names, "glsl", "gsh") {
        ShaderLayout::GlslPasses
    } else {
        ShaderLayout::Unknown
    }
}

/// The description of a shader pack: its first engine claim.
pub open spec fn targets(engines: Seq<EngineShape>) -> Option<Seq<char>> {
    if engines.len() > 0 {
        Some("targets "@ + engines[0].engine + " (from shaders.properties)"@)
    } else {
        None
    }
}

fn targets_of(engines: &Vec<EngineCompat>) -> (r: Option<String>)
    ensures
        opt_text(r) == targets(engine_shapes(engines@)),
{
    if engines.len() > 0 {
        assert(engine_shapes(engines@)[0] == engines@[0].shape());
        Some(join3("targets ", engines[0].engine.as_str(), " (from shaders.properties)"))
    } else {
        None
    }
}

/// The record of a shader pack unpacked from an archive. `props` are the bytes
/// of its properties file, `dir_name` the last part of its directory.
pub fn zip_pack(
    file_name: Option<&str>,
    zip_path: &str,
    dir: &str,
    dir_name: &str,
    props: &[u8],
    layout: Option<ShaderLayout>,
    engines: Vec<EngineCompat>,
) -> (r: ShaderPack)
    ensures
        r.id@ == marked(dir_name@, props@),
        r.name@ == (match file_name {
            Some(n) => stem(n@),
            None => "shader"@,
        }),
        opt_text(r.description) == targets(engine_shapes(engines@)),
        r.profile == (match layout {
            Some(l) => l,
            None => ShaderLayout::Unknown,
        }),
        r.engines@ == engines@,
        r.dir@ == dir@,
        r.kind == ShaderKind::Zip,
        r.source.origin@ == (match file_name {
            Some(n) => n@,
            None => zip_path@,
        }),
        r.source.license_note is None,
{
    let description = targets_of(&engines);
    let name = match file_name {
        Some(n) => stem_of(n),
        None => "shader".to_owned(),
    };
    let origin = match file_name {
        Some(n) => n.to_owned(),
        None => zip_path.to_owned(),
    };
    ShaderPack {
        id: pack_id(dir_name, props),
        name,
        description,
        profile: match layout {
            Some(l) => l,
            None => ShaderLayout::Unknown,
        },
        engines,
        dir: dir.to_owned(),
        kind: ShaderKind::Zip,
        source: SourceInfo { origin, license_note: None },
    }
}

/// Why a folder cannot be installed as a shader pack.
pub open spec fn folder_refusal(
    dir: Seq<char>,
    is_dir: bool,
    layout: Option<ShaderLayout>,
) -> Option<Seq<char>> {
    if !is_dir {
        Some("not a directory: "@ + dir)
    } else if layout is None {
        Some(dir + ": no shaders/ directory found (not a shader pack)"@)
    } else {
        None
    }
}

/// Installs a folder by reference. `canonical` is the path that is recorded,
/// `file_name` the last part of the path given, `dir_name` that of the
/// recorded one, `text` and `props` the properties file.
pub fn import_folder(
    dir: &str,
    is_dir: bool,
    layout: Option<ShaderLayout>,
    canonical: &str,
    file_name: Option<&str>,
    dir_name: &str,
    text: Option<&str>,
    props: &[u8],
) -> (r: Result<ShaderPack, String>)
    ensures
        match r {
            Ok(p) => {
                let engines = match text {
                    Some(t) => engines_in(t@),
                    None => Seq::empty(),
                };
                &&& folder_refusal(dir@, is_dir, layout) is None
                &&& p.id@ == marked(dir_name@, props@)
                &&& p.name@ == (match file_name {
                    Some(n) => n@,
                    None => canonical@,
                })
                &&& opt_text(p.description) == targets(engines)
                &&& Some(p.profile) == layout
                &&& engine_shapes(p.engines@) == engines
                &&& p.dir@ == canonical@
                &&& p.kind == ShaderKind::Folder
                &&& p.source.origin@ == canonical@
                &&& p.source.license_note is None
            },
            Err(m) => folder_refusal(dir@, is_dir, layout) == Some(m@),
        },
{
    if !is_dir {
        return Err(join2("not a directory: ", dir));
    }
    let profile = match layout {
        Some(l) => l,
        None => {
            return Err(join2(dir, ": no shaders/ directory found (not a shader pack)"));
        },
    };
    let engines: Vec<EngineCompat> = match text {
        Some(t) => parse_properties_text(t),
        None => Vec::new(),
    };
    assert(text is None ==> engine_shapes(engines@) =~= Seq::<EngineShape>::empty());
    let description = targets_of(&engines);
    let name = match file_name {
        Some(n) => n.to_owned(),
        None => canonical.to_owned(),
    };
    Ok(
        ShaderPack {
            id: pack_id(dir_name, props),
            name,
            description,
            profile,
            engines,
            dir: canonical.to_owned(),
            kind: ShaderKind::Folder,
            source: SourceInfo { origin: canonical.to_owned(), license_note: None },
        },
    )
}

/// The names of shader packs in lower case.
pub open spec fn lowered_pack_names(packs: Seq<ShaderPack>) -> Seq<Seq<char>> {
    Seq::new(packs.len(), |i: int| lowercased(packs[i].name@))
}

/// The packs among the first `n` found whose source is there.
pub open spec fn present(found: Seq<(ShaderPack, bool)>, n: int) -> Seq<ShaderPack>
    decreases n,
{
    if n <= 0 {
        Seq::empty()
    } else if found[n - 1].1 {
        present(found, n - 1).push(found[n - 1].0)
    } else {
        present(found, n - 1)
    }
}

/// The installed shader packs by name: those found whose files are there.
pub fn list_shaders(found: Vec<(ShaderPack, bool)>) -> (r: Vec<ShaderPack>)
    ensures
        ({
            let kept = present(found@, found@.len() as int);
            listed_by(r@, kept, lowered_pack_names(kept))
        }),
{
    let mut keyed: Vec<(String, ShaderPack)> = Vec::new();
    let ghost mut kept: Seq<ShaderPack> = Seq::empty();
    for entry in it: found
        invariant
            it.seq() == found@,
            kept == present(found@, it.index() as int),
            keyed@.len() == kept.len(),
            forall|i: int|
                0 <= i < keyed@.len() ==> (#[trigger] keyed@[i]).0@ == lowercased(kept[i].name@)
                    && keyed@[i].1 == kept[i],
    {
        assert(found@[it.index() as int] == entry);
        let (pack, alive) = entry;
        if alive {
            let key = lowercase(pack.name.as_str());
            keyed.push((key, pack));
            proof {
                kept = kept.push(pack);
            }
        }
    }
    let ghost items = keyed@;
    let r = sort_by_key(keyed);
    proof {
        lemma_listing(r@, items, kept, lowered_pack_names(kept));
    }
    r
}

/// The ids of shader packs.
pub open spec fn ids_of(packs: Seq<ShaderPack>) -> Seq<Seq<char>> {
    Seq::new(packs.len(), |i: int| packs[i].id@)
}

/// The enabled shader pack: the first installed one with the id that the
/// settings name.
pub fn active(packs: &[ShaderPack], id: Option<&str>) -> (r: Option<usize>)
    ensures
        r == (match id {
            Some(s) => {
                let i = index_of_name(ids_of(packs@), s@);
                if i < packs.len() {
                    Some(i as usize)
                } else {
                    None
                }
            },
            None => None,
        }),
{
    match id {
        Some(s) => {
            let ghost all = ids_of(packs@);
            let mut i: usize = 0;
            while i < packs.len() && !str_eq(packs[i].id.as_str(), s)
                invariant
                    i <= packs.len(),
                    all == ids_of(packs@),
                    forall|k: int| 0 <= k < i ==> all[k] != s@,
                decreases packs.len() - i,
            {
                i += 1;
            }
            proof {
                crate::text::lemma_index_of_name(all, s@, i as int);
            }
            if i < packs.len() {
                Some(i)
            } else {
                None
            }
        },
        None => None,
    }
}

/// The license is the first of LICENSE, LICENSE.md, LICENSE.txt, COPYING and
/// license.txt that a pack brings; a pack that brings none of them has none.
pub proof fn law_licenses_are_found_in_order(files: Seq<Seq<char>>)
    ensures
        ({
            let found = |name: Seq<char>| index_of_name(files, name) < files.len();
            let r = license_among(files, 5);
            &&& found("LICENSE"@) ==> r == Some("LICENSE"@)
            &&& !found("LICENSE"@) && found("LICENSE.md"@) ==> r == Some("LICENSE.md"@)
            &&& !found("LICENSE"@) && !found("LICENSE.md"@) && found("LICENSE.txt"@) ==> r == Some(
                "LICENSE.txt"@,
            )
            &&& !found("LICENSE"@) && !found("LICENSE.md"@) && !found("LICENSE.txt"@) && found("COPYING"@)
                ==> r == Some("COPYING"@)
            &&& !found("LICENSE"@) && !found("LICENSE.md"@) && !found("LICENSE.txt"@) && !found("COPYING"@)
                && found("license.txt"@) ==> r == Some("license.txt"@)
            &&& !found("LICENSE"@) && !found("LICENSE.md"@) && !found("LICENSE.txt"@) && !found("COPYING"@)
                && !found("license.txt"@) ==> r is None
        }),
{
    reveal_with_fuel(license_among, 6);
    assert(license_names()[0] == "LICENSE"@ && license_names()[1] == "LICENSE.md"@);
    assert(license_names()[2] == "LICENSE.txt"@ && license_names()[3] == "COPYING"@);
    assert(license_names()[4] == "license.txt"@);
}

/// The line on a license is the note where there is one; else it points to the
/// license file, or says that there is none.
pub proof fn law_license_lines(note: Seq<char>, file: Seq<char>, f: Option<Seq<char>>)
    ensures
        license_line(Some(note), f) == note,
        contains(license_line(None, Some(file)), file),
        license_line(None, Some(file))
            == "Third-party shader pack — its own license applies (see "@ + file + ")"@,
        license_line(None, None)
            == "Third-party shader pack — its own license applies (no license file found; check the pack's distribution page)"@,
{
    crate::text::law_parts_are_found(
        "Third-party shader pack — its own license applies (see "@,
        file,
        ")"@,
    );
}

/// What the keys claim: `requires` and `supports` name an engine by their
/// value, `profile.requires.X` the engine X with a least version, and the
/// feature keys of Iris and OptiFine themselves; other keys claim nothing.
pub proof fn law_keys_claim_engines(key: Seq<char>, name: Seq<char>, value: Seq<char>)
    ensures
        claim("profile.requires"@, value) == Some(EngineShape { engine: value, min_version: None }),
        claim("requires"@, value) == Some(EngineShape { engine: value, min_version: None }),
        claim("supports"@, value) == Some(EngineShape { engine: value, min_version: None }),
        !starts_with(name, "profile.requires."@) ==> claim("profile.requires."@ + name, value)
            == Some(EngineShape { engine: name, min_version: Some(value) }),
        claim("iris.features."@ + name, value) == Some(
            EngineShape { engine: "iris.features."@ + name, min_version: Some(value) },
        ),
        claim("optifine.features."@ + name, value) == Some(
            EngineShape { engine: "optifine.features."@ + name, min_version: Some(value) },
        ),
        key != "profile.requires"@ && key != "requires"@ && key != "supports"@ && !starts_with(
            key,
            "profile.requires."@,
        ) && !starts_with(key, "iris.features."@) && !starts_with(key, "optifine.features."@)
            ==> claim(key, value) is None,
{
    let e = Seq::<char>::empty();
    reveal_strlit("profile.requires");
    reveal_strlit("requires");
    reveal_strlit("supports");
    reveal_strlit("profile.requires.");
    reveal_strlit("iris.features.");
    reveal_strlit("optifine.features.");
    assert("profile.requires"@.len() == 16);
    assert("requires"@.len() == 8);
    assert("supports"@.len() == 8);
    assert("profile.requires."@.len() == 17);
    assert("iris.features."@.len() == 14);
    assert("optifine.features."@.len() == 18);
    assert("requires"@[0] != "supports"@[0]);
    let p = "profile.requires."@;
    let i = "iris.features."@;
    let o = "optifine.features."@;
    crate::text::law_parts_are_found(p, name, e);
    crate::text::law_parts_are_found(i, name, e);
    crate::text::law_parts_are_found(o, name, e);
    crate::ascii::law_all_copies_are_cut(name, p);
    assert((p + name).len() >= 17 && (i + name).len() >= 14 && (o + name).len() >= 18);
    assert((p + name)[0] == 'p' && (i + name)[0] == 'i' && (o + name)[0] == 'o');
    assert((p + name)[16] == '.');
    if starts_with(i + name, p) {
        assert((i + name).take(17)[0] == 'i');
    }
    if starts_with(o + name, p) {
        assert((o + name).take(17)[0] == 'o');
    }
    if starts_with(o + name, i) {
        assert((o + name).take(14)[0] == 'o');
    }
}

/// Each line of the properties adds its claim behind those of the lines before
/// it; lines without one add nothing.
pub proof fn law_claims_follow_lines(text: Seq<char>, line: Seq<char>)
    requires
        !line.contains('\n'),
    ensures
        stated(line) is None ==> engines_in(text.push('\n') + line) == engines_in(text),
        stated(line) matches Some(p) ==> (claim(p.0, p.1) is None ==> engines_in(
            text.push('\n') + line,
        ) == engines_in(text)),
        stated(line) matches Some(p) ==> (claim(p.0, p.1) matches Some(e) ==> engines_in(
            text.push('\n') + line,
        ) == engines_in(text).push(e)),
{
    crate::paths::law_separators_divide(text, line, '\n');
    let lines = split(text, '\n');
    lemma_claims_front(lines, line, lines.len() as int);
    assert(lines.push(line)[lines.len() as int] == line);
}

proof fn lemma_claims_front(lines: Seq<Seq<char>>, line: Seq<char>, n: int)
    requires
        0 <= n <= lines.len(),
    ensures
        claims(lines.push(line), n) == claims(lines, n),
    decreases n,
{
    if n > 0 {
        lemma_claims_front(lines, line, n - 1);
        assert(lines.push(line)[n - 1] == lines[n - 1]);
    }
}

/// A name lies in a directory of a name where one of its parts, between
/// slashes of either kind, is that name, letter case aside.
pub proof fn law_parts_are_matched(pieces: Seq<Seq<char>>, want: Seq<char>, i: int)
    requires
        0 <= i < pieces.len(),
        forall|k: int| 0 <= k < pieces.len() ==> crate::paths::is_step(#[trigger] pieces[k]),
        forall|k: int, j: int|
            0 <= k < pieces.len() && 0 <= j < pieces[k].len() ==> #[trigger] pieces[k][j] != '/'
                && pieces[k][j] != '\\',
        same_ignoring_case(pieces[i], want),
    ensures
        any_part_matches(crate::paths::joined(pieces, '/'), want),
        any_part_matches(crate::paths::joined(pieces, '\\'), want),
{
    crate::paths::law_slashes_are_alike(pieces);
    let parts = split(replaced(crate::paths::joined(pieces, '/'), '\\', '/'), '/');
    assert(part_matches(parts[i], want));
    let more = split(replaced(crate::paths::joined(pieces, '\\'), '\\', '/'), '/');
    assert(part_matches(more[i], want));
}

/// Program files end in `.fsh` or `.vsh`, pass files in `.glsl` or `.gsh`.
pub proof fn law_shader_files_have_endings(name: Seq<char>)
    ensures
        is_program(name + ".fsh"@) && is_program(name + ".vsh"@),
        is_pass(name + ".glsl"@) && is_pass(name + ".gsh"@),
        is_program(name) ==> ends_with(name, ".fsh"@) || ends_with(name, ".vsh"@),
        is_pass(name) ==> ends_with(name, ".glsl"@) || ends_with(name, ".gsh"@),
{
    let e = Seq::<char>::empty();
    crate::text::law_parts_are_found(name, ".fsh"@, e);
    crate::text::law_parts_are_found(name, ".vsh"@, e);
    crate::text::law_parts_are_found(name, ".glsl"@, e);
    crate::text::law_parts_are_found(name, ".gsh"@, e);
}

/// A name is unsafe where it begins with a slash or holds two dots in a row.
pub proof fn law_unsafe_names(a: Seq<char>, b: Seq<char>, name: Seq<char>)
    ensures
        is_unsafe_name(seq!['/'] + b),
        is_unsafe_name(a + seq!['.', '.'] + b),
        !is_unsafe_name(name) ==> (name.len() == 0 || name[0] != '/') && !contains(
            name,
            seq!['.', '.'],
        ),
        (name.len() == 0 || name[0] != '/') && !contains(name, seq!['.', '.']) ==> !is_unsafe_name(
            name,
        ),
{
    reveal_strlit("..");
    assert(".."@ =~= seq!['.', '.']);
    crate::text::law_parts_are_found(a, seq!['.', '.'], b);
}

/// The first file with an unsafe name is found; directories are passed over.
pub proof fn law_first_unsafe_member_is_found(entries: Seq<ShaderEntry>, i: int)
    requires
        0 <= i <= entries.len(),
        forall|k: int|
            0 <= k < i ==> (#[trigger] entries[k]).is_dir || !is_unsafe_name(entries[k].name@),
        i < entries.len() ==> !entries[i].is_dir && is_unsafe_name(entries[i].name@),
    ensures
        first_unsafe_entry(entries) == i,
    decreases entries.len(),
{
    if i > 0 {
        let rest = entries.skip(1);
        assert(entries[0].is_dir || !is_unsafe_name(entries[0].name@));
        assert forall|k: int| 0 <= k < i - 1 implies (#[trigger] rest[k]).is_dir
            || !is_unsafe_name(rest[k].name@) by {
            assert(rest[k] == entries[k + 1]);
        }
        law_first_unsafe_member_is_found(rest, i - 1);
    }
}

/// A shader file lies in a shader directory and ends as programs or passes do;
/// a directory is none.
pub proof fn law_shader_files(e: ShaderEntry)
    ensures
        e.is_dir ==> !is_shader_file(e) && !is_properties_file(e),
        !any_part_matches(e.name@, "shaders"@) ==> !is_shader_file(e) && !is_properties_file(e),
        !e.is_dir && any_part_matches(e.name@, "shaders"@) && is_program(lowercased(e.name@))
            ==> is_shader_file(e),
        !e.is_dir && any_part_matches(e.name@, "shaders"@) && is_pass(lowercased(e.name@))
            ==> is_shader_file(e),
        is_properties_file(e) ==> ends_with(lowercased(e.name@), "shaders.properties"@),
        !e.is_dir && any_part_matches(e.name@, "shaders"@) && !is_program(lowercased(e.name@))
            && !is_pass(lowercased(e.name@)) && ends_with(
            lowercased(e.name@),
            "shaders.properties"@,
        ) ==> is_properties_file(e),
{
}

/// The claims of an archive are those of its last properties file.
pub proof fn law_last_properties_count(entries: Seq<ShaderEntry>, n: int, i: int)
    requires
        0 <= n <= entries.len(),
        -1 <= i < n,
        forall|k: int| i < k < n ==> !is_properties_file(#[trigger] entries[k]),
        i >= 0 ==> is_properties_file(entries[i]),
    ensures
        i >= 0 ==> archive_engines(entries, n) == engines_in(entries[i].text@),
        i == -1 ==> archive_engines(entries, n).len() == 0,
    decreases n,
{
    if n > 0 && i < n - 1 {
        assert(!is_properties_file(entries[n - 1]));
        law_last_properties_count(entries, n - 1, i);
    }
}

/// The shader directory of a pack is `shaders` at its root, or else that of its
/// first entry with one.
pub proof fn law_shader_directory_is_found(children: Seq<(String, bool)>, i: int)
    requires
        0 <= i <= children.len(),
        forall|k: int| 0 <= k < i ==> !(#[trigger] children[k]).1,
        i < children.len() ==> children[i].1,
    ensures
        shaders_place(true, children) == Some("shaders"@),
        i < children.len() ==> shaders_place(false, children) == Some(children[i].0@ + "/shaders"@),
        i == children.len() ==> shaders_place(false, children) is None,
{
    lemma_first_child_place(children, i);
}

proof fn lemma_first_child_place(children: Seq<(String, bool)>, i: int)
    requires
        0 <= i <= children.len(),
        forall|k: int| 0 <= k < i ==> !(#[trigger] children[k]).1,
        i < children.len() ==> children[i].1,
    ensures
        first_child(children) == i,
    decreases children.len(),
{
    if i > 0 {
        assert(!children[0].1);
        let rest = children.skip(1);
        assert forall|k: int| 0 <= k < i - 1 implies !(#[trigger] rest[k]).1 by {
            assert(rest[k] == children[k + 1]);
        }
        lemma_first_child_place(rest, i - 1);
    }
}

/// Programs and passes are counted; a file that is both counts as a program.
pub proof fn law_files_are_counted(low: Seq<Seq<char>>, n: int)
    requires
        0 <= n <= low.len(),
    ensures
        programs(low, n) == low.take(n).filter(|s: Seq<char>| is_program(s)).len(),
        passes(low, n) == low.take(n).filter(|s: Seq<char>| is_pass(s) && !is_program(s)).len(),
    decreases n,
{
    reveal(Seq::filter);
    if n > 0 {
        law_files_are_counted(low, n - 1);
        assert(low.take(n).drop_last() =~= low.take(n - 1));
        assert(low.take(n).last() == low[n - 1]);
    }
}

/// The layout is that of the more frequent kind of file, of programs on a
/// draw, and unknown without any.
pub proof fn law_layout_is_that_of_the_majority(low: Seq<Seq<char>>)
    ensures
        ({
            let f = programs(low, low.len() as int);
            let g = passes(low, low.len() as int);
            &&& f == 0 && g == 0 ==> layout_by(low) == ShaderLayout::Unknown
            &&& f > 0 && f >= g ==> layout_by(low) == ShaderLayout::OptifineStyle
            &&& g > f ==> layout_by(low) == ShaderLayout::GlslPasses
        }),
{
}

/// A pack is described by the first engine that it claims.
pub proof fn law_first_claim_describes(engines: Seq<EngineShape>)
    ensures
        engines.len() == 0 ==> targets(engines) is None,
        engines.len() > 0 ==> targets(engines) == Some(
            "targets "@ + engines[0].engine + " (from shaders.properties)"@,
        ),
{
}

/// A folder is refused that is no directory or has no shader directory.
pub proof fn law_folders_are_refused(dir: Seq<char>, layout: ShaderLayout)
    ensures
        folder_refusal(dir, false, Some(layout)) == Some("not a directory: "@ + dir),
        folder_refusal(dir, false, None) == Some("not a directory: "@ + dir),
        folder_refusal(dir, true, None) == Some(
            dir + ": no shaders/ directory found (not a shader pack)"@,
        ),
        folder_refusal(dir, true, Some(layout)) is None,
{
}

/// The packs whose source is there are kept in order.
pub proof fn law_present_packs_keep_their_order(found: Seq<(ShaderPack, bool)>, n: int)
    requires
        0 <= n <= found.len(),
    ensures
        present(found, n) == found.take(n).filter(|x: (ShaderPack, bool)| x.1).map_values(
            |x: (ShaderPack, bool)| x.0,
        ),
    decreases n,
{
    reveal(Seq::filter);
    let keep = |x: (ShaderPack, bool)| x.1;
    let pick = |x: (ShaderPack, bool)| x.0;
    if n > 0 {
        law_present_packs_keep_their_order(found, n - 1);
        let t = found.take(n);
        assert(t.drop_last() =~= found.take(n - 1));
        assert(t.last() == found[n - 1]);
        let before = found.take(n - 1).filter(keep);
        assert(before.push(found[n - 1]).map_values(pick) =~= before.map_values(pick).push(
            found[n - 1].0,
        ));
        assert(present(found, n) =~= t.filter(keep).map_values(pick));
    } else {
        assert(present(found, n) =~= found.take(n).filter(keep).map_values(pick));
    }
}

/// A name counts where what stands behind its last dot is one of the two
/// extensions.
pub proof fn law_extensions_are_found(
    names: Seq<Seq<char>>,
    i: int,
    front: Seq<char>,
    a: Seq<char>,
    b: Seq<char>,
)
    requires
        0 <= i < names.len(),
        front.len() > 0,
        !a.contains('.') && !b.contains('.'),
    ensures
        names[i] == front.push('.') + a ==> any_with_extension(names, a, b),
        names[i] == front.push('.') + b ==> any_with_extension(names, a, b),
        (forall|k: int| 0 <= k < names.len() ==> extension(#[trigger] names[k]) is None)
            ==> !any_with_extension(names, a, b),
{
    crate::paths::law_last_dot_divides(front, a);
    crate::paths::law_last_dot_divides(front, b);
    if names[i] == front.push('.') + a || names[i] == front.push('.') + b {
        assert(extension(names[i]) == Some(a) || extension(names[i]) == Some(b));
    }
}

/// A file of an archive is found where one passes the test, and only there.
pub proof fn law_members_are_searched(
    entries: Seq<ShaderEntry>,
    p: spec_fn(ShaderEntry) -> bool,
    i: int,
)
    ensures
        0 <= i < entries.len() && p(entries[i]) ==> any_entry(entries, entries.len() as int, p),
        (forall|k: int| 0 <= k < entries.len() ==> !p(#[trigger] entries[k])) ==> !any_entry(
            entries,
            entries.len() as int,
            p,
        ),
{
}

} // verus!
