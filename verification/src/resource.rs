//! Resource packs: what makes a directory or an archive one, and what is
//! recorded of it.
//!
//! The user's files are never changed: archives are unpacked into a directory
//! of their own, folders are only referred to.

use crate::json::{document_shape, member, member_of, parse_json, whole_number, Json, JsonShape};
use crate::paths::{
    entry_steps, entry_steps_of, is_rooted, is_within, join_pieces, joined, lemma_steps_of_joined,
    stays_below, steps, steps_of, steps_stay_below, within,
};
use crate::text::{
    chars_eq, chars_of, contains, contains_chars, decimal, decimal_string, ends_with,
    ends_with_chars, join2, join3, pieces_of, split_once, split_once_chars, str_eq, string_of,
};
use vstd::prelude::*;
use vstd::utf8::*;

verus! {

/// Where a pack came from. Kept for attribution; nothing is claimed of the
/// pack's license.
#[derive(Debug)]
pub struct SourceInfo {
    /// A file name or a place the user named.
    pub origin: String,
    /// A license note taken down at import, word for word.
    pub license_note: Option<String>,
}

/// How a pack was imported.
#[derive(Clone, Copy, Debug, PartialEq, Eq, Structural)]
pub enum PackKind {
    /// Unpacked from an archive into the data directory.
    Zip,
    /// Referred to where it lies.
    Folder,
}

/// What is recorded of an installed resource pack.
#[derive(Debug)]
pub struct ResourcePack {
    /// A slug of the pack's directory and a short hash of its metadata.
    pub id: String,
    pub name: String,
    pub description: Option<String>,
    /// `pack_format` out of `pack.mcmeta`.
    pub pack_format: Option<u32>,
    /// The release that the format belongs to, where it is known.
    pub detected_version: Option<String>,
    pub kind: PackKind,
    pub dir: String,
    pub source: SourceInfo,
    /// SHA-256 of `pack.mcmeta` in hexadecimal.
    pub mcmeta_hash: String,
}

/// What an import produced.
#[derive(Debug)]
pub struct ImportReport {
    pub pack: ResourcePack,
    /// Files unpacked; folders report 0.
    pub files_copied: u64,
}

/// The structure of a would-be pack.
#[derive(Debug)]
pub struct PackValidation {
    pub valid: bool,
    pub problems: Vec<String>,
    pub pack_format: Option<u32>,
    pub description: Option<String>,
}

/// Why an import failed.
#[derive(Debug)]
pub enum ImportError {
    NotFound(String),
    NotAPack(String),
    /// An archive entry that would leave the destination.
    UnsafePath(String, String),
    Io(String, String),
}

/// What an error says to the user.
pub open spec fn import_error_text(e: ImportError) -> Seq<char> {
    match e {
        ImportError::NotFound(p) => "not found: "@ + p@,
        ImportError::NotAPack(p) => p@
            + ": not a resource pack (missing pack.mcmeta and no namespace folders)"@,
        ImportError::UnsafePath(p, m) => "unsafe archive entry in "@ + p@ + ": "@ + m@,
        ImportError::Io(p, m) => p@ + ": "@ + m@,
    }
}

impl ImportError {
    /// The error in one line.
    pub fn describe(&self) -> (r: String)
        ensures
            r@ == import_error_text(*self),
    {
        match self {
            ImportError::NotFound(p) => join2("not found: ", p.as_str()),
            ImportError::NotAPack(p) => join2(
                p.as_str(),
                ": not a resource pack (missing pack.mcmeta and no namespace folders)",
            ),
            ImportError::UnsafePath(p, m) => {
                let head = join3("unsafe archive entry in ", p.as_str(), ": ");
                join2(head.as_str(), m.as_str())
            },
            ImportError::Io(p, m) => join3(p.as_str(), ": ", m.as_str()),
        }
    }
}

/// The release of a pack format.
pub open spec fn version_of(format: u32) -> Option<Seq<char>> {
    if format == 97 {
        Some("26.3"@)
    } else if format == 96 {
        Some("26.2"@)
    } else if format == 95 {
        Some("26.1"@)
    } else if format == 94 {
        Some("1.21.11"@)
    } else if format == 93 {
        Some("1.21.9"@)
    } else if format == 88 {
        Some("1.21.6"@)
    } else if format == 81 {
        Some("1.21.5"@)
    } else if format == 71 {
        Some("1.21.4"@)
    } else if format == 64 {
        Some("1.21.2"@)
    } else if format == 61 {
        Some("1.21"@)
    } else if format == 57 {
        Some("1.20.5"@)
    } else if format == 46 {
        Some("1.20"@)
    } else if format == 34 {
        Some("1.19.4"@)
    } else if format == 22 {
        Some("1.19"@)
    } else if format == 18 {
        Some("1.18"@)
    } else if format == 15 {
        Some("1.17"@)
    } else if format == 8 {
        Some("1.16"@)
    } else if format == 6 {
        Some("1.15"@)
    } else if format == 5 {
        Some("1.14"@)
    } else if format == 4 {
        Some("1.13"@)
    } else {
        None
    }
}

/// The release that goes with a `pack_format` number.
pub fn pack_format_to_version(format: u32) -> (r: Option<&'static str>)
    ensures
        match r {
            Some(v) => version_of(format) == Some(v@),
            None => version_of(format) is None,
        },
{
    match format {
        97 => Some("26.3"),
        96 => Some("26.2"),
        95 => Some("26.1"),
        94 => Some("1.21.11"),
        93 => Some("1.21.9"),
        88 => Some("1.21.6"),
        81 => Some("1.21.5"),
        71 => Some("1.21.4"),
        64 => Some("1.21.2"),
        61 => Some("1.21"),
        57 => Some("1.20.5"),
        46 => Some("1.20"),
        34 => Some("1.19.4"),
        22 => Some("1.19"),
        18 => Some("1.18"),
        15 => Some("1.17"),
        8 => Some("1.16"),
        6 => Some("1.15"),
        5 => Some("1.14"),
        4 => Some("1.13"),
        _ => None,
    }
}

/// The text of an optional string.
pub open spec fn opt_text(s: Option<String>) -> Option<Seq<char>> {
    match s {
        Some(t) => Some(t@),
        None => None,
    }
}

/// The version line of a pack.
pub open spec fn version_text(version: Option<Seq<char>>, format: Option<u32>) -> Seq<char> {
    match (version, format) {
        (Some(v), Some(f)) => v + " (format "@ + decimal(f as nat) + ")"@,
        (None, Some(f)) => "unknown"@ + " (format "@ + decimal(f as nat) + ")"@,
        (Some(v), None) => v,
        (None, None) => "unknown"@,
    }
}

fn with_format(v: &str, f: u32) -> (r: String)
    ensures
        r@ == v@ + " (format "@ + decimal(f as nat) + ")"@,
{
    let n = decimal_string(f as u64);
    let head = join3(v, " (format ", n.as_str());
    join2(head.as_str(), ")")
}

impl ResourcePack {
    /// A line on the detected version, such as `26.3 (format 97)`.
    pub fn version_label(&self) -> (r: String)
        ensures
            r@ == version_text(opt_text(self.detected_version), self.pack_format),
    {
        match (&self.detected_version, self.pack_format) {
            (Some(v), Some(f)) => with_format(v.as_str(), f),
            (None, Some(f)) => with_format("unknown", f),
            (Some(v), None) => v.clone(),
            (None, None) => "unknown".to_owned(),
        }
    }
}

/// What `pack.mcmeta` says.
#[derive(Debug)]
pub struct Mcmeta {
    pub pack_format: Option<u32>,
    pub supported_formats: Option<(u32, u32)>,
    pub description: Option<String>,
}

/// What `pack.mcmeta` says, as values.
#[verifier::ext_equal]
pub struct McmetaShape {
    pub pack_format: Option<u32>,
    pub supported_formats: Option<(u32, u32)>,
    pub description: Option<Seq<char>>,
}

impl Mcmeta {
    pub open spec fn shape(&self) -> McmetaShape {
        McmetaShape {
            pack_format: self.pack_format,
            supported_formats: self.supported_formats,
            description: opt_text(self.description),
        }
    }
}

/// A text without section codes: the sign and the character behind it go.
pub open spec fn without_codes(s: Seq<char>) -> Seq<char>
    decreases s.len(),
{
    if s.len() == 0 {
        Seq::empty()
    } else if s[0] == '\u{a7}' {
        if s.len() == 1 {
            Seq::empty()
        } else {
            without_codes(s.skip(2))
        }
    } else {
        seq![s[0]] + without_codes(s.skip(1))
    }
}

/// Strips the color codes that a section sign begins.
pub fn strip_section_codes(text: &str) -> (r: String)
    ensures
        r@ == without_codes(text@),
{
    let s = chars_of(text);
    let mut out = String::new();
    let mut i: usize = 0;
    assert(s@.skip(0) =~= s@);
    assert(out@ + without_codes(s@) =~= without_codes(s@));
    while i < s.len()
        invariant
            i <= s.len(),
            s@ == text@,
            out@ + without_codes(s@.skip(i as int)) == without_codes(s@),
        decreases s.len() - i,
    {
        let ghost rest = s@.skip(i as int);
        let ghost before = out@;
        assert(rest[0] == s@[i as int]);
        if s[i] == '\u{a7}' {
            if i + 1 < s.len() {
                assert(rest.skip(2) =~= s@.skip(i + 2));
                i += 2;
            } else {
                assert(without_codes(rest) =~= Seq::<char>::empty());
                assert(without_codes(s@.skip(i + 1)) =~= Seq::<char>::empty());
                i += 1;
            }
        } else {
            out.push(s[i]);
            assert(rest.skip(1) =~= s@.skip(i + 1));
            assert(out@ + without_codes(s@.skip(i + 1)) =~= before + (seq![s@[i as int]]
                + without_codes(s@.skip(i + 1))));
            i += 1;
        }
    }
    assert(out@ + without_codes(s@.skip(i as int)) =~= out@);
    out
}

/// A member is smaller than its object.
pub proof fn lemma_member_is_smaller(j: JsonShape, key: Seq<char>)
    requires
        member(j, key) is Some,
    ensures
        decreases_to!(j => member(j, key)->0),
{
    let members = j->Object_0;
    let i = lemma_member_place(members, key);
    assert(decreases_to!(j => j->Object_0));
    assert(decreases_to!(members => members[i]));
    assert(decreases_to!(members[i] => members[i].1));
}

proof fn lemma_member_place(members: Seq<(Seq<char>, JsonShape)>, key: Seq<char>) -> (i: int)
    requires
        member_of(members, key) is Some,
    ensures
        0 <= i < members.len(),
        member_of(members, key) == Some(members[i].1),
    decreases members.len(),
{
    if members[0].0 == key {
        0
    } else {
        let k = lemma_member_place(members.skip(1), key);
        assert(members.skip(1)[k] == members[k + 1]);
        k + 1
    }
}

/// A text component as plain text: a string, the parts of an array one after
/// the other, or an object's text with what it carries along.
pub open spec fn flattened(j: JsonShape) -> Seq<char>
    decreases j, 0int,
{
    match j {
        JsonShape::Text(s) => without_codes(s),
        JsonShape::Array(items) => flattened_items(items, items.len() as int),
        JsonShape::Object(members) => {
            let extra = match member(j, "extra"@) {
                Some(e) => {
                    proof {
                        lemma_member_is_smaller(j, "extra"@);
                    }
                    flattened(e)
                },
                None => Seq::empty(),
            };
            match member(j, "text"@) {
                Some(JsonShape::Text(t)) => without_codes(t) + extra,
                _ => extra,
            }
        },
        _ => Seq::empty(),
    }
}

pub open spec fn flattened_items(items: Seq<JsonShape>, n: int) -> Seq<char>
    decreases items, n,
{
    if n <= 0 || n > items.len() {
        Seq::empty()
    } else {
        flattened_items(items, n - 1) + flattened(items[n - 1])
    }
}

/// Flattens a text component to plain text.
pub fn description_text(v: &Json) -> (r: String)
    ensures
        r@ == flattened(v.shape()),
    decreases v.shape(),
{
    match v {
        Json::Text(s) => strip_section_codes(s.as_str()),
        Json::Array(items) => {
            let ghost shapes = v.shape()->Array_0;
            let mut out = String::new();
            let mut n: usize = 0;
            while n < items.len()
                invariant
                    n <= items.len(),
                    *v == Json::Array(*items),
                    v.shape() == JsonShape::Array(shapes),
                    shapes.len() == items.len(),
                    out@ == flattened_items(shapes, n as int),
                decreases items.len() - n,
            {
                assert(shapes[n as int] == items@[n as int].shape());
                assert(decreases_to!(v.shape() => v.shape()->Array_0));
                assert(decreases_to!(shapes => shapes[n as int]));
                let piece = description_text(&items[n]);
                out.append(piece.as_str());
                n += 1;
            }
            out
        },
        Json::Object(_) => {
            let mut out = match v.get("text") {
                Some(Json::Text(t)) => strip_section_codes(t.as_str()),
                _ => String::new(),
            };
            let ghost head = out@;
            match v.get("extra") {
                Some(e) => {
                    proof {
                        lemma_member_is_smaller(v.shape(), "extra"@);
                    }
                    let piece = description_text(e);
                    out.append(piece.as_str());
                },
                None => {
                    assert(head + Seq::<char>::empty() =~= head);
                },
            }
            assert(out@ =~= flattened(v.shape()));
            out
        },
        _ => String::new(),
    }
}

/// A 64-bit number cut to 32 bits.
pub open spec fn low_half(n: u64) -> u32 {
    (n % 0x1_0000_0000) as u32
}

fn cut(n: u64) -> (r: u32)
    ensures
        r == low_half(n),
{
    (n % 0x1_0000_0000) as u32
}

/// The pair of numbers that two values give.
pub open spec fn number_pair(a: Option<JsonShape>, b: Option<JsonShape>) -> Option<(u32, u32)> {
    match (a, b) {
        (Some(JsonShape::Number(Some(x))), Some(JsonShape::Number(Some(y)))) => Some(
            (low_half(x), low_half(y)),
        ),
        _ => None,
    }
}

/// The range of formats: the first two items of an array, or the bounds that
/// an object names.
pub open spec fn formats_in(j: JsonShape) -> Option<(u32, u32)> {
    match j {
        JsonShape::Array(items) => number_pair(
            if items.len() > 0 {
                Some(items[0])
            } else {
                None
            },
            if items.len() > 1 {
                Some(items[1])
            } else {
                None
            },
        ),
        JsonShape::Object(members) => number_pair(
            member(j, "min_inclusive"@),
            member(j, "max_inclusive"@),
        ),
        _ => None,
    }
}

fn pair_of(a: Option<&Json>, b: Option<&Json>) -> (r: Option<(u32, u32)>)
    ensures
        r == number_pair(
            match a {
                Some(x) => Some(x.shape()),
                None => None,
            },
            match b {
                Some(y) => Some(y.shape()),
                None => None,
            },
        ),
{
    match (a, b) {
        (Some(x), Some(y)) => match (x.as_u64(), y.as_u64()) {
            (Some(p), Some(q)) => Some((cut(p), cut(q))),
            _ => None,
        },
        _ => None,
    }
}

fn formats_of(j: &Json) -> (r: Option<(u32, u32)>)
    ensures
        r == formats_in(j.shape()),
{
    match j {
        Json::Array(items) => {
            assert(j.shape()->Array_0.len() == items.len());
            assert(items.len() > 0 ==> j.shape()->Array_0[0] == items@[0].shape());
            assert(items.len() > 1 ==> j.shape()->Array_0[1] == items@[1].shape());
            let first = if items.len() > 0 {
                Some(&items[0])
            } else {
                None
            };
            let second = if items.len() > 1 {
                Some(&items[1])
            } else {
                None
            };
            pair_of(first, second)
        },
        Json::Object(_) => pair_of(j.get("min_inclusive"), j.get("max_inclusive")),
        _ => None,
    }
}

/// What a metadata document says; nothing where it has no `pack` member.
pub open spec fn mcmeta_in(doc: JsonShape) -> Option<McmetaShape> {
    match member(doc, "pack"@) {
        Some(pack) => Some(
            McmetaShape {
                pack_format: match member(pack, "pack_format"@) {
                    Some(f) => match whole_number(f) {
                        Some(n) => Some(low_half(n)),
                        None => None,
                    },
                    None => None,
                },
                supported_formats: match member(pack, "supported_formats"@) {
                    Some(s) => formats_in(s),
                    None => None,
                },
                description: match member(pack, "description"@) {
                    Some(d) => if flattened(d).len() > 0 {
                        Some(flattened(d))
                    } else {
                        None
                    },
                    None => None,
                },
            },
        ),
        None => None,
    }
}

/// Reads a metadata document.
pub fn mcmeta_of(doc: &Json) -> (r: Option<Mcmeta>)
    ensures
        match r {
            Some(m) => mcmeta_in(doc.shape()) == Some(m.shape()),
            None => mcmeta_in(doc.shape()) is None,
        },
{
    let pack = match doc.get("pack") {
        Some(p) => p,
        None => {
            return None;
        },
    };
    let pack_format = match pack.get("pack_format") {
        Some(f) => match f.as_u64() {
            Some(n) => Some(cut(n)),
            None => None,
        },
        None => None,
    };
    let supported_formats = match pack.get("supported_formats") {
        Some(s) => formats_of(s),
        None => None,
    };
    let description = match pack.get("description") {
        Some(d) => {
            let text = description_text(d);
            if text.as_str().as_bytes().len() == 0 {
                proof {
                    encode_utf8_decode_utf8(text@);
                    lemma_empty_text(text@);
                }
                None
            } else {
                proof {
                    lemma_empty_text(text@);
                }
                Some(text)
            }
        },
        None => None,
    };
    Some(Mcmeta { pack_format, supported_formats, description })
}

proof fn lemma_empty_text(s: Seq<char>)
    ensures
        encode_utf8(s).len() == 0 <==> s.len() == 0,
{
    encode_utf8_decode_utf8(s);
    encode_utf8_decode_utf8(Seq::<char>::empty());
    assert(s.len() == 0 ==> s =~= Seq::<char>::empty());
    assert(encode_utf8(Seq::<char>::empty()) =~= Seq::<u8>::empty());
    assert(encode_utf8(s).len() == 0 ==> encode_utf8(s) =~= Seq::<u8>::empty());
}

/// What the text of a `pack.mcmeta` says.
pub open spec fn mcmeta_text(text: Seq<char>) -> Option<McmetaShape> {
    match document_shape(text) {
        Some(doc) => mcmeta_in(doc),
        None => None,
    }
}

/// Reads the text of a `pack.mcmeta`.
pub fn parse_mcmeta_text(text: &str) -> (r: Option<Mcmeta>)
    ensures
        match r {
            Some(m) => mcmeta_text(text@) == Some(m.shape()),
            None => mcmeta_text(text@) is None,
        },
{
    match parse_json(text) {
        Some(doc) => mcmeta_of(&doc),
        None => None,
    }
}

/// A member of an archive, by its name.
#[derive(Debug)]
pub struct ArchiveEntry {
    pub name: String,
    pub is_dir: bool,
}

/// The name of an archive member as a plain relative path; nothing for an
/// absolute name and for one that leads above its start, whichever slash it
/// is written with.
pub open spec fn sanitized(name: Seq<char>) -> Option<Seq<char>> {
    if (name.len() > 0 && (name[0] == '/' || name[0] == '\\')) || contains(name, ":/"@) {
        None
    } else if !within(name) || !stays_below(entry_steps(name)) || entry_steps(name).len() == 0 {
        None
    } else {
        Some(joined(entry_steps(name), '/'))
    }
}

/// The steps of a safe name, or nothing for an unsafe one.
fn safe_steps(name: &str) -> (r: Option<Vec<Vec<char>>>)
    ensures
        match r {
            Some(s) => sanitized(name@) == Some(joined(pieces_of(s@), '/')) && pieces_of(s@)
                == entry_steps(name@),
            None => sanitized(name@) is None,
        },
{
    let n = chars_of(name);
    if n.len() > 0 && (n[0] == '/' || n[0] == '\\') {
        return None;
    }
    let drive = chars_of(":/");
    if contains_chars(&n, &drive) || !is_within("", name) {
        return None;
    }
    let s = entry_steps_of(&n);
    assert(pieces_of(s@).len() == s@.len());
    if !steps_stay_below(&s) || s.len() == 0 {
        return None;
    }
    Some(s)
}

/// Refuses unsafe archive member names and makes the others plain.
pub fn sanitize_entry(name: &str) -> (r: Option<String>)
    ensures
        match r {
            Some(t) => sanitized(name@) == Some(t@),
            None => sanitized(name@) is None,
        },
{
    match safe_steps(name) {
        Some(s) => {
            let j = join_pieces(&s, '/');
            Some(string_of(&j))
        },
        None => None,
    }
}

/// A name made plain is safe: relative, not empty, and never above its start.
pub proof fn law_sanitized_stays_within(name: Seq<char>)
    requires
        sanitized(name) is Some,
    ensures
        within(sanitized(name)->0),
        sanitized(name)->0.len() > 0,
{
    lemma_steps_of_joined(name);
}

/// A step that marks the root of a pack.
pub open spec fn is_root_marker(step: Seq<char>) -> bool {
    step == "assets"@ || step == "pack.png"@ || ends_with(step, ".mcmeta"@)
}

/// The depth of the pack's root: the first marker; the length where there is
/// none.
pub open spec fn root_depth(s: Seq<Seq<char>>) -> int
    decreases s.len(),
{
    if s.len() == 0 {
        0
    } else if is_root_marker(s[0]) {
        0
    } else {
        1 + root_depth(s.skip(1))
    }
}

proof fn lemma_root_depth(s: Seq<Seq<char>>, i: int)
    requires
        0 <= i <= s.len(),
        forall|k: int| 0 <= k < i ==> !is_root_marker(#[trigger] s[k]),
        i < s.len() ==> is_root_marker(s[i]),
    ensures
        root_depth(s) == i,
    decreases s.len(),
{
    if s.len() > 0 && i > 0 {
        assert(!is_root_marker(s[0]));
        assert forall|k: int| 0 <= k < i - 1 implies !is_root_marker(#[trigger] s.skip(1)[k]) by {
            assert(s.skip(1)[k] == s[k + 1]);
        }
        lemma_root_depth(s.skip(1), i - 1);
    }
}

/// The member is the metadata file at the pack's root.
pub open spec fn is_metadata_entry(name: Seq<char>) -> bool {
    let s = entry_steps(name);
    let d = root_depth(s);
    d < s.len() && s[d] == "pack.mcmeta"@
}

/// The member lies in a namespace under the pack's `assets`.
pub open spec fn is_namespace_entry(name: Seq<char>) -> bool {
    let s = entry_steps(name);
    let d = root_depth(s);
    d + 1 < s.len() && s[d] == "assets"@
}

fn step_is(s: &[char], t: &str) -> (r: bool)
    ensures
        r == (s@ == t@),
{
    let c = chars_of(t);
    chars_eq(s, &c)
}

fn find_root(s: &[Vec<char>]) -> (r: usize)
    ensures
        r == root_depth(pieces_of(s@)),
        r <= s.len(),
{
    let ghost all = pieces_of(s@);
    let suffix = chars_of(".mcmeta");
    let mut i: usize = 0;
    while i < s.len()
        invariant
            i <= s.len(),
            all == pieces_of(s@),
            suffix@ == ".mcmeta"@,
            forall|k: int| 0 <= k < i ==> !is_root_marker(#[trigger] all[k]),
        decreases s.len() - i,
    {
        assert(all[i as int] == s@[i as int]@);
        if step_is(&s[i], "assets") || step_is(&s[i], "pack.png") || ends_with_chars(
            &s[i],
            &suffix,
        ) {
            proof {
                lemma_root_depth(all, i as int);
            }
            return i;
        }
        i += 1;
    }
    proof {
        lemma_root_depth(all, i as int);
    }
    i
}

/// The first `n` members with files hold one that the test picks.
pub open spec fn any_file(entries: Seq<ArchiveEntry>, n: int, p: spec_fn(Seq<char>) -> bool) -> bool {
    exists|i: int| 0 <= i < n && !(#[trigger] entries[i]).is_dir && p(entries[i].name@)
}

/// The first unsafe member among the files; the length where all are safe.
pub open spec fn first_unsafe(entries: Seq<ArchiveEntry>) -> int
    decreases entries.len(),
{
    if entries.len() == 0 {
        0
    } else if !entries[0].is_dir && sanitized(entries[0].name@) is None {
        0
    } else {
        1 + first_unsafe(entries.skip(1))
    }
}

proof fn lemma_first_unsafe(entries: Seq<ArchiveEntry>, i: int)
    requires
        0 <= i <= entries.len(),
        forall|k: int|
            0 <= k < i ==> (#[trigger] entries[k]).is_dir || sanitized(entries[k].name@) is Some,
        i < entries.len() ==> !entries[i].is_dir && sanitized(entries[i].name@) is None,
    ensures
        first_unsafe(entries) == i,
    decreases entries.len(),
{
    if entries.len() > 0 && i > 0 {
        assert(entries[0].is_dir || sanitized(entries[0].name@) is Some);
        assert forall|k: int| 0 <= k < i - 1 implies (#[trigger] entries.skip(1)[k]).is_dir
            || sanitized(entries.skip(1)[k].name@) is Some by {
            assert(entries.skip(1)[k] == entries[k + 1]);
        }
        lemma_first_unsafe(entries.skip(1), i - 1);
    }
}

/// What is missing of a pack.
pub open spec fn problem_texts(has_mcmeta: bool, has_namespace: bool) -> Seq<Seq<char>> {
    let a = if has_mcmeta {
        Seq::<Seq<char>>::empty()
    } else {
        seq!["missing pack.mcmeta"@]
    };
    if has_namespace {
        a
    } else {
        a.push("no namespace folders (expected e.g. assets/minecraft/...)"@)
    }
}

fn problems_of(has_mcmeta: bool, has_namespace: bool) -> (r: Vec<String>)
    ensures
        crate::text::names_of(r@) == problem_texts(has_mcmeta, has_namespace),
{
    let mut out: Vec<String> = Vec::new();
    if !has_mcmeta {
        out.push("missing pack.mcmeta".to_owned());
    }
    assert(crate::text::names_of(out@) =~= (if has_mcmeta {
        Seq::<Seq<char>>::empty()
    } else {
        seq!["missing pack.mcmeta"@]
    }));
    let ghost a = crate::text::names_of(out@);
    if !has_namespace {
        out.push("no namespace folders (expected e.g. assets/minecraft/...)".to_owned());
        assert(crate::text::names_of(out@) =~= a.push(
            "no namespace folders (expected e.g. assets/minecraft/...)"@,
        ));
    }
    out
}

/// The verdict on a structure.
pub open spec fn is_verdict(v: PackValidation, has_mcmeta: bool, has_namespace: bool) -> bool {
    &&& v.valid == (has_mcmeta && has_namespace)
    &&& crate::text::names_of(v.problems@) == problem_texts(has_mcmeta, has_namespace)
}

/// Judges an archive by the names of its members, before anything is
/// unpacked. The first unsafe name is an error; otherwise the archive is a
/// pack when it has a metadata file at its root and a namespace.
pub fn validate_entries(entries: &[ArchiveEntry], zip_path: &str) -> (r: Result<
    PackValidation,
    ImportError,
>)
    ensures
        match r {
            Ok(v) => {
                &&& first_unsafe(entries@) == entries.len()
                &&& is_verdict(
                    v,
                    any_file(entries@, entries.len() as int, |n: Seq<char>| is_metadata_entry(n)),
                    any_file(entries@, entries.len() as int, |n: Seq<char>| is_namespace_entry(n)),
                )
                &&& v.pack_format is None
                &&& v.description is None
            },
            Err(e) => {
                &&& first_unsafe(entries@) < entries.len()
                &&& e matches ImportError::UnsafePath(p, n)
                &&& p@ == zip_path@
                &&& n@ == entries@[first_unsafe(entries@)].name@
            },
        },
{
    let ghost meta = |n: Seq<char>| is_metadata_entry(n);
    let ghost space = |n: Seq<char>| is_namespace_entry(n);
    let mut has_mcmeta = false;
    let mut has_namespace = false;
    let mut i: usize = 0;
    while i < entries.len()
        invariant
            i <= entries.len(),
            meta == (|n: Seq<char>| is_metadata_entry(n)),
            space == (|n: Seq<char>| is_namespace_entry(n)),
            forall|k: int|
                0 <= k < i ==> (#[trigger] entries@[k]).is_dir || sanitized(
                    entries@[k].name@,
                ) is Some,
            has_mcmeta == any_file(entries@, i as int, meta),
            has_namespace == any_file(entries@, i as int, space),
        decreases entries.len() - i,
    {
        let ghost had_mcmeta = has_mcmeta;
        let ghost had_namespace = has_namespace;
        if !entries[i].is_dir {
            match safe_steps(entries[i].name.as_str()) {
                Some(s) => {
                    let ghost all = pieces_of(s@);
                    let d = find_root(&s);
                    assert(d < s.len() ==> all[d as int] == s@[d as int]@);
                    if d < s.len() {
                        if step_is(&s[d], "pack.mcmeta") {
                            has_mcmeta = true;
                        }
                        if d + 1 < s.len() && step_is(&s[d], "assets") {
                            has_namespace = true;
                        }
                    }
                    assert(has_mcmeta == (had_mcmeta || meta(entries@[i as int].name@)));
                    assert(has_namespace == (had_namespace || space(entries@[i as int].name@)));
                },
                None => {
                    proof {
                        lemma_first_unsafe(entries@, i as int);
                    }
                    return Err(
                        ImportError::UnsafePath(zip_path.to_owned(), entries[i].name.clone()),
                    );
                },
            }
        }
        proof {
            lemma_any_file_step(entries@, i as int, meta);
            lemma_any_file_step(entries@, i as int, space);
        }
        i += 1;
    }
    proof {
        lemma_first_unsafe(entries@, i as int);
    }
    Ok(
        PackValidation {
            valid: has_mcmeta && has_namespace,
            problems: problems_of(has_mcmeta, has_namespace),
            pack_format: None,
            description: None,
        },
    )
}

proof fn lemma_any_file_step(entries: Seq<ArchiveEntry>, n: int, p: spec_fn(Seq<char>) -> bool)
    requires
        0 <= n < entries.len(),
    ensures
        any_file(entries, n + 1, p) == (any_file(entries, n, p) || (!entries[n].is_dir && p(
            entries[n].name@,
        ))),
{
    if any_file(entries, n, p) {
        let i = choose|i: int|
            0 <= i < n && !(#[trigger] entries[i]).is_dir && p(entries[i].name@);
        assert(0 <= i < n + 1);
    }
    if any_file(entries, n + 1, p) {
        let i = choose|i: int|
            0 <= i < n + 1 && !(#[trigger] entries[i]).is_dir && p(entries[i].name@);
        if i < n {
            assert(any_file(entries, n, p));
        }
    }
}

/// What a directory looks like from outside.
#[derive(Debug)]
pub struct FolderListing {
    pub is_dir: bool,
    /// There is a file `pack.mcmeta`.
    pub has_mcmeta: bool,
    /// The text of `pack.mcmeta`, where it can be read.
    pub mcmeta: Option<String>,
    /// The entries of the directory `assets`, where there is one: each with
    /// whether it is a directory.
    pub assets: Option<Vec<(String, bool)>>,
    /// The entries of the directory itself.
    pub entries: Vec<(String, bool)>,
}

/// Directories under `assets` that are no namespaces.
pub open spec fn is_metadata_dir(name: Seq<char>) -> bool {
    name == "icons"@ || name == "lang"@ || name == "sounds"@
}

/// Entries of a pack's root that are no namespaces.
pub open spec fn is_known_entry(name: Seq<char>) -> bool {
    name == "pack.mcmeta"@ || name == "pack.png"@ || name == "assets"@ || name == "data"@ || name
        == "overlay"@ || name == "credits.txt"@ || name == "license"@ || name == "license.txt"@
        || name == "README.md"@ || name == "README.txt"@
}

/// A directory among the entries that the test does not pass over.
pub open spec fn any_dir(entries: Seq<(String, bool)>, skip: spec_fn(Seq<char>) -> bool) -> bool {
    exists|i: int| 0 <= i < entries.len() && (#[trigger] entries[i]).1 && !skip(entries[i].0@)
}

/// The folder has a namespace: under `assets` where that exists, at its root
/// otherwise.
pub open spec fn folder_has_namespace(f: FolderListing) -> bool {
    match f.assets {
        Some(inner) => any_dir(inner@, |n: Seq<char>| is_metadata_dir(n)),
        None => any_dir(f.entries@, |n: Seq<char>| is_known_entry(n)),
    }
}

fn metadata_dir(name: &str) -> (r: bool)
    ensures
        r == is_metadata_dir(name@),
{
    str_eq(name, "icons") || str_eq(name, "lang") || str_eq(name, "sounds")
}

fn known_entry(name: &str) -> (r: bool)
    ensures
        r == is_known_entry(name@),
{
    str_eq(name, "pack.mcmeta") || str_eq(name, "pack.png") || str_eq(name, "assets") || str_eq(
        name,
        "data",
    ) || str_eq(name, "overlay") || str_eq(name, "credits.txt") || str_eq(name, "license")
        || str_eq(name, "license.txt") || str_eq(name, "README.md") || str_eq(name, "README.txt")
}

fn has_dir(entries: &[(String, bool)], under_assets: bool) -> (r: bool)
    ensures
        under_assets ==> r == any_dir(entries@, |n: Seq<char>| is_metadata_dir(n)),
        !under_assets ==> r == any_dir(entries@, |n: Seq<char>| is_known_entry(n)),
{
    let mut i: usize = 0;
    while i < entries.len()
        invariant
            i <= entries.len(),
            forall|k: int|
                0 <= k < i ==> !((#[trigger] entries@[k]).1 && !(if under_assets {
                    is_metadata_dir(entries@[k].0@)
                } else {
                    is_known_entry(entries@[k].0@)
                })),
        decreases entries.len() - i,
    {
        let skipped = if under_assets {
            metadata_dir(entries[i].0.as_str())
        } else {
            known_entry(entries[i].0.as_str())
        };
        if entries[i].1 && !skipped {
            return true;
        }
        i += 1;
    }
    false
}

/// What a folder's metadata says of format and description.
pub open spec fn folder_metadata(f: FolderListing) -> (Option<u32>, Option<Seq<char>>) {
    match f.mcmeta {
        Some(text) => match mcmeta_text(text@) {
            Some(m) => (m.pack_format, m.description),
            None => (None, None),
        },
        None => (None, None),
    }
}

/// Judges a folder: it is a pack when it has a metadata file and a namespace.
pub fn validate_folder(dir: &str, f: &FolderListing) -> (r: Result<PackValidation, ImportError>)
    ensures
        match r {
            Ok(v) => {
                &&& f.is_dir
                &&& is_verdict(v, f.has_mcmeta, folder_has_namespace(*f))
                &&& (v.pack_format, opt_text(v.description)) == folder_metadata(*f)
            },
            Err(e) => !f.is_dir && (e matches ImportError::NotFound(p) && p@ == dir@),
        },
{
    if !f.is_dir {
        return Err(ImportError::NotFound(dir.to_owned()));
    }
    let has_namespace = match &f.assets {
        Some(inner) => has_dir(inner, true),
        None => has_dir(&f.entries, false),
    };
    let (pack_format, description) = match &f.mcmeta {
        Some(text) => match parse_mcmeta_text(text.as_str()) {
            Some(m) => (m.pack_format, m.description),
            None => (None, None),
        },
        None => (None, None),
    };
    Ok(
        PackValidation {
            valid: f.has_mcmeta && has_namespace,
            problems: problems_of(f.has_mcmeta, has_namespace),
            pack_format,
            description,
        },
    )
}

/// A member that counts for the wrapper folder: a file whose name does not
/// begin with a dot.
pub open spec fn counts_for_top(e: ArchiveEntry) -> bool {
    !e.is_dir && !(e.name@.len() > 0 && e.name@[0] == '.')
}

/// The wrapper folder a member names: what stands before its first slash,
/// when something follows that.
pub open spec fn head_of(e: ArchiveEntry) -> Option<Seq<char>> {
    match split_once(e.name@, '/') {
        Some(p) => if p.1.len() > 0 {
            Some(p.0)
        } else {
            None
        },
        None => None,
    }
}

/// All members that count lie in folders.
pub open spec fn all_in_folders(entries: Seq<ArchiveEntry>) -> bool {
    forall|i: int|
        0 <= i < entries.len() && counts_for_top(#[trigger] entries[i]) ==> split_once(
            entries[i].name@,
            '/',
        ) is Some
}

/// `top` is the one folder that the members which count name.
pub open spec fn is_top(entries: Seq<ArchiveEntry>, top: Seq<char>) -> bool {
    &&& all_in_folders(entries)
    &&& exists|i: int|
        0 <= i < entries.len() && counts_for_top(#[trigger] entries[i]) && head_of(entries[i])
            == Some(top)
    &&& forall|i: int|
        0 <= i < entries.len() && counts_for_top(#[trigger] entries[i]) && head_of(
            entries[i],
        ) is Some ==> head_of(entries[i]) == Some(top)
}

/// The wrapper folder of an archive, where all its files share one.
pub fn top_level_dir(entries: &[ArchiveEntry]) -> (r: Option<String>)
    ensures
        match r {
            Some(t) => is_top(entries@, t@),
            None => forall|t: Seq<char>| !is_top(entries@, t),
        },
{
    let mut first: Option<Vec<char>> = None;
    let mut i: usize = 0;
    while i < entries.len()
        invariant
            i <= entries.len(),
            all_in_folders(entries@.take(i as int)),
            match first {
                Some(t) => is_top(entries@.take(i as int), t@),
                None => forall|k: int|
                    0 <= k < i && counts_for_top(#[trigger] entries@[k]) ==> head_of(
                        entries@[k],
                    ) is None,
            },
        decreases entries.len() - i,
    {
        let ghost cur = entries@[i as int];
        let ghost before = entries@.take(i as int);
        let ghost after = entries@.take(i + 1);
        assert(after[i as int] == cur);
        assert forall|k: int| 0 <= k < i implies #[trigger] after[k] == before[k] by {}
        let n = chars_of(entries[i].name.as_str());
        if entries[i].is_dir || (n.len() > 0 && n[0] == '.') {
            assert(!counts_for_top(cur));
        } else {
            match split_once_chars(&n, '/') {
                Some((head, rest)) => {
                    if rest.len() > 0 {
                        assert(head_of(cur) == Some(head@));
                        match &first {
                            None => {
                                assert(is_top(after, head@)) by {
                                    assert(counts_for_top(after[i as int]));
                                    assert forall|k: int|
                                        0 <= k < after.len() && counts_for_top(
                                            #[trigger] after[k],
                                        ) && head_of(after[k]) is Some implies head_of(after[k])
                                        == Some(head@) by {
                                        if k < i {
                                            assert(entries@[k] == after[k]);
                                        }
                                    }
                                }
                                first = Some(head);
                            },
                            Some(t) => {
                                if !chars_eq(t, &head) {
                                    assert forall|x: Seq<char>| !is_top(entries@, x) by {
                                        let j = choose|j: int|
                                            0 <= j < before.len() && counts_for_top(
                                                #[trigger] before[j],
                                            ) && head_of(before[j]) == Some(t@);
                                        assert(entries@[j] == before[j]);
                                        assert(counts_for_top(entries@[i as int]));
                                    }
                                    return None;
                                }
                                proof {
                                    lemma_top_grows(entries@, i as int, t@);
                                }
                            },
                        }
                    } else {
                        assert(head_of(cur) is None);
                    }
                },
                None => {
                    assert(counts_for_top(entries@[i as int]));
                    return None;
                },
            }
        }
        proof {
            assert forall|k: int| 0 <= k < after.len() && counts_for_top(
                #[trigger] after[k],
            ) implies split_once(after[k].name@, '/') is Some by {
                if k < i {
                    assert(before[k] == after[k]);
                }
            }
            if first is Some && is_top(before, first->0@) && (!counts_for_top(cur) || head_of(
                cur,
            ) is None || head_of(cur) == Some(first->0@)) {
                lemma_top_grows(entries@, i as int, first->0@);
            }
        }
        i += 1;
    }
    assert(entries@.take(i as int) =~= entries@);
    match first {
        Some(t) => Some(string_of(&t)),
        None => None,
    }
}

proof fn lemma_top_grows(entries: Seq<ArchiveEntry>, n: int, t: Seq<char>)
    requires
        0 <= n < entries.len(),
        is_top(entries.take(n), t),
        counts_for_top(entries[n]) ==> split_once(entries[n].name@, '/') is Some && (head_of(
            entries[n],
        ) is None || head_of(entries[n]) == Some(t)),
    ensures
        is_top(entries.take(n + 1), t),
{
    let before = entries.take(n);
    let after = entries.take(n + 1);
    let j = choose|j: int|
        0 <= j < before.len() && counts_for_top(#[trigger] before[j]) && head_of(before[j]) == Some(
            t,
        );
    assert(after[j] == before[j]);
    assert forall|k: int| 0 <= k < after.len() && counts_for_top(
        #[trigger] after[k],
    ) implies split_once(after[k].name@, '/') is Some && (head_of(after[k]) is Some ==> head_of(
        after[k],
    ) == Some(t)) by {
        if k < n {
            assert(before[k] == after[k]);
        }
    }
}

/// What to do with a member of an archive.
#[derive(Debug)]
pub enum EntryTarget {
    /// Nothing to write.
    Skip,
    /// Write it to this path under the destination.
    Write(String),
    /// The member would leave the destination.
    Unsafe,
}

/// The path begins with the wrapper folder.
pub open spec fn in_top(top: Option<Seq<char>>, path: Seq<char>) -> bool {
    top matches Some(t) && t.len() > 0 && !(path.len() > 0 && path[0] == '.' && (path.len() == 1
        || path[1] == '/')) && !is_rooted(path) && steps(path).len() > 0 && steps(path)[0] == t
}

/// Where a member of an archive goes: its path without the wrapper folder. A
/// path that is unknown or would lead above the destination is unsafe.
pub open spec fn is_target(
    r: EntryTarget,
    top: Option<Seq<char>>,
    enclosed: Option<Seq<char>>,
) -> bool {
    match enclosed {
        None => r is Unsafe,
        Some(path) => if in_top(top, path) {
            let rest = steps(path).skip(1);
            if !stays_below(rest) {
                r is Unsafe
            } else if rest.len() == 0 {
                r is Skip
            } else {
                r matches EntryTarget::Write(p) && p@ == joined(rest, '/')
            }
        } else if path.len() == 0 {
            r is Skip
        } else if !within(path) {
            r is Unsafe
        } else {
            r matches EntryTarget::Write(p) && p@ == path
        },
    }
}

/// Decides where a member of an archive is written. `enclosed` is its path as
/// the archive reader gives it, if it found one.
pub fn entry_target(top: Option<&str>, enclosed: Option<&str>) -> (r: EntryTarget)
    ensures
        is_target(
            r,
            match top {
                Some(t) => Some(t@),
                None => None,
            },
            match enclosed {
                Some(e) => Some(e@),
                None => None,
            },
        ),
{
    let path = match enclosed {
        Some(e) => e,
        None => {
            return EntryTarget::Unsafe;
        },
    };
    let p = chars_of(path);
    let s = steps_of(&p);
    let ghost all = pieces_of(s@);
    let inside = match top {
        Some(t) => {
            let want = chars_of(t);
            assert(s.len() > 0 ==> all[0] == s@[0]@);
            want.len() > 0 && !(p.len() > 0 && p[0] == '.' && (p.len() == 1 || p[1] == '/')) && !(
            p.len() > 0 && p[0] == '/') && s.len() > 0 && chars_eq(&s[0], &want)
        },
        None => false,
    };
    if inside {
        let mut rest: Vec<Vec<char>> = Vec::new();
        let mut i: usize = 1;
        while i < s.len()
            invariant
                1 <= i <= s.len(),
                all == pieces_of(s@),
                pieces_of(rest@) == all.subrange(1, i as int),
            decreases s.len() - i,
        {
            let ghost before = pieces_of(rest@);
            let piece = crate::text::part(&s[i], 0, s[i].len());
            assert(piece@ =~= s@[i as int]@);
            rest.push(piece);
            assert(pieces_of(rest@) =~= before.push(piece@));
            assert(all.subrange(1, i + 1) =~= all.subrange(1, i as int).push(all[i as int]));
            i += 1;
        }
        assert(all.subrange(1, all.len() as int) =~= all.skip(1));
        assert(pieces_of(rest@).len() == rest@.len());
        if !steps_stay_below(&rest) {
            return EntryTarget::Unsafe;
        }
        if rest.len() == 0 {
            return EntryTarget::Skip;
        }
        let j = join_pieces(&rest, '/');
        EntryTarget::Write(string_of(&j))
    } else if p.len() == 0 {
        EntryTarget::Skip
    } else if !is_within("", path) {
        EntryTarget::Unsafe
    } else {
        EntryTarget::Write(path.to_owned())
    }
}

/// Whatever an archive holds, what is written stays under the destination.
pub proof fn law_targets_stay_within(
    r: EntryTarget,
    top: Option<Seq<char>>,
    enclosed: Option<Seq<char>>,
)
    requires
        is_target(r, top, enclosed),
    ensures
        r matches EntryTarget::Write(p) ==> within(p@) && p@.len() > 0,
{
    if r is Write && enclosed is Some && in_top(top, enclosed->0) {
        let path = enclosed->0;
        crate::paths::lemma_tail_of_steps(path);
    }
}

/// A release as its three numbers.
pub open spec fn is_release(text: Seq<char>, major: int, minor: int, patch: int) -> bool {
    text == decimal(major as nat) + seq!['.'] + decimal(minor as nat) + (if patch > 0 {
        seq!['.'] + decimal(patch as nat)
    } else {
        Seq::empty()
    })
}

/// The published table of pack formats: each known format names its release,
/// and no other format names one.
pub proof fn law_formats_name_their_release(format: u32)
    ensures
        version_of(97) == Some("26.3"@),
        version_of(96) == Some("26.2"@),
        version_of(95) == Some("26.1"@),
        version_of(94) == Some("1.21.11"@),
        version_of(93) == Some("1.21.9"@),
        version_of(88) == Some("1.21.6"@),
        version_of(81) == Some("1.21.5"@),
        version_of(71) == Some("1.21.4"@),
        version_of(64) == Some("1.21.2"@),
        version_of(61) == Some("1.21"@),
        version_of(57) == Some("1.20.5"@),
        version_of(46) == Some("1.20"@),
        version_of(34) == Some("1.19.4"@),
        version_of(22) == Some("1.19"@),
        version_of(18) == Some("1.18"@),
        version_of(15) == Some("1.17"@),
        version_of(8) == Some("1.16"@),
        version_of(6) == Some("1.15"@),
        version_of(5) == Some("1.14"@),
        version_of(4) == Some("1.13"@),
        version_of(format) is Some ==> format == 97 || format == 96 || format == 95 || format == 94 || format == 93 || format == 88 || format == 81 || format == 71 || format == 64 || format == 61 || format == 57 || format == 46 || format == 34 || format == 22 || format == 18 || format == 15 || format == 8 || format == 6 || format == 5 || format == 4,
{
}

/// A decimal number of one or two digits.
proof fn lemma_short_decimal(n: nat)
    requires
        n < 100,
    ensures
        n < 10 ==> decimal(n) == seq![crate::text::digit_char(n as int)],
        n >= 10 ==> decimal(n) == seq![
            crate::text::digit_char(n as int / 10),
            crate::text::digit_char(n as int % 10),
        ],
{
    reveal_with_fuel(decimal, 3);
}

/// Every known format names a release by its numbers, and a greater format
/// never names an older release.
pub proof fn law_releases_never_get_older(a: u32, b: u32)
    requires
        a < b,
        version_of(a) is Some,
        version_of(b) is Some,
    ensures
        exists|x: int, y: int, z: int, u: int, v: int, w: int|
            #![trigger is_release(version_of(a)->0, x, y, z), is_release(version_of(b)->0, u, v, w)]
            is_release(version_of(a)->0, x, y, z) && is_release(version_of(b)->0, u, v, w) && (x
                < u || (x == u && (y < v || (y == v && z < w)))),
{
    let (x, y, z) = lemma_release_numbers(a);
    let (u, v, w) = lemma_release_numbers(b);
    assert(is_release(version_of(a)->0, x, y, z));
    assert(is_release(version_of(b)->0, u, v, w));
}

proof fn lemma_release_numbers(f: u32) -> (r: (int, int, int))
    requires
        version_of(f) is Some,
    ensures
        is_release(version_of(f)->0, r.0, r.1, r.2),
        f == 97 ==> r == (26int, 3int, 0int),
        f == 96 ==> r == (26int, 2int, 0int),
        f == 95 ==> r == (26int, 1int, 0int),
        f == 94 ==> r == (1int, 21int, 11int),
        f == 93 ==> r == (1int, 21int, 9int),
        f == 88 ==> r == (1int, 21int, 6int),
        f == 81 ==> r == (1int, 21int, 5int),
        f == 71 ==> r == (1int, 21int, 4int),
        f == 64 ==> r == (1int, 21int, 2int),
        f == 61 ==> r == (1int, 21int, 0int),
        f == 57 ==> r == (1int, 20int, 5int),
        f == 46 ==> r == (1int, 20int, 0int),
        f == 34 ==> r == (1int, 19int, 4int),
        f == 22 ==> r == (1int, 19int, 0int),
        f == 18 ==> r == (1int, 18int, 0int),
        f == 15 ==> r == (1int, 17int, 0int),
        f == 8 ==> r == (1int, 16int, 0int),
        f == 6 ==> r == (1int, 15int, 0int),
        f == 5 ==> r == (1int, 14int, 0int),
        f == 4 ==> r == (1int, 13int, 0int),
{
    lemma_short_decimal(0);
    lemma_short_decimal(1);
    lemma_short_decimal(2);
    lemma_short_decimal(3);
    lemma_short_decimal(4);
    lemma_short_decimal(5);
    lemma_short_decimal(6);
    lemma_short_decimal(9);
    lemma_short_decimal(11);
    lemma_short_decimal(13);
    lemma_short_decimal(14);
    lemma_short_decimal(15);
    lemma_short_decimal(16);
    lemma_short_decimal(17);
    lemma_short_decimal(18);
    lemma_short_decimal(19);
    lemma_short_decimal(20);
    lemma_short_decimal(21);
    lemma_short_decimal(26);
    if f == 97 {
        reveal_strlit("26.3");
        assert("26.3"@ =~= decimal(26) + seq!['.'] + decimal(3) + (if 0int > 0 {
            seq!['.'] + decimal(0)
        } else {
            Seq::empty()
        }));
        (26int, 3int, 0int)
    } else if f == 96 {
        reveal_strlit("26.2");
        assert("26.2"@ =~= decimal(26) + seq!['.'] + decimal(2) + (if 0int > 0 {
            seq!['.'] + decimal(0)
        } else {
            Seq::empty()
        }));
        (26int, 2int, 0int)
    } else if f == 95 {
        reveal_strlit("26.1");
        assert("26.1"@ =~= decimal(26) + seq!['.'] + decimal(1) + (if 0int > 0 {
            seq!['.'] + decimal(0)
        } else {
            Seq::empty()
        }));
        (26int, 1int, 0int)
    } else if f == 94 {
        reveal_strlit("1.21.11");
        assert("1.21.11"@ =~= decimal(1) + seq!['.'] + decimal(21) + (if 11int > 0 {
            seq!['.'] + decimal(11)
        } else {
            Seq::empty()
        }));
        (1int, 21int, 11int)
    } else if f == 93 {
        reveal_strlit("1.21.9");
        assert("1.21.9"@ =~= decimal(1) + seq!['.'] + decimal(21) + (if 9int > 0 {
            seq!['.'] + decimal(9)
        } else {
            Seq::empty()
        }));
        (1int, 21int, 9int)
    } else if f == 88 {
        reveal_strlit("1.21.6");
        assert("1.21.6"@ =~= decimal(1) + seq!['.'] + decimal(21) + (if 6int > 0 {
            seq!['.'] + decimal(6)
        } else {
            Seq::empty()
        }));
        (1int, 21int, 6int)
    } else if f == 81 {
        reveal_strlit("1.21.5");
        assert("1.21.5"@ =~= decimal(1) + seq!['.'] + decimal(21) + (if 5int > 0 {
            seq!['.'] + decimal(5)
        } else {
            Seq::empty()
        }));
        (1int, 21int, 5int)
    } else if f == 71 {
        reveal_strlit("1.21.4");
        assert("1.21.4"@ =~= decimal(1) + seq!['.'] + decimal(21) + (if 4int > 0 {
            seq!['.'] + decimal(4)
        } else {
            Seq::empty()
        }));
        (1int, 21int, 4int)
    } else if f == 64 {
        reveal_strlit("1.21.2");
        assert("1.21.2"@ =~= decimal(1) + seq!['.'] + decimal(21) + (if 2int > 0 {
            seq!['.'] + decimal(2)
        } else {
            Seq::empty()
        }));
        (1int, 21int, 2int)
    } else if f == 61 {
        reveal_strlit("1.21");
        assert("1.21"@ =~= decimal(1) + seq!['.'] + decimal(21) + (if 0int > 0 {
            seq!['.'] + decimal(0)
        } else {
            Seq::empty()
        }));
        (1int, 21int, 0int)
    } else if f == 57 {
        reveal_strlit("1.20.5");
        assert("1.20.5"@ =~= decimal(1) + seq!['.'] + decimal(20) + (if 5int > 0 {
            seq!['.'] + decimal(5)
        } else {
            Seq::empty()
        }));
        (1int, 20int, 5int)
    } else if f == 46 {
        reveal_strlit("1.20");
        assert("1.20"@ =~= decimal(1) + seq!['.'] + decimal(20) + (if 0int > 0 {
            seq!['.'] + decimal(0)
        } else {
            Seq::empty()
        }));
        (1int, 20int, 0int)
    } else if f == 34 {
        reveal_strlit("1.19.4");
        assert("1.19.4"@ =~= decimal(1) + seq!['.'] + decimal(19) + (if 4int > 0 {
            seq!['.'] + decimal(4)
        } else {
            Seq::empty()
        }));
        (1int, 19int, 4int)
    } else if f == 22 {
        reveal_strlit("1.19");
        assert("1.19"@ =~= decimal(1) + seq!['.'] + decimal(19) + (if 0int > 0 {
            seq!['.'] + decimal(0)
        } else {
            Seq::empty()
        }));
        (1int, 19int, 0int)
    } else if f == 18 {
        reveal_strlit("1.18");
        assert("1.18"@ =~= decimal(1) + seq!['.'] + decimal(18) + (if 0int > 0 {
            seq!['.'] + decimal(0)
        } else {
            Seq::empty()
        }));
        (1int, 18int, 0int)
    } else if f == 15 {
        reveal_strlit("1.17");
        assert("1.17"@ =~= decimal(1) + seq!['.'] + decimal(17) + (if 0int > 0 {
            seq!['.'] + decimal(0)
        } else {
            Seq::empty()
        }));
        (1int, 17int, 0int)
    } else if f == 8 {
        reveal_strlit("1.16");
        assert("1.16"@ =~= decimal(1) + seq!['.'] + decimal(16) + (if 0int > 0 {
            seq!['.'] + decimal(0)
        } else {
            Seq::empty()
        }));
        (1int, 16int, 0int)
    } else if f == 6 {
        reveal_strlit("1.15");
        assert("1.15"@ =~= decimal(1) + seq!['.'] + decimal(15) + (if 0int > 0 {
            seq!['.'] + decimal(0)
        } else {
            Seq::empty()
        }));
        (1int, 15int, 0int)
    } else if f == 5 {
        reveal_strlit("1.14");
        assert("1.14"@ =~= decimal(1) + seq!['.'] + decimal(14) + (if 0int > 0 {
            seq!['.'] + decimal(0)
        } else {
            Seq::empty()
        }));
        (1int, 14int, 0int)
    } else if f == 4 {
        reveal_strlit("1.13");
        assert("1.13"@ =~= decimal(1) + seq!['.'] + decimal(13) + (if 0int > 0 {
            seq!['.'] + decimal(0)
        } else {
            Seq::empty()
        }));
        (1int, 13int, 0int)
    } else {
        (0int, 0int, 0int)
    }
}

/// A section sign and the character behind it are cut; the text before and
/// behind stays, and a text without section signs stays whole.
pub proof fn law_section_codes_are_cut(a: Seq<char>, code: char, b: Seq<char>)
    requires
        !a.contains('\u{a7}'),
    ensures
        without_codes(a) == a,
        without_codes(a + seq!['\u{a7}', code] + b) == a + without_codes(b),
        without_codes(a + seq!['\u{a7}']) == a,
    decreases a.len(),
{
    let s = a + seq!['\u{a7}', code] + b;
    let t = a + seq!['\u{a7}'];
    if a.len() == 0 {
        assert(s.skip(2) =~= b);
        assert(a + without_codes(b) =~= without_codes(b));
        assert(without_codes(a) =~= a);
        assert(t.len() == 1);
        assert(without_codes(t) =~= a);
    } else {
        let r = a.skip(1);
        assert(!r.contains('\u{a7}')) by {
            assert forall|i: int| 0 <= i < r.len() implies r[i] != '\u{a7}' by {
                assert(a.contains(a[i + 1]));
            }
        }
        assert(a.contains(a[0]));
        law_section_codes_are_cut(r, code, b);
        assert(s.skip(1) =~= r + seq!['\u{a7}', code] + b);
        assert(t.skip(1) =~= r + seq!['\u{a7}']);
        assert(seq![a[0]] + r =~= a);
        assert(seq![a[0]] + (r + without_codes(b)) =~= a + without_codes(b));
    }
}

/// A text component is flattened: a string to its text, an array to its parts
/// in order, an object to its text and what it carries behind it, and anything
/// else to nothing.
pub proof fn law_components_are_flattened(
    items: Seq<JsonShape>,
    x: JsonShape,
    members: Seq<(Seq<char>, JsonShape)>,
    s: Seq<char>,
    extra: JsonShape,
)
    ensures
        flattened(JsonShape::Text(s)) == without_codes(s),
        flattened(JsonShape::Array(Seq::empty())).len() == 0,
        flattened(JsonShape::Array(items.push(x))) == flattened(JsonShape::Array(items))
            + flattened(x),
        ({
            let j = JsonShape::Object(members);
            let text = member(j, "text"@) == Some(JsonShape::Text(s));
            let no_text = member(j, "text"@) is None;
            let with = member(j, "extra"@) == Some(extra);
            let without = member(j, "extra"@) is None;
            &&& text && without ==> flattened(j) == without_codes(s)
            &&& text && with ==> flattened(j) == without_codes(s) + flattened(extra)
            &&& no_text && with ==> flattened(j) == flattened(extra)
            &&& no_text && without ==> flattened(j).len() == 0
        }),
        flattened(JsonShape::Null).len() == 0,
        flattened(JsonShape::Number(Some(7))).len() == 0,
        flattened(JsonShape::Bool(true)).len() == 0,
{
    reveal_with_fuel(flattened, 2);
    reveal_with_fuel(flattened_items, 2);
    let all = items.push(x);
    assert(flattened(JsonShape::Array(all)) == flattened_items(all, all.len() as int));
    lemma_flattened_front(items, x, items.len() as int);
    assert(all[all.len() - 1] == x);
    assert(without_codes(s) + Seq::<char>::empty() =~= without_codes(s));
}

proof fn lemma_flattened_front(items: Seq<JsonShape>, x: JsonShape, n: int)
    requires
        0 <= n <= items.len(),
    ensures
        flattened_items(items.push(x), n) == flattened_items(items, n),
    decreases n,
{
    if n > 0 {
        lemma_flattened_front(items, x, n - 1);
        assert(items.push(x)[n - 1] == items[n - 1]);
    }
}

/// The metadata of a pack: its format and its range of formats where they are
/// numbers, and its description as plain text where that is not empty.
pub proof fn law_metadata_is_read(
    doc: JsonShape,
    pack: JsonShape,
    n: u64,
    low: u64,
    high: u64,
    s: Seq<char>,
    members: Seq<(Seq<char>, JsonShape)>,
)
    requires
        member(doc, "pack"@) == Some(pack),
        n <= u32::MAX,
        low <= u32::MAX,
        high <= u32::MAX,
        !s.contains('\u{a7}'),
    ensures
        mcmeta_in(doc) is Some,
        ({
            let m = mcmeta_in(doc)->0;
            let formats = member(pack, "supported_formats"@);
            let range = JsonShape::Object(members);
            &&& member(pack, "pack_format"@) == Some(JsonShape::Number(Some(n))) ==> m.pack_format
                == Some(n as u32)
            &&& member(pack, "pack_format"@) is None ==> m.pack_format is None
            &&& formats is None ==> m.supported_formats is None
            &&& formats == Some(
                JsonShape::Array(
                    seq![JsonShape::Number(Some(low)), JsonShape::Number(Some(high))],
                ),
            ) ==> m.supported_formats == Some((low as u32, high as u32))
            &&& formats == Some(range) && member(range, "min_inclusive"@) == Some(
                JsonShape::Number(Some(low)),
            ) && member(range, "max_inclusive"@) == Some(JsonShape::Number(Some(high)))
                ==> m.supported_formats == Some((low as u32, high as u32))
            &&& formats == Some(JsonShape::Number(Some(n))) ==> m.supported_formats is None
            &&& member(pack, "description"@) is None ==> m.description is None
            &&& member(pack, "description"@) == Some(JsonShape::Text(s)) && s.len() > 0
                ==> m.description == Some(s)
            &&& member(pack, "description"@) == Some(JsonShape::Text(s)) && s.len() == 0
                ==> m.description is None
        }),
{
    law_section_codes_are_cut(s, ' ', s);
    assert(n % 0x1_0000_0000 == n && low % 0x1_0000_0000 == low && high % 0x1_0000_0000 == high);
}

/// A document without a member `pack` says nothing.
pub proof fn law_metadata_needs_its_section(doc: JsonShape)
    requires
        member(doc, "pack"@) is None,
    ensures
        mcmeta_in(doc) is None,
{
}

/// A name made of plain steps is kept; an absolute one is refused, and so is
/// one that begins with a step up.
pub proof fn law_plain_names_are_kept(pieces: Seq<Seq<char>>, name: Seq<char>)
    requires
        pieces.len() > 0,
        forall|i: int| 0 <= i < pieces.len() ==> crate::paths::is_step(#[trigger] pieces[i]),
        forall|i: int, k: int|
            0 <= i < pieces.len() && 0 <= k < pieces[i].len() ==> #[trigger] pieces[i][k] != '/'
                && pieces[i][k] != '\\',
    ensures
        name.len() > 0 && (name[0] == '/' || name[0] == '\\') ==> sanitized(name) is None,
        contains(name, ":/"@) ==> sanitized(name) is None,
        !contains(joined(pieces, '/'), ":/"@) && (forall|i: int|
            0 <= i < pieces.len() ==> #[trigger] pieces[i] != seq!['.', '.']) ==> sanitized(
            joined(pieces, '/'),
        ) == Some(joined(pieces, '/')),
        pieces[0] == seq!['.', '.'] ==> sanitized(joined(pieces, '/')) is None && sanitized(
            joined(pieces, '\\'),
        ) is None,
{
    crate::paths::law_either_slash_divides(pieces);
    crate::paths::law_steps_up(pieces, 0);
    lemma_joined_begins(pieces, '/');
    assert(pieces[0][0] != '/' && pieces[0][0] != '\\') by {
        assert(crate::paths::is_step(pieces[0]));
    }
}

proof fn lemma_joined_begins(pieces: Seq<Seq<char>>, sep: char)
    requires
        pieces.len() > 0,
        pieces[0].len() > 0,
    ensures
        joined(pieces, sep).len() > 0,
        joined(pieces, sep)[0] == pieces[0][0],
    decreases pieces.len(),
{
    if pieces.len() > 1 {
        lemma_joined_begins(pieces.drop_last(), sep);
    }
}

/// The root of a pack lies where its first marker stands: `assets`,
/// `pack.png` or a file that ends in `.mcmeta`.
pub proof fn law_first_marker_is_the_root(s: Seq<Seq<char>>, i: int)
    requires
        0 <= i <= s.len(),
        forall|k: int|
            0 <= k < i ==> #[trigger] s[k] != "assets"@ && s[k] != "pack.png"@ && !ends_with(
                s[k],
                ".mcmeta"@,
            ),
        i < s.len() ==> s[i] == "assets"@ || s[i] == "pack.png"@ || ends_with(s[i], ".mcmeta"@),
    ensures
        root_depth(s) == i,
    decreases s.len(),
{
    if i > 0 {
        assert(!is_root_marker(s[0]));
        let rest = s.skip(1);
        assert forall|k: int| 0 <= k < i - 1 implies #[trigger] rest[k] != "assets"@ && rest[k]
            != "pack.png"@ && !ends_with(rest[k], ".mcmeta"@) by {
            assert(rest[k] == s[k + 1]);
        }
        law_first_marker_is_the_root(rest, i - 1);
    }
}

/// A file `pack.mcmeta` at the root is the metadata, and what lies below
/// `assets` at the root lies in a namespace, however deep the root is.
pub proof fn law_members_are_told_apart(name: Seq<char>, i: int)
    requires
        0 <= i < entry_steps(name).len(),
        forall|k: int|
            0 <= k < i ==> #[trigger] entry_steps(name)[k] != "assets"@ && entry_steps(name)[k]
                != "pack.png"@ && !ends_with(entry_steps(name)[k], ".mcmeta"@),
    ensures
        entry_steps(name)[i] == "pack.mcmeta"@ ==> is_metadata_entry(name) && !is_namespace_entry(
            name,
        ),
        entry_steps(name)[i] == "assets"@ ==> !is_metadata_entry(name) && (is_namespace_entry(name)
            <==> i + 1 < entry_steps(name).len()),
        entry_steps(name)[i] == "pack.png"@ ==> !is_metadata_entry(name) && !is_namespace_entry(
            name,
        ),
        i == entry_steps(name).len() - 1 && entry_steps(name)[i] != "pack.mcmeta"@
            ==> !is_metadata_entry(name),
{
    let s = entry_steps(name);
    reveal_strlit("pack.mcmeta");
    reveal_strlit("assets");
    reveal_strlit("pack.png");
    reveal_strlit(".mcmeta");
    assert("pack.mcmeta"@.len() == 11);
    assert("assets"@.len() == 6);
    assert("pack.png"@.len() == 8);
    assert(".mcmeta"@.len() == 7);
    assert("pack.mcmeta"@.skip(4) =~= ".mcmeta"@);
    if is_root_marker(s[i]) {
        law_first_marker_is_the_root(s, i);
    } else if i == s.len() - 1 {
        law_first_marker_is_the_root(s, i + 1);
    }
}

/// The first file with an unsafe name is found; directories are passed over.
pub proof fn law_first_unsafe_file_is_found(entries: Seq<ArchiveEntry>, i: int)
    requires
        0 <= i <= entries.len(),
        forall|k: int|
            0 <= k < i ==> (#[trigger] entries[k]).is_dir || sanitized(entries[k].name@) is Some,
        i < entries.len() ==> !entries[i].is_dir && sanitized(entries[i].name@) is None,
    ensures
        first_unsafe(entries) == i,
    decreases entries.len(),
{
    if i > 0 {
        let rest = entries.skip(1);
        assert(entries[0].is_dir || sanitized(entries[0].name@) is Some);
        assert forall|k: int| 0 <= k < i - 1 implies (#[trigger] rest[k]).is_dir || sanitized(
            rest[k].name@,
        ) is Some by {
            assert(rest[k] == entries[k + 1]);
        }
        law_first_unsafe_file_is_found(rest, i - 1);
    }
}

/// A pack is valid where it has metadata and a namespace, and what is missing
/// is said.
pub proof fn law_missing_parts_are_named(v: PackValidation, has_mcmeta: bool, has_namespace: bool)
    requires
        is_verdict(v, has_mcmeta, has_namespace),
    ensures
        v.valid <==> has_mcmeta && has_namespace,
        v.problems@.len() == (if has_mcmeta { 0int } else { 1 }) + (if has_namespace { 0int } else {
            1
        }),
        !has_mcmeta ==> v.problems@[0]@ == "missing pack.mcmeta"@,
        !has_namespace ==> v.problems@.last()@
            == "no namespace folders (expected e.g. assets/minecraft/...)"@,
{
    let n = crate::text::names_of(v.problems@);
    assert(n.len() == v.problems@.len());
    if !has_mcmeta {
        assert(n[0] == v.problems@[0]@);
    }
    if !has_namespace {
        assert(n.last() == v.problems@.last()@);
    }
}

/// A directory under `assets` is a namespace unless it is `icons`, `lang` or
/// `sounds`; without `assets`, a directory at the root is one unless the root
/// is known to hold it.
pub proof fn law_namespaces_are_directories(f: FolderListing, i: int)
    ensures
        f.assets matches Some(v) ==> (0 <= i < v@.len() && v@[i].1 && v@[i].0@ != "icons"@
            && v@[i].0@ != "lang"@ && v@[i].0@ != "sounds"@ ==> folder_has_namespace(f)),
        f.assets matches Some(v) ==> ((forall|k: int|
            0 <= k < v@.len() ==> !(#[trigger] v@[k]).1 || v@[k].0@ == "icons"@ || v@[k].0@
                == "lang"@ || v@[k].0@ == "sounds"@) ==> !folder_has_namespace(f)),
        f.assets is None && 0 <= i < f.entries@.len() && f.entries@[i].1 && (f.entries@[i].0@ != "pack.mcmeta"@ && f.entries@[i].0@ != "pack.png"@ && f.entries@[i].0@ != "assets"@ && f.entries@[i].0@ != "data"@ && f.entries@[i].0@ != "overlay"@ && f.entries@[i].0@ != "credits.txt"@ && f.entries@[i].0@ != "license"@ && f.entries@[i].0@ != "license.txt"@ && f.entries@[i].0@ != "README.md"@ && f.entries@[i].0@ != "README.txt"@) ==> folder_has_namespace(f),
        f.assets is None && (forall|k: int|
            0 <= k < f.entries@.len() ==> !(#[trigger] f.entries@[k]).1 || f.entries@[k].0@ == "pack.mcmeta"@ || f.entries@[k].0@ == "pack.png"@ || f.entries@[k].0@ == "assets"@ || f.entries@[k].0@ == "data"@ || f.entries@[k].0@ == "overlay"@ || f.entries@[k].0@ == "credits.txt"@ || f.entries@[k].0@ == "license"@ || f.entries@[k].0@ == "license.txt"@ || f.entries@[k].0@ == "README.md"@ || f.entries@[k].0@ == "README.txt"@) ==> !folder_has_namespace(f),
{
    if f.assets is None {
        let p = |n: Seq<char>| is_known_entry(n);
        if 0 <= i < f.entries@.len() && f.entries@[i].1 && !is_known_entry(f.entries@[i].0@) {
            assert(any_dir(f.entries@, p)) by {
                assert(f.entries@[i].1 && !p(f.entries@[i].0@));
            }
        }
    } else {
        let v = f.assets->0@;
        let p = |n: Seq<char>| is_metadata_dir(n);
        if 0 <= i < v.len() && v[i].1 && !is_metadata_dir(v[i].0@) {
            assert(any_dir(v, p)) by {
                assert(v[i].1 && !p(v[i].0@));
            }
        }
    }
}

/// Where all files lie in one folder, that is the wrapper; a file outside any
/// folder leaves none.
pub proof fn law_common_folder_is_the_wrapper(entries: Seq<ArchiveEntry>, top: Seq<char>, i: int)
    requires
        0 <= i < entries.len(),
        top.len() > 0 && top[0] != '.' && !top.contains('/'),
    ensures
        (forall|k: int|
            0 <= k < entries.len() ==> !(#[trigger] entries[k]).is_dir && entries[k].name@.len()
                > top.len() + 1 && entries[k].name@.take(top.len() as int + 1) == top.push('/'))
            ==> is_top(entries, top),
        !entries[i].is_dir && entries[i].name@.len() > 0 && entries[i].name@[0] != '.'
            && !entries[i].name@.contains('/') ==> !is_top(entries, top),
{
    if forall|k: int|
        0 <= k < entries.len() ==> !(#[trigger] entries[k]).is_dir && entries[k].name@.len()
            > top.len() + 1 && entries[k].name@.take(top.len() as int + 1) == top.push('/') {
        assert forall|k: int| 0 <= k < entries.len() implies counts_for_top(#[trigger] entries[k])
            && split_once(entries[k].name@, '/') is Some && head_of(entries[k]) == Some(top) by {
            let n = entries[k].name@;
            let rest = n.skip(top.len() as int + 1);
            assert(n =~= n.take(top.len() as int + 1) + rest);
            assert(n =~= top + seq!['/'] + rest);
            crate::text::law_first_separator_divides(top, rest, '/');
            assert(n[0] == top[0]);
        }
        assert(counts_for_top(entries[i]) && head_of(entries[i]) == Some(top));
        assert(is_top(entries, top));
    }
    if !entries[i].is_dir && entries[i].name@.len() > 0 && entries[i].name@[0] != '.'
        && !entries[i].name@.contains('/') {
        crate::text::law_first_separator_divides(entries[i].name@, Seq::empty(), '/');
        assert(counts_for_top(entries[i]));
    }
}

/// A member in the wrapper folder is written without it; any other plain path
/// is written as it is, and a path that is not known is unsafe.
pub proof fn law_wrapper_is_cut(r: EntryTarget, top: Seq<char>, pieces: Seq<Seq<char>>)
    requires
        pieces.len() > 0,
        forall|i: int| 0 <= i < pieces.len() ==> crate::paths::is_step(#[trigger] pieces[i]),
        forall|i: int| 0 <= i < pieces.len() ==> #[trigger] pieces[i] != seq!['.', '.'],
        forall|i: int| 0 <= i < pieces.len() ==> (#[trigger] pieces[i])[0] != '.',
        forall|i: int, k: int|
            0 <= i < pieces.len() && 0 <= k < pieces[i].len() ==> #[trigger] pieces[i][k] != '/'
                && pieces[i][k] != '\\',
    ensures
        is_target(r, Some(top), Some(joined(pieces, '/'))) && pieces[0] == top && pieces.len() > 1
            ==> (r matches EntryTarget::Write(p) && p@ == joined(pieces.skip(1), '/')),
        is_target(r, Some(top), Some(joined(pieces, '/'))) && pieces[0] != top ==> (
        r matches EntryTarget::Write(p) && p@ == joined(pieces, '/')),
        is_target(r, None, Some(joined(pieces, '/'))) ==> (r matches EntryTarget::Write(p) && p@
            == joined(pieces, '/')),
        is_target(r, Some(top), Some(joined(pieces, '/'))) && pieces == seq![top] ==> r is Skip,
        is_target(r, Some(top), None) ==> r is Unsafe,
{
    let path = joined(pieces, '/');
    crate::paths::law_either_slash_divides(pieces);
    lemma_joined_begins(pieces, '/');
    assert(crate::paths::is_step(pieces[0]));
    assert(pieces[0][0] != '/');
    assert(pieces[0][0] != '.');
    crate::paths::law_steps_up(pieces, 0);
    let rest = pieces.skip(1);
    if rest.len() > 0 {
        assert forall|i: int| 0 <= i < rest.len() implies #[trigger] rest[i] != seq!['.', '.'] by {
            assert(rest[i] == pieces[i + 1]);
        }
        crate::paths::law_steps_up(rest, 0);
    } else {
        assert(stays_below(rest));
    }
}

/// The line on a pack's version: the release, or `unknown`, and the format in
/// brackets where there is one.
pub proof fn law_version_lines(v: Seq<char>, f: u32)
    ensures
        version_text(Some(v), Some(f)) == v + " (format "@ + decimal(f as nat) + ")"@,
        version_text(None, Some(f)) == "unknown"@ + " (format "@ + decimal(f as nat) + ")"@,
        version_text(Some(v), None) == v,
        version_text(None, None) == "unknown"@,
{
}

/// What the errors of an import say.
pub proof fn law_errors_say_what_failed(p: String, m: String)
    ensures
        import_error_text(ImportError::NotFound(p)) == "not found: "@ + p@,
        import_error_text(ImportError::NotAPack(p)) == p@
            + ": not a resource pack (missing pack.mcmeta and no namespace folders)"@,
        import_error_text(ImportError::UnsafePath(p, m)) == "unsafe archive entry in "@ + p@
            + ": "@ + m@,
        import_error_text(ImportError::Io(p, m)) == p@ + ": "@ + m@,
{
}

/// A folder's format and description are those of its metadata, and unknown
/// where it has none that can be read.
pub proof fn law_folders_are_described_by_metadata(f: FolderListing)
    ensures
        f.mcmeta is None ==> folder_metadata(f) == (None::<u32>, None::<Seq<char>>),
        f.mcmeta matches Some(t) ==> (mcmeta_text(t@) is None ==> folder_metadata(f) == (
            None::<u32>,
            None::<Seq<char>>,
        )),
        f.mcmeta matches Some(t) ==> (mcmeta_text(t@) matches Some(m) ==> folder_metadata(f) == (
            m.pack_format,
            m.description,
        )),
{
}

/// A member names the folder before its first slash, unless nothing stands
/// behind that; one outside any folder names none.
pub proof fn law_members_name_their_folder(e: ArchiveEntry, top: Seq<char>, rest: Seq<char>)
    requires
        !top.contains('/'),
    ensures
        e.name@ == top + seq!['/'] + rest && rest.len() > 0 ==> head_of(e) == Some(top),
        e.name@ == top + seq!['/'] + rest && rest.len() == 0 ==> head_of(e) is None,
        e.name@ == top ==> head_of(e) is None,
        e.is_dir ==> !counts_for_top(e),
        e.name@.len() > 0 && e.name@[0] == '.' ==> !counts_for_top(e),
        !e.is_dir && (e.name@.len() == 0 || e.name@[0] != '.') ==> counts_for_top(e),
{
    crate::text::law_first_separator_divides(top, rest, '/');
}

} // verus!
