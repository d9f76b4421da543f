//! Binary cache format.
//!
//! Layout (numbers big-endian):
//! ```text
//! "FEAT" (4 bytes magic)
//! u32 format_version
//! u32 compiler_version
//! [u8; 32] content digest
//! u64 payload_length
//! payload
//! ```
//! Stale and incompatible caches are rejected before their payload is read.

use crate::atlas::{last_entry, Atlas, AtlasEntry};
use crate::compiled::CompiledPack;
use crate::error::{fails_with, AssetError, AssetResult};
use crate::hash::{sha256, sha256_of};
use crate::order::{
    arranged, contents_of, files_le, is_stable_order, larger_first, law_stable_order_is_unique,
    lemma_arranged_keeps, lemma_files_in_order_agree, lemma_files_preorder, lemma_order_exists,
    order_descending, order_files,
};
use crate::sprites::SpriteRef;
use crate::text::{decimal, decimal_string, join2, str_eq};
use vstd::prelude::*;
use vstd::utf8::*;

verus! {

/// The four bytes that start a cache: `FEAT`.
pub const MAGIC: [u8; 4] = [70, 69, 65, 84];

/// Changes when the compiled data structures change shape.
pub const FORMAT_VERSION: u32 = 1;

/// Changes when the compiler's output changes meaning.
pub const COMPILER_VERSION: u32 = 1;

/// What goes into the cache payload.
pub struct CachePayload {
    pub pack: CompiledPack,
    pub atlas: CachedAtlas,
}

/// One cached atlas entry: sprite id, x, y, frame width, frame height, frames,
/// frame stride, slot stride.
pub type CachedEntry = (u32, u32, u32, u32, u32, u32, u32, u32);

/// Atlas data for serialization.
pub struct CachedAtlas {
    pub width: u32,
    pub height: u32,
    pub mip0: Vec<u8>,
    pub mips: Vec<Vec<u8>>,
    pub entries: Vec<CachedEntry>,
}

/// The bytes of the magic.
pub open spec fn magic() -> Seq<u8> {
    seq![MAGIC[0], MAGIC[1], MAGIC[2], MAGIC[3]]
}

/// A 32-bit number, high byte first.
pub open spec fn be32(n: u32) -> Seq<u8> {
    let v = n as int;
    seq![
        (v / 0x100_0000) as u8,
        (v / 0x1_0000 % 0x100) as u8,
        (v / 0x100 % 0x100) as u8,
        (v % 0x100) as u8,
    ]
}

/// The 32-bit number at a place, high byte first.
pub open spec fn be32_at(b: Seq<u8>, i: int) -> int {
    b[i] * 0x100_0000 + b[i + 1] * 0x1_0000 + b[i + 2] * 0x100 + b[i + 3]
}

/// A 64-bit number, high byte first.
pub open spec fn be64(n: u64) -> Seq<u8> {
    be32((n as int / 0x1_0000_0000) as u32) + be32((n as int % 0x1_0000_0000) as u32)
}

/// The 64-bit number at a place, high byte first.
pub open spec fn be64_at(b: Seq<u8>, i: int) -> int {
    be32_at(b, i) * 0x1_0000_0000 + be32_at(b, i + 4)
}

/// A 64-bit number, low byte first.
pub open spec fn le64(n: u64) -> Seq<u8> {
    Seq::new(8, |i: int| be64(n)[7 - i])
}

fn push_be32(out: &mut Vec<u8>, n: u32)
    ensures
        final(out)@ == old(out)@ + be32(n),
{
    let ghost before = out@;
    out.push((n / 0x100_0000) as u8);
    out.push((n / 0x1_0000 % 0x100) as u8);
    out.push((n / 0x100 % 0x100) as u8);
    out.push((n % 0x100) as u8);
    assert(out@ =~= before + be32(n));
}

fn push_be64(out: &mut Vec<u8>, n: u64)
    ensures
        final(out)@ == old(out)@ + be64(n),
{
    let ghost before = out@;
    push_be32(out, (n / 0x1_0000_0000) as u32);
    push_be32(out, (n % 0x1_0000_0000) as u32);
    assert(out@ =~= before + be64(n));
}

fn read_be32(b: &[u8], i: usize) -> (r: u32)
    requires
        i + 4 <= b.len(),
    ensures
        r == be32_at(b@, i as int),
{
    b[i] as u32 * 0x100_0000 + b[i + 1] as u32 * 0x1_0000 + b[i + 2] as u32 * 0x100 + b[i + 3] as u32
}

proof fn lemma_be32(n: u32, b: Seq<u8>, i: int)
    requires
        0 <= i,
        i + 4 <= b.len(),
        b.subrange(i, i + 4) == be32(n),
    ensures
        be32_at(b, i) == n,
{
    let s = b.subrange(i, i + 4);
    assert(b[i] == s[0] && b[i + 1] == s[1] && b[i + 2] == s[2] && b[i + 3] == s[3]);
}

/// The bytes that the digest covers: of each file the path, a zero byte, the
/// length as eight bytes, low byte first, and the content.
pub open spec fn framed(files: Seq<(Seq<char>, Seq<u8>)>) -> Seq<u8>
    decreases files.len(),
{
    if files.len() == 0 {
        Seq::empty()
    } else {
        let f = files.last();
        framed(files.drop_last()) + encode_utf8(f.0) + seq![0u8] + le64(f.1.len() as u64) + f.1
    }
}

/// The order of files by path, then by bytes.
pub open spec fn file_order(files: Seq<(Seq<char>, Seq<u8>)>) -> Seq<usize> {
    choose|r: Seq<usize>| is_stable_order(r, files.len() as int, files_le(files))
}

/// The files in their order.
pub open spec fn files_in_order(files: Seq<(Seq<char>, Seq<u8>)>) -> Seq<(Seq<char>, Seq<u8>)> {
    arranged(files, file_order(files))
}

fn push_all(out: &mut Vec<u8>, more: &[u8])
    ensures
        final(out)@ == old(out)@ + more@,
{
    let ghost before = out@;
    let mut i: usize = 0;
    while i < more.len()
        invariant
            i <= more.len(),
            out@ == before + more@.take(i as int),
        decreases more.len() - i,
    {
        out.push(more[i]);
        i += 1;
    }
    assert(more@.take(more@.len() as int) == more@);
}

/// SHA-256 over every (path, bytes) pair, in the order of the pairs.
pub fn content_digest(files: &[(String, Vec<u8>)]) -> (r: [u8; 32])
    ensures
        r@ == sha256_of(framed(files_in_order(contents_of(files@)))),
{
    let order = order_files(files);
    let ghost all = contents_of(files@);
    let ghost sorted = files_in_order(all);
    proof {
        law_stable_order_is_unique(order@, file_order(all), all.len() as int, files_le(all));
    }
    let mut bytes: Vec<u8> = Vec::new();
    let mut n: usize = 0;
    assert(sorted.take(0) =~= Seq::empty());
    while n < order.len()
        invariant
            n <= order.len(),
            order@.len() == files@.len(),
            forall|i: int| 0 <= i < order.len() ==> (#[trigger] order@[i]) < files@.len(),
            all == contents_of(files@),
            sorted == arranged(all, order@),
            bytes@ == framed(sorted.take(n as int)),
        decreases order.len() - n,
    {
        assert(sorted.take(n + 1).drop_last() =~= sorted.take(n as int));
        assert(sorted.take(n + 1).last() == all[order@[n as int] as int]);
        let f = &files[order[n]];
        let ghost b0 = bytes@;
        push_all(&mut bytes, f.0.as_str().as_bytes());
        bytes.push(0);
        let ghost b1 = bytes@;
        let len: u64 = f.1.len() as u64;
        let mut be: Vec<u8> = Vec::new();
        push_be64(&mut be, len);
        assert(be@ =~= be64(len));
        let mut k: usize = 8;
        while k > 0
            invariant
                k <= 8,
                be@ == be64(len),
                be.len() == 8,
                bytes@ == b1 + le64(len).take(8 - k),
            decreases k,
        {
            k -= 1;
            bytes.push(be[k]);
            assert(le64(len).take(8 - k) =~= le64(len).take(8 - k - 1).push(be@[k as int]));
        }
        assert(le64(len).take(8) =~= le64(len));
        push_all(&mut bytes, &f.1);
        assert(bytes@ =~= b0 + encode_utf8(f.0@) + seq![0u8] + le64(len) + f.1@);
        n += 1;
    }
    assert(sorted.take(sorted.len() as int) =~= sorted);
    sha256(&bytes)
}

/// `b` holds the files of `a`, in the order that `p` gives.
pub open spec fn is_shuffled(
    a: Seq<(String, Vec<u8>)>,
    b: Seq<(String, Vec<u8>)>,
    p: Seq<usize>,
) -> bool {
    &&& b.len() == a.len()
    &&& p.len() == a.len()
    &&& p.no_duplicates()
    &&& forall|i: int| 0 <= i < p.len() ==> (#[trigger] p[i]) < a.len()
    &&& forall|i: int| #![trigger b[i]]
        0 <= i < b.len() ==> b[i].0@ == a[p[i] as int].0@ && b[i].1@ == a[p[i] as int].1@
}

/// The digest does not depend on the order in which the files are given.
pub proof fn law_digest_ignores_order(
    a: Seq<(String, Vec<u8>)>,
    b: Seq<(String, Vec<u8>)>,
    p: Seq<usize>,
)
    requires
        is_shuffled(a, b, p),
        a.len() <= usize::MAX,
    ensures
        sha256_of(framed(files_in_order(contents_of(a)))) == sha256_of(
            framed(files_in_order(contents_of(b))),
        ),
{
    let n = a.len() as int;
    let va = contents_of(a);
    let vb = contents_of(b);
    lemma_files_preorder(va);
    lemma_files_preorder(vb);
    lemma_order_exists(n, files_le(va));
    lemma_order_exists(n, files_le(vb));
    assert(arranged(va, p) =~= vb);
    lemma_arranged_keeps(va, p);
    lemma_files_in_order_agree(va, vb, file_order(va), file_order(vb));
}

/// A cache file: header and payload.
pub open spec fn encoded(digest: Seq<u8>, body: Seq<u8>) -> Seq<u8> {
    magic() + be32(FORMAT_VERSION) + be32(COMPILER_VERSION) + digest + be64(body.len() as u64)
        + body
}

/// Puts the header before a payload.
pub fn encode(digest: [u8; 32], body: &[u8]) -> (r: Vec<u8>)
    ensures
        r@ == encoded(digest@, body@),
{
    let mut out: Vec<u8> = Vec::new();
    out.push(MAGIC[0]);
    out.push(MAGIC[1]);
    out.push(MAGIC[2]);
    out.push(MAGIC[3]);
    assert(out@ =~= magic());
    push_be32(&mut out, FORMAT_VERSION);
    push_be32(&mut out, COMPILER_VERSION);
    push_all(&mut out, &digest);
    push_be64(&mut out, body.len() as u64);
    push_all(&mut out, body);
    out
}

/// What a cache file is found to be.
pub enum CacheFile {
    TooSmall,
    BadMagic,
    OtherFormat(int),
    OtherCompiler(int),
    BadLength(int),
    Payload(Seq<u8>, Seq<u8>),
}

/// Reads a cache file: size, magic, versions and length are checked in turn.
pub open spec fn cache_file(b: Seq<u8>) -> CacheFile {
    if b.len() < 52 {
        CacheFile::TooSmall
    } else if b.take(4) != magic() {
        CacheFile::BadMagic
    } else if be32_at(b, 4) != FORMAT_VERSION {
        CacheFile::OtherFormat(be32_at(b, 4))
    } else if be32_at(b, 8) != COMPILER_VERSION {
        CacheFile::OtherCompiler(be32_at(b, 8))
    } else if be64_at(b, 44) != b.len() - 52 {
        CacheFile::BadLength(be64_at(b, 44))
    } else {
        CacheFile::Payload(b.subrange(12, 44), b.skip(52))
    }
}

/// Checks a cache file and hands out its digest and payload. Errors name the
/// reason for rejection.
pub fn decode(bytes: &[u8]) -> (r: AssetResult<([u8; 32], Vec<u8>)>)
    ensures
        match cache_file(bytes@) {
            CacheFile::TooSmall => fails_with(
                r,
                "<cache>"@,
                "cache too small (missing header)"@,
            ),
            CacheFile::BadMagic => fails_with(
                r,
                "<cache>"@,
                "bad magic (not a feathered cache)"@,
            ),
            CacheFile::OtherFormat(v) => fails_with(
                r,
                "<cache>"@,
                "format version "@ + decimal(v as nat) + " != supported "@ + decimal(
                    FORMAT_VERSION as nat,
                ),
            ),
            CacheFile::OtherCompiler(v) => fails_with(
                r,
                "<cache>"@,
                "compiler version "@ + decimal(v as nat) + " != supported "@ + decimal(
                    COMPILER_VERSION as nat,
                ),
            ),
            CacheFile::BadLength(n) => fails_with(
                r,
                "<cache>"@,
                "payload length "@ + decimal(n as nat) + " != file remainder "@ + decimal(
                    (bytes@.len() - 52) as nat,
                ),
            ),
            CacheFile::Payload(digest, body) => r matches Ok(p) && p.0@ == digest && p.1@ == body,
        },
{
    if bytes.len() < 52 {
        return reject("cache too small (missing header)".to_owned());
    }
    assert(bytes@.take(4) == magic() <==> (bytes@[0] == MAGIC[0] && bytes@[1] == MAGIC[1]
        && bytes@[2] == MAGIC[2] && bytes@[3] == MAGIC[3])) by {
        if bytes@[0] == MAGIC[0] && bytes@[1] == MAGIC[1] && bytes@[2] == MAGIC[2] && bytes@[3]
            == MAGIC[3] {
            assert(bytes@.take(4) =~= magic());
        } else {
            let t = bytes@.take(4);
            assert(t[0] == bytes@[0] && t[1] == bytes@[1] && t[2] == bytes@[2] && t[3]
                == bytes@[3]);
        }
    }
    if !(bytes[0] == MAGIC[0] && bytes[1] == MAGIC[1] && bytes[2] == MAGIC[2] && bytes[3]
        == MAGIC[3]) {
        return reject("bad magic (not a feathered cache)".to_owned());
    }
    let format = read_be32(bytes, 4);
    if format != FORMAT_VERSION {
        return reject(versions("format version ", format, FORMAT_VERSION));
    }
    let compiler = read_be32(bytes, 8);
    if compiler != COMPILER_VERSION {
        return reject(versions("compiler version ", compiler, COMPILER_VERSION));
    }
    let high = read_be32(bytes, 44);
    let low = read_be32(bytes, 48);
    let len: u64 = high as u64 * 0x1_0000_0000 + low as u64;
    let rest: u64 = bytes.len() as u64 - 52;
    if len != rest {
        let mut m = join2("payload length ", decimal_string(len).as_str());
        m.append(" != file remainder ");
        m.append(decimal_string(rest).as_str());
        return reject(m);
    }
    let mut digest: [u8; 32] = [0;32];
    let mut i: usize = 0;
    while i < 32
        invariant
            i <= 32,
            bytes.len() >= 52,
            forall|k: int| 0 <= k < i ==> digest@[k] == bytes@[12 + k],
        decreases 32 - i,
    {
        digest[i] = bytes[12 + i];
        i += 1;
    }
    assert(digest@ =~= bytes@.subrange(12, 44));
    let mut body: Vec<u8> = Vec::new();
    let mut k: usize = 52;
    while k < bytes.len()
        invariant
            52 <= k <= bytes.len(),
            body@ == bytes@.subrange(52, k as int),
        decreases bytes.len() - k,
    {
        body.push(bytes[k]);
        k += 1;
    }
    assert(bytes@.subrange(52, bytes@.len() as int) =~= bytes@.skip(52));
    Ok((digest, body))
}

fn reject(message: String) -> (r: AssetResult<([u8; 32], Vec<u8>)>)
    ensures
        fails_with(r, "<cache>"@, message@),
{
    Err(AssetError { path: "<cache>".to_owned(), message })
}

fn versions(what: &str, found: u32, supported: u32) -> (r: String)
    ensures
        r@ == what@ + decimal(found as nat) + " != supported "@ + decimal(supported as nat),
{
    let mut m = join2(what, decimal_string(found as u64).as_str());
    m.append(" != supported ");
    m.append(decimal_string(supported as u64).as_str());
    m
}

/// Reading gives back what was written: a cache file of a digest and a
/// payload is read as that digest and that payload.
pub proof fn law_decode_encode(digest: Seq<u8>, body: Seq<u8>)
    requires
        digest.len() == 32,
        body.len() <= u64::MAX,
    ensures
        cache_file(encoded(digest, body)) == CacheFile::Payload(digest, body),
{
    let b = encoded(digest, body);
    let n = body.len() as u64;
    assert(b.len() == 52 + body.len());
    assert(b.take(4) =~= magic());
    assert(b.subrange(4, 8) =~= be32(FORMAT_VERSION));
    lemma_be32(FORMAT_VERSION, b, 4);
    assert(b.subrange(8, 12) =~= be32(COMPILER_VERSION));
    lemma_be32(COMPILER_VERSION, b, 8);
    assert(b.subrange(12, 44) =~= digest);
    let hi = (n as int / 0x1_0000_0000) as u32;
    let lo = (n as int % 0x1_0000_0000) as u32;
    assert(b.subrange(44, 48) =~= be32(hi));
    assert(b.subrange(48, 52) =~= be32(lo));
    lemma_be32(hi, b, 44);
    lemma_be32(lo, b, 48);
    assert(b.skip(52) =~= body);
}

/// A cache file is fresh for the digest it was written with and for no other.
pub proof fn law_cache_is_fresh_for_its_digest(digest: Seq<u8>, body: Seq<u8>, now: Seq<u8>)
    requires
        digest.len() == 32,
        body.len() <= u64::MAX,
    ensures
        (cache_file(encoded(digest, body)) matches CacheFile::Payload(d, _) && d == now)
            <==> digest == now,
{
    law_decode_encode(digest, body);
}

/// A truncated cache file is rejected.
pub proof fn law_truncation_is_rejected(digest: Seq<u8>, body: Seq<u8>, n: int)
    requires
        digest.len() == 32,
        body.len() <= u64::MAX,
        0 <= n < 52 + body.len(),
    ensures
        !(cache_file(encoded(digest, body).take(n)) is Payload),
{
    let b = encoded(digest, body);
    let t = b.take(n);
    law_decode_encode(digest, body);
    if n >= 52 {
        assert(be64_at(t, 44) == be64_at(b, 44));
    }
}

/// A cache file whose magic is damaged is rejected as such.
pub proof fn law_damaged_magic_is_rejected(digest: Seq<u8>, body: Seq<u8>, i: int, v: u8)
    requires
        digest.len() == 32,
        0 <= i < 4,
        v != magic()[i],
    ensures
        cache_file(encoded(digest, body).update(i, v)) is BadMagic,
{
    let b = encoded(digest, body).update(i, v);
    assert(b.take(4)[i] == v);
}

/// Whether a cache file can be used for files of a digest: it is sound and was
/// made from them.
pub fn is_fresh(bytes: &[u8], digest: &[u8; 32]) -> (r: bool)
    ensures
        r == (cache_file(bytes@) matches CacheFile::Payload(d, _) && d == digest@),
{
    match decode(bytes) {
        Ok((d, _)) => {
            let mut i: usize = 0;
            while i < 32
                invariant
                    i <= 32,
                    cache_file(bytes@) is Payload,
                    cache_file(bytes@)->Payload_0 == d@,
                    forall|k: int| 0 <= k < i ==> d@[k] == digest@[k],
                decreases 32 - i,
            {
                if d[i] != digest[i] {
                    return false;
                }
                i += 1;
            }
            assert(d@ =~= digest@);
            true
        },
        Err(_) => false,
    }
}

/// The last position of a name, -1 where it does not occur.
pub open spec fn last_name(names: Seq<SpriteRef>, ns: Seq<char>, name: Seq<char>) -> int
    decreases names.len(),
{
    if names.len() == 0 {
        -1
    } else if names.last().0@ == ns && names.last().1@ == name {
        names.len() - 1
    } else {
        last_name(names.drop_last(), ns, name)
    }
}

proof fn lemma_last_name(names: Seq<SpriteRef>, ns: Seq<char>, name: Seq<char>, i: int)
    requires
        -1 <= i < names.len(),
        forall|k: int|
            i < k < names.len() ==> !((#[trigger] names[k]).0@ == ns && names[k].1@ == name),
        i >= 0 ==> names[i].0@ == ns && names[i].1@ == name,
    ensures
        last_name(names, ns, name) == i,
    decreases names.len(),
{
    if names.len() > 0 && i < names.len() - 1 {
        let last = names[names.len() - 1];
        assert(!(last.0@ == ns && last.1@ == name));
        lemma_last_name(names.drop_last(), ns, name, i);
    }
}

/// The key of a cached entry: the last id of its name, or the largest number
/// where the name has no id.
pub open spec fn cached_key(names: Seq<SpriteRef>, name: SpriteRef) -> u32 {
    let i = last_name(names, name.0@, name.1@);
    if i >= 0 {
        i as u32
    } else {
        u32::MAX
    }
}

fn key_for(names: &[SpriteRef], name: &SpriteRef) -> (r: u32)
    ensures
        r == cached_key(names@, *name),
{
    let mut i: usize = names.len();
    while i > 0
        invariant
            i <= names.len(),
            forall|k: int|
                i <= k < names@.len() ==> !((#[trigger] names@[k]).0@ == name.0@ && names@[k].1@
                    == name.1@),
        decreases i,
    {
        if str_eq(names[i - 1].0.as_str(), name.0.as_str()) && str_eq(
            names[i - 1].1.as_str(),
            name.1.as_str(),
        ) {
            proof {
                lemma_last_name(names@, name.0@, name.1@, i - 1);
            }
            #[verifier::truncate]
            let id: u32 = (i - 1) as u32;
            return id;
        }
        i -= 1;
    }
    proof {
        lemma_last_name(names@, name.0@, name.1@, -1);
    }
    u32::MAX
}

/// Sorting keys of the entries: the stable order from large to small of these
/// is the order of the ids from small to large.
pub open spec fn entry_ranks(entries: Seq<(SpriteRef, AtlasEntry)>, names: Seq<SpriteRef>) -> Seq<
    u64,
> {
    Seq::new(entries.len(), |i: int| (u32::MAX - cached_key(names, entries[i].0)) as u64)
}

/// The order of the entries by id.
pub open spec fn entry_order(entries: Seq<(SpriteRef, AtlasEntry)>, names: Seq<SpriteRef>) -> Seq<
    usize,
> {
    choose|r: Seq<usize>|
        is_stable_order(r, entries.len() as int, larger_first(entry_ranks(entries, names)))
}

/// The cached form of an entry.
pub open spec fn cached_entry(names: Seq<SpriteRef>, e: (SpriteRef, AtlasEntry)) -> CachedEntry {
    (
        cached_key(names, e.0),
        e.1.x,
        e.1.y,
        e.1.frame_w,
        e.1.frame_h,
        e.1.frames,
        e.1.frame_stride,
        e.1.slot_stride,
    )
}

/// The cached entries of an atlas, in order of id.
pub open spec fn cached_entries(
    entries: Seq<(SpriteRef, AtlasEntry)>,
    names: Seq<SpriteRef>,
) -> Seq<CachedEntry> {
    Seq::new(
        entries.len(),
        |i: int| cached_entry(names, entries[entry_order(entries, names)[i] as int]),
    )
}

fn copy_bytes(v: &Vec<u8>) -> (r: Vec<u8>)
    ensures
        r@ == v@,
{
    let r = v.clone();
    assert(r@ =~= v@);
    r
}

fn copy_images(v: &Vec<Vec<u8>>) -> (r: Vec<Vec<u8>>)
    ensures
        r.len() == v.len(),
        forall|i: int| 0 <= i < v.len() ==> (#[trigger] r@[i])@ == v@[i]@,
{
    let mut out: Vec<Vec<u8>> = Vec::new();
    let mut i: usize = 0;
    while i < v.len()
        invariant
            i <= v.len(),
            out.len() == i,
            forall|k: int| 0 <= k < i ==> (#[trigger] out@[k])@ == v@[k]@,
        decreases v.len() - i,
    {
        out.push(copy_bytes(&v[i]));
        i += 1;
    }
    out
}

/// The same images.
pub open spec fn same_images(a: Seq<Vec<u8>>, b: Seq<Vec<u8>>) -> bool {
    a.len() == b.len() && forall|i: int| 0 <= i < a.len() ==> (#[trigger] a[i])@ == b[i]@
}

/// The cached form of an atlas, entries by sprite id.
pub fn atlas_to_cached(atlas: &Atlas, sprite_names: &[SpriteRef]) -> (r: CachedAtlas)
    ensures
        r.width == atlas.width,
        r.height == atlas.height,
        r.mip0@ == atlas.pixels@,
        same_images(r.mips@, atlas.mips@),
        r.entries@ == cached_entries(atlas.entries@, sprite_names@),
{
    let ghost ranks = entry_ranks(atlas.entries@, sprite_names@);
    let mut keys: Vec<u64> = Vec::new();
    let mut i: usize = 0;
    while i < atlas.entries.len()
        invariant
            i <= atlas.entries.len(),
            ranks == entry_ranks(atlas.entries@, sprite_names@),
            keys@ == ranks.take(i as int),
        decreases atlas.entries.len() - i,
    {
        keys.push((u32::MAX - key_for(sprite_names, &atlas.entries[i].0)) as u64);
        assert(keys@ =~= ranks.take(i + 1));
        i += 1;
    }
    assert(keys@ =~= ranks);
    let order = order_descending(&keys);
    proof {
        law_stable_order_is_unique(
            order@,
            entry_order(atlas.entries@, sprite_names@),
            atlas.entries@.len() as int,
            larger_first(ranks),
        );
    }
    let mut entries: Vec<CachedEntry> = Vec::new();
    let mut n: usize = 0;
    while n < order.len()
        invariant
            n <= order.len(),
            order@ == entry_order(atlas.entries@, sprite_names@),
            order@.len() == atlas.entries@.len(),
            forall|k: int| 0 <= k < order.len() ==> (#[trigger] order@[k]) < atlas.entries@.len(),
            entries@ == cached_entries(atlas.entries@, sprite_names@).take(n as int),
        decreases order.len() - n,
    {
        let e = &atlas.entries[order[n]];
        let key = key_for(sprite_names, &e.0);
        entries.push(
            (
                key,
                e.1.x,
                e.1.y,
                e.1.frame_w,
                e.1.frame_h,
                e.1.frames,
                e.1.frame_stride,
                e.1.slot_stride,
            ),
        );
        assert(entries@ =~= cached_entries(atlas.entries@, sprite_names@).take(n + 1));
        n += 1;
    }
    assert(entries@ =~= cached_entries(atlas.entries@, sprite_names@));
    CachedAtlas {
        width: atlas.width,
        height: atlas.height,
        mip0: copy_bytes(&atlas.pixels),
        mips: copy_images(&atlas.mips),
        entries,
    }
}

/// The entries of the first `n` cached ones: those whose id has a name.
pub open spec fn restored_entries(
    cached: Seq<CachedEntry>,
    names: Seq<SpriteRef>,
    n: int,
) -> Seq<(SpriteRef, AtlasEntry)>
    decreases n,
{
    if n <= 0 {
        Seq::empty()
    } else {
        let before = restored_entries(cached, names, n - 1);
        let e = cached[n - 1];
        if e.0 < names.len() {
            before.push(
                (
                    names[e.0 as int],
                    AtlasEntry {
                        x: e.1,
                        y: e.2,
                        frame_w: e.3,
                        frame_h: e.4,
                        frames: e.5,
                        frame_stride: e.6,
                        slot_stride: e.7,
                    },
                ),
            )
        } else {
            before
        }
    }
}

/// The atlas of a cached one. Animations are not cached with it; they come
/// from the compiled pack.
pub fn cached_to_atlas(cached: &CachedAtlas, sprite_names: &[SpriteRef]) -> (r: Atlas)
    ensures
        r.width == cached.width,
        r.height == cached.height,
        r.pixels@ == cached.mip0@,
        same_images(r.mips@, cached.mips@),
        r.entries@ == restored_entries(
            cached.entries@,
            sprite_names@,
            cached.entries@.len() as int,
        ),
        r.animations.len() == 0,
{
    let mut entries: Vec<(SpriteRef, AtlasEntry)> = Vec::new();
    let mut n: usize = 0;
    while n < cached.entries.len()
        invariant
            n <= cached.entries.len(),
            entries@ == restored_entries(cached.entries@, sprite_names@, n as int),
        decreases cached.entries.len() - n,
    {
        let (key, x, y, frame_w, frame_h, frames, frame_stride, slot_stride) = cached.entries[n];
        let slot: usize = key as usize;
        if slot < sprite_names.len() {
            let name = (sprite_names[slot].0.clone(), sprite_names[slot].1.clone());
            entries.push(
                (
                    name,
                    AtlasEntry {
                        x,
                        y,
                        frame_w,
                        frame_h,
                        frames,
                        frame_stride,
                        slot_stride,
                    },
                ),
            );
        }
        n += 1;
    }
    Atlas {
        width: cached.width,
        height: cached.height,
        pixels: copy_bytes(&cached.mip0),
        mips: copy_images(&cached.mips),
        entries,
        animations: Vec::new(),
    }
}

/// What an atlas answers for a name.
pub open spec fn entry_lookup(
    entries: Seq<(SpriteRef, AtlasEntry)>,
    ns: Seq<char>,
    name: Seq<char>,
) -> Option<AtlasEntry> {
    let i = last_entry(entries, ns, name);
    if i >= 0 {
        Some(entries[i].1)
    } else {
        None
    }
}

/// Two entries have different names.
pub open spec fn entries_distinct(entries: Seq<(SpriteRef, AtlasEntry)>) -> bool {
    forall|i: int, j: int| #![trigger entries[i], entries[j]]
        0 <= i < j < entries.len() ==> !(entries[i].0.0@ == entries[j].0.0@ && entries[i].0.1@
            == entries[j].0.1@)
}

proof fn lemma_restored(
    entries: Seq<(SpriteRef, AtlasEntry)>,
    names: Seq<SpriteRef>,
    n: int,
)
    requires
        0 <= n <= entries.len(),
        entries.len() <= usize::MAX,
        names.len() <= u32::MAX,
        is_stable_order(
            entry_order(entries, names),
            entries.len() as int,
            larger_first(entry_ranks(entries, names)),
        ),
        forall|i: int|
            0 <= i < entries.len() ==> last_name(names, (#[trigger] entries[i]).0.0@, entries[i].0.1@)
                >= 0,
    ensures
        ({
            let order = entry_order(entries, names);
            let back = restored_entries(cached_entries(entries, names), names, n);
            &&& back.len() == n
            &&& forall|i: int| #![trigger back[i]]
                0 <= i < n ==> {
                    &&& back[i].1 == entries[order[i] as int].1
                    &&& back[i].0.0@ == entries[order[i] as int].0.0@
                    &&& back[i].0.1@ == entries[order[i] as int].0.1@
                }
        }),
    decreases n,
{
    if n > 0 {
        lemma_restored(entries, names, n - 1);
        let order = entry_order(entries, names);
        let k = order[n - 1] as int;
        assert(order[n - 1] < entries.len());
        let e = entries[k];
        assert(last_name(names, e.0.0@, e.0.1@) >= 0);
        lemma_last_name_found(names, e.0.0@, e.0.1@);
        assert(cached_entries(entries, names)[n - 1] == cached_entry(names, e));
    }
}

proof fn lemma_last_name_found(names: Seq<SpriteRef>, ns: Seq<char>, name: Seq<char>)
    requires
        last_name(names, ns, name) >= 0,
    ensures
        last_name(names, ns, name) < names.len(),
        names[last_name(names, ns, name)].0@ == ns,
        names[last_name(names, ns, name)].1@ == name,
    decreases names.len(),
{
    if !(names.last().0@ == ns && names.last().1@ == name) {
        lemma_last_name_found(names.drop_last(), ns, name);
    }
}

/// A cache file with a damaged header is rejected: another byte in the
/// versions is another version, and another byte in the length is a length
/// that the file does not have.
pub proof fn law_damaged_header_is_rejected(digest: Seq<u8>, body: Seq<u8>, i: int, v: u8)
    requires
        digest.len() == 32,
        body.len() <= u64::MAX,
        4 <= i < 12 || 44 <= i < 52,
        v != encoded(digest, body)[i],
    ensures
        i < 8 ==> cache_file(encoded(digest, body).update(i, v)) is OtherFormat,
        8 <= i < 12 ==> cache_file(encoded(digest, body).update(i, v)) is OtherCompiler,
        44 <= i ==> cache_file(encoded(digest, body).update(i, v)) is BadLength,
{
    law_decode_encode(digest, body);
    let e = encoded(digest, body);
    let d = e.update(i, v);
    assert(d.take(4) =~= e.take(4));
    assert(cache_file(e) is Payload);
}

/// The round trip through the cache keeps the layout: an atlas of distinct
/// names that all have ids answers every name as before.
pub proof fn law_cached_atlas_round_trip(
    entries: Seq<(SpriteRef, AtlasEntry)>,
    names: Seq<SpriteRef>,
    ns: Seq<char>,
    name: Seq<char>,
)
    requires
        entries.len() <= usize::MAX,
        names.len() <= u32::MAX,
        entries_distinct(entries),
        forall|i: int|
            0 <= i < entries.len() ==> last_name(names, (#[trigger] entries[i]).0.0@, entries[i].0.1@)
                >= 0,
    ensures
        entry_lookup(
            restored_entries(
                cached_entries(entries, names),
                names,
                entries.len() as int,
            ),
            ns,
            name,
        ) == entry_lookup(entries, ns, name),
{
    let ranks = entry_ranks(entries, names);
    let le = larger_first(ranks);
    assert(crate::order::is_total_preorder(le));
    crate::order::lemma_order_exists(entries.len() as int, le);
    let order = entry_order(entries, names);
    let n = entries.len() as int;
    lemma_restored(entries, names, n);
    let back = restored_entries(cached_entries(entries, names), names, n);
    let k = last_entry(entries, ns, name);
    lemma_last_entry_found(entries, ns, name);
    if k >= 0 {
        crate::order::lemma_permutation_is_onto(order, n, k);
        let i = choose|i: int| 0 <= i < order.len() && #[trigger] order[i] == k;
        assert(back[i].0.0@ == ns && back[i].0.1@ == name);
        assert forall|j: int| i < j < back.len() implies !((#[trigger] back[j]).0.0@ == ns
            && back[j].0.1@ == name) by {
            assert(order[i] != order[j]);
            let a = order[i] as int;
            let b = order[j] as int;
            if a < b {
                assert(!(entries[a].0.0@ == entries[b].0.0@ && entries[a].0.1@
                    == entries[b].0.1@));
            } else {
                assert(!(entries[b].0.0@ == entries[a].0.0@ && entries[b].0.1@
                    == entries[a].0.1@));
            }
        }
        crate::atlas::lemma_last_entry(back, ns, name, i);
    } else {
        assert forall|j: int| -1 < j < back.len() implies !((#[trigger] back[j]).0.0@ == ns
            && back[j].0.1@ == name) by {
            assert(order[j] < entries.len());
            let e = entries[order[j] as int];
            assert(!(e.0.0@ == ns && e.0.1@ == name));
        }
        crate::atlas::lemma_last_entry(back, ns, name, -1);
    }
}

proof fn lemma_last_entry_found(
    entries: Seq<(SpriteRef, AtlasEntry)>,
    ns: Seq<char>,
    name: Seq<char>,
)
    ensures
        -1 <= last_entry(entries, ns, name) < entries.len(),
        last_entry(entries, ns, name) >= 0 ==> entries[last_entry(entries, ns, name)].0.0@ == ns
            && entries[last_entry(entries, ns, name)].0.1@ == name,
        last_entry(entries, ns, name) == -1 ==> forall|i: int|
            0 <= i < entries.len() ==> !((#[trigger] entries[i]).0.0@ == ns && entries[i].0.1@
                == name),
    decreases entries.len(),
{
    if entries.len() > 0 && !(entries.last().0.0@ == ns && entries.last().0.1@ == name) {
        lemma_last_entry_found(entries.drop_last(), ns, name);
        if last_entry(entries, ns, name) == -1 {
            assert forall|i: int| 0 <= i < entries.len() implies !((
            #[trigger] entries[i]).0.0@ == ns && entries[i].0.1@ == name) by {
                if i < entries.len() - 1 {
                    assert(entries[i] == entries.drop_last()[i]);
                }
            }
        }
    }
}

/// A cache file begins with the letters FEAT, then the versions 1 and 1 as
/// four bytes each, the digest, the length of the payload as eight bytes, all
/// with the high byte first, and ends with the payload.
pub proof fn law_cache_file_layout(digest: Seq<u8>, body: Seq<u8>)
    requires
        digest.len() == 32,
        body.len() <= u64::MAX,
    ensures
        ({
            let b = encoded(digest, body);
            let n = body.len() as int;
            &&& b.len() == 52 + body.len()
            &&& b[0] == 70 && b[1] == 69 && b[2] == 65 && b[3] == 84
            &&& b[4] == 0 && b[5] == 0 && b[6] == 0 && b[7] == 1
            &&& b[8] == 0 && b[9] == 0 && b[10] == 0 && b[11] == 1
            &&& b.subrange(12, 44) == digest
            &&& b[44] == (n / 0x100000000000000) % 256
            &&& b[45] == (n / 0x1000000000000) % 256
            &&& b[46] == (n / 0x10000000000) % 256
            &&& b[47] == (n / 0x100000000) % 256
            &&& b[48] == (n / 0x1000000) % 256
            &&& b[49] == (n / 0x10000) % 256
            &&& b[50] == (n / 0x100) % 256
            &&& b[51] == (n / 0x1) % 256
            &&& b.skip(52) == body
        }),
{
    let b = encoded(digest, body);
    let n = body.len() as u64;
    assert(b.subrange(12, 44) =~= digest);
    assert(b.skip(52) =~= body);
    assert(b.subrange(44, 52) =~= be64(n));
    assert(b.subrange(0, 4) =~= magic());
    assert(b.subrange(4, 8) =~= be32(FORMAT_VERSION));
    assert(b.subrange(8, 12) =~= be32(COMPILER_VERSION));
    lemma_be64_bytes(n);
    assert forall|i: int| 44 <= i < 52 implies #[trigger] b[i] == be64(n)[i - 44] by {
        assert(b.subrange(44, 52)[i - 44] == b[i]);
    }
    assert forall|i: int| 4 <= i < 8 implies #[trigger] b[i] == be32(FORMAT_VERSION)[i - 4] by {
        assert(b.subrange(4, 8)[i - 4] == b[i]);
    }
    assert forall|i: int| 8 <= i < 12 implies #[trigger] b[i] == be32(COMPILER_VERSION)[i - 8] by {
        assert(b.subrange(8, 12)[i - 8] == b[i]);
    }
    assert forall|i: int| 0 <= i < 4 implies #[trigger] b[i] == magic()[i] by {
        assert(b.subrange(0, 4)[i] == b[i]);
    }
}

proof fn lemma_be64_bytes(n: u64)
    ensures
        be64(n)[0] == (n as int / 0x100000000000000) % 256,
        be64(n)[1] == (n as int / 0x1000000000000) % 256,
        be64(n)[2] == (n as int / 0x10000000000) % 256,
        be64(n)[3] == (n as int / 0x100000000) % 256,
        be64(n)[4] == (n as int / 0x1000000) % 256,
        be64(n)[5] == (n as int / 0x10000) % 256,
        be64(n)[6] == (n as int / 0x100) % 256,
        be64(n)[7] == (n as int / 0x1) % 256,
{
    let v = n as int;
    let h = v / 0x1_0000_0000;
    let l = v % 0x1_0000_0000;
    assert(0 <= h < 0x1_0000_0000 && 0 <= l < 0x1_0000_0000);
    assert(v == h * 0x1_0000_0000 + l);
    assert(h / 0x100_0000 == v / 0x100_0000_0000_0000);
    assert(h / 0x1_0000 == v / 0x1_0000_0000_0000);
    assert(h / 0x100 == v / 0x100_0000_0000);
    assert(l / 0x100_0000 == (v / 0x100_0000) % 0x100);
    assert((l / 0x1_0000) % 0x100 == (v / 0x1_0000) % 0x100);
    assert((l / 0x100) % 0x100 == (v / 0x100) % 0x100);
    assert(l % 0x100 == v % 0x100);
}

/// The digest covers of each file the path, a zero byte, the length as eight
/// bytes with the low byte first, and the content; a further file adds its
/// own behind those of the others.
pub proof fn law_files_are_framed(
    files: Seq<(Seq<char>, Seq<u8>)>,
    path: Seq<char>,
    content: Seq<u8>,
)
    requires
        content.len() <= u64::MAX,
    ensures
        framed(Seq::empty()).len() == 0,
        ({
            let n = content.len() as int;
            framed(files.push((path, content))) == framed(files) + encode_utf8(path) + seq![
                0u8,
                (n % 256) as u8,
                ((n / 0x100) % 256) as u8,
                ((n / 0x10000) % 256) as u8,
                ((n / 0x1000000) % 256) as u8,
                ((n / 0x100000000) % 256) as u8,
                ((n / 0x10000000000) % 256) as u8,
                ((n / 0x1000000000000) % 256) as u8,
                ((n / 0x100000000000000) % 256) as u8,
            ] + content
        }),
{
    let n = content.len() as u64;
    let all = files.push((path, content));
    assert(all.drop_last() =~= files);
    lemma_be64_bytes(n);
    let v = n as int;
    let mid = seq![
        0u8,
        (v % 256) as u8,
        ((v / 0x100) % 256) as u8,
        ((v / 0x10000) % 256) as u8,
        ((v / 0x1000000) % 256) as u8,
        ((v / 0x100000000) % 256) as u8,
        ((v / 0x10000000000) % 256) as u8,
        ((v / 0x1000000000000) % 256) as u8,
        ((v / 0x100000000000000) % 256) as u8,
    ];
    assert(seq![0u8] + le64(n) =~= mid);
    assert(framed(files) + encode_utf8(path) + seq![0u8] + le64(n) + content =~= framed(files)
        + encode_utf8(path) + (seq![0u8] + le64(n)) + content);
}

/// Only a file of the right size with the right letters, versions and length
/// gives a payload, and each fault is named in this order.
pub proof fn law_faults_are_named_in_order(b: Seq<u8>)
    ensures
        b.len() < 52 ==> cache_file(b) == CacheFile::TooSmall,
        cache_file(b) matches CacheFile::Payload(d, p) ==> {
            &&& b.len() == 52 + p.len()
            &&& b[0] == 70 && b[1] == 69 && b[2] == 65 && b[3] == 84
            &&& be32_at(b, 4) == 1 && be32_at(b, 8) == 1
            &&& be64_at(b, 44) == p.len()
            &&& d == b.subrange(12, 44) && p == b.skip(52)
        },
        cache_file(b) is BadMagic ==> b.len() >= 52 && b.take(4) != seq![70u8, 69, 65, 84],
        cache_file(b) matches CacheFile::OtherFormat(v) ==> v != 1 && be32_at(b, 4) == v,
        cache_file(b) matches CacheFile::OtherCompiler(v) ==> v != 1 && be32_at(b, 8) == v
            && be32_at(b, 4) == 1,
        cache_file(b) matches CacheFile::BadLength(v) ==> v != b.len() - 52 && be64_at(b, 44) == v,
{
    assert(magic() =~= seq![70u8, 69, 65, 84]);
    if cache_file(b) is Payload {
        assert(b.take(4)[0] == b[0] && b.take(4)[1] == b[1] && b.take(4)[2] == b[2]
            && b.take(4)[3] == b[3]);
    }
}

/// Numbers are read with the high byte first.
pub proof fn law_high_byte_is_first(a: u8, b: u8, c: u8, d: u8)
    ensures
        be32_at(seq![a, b, c, d], 0) == a * 16777216 + b * 65536 + c * 256 + d,
        be32_at(be32(0x0102_0304), 0) == 0x0102_0304,
        be32(0x0102_0304) == seq![1u8, 2, 3, 4],
{
    assert(be32(0x0102_0304) =~= seq![1u8, 2, 3, 4]);
}

/// Of several ids of one name the last is kept, and a name without an id is
/// kept under the largest number.
pub proof fn law_last_id_is_kept(names: Seq<SpriteRef>, name: SpriteRef, i: int)
    requires
        names.len() <= u32::MAX,
        -1 <= i < names.len(),
        forall|k: int|
            i < k < names.len() ==> !((#[trigger] names[k]).0@ == name.0@ && names[k].1@ == name.1@),
        i >= 0 ==> names[i].0@ == name.0@ && names[i].1@ == name.1@,
    ensures
        i >= 0 ==> cached_key(names, name) == i,
        i == -1 ==> cached_key(names, name) == 0xffff_ffff,
    decreases names.len(),
{
    if names.len() > 0 && i < names.len() - 1 {
        assert(!(names[names.len() - 1].0@ == name.0@ && names[names.len() - 1].1@ == name.1@));
        law_last_id_is_kept(names.drop_last(), name, i);
    }
}

} // verus!
