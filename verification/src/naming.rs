//! Names of packs: slugs, ids made of a slug and a short hash, display names.

use crate::ascii::{is_digit, lower, lower_char, lower_chars, to_lower_char};
use crate::hash::{hex, hex_string, sha256, sha256_of};
use crate::text::{chars_eq, chars_of, digit_char, join3, names_of, part, string_of};
use vstd::prelude::*;
use vstd::utf8::*;

verus! {

/// An ASCII letter or digit.
pub open spec fn is_alphanumeric(c: char) -> bool {
    ('a' <= c && c <= 'z') || ('A' <= c && c <= 'Z') || is_digit(c)
}

/// A character that becomes a dash.
pub open spec fn is_gap(c: char) -> bool {
    c == ' ' || c == '-' || c == '_' || c == '.'
}

/// The slug before dashes at its ends are cut: letters and digits in lower
/// case, a dash for each run of gaps, nothing for other characters.
pub open spec fn slug_body(s: Seq<char>) -> Seq<char>
    decreases s.len(),
{
    if s.len() == 0 {
        Seq::empty()
    } else {
        let r = slug_body(s.drop_last());
        if is_alphanumeric(s.last()) {
            r.push(lower_char(s.last()))
        } else if is_gap(s.last()) && !(r.len() > 0 && r.last() == '-') {
            r.push('-')
        } else {
            r
        }
    }
}

/// Dashes at the front removed.
pub open spec fn cut_front(s: Seq<char>) -> Seq<char>
    decreases s.len(),
{
    if s.len() > 0 && s[0] == '-' {
        cut_front(s.skip(1))
    } else {
        s
    }
}

/// Dashes at the end removed.
pub open spec fn cut_back(s: Seq<char>) -> Seq<char>
    decreases s.len(),
{
    if s.len() > 0 && s.last() == '-' {
        cut_back(s.drop_last())
    } else {
        s
    }
}

/// The slug of a name.
pub open spec fn slug(s: Seq<char>) -> Seq<char> {
    cut_back(cut_front(slug_body(s)))
}

/// A file-system safe slug in lower case.
pub fn slug_of(name: &str) -> (r: String)
    ensures
        r@ == slug(name@),
{
    let s = chars_of(name);
    let mut body: Vec<char> = Vec::new();
    let mut i: usize = 0;
    assert(s@.take(0) =~= Seq::<char>::empty());
    while i < s.len()
        invariant
            i <= s.len(),
            s@ == name@,
            body@ == slug_body(s@.take(i as int)),
        decreases s.len() - i,
    {
        let c = s[i];
        assert(s@.take(i + 1).drop_last() =~= s@.take(i as int));
        assert(s@.take(i + 1).last() == c);
        if ('a' <= c && c <= 'z') || ('A' <= c && c <= 'Z') || ('0' <= c && c <= '9') {
            body.push(to_lower_char(c));
        } else if (c == ' ' || c == '-' || c == '_' || c == '.') && !(body.len() > 0
            && body[body.len() - 1] == '-') {
            body.push('-');
        }
        i += 1;
    }
    assert(s@.take(s@.len() as int) =~= s@);
    let mut from: usize = 0;
    assert(body@.skip(0) =~= body@);
    while from < body.len() && body[from] == '-'
        invariant
            from <= body.len(),
            cut_front(body@.skip(from as int)) == cut_front(body@),
        decreases body.len() - from,
    {
        assert(body@.skip(from as int).skip(1) =~= body@.skip(from + 1));
        from += 1;
    }
    let ghost cut = body@.skip(from as int);
    let mut to: usize = body.len();
    assert(body@.subrange(from as int, to as int) =~= cut);
    while to > from && body[to - 1] == '-'
        invariant
            from <= to <= body.len(),
            cut_back(body@.subrange(from as int, to as int)) == cut_back(cut),
        decreases to,
    {
        assert(body@.subrange(from as int, to as int).drop_last() =~= body@.subrange(
            from as int,
            to - 1,
        ));
        to -= 1;
    }
    let kept = part(&body, from, to);
    string_of(&kept)
}

/// A small letter, a digit or a dash.
pub open spec fn is_slug_char(c: char) -> bool {
    ('a' <= c && c <= 'z') || is_digit(c) || c == '-'
}

/// The text is a slug: slug characters, no dash at an end, no two in a row.
pub open spec fn is_slug(s: Seq<char>) -> bool {
    &&& forall|i: int| 0 <= i < s.len() ==> is_slug_char(#[trigger] s[i])
    &&& s.len() > 0 ==> s[0] != '-' && s.last() != '-'
    &&& forall|i: int| 0 <= i && i + 1 < s.len() && s[i] == '-' ==> #[trigger] s[i + 1] != '-'
}

/// Slug characters, no two dashes in a row.
spec fn is_body(s: Seq<char>) -> bool {
    &&& forall|i: int| 0 <= i < s.len() ==> is_slug_char(#[trigger] s[i])
    &&& forall|i: int| 0 <= i && i + 1 < s.len() && s[i] == '-' ==> #[trigger] s[i + 1] != '-'
}

proof fn lemma_body(s: Seq<char>)
    ensures
        is_body(slug_body(s)),
    decreases s.len(),
{
    if s.len() > 0 {
        lemma_body(s.drop_last());
        let r = slug_body(s.drop_last());
        let t = slug_body(s);
        assert forall|i: int| 0 <= i < t.len() implies is_slug_char(#[trigger] t[i]) by {
            if i < r.len() {
                assert(t[i] == r[i]);
            }
        }
        assert forall|i: int| 0 <= i && i + 1 < t.len() && t[i] == '-' implies #[trigger] t[i + 1]
            != '-' by {
            assert(t[i] == r[i]);
            if i + 1 < r.len() {
                assert(t[i + 1] == r[i + 1]);
            }
        }
    }
}

proof fn lemma_cut_front(s: Seq<char>)
    requires
        is_body(s),
    ensures
        is_body(cut_front(s)),
        cut_front(s).len() > 0 ==> cut_front(s)[0] != '-',
    decreases s.len(),
{
    if s.len() > 0 && s[0] == '-' {
        let t = s.skip(1);
        assert forall|i: int| 0 <= i < t.len() implies is_slug_char(#[trigger] t[i]) by {
            assert(t[i] == s[i + 1]);
        }
        assert forall|i: int| 0 <= i && i + 1 < t.len() && t[i] == '-' implies #[trigger] t[i + 1]
            != '-' by {
            assert(s[i + 1] == t[i]);
            assert(s[(i + 1) + 1] == t[i + 1]);
        }
        lemma_cut_front(t);
    }
}

proof fn lemma_cut_back(s: Seq<char>)
    requires
        is_body(s),
        s.len() > 0 ==> s[0] != '-',
    ensures
        is_slug(cut_back(s)),
    decreases s.len(),
{
    if s.len() > 0 && s.last() == '-' {
        let t = s.drop_last();
        assert forall|i: int| 0 <= i < t.len() implies is_slug_char(#[trigger] t[i]) by {
            assert(t[i] == s[i]);
        }
        assert forall|i: int| 0 <= i && i + 1 < t.len() && t[i] == '-' implies #[trigger] t[i + 1]
            != '-' by {
            assert(s[i] == t[i]);
            assert(s[i + 1] == t[i + 1]);
        }
        lemma_cut_back(t);
    }
}

/// A slug holds only small letters, digits and single dashes between them.
pub proof fn law_slug_is_safe(s: Seq<char>)
    ensures
        is_slug(slug(s)),
{
    lemma_body(s);
    lemma_cut_front(slug_body(s));
    lemma_cut_back(cut_front(slug_body(s)));
}

proof fn lemma_slug_body_of_slug(s: Seq<char>)
    requires
        is_body(s),
    ensures
        slug_body(s) == s,
    decreases s.len(),
{
    if s.len() > 0 {
        let t = s.drop_last();
        assert forall|i: int| 0 <= i < t.len() implies is_slug_char(#[trigger] t[i]) by {
            assert(t[i] == s[i]);
        }
        assert forall|i: int| 0 <= i && i + 1 < t.len() && t[i] == '-' implies #[trigger] t[i + 1]
            != '-' by {
            assert(s[i] == t[i]);
            assert(s[i + 1] == t[i + 1]);
        }
        lemma_slug_body_of_slug(t);
        assert(is_slug_char(s[s.len() - 1]));
        if s.last() == '-' && t.len() > 0 && t.last() == '-' {
            let k = s.len() - 2;
            assert(s[k] == '-');
            assert(s[k + 1] != '-');
        }
        assert(slug_body(s) =~= s);
    } else {
        assert(slug_body(s) =~= s);
    }
}

/// The slug of a slug is itself.
pub proof fn law_slug_is_stable(s: Seq<char>)
    ensures
        slug(slug(s)) == slug(s),
{
    law_slug_is_safe(s);
    lemma_slug_body_of_slug(slug(s));
}

/// A slug and the first eight hexadecimal digits of a hash.
pub open spec fn marked(name: Seq<char>, bytes: Seq<u8>) -> Seq<char> {
    slug(name) + "-"@ + hex(sha256_of(bytes).take(4))
}

proof fn lemma_hex_is_plain(bytes: Seq<u8>)
    ensures
        forall|i: int| 0 <= i < hex(bytes).len() ==> is_slug_char(#[trigger] hex(bytes)[i]),
    decreases bytes.len(),
{
    if bytes.len() > 0 {
        let front = hex(bytes.drop_last());
        let b = bytes.last() as int;
        lemma_hex_is_plain(bytes.drop_last());
        assert(forall|d: int| 0 <= d < 16 ==> is_slug_char(#[trigger] digit_char(d)));
        assert forall|i: int| 0 <= i < hex(bytes).len() implies is_slug_char(
            #[trigger] hex(bytes)[i],
        ) by {
            if i < front.len() {
                assert(hex(bytes)[i] == front[i]);
            } else if i == front.len() {
                assert(hex(bytes)[i] == digit_char(b / 16));
            } else {
                assert(hex(bytes)[i] == digit_char(b % 16));
            }
        }
    }
}

/// The ids and directory names of packs are one plain step of a path: small
/// letters, digits and dashes, and not empty.
pub proof fn law_pack_names_are_plain(name: Seq<char>, bytes: Seq<u8>)
    ensures
        marked(name, bytes).len() > 0,
        forall|i: int|
            0 <= i < marked(name, bytes).len() ==> is_slug_char(#[trigger] marked(name, bytes)[i]),
{
    law_slug_is_safe(name);
    lemma_hex_is_plain(sha256_of(bytes).take(4));
    reveal_strlit("-");
    let front = slug(name) + "-"@;
    let back = hex(sha256_of(bytes).take(4));
    assert forall|i: int| 0 <= i < marked(name, bytes).len() implies is_slug_char(
        #[trigger] marked(name, bytes)[i],
    ) by {
        if i < slug(name).len() {
            assert(marked(name, bytes)[i] == slug(name)[i]);
        } else if i >= front.len() {
            assert(marked(name, bytes)[i] == back[i - front.len()]);
        }
    }
}

fn mark(name: &str, bytes: &[u8]) -> (r: String)
    ensures
        r@ == marked(name@, bytes@),
{
    let digest = sha256(bytes);
    let short = hex_string(&digest, 4);
    let s = slug_of(name);
    join3(s.as_str(), "-", short.as_str())
}

/// The id of a pack: the slug of its directory's name, and the hash of its
/// metadata file (of nothing where that cannot be read).
pub fn pack_id(dir_name: &str, metadata: &[u8]) -> (r: String)
    ensures
        r@ == marked(dir_name@, metadata@),
{
    mark(dir_name, metadata)
}

/// The name of a new pack directory: the slug of the pack's name, and a hash
/// of the name and a time stamp.
pub fn new_pack_dir(name: &str, stamp: &[u8]) -> (r: String)
    ensures
        r@ == marked(name@, encode_utf8(name@) + stamp@),
{
    let mut bytes: Vec<u8> = Vec::new();
    let head = name.as_bytes();
    let mut i: usize = 0;
    while i < head.len()
        invariant
            i <= head.len(),
            bytes@ == head@.take(i as int),
        decreases head.len() - i,
    {
        bytes.push(head[i]);
        i += 1;
    }
    assert(head@.take(i as int) =~= head@);
    let mut k: usize = 0;
    while k < stamp.len()
        invariant
            k <= stamp.len(),
            bytes@ == head@ + stamp@.take(k as int),
        decreases stamp.len() - k,
    {
        bytes.push(stamp[k]);
        k += 1;
    }
    assert(stamp@.take(k as int) =~= stamp@);
    mark(name, &bytes)
}

/// The hash of a file in hexadecimal.
pub fn hash_hex(bytes: &[u8]) -> (r: String)
    ensures
        r@ == hex(sha256_of(bytes@)),
{
    let digest = sha256(bytes);
    assert(digest@.take(32) =~= digest@);
    hex_string(&digest, 32)
}

/// A directory name that says too little to be a pack's name.
pub open spec fn is_generic(name: Seq<char>) -> bool {
    let n = lower(name);
    n == "assets"@ || n == "texture"@ || n == "textures"@ || n == "resourcepacks"@ || n == "packs"@
        || n == "pack"@ || n == "shaders"@
}

fn chars_are(s: &[char], t: &str) -> (r: bool)
    ensures
        r == (s@ == t@),
{
    let c = chars_of(t);
    chars_eq(s, &c)
}

pub fn is_generic_dir_name(name: &str) -> (r: bool)
    ensures
        r == is_generic(name@),
{
    let s = chars_of(name);
    let n = lower_chars(&s);
    chars_are(&n, "assets") || chars_are(&n, "texture") || chars_are(&n, "textures") || chars_are(
        &n,
        "resourcepacks",
    ) || chars_are(&n, "packs") || chars_are(&n, "pack") || chars_are(&n, "shaders")
}

/// The name shown for a folder: of its own name and those of the directories
/// above it, inside out, the first that is not generic, or the outermost one;
/// the whole path where there is no name.
pub open spec fn shown_name(names: Seq<Seq<char>>, path: Seq<char>) -> Seq<char>
    decreases names.len(),
{
    if names.len() == 0 {
        path
    } else if names.len() == 1 || !is_generic(names[0]) {
        names[0]
    } else {
        shown_name(names.skip(1), path)
    }
}

/// The display name of a folder pack.
pub fn display_name(names: &[String], path: &str) -> (r: String)
    ensures
        r@ == shown_name(names_of(names@), path@),
{
    if names.len() == 0 {
        return path.to_owned();
    }
    let ghost all = names_of(names@);
    let mut i: usize = 0;
    assert(all.skip(0) =~= all);
    while i + 1 < names.len() && is_generic_dir_name(names[i].as_str())
        invariant
            i < names.len(),
            all == names_of(names@),
            shown_name(all.skip(i as int), path@) == shown_name(all, path@),
        decreases names.len() - i,
    {
        assert(all.skip(i as int)[0] == names@[i as int]@);
        assert(all.skip(i as int).skip(1) =~= all.skip(i + 1));
        i += 1;
    }
    assert(all.skip(i as int)[0] == names@[i as int]@);
    names[i].clone()
}

/// Letters and digits, and nothing else.
pub open spec fn is_word(s: Seq<char>) -> bool {
    forall|i: int|
        0 <= i < s.len() ==> {
            let c = #[trigger] s[i];
            ('a' <= c && c <= 'z') || ('A' <= c && c <= 'Z') || ('0' <= c && c <= '9')
        }
}

/// Blanks, dashes, underscores and dots, and nothing else.
pub open spec fn is_gap_run(s: Seq<char>) -> bool {
    forall|i: int|
        0 <= i < s.len() ==> {
            let c = #[trigger] s[i];
            c == ' ' || c == '-' || c == '_' || c == '.'
        }
}

proof fn lemma_body_word(s: Seq<char>, w: Seq<char>)
    requires
        is_word(w),
    ensures
        slug_body(s + w) == slug_body(s) + lower(w),
    decreases w.len(),
{
    if w.len() == 0 {
        assert(s + w =~= s);
        assert(slug_body(s) + lower(w) =~= slug_body(s));
    } else {
        let v = w.drop_last();
        assert forall|i: int| 0 <= i < v.len() implies {
            let c = #[trigger] v[i];
            ('a' <= c && c <= 'z') || ('A' <= c && c <= 'Z') || ('0' <= c && c <= '9')
        } by {
            assert(v[i] == w[i]);
        }
        lemma_body_word(s, v);
        assert((s + w).drop_last() =~= s + v);
        assert((s + w).last() == w[w.len() - 1]);
        assert((slug_body(s) + lower(v)).push(lower_char(w.last())) =~= slug_body(s) + lower(w));
    }
}

proof fn lemma_body_gaps(s: Seq<char>, g: Seq<char>)
    requires
        is_gap_run(g),
        g.len() > 0,
    ensures
        slug_body(s).len() > 0 && slug_body(s).last() == '-' ==> slug_body(s + g) == slug_body(s),
        !(slug_body(s).len() > 0 && slug_body(s).last() == '-') ==> slug_body(s + g) == slug_body(
            s,
        ).push('-'),
    decreases g.len(),
{
    let h = g.drop_last();
    assert((s + g).drop_last() =~= s + h);
    assert((s + g).last() == g[g.len() - 1]);
    if h.len() == 0 {
        assert(s + h =~= s);
    } else {
        assert forall|i: int| 0 <= i < h.len() implies {
            let c = #[trigger] h[i];
            c == ' ' || c == '-' || c == '_' || c == '.'
        } by {
            assert(h[i] == g[i]);
        }
        lemma_body_gaps(s, h);
    }
}

proof fn lemma_no_dashes_to_cut(s: Seq<char>)
    requires
        s.len() == 0 || s[0] != '-',
        s.len() == 0 || s.last() != '-',
    ensures
        cut_back(cut_front(s)) == s,
{
}

/// The slug of words with gaps between them: the words in lower case with a
/// dash for each gap, and no dash at an end.
pub proof fn law_slug_of_words(a: Seq<char>, gap: Seq<char>, b: Seq<char>)
    requires
        is_word(a),
        is_word(b),
        is_gap_run(gap),
        gap.len() > 0,
    ensures
        slug(a) == lower(a),
        a.len() > 0 && b.len() > 0 ==> slug(a + gap + b) == lower(a) + seq!['-'] + lower(b),
        a.len() > 0 ==> slug(a + gap) == lower(a),
        slug(gap + b) == lower(b),
{
    let e = Seq::<char>::empty();
    lemma_body_word(e, a);
    assert(e + a =~= a);
    assert(slug_body(e) + lower(a) =~= lower(a));
    assert(a.len() > 0 ==> is_word_char(a[0]) && is_word_char(a.last())) by {
        assert(a.len() > 0 ==> a[a.len() - 1] == a.last());
    }
    assert(b.len() > 0 ==> is_word_char(b[0]) && is_word_char(b.last())) by {
        assert(b.len() > 0 ==> b[b.len() - 1] == b.last());
    }
    lemma_no_dashes_to_cut(lower(a));
    lemma_body_gaps(a, gap);
    lemma_body_word(a + gap, b);
    if a.len() > 0 {
        let body = lower(a).push('-');
        assert(slug_body(a + gap) == body);
        lemma_no_dashes_to_cut(lower(a));
        assert(cut_front(body) == body);
        assert(body.drop_last() =~= lower(a));
        assert(cut_back(lower(a)) == lower(a));
        if b.len() > 0 {
            let all = lower(a).push('-') + lower(b);
            assert(all[0] == lower(a)[0]);
            assert(all.last() == lower(b).last());
            lemma_no_dashes_to_cut(all);
            assert(all =~= lower(a) + seq!['-'] + lower(b));
        }
    }
    lemma_body_gaps(e, gap);
    assert(e + gap =~= gap);
    assert(slug_body(gap) =~= seq!['-']);
    lemma_body_word(gap, b);
    let front = seq!['-'] + lower(b);
    assert(front.skip(1) =~= lower(b));
    assert(cut_front(front) == cut_front(lower(b)));
    lemma_no_dashes_to_cut(lower(b));
}

/// A character that a word consists of.
spec fn is_word_char(c: char) -> bool {
    ('a' <= c && c <= 'z') || ('A' <= c && c <= 'Z') || ('0' <= c && c <= '9')
}

/// A character that is neither part of a word nor a gap leaves no trace.
pub proof fn law_slug_drops_other_characters(a: Seq<char>, c: char, b: Seq<char>)
    requires
        !is_word(seq![c]),
        !is_gap_run(seq![c]),
    ensures
        slug(a + seq![c] + b) == slug(a + b),
{
    assert(seq![c][0] == c);
    lemma_dropped(a, c, b);
}

proof fn lemma_dropped(a: Seq<char>, c: char, b: Seq<char>)
    requires
        !is_alphanumeric(c),
        !is_gap(c),
    ensures
        slug_body(a + seq![c] + b) == slug_body(a + b),
    decreases b.len(),
{
    let s = a + seq![c] + b;
    if b.len() == 0 {
        assert(s.drop_last() =~= a);
        assert(a + b =~= a);
    } else {
        lemma_dropped(a, c, b.drop_last());
        assert(s.drop_last() =~= a + seq![c] + b.drop_last());
        assert((a + b).drop_last() =~= a + b.drop_last());
        assert(s.last() == (a + b).last());
    }
}

/// The mark of a name is its slug, a dash and the first eight digits of the
/// hash of the bytes.
pub proof fn law_mark_has_eight_digits(name: Seq<char>, bytes: Seq<u8>)
    requires
        sha256_of(bytes).len() >= 4,
    ensures
        marked(name, bytes).len() == slug(name).len() + 9,
        marked(name, bytes).take(slug(name).len() as int) == slug(name),
        marked(name, bytes)[slug(name).len() as int] == '-',
        forall|i: int|
            0 <= i < 4 ==> {
                let b = #[trigger] sha256_of(bytes)[i] as int;
                let n = slug(name).len() as int;
                &&& marked(name, bytes)[n + 1 + 2 * i] == digit_char(b / 16)
                &&& marked(name, bytes)[n + 2 + 2 * i] == digit_char(b % 16)
            },
{
    reveal_strlit("-");
    let four = sha256_of(bytes).take(4);
    crate::hash::lemma_hex_len(four);
    let m = marked(name, bytes);
    let n = slug(name).len() as int;
    assert(m.take(n) =~= slug(name));
    assert forall|i: int| 0 <= i < 4 implies {
        let b = #[trigger] sha256_of(bytes)[i] as int;
        &&& m[n + 1 + 2 * i] == digit_char(b / 16)
        &&& m[n + 2 + 2 * i] == digit_char(b % 16)
    } by {
        crate::hash::law_hex_goes_byte_by_byte(four, i);
        assert(four[i] == sha256_of(bytes)[i]);
    }
}

/// The directory names that say too little, in any letter case.
pub proof fn law_generic_names(name: Seq<char>)
    ensures
        is_generic(name) <==> (lower(name) == "assets"@ || lower(name) == "texture"@ || lower(name) == "textures"@ || lower(name) == "resourcepacks"@ || lower(name) == "packs"@ || lower(name) == "pack"@ || lower(name) == "shaders"@),
{
}

/// A folder is shown under the innermost name that is not generic; where all
/// are, under the outermost, and without any name under its path.
pub proof fn law_folders_are_shown_by_name(names: Seq<Seq<char>>, path: Seq<char>, i: int)
    requires
        0 <= i < names.len(),
        forall|k: int| 0 <= k < i ==> is_generic(#[trigger] names[k]),
        i == names.len() - 1 || !is_generic(names[i]),
    ensures
        shown_name(names, path) == names[i],
        shown_name(Seq::empty(), path) == path,
    decreases names.len(),
{
    if i > 0 {
        assert(is_generic(names[0]));
        let rest = names.skip(1);
        assert forall|k: int| 0 <= k < i - 1 implies is_generic(#[trigger] rest[k]) by {
            assert(rest[k] == names[k + 1]);
        }
        law_folders_are_shown_by_name(rest, path, i - 1);
    }
}

} // verus!
