//! Stable orders: names by their bytes, and numbers from large to small.

use vstd::prelude::*;
use vstd::utf8::*;

verus! {

/// Lexicographic order of byte strings.
pub open spec fn bytes_le(a: Seq<u8>, b: Seq<u8>) -> bool
    decreases a.len(),
{
    if a.len() == 0 {
        true
    } else if b.len() == 0 {
        false
    } else if a[0] == b[0] {
        bytes_le(a.skip(1), b.skip(1))
    } else {
        a[0] < b[0]
    }
}

/// Names are ordered by their UTF-8 bytes.
pub open spec fn name_le(a: Seq<char>, b: Seq<char>) -> bool {
    bytes_le(encode_utf8(a), encode_utf8(b))
}

/// Pairs of names are ordered by the first name, then by the second.
pub open spec fn pair_le(a: (Seq<char>, Seq<char>), b: (Seq<char>, Seq<char>)) -> bool {
    if a.0 == b.0 {
        name_le(a.1, b.1)
    } else {
        name_le(a.0, b.0)
    }
}

proof fn lemma_bytes_total(a: Seq<u8>, b: Seq<u8>)
    ensures
        bytes_le(a, b) || bytes_le(b, a),
    decreases a.len(),
{
    if a.len() > 0 && b.len() > 0 {
        lemma_bytes_total(a.skip(1), b.skip(1));
    }
}

proof fn lemma_bytes_transitive(a: Seq<u8>, b: Seq<u8>, c: Seq<u8>)
    requires
        bytes_le(a, b),
        bytes_le(b, c),
    ensures
        bytes_le(a, c),
    decreases a.len(),
{
    if a.len() > 0 && b.len() > 0 && c.len() > 0 && a[0] == b[0] && b[0] == c[0] {
        lemma_bytes_transitive(a.skip(1), b.skip(1), c.skip(1));
    }
}

proof fn lemma_bytes_antisymmetric(a: Seq<u8>, b: Seq<u8>)
    requires
        bytes_le(a, b),
        bytes_le(b, a),
    ensures
        a == b,
    decreases a.len(),
{
    if a.len() > 0 && b.len() > 0 {
        lemma_bytes_antisymmetric(a.skip(1), b.skip(1));
        assert(a =~= seq![a[0]] + a.skip(1));
        assert(b =~= seq![b[0]] + b.skip(1));
    } else {
        assert(a =~= b);
    }
}

/// The order of pairs is total and transitive, and two pairs that stand each
/// before the other are equal.
pub proof fn law_pair_order(
    a: (Seq<char>, Seq<char>),
    b: (Seq<char>, Seq<char>),
    c: (Seq<char>, Seq<char>),
)
    ensures
        pair_le(a, b) || pair_le(b, a),
        pair_le(a, b) && pair_le(b, c) ==> pair_le(a, c),
        pair_le(a, b) && pair_le(b, a) ==> a == b,
{
    let f = |s: Seq<char>| encode_utf8(s);
    encode_utf8_decode_utf8(a.0);
    encode_utf8_decode_utf8(b.0);
    encode_utf8_decode_utf8(c.0);
    encode_utf8_decode_utf8(a.1);
    encode_utf8_decode_utf8(b.1);
    lemma_bytes_total(f(a.0), f(b.0));
    lemma_bytes_total(f(a.1), f(b.1));
    if bytes_le(f(a.0), f(b.0)) && bytes_le(f(b.0), f(a.0)) {
        lemma_bytes_antisymmetric(f(a.0), f(b.0));
    }
    if bytes_le(f(b.0), f(c.0)) && bytes_le(f(c.0), f(b.0)) {
        lemma_bytes_antisymmetric(f(b.0), f(c.0));
    }
    if bytes_le(f(a.1), f(b.1)) && bytes_le(f(b.1), f(a.1)) {
        lemma_bytes_antisymmetric(f(a.1), f(b.1));
    }
    if bytes_le(f(a.0), f(b.0)) && bytes_le(f(b.0), f(c.0)) {
        lemma_bytes_transitive(f(a.0), f(b.0), f(c.0));
        if a.0 == c.0 && a.0 != b.0 {
            lemma_bytes_antisymmetric(f(a.0), f(b.0));
        }
    }
    if bytes_le(f(a.1), f(b.1)) && bytes_le(f(b.1), f(c.1)) {
        lemma_bytes_transitive(f(a.1), f(b.1), f(c.1));
    }
}

/// The order of names is total and transitive, and two names that stand each
/// before the other are equal.
pub proof fn law_name_order(a: Seq<char>, b: Seq<char>, c: Seq<char>)
    ensures
        name_le(a, b) || name_le(b, a),
        name_le(a, b) && name_le(b, c) ==> name_le(a, c),
        name_le(a, b) && name_le(b, a) ==> a == b,
{
    encode_utf8_decode_utf8(a);
    encode_utf8_decode_utf8(b);
    lemma_bytes_total(encode_utf8(a), encode_utf8(b));
    if name_le(a, b) && name_le(b, a) {
        lemma_bytes_antisymmetric(encode_utf8(a), encode_utf8(b));
    }
    if name_le(a, b) && name_le(b, c) {
        lemma_bytes_transitive(encode_utf8(a), encode_utf8(b), encode_utf8(c));
    }
}

fn bytes_at_most(a: &[u8], b: &[u8]) -> (r: bool)
    ensures
        r == bytes_le(a@, b@),
{
    let mut i: usize = 0;
    assert(a@.skip(0) == a@);
    assert(b@.skip(0) == b@);
    while i < a.len() && i < b.len()
        invariant
            i <= a.len(),
            i <= b.len(),
            bytes_le(a@, b@) == bytes_le(a@.skip(i as int), b@.skip(i as int)),
        decreases a.len() - i,
    {
        assert(a@.skip(i as int).skip(1) == a@.skip(i + 1));
        assert(b@.skip(i as int).skip(1) == b@.skip(i + 1));
        if a[i] != b[i] {
            return a[i] < b[i];
        }
        i += 1;
    }
    i == a.len()
}

/// `name_le`, computed.
pub fn name_at_most(a: &str, b: &str) -> (r: bool)
    ensures
        r == name_le(a@, b@),
{
    bytes_at_most(a.as_bytes(), b.as_bytes())
}

/// A stable order of `n` things: a permutation in which each thing stands
/// before the ones it is at most, equals in their first order.
pub open spec fn is_stable_order(r: Seq<usize>, n: int, le: spec_fn(int, int) -> bool) -> bool {
    &&& r.len() == n
    &&& r.no_duplicates()
    &&& forall|i: int| 0 <= i < r.len() ==> #[trigger] r[i] < n
    &&& forall|i: int, j: int|
        0 <= i < j < r.len() ==> le(#[trigger] r[i] as int, #[trigger] r[j] as int) && (le(
            r[j] as int,
            r[i] as int,
        ) ==> r[i] < r[j])
}

/// The relation is a total preorder.
pub open spec fn is_total_preorder(le: spec_fn(int, int) -> bool) -> bool {
    &&& forall|a: int, b: int| #[trigger] le(a, b) || le(b, a)
    &&& forall|a: int, b: int, c: int| #[trigger] le(a, b) && #[trigger] le(b, c) ==> le(a, c)
}

/// Putting the next thing behind everything that is at most it keeps the
/// order stable.
pub proof fn lemma_insert_keeps_order(
    r: Seq<usize>,
    n: int,
    pos: int,
    le: spec_fn(int, int) -> bool,
    x: usize,
)
    requires
        is_total_preorder(le),
        is_stable_order(r, n, le),
        x == n,
        0 <= pos <= r.len(),
        forall|k: int| pos <= k < r.len() ==> !le(#[trigger] r[k] as int, n),
        pos > 0 ==> le(r[pos - 1] as int, n),
    ensures
        is_stable_order(r.insert(pos, x), n + 1, le),
{
    let s = r.insert(pos, x);
    assert forall|i: int| 0 <= i < s.len() implies #[trigger] s[i] < n + 1 by {
        if i < pos {
            assert(s[i] == r[i]);
        } else if i > pos {
            assert(s[i] == r[i - 1]);
        }
    }
    assert forall|i: int, j: int| 0 <= i < j < s.len() implies le(
        #[trigger] s[i] as int,
        #[trigger] s[j] as int,
    ) && (le(s[j] as int, s[i] as int) ==> s[i] < s[j]) by {
        if j < pos {
            assert(s[i] == r[i] && s[j] == r[j]);
        } else if i > pos {
            assert(s[i] == r[i - 1] && s[j] == r[j - 1]);
        } else if j == pos {
            assert(s[i] == r[i] && s[j] == x);
            if i < pos - 1 {
                assert(le(r[i] as int, r[pos - 1] as int));
            }
            assert(le(r[i] as int, n));
        } else if i == pos {
            assert(s[i] == x && s[j] == r[j - 1]);
            assert(!le(r[j - 1] as int, n));
            assert(le(n, r[j - 1] as int) || le(r[j - 1] as int, n));
        } else {
            assert(s[i] == r[i] && s[j] == r[j - 1]);
        }
    }
    assert(s.no_duplicates()) by {
        assert forall|i: int, j: int| 0 <= i < s.len() && 0 <= j < s.len() && i != j implies s[i]
            != s[j] by {
            let a = if i < pos {
                r[i]
            } else if i == pos {
                x
            } else {
                r[i - 1]
            };
            let b = if j < pos {
                r[j]
            } else if j == pos {
                x
            } else {
                r[j - 1]
            };
            assert(s[i] == a && s[j] == b);
        }
    }
}

/// The comparison of the pairs at two positions.
pub open spec fn pairs_le(v: Seq<(String, String)>) -> spec_fn(int, int) -> bool {
    |a: int, b: int| pair_le((v[a].0@, v[a].1@), (v[b].0@, v[b].1@))
}

proof fn lemma_pairs_preorder(v: Seq<(String, String)>)
    ensures
        is_total_preorder(pairs_le(v)),
{
    let le = pairs_le(v);
    assert forall|a: int, b: int| #[trigger] le(a, b) || le(b, a) by {
        law_pair_order((v[a].0@, v[a].1@), (v[b].0@, v[b].1@), (v[a].0@, v[a].1@));
    }
    assert forall|a: int, b: int, c: int| #[trigger] le(a, b) && #[trigger] le(b, c) implies le(
        a,
        c,
    ) by {
        law_pair_order((v[a].0@, v[a].1@), (v[b].0@, v[b].1@), (v[c].0@, v[c].1@));
    }
}

fn pair_at_most(a: &(String, String), b: &(String, String)) -> (r: bool)
    ensures
        r == pair_le((a.0@, a.1@), (b.0@, b.1@)),
{
    if crate::text::str_eq(a.0.as_str(), b.0.as_str()) {
        name_at_most(a.1.as_str(), b.1.as_str())
    } else {
        name_at_most(a.0.as_str(), b.0.as_str())
    }
}

/// The stable order of pairs of names.
pub fn order_pairs(v: &[(String, String)]) -> (r: Vec<usize>)
    ensures
        is_stable_order(r@, v@.len() as int, pairs_le(v@)),
{
    let ghost le = pairs_le(v@);
    proof {
        lemma_pairs_preorder(v@);
    }
    let mut out: Vec<usize> = Vec::new();
    let mut i: usize = 0;
    while i < v.len()
        invariant
            i <= v.len(),
            le == pairs_le(v@),
            is_total_preorder(le),
            is_stable_order(out@, i as int, le),
        decreases v.len() - i,
    {
        let mut pos: usize = out.len();
        while pos > 0 && !pair_at_most(&v[out[pos - 1]], &v[i])
            invariant
                i < v.len(),
                pos <= out.len() == i,
                le == pairs_le(v@),
                is_stable_order(out@, i as int, le),
                forall|k: int| pos <= k < out@.len() ==> !le(#[trigger] out@[k] as int, i as int),
            decreases pos,
        {
            pos -= 1;
        }
        proof {
            lemma_insert_keeps_order(out@, i as int, pos as int, le, i);
        }
        out.insert(pos, i);
        i += 1;
    }
    out
}

/// Files, each a path with its bytes, are ordered by path, then by bytes.
pub open spec fn file_le(a: (Seq<char>, Seq<u8>), b: (Seq<char>, Seq<u8>)) -> bool {
    if a.0 == b.0 {
        bytes_le(a.1, b.1)
    } else {
        name_le(a.0, b.0)
    }
}

/// The order of files is total and transitive, and two files that stand each
/// before the other are equal.
pub proof fn law_file_order(
    a: (Seq<char>, Seq<u8>),
    b: (Seq<char>, Seq<u8>),
    c: (Seq<char>, Seq<u8>),
)
    ensures
        file_le(a, b) || file_le(b, a),
        file_le(a, b) && file_le(b, c) ==> file_le(a, c),
        file_le(a, b) && file_le(b, a) ==> a == b,
{
    law_name_order(a.0, b.0, c.0);
    law_name_order(b.0, c.0, b.0);
    law_name_order(a.0, b.0, a.0);
    lemma_bytes_total(a.1, b.1);
    if bytes_le(a.1, b.1) && bytes_le(b.1, a.1) {
        lemma_bytes_antisymmetric(a.1, b.1);
    }
    if bytes_le(a.1, b.1) && bytes_le(b.1, c.1) {
        lemma_bytes_transitive(a.1, b.1, c.1);
    }
}

/// The comparison of the files at two positions.
pub open spec fn files_le(v: Seq<(Seq<char>, Seq<u8>)>) -> spec_fn(int, int) -> bool {
    |a: int, b: int| file_le(v[a], v[b])
}

pub proof fn lemma_files_preorder(v: Seq<(Seq<char>, Seq<u8>)>)
    ensures
        is_total_preorder(files_le(v)),
{
    let le = files_le(v);
    assert forall|a: int, b: int| #[trigger] le(a, b) || le(b, a) by {
        law_file_order(v[a], v[b], v[a]);
    }
    assert forall|a: int, b: int, c: int| #[trigger] le(a, b) && #[trigger] le(b, c) implies le(
        a,
        c,
    ) by {
        law_file_order(v[a], v[b], v[c]);
    }
}

fn file_at_most(a: &(String, Vec<u8>), b: &(String, Vec<u8>)) -> (r: bool)
    ensures
        r == file_le((a.0@, a.1@), (b.0@, b.1@)),
{
    if crate::text::str_eq(a.0.as_str(), b.0.as_str()) {
        bytes_at_most(&a.1, &b.1)
    } else {
        name_at_most(a.0.as_str(), b.0.as_str())
    }
}

/// The files as text and bytes.
pub open spec fn contents_of(files: Seq<(String, Vec<u8>)>) -> Seq<(Seq<char>, Seq<u8>)> {
    Seq::new(files.len(), |i: int| (files[i].0@, files[i].1@))
}

/// The stable order of files.
pub fn order_files(v: &[(String, Vec<u8>)]) -> (r: Vec<usize>)
    ensures
        is_stable_order(r@, v@.len() as int, files_le(contents_of(v@))),
{
    let ghost le = files_le(contents_of(v@));
    proof {
        lemma_files_preorder(contents_of(v@));
    }
    let mut out: Vec<usize> = Vec::new();
    let mut i: usize = 0;
    while i < v.len()
        invariant
            i <= v.len(),
            le == files_le(contents_of(v@)),
            is_total_preorder(le),
            is_stable_order(out@, i as int, le),
        decreases v.len() - i,
    {
        let mut pos: usize = out.len();
        while pos > 0 && !file_at_most(&v[out[pos - 1]], &v[i])
            invariant
                i < v.len(),
                pos <= out.len() == i,
                le == files_le(contents_of(v@)),
                is_stable_order(out@, i as int, le),
                forall|k: int| pos <= k < out@.len() ==> !le(#[trigger] out@[k] as int, i as int),
            decreases pos,
        {
            pos -= 1;
        }
        proof {
            lemma_insert_keeps_order(out@, i as int, pos as int, le, i);
        }
        out.insert(pos, i);
        i += 1;
    }
    out
}

/// The things of a list, in the order that `p` gives.
pub open spec fn arranged<T>(v: Seq<T>, p: Seq<usize>) -> Seq<T> {
    Seq::new(p.len(), |i: int| v[p[i] as int])
}

/// A permutation keeps what a list holds.
pub proof fn lemma_arranged_keeps<T>(v: Seq<T>, p: Seq<usize>)
    requires
        p.len() == v.len(),
        p.no_duplicates(),
        forall|i: int| 0 <= i < p.len() ==> #[trigger] p[i] < v.len(),
    ensures
        arranged(v, p).to_multiset() == v.to_multiset(),
    decreases v.len(),
{
    let w = arranged(v, p);
    let n = v.len() as int;
    if n == 0 {
        assert(w =~= v);
    } else {
        lemma_permutation_is_onto(p, n, n - 1);
        let k = choose|k: int| 0 <= k < p.len() && #[trigger] p[k] == n - 1;
        let v1 = v.drop_last();
        let p1 = p.remove(k);
        assert forall|i: int| 0 <= i < p1.len() implies #[trigger] p1[i] < v1.len() by {
            if i < k {
                assert(p1[i] == p[i]);
            } else {
                assert(p1[i] == p[i + 1]);
            }
        }
        assert(p1.no_duplicates()) by {
            assert forall|i: int, j: int| 0 <= i < p1.len() && 0 <= j < p1.len() && i
                != j implies p1[i] != p1[j] by {
                let a = if i < k {
                    i
                } else {
                    i + 1
                };
                let b = if j < k {
                    j
                } else {
                    j + 1
                };
                assert(p1[i] == p[a] && p1[j] == p[b]);
            }
        }
        lemma_arranged_keeps(v1, p1);
        assert(w.remove(k) =~= arranged(v1, p1));
        assert(w.remove(k).insert(k, v[n - 1]) =~= w);
        vstd::seq_lib::to_multiset_insert(w.remove(k), k, v[n - 1]);
        assert(v =~= v1.push(v[n - 1]));
        vstd::seq_lib::to_multiset_build(v1, v[n - 1]);
    }
}

/// Two lists of the same files are the same list once in order.
pub proof fn lemma_files_in_order_agree(
    a: Seq<(Seq<char>, Seq<u8>)>,
    b: Seq<(Seq<char>, Seq<u8>)>,
    oa: Seq<usize>,
    ob: Seq<usize>,
)
    requires
        a.to_multiset() == b.to_multiset(),
        is_stable_order(oa, a.len() as int, files_le(a)),
        is_stable_order(ob, b.len() as int, files_le(b)),
    ensures
        arranged(a, oa) == arranged(b, ob),
{
    let leq = |x: (Seq<char>, Seq<u8>), y: (Seq<char>, Seq<u8>)| file_le(x, y);
    assert(vstd::relations::total_ordering(leq)) by {
        assert forall|x: (Seq<char>, Seq<u8>)| #[trigger] leq(x, x) by {
            law_file_order(x, x, x);
        }
        assert forall|x: (Seq<char>, Seq<u8>), y: (Seq<char>, Seq<u8>)| #[trigger]
            leq(x, y) && #[trigger] leq(y, x) implies x == y by {
            law_file_order(x, y, x);
        }
        assert forall|
            x: (Seq<char>, Seq<u8>),
            y: (Seq<char>, Seq<u8>),
            z: (Seq<char>, Seq<u8>),
        | #[trigger] leq(x, y) && #[trigger] leq(y, z) implies leq(x, z) by {
            law_file_order(x, y, z);
        }
        assert forall|x: (Seq<char>, Seq<u8>), y: (Seq<char>, Seq<u8>)| #[trigger]
            leq(x, y) || #[trigger] leq(y, x) by {
            law_file_order(x, y, x);
        }
    }
    let sa = arranged(a, oa);
    let sb = arranged(b, ob);
    let la = files_le(a);
    let lb = files_le(b);
    assert forall|i: int, j: int| 0 <= i < j < sa.len() implies #[trigger] leq(sa[i], sa[j]) by {
        assert(la(oa[i] as int, oa[j] as int));
    }
    assert forall|i: int, j: int| 0 <= i < j < sb.len() implies #[trigger] leq(sb[i], sb[j]) by {
        assert(lb(ob[i] as int, ob[j] as int));
    }
    lemma_arranged_keeps(a, oa);
    lemma_arranged_keeps(b, ob);
    vstd::seq_lib::lemma_sorted_unique(sa, sb, leq);
}

/// The comparison of the numbers at two positions, larger ones first.
pub open spec fn larger_first(keys: Seq<u64>) -> spec_fn(int, int) -> bool {
    |a: int, b: int| keys[a] >= keys[b]
}

/// The stable order of numbers from large to small.
pub fn order_descending(keys: &[u64]) -> (r: Vec<usize>)
    ensures
        is_stable_order(r@, keys@.len() as int, larger_first(keys@)),
{
    let ghost le = larger_first(keys@);
    assert(is_total_preorder(le));
    let mut out: Vec<usize> = Vec::new();
    let mut i: usize = 0;
    while i < keys.len()
        invariant
            i <= keys.len(),
            le == larger_first(keys@),
            is_total_preorder(le),
            is_stable_order(out@, i as int, le),
        decreases keys.len() - i,
    {
        let mut pos: usize = out.len();
        while pos > 0 && !(keys[out[pos - 1]] >= keys[i])
            invariant
                i < keys.len(),
                pos <= out.len() == i,
                le == larger_first(keys@),
                is_stable_order(out@, i as int, le),
                forall|k: int| pos <= k < out@.len() ==> !le(#[trigger] out@[k] as int, i as int),
            decreases pos,
        {
            pos -= 1;
        }
        proof {
            lemma_insert_keeps_order(out@, i as int, pos as int, le, i);
        }
        out.insert(pos, i);
        i += 1;
    }
    out
}

/// There is only one stable order.
pub proof fn law_stable_order_is_unique(
    a: Seq<usize>,
    b: Seq<usize>,
    n: int,
    le: spec_fn(int, int) -> bool,
)
    requires
        is_stable_order(a, n, le),
        is_stable_order(b, n, le),
    ensures
        a == b,
{
    lemma_prefix_agrees(a, b, n, le, n);
    assert(a =~= b);
}

/// A permutation of the first `n` numbers holds each of them.
pub proof fn lemma_permutation_is_onto(r: Seq<usize>, n: int, x: int)
    requires
        r.len() == n,
        r.no_duplicates(),
        forall|i: int| 0 <= i < r.len() ==> #[trigger] r[i] < n,
        0 <= x < n,
    ensures
        exists|i: int| 0 <= i < r.len() && #[trigger] r[i] == x,
{
    let s = Seq::new(r.len(), |i: int| r[i] as int);
    assert(s.no_duplicates()) by {
        assert forall|i: int, j: int| 0 <= i < s.len() && 0 <= j < s.len() && i != j implies s[i]
            != s[j] by {
            assert(r[i] != r[j]);
        }
    }
    s.unique_seq_to_set();
    let image = s.to_set();
    let all = vstd::set_lib::set_int_range(0, n);
    vstd::set_lib::lemma_int_range(0, n);
    assert(image.subset_of(all)) by {
        assert forall|y: int| image.contains(y) implies all.contains(y) by {
            let i = s.index_of(y);
            assert(r[i] < n);
        }
    }
    if !image.contains(x) {
        assert(image.subset_of(all.remove(x)));
        vstd::set_lib::lemma_len_subset(image, all.remove(x));
        assert(false);
    }
    let i = s.index_of(x);
    assert(r[i] == x);
}

proof fn lemma_prefix_agrees(
    a: Seq<usize>,
    b: Seq<usize>,
    n: int,
    le: spec_fn(int, int) -> bool,
    k: int,
)
    requires
        is_stable_order(a, n, le),
        is_stable_order(b, n, le),
        0 <= k <= n,
    ensures
        forall|i: int| 0 <= i < k ==> a[i] == b[i],
    decreases k,
{
    if k > 0 {
        lemma_prefix_agrees(a, b, n, le, k - 1);
        let i = k - 1;
        if a[i] != b[i] {
            lemma_permutation_is_onto(b, n, a[i] as int);
            lemma_permutation_is_onto(a, n, b[i] as int);
            let p = choose|p: int| 0 <= p < b.len() && #[trigger] b[p] == a[i];
            let q = choose|q: int| 0 <= q < a.len() && #[trigger] a[q] == b[i];
            if p < i {
                assert(a[p] == b[p]);
                assert(false);
            }
            if q < i {
                assert(a[q] == b[q]);
                assert(false);
            }
            assert(le(b[i] as int, b[p] as int) && (le(b[p] as int, b[i] as int) ==> b[i] < b[p]));
            assert(le(a[i] as int, a[q] as int) && (le(a[q] as int, a[i] as int) ==> a[i] < a[q]));
            assert(false);
        }
    }
}

/// Everything countable by machine words has a stable order.
pub proof fn lemma_order_exists(n: int, le: spec_fn(int, int) -> bool)
    requires
        0 <= n <= usize::MAX,
        is_total_preorder(le),
    ensures
        exists|r: Seq<usize>| is_stable_order(r, n, le),
    decreases n,
{
    if n == 0 {
        assert(is_stable_order(Seq::<usize>::empty(), 0, le));
    } else {
        let m = n - 1;
        lemma_order_exists(m, le);
        let r = choose|r: Seq<usize>| is_stable_order(r, m, le);
        let pos = insertion_place(r, m, le, r.len() as int);
        lemma_insertion_place(r, m, le, r.len() as int);
        lemma_insert_keeps_order(r, m, pos, le, m as usize);
    }
}

/// The place behind the last thing that is at most `x`, among the first `k`.
spec fn insertion_place(r: Seq<usize>, x: int, le: spec_fn(int, int) -> bool, k: int) -> int
    decreases k,
{
    if k <= 0 {
        0
    } else if le(r[k - 1] as int, x) {
        k
    } else {
        insertion_place(r, x, le, k - 1)
    }
}

proof fn lemma_insertion_place(r: Seq<usize>, x: int, le: spec_fn(int, int) -> bool, k: int)
    requires
        0 <= k <= r.len(),
    ensures
        ({
            let pos = insertion_place(r, x, le, k);
            &&& 0 <= pos <= k
            &&& forall|j: int| pos <= j < k ==> !le(#[trigger] r[j] as int, x)
            &&& pos > 0 ==> le(r[pos - 1] as int, x)
        }),
    decreases k,
{
    if k > 0 && !le(r[k - 1] as int, x) {
        lemma_insertion_place(r, x, le, k - 1);
    }
}

/// The comparison of the names at two positions.
pub open spec fn names_le(v: Seq<Seq<char>>) -> spec_fn(int, int) -> bool {
    |a: int, b: int| name_le(v[a], v[b])
}

proof fn lemma_names_preorder(v: Seq<Seq<char>>)
    ensures
        is_total_preorder(names_le(v)),
{
    let le = names_le(v);
    assert forall|a: int, b: int| #[trigger] le(a, b) || le(b, a) by {
        lemma_bytes_total(encode_utf8(v[a]), encode_utf8(v[b]));
    }
    assert forall|a: int, b: int, c: int| #[trigger] le(a, b) && #[trigger] le(b, c) implies le(
        a,
        c,
    ) by {
        lemma_bytes_transitive(encode_utf8(v[a]), encode_utf8(v[b]), encode_utf8(v[c]));
    }
}

/// The keys of a list of keyed things.
pub open spec fn keys_of<T>(items: Seq<(String, T)>) -> Seq<Seq<char>> {
    Seq::new(items.len(), |i: int| items[i].0@)
}

/// The things stand in the stable order of their keys.
pub open spec fn sorted_by_key<T>(r: Seq<T>, items: Seq<(String, T)>) -> bool {
    exists|order: Seq<usize>|
        is_stable_order(order, items.len() as int, names_le(keys_of(items))) && is_picked(
            r,
            items,
            order,
        )
}

/// The things at given positions.
pub open spec fn is_picked<T>(r: Seq<T>, items: Seq<(String, T)>, order: Seq<usize>) -> bool {
    r.len() == order.len() && forall|i: int|
        0 <= i < r.len() ==> #[trigger] r[i] == items[order[i] as int].1
}

/// Puts things in the order of their keys; equal keys stay as they stood.
pub fn sort_by_key<T>(items: Vec<(String, T)>) -> (r: Vec<T>)
    ensures
        sorted_by_key(r@, items@),
{
    let ghost all = items@;
    let ghost keys = keys_of(all);
    let ghost le = names_le(keys);
    let ghost mut order: Seq<usize> = Seq::empty();
    proof {
        lemma_names_preorder(keys);
    }
    let mut sorted_keys: Vec<String> = Vec::new();
    let mut out: Vec<T> = Vec::new();
    let mut n: usize = 0;
    assert(all.len() == items.len());
    for item in it: items
        invariant
            it.seq() == all,
            all == items@,
            n == it.index(),
            all.len() <= usize::MAX,
            keys == keys_of(all),
            le == names_le(keys),
            is_total_preorder(le),
            is_stable_order(order, n as int, le),
            sorted_keys.len() == n,
            out.len() == n,
            forall|i: int| 0 <= i < n ==> #[trigger] out@[i] == all[order[i] as int].1,
            forall|i: int| 0 <= i < n ==> (#[trigger] sorted_keys@[i])@ == keys[order[i] as int],
    {
        let (key, value) = item;
        assert(all[n as int] == (key, value));
        let mut pos: usize = out.len();
        while pos > 0 && !name_at_most(sorted_keys[pos - 1].as_str(), key.as_str())
            invariant
                pos <= n,
                n < all.len(),
                out.len() == n,
                sorted_keys.len() == n,
                keys == keys_of(all),
                key@ == keys[n as int],
                le == names_le(keys),
                order.len() == n,
                forall|i: int|
                    0 <= i < n ==> (#[trigger] sorted_keys@[i])@ == keys[order[i] as int],
                forall|k: int| pos <= k < order.len() ==> !le(#[trigger] order[k] as int, n as int),
            decreases pos,
        {
            assert(sorted_keys@[pos - 1]@ == keys[order[pos - 1] as int]);
            pos -= 1;
        }
        proof {
            if pos > 0 {
                assert(sorted_keys@[pos - 1]@ == keys[order[pos - 1] as int]);
                assert(le(order[pos - 1] as int, n as int));
            }
            lemma_insert_keeps_order(order, n as int, pos as int, le, n);
        }
        let ghost keys0 = sorted_keys@;
        let ghost out0 = out@;
        let ghost order0 = order;
        sorted_keys.insert(pos, key);
        out.insert(pos, value);
        proof {
            order = order.insert(pos as int, n);
            assert forall|i: int| 0 <= i < n + 1 implies #[trigger] out@[i]
                == all[order[i] as int].1 && sorted_keys@[i]@ == keys[order[i] as int] by {
                if i < pos {
                    assert(out@[i] == out0[i] && sorted_keys@[i] == keys0[i] && order[i]
                        == order0[i]);
                } else if i > pos {
                    assert(out@[i] == out0[i - 1] && sorted_keys@[i] == keys0[i - 1] && order[i]
                        == order0[i - 1]);
                }
            }
        }
        n += 1;
    }
    assert(is_picked(out@, all, order));
    out
}

/// Of two byte strings the shorter of a common front stands first, and else
/// the one with the smaller byte where they first differ.
pub proof fn law_first_difference_decides(p: Seq<u8>, x: Seq<u8>, y: Seq<u8>)
    ensures
        bytes_le(p, p + x),
        x.len() > 0 ==> !bytes_le(p + x, p),
        x.len() > 0 && y.len() > 0 && x[0] < y[0] ==> bytes_le(p + x, p + y) && !bytes_le(
            p + y,
            p + x,
        ),
    decreases p.len(),
{
    if p.len() > 0 {
        law_first_difference_decides(p.skip(1), x, y);
        assert((p + x).skip(1) =~= p.skip(1) + x);
        assert((p + y).skip(1) =~= p.skip(1) + y);
    } else {
        assert(p + x =~= x);
        assert(p + y =~= y);
    }
}

/// The first name decides between pairs, the path between files; only between
/// equal ones the second name, or the bytes.
pub proof fn law_first_part_decides(
    a: (Seq<char>, Seq<char>),
    b: (Seq<char>, Seq<char>),
    x: Seq<u8>,
    y: Seq<u8>,
)
    ensures
        a.0 != b.0 ==> pair_le(a, b) == bytes_le(encode_utf8(a.0), encode_utf8(b.0)),
        a.0 == b.0 ==> pair_le(a, b) == bytes_le(encode_utf8(a.1), encode_utf8(b.1)),
        a.0 != b.0 ==> file_le((a.0, x), (b.0, y)) == bytes_le(
            encode_utf8(a.0),
            encode_utf8(b.0),
        ),
        file_le((a.0, x), (a.0, y)) == bytes_le(x, y),
{
}

/// Larger numbers stand before smaller ones.
pub proof fn law_larger_numbers_are_first(keys: Seq<u64>, a: int, b: int)
    requires
        0 <= a < keys.len(),
        0 <= b < keys.len(),
    ensures
        keys[a] > keys[b] ==> larger_first(keys)(a, b) && !larger_first(keys)(b, a),
        keys[a] == keys[b] ==> larger_first(keys)(a, b) && larger_first(keys)(b, a),
{
}

/// In a stable order a thing that another does not precede stands before it,
/// and things that precede each other stand in their first order.
pub proof fn law_order_puts_smaller_first(
    r: Seq<usize>,
    n: int,
    le: spec_fn(int, int) -> bool,
    i: int,
    j: int,
)
    requires
        is_stable_order(r, n, le),
        0 <= i < n,
        0 <= j < n,
        !le(r[j] as int, r[i] as int) || (le(r[i] as int, r[j] as int) && r[i] < r[j]),
        i != j,
    ensures
        i < j,
{
    if j < i {
        assert(le(r[j] as int, r[i] as int));
    }
}

/// Things sorted by key are those given, in the order of their keys, and those
/// with one key in the order in which they came.
pub proof fn law_sorted_things_stand_by_key<T>(
    r: Seq<T>,
    items: Seq<(String, T)>,
    i: int,
    j: int,
) -> (p: (int, int))
    requires
        sorted_by_key(r, items),
        0 <= i < j < r.len(),
    ensures
        r.len() == items.len(),
        0 <= p.0 < items.len() && 0 <= p.1 < items.len(),
        p.0 != p.1,
        r[i] == items[p.0].1,
        r[j] == items[p.1].1,
        name_le(items[p.0].0@, items[p.1].0@),
        items[p.0].0@ == items[p.1].0@ ==> p.0 < p.1,
{
    let order = choose|order: Seq<usize>|
        is_stable_order(order, items.len() as int, names_le(keys_of(items))) && is_picked(
            r,
            items,
            order,
        );
    let le = names_le(keys_of(items));
    assert(le(order[i] as int, order[j] as int));
    assert(keys_of(items)[order[i] as int] == items[order[i] as int].0@);
    assert(keys_of(items)[order[j] as int] == items[order[j] as int].0@);
    law_name_order(items[order[j] as int].0@, items[order[j] as int].0@, Seq::empty());
    assert(le(order[i] as int, order[j] as int) && (le(order[j] as int, order[i] as int)
        ==> order[i] < order[j]));
    (order[i] as int, order[j] as int)
}

} // verus!
