//! Paths as text: their steps, the depth they reach, and names in them.

use crate::text::{
    chars_of, part_string, pieces_of, replace_char, replaced, split, split_chars, string_of,
};
use vstd::prelude::*;

verus! {

/// A piece between separators that leads somewhere: not empty and not a dot.
pub open spec fn is_step(p: Seq<char>) -> bool {
    p.len() > 0 && p != seq!['.']
}

/// The step to the directory above.
pub open spec fn is_up(p: Seq<char>) -> bool {
    p == seq!['.', '.']
}

/// The pieces that lead somewhere, in order.
pub open spec fn kept_steps(pieces: Seq<Seq<char>>) -> Seq<Seq<char>>
    decreases pieces.len(),
{
    if pieces.len() == 0 {
        Seq::empty()
    } else if is_step(pieces.last()) {
        kept_steps(pieces.drop_last()).push(pieces.last())
    } else {
        kept_steps(pieces.drop_last())
    }
}

/// The steps of a path, separated by slashes.
pub open spec fn steps(path: Seq<char>) -> Seq<Seq<char>> {
    kept_steps(split(path, '/'))
}

/// The path starts at the root of the file system.
pub open spec fn is_rooted(path: Seq<char>) -> bool {
    path.len() > 0 && path[0] == '/'
}

/// How far below its start the first `n` steps lead.
pub open spec fn depth(s: Seq<Seq<char>>, n: int) -> int
    decreases n,
{
    if n <= 0 {
        0
    } else if is_up(s[n - 1]) {
        depth(s, n - 1) - 1
    } else {
        depth(s, n - 1) + 1
    }
}

/// The steps never lead above their start.
pub open spec fn stays_below(s: Seq<Seq<char>>) -> bool {
    forall|n: int| 0 <= n <= s.len() ==> #[trigger] depth(s, n) >= 0
}

/// The path is relative and never leads above its start.
pub open spec fn within(path: Seq<char>) -> bool {
    !is_rooted(path) && stays_below(steps(path))
}

fn is_step_chars(p: &[char]) -> (r: bool)
    ensures
        r == is_step(p@),
{
    let r = p.len() > 0 && !(p.len() == 1 && p[0] == '.');
    assert(p@.len() == 1 && p@[0] == '.' ==> p@ =~= seq!['.']);
    r
}

fn is_up_chars(p: &[char]) -> (r: bool)
    ensures
        r == is_up(p@),
{
    let r = p.len() == 2 && p[0] == '.' && p[1] == '.';
    assert(p@.len() == 2 && p@[0] == '.' && p@[1] == '.' ==> p@ =~= seq!['.', '.']);
    r
}

/// The pieces that lead somewhere.
pub fn keep_steps(pieces: Vec<Vec<char>>) -> (r: Vec<Vec<char>>)
    ensures
        pieces_of(r@) == kept_steps(pieces_of(pieces@)),
{
    let ghost all = pieces_of(pieces@);
    let mut out: Vec<Vec<char>> = Vec::new();
    assert(all.take(0) =~= Seq::<Seq<char>>::empty());
    assert(pieces_of(out@) =~= Seq::<Seq<char>>::empty());
    for p in it: pieces
        invariant
            it.seq() == pieces@,
            all == pieces_of(pieces@),
            pieces_of(out@) == kept_steps(all.take(it.index() as int)),
    {
        let ghost n = it.index() as int;
        let ghost before = pieces_of(out@);
        assert(all.take(n + 1).drop_last() =~= all.take(n));
        assert(all.take(n + 1).last() == p@);
        if is_step_chars(&p) {
            out.push(p);
            assert(pieces_of(out@) =~= before.push(p@));
        }
    }
    assert(all.take(all.len() as int) =~= all);
    out
}

/// The steps of a path.
pub fn steps_of(path: &[char]) -> (r: Vec<Vec<char>>)
    ensures
        pieces_of(r@) == steps(path@),
{
    keep_steps(split_chars(path, '/'))
}

/// Whether steps never lead above their start.
pub fn steps_stay_below(s: &[Vec<char>]) -> (r: bool)
    ensures
        r == stays_below(pieces_of(s@)),
{
    let ghost all = pieces_of(s@);
    let mut reached: usize = 0;
    let mut n: usize = 0;
    while n < s.len()
        invariant
            n <= s.len(),
            all == pieces_of(s@),
            reached == depth(all, n as int),
            reached <= n,
            forall|k: int| 0 <= k <= n ==> #[trigger] depth(all, k) >= 0,
        decreases s.len() - n,
    {
        assert(all[n as int] == s@[n as int]@);
        if is_up_chars(&s[n]) {
            if reached == 0 {
                assert(depth(all, n + 1) < 0);
                return false;
            }
            reached -= 1;
        } else {
            reached += 1;
        }
        n += 1;
    }
    true
}

/// Whether `path` is a safe relative path: it stays under the directory it is
/// joined to. The base does not matter to the test.
pub fn is_within(_base: &str, path: &str) -> (r: bool)
    ensures
        r == within(path@),
{
    let p = chars_of(path);
    if p.len() > 0 && p[0] == '/' {
        return false;
    }
    let s = steps_of(&p);
    steps_stay_below(&s)
}

/// Where the first `n` steps lead from a directory.
pub open spec fn walk(base: Seq<Seq<char>>, s: Seq<Seq<char>>, n: int) -> Seq<Seq<char>>
    decreases n,
{
    if n <= 0 {
        base
    } else {
        let at = walk(base, s, n - 1);
        if !is_up(s[n - 1]) {
            at.push(s[n - 1])
        } else if at.len() > 0 {
            at.drop_last()
        } else {
            at
        }
    }
}

/// The directory is the other one or lies under it.
pub open spec fn under(at: Seq<Seq<char>>, base: Seq<Seq<char>>) -> bool {
    at.len() >= base.len() && at.take(base.len() as int) == base
}

/// A path that passes the test never leaves the directory it starts in, at
/// any of its steps.
pub proof fn law_within_never_escapes(base: Seq<Seq<char>>, path: Seq<char>, n: int)
    requires
        within(path),
        0 <= n <= steps(path).len(),
    ensures
        under(walk(base, steps(path), n), base),
        walk(base, steps(path), n).len() == base.len() + depth(steps(path), n),
    decreases n,
{
    let s = steps(path);
    if n > 0 {
        law_within_never_escapes(base, path, n - 1);
        let at = walk(base, s, n - 1);
        let next = walk(base, s, n);
        assert(depth(s, n) >= 0);
        assert(next.take(base.len() as int) =~= at.take(base.len() as int));
    } else {
        assert(base.take(base.len() as int) =~= base);
    }
}

/// A relative path that fails the test leaves a directory below the root at
/// one of its steps.
pub proof fn law_escaping_is_found(base: Seq<Seq<char>>, path: Seq<char>)
    requires
        !is_rooted(path),
        !within(path),
        base.len() > 0,
    ensures
        exists|n: int|
            0 <= n <= steps(path).len() && !under(#[trigger] walk(base, steps(path), n), base),
{
    let s = steps(path);
    let n = choose|n: int| 0 <= n <= s.len() && #[trigger] depth(s, n) < 0;
    let m = first_below(s, n);
    lemma_first_below(s, n);
    lemma_walk_len(base, s, m - 1);
    let at = walk(base, s, m - 1);
    assert(depth(s, m) < 0);
    assert(at.len() == base.len());
    assert(!under(walk(base, s, m), base));
}

spec fn first_below(s: Seq<Seq<char>>, n: int) -> int
    decreases n,
{
    if n <= 0 {
        0
    } else if exists|k: int| 0 <= k < n && #[trigger] depth(s, k) < 0 {
        first_below(s, n - 1)
    } else {
        n
    }
}

proof fn lemma_first_below(s: Seq<Seq<char>>, n: int)
    requires
        0 <= n,
        exists|k: int| 0 <= k <= n && #[trigger] depth(s, k) < 0,
    ensures
        0 < first_below(s, n) <= n,
        depth(s, first_below(s, n)) < 0,
        forall|k: int| 0 <= k < first_below(s, n) ==> #[trigger] depth(s, k) >= 0,
    decreases n,
{
    let k = choose|k: int| 0 <= k <= n && #[trigger] depth(s, k) < 0;
    if n <= 0 {
        assert(depth(s, 0) == 0);
    } else if exists|j: int| 0 <= j < n && #[trigger] depth(s, j) < 0 {
        let j = choose|j: int| 0 <= j < n && #[trigger] depth(s, j) < 0;
        assert(0 <= j <= n - 1);
        lemma_first_below(s, n - 1);
    } else {
        assert(k == n);
    }
}

proof fn lemma_walk_len(base: Seq<Seq<char>>, s: Seq<Seq<char>>, n: int)
    requires
        0 <= n,
        base.len() > 0,
        forall|k: int| 0 <= k <= n ==> #[trigger] depth(s, k) >= 0,
    ensures
        walk(base, s, n).len() == base.len() + depth(s, n),
    decreases n,
{
    if n > 0 {
        lemma_walk_len(base, s, n - 1);
        assert(depth(s, n) >= 0);
        assert(depth(s, n - 1) >= 0);
    }
}

/// Pieces joined by a separator.
pub open spec fn joined(pieces: Seq<Seq<char>>, sep: char) -> Seq<char>
    decreases pieces.len(),
{
    if pieces.len() == 0 {
        Seq::empty()
    } else if pieces.len() == 1 {
        pieces[0]
    } else {
        joined(pieces.drop_last(), sep).push(sep) + pieces.last()
    }
}

/// Joins pieces by a separator.
pub fn join_pieces(pieces: &[Vec<char>], sep: char) -> (r: Vec<char>)
    ensures
        r@ == joined(pieces_of(pieces@), sep),
{
    let ghost all = pieces_of(pieces@);
    let mut out: Vec<char> = Vec::new();
    let mut n: usize = 0;
    while n < pieces.len()
        invariant
            n <= pieces.len(),
            all == pieces_of(pieces@),
            out@ == joined(all.take(n as int), sep),
        decreases pieces.len() - n,
    {
        let ghost before = out@;
        assert(all.take(n + 1).drop_last() =~= all.take(n as int));
        assert(all.take(n + 1).last() == pieces@[n as int]@);
        if n > 0 {
            out.push(sep);
        }
        let ghost head = out@;
        let mut k: usize = 0;
        while k < pieces[n].len()
            invariant
                n < pieces.len(),
                k <= pieces@[n as int].len(),
                out@ == head + pieces@[n as int]@.take(k as int),
            decreases pieces@[n as int].len() - k,
        {
            out.push(pieces[n][k]);
            k += 1;
        }
        assert(pieces@[n as int]@.take(k as int) =~= pieces@[n as int]@);
        if n == 0 {
            assert(out@ =~= pieces@[0]@);
            assert(all.take(1)[0] == pieces@[0]@);
        }
        n += 1;
    }
    assert(all.take(all.len() as int) =~= all);
    out
}

/// Splitting what was joined gives the pieces back, when none holds the
/// separator.
pub proof fn law_split_of_joined(pieces: Seq<Seq<char>>, sep: char)
    requires
        pieces.len() > 0,
        forall|i: int, k: int|
            0 <= i < pieces.len() && 0 <= k < pieces[i].len() ==> #[trigger] pieces[i][k] != sep,
    ensures
        split(joined(pieces, sep), sep) == pieces,
    decreases pieces.len(),
{
    let last = pieces.last();
    assert(pieces[pieces.len() - 1] == last);
    if pieces.len() == 1 {
        lemma_split_free(Seq::empty(), last, sep);
        assert(Seq::<char>::empty() + last =~= last);
        assert(split(Seq::<char>::empty(), sep) =~= seq![Seq::<char>::empty()]);
        assert(split(last, sep) =~= pieces);
    } else {
        let init = pieces.drop_last();
        law_split_of_joined(init, sep);
        let head = joined(init, sep).push(sep);
        assert(head.drop_last() =~= joined(init, sep));
        assert(split(head, sep) =~= init.push(Seq::<char>::empty()));
        lemma_split_free(head, last, sep);
        assert(split(head + last, sep) =~= pieces);
    }
}

/// Reading characters that are no separators lengthens the last piece.
proof fn lemma_split_free(head: Seq<char>, tail: Seq<char>, sep: char)
    requires
        forall|k: int| 0 <= k < tail.len() ==> #[trigger] tail[k] != sep,
    ensures
        split(head + tail, sep) == split(head, sep).update(
            split(head, sep).len() - 1,
            split(head, sep).last() + tail,
        ),
    decreases tail.len(),
{
    crate::text::lemma_split_nonempty(head, sep);
    if tail.len() == 0 {
        assert(head + tail =~= head);
        assert(split(head, sep).last() + tail =~= split(head, sep).last());
        assert(split(head, sep) =~= split(head, sep).update(
            split(head, sep).len() - 1,
            split(head, sep).last() + tail,
        ));
    } else {
        let t = tail.drop_last();
        lemma_split_free(head, t, sep);
        assert((head + tail).drop_last() =~= head + t);
        assert((head + tail).last() == tail.last());
        assert(tail[tail.len() - 1] != sep);
        let r = split(head + t, sep);
        assert(r.last() == split(head, sep).last() + t);
        assert((split(head, sep).last() + t).push(tail.last()) =~= split(head, sep).last() + tail);
        assert(split(head + tail, sep) =~= split(head, sep).update(
            split(head, sep).len() - 1,
            split(head, sep).last() + tail,
        ));
    }
}

/// The pieces of a name that may be written with either kind of slash.
pub open spec fn entry_steps(name: Seq<char>) -> Seq<Seq<char>> {
    kept_steps(split(replaced(name, '\\', '/'), '/'))
}

pub fn entry_steps_of(name: &[char]) -> (r: Vec<Vec<char>>)
    ensures
        pieces_of(r@) == entry_steps(name@),
{
    let plain = replace_char(name, '\\', '/');
    keep_steps(split_chars(&plain, '/'))
}

proof fn lemma_kept_pieces(pieces: Seq<Seq<char>>)
    ensures
        forall|i: int|
            0 <= i < kept_steps(pieces).len() ==> is_step(#[trigger] kept_steps(pieces)[i])
                && pieces.contains(kept_steps(pieces)[i]),
    decreases pieces.len(),
{
    if pieces.len() > 0 {
        let init = pieces.drop_last();
        lemma_kept_pieces(init);
        assert forall|i: int| 0 <= i < kept_steps(pieces).len() implies is_step(
            #[trigger] kept_steps(pieces)[i],
        ) && pieces.contains(kept_steps(pieces)[i]) by {
            if i < kept_steps(init).len() {
                let p = kept_steps(init)[i];
                assert(kept_steps(pieces)[i] == p);
                let k = init.index_of(p);
                assert(pieces[k] == p);
            } else {
                assert(pieces[pieces.len() - 1] == pieces.last());
            }
        }
    }
}

/// Steps are kept as they are.
proof fn lemma_steps_are_kept(pieces: Seq<Seq<char>>)
    requires
        forall|i: int| 0 <= i < pieces.len() ==> is_step(#[trigger] pieces[i]),
    ensures
        kept_steps(pieces) == pieces,
    decreases pieces.len(),
{
    if pieces.len() > 0 {
        lemma_steps_are_kept(pieces.drop_last());
        assert(is_step(pieces[pieces.len() - 1]));
        assert(kept_steps(pieces) =~= pieces);
    }
}

/// The steps of a name written with plain slashes are its steps.
pub proof fn lemma_steps_of_joined(name: Seq<char>)
    requires
        entry_steps(name).len() > 0,
    ensures
        steps(joined(entry_steps(name), '/')) == entry_steps(name),
        !is_rooted(joined(entry_steps(name), '/')),
        joined(entry_steps(name), '/').len() > 0,
{
    let plain = replaced(name, '\\', '/');
    let s = entry_steps(name);
    lemma_kept_pieces(split(plain, '/'));
    crate::text::law_split_pieces_are_free(plain, '/');
    assert forall|i: int, k: int| 0 <= i < s.len() && 0 <= k < s[i].len() implies #[trigger] s[i][k]
        != '/' by {
        assert(split(plain, '/').contains(s[i]));
        let j = split(plain, '/').index_of(s[i]);
        assert(split(plain, '/')[j][k] != '/');
    }
    law_split_of_joined(s, '/');
    assert forall|i: int| 0 <= i < s.len() implies is_step(#[trigger] s[i]) by {}
    lemma_steps_are_kept(s);
    lemma_joined_start(s, '/');
}

/// The steps behind the first one, joined, are those steps.
pub proof fn lemma_tail_of_steps(path: Seq<char>)
    requires
        steps(path).len() > 1,
    ensures
        steps(joined(steps(path).skip(1), '/')) == steps(path).skip(1),
        !is_rooted(joined(steps(path).skip(1), '/')),
        joined(steps(path).skip(1), '/').len() > 0,
{
    let s = steps(path).skip(1);
    lemma_kept_pieces(split(path, '/'));
    crate::text::law_split_pieces_are_free(path, '/');
    assert forall|i: int, k: int| 0 <= i < s.len() && 0 <= k < s[i].len() implies #[trigger] s[i][k]
        != '/' by {
        assert(s[i] == steps(path)[i + 1]);
        assert(split(path, '/').contains(s[i]));
        let j = split(path, '/').index_of(s[i]);
        assert(split(path, '/')[j][k] != '/');
    }
    law_split_of_joined(s, '/');
    assert forall|i: int| 0 <= i < s.len() implies is_step(#[trigger] s[i]) by {
        assert(s[i] == steps(path)[i + 1]);
    }
    lemma_steps_are_kept(s);
    lemma_joined_start(s, '/');
}

proof fn lemma_joined_start(pieces: Seq<Seq<char>>, sep: char)
    requires
        pieces.len() > 0,
        pieces[0].len() > 0,
        pieces[0][0] != sep,
    ensures
        joined(pieces, sep).len() > 0,
        joined(pieces, sep)[0] == pieces[0][0],
    decreases pieces.len(),
{
    if pieces.len() > 1 {
        lemma_joined_start(pieces.drop_last(), sep);
    }
}

/// The name without its last extension: what stands before the last dot,
/// unless that dot begins the name.
pub open spec fn stem(name: Seq<char>) -> Seq<char> {
    let i = last_pos(name, '.');
    if i > 0 {
        name.take(i)
    } else {
        name
    }
}

/// What stands behind the last dot of a name, unless that dot begins it.
pub open spec fn extension(name: Seq<char>) -> Option<Seq<char>> {
    let i = last_pos(name, '.');
    if i > 0 {
        Some(name.skip(i + 1))
    } else {
        None
    }
}

/// The last position of a character, -1 where it does not occur.
pub open spec fn last_pos(s: Seq<char>, c: char) -> int
    decreases s.len(),
{
    if s.len() == 0 {
        -1
    } else if s.last() == c {
        s.len() - 1
    } else {
        last_pos(s.drop_last(), c)
    }
}

pub proof fn lemma_last_pos(s: Seq<char>, c: char, i: int)
    requires
        -1 <= i < s.len(),
        forall|k: int| i < k < s.len() ==> s[k] != c,
        i >= 0 ==> s[i] == c,
    ensures
        last_pos(s, c) == i,
    decreases s.len(),
{
    if s.len() > 0 && i < s.len() - 1 {
        assert(s[s.len() - 1] != c);
        lemma_last_pos(s.drop_last(), c, i);
    }
}

/// The position behind the last occurrence of a character; 0 where it does
/// not occur.
pub fn behind_last(s: &[char], c: char) -> (r: usize)
    ensures
        r == last_pos(s@, c) + 1,
        r <= s.len(),
{
    let mut i: usize = s.len();
    while i > 0 && s[i - 1] != c
        invariant
            i <= s.len(),
            forall|k: int| i <= k < s.len() ==> s@[k] != c,
        decreases i,
    {
        i -= 1;
    }
    proof {
        lemma_last_pos(s@, c, i - 1);
    }
    i
}

/// The name of a file without its last extension.
pub fn stem_of(name: &str) -> (r: String)
    ensures
        r@ == stem(name@),
{
    let s = chars_of(name);
    let i = behind_last(&s, '.');
    if i > 1 {
        let r = part_string(&s, 0, i - 1);
        assert(s@.subrange(0, i - 1) =~= s@.take(i - 1));
        r
    } else {
        string_of(&s)
    }
}

/// The extension of a file's name.
pub fn extension_of(name: &str) -> (r: Option<String>)
    ensures
        match r {
            Some(e) => extension(name@) == Some(e@),
            None => extension(name@) is None,
        },
{
    let s = chars_of(name);
    let i = behind_last(&s, '.');
    if i > 1 {
        let r = part_string(&s, i, s.len());
        assert(s@.subrange(i as int, s@.len() as int) =~= s@.skip(i as int));
        Some(r)
    } else {
        None
    }
}

/// A path joined to a directory: an absolute path replaces it.
pub open spec fn joined_path(dir: Seq<char>, path: Seq<char>) -> Seq<char> {
    if is_rooted(path) || dir.len() == 0 {
        path
    } else if dir.last() == '/' {
        dir + path
    } else {
        dir.push('/') + path
    }
}

pub fn join_path(dir: &str, path: &str) -> (r: String)
    ensures
        r@ == joined_path(dir@, path@),
{
    let d = chars_of(dir);
    let p = chars_of(path);
    if (p.len() > 0 && p[0] == '/') || d.len() == 0 {
        return path.to_owned();
    }
    let mut out = dir.to_owned();
    if d[d.len() - 1] != '/' {
        out.push('/');
    }
    out.append(path);
    out
}

/// The steps of a path are its pieces without the empty ones and the dots.
pub proof fn law_steps_are_pieces(pieces: Seq<Seq<char>>)
    ensures
        kept_steps(pieces) == pieces.filter(|p: Seq<char>| p.len() > 0 && p != seq!['.']),
    decreases pieces.len(),
{
    reveal(Seq::filter);
    if pieces.len() > 0 {
        law_steps_are_pieces(pieces.drop_last());
    }
}

proof fn lemma_all_steps(pieces: Seq<Seq<char>>)
    requires
        forall|i: int| 0 <= i < pieces.len() ==> is_step(#[trigger] pieces[i]),
    ensures
        kept_steps(pieces) == pieces,
    decreases pieces.len(),
{
    if pieces.len() > 0 {
        lemma_all_steps(pieces.drop_last());
        assert(is_step(pieces[pieces.len() - 1]));
        assert(pieces.drop_last().push(pieces.last()) =~= pieces);
    } else {
        assert(pieces =~= Seq::empty());
    }
}

proof fn lemma_joined_replaced(pieces: Seq<Seq<char>>)
    requires
        forall|i: int, k: int|
            0 <= i < pieces.len() && 0 <= k < pieces[i].len() ==> #[trigger] pieces[i][k] != '\\',
    ensures
        replaced(joined(pieces, '\\'), '\\', '/') == joined(pieces, '/'),
        replaced(joined(pieces, '/'), '\\', '/') == joined(pieces, '/'),
    decreases pieces.len(),
{
    let last = pieces.last();
    if pieces.len() == 1 {
        assert(replaced(pieces[0], '\\', '/') =~= pieces[0]);
    } else if pieces.len() > 1 {
        let front = pieces.drop_last();
        assert forall|i: int, k: int|
            0 <= i < front.len() && 0 <= k < front[i].len() implies #[trigger] front[i][k] != '\\' by {
            assert(front[i] == pieces[i]);
            assert(pieces[i][k] != '\\');
        }
        lemma_joined_replaced(front);
        assert(forall|k: int| 0 <= k < last.len() ==> #[trigger] last[k] != '\\') by {
            assert(forall|k: int| 0 <= k < last.len() ==> #[trigger] pieces[pieces.len() - 1][k] != '\\');
        }
        let a = joined(front, '\\');
        let b = joined(front, '/');
        assert(replaced(a.push('\\') + last, '\\', '/') =~= replaced(a, '\\', '/').push('/') + last);
        assert(replaced(b.push('/') + last, '\\', '/') =~= replaced(b, '\\', '/').push('/') + last);
    } else {
        assert(replaced(joined(pieces, '\\'), '\\', '/') =~= joined(pieces, '/'));
        assert(replaced(joined(pieces, '/'), '\\', '/') =~= joined(pieces, '/'));
    }
}

/// A name made of plain steps has those steps, whichever slash stands between
/// them.
pub proof fn law_either_slash_divides(pieces: Seq<Seq<char>>)
    requires
        pieces.len() > 0,
        forall|i: int| 0 <= i < pieces.len() ==> is_step(#[trigger] pieces[i]),
        forall|i: int, k: int|
            0 <= i < pieces.len() && 0 <= k < pieces[i].len() ==> #[trigger] pieces[i][k] != '/'
                && pieces[i][k] != '\\',
    ensures
        steps(joined(pieces, '/')) == pieces,
        entry_steps(joined(pieces, '/')) == pieces,
        entry_steps(joined(pieces, '\\')) == pieces,
{
    law_split_of_joined(pieces, '/');
    lemma_all_steps(pieces);
    assert forall|i: int, k: int|
        0 <= i < pieces.len() && 0 <= k < pieces[i].len() implies #[trigger] pieces[i][k] != '\\' by {
        assert(pieces[i][k] != '/' && pieces[i][k] != '\\');
    }
    lemma_joined_replaced(pieces);
}

/// A piece behind a separator is the last, and a text without one is its only
/// piece.
pub proof fn law_separators_divide(a: Seq<char>, b: Seq<char>, sep: char)
    requires
        !b.contains(sep),
    ensures
        split(b, sep) == seq![b],
        split(a.push(sep) + b, sep) == split(a, sep).push(b),
{
    assert forall|k: int| 0 <= k < b.len() implies #[trigger] b[k] != sep by {
        assert(b.contains(b[k]));
    }
    let e = Seq::<char>::empty();
    lemma_split_free(e, b, sep);
    assert(e + b =~= b);
    assert(split(b, sep) =~= seq![b]);
    lemma_split_free(a.push(sep), b, sep);
    assert(a.push(sep).drop_last() =~= a);
    assert(e + b =~= b);
    assert(split(a.push(sep) + b, sep) =~= split(a, sep).push(b));
}

/// Joining puts a separator between neighbors and nothing else.
pub proof fn law_joined_piece_by_piece(pieces: Seq<Seq<char>>, last: Seq<char>, sep: char)
    ensures
        joined(seq![last], sep) == last,
        pieces.len() > 0 ==> joined(pieces.push(last), sep) == joined(pieces, sep) + seq![sep]
            + last,
        joined(Seq::empty(), sep).len() == 0,
{
    assert(pieces.push(last).drop_last() =~= pieces);
    assert(joined(pieces, sep).push(sep) + last =~= joined(pieces, sep) + seq![sep] + last);
}

/// The last dot of a name divides stem and extension, unless it begins the
/// name; a name without a dot is its own stem.
pub proof fn law_last_dot_divides(a: Seq<char>, b: Seq<char>)
    requires
        !b.contains('.'),
    ensures
        a.len() > 0 ==> stem(a.push('.') + b) == a && extension(a.push('.') + b) == Some(b),
        stem(seq!['.'] + b) == seq!['.'] + b && extension(seq!['.'] + b) is None,
        stem(b) == b && extension(b) is None,
{
    assert forall|k: int| 0 <= k < b.len() implies #[trigger] b[k] != '.' by {
        assert(b.contains(b[k]));
    }
    let s = a.push('.') + b;
    assert forall|k: int| a.len() < k < s.len() implies #[trigger] s[k] != '.' by {
        assert(s[k] == b[k - a.len() - 1]);
    }
    lemma_last_pos(s, '.', a.len() as int);
    assert(s.take(a.len() as int) =~= a);
    assert(s.skip(a.len() as int + 1) =~= b);
    let t = seq!['.'] + b;
    assert forall|k: int| 0 < k < t.len() implies #[trigger] t[k] != '.' by {
        assert(t[k] == b[k - 1]);
    }
    lemma_last_pos(t, '.', 0);
    lemma_last_pos(b, '.', -1);
}

/// A path under a directory stands behind it and one slash; an absolute path
/// stands alone, as does any path under no directory.
pub proof fn law_paths_join_with_one_slash(dir: Seq<char>, path: Seq<char>)
    ensures
        path.len() > 0 && path[0] == '/' ==> joined_path(dir, path) == path,
        joined_path(Seq::empty(), path) == path,
        dir.len() > 0 && dir.last() != '/' && !(path.len() > 0 && path[0] == '/') ==> joined_path(
            dir,
            path,
        ) == dir + seq!['/'] + path && joined_path(dir.push('/'), path) == dir + seq!['/'] + path,
{
    assert(dir.push('/') + path =~= dir + seq!['/'] + path);
}

/// A step up leads out of the directory that the step before it led into; a
/// path that begins with one, or with a slash, does not stay within.
pub proof fn law_steps_up(s: Seq<Seq<char>>, n: int)
    requires
        0 <= n < s.len(),
    ensures
        s[n] == seq!['.', '.'] ==> depth(s, n + 1) == depth(s, n) - 1,
        s[n] != seq!['.', '.'] ==> depth(s, n + 1) == depth(s, n) + 1,
        depth(s, 0) == 0,
        s[0] == seq!['.', '.'] ==> !stays_below(s),
        (forall|i: int| 0 <= i < s.len() ==> #[trigger] s[i] != seq!['.', '.']) ==> stays_below(s),
{
    if s[0] == seq!['.', '.'] {
        assert(depth(s, 0) == 0);
        assert(depth(s, 1) == -1);
    }
    if forall|i: int| 0 <= i < s.len() ==> #[trigger] s[i] != seq!['.', '.'] {
        assert forall|m: int| 0 <= m <= s.len() implies #[trigger] depth(s, m) >= 0 by {
            lemma_no_steps_up(s, m);
        }
    }
}

proof fn lemma_no_steps_up(s: Seq<Seq<char>>, m: int)
    requires
        0 <= m <= s.len(),
        forall|i: int| 0 <= i < s.len() ==> #[trigger] s[i] != seq!['.', '.'],
    ensures
        depth(s, m) == m,
    decreases m,
{
    if m > 0 {
        lemma_no_steps_up(s, m - 1);
        assert(s[m - 1] != seq!['.', '.']);
    }
}

/// The pieces of a name are the same whichever slash stands between them.
pub proof fn law_slashes_are_alike(pieces: Seq<Seq<char>>)
    requires
        pieces.len() > 0,
        forall|i: int, k: int|
            0 <= i < pieces.len() && 0 <= k < pieces[i].len() ==> #[trigger] pieces[i][k] != '/'
                && pieces[i][k] != '\\',
    ensures
        split(replaced(joined(pieces, '/'), '\\', '/'), '/') == pieces,
        split(replaced(joined(pieces, '\\'), '\\', '/'), '/') == pieces,
{
    assert forall|i: int, k: int|
        0 <= i < pieces.len() && 0 <= k < pieces[i].len() implies #[trigger] pieces[i][k] != '/' by {
        assert(pieces[i][k] != '/' && pieces[i][k] != '\\');
    }
    law_split_of_joined(pieces, '/');
    assert forall|i: int, k: int|
        0 <= i < pieces.len() && 0 <= k < pieces[i].len() implies #[trigger] pieces[i][k] != '\\' by {
        assert(pieces[i][k] != '/' && pieces[i][k] != '\\');
    }
    lemma_joined_replaced(pieces);
}

} // verus!
