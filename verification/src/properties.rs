//! Properties files: lines of `key = value`, with comments.

use crate::order::{law_name_order, name_at_most, name_le};
use crate::text::{
    chars_of, pieces_of, split, split_chars, split_once, split_once_chars, str_eq, string_of, trim,
    trim_chars,
};
use vstd::prelude::*;

verus! {

/// The key and value that a line states: nothing for comments, empty lines
/// and lines without an equals sign.
pub open spec fn stated(line: Seq<char>) -> Option<(Seq<char>, Seq<char>)> {
    let t = trim(line);
    if t.len() == 0 || t[0] == '#' {
        None
    } else {
        match split_once(t, '=') {
            Some(p) => Some((trim(p.0), trim(p.1))),
            None => None,
        }
    }
}

/// Reads one line.
pub fn read_line(line: &[char]) -> (r: Option<(String, String)>)
    ensures
        match r {
            Some(p) => stated(line@) == Some((p.0@, p.1@)),
            None => stated(line@) is None,
        },
{
    let t = trim_chars(line);
    if t.len() == 0 || t[0] == '#' {
        return None;
    }
    match split_once_chars(&t, '=') {
        Some((k, v)) => {
            let key = trim_chars(&k);
            let value = trim_chars(&v);
            Some((string_of(&key), string_of(&value)))
        },
        None => None,
    }
}

/// A map with the keys and values that the first `n` lines state; of equal
/// keys the last one counts.
pub open spec fn stated_by(lines: Seq<Seq<char>>, n: int) -> Map<Seq<char>, Seq<char>>
    decreases n,
{
    if n <= 0 {
        Map::empty()
    } else {
        match stated(lines[n - 1]) {
            Some(p) => stated_by(lines, n - 1).insert(p.0, p.1),
            None => stated_by(lines, n - 1),
        }
    }
}

/// The properties of a text.
pub open spec fn properties_in(text: Seq<char>) -> Map<Seq<char>, Seq<char>> {
    stated_by(split(text, '\n'), split(text, '\n').len() as int)
}

/// Properties, held in the order of their keys. Each key occurs once.
#[derive(Debug)]
pub struct Properties {
    pub entries: Vec<(String, String)>,
}

/// `a` stands before `b`.
pub open spec fn name_lt(a: Seq<char>, b: Seq<char>) -> bool {
    a != b && name_le(a, b)
}

proof fn lemma_name_order(a: Seq<char>, b: Seq<char>, c: Seq<char>)
    ensures
        name_le(a, b) || name_le(b, a),
        name_le(a, b) && name_le(b, a) ==> a == b,
        name_lt(a, b) && name_lt(b, c) ==> name_lt(a, c),
        name_lt(a, b) || name_lt(b, a) || a == b,
        !(name_lt(a, b) && name_lt(b, a)),
{
    law_name_order(a, b, c);
    law_name_order(b, a, c);
    if name_lt(a, b) && name_lt(b, c) && a == c {
        law_name_order(a, b, a);
    }
}

impl Properties {
    /// The keys rise.
    pub open spec fn wf(&self) -> bool {
        forall|i: int, j: int| #![trigger self.entries@[i], self.entries@[j]]
            0 <= i < j < self.entries.len() ==> name_lt(self.entries@[i].0@, self.entries@[j].0@)
    }

    /// Some entry has the key.
    pub open spec fn has(&self, key: Seq<char>) -> bool {
        exists|i: int| 0 <= i < self.entries.len() && (#[trigger] self.entries@[i]).0@ == key
    }

    pub open spec fn place(&self, key: Seq<char>) -> int {
        choose|i: int| 0 <= i < self.entries.len() && (#[trigger] self.entries@[i]).0@ == key
    }

    /// The properties as a map.
    pub open spec fn map(&self) -> Map<Seq<char>, Seq<char>> {
        Map::new(|k: Seq<char>| self.has(k), |k: Seq<char>| self.entries@[self.place(k)].1@)
    }

    proof fn lemma_entry(&self, i: int)
        requires
            self.wf(),
            0 <= i < self.entries.len(),
        ensures
            self.map().dom().contains(self.entries@[i].0@),
            self.map()[self.entries@[i].0@] == self.entries@[i].1@,
    {
        let key = self.entries@[i].0@;
        let j = self.place(key);
        if i < j {
            assert(name_lt(self.entries@[i].0@, self.entries@[j].0@));
        } else if j < i {
            assert(name_lt(self.entries@[j].0@, self.entries@[i].0@));
        }
    }

    /// No properties.
    pub fn new() -> (r: Properties)
        ensures
            r.wf(),
            r.map() == Map::<Seq<char>, Seq<char>>::empty(),
    {
        let r = Properties { entries: Vec::new() };
        assert(r.map() =~= Map::<Seq<char>, Seq<char>>::empty());
        r
    }

    /// The first position whose key is not before the given one.
    fn find(&self, key: &str) -> (r: usize)
        requires
            self.wf(),
        ensures
            r <= self.entries.len(),
            forall|k: int|
                0 <= k < r ==> name_lt((#[trigger] self.entries@[k]).0@, key@),
            r < self.entries.len() ==> !name_lt(self.entries@[r as int].0@, key@),
    {
        let mut i: usize = 0;
        while i < self.entries.len() && !str_eq(self.entries[i].0.as_str(), key) && name_at_most(
            self.entries[i].0.as_str(),
            key,
        )
            invariant
                i <= self.entries.len(),
                forall|k: int|
                    0 <= k < i ==> name_lt((#[trigger] self.entries@[k]).0@, key@),
            decreases self.entries.len() - i,
        {
            i += 1;
        }
        i
    }

    /// The value of a key.
    pub fn get(&self, key: &str) -> (r: Option<&String>)
        requires
            self.wf(),
        ensures
            match r {
                Some(v) => self.map().dom().contains(key@) && self.map()[key@] == v@,
                None => !self.map().dom().contains(key@),
            },
    {
        let i = self.find(key);
        if i < self.entries.len() && str_eq(self.entries[i].0.as_str(), key) {
            proof {
                self.lemma_entry(i as int);
            }
            Some(&self.entries[i].1)
        } else {
            proof {
                self.lemma_absent(key@, i as int);
            }
            None
        }
    }

    proof fn lemma_absent(&self, key: Seq<char>, i: int)
        requires
            self.wf(),
            0 <= i <= self.entries.len(),
            forall|k: int| 0 <= k < i ==> name_lt((#[trigger] self.entries@[k]).0@, key),
            i < self.entries.len() ==> name_lt(key, self.entries@[i].0@) || (!name_lt(
                self.entries@[i].0@,
                key,
            ) && self.entries@[i].0@ != key),
        ensures
            !self.has(key),
            forall|k: int|
                i <= k < self.entries.len() ==> name_lt(key, (#[trigger] self.entries@[k]).0@),
    {
        assert forall|k: int| i <= k < self.entries.len() implies name_lt(
            key,
            (#[trigger] self.entries@[k]).0@,
        ) by {
            lemma_name_order(key, self.entries@[i].0@, self.entries@[k].0@);
            if k > i {
                assert(name_lt(self.entries@[i].0@, self.entries@[k].0@));
            }
        }
        if self.has(key) {
            let p = self.place(key);
            if p < i {
                assert(name_lt(self.entries@[p].0@, key));
            } else {
                assert(name_lt(key, self.entries@[p].0@));
            }
        }
    }

    /// Sets a key to a value.
    pub fn put(&mut self, key: String, value: String)
        requires
            old(self).wf(),
        ensures
            final(self).wf(),
            final(self).map() == old(self).map().insert(key@, value@),
    {
        let ghost before = *self;
        let ghost m = self.map();
        let i = self.find(key.as_str());
        let ghost k = key@;
        let ghost v = value@;
        if i < self.entries.len() && str_eq(self.entries[i].0.as_str(), key.as_str()) {
            self.entries.set(i, (key, value));
            assert forall|a: int, b: int| #![trigger self.entries@[a], self.entries@[b]]
                0 <= a < b < self.entries.len() implies name_lt(
                self.entries@[a].0@,
                self.entries@[b].0@,
            ) by {
                assert(self.entries@[a].0@ == before.entries@[a].0@);
                assert(self.entries@[b].0@ == before.entries@[b].0@);
            }
            proof {
                lemma_replaced(before, *self, i as int, k, v);
            }
        } else {
            proof {
                self.lemma_absent(k, i as int);
            }
            self.entries.insert(i, (key, value));
            assert forall|a: int, b: int| #![trigger self.entries@[a], self.entries@[b]]
                0 <= a < b < self.entries.len() implies name_lt(
                self.entries@[a].0@,
                self.entries@[b].0@,
            ) by {
                let x = if a < i {
                    a
                } else {
                    a - 1
                };
                let y = if b < i {
                    b
                } else {
                    b - 1
                };
                if a != i {
                    assert(self.entries@[a] == before.entries@[x]);
                }
                if b != i {
                    assert(self.entries@[b] == before.entries@[y]);
                }
            }
            proof {
                lemma_inserted(before, *self, i as int, k, v);
            }
        }
    }

    /// A copy.
    pub fn copied(&self) -> (r: Properties)
        ensures
            r.entries@ == self.entries@,
    {
        Properties { entries: crate::text::copy_pairs(&self.entries) }
    }
}

proof fn lemma_replaced(before: Properties, after: Properties, i: int, k: Seq<char>, v: Seq<char>)
    requires
        before.wf(),
        after.wf(),
        0 <= i < before.entries.len(),
        after.entries.len() == before.entries.len(),
        before.entries@[i].0@ == k,
        after.entries@[i].0@ == k,
        after.entries@[i].1@ == v,
        forall|j: int|
            0 <= j < before.entries.len() && j != i ==> #[trigger] after.entries@[j]
                == before.entries@[j],
    ensures
        after.map() == before.map().insert(k, v),
{
    let m = before.map().insert(k, v);
    assert forall|q: Seq<char>| #[trigger] after.map().dom().contains(q) == m.dom().contains(q) by {
        if after.has(q) {
            let j = after.place(q);
            assert(before.entries@[j].0@ == q);
        }
        if before.has(q) {
            let j = before.place(q);
            assert(after.entries@[j].0@ == q);
        }
        assert(after.entries@[i].0@ == k);
    }
    assert forall|q: Seq<char>| #[trigger] after.map().dom().contains(q) implies after.map()[q]
        == m[q] by {
        let j = after.place(q);
        if j == i {
        } else {
            assert(after.entries@[j] == before.entries@[j]);
            before.lemma_entry(j);
            if q == k {
                after.lemma_entry(i);
            }
        }
    }
    assert(after.map() =~= m);
}

proof fn lemma_inserted(before: Properties, after: Properties, i: int, k: Seq<char>, v: Seq<char>)
    requires
        before.wf(),
        after.wf(),
        !before.has(k),
        0 <= i <= before.entries.len(),
        after.entries.len() == before.entries.len() + 1,
        after.entries@[i].0@ == k,
        after.entries@[i].1@ == v,
        forall|j: int| 0 <= j < i ==> #[trigger] after.entries@[j] == before.entries@[j],
        forall|j: int|
            i < j < after.entries.len() ==> #[trigger] after.entries@[j] == before.entries@[j - 1],
    ensures
        after.map() == before.map().insert(k, v),
{
    let m = before.map().insert(k, v);
    assert forall|q: Seq<char>| #[trigger] after.map().dom().contains(q) == m.dom().contains(q) by {
        if after.has(q) {
            let j = after.place(q);
            if j < i {
                assert(before.entries@[j].0@ == q);
            } else if j > i {
                assert(before.entries@[j - 1].0@ == q);
            }
        }
        if before.has(q) {
            let j = before.place(q);
            if j < i {
                assert(after.entries@[j].0@ == q);
            } else {
                assert(after.entries@[j + 1].0@ == q);
            }
        }
        assert(after.entries@[i].0@ == k);
    }
    assert forall|q: Seq<char>| #[trigger] after.map().dom().contains(q) implies after.map()[q]
        == m[q] by {
        let j = after.place(q);
        if j < i {
            assert(after.entries@[j] == before.entries@[j]);
            before.lemma_entry(j);
        } else if j > i {
            assert(after.entries@[j] == before.entries@[j - 1]);
            before.lemma_entry(j - 1);
        }
    }
    assert(after.map() =~= m);
}

/// Two lists of the same properties are the same list, as text.
pub proof fn law_properties_are_unique(a: Properties, b: Properties)
    requires
        a.wf(),
        b.wf(),
        a.map() == b.map(),
    ensures
        crate::text::pairs_of(a.entries@) == crate::text::pairs_of(b.entries@),
{
    lemma_prefix(a, b, a.entries.len() as int);
    lemma_prefix(b, a, b.entries.len() as int);
    let x = crate::text::pairs_of(a.entries@);
    let y = crate::text::pairs_of(b.entries@);
    assert(x =~= y);
}

proof fn lemma_prefix(a: Properties, b: Properties, n: int)
    requires
        a.wf(),
        b.wf(),
        a.map() == b.map(),
        0 <= n <= a.entries.len(),
    ensures
        n <= b.entries.len(),
        forall|i: int|
            0 <= i < n ==> (#[trigger] a.entries@[i]).0@ == b.entries@[i].0@ && a.entries@[i].1@
                == b.entries@[i].1@,
    decreases n,
{
    if n > 0 {
        let i = n - 1;
        lemma_prefix(a, b, i);
        let k = a.entries@[i].0@;
        a.lemma_entry(i);
        assert(b.map().dom().contains(k));
        let j = b.place(k);
        b.lemma_entry(j);
        if j < i {
            assert(a.entries@[j].0@ == b.entries@[j].0@);
            assert(name_lt(a.entries@[j].0@, a.entries@[i].0@));
            assert(false);
        }
        if j > i {
            let q = b.entries@[i].0@;
            b.lemma_entry(i);
            assert(a.map().dom().contains(q));
            let p = a.place(q);
            assert(name_lt(b.entries@[i].0@, b.entries@[j].0@));
            if p < i {
                assert(a.entries@[p].0@ == b.entries@[p].0@);
                assert(name_lt(b.entries@[p].0@, b.entries@[i].0@));
                assert(false);
            } else if p > i {
                assert(name_lt(a.entries@[i].0@, a.entries@[p].0@));
                lemma_name_order(k, q, k);
                assert(false);
            } else {
                assert(false);
            }
        }
    }
}

/// Reads a properties file.
pub fn parse_properties(text: &str) -> (r: Properties)
    ensures
        r.wf(),
        r.map() == properties_in(text@),
{
    let t = chars_of(text);
    let lines = split_chars(&t, '\n');
    let ghost all = pieces_of(lines@);
    let mut out = Properties::new();
    let mut n: usize = 0;
    while n < lines.len()
        invariant
            n <= lines.len(),
            all == pieces_of(lines@),
            out.wf(),
            out.map() == stated_by(all, n as int),
        decreases lines.len() - n,
    {
        assert(all[n as int] == lines@[n as int]@);
        match read_line(&lines[n]) {
            Some((k, v)) => {
                out.put(k, v);
            },
            None => {},
        }
        n += 1;
    }
    out
}

/// A line `key = value` states its key and value, without the white space
/// around each; the value may hold further equals signs.
pub proof fn law_lines_state_their_value(
    front: Seq<char>,
    key: Seq<char>,
    value: Seq<char>,
    back: Seq<char>,
)
    requires
        key.len() > 0 && !key.contains('=') && key[0] != '#',
        trim(key) == key,
        trim(value) == value,
        crate::text::white_space(key[0]) == false && crate::text::white_space(key.last()) == false,
        value.len() > 0 ==> !crate::text::white_space(value[0]) && !crate::text::white_space(
            value.last(),
        ),
        forall|i: int| 0 <= i < front.len() ==> crate::text::white_space(#[trigger] front[i]),
        forall|i: int| 0 <= i < back.len() ==> crate::text::white_space(#[trigger] back[i]),
    ensures
        stated(front + (key + seq!['='] + value) + back) == Some((key, value)),
        value.len() > 0 ==> stated(front + (key + seq![' ', '=', ' '] + value) + back) == Some(
            (key, value),
        ),
{
    let e = Seq::<char>::empty();
    let t = key + seq!['='] + value;
    assert(t[0] == key[0]);
    assert(value.len() > 0 ==> t.last() == value.last());
    assert(value.len() == 0 ==> t.last() == '=');
    crate::text::law_ascii_white_space('=');
    crate::text::law_trim_cuts_white_space(front, t, back);
    crate::text::law_first_separator_divides(key, value, '=');
    if value.len() > 0 {
        let u = key + seq![' ', '=', ' '] + value;
        assert(u[0] == key[0]);
        assert(u.last() == value.last());
        crate::text::law_trim_cuts_white_space(front, u, back);
        let (k, v) = (key + seq![' '], seq![' '] + value);
        assert(!k.contains('=')) by {
            assert forall|i: int| 0 <= i < k.len() implies k[i] != '=' by {
                if i < key.len() {
                    assert(key.contains(key[i]));
                }
            }
        }
        crate::text::law_first_separator_divides(k, v, '=');
        assert(u =~= k + seq!['='] + v);
        crate::text::law_trim_cuts_white_space(e, key, seq![' ']);
        assert(e + key + seq![' '] =~= k);
        crate::text::law_trim_cuts_white_space(seq![' '], value, e);
        assert(seq![' '] + value + e =~= v);
    }
}

/// Comments, empty lines and lines without an equals sign state nothing.
pub proof fn law_other_lines_state_nothing(front: Seq<char>, s: Seq<char>, back: Seq<char>)
    requires
        forall|i: int| 0 <= i < front.len() ==> crate::text::white_space(#[trigger] front[i]),
        forall|i: int| 0 <= i < back.len() ==> crate::text::white_space(#[trigger] back[i]),
        s.len() > 0 ==> !crate::text::white_space(s[0]) && !crate::text::white_space(s.last()),
    ensures
        s.len() == 0 ==> stated(front + s + back) is None,
        s.len() > 0 && s[0] == '#' ==> stated(front + s + back) is None,
        !s.contains('=') ==> stated(front + s + back) is None,
{
    crate::text::law_trim_cuts_white_space(front, s, back);
    if !s.contains('=') {
        crate::text::law_first_separator_divides(s, Seq::empty(), '=');
    }
}

/// The last line that states a key gives its value, and a key that no line
/// states has none.
pub proof fn law_last_line_counts(lines: Seq<Seq<char>>, n: int, key: Seq<char>, i: int)
    requires
        0 <= n <= lines.len(),
        -1 <= i < n,
        forall|j: int|
            i < j < n ==> !(stated(#[trigger] lines[j]) matches Some(p) && p.0 == key),
        i >= 0 ==> (stated(lines[i]) matches Some(p) && p.0 == key),
    ensures
        stated_by(lines, n).dom().contains(key) == (i >= 0),
        i >= 0 ==> (stated(lines[i]) matches Some(p) && stated_by(lines, n)[key] == p.1),
    decreases n,
{
    if n > 0 && i < n - 1 {
        assert(!(stated(lines[n - 1]) matches Some(p) && p.0 == key));
        law_last_line_counts(lines, n - 1, key, i);
    }
}

/// A further line of a text adds what it states to what the text states.
pub proof fn law_lines_add_up(text: Seq<char>, line: Seq<char>)
    requires
        !line.contains('\n'),
    ensures
        stated(line) matches Some(p) ==> properties_in(text.push('\n') + line) == properties_in(
            text,
        ).insert(p.0, p.1),
        stated(line) is None ==> properties_in(text.push('\n') + line) == properties_in(text),
{
    crate::paths::law_separators_divide(text, line, '\n');
    let lines = split(text, '\n');
    let all = lines.push(line);
    lemma_stated_by_front(lines, line, lines.len() as int);
    assert(all[all.len() - 1] == line);
}

proof fn lemma_stated_by_front(lines: Seq<Seq<char>>, line: Seq<char>, n: int)
    requires
        0 <= n <= lines.len(),
    ensures
        stated_by(lines.push(line), n) == stated_by(lines, n),
    decreases n,
{
    if n > 0 {
        lemma_stated_by_front(lines, line, n - 1);
        assert(lines.push(line)[n - 1] == lines[n - 1]);
    }
}

} // verus!
