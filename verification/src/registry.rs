//! Block registry: compiled blocks by name and id, state packing, and the
//! choice of models for a state.

use crate::blockstates::{Angle, ModelInstance, Occlusion, Predicate, Props, VariantRot};
use crate::compiled::{
    find_pair, sprite_id_spec, vanilla_shade, CompiledAppearance, CompiledPack, RuntimeAnim,
    RuntimeModel, RuntimeState,
};
use crate::models::{ModelId, SpriteId};
use crate::scalar::F32;
use crate::text::{find_name, index_of_name, lemma_index_of_name, names_of, pairs_of, str_eq};
use vstd::prelude::*;

verus! {

/// One block state in the registry.
#[derive(Debug)]
pub struct StateEntry {
    pub appearance: CompiledAppearance,
    pub occlusion: Occlusion,
    /// Same-kind face culling, as in the compiled state.
    pub same_block_cull: bool,
}

/// One block in the registry.
#[derive(Debug)]
pub struct BlockDef {
    pub name: String,
    /// Property schema: (property name, possible values).
    pub schema: Vec<(String, Vec<String>)>,
    /// One per state; state id = packed property index (schema order).
    pub states: Vec<StateEntry>,
}

/// A property schema: each property with its values.
pub type Schema = Seq<(Seq<char>, Seq<Seq<char>>)>;

pub open spec fn schema_of(v: Seq<(String, Vec<String>)>) -> Schema {
    Seq::new(v.len(), |i: int| (v[i].0@, names_of(v[i].1@)))
}

/// The number of digits of a property: one where it has no value.
pub open spec fn radix(values: Seq<Seq<char>>) -> int {
    if values.len() == 0 {
        1
    } else {
        values.len() as int
    }
}

/// The number of packed states of a schema.
pub open spec fn state_count(schema: Schema) -> int
    decreases schema.len(),
{
    if schema.len() == 0 {
        1
    } else {
        radix(schema[0].1) * state_count(schema.skip(1))
    }
}

/// The value that an assignment gives to a property: that of its first entry.
pub open spec fn assigned(props: Props, name: Seq<char>) -> Option<Seq<char>>
    decreases props.len(),
{
    if props.len() == 0 {
        None
    } else if props[0].0 == name {
        Some(props[0].1)
    } else {
        assigned(props.skip(1), name)
    }
}

/// The digit of a property: the position of its assigned value, 0 where the
/// property is unassigned or the value is not among the property's values.
pub open spec fn digit(props: Props, name: Seq<char>, values: Seq<Seq<char>>) -> int {
    match assigned(props, name) {
        Some(v) => {
            let i = index_of_name(values, v);
            if i < values.len() {
                i
            } else {
                0
            }
        },
        None => 0,
    }
}

/// The state id of an assignment: the first property is the lowest digit.
pub open spec fn packed(schema: Schema, props: Props) -> int
    decreases schema.len(),
{
    if schema.len() == 0 {
        0
    } else {
        digit(props, schema[0].0, schema[0].1) + radix(schema[0].1) * packed(schema.skip(1), props)
    }
}

/// The assignment of a state id.
pub open spec fn unpacked(schema: Schema, id: int) -> Props
    decreases schema.len(),
{
    if schema.len() == 0 {
        Seq::empty()
    } else {
        let n = radix(schema[0].1);
        let value = if id % n < schema[0].1.len() {
            schema[0].1[id % n]
        } else {
            Seq::empty()
        };
        seq![(schema[0].0, value)] + unpacked(schema.skip(1), id / n)
    }
}

pub proof fn lemma_index_of_name_bounds(v: Seq<Seq<char>>, s: Seq<char>)
    ensures
        0 <= index_of_name(v, s) <= v.len(),
        index_of_name(v, s) < v.len() ==> v[index_of_name(v, s)] == s,
    decreases v.len(),
{
    if v.len() > 0 && v[0] != s {
        lemma_index_of_name_bounds(v.skip(1), s);
    }
}

pub proof fn lemma_state_count_positive(schema: Schema)
    ensures
        state_count(schema) >= 1,
    decreases schema.len(),
{
    if schema.len() > 0 {
        lemma_state_count_positive(schema.skip(1));
        let a = radix(schema[0].1);
        let b = state_count(schema.skip(1));
        assert(a * b >= 1) by (nonlinear_arith)
            requires
                a >= 1,
                b >= 1,
        ;
    }
}

/// A state id lies below the number of states.
pub proof fn law_packed_in_range(schema: Schema, props: Props)
    ensures
        0 <= packed(schema, props) < state_count(schema),
    decreases schema.len(),
{
    if schema.len() > 0 {
        law_packed_in_range(schema.skip(1), props);
        if let Some(v) = assigned(props, schema[0].0) {
            lemma_index_of_name_bounds(schema[0].1, v);
        }
        let d = digit(props, schema[0].0, schema[0].1);
        let n = radix(schema[0].1);
        let rest = packed(schema.skip(1), props);
        let count = state_count(schema.skip(1));
        assert(0 <= d < n);
        assert(0 <= d + n * rest < n * count) by (nonlinear_arith)
            requires
                0 <= d < n,
                0 <= rest < count,
        ;
    }
}

/// Property names are distinct, and each property has distinct values, at
/// least one.
pub open spec fn schema_wf(schema: Schema) -> bool {
    &&& forall|i: int, j: int|
        0 <= i < j < schema.len() ==> (#[trigger] schema[i]).0 != (#[trigger] schema[j]).0
    &&& forall|i: int| 0 <= i < schema.len() ==> (#[trigger] schema[i]).1.len() > 0
    &&& forall|i: int| 0 <= i < schema.len() ==> (#[trigger] schema[i]).1.no_duplicates()
}

/// `packed` reads only what the assignment says of the schema's properties.
proof fn lemma_packed_agrees(schema: Schema, a: Props, b: Props)
    requires
        forall|i: int|
            0 <= i < schema.len() ==> assigned(a, (#[trigger] schema[i]).0) == assigned(
                b,
                schema[i].0,
            ),
    ensures
        packed(schema, a) == packed(schema, b),
    decreases schema.len(),
{
    if schema.len() > 0 {
        let rest = schema.skip(1);
        assert forall|i: int| 0 <= i < rest.len() implies assigned(a, (#[trigger] rest[i]).0)
            == assigned(b, rest[i].0) by {
            assert(rest[i] == schema[i + 1]);
        }
        lemma_packed_agrees(rest, a, b);
        assert(assigned(a, schema[0].0) == assigned(b, schema[0].0));
    }
}

/// Packing undoes unpacking.
pub proof fn law_pack_unpack(schema: Schema, id: int)
    requires
        schema_wf(schema),
        0 <= id < state_count(schema),
    ensures
        packed(schema, unpacked(schema, id)) == id,
    decreases schema.len(),
{
    if schema.len() > 0 {
        let rest = schema.skip(1);
        let n = radix(schema[0].1);
        let all = unpacked(schema, id);
        let tail = unpacked(rest, id / n);
        let count = state_count(rest);
        assert(schema_wf(rest)) by {
            assert forall|i: int, j: int| 0 <= i < j < rest.len() implies (#[trigger] rest[i]).0
                != (#[trigger] rest[j]).0 by {
                assert(rest[i] == schema[i + 1] && rest[j] == schema[j + 1]);
            }
            assert forall|i: int| 0 <= i < rest.len() implies (#[trigger] rest[i]).1.len() > 0 by {
                assert(rest[i] == schema[i + 1]);
            }
            assert forall|i: int| 0 <= i < rest.len() implies (
            #[trigger] rest[i]).1.no_duplicates() by {
                assert(rest[i] == schema[i + 1]);
            }
        }
        assert(schema[0].1.len() > 0);
        assert(0 <= id % n < n && id == n * (id / n) + id % n && 0 <= id / n < count)
            by (nonlinear_arith)
            requires
                n >= 1,
                0 <= id < n * count,
        ;
        law_pack_unpack(rest, id / n);
        assert(all[0].0 == schema[0].0);
        assert(all.skip(1) == tail);
        assert(schema[0].1.no_duplicates());
        lemma_index_of_name(schema[0].1, schema[0].1[id % n], id % n);
        assert(digit(all, schema[0].0, schema[0].1) == id % n);
        assert forall|i: int| 0 <= i < rest.len() implies assigned(all, (#[trigger] rest[i]).0)
            == assigned(tail, rest[i].0) by {
            assert(rest[i] == schema[i + 1]);
            assert(schema[0].0 != schema[i + 1].0);
        }
        lemma_packed_agrees(rest, all, tail);
    }
}

/// Unpacking undoes packing: an id unpacks to the assigned value of every
/// property that is assigned one of its own values.
pub proof fn law_unpack_pack(schema: Schema, props: Props, i: int)
    requires
        schema_wf(schema),
        0 <= i < schema.len(),
        assigned(props, schema[i].0) is Some,
        schema[i].1.contains(assigned(props, schema[i].0)->0),
    ensures
        unpacked(schema, packed(schema, props)).len() == schema.len(),
        unpacked(schema, packed(schema, props))[i] == (
            schema[i].0,
            assigned(props, schema[i].0)->0,
        ),
{
    lemma_unpack_pack(schema, props, i);
}

proof fn lemma_unpack_pack(schema: Schema, props: Props, i: int)
    requires
        forall|k: int| 0 <= k < schema.len() ==> (#[trigger] schema[k]).1.len() > 0,
        0 <= i < schema.len(),
        assigned(props, schema[i].0) is Some,
        schema[i].1.contains(assigned(props, schema[i].0)->0),
    ensures
        unpacked(schema, packed(schema, props)).len() == schema.len(),
        unpacked(schema, packed(schema, props))[i] == (
            schema[i].0,
            assigned(props, schema[i].0)->0,
        ),
    decreases schema.len(),
{
    let rest = schema.skip(1);
    let n = radix(schema[0].1);
    let d = digit(props, schema[0].0, schema[0].1);
    let high = packed(rest, props);
    let id = packed(schema, props);
    assert(schema[0].1.len() > 0);
    if let Some(v) = assigned(props, schema[0].0) {
        lemma_index_of_name_bounds(schema[0].1, v);
    }
    law_packed_in_range(rest, props);
    assert(id % n == d && id / n == high) by (nonlinear_arith)
        requires
            id == d + n * high,
            0 <= d < n,
            high >= 0,
    ;
    lemma_unpacked_len(rest, high);
    if i == 0 {
        let v = assigned(props, schema[0].0)->0;
        let p = schema[0].1.index_of(v);
        lemma_index_of_name_found(schema[0].1, v, p);
    } else {
        assert(rest[i - 1] == schema[i]);
        assert forall|k: int| 0 <= k < rest.len() implies (#[trigger] rest[k]).1.len() > 0 by {
            assert(rest[k] == schema[k + 1]);
        }
        lemma_unpack_pack(rest, props, i - 1);
    }
}

pub proof fn lemma_unpacked_len(schema: Schema, id: int)
    ensures
        unpacked(schema, id).len() == schema.len(),
    decreases schema.len(),
{
    if schema.len() > 0 {
        lemma_unpacked_len(schema.skip(1), id / radix(schema[0].1));
    }
}

proof fn lemma_index_of_name_found(v: Seq<Seq<char>>, s: Seq<char>, p: int)
    requires
        0 <= p < v.len(),
        v[p] == s,
    ensures
        index_of_name(v, s) < v.len(),
        v[index_of_name(v, s)] == s,
    decreases v.len(),
{
    if v[0] != s {
        assert(v.skip(1)[p - 1] == s);
        lemma_index_of_name_found(v.skip(1), s, p - 1);
    }
    lemma_index_of_name_bounds(v, s);
}

/// The value that an assignment gives to a property.
fn assigned_value<'a>(props: &'a [(String, String)], name: &str) -> (r: Option<&'a String>)
    ensures
        match r {
            Some(v) => assigned(pairs_of(props@), name@) == Some(v@),
            None => assigned(pairs_of(props@), name@) is None,
        },
{
    let ghost pp = pairs_of(props@);
    let mut i: usize = 0;
    assert(pp.skip(0) == pp);
    while i < props.len()
        invariant
            i <= props.len(),
            pp == pairs_of(props@),
            assigned(pp, name@) == assigned(pp.skip(i as int), name@),
        decreases props.len() - i,
    {
        assert(pp.skip(i as int)[0] == (props@[i as int].0@, props@[i as int].1@));
        if str_eq(props[i].0.as_str(), name) {
            return Some(&props[i].1);
        }
        assert(pp.skip(i as int).skip(1) == pp.skip(i + 1));
        i += 1;
    }
    None
}

/// The assignment of a state id.
pub fn unpack_assignment(properties: &[(String, Vec<String>)], id: u32) -> (r: Vec<(String, String)>)
    ensures
        pairs_of(r@) == unpacked(schema_of(properties@), id as int),
{
    let ghost schema = schema_of(properties@);
    let mut rest_id: usize = id as usize;
    let mut out: Vec<(String, String)> = Vec::new();
    let mut i: usize = 0;
    assert(schema.skip(0) == schema);
    assert(pairs_of(out@) + unpacked(schema, id as int) == unpacked(schema, id as int));
    while i < properties.len()
        invariant
            i <= properties.len(),
            schema == schema_of(properties@),
            pairs_of(out@) + unpacked(schema.skip(i as int), rest_id as int) == unpacked(
                schema,
                id as int,
            ),
        decreases properties.len() - i,
    {
        let ghost before = pairs_of(out@);
        let ghost rest = schema.skip(i as int);
        let values = &properties[i].1;
        assert(rest[0] == (properties@[i as int].0@, names_of(values@)));
        assert(rest.skip(1) == schema.skip(i + 1));
        let n: usize = if values.len() == 0 { 1 } else { values.len() };
        let idx: usize = rest_id % n;
        let ghost tail = unpacked(rest.skip(1), rest_id as int / n as int);
        let value: String = if idx < values.len() { values[idx].clone() } else { String::new() };
        let ghost pair = (properties@[i as int].0@, value@);
        assert(unpacked(rest, rest_id as int) == seq![pair] + tail);
        out.push((properties[i].0.clone(), value));
        assert(pairs_of(out@) == before.push(pair));
        assert(before.push(pair) + tail == before + (seq![pair] + tail));
        rest_id = rest_id / n;
        i += 1;
    }
    assert(unpacked(schema.skip(schema.len() as int), rest_id as int).len() == 0);
    assert(pairs_of(out@) + unpacked(schema.skip(schema.len() as int), rest_id as int)
        == pairs_of(out@));
    out
}

impl BlockDef {
    /// The schema as sequences of characters.
    pub open spec fn schema_spec(&self) -> Schema {
        schema_of(self.schema@)
    }

    /// Packs a (property, value) assignment into a state id. A property that
    /// is not assigned takes its first value.
    pub fn pack_state(&self, props: &[(String, String)]) -> (r: u32)
        requires
            state_count(self.schema_spec()) <= u32::MAX,
        ensures
            r == packed(self.schema_spec(), pairs_of(props@)),
    {
        let ghost schema = self.schema_spec();
        let ghost pp = pairs_of(props@);
        let mut id: u32 = 0;
        let mut multiplier: u32 = 1;
        let mut i: usize = 0;
        assert(schema.skip(0) == schema);
        proof {
            law_packed_in_range(schema, pp);
        }
        while i < self.schema.len()
            invariant
                i <= self.schema.len(),
                schema == self.schema_spec(),
                pp == pairs_of(props@),
                state_count(schema) <= u32::MAX,
                multiplier >= 1,
                multiplier * state_count(schema.skip(i as int)) == state_count(schema),
                id + multiplier * packed(schema.skip(i as int), pp) == packed(schema, pp),
                packed(schema, pp) < state_count(schema),
            decreases self.schema.len() - i,
        {
            let ghost rest = schema.skip(i as int);
            let ghost tail = schema.skip(i + 1);
            let values = &self.schema[i].1;
            assert(rest[0] == (self.schema@[i as int].0@, names_of(values@)));
            assert(rest.skip(1) == tail);
            let ghost n = radix(rest[0].1);
            let ghost d = digit(pp, rest[0].0, rest[0].1);
            let mut idx: usize = 0;
            if let Some(v) = assigned_value(props, self.schema[i].0.as_str()) {
                let k = find_name(values, v.as_str());
                if k < values.len() {
                    idx = k;
                }
            }
            assert(idx == d);
            let len: usize = if values.len() == 0 { 1 } else { values.len() };
            assert(len == n);
            proof {
                law_packed_in_range(tail, pp);
                lemma_state_count_positive(tail);
                let m = multiplier as int;
                let c = state_count(tail);
                let t = packed(tail, pp);
                assert(m * n <= m * (n * c) && m * (n * c) == (m * n) * c && d * m <= m * n - m
                    && m * (d + n * t) == d * m + (m * n) * t && n <= m * n && 0 <= d * m && 0 <= (
                m * n) * t) by (nonlinear_arith)
                    requires
                        m >= 1,
                        n >= 1,
                        c >= 1,
                        0 <= d < n,
                        t >= 0,
                ;
            }
            id = id + (idx as u32) * multiplier;
            multiplier = multiplier * (len as u32);
            i += 1;
        }
        id
    }

    /// Unpacks a state id back into property assignments.
    pub fn unpack_state(&self, id: u32) -> (r: Vec<(String, String)>)
        ensures
            pairs_of(r@) == unpacked(self.schema_spec(), id as int),
    {
        unpack_assignment(&self.schema, id)
    }

    pub fn state(&self, id: u32) -> (r: Option<&StateEntry>)
        ensures
            match r {
                Some(s) => id < self.states.len() && *s == self.states@[id as int],
                None => id >= self.states.len(),
            },
    {
        if (id as usize) < self.states.len() {
            Some(&self.states[id as usize])
        } else {
            None
        }
    }
}

/// Animation data of one sprite: sprite id, frame time, playback order,
/// strip rows, interpolation.
pub type AnimRow = (u32, u32, Vec<u16>, u32, bool);

/// The block registry. Holds the compiled models for direct lookup.
#[derive(Debug)]
pub struct Registry {
    pub blocks: Vec<BlockDef>,
    pub sprite_names: Vec<(String, String)>,
    pub face_shade: [F32; 6],
    pub models: Vec<RuntimeModel>,
    pub anims: Vec<AnimRow>,
}

/// The state entry of a compiled state.
pub open spec fn entry_of(s: RuntimeState) -> StateEntry {
    StateEntry {
        appearance: s.appearance,
        occlusion: s.occlusion,
        same_block_cull: s.same_block_cull,
    }
}

/// The animation row of a compiled animation.
pub open spec fn anim_row_of(a: RuntimeAnim) -> AnimRow {
    (a.sprite.0, a.frametime, a.frames, a.strip_frames, a.interpolate)
}

/// The position of the last block with a name, -1 where there is none.
pub open spec fn last_named(blocks: Seq<BlockDef>, name: Seq<char>) -> int
    decreases blocks.len(),
{
    if blocks.len() == 0 {
        -1
    } else if blocks.last().name@ == name {
        blocks.len() - 1
    } else {
        last_named(blocks.drop_last(), name)
    }
}

pub proof fn lemma_last_named(blocks: Seq<BlockDef>, name: Seq<char>, i: int)
    requires
        -1 <= i < blocks.len(),
        forall|k: int| i < k < blocks.len() ==> (#[trigger] blocks[k]).name@ != name,
        i >= 0 ==> blocks[i].name@ == name,
    ensures
        last_named(blocks, name) == i,
    decreases blocks.len(),
{
    if blocks.len() > 0 && i < blocks.len() - 1 {
        assert(blocks.last().name@ != name);
        lemma_last_named(blocks.drop_last(), name, i);
    }
}

fn state_entries(states: Vec<RuntimeState>) -> (r: Vec<StateEntry>)
    ensures
        r.len() == states.len(),
        forall|i: int| 0 <= i < r.len() ==> #[trigger] r@[i] == entry_of(states@[i]),
{
    let mut out: Vec<StateEntry> = Vec::new();
    for s in it: states
        invariant
            it.seq() == states@,
            out.len() == it.index(),
            forall|i: int| 0 <= i < out.len() ==> #[trigger] out@[i] == entry_of(it.seq()[i]),
    {
        out.push(
            StateEntry {
                appearance: s.appearance,
                occlusion: s.occlusion,
                same_block_cull: s.same_block_cull,
            },
        );
    }
    out
}

impl Registry {
    /// The block of an id: ids start at 1, and 0 is air.
    pub open spec fn block_at(&self, id: u32) -> Option<BlockDef> {
        if 1 <= id <= self.blocks.len() {
            Some(self.blocks@[id - 1])
        } else {
            None
        }
    }

    /// The state entry of a block id and state id.
    pub open spec fn state_at(&self, id: u32, state: u32) -> Option<StateEntry> {
        match self.block_at(id) {
            Some(b) => if state < b.states.len() {
                Some(b.states@[state as int])
            } else {
                None
            },
            None => None,
        }
    }

    /// The id of a name: that of the last block which bears it.
    pub open spec fn id_of(&self, name: Seq<char>) -> Option<u32> {
        let i = last_named(self.blocks@, name);
        if i >= 0 {
            Some((i + 1) as u32)
        } else {
            None
        }
    }

    /// Builds the registry from the compiled pack. Block ids are 1-based: id 0
    /// is reserved for air.
    pub fn from_compiled(pack: CompiledPack) -> (r: Registry)
        ensures
            r.blocks.len() == pack.blocks.len(),
            forall|i: int| #![trigger r.blocks@[i]]
                0 <= i < r.blocks.len() ==> {
                    &&& r.blocks@[i].name == pack.blocks@[i].name
                    &&& r.blocks@[i].schema == pack.blocks@[i].schema
                    &&& r.blocks@[i].states.len() == pack.blocks@[i].states.len()
                    &&& forall|k: int|
                        0 <= k < r.blocks@[i].states.len() ==> #[trigger] r.blocks@[i].states@[k]
                            == entry_of(pack.blocks@[i].states@[k])
                },
            r.sprite_names == pack.sprite_names,
            r.face_shade == pack.face_shade,
            r.models == pack.models,
            r.anims.len() == pack.animations.len(),
            forall|i: int|
                0 <= i < r.anims.len() ==> #[trigger] r.anims@[i] == anim_row_of(
                    pack.animations@[i],
                ),
    {
        let CompiledPack { sprite_names, models, blocks: raw, animations, face_shade } = pack;
        let mut blocks: Vec<BlockDef> = Vec::new();
        for b in it: raw
            invariant
                it.seq() == raw@,
                blocks.len() == it.index(),
                forall|i: int| #![trigger blocks@[i]]
                    0 <= i < blocks.len() ==> {
                        &&& blocks@[i].name == it.seq()[i].name
                        &&& blocks@[i].schema == it.seq()[i].schema
                        &&& blocks@[i].states.len() == it.seq()[i].states.len()
                        &&& forall|k: int|
                            0 <= k < blocks@[i].states.len() ==> #[trigger] blocks@[i].states@[k]
                                == entry_of(it.seq()[i].states@[k])
                    },
        {
            let states = state_entries(b.states);
            blocks.push(BlockDef { name: b.name, schema: b.schema, states });
        }
        let mut anims: Vec<AnimRow> = Vec::new();
        for a in it: animations
            invariant
                it.seq() == animations@,
                anims.len() == it.index(),
                forall|i: int|
                    0 <= i < anims.len() ==> #[trigger] anims@[i] == anim_row_of(it.seq()[i]),
        {
            anims.push((a.sprite.0, a.frametime, a.frames, a.strip_frames, a.interpolate));
        }
        Registry { blocks, sprite_names, face_shade, models, anims }
    }

    fn last_index(&self, name: &str) -> (r: Option<usize>)
        ensures
            match r {
                Some(i) => i < self.blocks.len() && i == last_named(self.blocks@, name@)
                    && self.blocks@[i as int].name@ == name@,
                None => last_named(self.blocks@, name@) == -1,
            },
    {
        let mut i: usize = self.blocks.len();
        while i > 0
            invariant
                i <= self.blocks.len(),
                forall|k: int|
                    i <= k < self.blocks.len() ==> (#[trigger] self.blocks@[k]).name@ != name@,
            decreases i,
        {
            if str_eq(self.blocks[i - 1].name.as_str(), name) {
                proof {
                    lemma_last_named(self.blocks@, name@, i - 1);
                }
                return Some(i - 1);
            }
            i -= 1;
        }
        proof {
            lemma_last_named(self.blocks@, name@, -1);
        }
        None
    }

    pub fn block(&self, name: &str) -> (r: Option<&BlockDef>)
        ensures
            match r {
                Some(b) => last_named(self.blocks@, name@) >= 0 && *b == self.blocks@[last_named(
                    self.blocks@,
                    name@,
                )],
                None => last_named(self.blocks@, name@) == -1,
            },
    {
        match self.last_index(name) {
            Some(i) => Some(&self.blocks[i]),
            None => None,
        }
    }

    pub fn block_id(&self, name: &str) -> (r: Option<u32>)
        requires
            self.blocks.len() < u32::MAX,
        ensures
            r == self.id_of(name@),
            r matches Some(id) ==> self.block_at(id) matches Some(b) && b.name@ == name@,
    {
        match self.last_index(name) {
            Some(i) => Some((i + 1) as u32),
            None => None,
        }
    }

    pub fn block_by_id(&self, id: u32) -> (r: Option<&BlockDef>)
        ensures
            match r {
                Some(b) => self.block_at(id) == Some(*b),
                None => self.block_at(id) is None,
            },
    {
        if id == 0 {
            return None;
        }
        let i: usize = (id - 1) as usize;
        if i < self.blocks.len() {
            Some(&self.blocks[i])
        } else {
            None
        }
    }

    /// Model table lookup.
    pub fn model(&self, id: ModelId) -> (r: Option<&RuntimeModel>)
        ensures
            match r {
                Some(m) => id.0 < self.models.len() && *m == self.models@[id.0 as int],
                None => id.0 >= self.models.len(),
            },
    {
        if (id.0 as usize) < self.models.len() {
            Some(&self.models[id.0 as usize])
        } else {
            None
        }
    }

    /// First model of a block state. For variant and multipart appearances
    /// this is the first model of the first entry.
    pub fn model_of(&self, block: &str, state: u32) -> (r: Option<&RuntimeModel>)
        ensures
            match r {
                Some(m) => self.model_of_spec(block@, state) == Some(*m),
                None => self.model_of_spec(block@, state) is None,
            },
    {
        match self.block(block) {
            None => None,
            Some(b) => match b.state(state) {
                None => None,
                Some(s) => match first_instance(&s.appearance) {
                    None => None,
                    Some(mi) => self.model(mi.model),
                },
            },
        }
    }

    pub open spec fn model_of_spec(&self, block: Seq<char>, state: u32) -> Option<RuntimeModel> {
        let i = last_named(self.blocks@, block);
        if i < 0 || state >= self.blocks@[i].states.len() {
            None
        } else {
            match first_instance_spec(self.blocks@[i].states@[state as int].appearance) {
                Some(mi) => if mi.model.0 < self.models.len() {
                    Some(self.models@[mi.model.0 as int])
                } else {
                    None
                },
                None => None,
            }
        }
    }

    /// The position of a sprite's first animation row; the number of rows
    /// where it has none.
    pub open spec fn anim_index(&self, sprite: SpriteId) -> int {
        anim_pos(self.anims@, sprite.0)
    }

    fn find_anim(&self, sprite: SpriteId) -> (r: usize)
        ensures
            r == self.anim_index(sprite),
            r <= self.anims.len(),
    {
        let mut i: usize = 0;
        while i < self.anims.len() && self.anims[i].0 != sprite.0
            invariant
                i <= self.anims.len(),
                forall|k: int| 0 <= k < i ==> (#[trigger] self.anims@[k]).0 != sprite.0,
            decreases self.anims.len() - i,
        {
            i += 1;
        }
        proof {
            lemma_anim_pos(self.anims@, sprite.0, i as int);
        }
        i
    }

    /// Render slot of an animated sprite: its animation row plus 1, for the
    /// first 255 rows. Slot 0 stands for static sprites.
    pub fn anim_slot(&self, sprite: SpriteId) -> (r: Option<u8>)
        ensures
            r == (if self.anim_index(sprite) < self.anims.len() && self.anim_index(sprite) < 255 {
                Some((self.anim_index(sprite) + 1) as u8)
            } else {
                None
            }),
    {
        let i = self.find_anim(sprite);
        if i < self.anims.len() && i < 255 {
            Some((i + 1) as u8)
        } else {
            None
        }
    }

    /// Sprite id by interned name.
    pub fn sprite_id_by_name(&self, ns: &str, name: &str) -> (r: Option<SpriteId>)
        ensures
            r == sprite_id_spec(self.sprite_names@, ns@, name@),
    {
        let i = find_pair(&self.sprite_names, ns, name);
        if i < self.sprite_names.len() {
            #[verifier::truncate]
            let id: u32 = i as u32;
            Some(SpriteId(id))
        } else {
            None
        }
    }

    /// Animation frame count of a sprite (`None` = not animated): the length
    /// of the playback order, or the strip rows where there is no order.
    pub fn anim_frames(&self, sprite: SpriteId) -> (r: Option<u32>)
        ensures
            r == (if self.anim_index(sprite) < self.anims.len() {
                let row = self.anims@[self.anim_index(sprite)];
                Some(
                    if row.2.len() == 0 {
                        row.3
                    } else {
                        row.2.len() as u32
                    },
                )
            } else {
                None
            }),
    {
        let i = self.find_anim(sprite);
        if i < self.anims.len() {
            if self.anims[i].2.len() == 0 {
                Some(self.anims[i].3)
            } else {
                #[verifier::truncate]
                let n: u32 = self.anims[i].2.len() as u32;
                Some(n)
            }
        } else {
            None
        }
    }

    pub fn anims(&self) -> (r: &[AnimRow])
        ensures
            r@ == self.anims@,
    {
        &self.anims
    }

    pub fn sprite_names(&self) -> (r: &[(String, String)])
        ensures
            r@ == self.sprite_names@,
    {
        &self.sprite_names
    }

    pub fn face_shade(&self) -> (r: &[F32; 6])
        ensures
            *r == self.face_shade,
    {
        &self.face_shade
    }

    /// A registry of plain one-state blocks: every name becomes a fully
    /// occluding block, unless it is one of the known transparent ones.
    pub fn from_names_for_tests(names: &[&str]) -> (r: Registry)
        ensures
            r.blocks.len() == names.len(),
            forall|i: int| #![trigger r.blocks@[i]]
                0 <= i < names.len() ==> {
                    &&& r.blocks@[i].name@ == names@[i]@
                    &&& r.blocks@[i].schema.len() == 0
                    &&& r.blocks@[i].states.len() == 1
                    &&& r.blocks@[i].states@[0].occlusion == (if known_transparent(names@[i]@) {
                        Occlusion::Never
                    } else {
                        Occlusion::Full
                    })
                    &&& !r.blocks@[i].states@[0].same_block_cull
                    &&& r.blocks@[i].states@[0].appearance matches CompiledAppearance::Static(m)
                        && m.len() == 0
                },
            r.sprite_names.len() == 0,
            r.models.len() == 0,
            r.anims.len() == 0,
            r.face_shade@ == vanilla_shade(),
    {
        let mut blocks: Vec<BlockDef> = Vec::new();
        let mut i: usize = 0;
        while i < names.len()
            invariant
                i <= names.len(),
                blocks.len() == i,
                forall|i: int| #![trigger blocks@[i]]
                    0 <= i < blocks.len() ==> {
                        &&& blocks@[i].name@ == names@[i]@
                        &&& blocks@[i].schema.len() == 0
                        &&& blocks@[i].states.len() == 1
                        &&& blocks@[i].states@[0].occlusion == (if known_transparent(names@[i]@) {
                            Occlusion::Never
                        } else {
                            Occlusion::Full
                        })
                        &&& !blocks@[i].states@[0].same_block_cull
                        &&& blocks@[i].states@[0].appearance matches CompiledAppearance::Static(m)
                            && m.len() == 0
                    },
            decreases names.len() - i,
        {
            let occlusion = if is_known_transparent(names[i]) {
                Occlusion::Never
            } else {
                Occlusion::Full
            };
            let mut states: Vec<StateEntry> = Vec::new();
            states.push(
                StateEntry {
                    appearance: CompiledAppearance::Static(Vec::new()),
                    occlusion,
                    same_block_cull: false,
                },
            );
            blocks.push(BlockDef { name: names[i].to_owned(), schema: Vec::new(), states });
            i += 1;
        }
        Registry {
            blocks,
            sprite_names: Vec::new(),
            face_shade: CompiledPack::vanilla_face_shade(),
            models: Vec::new(),
            anims: Vec::new(),
        }
    }
}

/// Names of blocks that let light through and hide no neighbor: glass,
/// plants, rails, torches and fluids.
pub open spec fn known_transparent(name: Seq<char>) -> bool {
    name == "glass"@ || name == "torch"@ || name == "rail"@ || name == "short_grass"@ || name
        == "vine"@ || name == "redstone_wire"@ || name == "water"@
}

fn is_known_transparent(name: &str) -> (r: bool)
    ensures
        r == known_transparent(name@),
{
    str_eq(name, "glass") || str_eq(name, "torch") || str_eq(name, "rail") || str_eq(
        name,
        "short_grass",
    ) || str_eq(name, "vine") || str_eq(name, "redstone_wire") || str_eq(name, "water")
}

/// The first position of a row for a sprite; the length where there is none.
pub open spec fn anim_pos(anims: Seq<AnimRow>, sprite: u32) -> int
    decreases anims.len(),
{
    if anims.len() == 0 {
        0
    } else if anims[0].0 == sprite {
        0
    } else {
        1 + anim_pos(anims.skip(1), sprite)
    }
}

proof fn lemma_anim_pos(anims: Seq<AnimRow>, sprite: u32, i: int)
    requires
        0 <= i <= anims.len(),
        forall|k: int| 0 <= k < i ==> (#[trigger] anims[k]).0 != sprite,
        i < anims.len() ==> anims[i].0 == sprite,
    ensures
        anim_pos(anims, sprite) == i,
    decreases anims.len(),
{
    if anims.len() > 0 && i > 0 {
        assert(anims[0].0 != sprite);
        assert forall|k: int| 0 <= k < i - 1 implies (#[trigger] anims.skip(1)[k]).0 != sprite by {
            assert(anims.skip(1)[k] == anims[k + 1]);
        }
        lemma_anim_pos(anims.skip(1), sprite, i - 1);
    }
}

/// The first instance of the first list of an appearance.
pub open spec fn first_instance_spec(a: CompiledAppearance) -> Option<ModelInstance> {
    match a {
        CompiledAppearance::Static(m) => if m.len() > 0 {
            Some(m@[0])
        } else {
            None
        },
        CompiledAppearance::Variants(v) => if v.len() > 0 && v@[0].1.len() > 0 {
            Some(v@[0].1@[0])
        } else {
            None
        },
        CompiledAppearance::Multipart(v) => if v.len() > 0 && v@[0].1.len() > 0 {
            Some(v@[0].1@[0])
        } else {
            None
        },
    }
}

fn first_instance(a: &CompiledAppearance) -> (r: Option<ModelInstance>)
    ensures
        r == first_instance_spec(*a),
{
    match a {
        CompiledAppearance::Static(m) => if m.len() > 0 {
            Some(m[0])
        } else {
            None
        },
        CompiledAppearance::Variants(v) => if v.len() > 0 && v[0].1.len() > 0 {
            Some(v[0].1[0])
        } else {
            None
        },
        CompiledAppearance::Multipart(v) => if v.len() > 0 && v[0].1.len() > 0 {
            Some(v[0].1[0])
        } else {
            None
        },
    }
}

/// Appearance as seen by the mesher: a borrowed view over compiled data.
#[derive(Clone, Copy, Debug)]
pub enum AppearanceRef<'a> {
    Static(&'a [ModelInstance]),
    Variants(&'a [(Predicate, Vec<ModelInstance>)]),
    Multipart(&'a [(Predicate, Vec<ModelInstance>)]),
}

/// A weight counts at least 1.
pub open spec fn weight_of(m: ModelInstance) -> int {
    if m.weight == 0 {
        1
    } else {
        m.weight as int
    }
}

/// The summed weight of a pool.
pub open spec fn total_weight(models: Seq<ModelInstance>) -> int
    decreases models.len(),
{
    if models.len() == 0 {
        0
    } else {
        weight_of(models[0]) + total_weight(models.skip(1))
    }
}

/// The model whose share of the summed weights holds a point.
pub open spec fn at_weight(models: Seq<ModelInstance>, point: int) -> ModelInstance
    decreases models.len(),
{
    if models.len() <= 1 || point < weight_of(models[0]) {
        models[0]
    } else {
        at_weight(models.skip(1), point - weight_of(models[0]))
    }
}

/// The stand-in of an empty pool: model 0, unturned.
pub open spec fn no_instance() -> ModelInstance {
    let none = Angle { degrees: F32 { bits: 0 }, quarters: 0, whole: 0 };
    ModelInstance {
        model: ModelId(0),
        rot: VariantRot { x: none, y: none, uvlock: false },
        weight: 1,
    }
}

/// The model of a pool that a random number picks, by weight.
pub open spec fn picked(models: Seq<ModelInstance>, rng: u64) -> ModelInstance {
    if models.len() == 0 {
        no_instance()
    } else {
        at_weight(models, rng as int % total_weight(models))
    }
}

pub proof fn lemma_total_weight(models: Seq<ModelInstance>)
    ensures
        models.len() <= total_weight(models) <= models.len() * 0xffff_ffff,
    decreases models.len(),
{
    if models.len() > 0 {
        lemma_total_weight(models.skip(1));
    }
}

/// A pick from a pool is one of its models.
pub proof fn law_picked_is_a_member(models: Seq<ModelInstance>, rng: u64)
    requires
        models.len() > 0,
    ensures
        models.contains(picked(models, rng)),
{
    lemma_at_weight_is_a_member(models, rng as int % total_weight(models));
}

proof fn lemma_at_weight_is_a_member(models: Seq<ModelInstance>, point: int)
    requires
        models.len() > 0,
    ensures
        models.contains(at_weight(models, point)),
    decreases models.len(),
{
    if models.len() <= 1 || point < weight_of(models[0]) {
        assert(models[0] == at_weight(models, point));
    } else {
        let rest = models.skip(1);
        lemma_at_weight_is_a_member(rest, point - weight_of(models[0]));
        let k = rest.index_of(at_weight(models, point));
        assert(models[k + 1] == at_weight(models, point));
    }
}

/// Weighted pick from a random pool (weights default to 1).
fn pick_weighted(models: &[ModelInstance], rng: u64) -> (r: ModelInstance)
    ensures
        r == picked(models@, rng),
{
    if models.len() == 0 {
        let none = Angle { degrees: F32 { bits: 0 }, quarters: 0, whole: 0 };
        return ModelInstance {
            model: ModelId(0),
            rot: VariantRot { x: none, y: none, uvlock: false },
            weight: 1,
        };
    }
    if models.len() == 1 {
        return models[0];
    }
    let ghost all = models@;
    let mut total: u128 = 0;
    let mut i: usize = 0;
    assert(all.skip(0) == all);
    proof {
        lemma_total_weight(all);
    }
    while i < models.len()
        invariant
            i <= models.len() <= usize::MAX,
            all == models@,
            total + total_weight(all.skip(i as int)) == total_weight(all),
            total_weight(all) <= models.len() * 0xffff_ffff,
        decreases models.len() - i,
    {
        let w: u128 = if models[i].weight == 0 { 1 } else { models[i].weight as u128 };
        assert(all.skip(i as int)[0] == all[i as int]);
        assert(all.skip(i as int).skip(1) == all.skip(i + 1));
        proof {
            lemma_total_weight(all.skip(i + 1));
            let n = models.len() as int;
            assert(n * 0xffff_ffff <= 0xffff_ffff_ffff_ffff * 0xffff_ffff) by (nonlinear_arith)
                requires
                    n <= 0xffff_ffff_ffff_ffff,
            ;
        }
        total = total + w;
        i += 1;
    }
    assert(all.skip(all.len() as int).len() == 0);
    let mut pick: u128 = (rng as u128) % total;
    let mut k: usize = 0;
    while k < models.len()
        invariant
            k <= models.len(),
            all == models@,
            all.len() > 1,
            k < models.len() ==> at_weight(all.skip(k as int), pick as int) == at_weight(
                all,
                rng as int % total_weight(all),
            ),
            k == models.len() ==> pick as int >= total_weight(all.skip(k as int)),
            pick < total_weight(all.skip(k as int)),
        decreases models.len() - k,
    {
        let w: u128 = if models[k].weight == 0 { 1 } else { models[k].weight as u128 };
        assert(all.skip(k as int)[0] == all[k as int]);
        assert(all.skip(k as int).skip(1) == all.skip(k + 1));
        if pick < w {
            return models[k];
        }
        pick = pick - w;
        k += 1;
        if k == models.len() {
            assert(all.skip(k as int).len() == 0);
        }
    }
    models[0]
}

/// The position of the first entry whose predicate holds; the length where
/// none does.
pub open spec fn first_match(entries: Seq<(Predicate, Vec<ModelInstance>)>, props: Props) -> int
    decreases entries.len(),
{
    if entries.len() == 0 {
        0
    } else if entries[0].0.shape().holds(props) {
        0
    } else {
        1 + first_match(entries.skip(1), props)
    }
}

/// One pick per entry whose predicate holds, in order.
pub open spec fn all_matches(
    entries: Seq<(Predicate, Vec<ModelInstance>)>,
    props: Props,
    rng: u64,
) -> Seq<ModelInstance>
    decreases entries.len(),
{
    if entries.len() == 0 {
        Seq::empty()
    } else {
        let before = all_matches(entries.drop_last(), props, rng);
        if entries.last().0.shape().holds(props) {
            before.push(picked(entries.last().1@, rng))
        } else {
            before
        }
    }
}

/// The models that a state shows: one of a static pool, one of the first
/// matching variant, and one of each matching part.
pub open spec fn resolved_appearance(a: AppearanceRef, props: Props, rng: u64) -> Seq<
    ModelInstance,
> {
    match a {
        AppearanceRef::Static(m) => seq![picked(m@, rng)],
        AppearanceRef::Variants(entries) => {
            let i = first_match(entries@, props);
            if i < entries@.len() {
                seq![picked(entries@[i].1@, rng)]
            } else {
                Seq::empty()
            }
        },
        AppearanceRef::Multipart(entries) => all_matches(entries@, props, rng),
    }
}

proof fn lemma_first_match(
    entries: Seq<(Predicate, Vec<ModelInstance>)>,
    props: Props,
    i: int,
)
    requires
        0 <= i <= entries.len(),
        forall|k: int| 0 <= k < i ==> !(#[trigger] entries[k]).0.shape().holds(props),
        i < entries.len() ==> entries[i].0.shape().holds(props),
    ensures
        first_match(entries, props) == i,
    decreases entries.len(),
{
    if entries.len() > 0 && i > 0 {
        assert(!entries[0].0.shape().holds(props));
        assert forall|k: int| 0 <= k < i - 1 implies !(
        #[trigger] entries.skip(1)[k]).0.shape().holds(props) by {
            assert(entries.skip(1)[k] == entries[k + 1]);
        }
        lemma_first_match(entries.skip(1), props, i - 1);
    }
}

/// Resolves which model instances apply to a state, given its properties.
///
/// A pool of several models renders exactly one, chosen from `rng` (the
/// caller's per-position hash). Multipart entries all render, but each
/// entry's own list is still a pool.
pub fn resolve_appearance(
    appearance: AppearanceRef<'_>,
    props: &[(String, String)],
    rng: u64,
) -> (r: Vec<ModelInstance>)
    ensures
        r@ == resolved_appearance(appearance, pairs_of(props@), rng),
{
    let ghost pp = pairs_of(props@);
    let mut out: Vec<ModelInstance> = Vec::new();
    match appearance {
        AppearanceRef::Static(m) => {
            out.push(pick_weighted(m, rng));
        },
        AppearanceRef::Variants(entries) => {
            let mut i: usize = 0;
            while i < entries.len() && !entries[i].0.matches(props)
                invariant
                    i <= entries.len(),
                    pp == pairs_of(props@),
                    forall|k: int|
                        0 <= k < i ==> !(#[trigger] entries@[k]).0.shape().holds(pp),
                decreases entries.len() - i,
            {
                i += 1;
            }
            proof {
                lemma_first_match(entries@, pp, i as int);
            }
            if i < entries.len() {
                out.push(pick_weighted(&entries[i].1, rng));
            }
        },
        AppearanceRef::Multipart(entries) => {
            let mut i: usize = 0;
            while i < entries.len()
                invariant
                    i <= entries.len(),
                    pp == pairs_of(props@),
                    out@ == all_matches(entries@.take(i as int), pp, rng),
                decreases entries.len() - i,
            {
                assert(entries@.take(i + 1).drop_last() == entries@.take(i as int));
                assert(entries@.take(i + 1).last() == entries@[i as int]);
                if entries[i].0.matches(props) {
                    out.push(pick_weighted(&entries[i].1, rng));
                }
                i += 1;
            }
            assert(entries@.take(entries@.len() as int) == entries@);
        },
    }
    out
}

/// The first property is the lowest digit of a state id, and the next counts
/// by the number of its values.
pub proof fn law_first_property_counts_by_one(
    a: (Seq<char>, Seq<Seq<char>>),
    b: (Seq<char>, Seq<Seq<char>>),
    i: int,
    j: int,
)
    requires
        a.0 != b.0,
        a.1.no_duplicates(),
        b.1.no_duplicates(),
        0 <= i < a.1.len(),
        0 <= j < b.1.len(),
    ensures
        state_count(seq![a, b]) == a.1.len() * b.1.len(),
        packed(seq![a, b], seq![(a.0, a.1[i]), (b.0, b.1[j])]) == i + a.1.len() * j,
        packed(seq![a, b], seq![(b.0, b.1[j])]) == a.1.len() * j,
        packed(seq![a, b], Seq::empty()) == 0,
{
    let s = seq![a, b];
    let props = seq![(a.0, a.1[i]), (b.0, b.1[j])];
    let one = seq![(b.0, b.1[j])];
    let e: Props = Seq::empty();
    assert(s.skip(1) =~= seq![b]);
    assert(seq![b].skip(1) =~= Seq::empty());
    assert(props.skip(1) =~= one);
    assert(one.skip(1) =~= e);
    reveal_with_fuel(state_count, 3);
    reveal_with_fuel(packed, 3);
    reveal_with_fuel(assigned, 3);
    lemma_index_of_name_found(a.1, a.1[i], i);
    lemma_index_of_name_found(b.1, b.1[j], j);
    lemma_index_of_name_bounds(a.1, a.1[i]);
    lemma_index_of_name_bounds(b.1, b.1[j]);
    assert(index_of_name(a.1, a.1[i]) == i);
    assert(index_of_name(b.1, b.1[j]) == j);
    assert(assigned(props, a.0) == Some(a.1[i]));
    assert(assigned(props, b.0) == Some(b.1[j]));
    let (m, n) = (a.1.len() as int, b.1.len() as int);
    assert(m * (n * 1) == m * n && m * (j + n * 0) == m * j && m * (0 + n * 0) == 0)
        by (nonlinear_arith);
}

/// Ids of blocks start at 1, in order; 0 and what lies beyond name no block.
pub proof fn law_block_ids_start_at_one(r: Registry, i: int)
    requires
        0 <= i < r.blocks@.len() < u32::MAX,
    ensures
        r.block_at(0) is None,
        r.block_at((i + 1) as u32) == Some(r.blocks@[i]),
        r.block_at((r.blocks@.len() + 1) as u32) is None,
        (forall|k: int| i < k < r.blocks@.len() ==> (#[trigger] r.blocks@[k]).name@
            != r.blocks@[i].name@) ==> r.id_of(r.blocks@[i].name@) == Some((i + 1) as u32),
{
    if forall|k: int| i < k < r.blocks@.len() ==> (#[trigger] r.blocks@[k]).name@
        != r.blocks@[i].name@ {
        lemma_last_named(r.blocks@, r.blocks@[i].name@, i);
    }
}

/// A name that no block bears has no id.
pub proof fn law_unknown_names_have_no_id(r: Registry, name: Seq<char>)
    requires
        forall|k: int| 0 <= k < r.blocks@.len() ==> (#[trigger] r.blocks@[k]).name@ != name,
    ensures
        r.id_of(name) is None,
        forall|state: u32| (#[trigger] r.model_of_spec(name, state)) is None,
{
    lemma_last_named(r.blocks@, name, -1);
}

/// A state is that of its block, and a block has no states beyond its own.
pub proof fn law_states_belong_to_their_block(r: Registry, i: int, state: u32)
    requires
        0 <= i < r.blocks@.len() < u32::MAX,
    ensures
        state < r.blocks@[i].states@.len() ==> r.state_at((i + 1) as u32, state) == Some(
            r.blocks@[i].states@[state as int],
        ),
        state >= r.blocks@[i].states@.len() ==> r.state_at((i + 1) as u32, state) is None,
        r.state_at(0, state) is None,
{
}

/// The blocks that are known to let light through.
pub proof fn law_transparent_blocks_are_known(name: Seq<char>)
    ensures
        known_transparent("glass"@) && known_transparent("torch"@) && known_transparent("rail"@),
        known_transparent("short_grass"@) && known_transparent("vine"@) && known_transparent(
            "redstone_wire"@,
        ) && known_transparent("water"@),
        name != "glass"@ && name != "torch"@ && name != "rail"@ && name != "short_grass"@ && name
            != "vine"@ && name != "redstone_wire"@ && name != "water"@ ==> !known_transparent(name),
{
}

/// The first row of a sprite is its animation.
pub proof fn law_first_row_animates(r: Registry, sprite: SpriteId, i: int)
    requires
        0 <= i <= r.anims@.len(),
        forall|k: int| 0 <= k < i ==> (#[trigger] r.anims@[k]).0 != sprite.0,
        i < r.anims@.len() ==> r.anims@[i].0 == sprite.0,
    ensures
        r.anim_index(sprite) == i,
{
    lemma_anim_pos(r.anims@, sprite.0, i);
}

/// Weights add up, and each counts at least 1.
pub proof fn law_weights_add_up(models: Seq<ModelInstance>, m: ModelInstance)
    ensures
        total_weight(Seq::empty()) == 0,
        m.weight == 0 ==> total_weight(models.push(m)) == total_weight(models) + 1,
        m.weight > 0 ==> total_weight(models.push(m)) == total_weight(models) + m.weight,
    decreases models.len(),
{
    let all = models.push(m);
    if models.len() == 0 {
        assert(all.skip(1) =~= Seq::empty());
        assert(models =~= Seq::empty());
    } else {
        law_weights_add_up(models.skip(1), m);
        assert(all.skip(1) =~= models.skip(1).push(m));
    }
}

/// A random number, modulo the summed weights, picks the model in whose share
/// it falls: the shares follow each other in the order of the pool.
pub proof fn law_shares_decide(models: Seq<ModelInstance>, rng: u64, k: int)
    requires
        0 <= k < models.len(),
        total_weight(models.take(k)) <= rng as int % total_weight(models),
        rng as int % total_weight(models) < total_weight(models.take(k + 1)),
    ensures
        picked(models, rng) == models[k],
{
    lemma_share(models, rng as int % total_weight(models), k);
}

proof fn lemma_share(models: Seq<ModelInstance>, point: int, k: int)
    requires
        0 <= k < models.len(),
        total_weight(models.take(k)) <= point < total_weight(models.take(k + 1)),
    ensures
        at_weight(models, point) == models[k],
    decreases models.len(),
{
    let rest = models.skip(1);
    let w = weight_of(models[0]);
    assert(models.take(k + 1).skip(1) =~= rest.take(k));
    assert(models.take(k + 1)[0] == models[0]);
    if k == 0 {
        assert(rest.take(0) =~= Seq::empty());
        assert(total_weight(rest.take(0)) == 0);
    } else {
        assert(models.take(k).skip(1) =~= rest.take(k - 1));
        assert(models.take(k)[0] == models[0]);
        lemma_weight_not_negative(rest.take(k - 1));
        lemma_share(rest, point - w, k - 1);
    }
}

proof fn lemma_weight_not_negative(models: Seq<ModelInstance>)
    ensures
        total_weight(models) >= 0,
    decreases models.len(),
{
    if models.len() > 0 {
        lemma_weight_not_negative(models.skip(1));
    }
}

/// A pool shows one model, variants show one of the first that holds and none
/// where none holds.
pub proof fn law_first_holding_variant_shows(
    entries: &[(Predicate, Vec<ModelInstance>)],
    pool: &[ModelInstance],
    props: Props,
    rng: u64,
    i: int,
)
    requires
        0 <= i <= entries@.len(),
        forall|k: int| 0 <= k < i ==> !(#[trigger] entries@[k]).0.shape().holds(props),
        i < entries@.len() ==> entries@[i].0.shape().holds(props),
    ensures
        i < entries@.len() ==> resolved_appearance(AppearanceRef::Variants(entries), props, rng)
            == seq![picked(entries@[i].1@, rng)],
        i == entries@.len() ==> resolved_appearance(
            AppearanceRef::Variants(entries),
            props,
            rng,
        ).len() == 0,
        resolved_appearance(AppearanceRef::Static(pool), props, rng) == seq![picked(pool@, rng)],
{
    lemma_first_match(entries@, props, i);
}

/// Each part that holds shows one model of its pool, in the order of the parts,
/// and the others show none.
pub proof fn law_every_holding_part_shows(
    entries: Seq<(Predicate, Vec<ModelInstance>)>,
    e: (Predicate, Vec<ModelInstance>),
    props: Props,
    rng: u64,
)
    ensures
        all_matches(Seq::empty(), props, rng).len() == 0,
        e.0.shape().holds(props) ==> all_matches(entries.push(e), props, rng) == all_matches(
            entries,
            props,
            rng,
        ).push(picked(e.1@, rng)),
        !e.0.shape().holds(props) ==> all_matches(entries.push(e), props, rng) == all_matches(
            entries,
            props,
            rng,
        ),
{
    assert(entries.push(e).drop_last() =~= entries);
}

/// Every part that holds is shown.
pub proof fn law_parts_are_all_asked(
    entries: &[(Predicate, Vec<ModelInstance>)],
    props: Props,
    rng: u64,
)
    ensures
        resolved_appearance(AppearanceRef::Multipart(entries), props, rng).len()
            == entries@.filter(
            |e: (Predicate, Vec<ModelInstance>)| e.0.shape().holds(props),
        ).len(),
{
    lemma_matches_counted(entries@, props, rng);
}

proof fn lemma_matches_counted(
    entries: Seq<(Predicate, Vec<ModelInstance>)>,
    props: Props,
    rng: u64,
)
    ensures
        all_matches(entries, props, rng).len() == entries.filter(
            |e: (Predicate, Vec<ModelInstance>)| e.0.shape().holds(props),
        ).len(),
    decreases entries.len(),
{
    reveal(Seq::filter);
    if entries.len() > 0 {
        lemma_matches_counted(entries.drop_last(), props, rng);
    }
}

/// The model of a state is that of its first instance.
pub proof fn law_first_instance_is_shown(a: CompiledAppearance)
    ensures
        a matches CompiledAppearance::Static(m) ==> (m@.len() > 0 ==> first_instance_spec(a)
            == Some(m@[0])),
        a matches CompiledAppearance::Variants(v) ==> (v@.len() > 0 && v@[0].1@.len() > 0
            ==> first_instance_spec(a) == Some(v@[0].1@[0])),
        a matches CompiledAppearance::Multipart(v) ==> (v@.len() > 0 && v@[0].1@.len() > 0
            ==> first_instance_spec(a) == Some(v@[0].1@[0])),
        a matches CompiledAppearance::Static(m) ==> (m@.len() == 0 ==> first_instance_spec(a)
            is None),
{
}

/// An animation row keeps the sprite, the ticks and counts of frames, and
/// whether frames blend.
pub proof fn law_rows_keep_animations(a: RuntimeAnim)
    ensures
        anim_row_of(a).0 == a.sprite.0,
        anim_row_of(a).1 == a.frametime,
        anim_row_of(a).2 == a.frames,
        anim_row_of(a).3 == a.strip_frames,
        anim_row_of(a).4 == a.interpolate,
{
}

/// An empty pool stands for the first model, unturned, with the weight 1.
pub proof fn law_empty_pools_show_the_first_model(rng: u64)
    ensures
        ({
            let m = picked(Seq::empty(), rng);
            &&& m.model.0 == 0
            &&& m.weight == 1
            &&& m.rot.x.quarters == 0 && m.rot.y.quarters == 0 && !m.rot.uvlock
            &&& m.rot.x.degrees.bits == 0 && m.rot.y.degrees.bits == 0
        }),
{
}

} // verus!
