//! Blockstate compiler: property schemas, appearance predicates and occlusion.

use crate::error::{err, fails_with, AssetResult};
use crate::json::{Json, JsonShape};
use crate::models::{
    key_pos, lemma_key_pos, with_model, Direction, FaceQuad, ModelId, ModelTable, TableShape,
};
use crate::models_raw::RawModels;
use crate::order::{is_stable_order, law_stable_order_is_unique, order_pairs, pair_le, pairs_le};
use crate::registry::{schema_of, schema_wf, Schema};
use crate::scalar::F32;
use crate::text::{
    chars_eq, chars_of, find_name, names_of, pairs_of, pieces_of, split, split_chars, split_once,
    split_once_chars, str_eq, string_of, trim, trim_chars, trim_string,
};
use vstd::prelude::*;

verus! {

/// An angle in degrees, with the two whole numbers that are read from it.
#[derive(Clone, Copy, Debug, PartialEq, Eq, Structural)]
pub struct Angle {
    pub degrees: F32,
    /// Quarter turns in the angle rounded to whole degrees, modulo a full turn.
    pub quarters: u8,
    /// The angle modulo a full turn, rounded to whole degrees.
    pub whole: u32,
}

/// Rotation baked into a variant.
#[derive(Clone, Copy, Debug, PartialEq, Eq, Structural)]
pub struct VariantRot {
    pub x: Angle,
    pub y: Angle,
    pub uvlock: bool,
}

/// One appearance choice: a model reference plus rotation.
#[derive(Clone, Copy, Debug, PartialEq, Eq, Structural)]
pub struct ModelInstance {
    pub model: ModelId,
    pub rot: VariantRot,
    /// Random-pool weight.
    pub weight: u32,
}

/// A predicate over property values: `true`, `"value"`, `"a|b"`, or nested
/// conjunctions and disjunctions.
#[derive(Debug)]
pub enum Predicate {
    Always,
    And(Vec<Predicate>),
    Or(Vec<Predicate>),
    Match(String, String),
}

/// A property assignment.
pub type Props = Seq<(Seq<char>, Seq<char>)>;

/// A pattern matches a value when one of its alternatives is the value.
pub open spec fn value_matches_spec(pattern: Seq<char>, value: Seq<char>) -> bool {
    split(pattern, '|').contains(value)
}

/// The shape of a predicate.
#[verifier::ext_equal]
pub enum PredicateShape {
    Always,
    And(Seq<PredicateShape>),
    Or(Seq<PredicateShape>),
    Match(Seq<char>, Seq<char>),
}

impl Predicate {
    pub open spec fn shape(&self) -> PredicateShape
        decreases self,
    {
        match self {
            Predicate::Always => PredicateShape::Always,
            Predicate::And(ps) => PredicateShape::And(
                Seq::new(
                    ps@.len(),
                    |i: int|
                        if 0 <= i < ps@.len() {
                            ps@[i].shape()
                        } else {
                            PredicateShape::Always
                        },
                ),
            ),
            Predicate::Or(ps) => PredicateShape::Or(
                Seq::new(
                    ps@.len(),
                    |i: int|
                        if 0 <= i < ps@.len() {
                            ps@[i].shape()
                        } else {
                            PredicateShape::Always
                        },
                ),
            ),
            Predicate::Match(k, v) => PredicateShape::Match(k@, v@),
        }
    }
}

impl PredicateShape {
    /// The predicate holds of a property assignment.
    pub open spec fn holds(self, props: Props) -> bool
        decreases self,
    {
        match self {
            PredicateShape::Always => true,
            PredicateShape::And(ps) => forall|i: int|
                0 <= i < ps.len() ==> (#[trigger] ps[i]).holds(props),
            PredicateShape::Or(ps) => exists|i: int|
                0 <= i < ps.len() && (#[trigger] ps[i]).holds(props),
            PredicateShape::Match(k, v) => exists|i: int|
                0 <= i < props.len() && (#[trigger] props[i]).0 == k && value_matches_spec(
                    v,
                    props[i].1,
                ),
        }
    }
}

fn value_matches(pattern: &str, value: &str) -> (r: bool)
    ensures
        r == value_matches_spec(pattern@, value@),
{
    let p = chars_of(pattern);
    let v = chars_of(value);
    let alts = split_chars(&p, '|');
    let mut i: usize = 0;
    while i < alts.len()
        invariant
            i <= alts.len(),
            v@ == value@,
            pieces_of(alts@) == split(pattern@, '|'),
            forall|k: int| 0 <= k < i ==> alts@[k]@ != value@,
        decreases alts.len() - i,
    {
        if chars_eq(&alts[i], &v) {
            assert(pieces_of(alts@)[i as int] == value@);
            return true;
        }
        i += 1;
    }
    assert(!split(pattern@, '|').contains(value@)) by {
        if split(pattern@, '|').contains(value@) {
            let k = split(pattern@, '|').index_of(value@);
            assert(pieces_of(alts@)[k] == alts@[k]@);
        }
    }
    false
}

impl Predicate {
    pub fn matches(&self, props: &[(String, String)]) -> (r: bool)
        ensures
            r == self.shape().holds(pairs_of(props@)),
        decreases self,
    {
        match self {
            Predicate::Always => true,
            Predicate::And(ps) => {
                let ghost ss = self.shape()->And_0;
                let mut i: usize = 0;
                while i < ps.len()
                    invariant
                        i <= ps.len(),
                        *self == Predicate::And(*ps),
                        ss == self.shape()->And_0,
                        forall|k: int| 0 <= k < i ==> (#[trigger] ss[k]).holds(pairs_of(props@)),
                    decreases ps.len() - i,
                {
                    assert(ss[i as int] == ps@[i as int].shape());
                    if !ps[i].matches(props) {
                        assert(!ss[i as int].holds(pairs_of(props@)));
                        assert(self.shape() == PredicateShape::And(ss));
                        return false;
                    }
                    i += 1;
                }
                assert(self.shape() == PredicateShape::And(ss));
                true
            },
            Predicate::Or(ps) => {
                let ghost ss = self.shape()->Or_0;
                let mut i: usize = 0;
                while i < ps.len()
                    invariant
                        i <= ps.len(),
                        *self == Predicate::Or(*ps),
                        ss == self.shape()->Or_0,
                        forall|k: int| 0 <= k < i ==> !(#[trigger] ss[k]).holds(pairs_of(props@)),
                    decreases ps.len() - i,
                {
                    assert(ss[i as int] == ps@[i as int].shape());
                    if ps[i].matches(props) {
                        assert(ss[i as int].holds(pairs_of(props@)));
                        assert(self.shape() == PredicateShape::Or(ss));
                        return true;
                    }
                    i += 1;
                }
                assert(self.shape() == PredicateShape::Or(ss));
                false
            },
            Predicate::Match(k, v) => {
                let ghost pp = pairs_of(props@);
                let mut i: usize = 0;
                while i < props.len()
                    invariant
                        i <= props.len(),
                        *self == Predicate::Match(*k, *v),
                        pp == pairs_of(props@),
                        forall|j: int|
                            0 <= j < i ==> !((#[trigger] pp[j]).0 == k@ && value_matches_spec(
                                v@,
                                pp[j].1,
                            )),
                    decreases props.len() - i,
                {
                    assert(pp[i as int] == (props@[i as int].0@, props@[i as int].1@));
                    if str_eq(props[i].0.as_str(), k.as_str()) && value_matches(
                        v.as_str(),
                        props[i].1.as_str(),
                    ) {
                        return true;
                    }
                    i += 1;
                }
                false
            },
        }
    }

    /// A copy of the predicate.
    pub fn copied(&self) -> (r: Predicate)
        ensures
            r.shape() == self.shape(),
        decreases self,
    {
        match self {
            Predicate::Always => Predicate::Always,
            Predicate::And(ps) => {
                let mut out: Vec<Predicate> = Vec::new();
                let mut i: usize = 0;
                while i < ps.len()
                    invariant
                        i <= ps.len(),
                        *self == Predicate::And(*ps),
                        out@.len() == i,
                        forall|k: int| 0 <= k < i ==> (#[trigger] out@[k]).shape() == ps@[k].shape(),
                    decreases ps.len() - i,
                {
                    assert(self.shape()->And_0[i as int] == ps@[i as int].shape());
                    out.push(ps[i].copied());
                    i += 1;
                }
                let r = Predicate::And(out);
                assert(r.shape()->And_0 =~= self.shape()->And_0);
                r
            },
            Predicate::Or(ps) => {
                let mut out: Vec<Predicate> = Vec::new();
                let mut i: usize = 0;
                while i < ps.len()
                    invariant
                        i <= ps.len(),
                        *self == Predicate::Or(*ps),
                        out@.len() == i,
                        forall|k: int| 0 <= k < i ==> (#[trigger] out@[k]).shape() == ps@[k].shape(),
                    decreases ps.len() - i,
                {
                    assert(self.shape()->Or_0[i as int] == ps@[i as int].shape());
                    out.push(ps[i].copied());
                    i += 1;
                }
                let r = Predicate::Or(out);
                assert(r.shape()->Or_0 =~= self.shape()->Or_0);
                r
            },
            Predicate::Match(k, v) => Predicate::Match(k.clone(), v.clone()),
        }
    }
}

/// How a rendered state blocks neighbor faces.
#[derive(Clone, Copy, Debug, PartialEq, Eq, Structural)]
pub enum Occlusion {
    /// Full opaque cube geometry: hides the neighbor face touching it.
    Full,
    /// Renders but never hides neighbor faces.
    Never,
}

impl Default for Occlusion {
    fn default() -> (r: Occlusion)
        ensures
            r == Occlusion::Full,
    {
        Occlusion::Full
    }
}

impl Occlusion {
    pub fn hides_neighbor(self) -> (r: bool)
        ensures
            r == (self == Occlusion::Full),
    {
        matches!(self, Occlusion::Full)
    }
}

/// One model choice of a blockstate, as written.
#[derive(Debug)]
pub struct RawVariant {
    pub model: String,
    pub x: Option<Angle>,
    pub y: Option<Angle>,
    pub uvlock: Option<bool>,
    pub weight: Option<u32>,
}

/// One choice, or a pool of choices.
#[derive(Debug)]
pub enum RawVariantEntry {
    One(RawVariant),
    Many(Vec<RawVariant>),
}

/// What a multipart part applies: one choice, or a pool.
#[derive(Debug)]
pub enum RawApply {
    One(RawVariant),
    Many(Vec<RawVariant>),
}

#[derive(Debug)]
pub struct RawMultipartPart {
    pub apply: RawApply,
    pub when: Option<Json>,
}

/// A blockstate as written: variants in the order of the document.
#[derive(Debug)]
pub struct RawBlockstate {
    pub variants: Option<Vec<(String, RawVariantEntry)>>,
    pub multipart: Option<Vec<RawMultipartPart>>,
}

impl RawVariantEntry {
    pub open spec fn list(&self) -> Seq<RawVariant> {
        match self {
            RawVariantEntry::One(v) => seq![*v],
            RawVariantEntry::Many(v) => v@,
        }
    }
}

impl RawApply {
    pub open spec fn list(&self) -> Seq<RawVariant> {
        match self {
            RawApply::One(v) => seq![*v],
            RawApply::Many(v) => v@,
        }
    }
}

/// A variant key compiled to a predicate, with its instances.
#[derive(Debug)]
pub struct VariantEntry {
    pub when: Predicate,
    pub models: Vec<ModelInstance>,
}

/// One multipart entry: these instances apply when the predicate holds.
#[derive(Debug)]
pub struct MultipartEntry {
    pub when: Predicate,
    pub models: Vec<ModelInstance>,
}

/// Compiled appearance for one block.
#[derive(Debug)]
pub enum StateAppearance {
    /// Single choice, no state dependence.
    Static(Vec<ModelInstance>),
    /// Keyed by predicate; first match wins.
    Variants(Vec<VariantEntry>),
    /// All matching parts are applied.
    Multipart(Vec<MultipartEntry>),
}

/// What an appearance holds.
#[verifier::ext_equal]
pub enum AppearanceShape {
    Static(Seq<ModelInstance>),
    Variants(Seq<(PredicateShape, Seq<ModelInstance>)>),
    Multipart(Seq<(PredicateShape, Seq<ModelInstance>)>),
}

pub open spec fn variants_shape(v: Seq<VariantEntry>) -> Seq<
    (PredicateShape, Seq<ModelInstance>),
> {
    Seq::new(v.len(), |i: int| (v[i].when.shape(), v[i].models@))
}

pub open spec fn multipart_shape(v: Seq<MultipartEntry>) -> Seq<
    (PredicateShape, Seq<ModelInstance>),
> {
    Seq::new(v.len(), |i: int| (v[i].when.shape(), v[i].models@))
}

impl StateAppearance {
    pub open spec fn shape(&self) -> AppearanceShape {
        match self {
            StateAppearance::Static(m) => AppearanceShape::Static(m@),
            StateAppearance::Variants(v) => AppearanceShape::Variants(variants_shape(v@)),
            StateAppearance::Multipart(v) => AppearanceShape::Multipart(multipart_shape(v@)),
        }
    }
}

/// Property schema for one block: names and the observed values.
#[derive(Debug)]
pub struct PropertySchema {
    pub properties: Vec<(String, Vec<String>)>,
}

/// The schema with a value observed for a property: new properties come at
/// the end, as do new values of a property.
pub open spec fn with_value(s: Schema, key: Seq<char>, value: Seq<char>) -> Schema {
    let i = key_pos(s, key);
    if i < s.len() {
        if s[i].1.contains(value) {
            s
        } else {
            s.update(i, (key, s[i].1.push(value)))
        }
    } else {
        s.push((key, seq![value]))
    }
}

/// The schema with the first `n` `name=value` pieces of a variant key.
pub open spec fn with_pieces(s: Schema, pieces: Seq<Seq<char>>, n: int) -> Schema
    decreases n,
{
    if n <= 0 {
        s
    } else {
        let before = with_pieces(s, pieces, n - 1);
        match split_once(pieces[n - 1], '=') {
            Some((k, v)) => with_value(before, trim(k), trim(v)),
            None => before,
        }
    }
}

/// The schema with the first `n` alternatives of a condition value.
pub open spec fn with_alternatives(
    s: Schema,
    key: Seq<char>,
    alts: Seq<Seq<char>>,
    n: int,
) -> Schema
    decreases n,
{
    if n <= 0 {
        s
    } else {
        with_value(with_alternatives(s, key, alts, n - 1), key, trim(alts[n - 1]))
    }
}

/// A member that combines conditions.
pub open spec fn is_combinator(key: Seq<char>) -> bool {
    key == "AND"@ || key == "OR"@
}

/// The schema with the values that a condition names.
pub open spec fn with_condition(s: Schema, cond: JsonShape) -> Schema
    decreases cond, 0int,
{
    match cond {
        JsonShape::Object(members) => with_members(s, members, members.len() as int),
        _ => s,
    }
}

pub open spec fn with_members(s: Schema, members: Seq<(Seq<char>, JsonShape)>, n: int) -> Schema
    decreases members, n,
{
    if n <= 0 || n > members.len() {
        s
    } else {
        let before = with_members(s, members, n - 1);
        let (k, v) = members[n - 1];
        if is_combinator(k) {
            match v {
                JsonShape::Array(items) => with_conditions(before, items, items.len() as int),
                _ => before,
            }
        } else {
            match v {
                JsonShape::Text(t) => with_alternatives(
                    before,
                    k,
                    split(t, '|'),
                    split(t, '|').len() as int,
                ),
                _ => before,
            }
        }
    }
}

pub open spec fn with_conditions(s: Schema, items: Seq<JsonShape>, n: int) -> Schema
    decreases items, n,
{
    if n <= 0 || n > items.len() {
        s
    } else {
        with_condition(with_conditions(s, items, n - 1), items[n - 1])
    }
}

/// The schema with the first `n` variant keys.
pub open spec fn with_variant_keys(
    s: Schema,
    variants: Seq<(String, RawVariantEntry)>,
    n: int,
) -> Schema
    decreases n,
{
    if n <= 0 {
        s
    } else {
        let pieces = split(variants[n - 1].0@, ',');
        with_pieces(with_variant_keys(s, variants, n - 1), pieces, pieces.len() as int)
    }
}

/// The schema with the conditions of the first `n` parts.
pub open spec fn with_parts(s: Schema, parts: Seq<RawMultipartPart>, n: int) -> Schema
    decreases n,
{
    if n <= 0 {
        s
    } else {
        let before = with_parts(s, parts, n - 1);
        match parts[n - 1].when {
            Some(j) => with_condition(before, j.shape()),
            None => before,
        }
    }
}

/// What a blockstate reveals of its properties, in the order of the document.
pub open spec fn observed_schema(raw: RawBlockstate) -> Schema {
    let s = match raw.variants {
        Some(v) => with_variant_keys(Seq::empty(), v@, v.len() as int),
        None => Seq::empty(),
    };
    match raw.multipart {
        Some(p) => with_parts(s, p@, p.len() as int),
        None => s,
    }
}

/// A schema and its properties by name.
pub open spec fn schema_le(s: Schema) -> spec_fn(int, int) -> bool {
    |a: int, b: int| pair_le((s[a].0, Seq::empty()), (s[b].0, Seq::empty()))
}

/// The stable order of a schema's properties by name.
pub open spec fn schema_order(s: Schema) -> Seq<usize> {
    choose|r: Seq<usize>| is_stable_order(r, s.len() as int, schema_le(s))
}

/// A schema with its properties in order of name.
pub open spec fn sorted_schema(s: Schema) -> Schema {
    Seq::new(s.len(), |i: int| s[schema_order(s)[i] as int])
}

/// The position of a property.
fn find_property(v: &Vec<(String, Vec<String>)>, key: &str) -> (r: usize)
    ensures
        r == key_pos(schema_of(v@), key@),
        r <= v.len(),
        r < v.len() ==> v@[r as int].0@ == key@,
{
    let ghost t = schema_of(v@);
    let mut i: usize = 0;
    while i < v.len() && !str_eq(v[i].0.as_str(), key)
        invariant
            i <= v.len(),
            t == schema_of(v@),
            forall|k: int| 0 <= k < i ==> (#[trigger] t[k]).0 != key@,
        decreases v.len() - i,
    {
        i += 1;
    }
    proof {
        lemma_key_pos(t, key@, i as int);
    }
    i
}

fn add_value(props: &mut Vec<(String, Vec<String>)>, key: String, value: String)
    ensures
        schema_of(final(props)@) == with_value(schema_of(old(props)@), key@, value@),
{
    let ghost before = schema_of(props@);
    let i = find_property(props, key.as_str());
    if i < props.len() {
        assert(before[i as int] == (props@[i as int].0@, names_of(props@[i as int].1@)));
        let k = find_name(&props[i].1, value.as_str());
        if k < props[i].1.len() {
            assert(before[i as int].1[k as int] == value@);
        } else {
            assert(!before[i as int].1.contains(value@)) by {
                if before[i as int].1.contains(value@) {
                    let q = before[i as int].1.index_of(value@);
                    assert(props@[i as int].1@[q]@ == value@);
                }
            }
            let ghost old_values = before[i as int].1;
            let mut values = crate::text::copy_names(&props[i].1);
            values.push(value);
            assert(names_of(values@) =~= old_values.push(value@));
            let name = props[i].0.clone();
            props.set(i, (name, values));
            assert(schema_of(props@) =~= before.update(i as int, (key@, old_values.push(value@))));
        }
    } else {
        let mut values: Vec<String> = Vec::new();
        values.push(value);
        assert(names_of(values@) =~= seq![value@]);
        props.push((key, values));
        assert(schema_of(props@) =~= before.push((key@, seq![value@])));
    }
}

fn add_variant_key(props: &mut Vec<(String, Vec<String>)>, key: &str)
    ensures
        schema_of(final(props)@) == with_pieces(
            schema_of(old(props)@),
            split(key@, ','),
            split(key@, ',').len() as int,
        ),
{
    let ghost start = schema_of(props@);
    let c = chars_of(key);
    let pieces = split_chars(&c, ',');
    let ghost all = split(key@, ',');
    let mut n: usize = 0;
    while n < pieces.len()
        invariant
            n <= pieces.len(),
            pieces_of(pieces@) == all,
            schema_of(props@) == with_pieces(start, all, n as int),
        decreases pieces.len() - n,
    {
        assert(all[n as int] == pieces@[n as int]@);
        if let Some((k, v)) = split_once_chars(&pieces[n], '=') {
            add_value(props, trim_string(&k), trim_string(&v));
        }
        n += 1;
    }
}

fn add_alternatives(props: &mut Vec<(String, Vec<String>)>, key: &String, text: &str)
    ensures
        schema_of(final(props)@) == with_alternatives(
            schema_of(old(props)@),
            key@,
            split(text@, '|'),
            split(text@, '|').len() as int,
        ),
{
    let ghost start = schema_of(props@);
    let c = chars_of(text);
    let pieces = split_chars(&c, '|');
    let ghost all = split(text@, '|');
    let mut n: usize = 0;
    while n < pieces.len()
        invariant
            n <= pieces.len(),
            pieces_of(pieces@) == all,
            schema_of(props@) == with_alternatives(start, key@, all, n as int),
        decreases pieces.len() - n,
    {
        assert(all[n as int] == pieces@[n as int]@);
        add_value(props, key.clone(), trim_string(&pieces[n]));
        n += 1;
    }
}

fn collect_when_values(cond: &Json, props: &mut Vec<(String, Vec<String>)>)
    ensures
        schema_of(final(props)@) == with_condition(schema_of(old(props)@), cond.shape()),
    decreases cond,
{
    match cond {
        Json::Object(members) => {
            let ghost start = schema_of(props@);
            let ghost shapes = cond.shape()->Object_0;
            let mut n: usize = 0;
            while n < members.len()
                invariant
                    n <= members.len(),
                    *cond == Json::Object(*members),
                    shapes == cond.shape()->Object_0,
                    shapes.len() == members@.len(),
                    schema_of(props@) == with_members(start, shapes, n as int),
                decreases members.len() - n,
            {
                let ghost before = schema_of(props@);
                let key = &members[n].0;
                let value = &members[n].1;
                assert(shapes[n as int] == (members@[n as int].0@, members@[n as int].1.shape()));
                assert(members@[n as int].1 == *value);
                if str_eq(key.as_str(), "AND") || str_eq(key.as_str(), "OR") {
                    if let Json::Array(items) = value {
                        let ghost subs = value.shape()->Array_0;
                        let mut k: usize = 0;
                        while k < items.len()
                            invariant
                                n < members.len(),
                                *cond == Json::Object(*members),
                                members@[n as int].1 == *value,
                                k <= items.len(),
                                *value == Json::Array(*items),
                                subs == value.shape()->Array_0,
                                subs.len() == items@.len(),
                                schema_of(props@) == with_conditions(before, subs, k as int),
                            decreases items.len() - k,
                        {
                            assert(subs[k as int] == items@[k as int].shape());
                            proof {
                                assert(decreases_to!(cond => cond->Object_0));
                                assert(decreases_to!(members@ => members@[n as int]));
                                assert(decreases_to!(members@[n as int] => members@[n as int].1));
                                assert(decreases_to!(value => value->Array_0));
                                assert(decreases_to!(items@ => items@[k as int]));
                            }
                            collect_when_values(&items[k], props);
                            k += 1;
                        }
                        assert(value.shape() == JsonShape::Array(subs));
                    }
                } else if let Json::Text(t) = value {
                    add_alternatives(props, key, t.as_str());
                }
                n += 1;
            }
            assert(cond.shape() == JsonShape::Object(shapes));
        },
        _ => {},
    }
}

/// Extracts the properties and their observed values from the variant keys
/// and the conditions of a blockstate, properties in order of name.
pub fn extract_schema(raw: &RawBlockstate) -> (r: PropertySchema)
    ensures
        schema_of(r.properties@) == sorted_schema(observed_schema(*raw)),
{
    let mut props: Vec<(String, Vec<String>)> = Vec::new();
    assert(schema_of(props@) =~= Schema::empty());
    if let Some(variants) = &raw.variants {
        let mut n: usize = 0;
        while n < variants.len()
            invariant
                n <= variants.len(),
                schema_of(props@) == with_variant_keys(Schema::empty(), variants@, n as int),
            decreases variants.len() - n,
        {
            add_variant_key(&mut props, variants[n].0.as_str());
            n += 1;
        }
    }
    let ghost first = schema_of(props@);
    if let Some(parts) = &raw.multipart {
        let mut n: usize = 0;
        while n < parts.len()
            invariant
                n <= parts.len(),
                schema_of(props@) == with_parts(first, parts@, n as int),
            decreases parts.len() - n,
        {
            if let Some(cond) = &parts[n].when {
                collect_when_values(cond, &mut props);
            }
            n += 1;
        }
    }
    let ghost seen = schema_of(props@);
    assert(seen == observed_schema(*raw));
    let mut keys: Vec<(String, String)> = Vec::new();
    let mut i: usize = 0;
    while i < props.len()
        invariant
            i <= props.len(),
            keys.len() == i,
            forall|k: int|
                0 <= k < i ==> (#[trigger] keys@[k]).0@ == props@[k].0@ && keys@[k].1@
                    == Seq::<char>::empty(),
        decreases props.len() - i,
    {
        keys.push((props[i].0.clone(), String::new()));
        i += 1;
    }
    let order = order_pairs(&keys);
    proof {
        let le = schema_le(seen);
        let kl = pairs_le(keys@);
        assert(is_stable_order(order@, seen.len() as int, le)) by {
            assert forall|a: int, b: int| 0 <= a < b < order@.len() implies le(
                #[trigger] order@[a] as int,
                #[trigger] order@[b] as int,
            ) && (le(order@[b] as int, order@[a] as int) ==> order@[a] < order@[b]) by {
                let x = order@[a] as int;
                let y = order@[b] as int;
                assert(keys@[x].0@ == seen[x].0 && keys@[y].0@ == seen[y].0);
                assert(keys@[x].1@ == Seq::<char>::empty() && keys@[y].1@ == Seq::<char>::empty());
                assert(kl(x, y) == le(x, y));
                assert(kl(y, x) == le(y, x));
            }
        }
        law_stable_order_is_unique(order@, schema_order(seen), seen.len() as int, le);
    }
    let mut properties: Vec<(String, Vec<String>)> = Vec::new();
    let mut j: usize = 0;
    while j < order.len()
        invariant
            j <= order.len(),
            order@ == schema_order(seen),
            order@.len() == seen.len(),
            seen == schema_of(props@),
            forall|k: int| 0 <= k < order@.len() ==> (#[trigger] order@[k]) < props@.len(),
            schema_of(properties@) == sorted_schema(seen).take(j as int),
        decreases order.len() - j,
    {
        let ghost before = schema_of(properties@);
        let p = &props[order[j]];
        let values = crate::text::copy_names(&p.1);
        properties.push((p.0.clone(), values));
        assert(schema_of(properties@) =~= before.push(seen[order@[j as int] as int]));
        assert(sorted_schema(seen).take(j + 1) =~= sorted_schema(seen).take(j as int).push(
            sorted_schema(seen)[j as int],
        ));
        j += 1;
    }
    assert(sorted_schema(seen).take(seen.len() as int) =~= sorted_schema(seen));
    PropertySchema { properties }
}

/// The predicate of one condition document: a true value and anything that is
/// no object always holds; an object holds when all its members do.
pub open spec fn condition_shape(cond: JsonShape) -> PredicateShape
    decreases cond, 0int,
{
    match cond {
        JsonShape::Object(members) => {
            let parts = member_conditions(members, members.len() as int);
            if parts.len() == 0 {
                PredicateShape::Always
            } else {
                PredicateShape::And(parts)
            }
        },
        _ => PredicateShape::Always,
    }
}

/// The predicates of the first `n` members: `AND` and `OR` combine a list of
/// conditions, any other key matches the text under it; members of another
/// kind say nothing.
pub open spec fn member_conditions(members: Seq<(Seq<char>, JsonShape)>, n: int) -> Seq<
    PredicateShape,
>
    decreases members, n,
{
    if n <= 0 || n > members.len() {
        Seq::empty()
    } else {
        let before = member_conditions(members, n - 1);
        let (k, v) = members[n - 1];
        if k == "AND"@ {
            match v {
                JsonShape::Array(items) => before.push(
                    PredicateShape::And(list_conditions(items, items.len() as int)),
                ),
                _ => before,
            }
        } else if k == "OR"@ {
            match v {
                JsonShape::Array(items) => before.push(
                    PredicateShape::Or(list_conditions(items, items.len() as int)),
                ),
                _ => before,
            }
        } else {
            match v {
                JsonShape::Text(t) => before.push(PredicateShape::Match(k, t)),
                _ => before,
            }
        }
    }
}

/// The predicates of the first `n` conditions of a list.
pub open spec fn list_conditions(items: Seq<JsonShape>, n: int) -> Seq<PredicateShape>
    decreases items, n,
{
    if n <= 0 || n > items.len() {
        Seq::empty()
    } else {
        list_conditions(items, n - 1).push(condition_shape(items[n - 1]))
    }
}

/// The shapes of a list of predicates.
pub open spec fn predicate_shapes(v: Seq<Predicate>) -> Seq<PredicateShape> {
    Seq::new(v.len(), |i: int| v[i].shape())
}

proof fn lemma_and_shape(v: Vec<Predicate>)
    ensures
        Predicate::And(v).shape() == PredicateShape::And(predicate_shapes(v@)),
        Predicate::Or(v).shape() == PredicateShape::Or(predicate_shapes(v@)),
{
    assert(Predicate::And(v).shape()->And_0 =~= predicate_shapes(v@));
    assert(Predicate::Or(v).shape()->Or_0 =~= predicate_shapes(v@));
}

fn compile_list(items: &Vec<Json>) -> (r: Vec<Predicate>)
    ensures
        predicate_shapes(r@) == list_conditions(
            crate::meta::shapes_of(items@),
            items.len() as int,
        ),
    decreases items,
{
    let ghost shapes = crate::meta::shapes_of(items@);
    let mut out: Vec<Predicate> = Vec::new();
    let mut n: usize = 0;
    assert(predicate_shapes(out@) =~= list_conditions(shapes, 0));
    while n < items.len()
        invariant
            n <= items.len(),
            shapes == crate::meta::shapes_of(items@),
            predicate_shapes(out@) == list_conditions(shapes, n as int),
        decreases items.len() - n,
    {
        let ghost before = predicate_shapes(out@);
        proof {
            assert(decreases_to!(items => items@));
            assert(decreases_to!(items@ => items@[n as int]));
        }
        let p = compile_when_value(&items[n]);
        let ghost shape = p.shape();
        out.push(p);
        assert(predicate_shapes(out@) =~= before.push(shape));
        n += 1;
    }
    out
}

fn compile_when_value(cond: &Json) -> (r: Predicate)
    ensures
        r.shape() == condition_shape(cond.shape()),
    decreases cond,
{
    match cond {
        Json::Object(members) => {
            let ghost shapes = cond.shape()->Object_0;
            let mut ands: Vec<Predicate> = Vec::new();
            let mut n: usize = 0;
            assert(predicate_shapes(ands@) =~= member_conditions(shapes, 0));
            while n < members.len()
                invariant
                    n <= members.len(),
                    *cond == Json::Object(*members),
                    shapes == cond.shape()->Object_0,
                    shapes.len() == members@.len(),
                    predicate_shapes(ands@) == member_conditions(shapes, n as int),
                decreases members.len() - n,
            {
                let ghost before = predicate_shapes(ands@);
                let key = &members[n].0;
                let value = &members[n].1;
                assert(shapes[n as int] == (members@[n as int].0@, members@[n as int].1.shape()));
                proof {
                    assert(decreases_to!(cond => cond->Object_0));
                    assert(decreases_to!(members@ => members@[n as int]));
                    assert(decreases_to!(members@[n as int] => members@[n as int].1));
                }
                if str_eq(key.as_str(), "AND") {
                    if let Json::Array(items) = value {
                        assert(decreases_to!(value => value->Array_0));
                        assert(value.shape()->Array_0 =~= crate::meta::shapes_of(items@));
                        let list = compile_list(items);
                        proof {
                            lemma_and_shape(list);
                        }
                        let p = Predicate::And(list);
                        let ghost shape = p.shape();
                        ands.push(p);
                        assert(predicate_shapes(ands@) =~= before.push(shape));
                    }
                } else if str_eq(key.as_str(), "OR") {
                    if let Json::Array(items) = value {
                        assert(decreases_to!(value => value->Array_0));
                        assert(value.shape()->Array_0 =~= crate::meta::shapes_of(items@));
                        let list = compile_list(items);
                        proof {
                            lemma_and_shape(list);
                        }
                        let p = Predicate::Or(list);
                        let ghost shape = p.shape();
                        ands.push(p);
                        assert(predicate_shapes(ands@) =~= before.push(shape));
                    }
                } else if let Json::Text(t) = value {
                    let p = Predicate::Match(key.clone(), t.clone());
                    let ghost shape = p.shape();
                    ands.push(p);
                    assert(predicate_shapes(ands@) =~= before.push(shape));
                }
                n += 1;
            }
            assert(cond.shape() == JsonShape::Object(shapes));
            if ands.len() == 0 {
                Predicate::Always
            } else {
                proof {
                    lemma_and_shape(ands);
                }
                Predicate::And(ands)
            }
        },
        _ => Predicate::Always,
    }
}

/// The predicate of an optional condition: none always holds.
pub open spec fn optional_condition(cond: Option<Json>) -> PredicateShape {
    match cond {
        Some(j) => condition_shape(j.shape()),
        None => PredicateShape::Always,
    }
}

/// Compiles a condition into a predicate.
pub fn compile_when(cond: Option<&Json>) -> (r: Predicate)
    ensures
        match cond {
            Some(j) => r.shape() == condition_shape(j.shape()),
            None => r.shape() == PredicateShape::Always,
        },
{
    match cond {
        Some(j) => compile_when_value(j),
        None => Predicate::Always,
    }
}

/// The matches of the first `n` `name=value` pieces of a key.
pub open spec fn key_matches(pieces: Seq<Seq<char>>, n: int) -> Seq<PredicateShape>
    decreases n,
{
    if n <= 0 {
        Seq::empty()
    } else {
        let before = key_matches(pieces, n - 1);
        match split_once(pieces[n - 1], '=') {
            Some((k, v)) => before.push(PredicateShape::Match(trim(k), trim(v))),
            None => before,
        }
    }
}

/// The predicate of a variant key: `axis=x` matches, several pieces must all
/// match, and a key without pieces always holds.
pub open spec fn key_shape(key: Seq<char>) -> PredicateShape {
    let pieces = split(trim(key), ',');
    let parts = key_matches(pieces, pieces.len() as int);
    if trim(key).len() == 0 || parts.len() == 0 {
        PredicateShape::Always
    } else if parts.len() == 1 {
        parts[0]
    } else {
        PredicateShape::And(parts)
    }
}

fn variant_key_predicate(key: &str) -> (r: Predicate)
    ensures
        r.shape() == key_shape(key@),
{
    let c = chars_of(key);
    let t = trim_chars(&c);
    if t.len() == 0 {
        return Predicate::Always;
    }
    let pieces = split_chars(&t, ',');
    let ghost all = split(trim(key@), ',');
    let mut ands: Vec<Predicate> = Vec::new();
    let mut n: usize = 0;
    assert(predicate_shapes(ands@) =~= key_matches(all, 0));
    while n < pieces.len()
        invariant
            n <= pieces.len(),
            pieces_of(pieces@) == all,
            predicate_shapes(ands@) == key_matches(all, n as int),
        decreases pieces.len() - n,
    {
        let ghost before = predicate_shapes(ands@);
        assert(all[n as int] == pieces@[n as int]@);
        if let Some((k, v)) = split_once_chars(&pieces[n], '=') {
            let p = Predicate::Match(trim_string(&k), trim_string(&v));
            let ghost shape = p.shape();
            ands.push(p);
            assert(predicate_shapes(ands@) =~= before.push(shape));
        }
        n += 1;
    }
    if ands.len() == 0 {
        Predicate::Always
    } else if ands.len() == 1 {
        let ghost only = ands@[0].shape();
        assert(predicate_shapes(ands@)[0] == only);
        let p = ands.swap_remove(0);
        p
    } else {
        proof {
            lemma_and_shape(ands);
        }
        Predicate::And(ands)
    }
}

/// The name of a model reference: without a namespace it is the block's.
pub open spec fn model_name(ns: Seq<char>, reference: Seq<char>) -> (Seq<char>, Seq<char>) {
    match split_once(reference, ':') {
        Some(p) => p,
        None => (ns, reference),
    }
}

/// No turn.
pub open spec fn no_turn() -> Angle {
    Angle { degrees: F32 { bits: 0 }, quarters: 0, whole: 0 }
}

/// The instance of a choice with its model. Pools weigh their choices, parts
/// do not.
pub open spec fn instance_of(v: RawVariant, model: ModelId, weighted: bool) -> ModelInstance {
    ModelInstance {
        model,
        rot: VariantRot {
            x: match v.x {
                Some(a) => a,
                None => no_turn(),
            },
            y: match v.y {
                Some(a) => a,
                None => no_turn(),
            },
            uvlock: v.uvlock == Some(true),
        },
        weight: if weighted && v.weight is Some && v.weight->0 > 1 {
            v.weight->0
        } else {
            1
        },
    }
}

/// One list with another item, where there are both.
pub open spec fn pushed<T>(before: Option<Seq<T>>, next: Option<T>) -> Option<Seq<T>> {
    match (before, next) {
        (Some(v), Some(x)) => Some(v.push(x)),
        _ => None,
    }
}

/// The table and the instances after the first `n` choices; no instances
/// where a model does not resolve.
pub open spec fn choices_compiled(
    raws: RawModels,
    ns: Seq<char>,
    t: TableShape,
    list: Seq<RawVariant>,
    weighted: bool,
    n: int,
) -> (TableShape, Option<Seq<ModelInstance>>)
    decreases n,
{
    if n <= 0 {
        (t, Some(Seq::empty()))
    } else {
        let (t1, before) = choices_compiled(raws, ns, t, list, weighted, n - 1);
        let (t2, id) = with_model(raws, t1, model_name(ns, list[n - 1].model@));
        (
            t2,
            pushed(
                before,
                match id {
                    Some(m) => Some(instance_of(list[n - 1], m, weighted)),
                    None => None,
                },
            ),
        )
    }
}

/// The table and the entries after the first `n` variants; no entries where a
/// model does not resolve.
pub open spec fn variants_compiled(
    raws: RawModels,
    ns: Seq<char>,
    t: TableShape,
    variants: Seq<(String, RawVariantEntry)>,
    n: int,
) -> (TableShape, Option<Seq<(PredicateShape, Seq<ModelInstance>)>>)
    decreases n,
{
    if n <= 0 {
        (t, Some(Seq::empty()))
    } else {
        let (t1, before) = variants_compiled(raws, ns, t, variants, n - 1);
        let list = variants[n - 1].1.list();
        let (t2, models) = choices_compiled(raws, ns, t1, list, true, list.len() as int);
        (
            t2,
            pushed(
                before,
                match models {
                    Some(m) => Some((key_shape(variants[n - 1].0@), m)),
                    None => None,
                },
            ),
        )
    }
}

/// The table and the entries after the first `n` parts; no entries where a
/// model does not resolve.
pub open spec fn parts_compiled(
    raws: RawModels,
    ns: Seq<char>,
    t: TableShape,
    parts: Seq<RawMultipartPart>,
    n: int,
) -> (TableShape, Option<Seq<(PredicateShape, Seq<ModelInstance>)>>)
    decreases n,
{
    if n <= 0 {
        (t, Some(Seq::empty()))
    } else {
        let (t1, before) = parts_compiled(raws, ns, t, parts, n - 1);
        let list = parts[n - 1].apply.list();
        let (t2, models) = choices_compiled(raws, ns, t1, list, false, list.len() as int);
        (
            t2,
            pushed(
                before,
                match models {
                    Some(m) => Some((optional_condition(parts[n - 1].when), m)),
                    None => None,
                },
            ),
        )
    }
}

/// A single variant that always holds is no choice by state.
pub open spec fn variants_appearance(
    entries: Seq<(PredicateShape, Seq<ModelInstance>)>,
) -> AppearanceShape {
    if entries.len() == 1 && entries[0].0 == PredicateShape::Always {
        AppearanceShape::Static(entries[0].1)
    } else {
        AppearanceShape::Variants(entries)
    }
}

fn resolve_choice(
    v: &RawVariant,
    ns: &str,
    raws: &RawModels,
    table: &mut ModelTable,
    weighted: bool,
) -> (r: Option<ModelInstance>)
    ensures
        ({
            let (t, id) = with_model(*raws, old(table).shape(), model_name(ns@, v.model@));
            final(table).shape() == t && r == (match id {
                Some(m) => Some(instance_of(*v, m, weighted)),
                None => None,
            })
        }),
{
    let c = chars_of(v.model.as_str());
    let found = match split_once_chars(&c, ':') {
        Some((mns, p)) => {
            let mns = string_of(&mns);
            let p = string_of(&p);
            table.resolve(raws, mns.as_str(), p.as_str())
        },
        None => table.resolve(raws, ns, v.model.as_str()),
    };
    let model = match found {
        Some(m) => m,
        None => {
            return None;
        },
    };
    let none = Angle { degrees: F32 { bits: 0 }, quarters: 0, whole: 0 };
    let weight: u32 = match v.weight {
        Some(w) => if weighted && w > 1 {
            w
        } else {
            1
        },
        None => 1,
    };
    Some(
        ModelInstance {
            model,
            rot: VariantRot {
                x: match v.x {
                    Some(a) => a,
                    None => none,
                },
                y: match v.y {
                    Some(a) => a,
                    None => none,
                },
                uvlock: match v.uvlock {
                    Some(b) => b,
                    None => false,
                },
            },
            weight,
        },
    )
}

/// The instances of a list of choices; none where a model does not resolve.
fn resolve_choices(
    list: &[RawVariant],
    ns: &str,
    raws: &RawModels,
    table: &mut ModelTable,
    weighted: bool,
) -> (r: Option<Vec<ModelInstance>>)
    ensures
        (final(table).shape(), instances_of(r)) == choices_compiled(
            *raws,
            ns@,
            old(table).shape(),
            list@,
            weighted,
            list@.len() as int,
        ),
{
    let ghost start = table.shape();
    let mut out: Option<Vec<ModelInstance>> = Some(Vec::new());
    let mut n: usize = 0;
    while n < list.len()
        invariant
            n <= list.len(),
            (table.shape(), instances_of(out)) == choices_compiled(
                *raws,
                ns@,
                start,
                list@,
                weighted,
                n as int,
            ),
        decreases list.len() - n,
    {
        let next = resolve_choice(&list[n], ns, raws, table, weighted);
        out = with_next(out, next);
        n += 1;
    }
    out
}

/// The instances of a list, where there is one.
pub open spec fn instances_of(v: Option<Vec<ModelInstance>>) -> Option<Seq<ModelInstance>> {
    match v {
        Some(m) => Some(m@),
        None => None,
    }
}

fn with_next(list: Option<Vec<ModelInstance>>, next: Option<ModelInstance>) -> (r: Option<
    Vec<ModelInstance>,
>)
    ensures
        instances_of(r) == pushed(instances_of(list), next),
{
    match (list, next) {
        (Some(v), Some(x)) => {
            let mut v = v;
            v.push(x);
            Some(v)
        },
        _ => None,
    }
}

fn resolve_one(
    v: &RawVariant,
    ns: &str,
    raws: &RawModels,
    table: &mut ModelTable,
    weighted: bool,
) -> (r: Option<Vec<ModelInstance>>)
    ensures
        (final(table).shape(), instances_of(r)) == choices_compiled(
            *raws,
            ns@,
            old(table).shape(),
            seq![*v],
            weighted,
            1,
        ),
{
    let ghost start = table.shape();
    let out: Option<Vec<ModelInstance>> = Some(Vec::new());
    assert(choices_compiled(*raws, ns@, start, seq![*v], weighted, 0) == (
        start,
        Some(Seq::<ModelInstance>::empty()),
    ));
    let next = resolve_choice(v, ns, raws, table, weighted);
    with_next(out, next)
}

/// Compiles variants into entries, preserving declaration order. `ns` is the
/// block's namespace; models are compiled into the table on first use. A
/// reference to a model that does not compile is an error; what else compiled
/// stays in the table.
pub fn compile_variants(
    raw: &RawBlockstate,
    ns: &str,
    raws: &RawModels,
    table: &mut ModelTable,
) -> (r: AssetResult<StateAppearance>)
    ensures
        match raw.variants {
            Some(variants) => {
                let (t, entries) = variants_compiled(
                    *raws,
                    ns@,
                    old(table).shape(),
                    variants@,
                    variants.len() as int,
                );
                &&& final(table).shape() == t
                &&& match entries {
                    Some(entries) => r matches Ok(a) && a.shape() == variants_appearance(entries),
                    None => fails_with(r, "blockstate"@, "unresolved model reference"@),
                }
            },
            None => fails_with(r, "blockstate"@, "no variants section"@)
                && final(table).shape() == old(table).shape(),
        },
{
    let ghost start = table.shape();
    match &raw.variants {
        None => err("blockstate", "no variants section"),
        Some(variants) => {
            let mut entries: Vec<VariantEntry> = Vec::new();
            let mut whole = true;
            let mut n: usize = 0;
            assert(variants_shape(entries@) =~= Seq::empty());
            while n < variants.len()
                invariant
                    n <= variants.len(),
                    (
                        table.shape(),
                        if whole {
                            Some(variants_shape(entries@))
                        } else {
                            None
                        },
                    ) == variants_compiled(
                        *raws,
                        ns@,
                        start,
                        variants@,
                        n as int,
                    ),
                decreases variants.len() - n,
            {
                let ghost before = variants_shape(entries@);
                let models = match &variants[n].1 {
                    RawVariantEntry::One(v) => resolve_one(v, ns, raws, table, true),
                    RawVariantEntry::Many(v) => resolve_choices(v, ns, raws, table, true),
                };
                let pred = variant_key_predicate(variants[n].0.as_str());
                match models {
                    Some(models) => {
                        let ghost pair = (pred.shape(), models@);
                        entries.push(VariantEntry { when: pred, models });
                        assert(variants_shape(entries@) =~= before.push(pair));
                    },
                    None => {
                        whole = false;
                    },
                }
                n += 1;
            }
            if !whole {
                return err("blockstate", "unresolved model reference");
            }
            let ghost shapes = variants_shape(entries@);
            if entries.len() == 1 {
                let always = match &entries[0].when {
                    Predicate::Always => true,
                    _ => false,
                };
                assert(shapes[0] == (entries@[0].when.shape(), entries@[0].models@));
                if always {
                    let entry = entries.swap_remove(0);
                    return Ok(StateAppearance::Static(entry.models));
                }
            }
            Ok(StateAppearance::Variants(entries))
        },
    }
}

/// Compiles multipart parts, in declaration order. A reference to a model that
/// does not compile is an error.
pub fn compile_multipart(
    raw: &RawBlockstate,
    ns: &str,
    raws: &RawModels,
    table: &mut ModelTable,
) -> (r: AssetResult<StateAppearance>)
    ensures
        match raw.multipart {
            Some(parts) => {
                let (t, entries) = parts_compiled(
                    *raws,
                    ns@,
                    old(table).shape(),
                    parts@,
                    parts.len() as int,
                );
                &&& final(table).shape() == t
                &&& match entries {
                    Some(entries) => r matches Ok(a) && a.shape() == AppearanceShape::Multipart(entries),
                    None => fails_with(r, "blockstate"@, "unresolved model reference"@),
                }
            },
            None => fails_with(r, "blockstate"@, "no multipart section"@)
                && final(table).shape() == old(table).shape(),
        },
{
    let ghost start = table.shape();
    match &raw.multipart {
        None => err("blockstate", "no multipart section"),
        Some(parts) => {
            let mut entries: Vec<MultipartEntry> = Vec::new();
            let mut whole = true;
            let mut n: usize = 0;
            assert(multipart_shape(entries@) =~= Seq::empty());
            while n < parts.len()
                invariant
                    n <= parts.len(),
                    (
                        table.shape(),
                        if whole {
                            Some(multipart_shape(entries@))
                        } else {
                            None
                        },
                    ) == parts_compiled(
                        *raws,
                        ns@,
                        start,
                        parts@,
                        n as int,
                    ),
                decreases parts.len() - n,
            {
                let ghost before = multipart_shape(entries@);
                let pred = compile_when(parts[n].when.as_ref());
                let models = match &parts[n].apply {
                    RawApply::One(v) => resolve_one(v, ns, raws, table, false),
                    RawApply::Many(v) => resolve_choices(v, ns, raws, table, false),
                };
                match models {
                    Some(models) => {
                        let ghost pair = (pred.shape(), models@);
                        entries.push(MultipartEntry { when: pred, models });
                        assert(multipart_shape(entries@) =~= before.push(pair));
                    },
                    None => {
                        whole = false;
                    },
                }
                n += 1;
            }
            if !whole {
                return err("blockstate", "unresolved model reference");
            }
            Ok(StateAppearance::Multipart(entries))
        },
    }
}

/// At most 0.01.
pub open spec fn at_low_edge(v: F32) -> bool {
    v.le_spec(F32 { bits: 0x3c23_d70a })
}

/// At least 15.99.
pub open spec fn at_high_edge(v: F32) -> bool {
    (F32 { bits: 0x417f_d70a }).le_spec(v)
}

/// The values span the block from edge to edge.
pub open spec fn spans_block(low: F32, high: F32) -> bool {
    at_low_edge(low) && at_high_edge(high)
}

/// A quad is a face of a full cube: untinted, culled by the neighbor that it
/// looks at, on its own side of the block, and spanning the block along both
/// other axes.
pub open spec fn is_cube_face(q: FaceQuad) -> bool {
    let b = q.bounds;
    let x = spans_block(b[0], b[3]);
    let y = spans_block(b[1], b[4]);
    let z = spans_block(b[2], b[5]);
    &&& match q.dir {
        Direction::Down => at_low_edge(b[1]) && x && z,
        Direction::Up => at_high_edge(b[4]) && x && z,
        Direction::North => at_low_edge(b[2]) && x && y,
        Direction::South => at_high_edge(b[5]) && x && y,
        Direction::West => at_low_edge(b[0]) && y && z,
        Direction::East => at_high_edge(b[3]) && y && z,
    }
    &&& q.cull == Some(q.dir)
    &&& q.tint is None
}

/// Some quad faces a direction.
pub open spec fn faces(quads: Seq<FaceQuad>, d: Direction) -> bool {
    exists|i: int| 0 <= i < quads.len() && (#[trigger] quads[i]).dir == d
}

/// Six cube faces, one in each direction.
pub open spec fn is_full_cube(quads: Seq<FaceQuad>) -> bool {
    &&& quads.len() == 6
    &&& forall|i: int| 0 <= i < 6 ==> is_cube_face(#[trigger] quads[i])
    &&& forall|d: Direction| #[trigger] faces(quads, d)
}

fn low_edge(v: F32) -> (r: bool)
    ensures
        r == at_low_edge(v),
{
    v.le(F32 { bits: 0x3c23_d70a })
}

fn high_edge(v: F32) -> (r: bool)
    ensures
        r == at_high_edge(v),
{
    (F32 { bits: 0x417f_d70a }).le(v)
}

fn cube_face(q: &FaceQuad) -> (r: bool)
    ensures
        r == is_cube_face(*q),
{
    let b = q.bounds;
    let x = low_edge(b[0]) && high_edge(b[3]);
    let y = low_edge(b[1]) && high_edge(b[4]);
    let z = low_edge(b[2]) && high_edge(b[5]);
    let placed = match q.dir {
        Direction::Down => low_edge(b[1]) && x && z,
        Direction::Up => high_edge(b[4]) && x && z,
        Direction::North => low_edge(b[2]) && x && y,
        Direction::South => high_edge(b[5]) && x && y,
        Direction::West => low_edge(b[0]) && y && z,
        Direction::East => high_edge(b[3]) && y && z,
    };
    let culled = match q.cull {
        Some(d) => d == q.dir,
        None => false,
    };
    placed && culled && q.tint.is_none()
}

fn any_faces(quads: &[FaceQuad], d: Direction) -> (r: bool)
    ensures
        r == faces(quads@, d),
{
    let mut i: usize = 0;
    while i < quads.len()
        invariant
            i <= quads.len(),
            forall|k: int| 0 <= k < i ==> (#[trigger] quads@[k]).dir != d,
        decreases quads.len() - i,
    {
        if quads[i].dir == d {
            assert(quads@[i as int].dir == d);
            return true;
        }
        i += 1;
    }
    false
}

/// Classifies occlusion from a compiled model's quads: a full cube occludes,
/// everything else does not.
pub fn classify_occlusion(quads: &[FaceQuad]) -> (r: Occlusion)
    ensures
        r == (if is_full_cube(quads@) {
            Occlusion::Full
        } else {
            Occlusion::Never
        }),
{
    if quads.len() != 6 {
        return Occlusion::Never;
    }
    let mut i: usize = 0;
    while i < quads.len()
        invariant
            i <= quads.len(),
            quads.len() == 6,
            forall|k: int| 0 <= k < i ==> is_cube_face(#[trigger] quads@[k]),
        decreases quads.len() - i,
    {
        if !cube_face(&quads[i]) {
            assert(!is_cube_face(quads@[i as int]));
            return Occlusion::Never;
        }
        i += 1;
    }
    let down = any_faces(quads, Direction::Down);
    let up = any_faces(quads, Direction::Up);
    let north = any_faces(quads, Direction::North);
    let south = any_faces(quads, Direction::South);
    let west = any_faces(quads, Direction::West);
    let east = any_faces(quads, Direction::East);
    if down && up && north && south && west && east {
        assert forall|d: Direction| #[trigger] faces(quads@, d) by {
            match d {
                Direction::Down => {},
                Direction::Up => {},
                Direction::North => {},
                Direction::South => {},
                Direction::West => {},
                Direction::East => {},
            }
        }
        Occlusion::Full
    } else {
        Occlusion::Never
    }
}

/// Observing a value keeps a schema well formed.
proof fn lemma_with_value_wf(s: Schema, key: Seq<char>, value: Seq<char>)
    requires
        schema_wf(s),
    ensures
        schema_wf(with_value(s, key, value)),
{
    lemma_key_pos_bounds(s, key);
    let r = with_value(s, key, value);
    let i = key_pos(s, key);
    assert forall|a: int, b: int| 0 <= a < b < r.len() implies (#[trigger] r[a]).0 != (
    #[trigger] r[b]).0 by {
        if i >= s.len() && b == s.len() {
            assert(s[a].0 != key);
        } else {
            assert(r[a].0 == s[a].0 && r[b].0 == s[b].0);
        }
    }
    assert forall|a: int| 0 <= a < r.len() implies (#[trigger] r[a]).1.len() > 0 by {
        if a < s.len() {
            assert(s[a].1.len() > 0);
        }
    }
    assert forall|a: int| 0 <= a < r.len() implies (#[trigger] r[a]).1.no_duplicates() by {
        if a < s.len() {
            assert(s[a].1.no_duplicates());
        }
    }
}

pub proof fn lemma_key_pos_bounds<V>(v: Seq<(Seq<char>, V)>, key: Seq<char>)
    ensures
        0 <= key_pos(v, key) <= v.len(),
        key_pos(v, key) < v.len() ==> v[key_pos(v, key)].0 == key,
        forall|k: int| 0 <= k < key_pos(v, key) ==> (#[trigger] v[k]).0 != key,
    decreases v.len(),
{
    if v.len() > 0 && v[0].0 != key {
        lemma_key_pos_bounds(v.skip(1), key);
        assert forall|k: int| 0 <= k < key_pos(v, key) implies (#[trigger] v[k]).0 != key by {
            if k > 0 {
                assert(v[k] == v.skip(1)[k - 1]);
            }
        }
    }
}

proof fn lemma_pieces_wf(s: Schema, pieces: Seq<Seq<char>>, n: int)
    requires
        schema_wf(s),
    ensures
        schema_wf(with_pieces(s, pieces, n)),
    decreases n,
{
    if n > 0 {
        lemma_pieces_wf(s, pieces, n - 1);
        if let Some((k, v)) = split_once(pieces[n - 1], '=') {
            lemma_with_value_wf(with_pieces(s, pieces, n - 1), trim(k), trim(v));
        }
    }
}

proof fn lemma_alternatives_wf(s: Schema, key: Seq<char>, alts: Seq<Seq<char>>, n: int)
    requires
        schema_wf(s),
    ensures
        schema_wf(with_alternatives(s, key, alts, n)),
    decreases n,
{
    if n > 0 {
        lemma_alternatives_wf(s, key, alts, n - 1);
        lemma_with_value_wf(with_alternatives(s, key, alts, n - 1), key, trim(alts[n - 1]));
    }
}

proof fn lemma_condition_wf(s: Schema, cond: JsonShape)
    requires
        schema_wf(s),
    ensures
        schema_wf(with_condition(s, cond)),
    decreases cond, 0int,
{
    match cond {
        JsonShape::Object(members) => {
            lemma_members_wf(s, members, members.len() as int);
        },
        _ => {},
    }
}

proof fn lemma_members_wf(s: Schema, members: Seq<(Seq<char>, JsonShape)>, n: int)
    requires
        schema_wf(s),
    ensures
        schema_wf(with_members(s, members, n)),
    decreases members, n,
{
    if 0 < n <= members.len() {
        lemma_members_wf(s, members, n - 1);
        let before = with_members(s, members, n - 1);
        let (k, v) = members[n - 1];
        if is_combinator(k) {
            match v {
                JsonShape::Array(items) => {
                    lemma_conditions_wf(before, items, items.len() as int);
                },
                _ => {},
            }
        } else {
            match v {
                JsonShape::Text(t) => {
                    lemma_alternatives_wf(before, k, split(t, '|'), split(t, '|').len() as int);
                },
                _ => {},
            }
        }
    }
}

proof fn lemma_conditions_wf(s: Schema, items: Seq<JsonShape>, n: int)
    requires
        schema_wf(s),
    ensures
        schema_wf(with_conditions(s, items, n)),
    decreases items, n,
{
    if 0 < n <= items.len() {
        lemma_conditions_wf(s, items, n - 1);
        lemma_condition_wf(with_conditions(s, items, n - 1), items[n - 1]);
    }
}

proof fn lemma_variant_keys_wf(s: Schema, variants: Seq<(String, RawVariantEntry)>, n: int)
    requires
        schema_wf(s),
    ensures
        schema_wf(with_variant_keys(s, variants, n)),
    decreases n,
{
    if n > 0 {
        lemma_variant_keys_wf(s, variants, n - 1);
        let pieces = split(variants[n - 1].0@, ',');
        lemma_pieces_wf(with_variant_keys(s, variants, n - 1), pieces, pieces.len() as int);
    }
}

proof fn lemma_parts_wf(s: Schema, parts: Seq<RawMultipartPart>, n: int)
    requires
        schema_wf(s),
    ensures
        schema_wf(with_parts(s, parts, n)),
    decreases n,
{
    if n > 0 {
        lemma_parts_wf(s, parts, n - 1);
        if let Some(j) = parts[n - 1].when {
            lemma_condition_wf(with_parts(s, parts, n - 1), j.shape());
        }
    }
}

/// Every extracted schema has distinct property names, and each property
/// distinct values, at least one: packing its states is reversible.
pub proof fn law_extracted_schema_is_wf(raw: RawBlockstate)
    requires
        observed_schema(raw).len() <= usize::MAX,
    ensures
        schema_wf(sorted_schema(observed_schema(raw))),
{
    let empty = Schema::empty();
    let s = match raw.variants {
        Some(v) => with_variant_keys(empty, v@, v.len() as int),
        None => empty,
    };
    if let Some(v) = raw.variants {
        lemma_variant_keys_wf(empty, v@, v.len() as int);
    }
    if let Some(p) = raw.multipart {
        lemma_parts_wf(s, p@, p.len() as int);
    }
    let seen = observed_schema(raw);
    assert(schema_wf(seen));
    lemma_sorted_schema_wf(seen);
}

proof fn lemma_sorted_schema_wf(s: Schema)
    requires
        schema_wf(s),
        s.len() <= usize::MAX,
    ensures
        schema_wf(sorted_schema(s)),
{
    let r = sorted_schema(s);
    let order = schema_order(s);
    lemma_schema_order(s);
    assert forall|a: int, b: int| 0 <= a < b < r.len() implies (#[trigger] r[a]).0 != (
    #[trigger] r[b]).0 by {
        assert(order[a] != order[b]);
        let x = order[a] as int;
        let y = order[b] as int;
        if x < y {
            assert(s[x].0 != s[y].0);
        } else {
            assert(s[y].0 != s[x].0);
        }
    }
    assert forall|a: int| 0 <= a < r.len() implies (#[trigger] r[a]).1.len() > 0 by {
        assert(s[order[a] as int].1.len() > 0);
    }
    assert forall|a: int| 0 <= a < r.len() implies (#[trigger] r[a]).1.no_duplicates() by {
        assert(s[order[a] as int].1.no_duplicates());
    }
}

/// A schema has a stable order.
proof fn lemma_schema_order(s: Schema)
    requires
        s.len() <= usize::MAX,
    ensures
        is_stable_order(schema_order(s), s.len() as int, schema_le(s)),
{
    let le = schema_le(s);
    assert(crate::order::is_total_preorder(le)) by {
        assert forall|a: int, b: int| #[trigger] le(a, b) || le(b, a) by {
            crate::order::law_pair_order(
                (s[a].0, Seq::empty()),
                (s[b].0, Seq::empty()),
                (s[a].0, Seq::empty()),
            );
        }
        assert forall|a: int, b: int, c: int| #[trigger] le(a, b) && #[trigger] le(
            b,
            c,
        ) implies le(a, c) by {
            crate::order::law_pair_order(
                (s[a].0, Seq::empty()),
                (s[b].0, Seq::empty()),
                (s[c].0, Seq::empty()),
            );
        }
    }
    crate::order::lemma_order_exists(s.len() as int, le);
}

/// Conjunctions and disjunctions by their parts.
proof fn lemma_parts_hold(ps: Seq<PredicateShape>, props: Props)
    ensures
        PredicateShape::And(ps).holds(props) <==> forall|i: int|
            0 <= i < ps.len() ==> (#[trigger] ps[i]).holds(props),
        PredicateShape::Or(ps).holds(props) <==> exists|i: int|
            0 <= i < ps.len() && (#[trigger] ps[i]).holds(props),
{
    let a = PredicateShape::And(ps);
    let o = PredicateShape::Or(ps);
    assert(a->And_0 == ps);
    assert(o->Or_0 == ps);
}

/// A pattern matches each of its alternatives and nothing else.
pub proof fn law_patterns_match_alternatives(p: Seq<char>, q: Seq<char>, v: Seq<char>)
    requires
        !q.contains('|'),
    ensures
        value_matches_spec(q, v) <==> v == q,
        value_matches_spec(p.push('|') + q, v) <==> value_matches_spec(p, v) || v == q,
{
    crate::paths::law_separators_divide(p, q, '|');
    let one = seq![q];
    assert(one.contains(v) <==> v == q) by {
        assert(one[0] == q);
    }
    let all = split(p, '|');
    let more = all.push(q);
    if more.contains(v) {
        let i = choose|i: int| 0 <= i < more.len() && more[i] == v;
        if i < all.len() {
            assert(all[i] == v);
        }
    }
    if all.contains(v) {
        let i = choose|i: int| 0 <= i < all.len() && all[i] == v;
        assert(more[i] == v);
    }
    assert(more[all.len() as int] == q);
}

/// A conjunction holds where all its parts do, a disjunction where one does; a
/// match holds where an entry of its property matches.
pub proof fn law_predicates_combine(
    ps: Seq<PredicateShape>,
    p: PredicateShape,
    k: Seq<char>,
    v: Seq<char>,
    props: Props,
    entry: (Seq<char>, Seq<char>),
)
    ensures
        PredicateShape::Always.holds(props),
        PredicateShape::And(Seq::empty()).holds(props),
        !PredicateShape::Or(Seq::empty()).holds(props),
        PredicateShape::And(ps.push(p)).holds(props) <==> PredicateShape::And(ps).holds(props)
            && p.holds(props),
        PredicateShape::Or(ps.push(p)).holds(props) <==> PredicateShape::Or(ps).holds(props)
            || p.holds(props),
        !PredicateShape::Match(k, v).holds(Seq::empty()),
        PredicateShape::Match(k, v).holds(props.push(entry)) <==> PredicateShape::Match(k, v).holds(
            props,
        ) || (entry.0 == k && value_matches_spec(v, entry.1)),
{
    let all = ps.push(p);
    let n = ps.len() as int;
    lemma_parts_hold(all, props);
    lemma_parts_hold(ps, props);
    lemma_parts_hold(Seq::empty(), props);
    assert(all[n] == p);
    assert(forall|i: int| 0 <= i < n ==> #[trigger] all[i] == ps[i]);
    if PredicateShape::And(all).holds(props) {
        assert(all[n].holds(props));
        assert forall|i: int| 0 <= i < n implies (#[trigger] ps[i]).holds(props) by {
            assert(all[i].holds(props));
        }
    }
    if PredicateShape::And(ps).holds(props) && p.holds(props) {
        assert forall|i: int| 0 <= i < all.len() implies (#[trigger] all[i]).holds(props) by {
            if i < n {
                assert(ps[i].holds(props));
            }
        }
    }
    if PredicateShape::Or(all).holds(props) {
        let i = choose|i: int| 0 <= i < all.len() && (#[trigger] all[i]).holds(props);
        if i < n {
            assert(ps[i].holds(props));
        }
    }
    if PredicateShape::Or(ps).holds(props) {
        let i = choose|i: int| 0 <= i < n && (#[trigger] ps[i]).holds(props);
        assert(all[i].holds(props));
    }
    if p.holds(props) {
        assert(all[n].holds(props));
    }
    let more = props.push(entry);
    let m = props.len() as int;
    assert(more[m] == entry);
    if PredicateShape::Match(k, v).holds(props) {
        let i = choose|i: int|
            0 <= i < m && (#[trigger] props[i]).0 == k && value_matches_spec(v, props[i].1);
        assert(more[i].0 == k && value_matches_spec(v, more[i].1));
    }
    if PredicateShape::Match(k, v).holds(more) {
        let i = choose|i: int|
            0 <= i < more.len() && (#[trigger] more[i]).0 == k && value_matches_spec(v, more[i].1);
        if i < m {
            assert(props[i].0 == k && value_matches_spec(v, props[i].1));
        }
    }
}

/// What a member of a condition asks: `AND` that all conditions of its list
/// hold, `OR` that one does, any other key that the property matches the text;
/// a member of another kind asks nothing.
pub open spec fn member_holds(k: Seq<char>, v: JsonShape, props: Props) -> bool {
    match v {
        JsonShape::Array(items) => if k == "AND"@ {
            forall|i: int|
                0 <= i < items.len() ==> condition_shape(#[trigger] items[i]).holds(props)
        } else if k == "OR"@ {
            exists|i: int|
                0 <= i < items.len() && condition_shape(#[trigger] items[i]).holds(props)
        } else {
            true
        },
        JsonShape::Text(t) => k == "AND"@ || k == "OR"@ || PredicateShape::Match(k, t).holds(props),
        _ => true,
    }
}

proof fn lemma_list_conditions(items: Seq<JsonShape>, n: int)
    requires
        0 <= n <= items.len(),
    ensures
        list_conditions(items, n).len() == n,
        forall|i: int| 0 <= i < n ==> #[trigger] list_conditions(items, n)[i] == condition_shape(items[i]),
    decreases n,
{
    if n > 0 {
        lemma_list_conditions(items, n - 1);
    }
}

proof fn lemma_member_conditions(members: Seq<(Seq<char>, JsonShape)>, n: int, props: Props)
    requires
        0 <= n <= members.len(),
    ensures
        PredicateShape::And(member_conditions(members, n)).holds(props) <==> forall|i: int|
            0 <= i < n ==> member_holds((#[trigger] members[i]).0, members[i].1, props),
    decreases n,
{
    let parts = member_conditions(members, n);
    if n > 0 {
        let before = member_conditions(members, n - 1);
        let (k, v) = members[n - 1];
        lemma_member_conditions(members, n - 1, props);
        reveal_strlit("AND");
        reveal_strlit("OR");
        assert("AND"@.len() == 3 && "OR"@.len() == 2);
        if parts.len() > before.len() {
            law_predicates_combine(before, parts.last(), k, k, props, (k, k));
            assert(parts == before.push(parts.last()));
        } else {
            assert(parts == before);
        }
        if let JsonShape::Array(items) = v {
            let list = list_conditions(items, items.len() as int);
            lemma_parts_hold(list, props);
            lemma_list_conditions(items, items.len() as int);
            if k == "AND"@ {
                assert(PredicateShape::And(list).holds(props) <==> member_holds(k, v, props)) by {
                    assert forall|i: int| 0 <= i < items.len() implies (condition_shape(
                        #[trigger] items[i],
                    ).holds(props) <==> list[i].holds(props)) by {}
                    if PredicateShape::And(list).holds(props) {
                        assert forall|i: int| 0 <= i < items.len() implies condition_shape(
                            #[trigger] items[i],
                        ).holds(props) by {
                            assert(list[i].holds(props));
                        }
                    }
                    if member_holds(k, v, props) {
                        assert forall|i: int| 0 <= i < list.len() implies (#[trigger] list[i]).holds(
                            props,
                        ) by {
                            assert(condition_shape(items[i]).holds(props));
                        }
                    }
                }
            } else if k == "OR"@ {
                assert(PredicateShape::Or(list).holds(props) <==> member_holds(k, v, props)) by {
                    if PredicateShape::Or(list).holds(props) {
                        let i = choose|i: int|
                            0 <= i < list.len() && (#[trigger] list[i]).holds(props);
                        assert(condition_shape(items[i]).holds(props));
                    }
                    if member_holds(k, v, props) {
                        let i = choose|i: int|
                            0 <= i < items.len() && condition_shape(#[trigger] items[i]).holds(
                                props,
                            );
                        assert(list[i].holds(props));
                    }
                }
            }
        }
        assert(PredicateShape::And(parts).holds(props) <==> PredicateShape::And(before).holds(props)
            && member_holds(k, v, props));
        assert forall|i: int| 0 <= i < n - 1 implies (member_holds(
            (#[trigger] members[i]).0,
            members[i].1,
            props,
        ) || !member_holds(members[i].0, members[i].1, props)) by {}
        if PredicateShape::And(parts).holds(props) {
            assert forall|i: int| 0 <= i < n implies member_holds(
                (#[trigger] members[i]).0,
                members[i].1,
                props,
            ) by {
                if i == n - 1 {
                    assert(members[i] == (k, v));
                }
            }
        } else {
            if PredicateShape::And(before).holds(props) {
                assert(!member_holds(members[n - 1].0, members[n - 1].1, props));
            }
        }
    } else {
        assert(parts =~= Seq::empty());
        law_predicates_combine(parts, PredicateShape::Always, Seq::empty(), Seq::empty(), props, (Seq::empty(), Seq::empty()));
    }
}

/// A condition holds where every member of it does; one that is no object
/// always holds.
pub proof fn law_conditions_hold_member_by_member(
    members: Seq<(Seq<char>, JsonShape)>,
    s: Seq<char>,
    props: Props,
)
    ensures
        condition_shape(JsonShape::Object(members)).holds(props) <==> forall|i: int|
            0 <= i < members.len() ==> member_holds((#[trigger] members[i]).0, members[i].1, props),
        condition_shape(JsonShape::Text(s)).holds(props),
        condition_shape(JsonShape::Null).holds(props),
        condition_shape(JsonShape::Bool(true)).holds(props),
{
    lemma_member_conditions(members, members.len() as int, props);
    let parts = member_conditions(members, members.len() as int);
    lemma_parts_hold(parts, props);
    if parts.len() == 0 {
        assert(PredicateShape::And(parts).holds(props));
    }
}

/// What a piece of a variant key asks: `name=value` that the property matches
/// the value, and any other piece nothing.
pub open spec fn piece_holds(piece: Seq<char>, props: Props) -> bool {
    split_once(piece, '=') matches Some(p) ==> PredicateShape::Match(trim(p.0), trim(p.1)).holds(
        props,
    )
}

proof fn lemma_key_matches(pieces: Seq<Seq<char>>, n: int, props: Props)
    requires
        0 <= n <= pieces.len(),
    ensures
        PredicateShape::And(key_matches(pieces, n)).holds(props) <==> forall|i: int|
            0 <= i < n ==> piece_holds(#[trigger] pieces[i], props),
    decreases n,
{
    if n > 0 {
        let before = key_matches(pieces, n - 1);
        let parts = key_matches(pieces, n);
        lemma_key_matches(pieces, n - 1, props);
        let piece = pieces[n - 1];
        if parts.len() > before.len() {
            law_predicates_combine(before, parts.last(), piece, piece, props, (piece, piece));
            assert(parts == before.push(parts.last()));
        }
        assert(PredicateShape::And(parts).holds(props) <==> PredicateShape::And(before).holds(props)
            && piece_holds(piece, props));
        if PredicateShape::And(parts).holds(props) {
            assert forall|i: int| 0 <= i < n implies piece_holds(#[trigger] pieces[i], props) by {
                if i == n - 1 {
                    assert(pieces[i] == piece);
                }
            }
        } else if PredicateShape::And(before).holds(props) {
            assert(!piece_holds(pieces[n - 1], props));
        }
    }
}

/// A variant key holds where each of its pieces does; a blank key always
/// holds.
pub proof fn law_keys_hold_piece_by_piece(key: Seq<char>, props: Props)
    ensures
        key_shape(key).holds(props) <==> forall|i: int|
            0 <= i < split(trim(key), ',').len() ==> piece_holds(
                #[trigger] split(trim(key), ',')[i],
                props,
            ),
        trim(key).len() == 0 ==> key_shape(key) == PredicateShape::Always,
{
    let pieces = split(trim(key), ',');
    let parts = key_matches(pieces, pieces.len() as int);
    lemma_parts_hold(parts, props);
    lemma_key_matches(pieces, pieces.len() as int, props);
    if parts.len() == 0 {
        assert(PredicateShape::And(parts).holds(props));
    } else if parts.len() == 1 {
        assert(PredicateShape::And(parts).holds(props) <==> parts[0].holds(props));
    }
    if trim(key).len() == 0 {
        let e = Seq::<char>::empty();
        assert(trim(key) =~= e);
        crate::paths::law_separators_divide(e, e, ',');
        crate::text::law_first_separator_divides(e, e, '=');
        assert(pieces[0] == e);
        assert forall|i: int| 0 <= i < pieces.len() implies piece_holds(
            #[trigger] pieces[i],
            props,
        ) by {
            assert(i == 0);
        }
    }
}

/// A key `name=value` matches its property against its value.
pub proof fn law_single_keys_match(name: Seq<char>, value: Seq<char>, props: Props)
    requires
        name.len() > 0 && value.len() > 0,
        !name.contains('=') && !name.contains(',') && !value.contains(','),
        !crate::text::white_space(name[0]) && !crate::text::white_space(name.last()),
        !crate::text::white_space(value[0]) && !crate::text::white_space(value.last()),
    ensures
        key_shape(name + seq!['='] + value) == PredicateShape::Match(name, value),
{
    let key = name + seq!['='] + value;
    let e = Seq::<char>::empty();
    assert(key[0] == name[0]);
    assert(key.last() == value.last());
    crate::text::law_trim_cuts_white_space(e, key, e);
    assert(e + key + e =~= key);
    crate::text::law_trim_cuts_white_space(e, name, e);
    assert(e + name + e =~= name);
    crate::text::law_trim_cuts_white_space(e, value, e);
    assert(e + value + e =~= value);
    assert(!key.contains(',')) by {
        assert forall|i: int| 0 <= i < key.len() implies key[i] != ',' by {
            if i < name.len() {
                assert(name.contains(name[i]));
            } else if i > name.len() {
                assert(value.contains(value[i - name.len() - 1]));
            }
        }
    }
    crate::paths::law_separators_divide(e, key, ',');
    crate::text::law_first_separator_divides(name, value, '=');
    reveal_with_fuel(key_matches, 2);
}

/// A value that is observed for a property is among its values from then on,
/// behind those seen before; other properties stay.
pub proof fn law_observed_values_are_kept(
    s: Schema,
    key: Seq<char>,
    value: Seq<char>,
    other: Seq<char>,
)
    ensures
        crate::models::under(with_value(s, key, value), key) matches Some(vs) && vs.contains(value),
        crate::models::under(s, key) is None ==> crate::models::under(
            with_value(s, key, value),
            key,
        ) == Some(seq![value]),
        crate::models::under(s, key) matches Some(vs) ==> (crate::models::under(
            with_value(s, key, value),
            key,
        ) == if vs.contains(value) {
            Some(vs)
        } else {
            Some(vs.push(value))
        }),
        other != key ==> crate::models::under(with_value(s, key, value), other)
            == crate::models::under(s, other),
{
    let i = key_pos(s, key);
    lemma_key_pos_bounds(s, key);
    let vs = if i < s.len() {
        if s[i].1.contains(value) {
            s[i].1
        } else {
            s[i].1.push(value)
        }
    } else {
        seq![value]
    };
    assert(vs.contains(value)) by {
        assert(!(i < s.len() && s[i].1.contains(value)) ==> vs[vs.len() - 1] == value);
    }
    crate::models::law_set_key_is_read_back(s, key, vs, other);
    if i < s.len() && s[i].1.contains(value) {
        assert(s.update(i, (key, vs)) =~= s);
    }
    assert(with_value(s, key, value) == crate::models::with_key(s, key, vs));
}

/// The schema knows a value of a property.
pub open spec fn knows(s: Schema, key: Seq<char>, value: Seq<char>) -> bool {
    crate::models::under(s, key) matches Some(vs) && vs.contains(value)
}

proof fn lemma_value_stays(s: Schema, k: Seq<char>, v: Seq<char>, key: Seq<char>, value: Seq<char>)
    ensures
        knows(with_value(s, k, v), k, v),
        knows(s, key, value) ==> knows(with_value(s, k, v), key, value),
        knows(with_value(s, k, v), key, value) ==> knows(s, key, value) || (key, value) == (k, v),
{
    law_observed_values_are_kept(s, k, v, key);
    if let Some(vs) = crate::models::under(s, key) {
        if key == k {
            let more = vs.push(v);
            if vs.contains(value) {
                let i = choose|i: int| 0 <= i < vs.len() && vs[i] == value;
                assert(more[i] == value);
            }
            if more.contains(value) {
                let i = choose|i: int| 0 <= i < more.len() && more[i] == value;
                if i < vs.len() {
                    assert(vs[i] == value);
                }
            }
        }
    } else if key == k {
        let one = seq![v];
        if one.contains(value) {
            let i = choose|i: int| 0 <= i < one.len() && one[i] == value;
            assert(i == 0);
        }
    }
}

/// A piece of a variant key names a value of a property.
pub open spec fn piece_names(piece: Seq<char>, key: Seq<char>, value: Seq<char>) -> bool {
    split_once(piece, '=') matches Some(p) && trim(p.0) == key && trim(p.1) == value
}

proof fn lemma_pieces_known(
    s: Schema,
    pieces: Seq<Seq<char>>,
    n: int,
    key: Seq<char>,
    value: Seq<char>,
)
    requires
        0 <= n <= pieces.len(),
    ensures
        knows(with_pieces(s, pieces, n), key, value) <==> knows(s, key, value) || exists|i: int|
            0 <= i < n && piece_names(#[trigger] pieces[i], key, value),
    decreases n,
{
    if n > 0 {
        lemma_pieces_known(s, pieces, n - 1, key, value);
        let before = with_pieces(s, pieces, n - 1);
        if let Some((k, v)) = split_once(pieces[n - 1], '=') {
            lemma_value_stays(before, trim(k), trim(v), key, value);
            if piece_names(pieces[n - 1], key, value) {
                assert(knows(with_pieces(s, pieces, n), key, value));
            }
        }
        if exists|i: int| 0 <= i < n && piece_names(#[trigger] pieces[i], key, value) {
            let i = choose|i: int| 0 <= i < n && piece_names(#[trigger] pieces[i], key, value);
            if i < n - 1 {
                assert(piece_names(pieces[i], key, value));
                assert(knows(before, key, value));
            }
        }
        if knows(before, key, value) && !knows(s, key, value) {
            let i = choose|i: int| 0 <= i < n - 1 && piece_names(#[trigger] pieces[i], key, value);
            assert(piece_names(pieces[i], key, value));
        }
        if knows(with_pieces(s, pieces, n), key, value) && !knows(before, key, value) {
            assert(piece_names(pieces[n - 1], key, value));
        }
    }
}

/// The variant keys of a blockstate name the values of its properties: a value
/// is known where a piece `name=value` of a key names it, and no other is.
pub proof fn law_variant_keys_name_the_values(
    variants: Seq<(String, RawVariantEntry)>,
    n: int,
    key: Seq<char>,
    value: Seq<char>,
)
    requires
        0 <= n <= variants.len(),
    ensures
        knows(with_variant_keys(Seq::empty(), variants, n), key, value) <==> exists|i: int, j: int|
            0 <= i < n && 0 <= j < split(variants[i].0@, ',').len() && piece_names(
                #[trigger] split(variants[i].0@, ',')[j],
                key,
                value,
            ),
    decreases n,
{
    if n > 0 {
        law_variant_keys_name_the_values(variants, n - 1, key, value);
        let before = with_variant_keys(Seq::empty(), variants, n - 1);
        let pieces = split(variants[n - 1].0@, ',');
        lemma_pieces_known(before, pieces, pieces.len() as int, key, value);
        let after = with_variant_keys(Seq::empty(), variants, n);
        if knows(before, key, value) {
            let (i, j) = choose|i: int, j: int|
                0 <= i < n - 1 && 0 <= j < split(variants[i].0@, ',').len() && piece_names(
                    #[trigger] split(variants[i].0@, ',')[j],
                    key,
                    value,
                );
            assert(piece_names(split(variants[i].0@, ',')[j], key, value));
        } else if knows(after, key, value) {
            let j = choose|j: int|
                0 <= j < pieces.len() && piece_names(#[trigger] pieces[j], key, value);
            assert(piece_names(split(variants[n - 1].0@, ',')[j], key, value));
        }
        if exists|i: int, j: int|
            0 <= i < n && 0 <= j < split(variants[i].0@, ',').len() && piece_names(
                #[trigger] split(variants[i].0@, ',')[j],
                key,
                value,
            ) {
            let (i, j) = choose|i: int, j: int|
                0 <= i < n && 0 <= j < split(variants[i].0@, ',').len() && piece_names(
                    #[trigger] split(variants[i].0@, ',')[j],
                    key,
                    value,
                );
            if i < n - 1 {
                assert(piece_names(split(variants[i].0@, ',')[j], key, value));
                assert(knows(before, key, value));
            } else {
                assert(piece_names(pieces[j], key, value));
            }
        }
    } else {
        let none = crate::models::under(Schema::empty(), key);
        assert(none is None);
    }
}

/// The properties of an extracted schema stand in the order of their names,
/// each with the values that were observed.
pub proof fn law_properties_stand_by_name(s: Schema, i: int, j: int)
    requires
        s.len() <= usize::MAX,
        0 <= i < j < s.len(),
    ensures
        sorted_schema(s).len() == s.len(),
        crate::order::name_le(sorted_schema(s)[i].0, sorted_schema(s)[j].0),
        s.contains(sorted_schema(s)[i]) && s.contains(sorted_schema(s)[j]),
        sorted_schema(s).contains(s[i]) && sorted_schema(s).contains(s[j]),
{
    lemma_schema_order(s);
    let order = schema_order(s);
    let r = sorted_schema(s);
    let le = schema_le(s);
    assert(le(order[i] as int, order[j] as int));
    assert(crate::order::name_le(r[i].0, r[j].0)) by {
        crate::order::law_name_order(r[i].0, r[j].0, r[i].0);
    }
    assert(s[order[i] as int] == r[i] && s[order[j] as int] == r[j]);
    crate::order::lemma_permutation_is_onto(order, s.len() as int, i);
    crate::order::lemma_permutation_is_onto(order, s.len() as int, j);
    let a = choose|a: int| 0 <= a < order.len() && order[a] == i;
    let b = choose|b: int| 0 <= b < order.len() && order[b] == j;
    assert(r[a] == s[i] && r[b] == s[j]);
}

/// A model reference without a namespace is one of the block's.
pub proof fn law_models_share_the_namespace(ns: Seq<char>, other: Seq<char>, path: Seq<char>)
    requires
        !other.contains(':'),
    ensures
        model_name(ns, other + seq![':'] + path) == (other, path),
        model_name(ns, other) == (ns, other),
{
    crate::text::law_first_separator_divides(other, path, ':');
}

/// A choice keeps its turns and its lock; in a pool it has its weight, at
/// least 1, and elsewhere the weight 1.
pub proof fn law_choices_keep_their_turns(v: RawVariant, model: ModelId)
    ensures
        instance_of(v, model, true).model == model && instance_of(v, model, false).model == model,
        v.x matches Some(a) ==> instance_of(v, model, true).rot.x == a,
        v.y matches Some(a) ==> instance_of(v, model, true).rot.y == a,
        v.x is None ==> instance_of(v, model, true).rot.x.quarters == 0 && instance_of(
            v,
            model,
            true,
        ).rot.x.degrees.bits == 0,
        v.y is None ==> instance_of(v, model, true).rot.y.quarters == 0 && instance_of(
            v,
            model,
            true,
        ).rot.y.degrees.bits == 0,
        instance_of(v, model, true).rot.uvlock <==> v.uvlock == Some(true),
        v.weight is None || v.weight == Some(0u32) ==> instance_of(v, model, true).weight == 1,
        v.weight matches Some(w) ==> (w > 0 ==> instance_of(v, model, true).weight == w),
        instance_of(v, model, false).weight == 1,
        instance_of(v, model, false).rot == instance_of(v, model, true).rot,
{
}

/// A compiled list has an instance for each choice, in order, with the choice's
/// turns and weight.
pub proof fn law_every_choice_is_compiled(
    raws: RawModels,
    ns: Seq<char>,
    t: TableShape,
    list: Seq<RawVariant>,
    weighted: bool,
    n: int,
    i: int,
)
    requires
        0 <= i < n <= list.len(),
        choices_compiled(raws, ns, t, list, weighted, n).1 is Some,
    ensures
        ({
            let r = choices_compiled(raws, ns, t, list, weighted, n).1->0;
            &&& r.len() == n
            &&& r[i] == instance_of(list[i], r[i].model, weighted)
            &&& with_model(
                raws,
                choices_compiled(raws, ns, t, list, weighted, i).0,
                model_name(ns, list[i].model@),
            ).1 == Some(r[i].model)
        }),
    decreases n,
{
    let before = choices_compiled(raws, ns, t, list, weighted, n - 1).1;
    if n > 1 {
        if i < n - 1 {
            law_every_choice_is_compiled(raws, ns, t, list, weighted, n - 1, i);
        } else {
            law_every_choice_is_compiled(raws, ns, t, list, weighted, n - 1, 0);
        }
    } else {
        assert(before == Some(Seq::<ModelInstance>::empty()));
    }
}

/// Compiled variants have an entry for each variant, in order, under the
/// predicate of its key.
pub proof fn law_every_variant_is_compiled(
    raws: RawModels,
    ns: Seq<char>,
    t: TableShape,
    variants: Seq<(String, RawVariantEntry)>,
    n: int,
    i: int,
)
    requires
        0 <= i < n <= variants.len(),
        variants_compiled(raws, ns, t, variants, n).1 is Some,
    ensures
        ({
            let r = variants_compiled(raws, ns, t, variants, n).1->0;
            let list = variants[i].1.list();
            &&& r.len() == n
            &&& r[i].0 == key_shape(variants[i].0@)
            &&& choices_compiled(
                raws,
                ns,
                variants_compiled(raws, ns, t, variants, i).0,
                list,
                true,
                list.len() as int,
            ).1 == Some(r[i].1)
        }),
    decreases n,
{
    let before = variants_compiled(raws, ns, t, variants, n - 1).1;
    if n > 1 {
        if i < n - 1 {
            law_every_variant_is_compiled(raws, ns, t, variants, n - 1, i);
        } else {
            law_every_variant_is_compiled(raws, ns, t, variants, n - 1, 0);
        }
    } else {
        assert(before == Some(Seq::<(PredicateShape, Seq<ModelInstance>)>::empty()));
    }
}

/// Compiled parts have an entry for each part, in order, under its condition;
/// a part without one always shows.
pub proof fn law_every_part_is_compiled(
    raws: RawModels,
    ns: Seq<char>,
    t: TableShape,
    parts: Seq<RawMultipartPart>,
    n: int,
    i: int,
)
    requires
        0 <= i < n <= parts.len(),
        parts_compiled(raws, ns, t, parts, n).1 is Some,
    ensures
        ({
            let r = parts_compiled(raws, ns, t, parts, n).1->0;
            let list = parts[i].apply.list();
            &&& r.len() == n
            &&& parts[i].when is None ==> r[i].0 == PredicateShape::Always
            &&& parts[i].when matches Some(j) ==> r[i].0 == condition_shape(j.shape())
            &&& choices_compiled(
                raws,
                ns,
                parts_compiled(raws, ns, t, parts, i).0,
                list,
                false,
                list.len() as int,
            ).1 == Some(r[i].1)
        }),
    decreases n,
{
    let before = parts_compiled(raws, ns, t, parts, n - 1).1;
    if n > 1 {
        if i < n - 1 {
            law_every_part_is_compiled(raws, ns, t, parts, n - 1, i);
        } else {
            law_every_part_is_compiled(raws, ns, t, parts, n - 1, 0);
        }
    } else {
        assert(before == Some(Seq::<(PredicateShape, Seq<ModelInstance>)>::empty()));
    }
}

/// One variant that always holds is a static pool; any other list stays a list
/// of variants.
pub proof fn law_single_variants_are_static(
    entries: Seq<(PredicateShape, Seq<ModelInstance>)>,
    models: Seq<ModelInstance>,
)
    ensures
        variants_appearance(seq![(PredicateShape::Always, models)]) == AppearanceShape::Static(
            models,
        ),
        entries.len() != 1 ==> variants_appearance(entries) == AppearanceShape::Variants(entries),
        entries.len() == 1 && entries[0].0 != PredicateShape::Always ==> variants_appearance(entries)
            == AppearanceShape::Variants(entries),
{
}

/// A face of a full cube lies on the side that it looks at, spans the block
/// along the two other axes, is hidden by the neighbor there, and has no tint.
pub proof fn law_cube_faces(q: FaceQuad)
    ensures
        ({
            let b = q.bounds;
            let low = |i: int| b[i].le_spec(F32 { bits: 0x3c23_d70a });
            let high = |i: int| (F32 { bits: 0x417f_d70a }).le_spec(b[i]);
            let plain = q.cull == Some(q.dir) && q.tint is None;
            let (x, y, z) = (low(0) && high(3), low(1) && high(4), low(2) && high(5));
            &&& q.dir == Direction::Down ==> is_cube_face(q) == (plain && low(1) && x && z)
            &&& q.dir == Direction::Up ==> is_cube_face(q) == (plain && high(4) && x && z)
            &&& q.dir == Direction::North ==> is_cube_face(q) == (plain && low(2) && x && y)
            &&& q.dir == Direction::South ==> is_cube_face(q) == (plain && high(5) && x && y)
            &&& q.dir == Direction::West ==> is_cube_face(q) == (plain && low(0) && y && z)
            &&& q.dir == Direction::East ==> is_cube_face(q) == (plain && high(3) && y && z)
        }),
{
}

/// A full cube has six faces, one on each side.
pub proof fn law_full_cubes_have_six_faces(quads: Seq<FaceQuad>, i: int, d: Direction)
    requires
        is_full_cube(quads),
        0 <= i < quads.len(),
    ensures
        quads.len() == 6,
        is_cube_face(quads[i]),
        exists|k: int| 0 <= k < 6 && (#[trigger] quads[k]).dir == d,
{
    assert(faces(quads, d));
}

proof fn lemma_alternatives_known(
    s: Schema,
    k: Seq<char>,
    alts: Seq<Seq<char>>,
    n: int,
    key: Seq<char>,
    value: Seq<char>,
)
    requires
        0 <= n <= alts.len(),
    ensures
        knows(s, key, value) ==> knows(with_alternatives(s, k, alts, n), key, value),
        forall|j: int|
            0 <= j < n ==> knows(with_alternatives(s, k, alts, n), k, trim(#[trigger] alts[j])),
    decreases n,
{
    if n > 0 {
        lemma_alternatives_known(s, k, alts, n - 1, key, value);
        let before = with_alternatives(s, k, alts, n - 1);
        let v = trim(alts[n - 1]);
        lemma_value_stays(before, k, v, key, value);
        assert forall|j: int| 0 <= j < n implies knows(
            with_alternatives(s, k, alts, n),
            k,
            trim(#[trigger] alts[j]),
        ) by {
            if j < n - 1 {
                lemma_value_stays(before, k, v, k, trim(alts[j]));
            }
        }
    }
}

proof fn lemma_condition_keeps(s: Schema, cond: JsonShape, key: Seq<char>, value: Seq<char>)
    requires
        knows(s, key, value),
    ensures
        knows(with_condition(s, cond), key, value),
    decreases cond, 0int,
{
    match cond {
        JsonShape::Object(members) => {
            lemma_members_keep(s, members, members.len() as int, key, value);
        },
        _ => {},
    }
}

proof fn lemma_members_keep(
    s: Schema,
    members: Seq<(Seq<char>, JsonShape)>,
    n: int,
    key: Seq<char>,
    value: Seq<char>,
)
    requires
        knows(s, key, value),
    ensures
        knows(with_members(s, members, n), key, value),
    decreases members, n,
{
    if 0 < n <= members.len() {
        lemma_members_keep(s, members, n - 1, key, value);
        let before = with_members(s, members, n - 1);
        let (k, v) = members[n - 1];
        if is_combinator(k) {
            match v {
                JsonShape::Array(items) => {
                    lemma_conditions_keep(before, items, items.len() as int, key, value);
                },
                _ => {},
            }
        } else {
            match v {
                JsonShape::Text(t) => {
                    let alts = split(t, '|');
                    lemma_alternatives_known(before, k, alts, alts.len() as int, key, value);
                },
                _ => {},
            }
        }
    }
}

proof fn lemma_conditions_keep(
    s: Schema,
    items: Seq<JsonShape>,
    n: int,
    key: Seq<char>,
    value: Seq<char>,
)
    requires
        knows(s, key, value),
    ensures
        knows(with_conditions(s, items, n), key, value),
    decreases items, n,
{
    if 0 < n <= items.len() {
        lemma_conditions_keep(s, items, n - 1, key, value);
        lemma_condition_keeps(with_conditions(s, items, n - 1), items[n - 1], key, value);
    }
}

/// A condition names a value of a property: whatever was known before, the
/// value is known behind it.
pub open spec fn condition_names(cond: JsonShape, key: Seq<char>, value: Seq<char>) -> bool {
    forall|s: Schema| knows(#[trigger] with_condition(s, cond), key, value)
}

proof fn lemma_later_members(
    s: Schema,
    members: Seq<(Seq<char>, JsonShape)>,
    i: int,
    n: int,
    key: Seq<char>,
    value: Seq<char>,
)
    requires
        0 <= i < n <= members.len(),
        knows(with_members(s, members, i + 1), key, value),
    ensures
        knows(with_members(s, members, n), key, value),
    decreases n,
{
    if i < n - 1 {
        lemma_later_members(s, members, i, n - 1, key, value);
        let before = with_members(s, members, n - 1);
        let (k, v) = members[n - 1];
        if is_combinator(k) {
            if let JsonShape::Array(items) = v {
                lemma_conditions_keep(before, items, items.len() as int, key, value);
            }
        } else if let JsonShape::Text(t) = v {
            let alts = split(t, '|');
            lemma_alternatives_known(before, k, alts, alts.len() as int, key, value);
        }
    }
}

/// A member `name: "a|b"` of a condition names each alternative as a value of
/// the property.
pub proof fn law_conditions_name_their_values(
    members: Seq<(Seq<char>, JsonShape)>,
    i: int,
    text: Seq<char>,
    j: int,
)
    requires
        0 <= i < members.len(),
        members[i].0 != "AND"@ && members[i].0 != "OR"@,
        members[i].1 == JsonShape::Text(text),
        0 <= j < split(text, '|').len(),
    ensures
        condition_names(JsonShape::Object(members), members[i].0, trim(split(text, '|')[j])),
{
    let (key, value) = (members[i].0, trim(split(text, '|')[j]));
    assert forall|s: Schema| knows(
        #[trigger] with_condition(s, JsonShape::Object(members)),
        key,
        value,
    ) by {
        let before = with_members(s, members, i);
        let alts = split(text, '|');
        lemma_alternatives_known(before, key, alts, alts.len() as int, key, value);
        assert(knows(with_alternatives(before, key, alts, alts.len() as int), key, trim(alts[j])));
        lemma_later_members(s, members, i, members.len() as int, key, value);
    }
}

/// What a condition in a list under `AND` or `OR` names, the whole condition
/// names.
pub proof fn law_nested_conditions_name_their_values(
    members: Seq<(Seq<char>, JsonShape)>,
    i: int,
    items: Seq<JsonShape>,
    j: int,
    key: Seq<char>,
    value: Seq<char>,
)
    requires
        0 <= i < members.len(),
        members[i].0 == "AND"@ || members[i].0 == "OR"@,
        members[i].1 == JsonShape::Array(items),
        0 <= j < items.len(),
        condition_names(items[j], key, value),
    ensures
        condition_names(JsonShape::Object(members), key, value),
{
    assert forall|s: Schema| knows(
        #[trigger] with_condition(s, JsonShape::Object(members)),
        key,
        value,
    ) by {
        let before = with_members(s, members, i);
        lemma_later_conditions(before, items, j, items.len() as int, key, value);
        lemma_later_members(s, members, i, members.len() as int, key, value);
    }
}

proof fn lemma_later_conditions(
    s: Schema,
    items: Seq<JsonShape>,
    j: int,
    n: int,
    key: Seq<char>,
    value: Seq<char>,
)
    requires
        0 <= j < n <= items.len(),
        condition_names(items[j], key, value),
    ensures
        knows(with_conditions(s, items, n), key, value),
    decreases n,
{
    let before = with_conditions(s, items, n - 1);
    if j < n - 1 {
        lemma_later_conditions(s, items, j, n - 1, key, value);
        lemma_condition_keeps(before, items[n - 1], key, value);
    } else {
        assert(knows(with_condition(before, items[j]), key, value));
    }
}

proof fn lemma_parts_known(
    s: Schema,
    parts: Seq<RawMultipartPart>,
    n: int,
    key: Seq<char>,
    value: Seq<char>,
)
    requires
        0 <= n <= parts.len(),
    ensures
        knows(s, key, value) ==> knows(with_parts(s, parts, n), key, value),
        forall|i: int|
            0 <= i < n && ((#[trigger] parts[i]).when matches Some(j) && condition_names(
                j.shape(),
                key,
                value,
            )) ==> knows(with_parts(s, parts, n), key, value),
    decreases n,
{
    if n > 0 {
        lemma_parts_known(s, parts, n - 1, key, value);
        let before = with_parts(s, parts, n - 1);
        if let Some(j) = parts[n - 1].when {
            if knows(before, key, value) {
                lemma_condition_keeps(before, j.shape(), key, value);
            }
            if condition_names(j.shape(), key, value) {
                assert(knows(with_condition(before, j.shape()), key, value));
            }
        }
    }
}

/// A blockstate knows the values that its variant keys name and those that the
/// conditions of its parts name.
pub proof fn law_blockstates_know_their_values(
    raw: RawBlockstate,
    i: int,
    j: int,
    key: Seq<char>,
    value: Seq<char>,
)
    ensures
        raw.variants matches Some(v) ==> (0 <= i < v@.len() && 0 <= j < split(
            v@[i].0@,
            ',',
        ).len() && piece_names(split(v@[i].0@, ',')[j], key, value) ==> knows(
            observed_schema(raw),
            key,
            value,
        )),
        raw.multipart matches Some(p) ==> (0 <= i < p@.len() && (p@[i].when matches Some(c)
            && condition_names(c.shape(), key, value)) ==> knows(observed_schema(raw), key, value)),
{
    let s = match raw.variants {
        Some(v) => with_variant_keys(Seq::empty(), v@, v.len() as int),
        None => Seq::empty(),
    };
    if let Some(v) = raw.variants {
        law_variant_keys_name_the_values(v@, v@.len() as int, key, value);
    }
    if let Some(p) = raw.multipart {
        lemma_parts_known(s, p@, p@.len() as int, key, value);
    }
}

} // verus!
