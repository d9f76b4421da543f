//! Pack compiler: runs every stage in order and produces the compiled pack.
//!
//! All blocks of the `minecraft` namespace are compiled, or only the required
//! ones. Blocks with neither variants nor parts, and blocks with unresolved
//! references, are skipped; a missing required block is an error.

use crate::atlas::{
    atlas_side, build, last_entry, packing_order, present_count, table_view, Atlas,
};
use crate::blockstates::{
    choices_compiled, classify_occlusion, compile_multipart, compile_variants, extract_schema,
    is_full_cube, law_extracted_schema_is_wf, model_name, observed_schema, parts_compiled,
    sorted_schema, variants_appearance, variants_compiled, AppearanceShape, ModelInstance,
    Occlusion, PredicateShape, Props, RawBlockstate, RawMultipartPart, RawVariant,
    RawVariantEntry, StateAppearance, VariantRot,
};
use crate::compiled::{
    find_pair, pair_pos, vanilla_shade, CompiledAppearance, CompiledPack, RuntimeAnim,
    RuntimeBlock, RuntimeModel, RuntimeState,
};
use crate::error::{fails_with, AssetError, AssetResult};
use crate::models::{
    chain_of, empty_table, id_pos, interned, is_unturned, turned_shape, with_model,
    CompiledModel, FaceQuad, ModelId, ModelShape, ModelTable, Names, SpriteId, SpriteInterner,
    TableShape,
};
use crate::models_raw::RawModels;
use crate::order::{is_stable_order, law_stable_order_is_unique, order_pairs, pairs_le};
use crate::registry::{
    law_pack_unpack, lemma_state_count_positive, packed, radix, schema_of, state_count, unpacked,
    Schema,
};
use crate::render::{atlas_is_whole, law_built_atlas_is_whole};
use crate::scalar::F32;
use crate::sprites::{SpriteRef, SpriteStore};
use crate::text::{join3, names_of, pairs_of, qualified, qualified_name, str_eq};
use vstd::prelude::*;

verus! {

/// Blocks whose failure aborts compilation.
pub const REQUIRED_BLOCKS: [&'static str; 10] = [
    "oak_log",
    "grass_block",
    "stone",
    "glass",
    "torch",
    "rail",
    "short_grass",
    "vine",
    "redstone_wire",
    "water",
];

/// Counts of a compilation.
#[derive(Clone, Copy, Debug, PartialEq, Eq)]
pub struct CompileStats {
    pub sprites: usize,
    pub models: usize,
    pub blocks: usize,
    pub animations: usize,
    pub skipped_blocks: usize,
    pub atlas_size: (u32, u32),
}

/// Blockstates by name. Each name occurs once.
#[derive(Debug)]
pub struct RawBlockstates {
    pub names: Vec<(String, String)>,
    pub states: Vec<RawBlockstate>,
}

/// The name is one of the required blocks.
pub open spec fn is_required(name: Seq<char>) -> bool {
    exists|i: int| 0 <= i < 10 && (#[trigger] REQUIRED_BLOCKS[i])@ == name
}

fn is_required_block(name: &str) -> (r: bool)
    ensures
        r == is_required(name@),
{
    let mut i: usize = 0;
    while i < 10
        invariant
            i <= 10,
            forall|k: int| 0 <= k < i ==> (#[trigger] REQUIRED_BLOCKS[k])@ != name@,
        decreases 10 - i,
    {
        if str_eq(REQUIRED_BLOCKS[i], name) {
            assert(REQUIRED_BLOCKS[i as int]@ == name@);
            return true;
        }
        i += 1;
    }
    false
}

/// The order of the block names.
pub open spec fn name_order(names: Seq<(String, String)>) -> Seq<usize> {
    choose|r: Seq<usize>| is_stable_order(r, names.len() as int, pairs_le(names))
}

/// A block is compiled: it is in the `minecraft` namespace, and required
/// where only required ones are wanted.
pub open spec fn is_selected(name: (String, String), required_only: bool) -> bool {
    name.0@ == "minecraft"@ && (required_only ==> is_required(name.1@))
}

/// The selected ones of the first `n` names in order.
pub open spec fn selected(
    names: Seq<(String, String)>,
    order: Seq<usize>,
    required_only: bool,
    n: int,
) -> Seq<usize>
    decreases n,
{
    if n <= 0 {
        Seq::empty()
    } else {
        let before = selected(names, order, required_only, n - 1);
        if is_selected(names[order[n - 1] as int], required_only) {
            before.push(order[n - 1])
        } else {
            before
        }
    }
}

/// The blocks to compile, in order of name.
pub open spec fn selected_blocks(names: Seq<(String, String)>, required_only: bool) -> Seq<usize> {
    selected(names, name_order(names), required_only, names.len() as int)
}

fn select_blocks(names: &[(String, String)], required_only: bool) -> (r: Vec<usize>)
    ensures
        r@ == selected_blocks(names@, required_only),
        forall|i: int| 0 <= i < r.len() ==> (#[trigger] r@[i]) < names@.len(),
{
    let order = order_pairs(names);
    proof {
        law_stable_order_is_unique(
            order@,
            name_order(names@),
            names@.len() as int,
            pairs_le(names@),
        );
    }
    let mut out: Vec<usize> = Vec::new();
    let mut n: usize = 0;
    while n < order.len()
        invariant
            n <= order.len(),
            order@ == name_order(names@),
            order@.len() == names@.len(),
            forall|i: int| 0 <= i < order.len() ==> (#[trigger] order@[i]) < names@.len(),
            out@ == selected(names@, order@, required_only, n as int),
            forall|i: int| 0 <= i < out.len() ==> (#[trigger] out@[i]) < names@.len(),
        decreases order.len() - n,
    {
        let name = &names[order[n]];
        if str_eq(name.0.as_str(), "minecraft") && (!required_only || is_required_block(
            name.1.as_str(),
        )) {
            out.push(order[n]);
        }
        n += 1;
    }
    out
}

/// The instances of the first entry whose predicate holds.
pub open spec fn first_choice(
    entries: Seq<(PredicateShape, Seq<ModelInstance>)>,
    props: Props,
) -> Seq<ModelInstance>
    decreases entries.len(),
{
    if entries.len() == 0 {
        Seq::empty()
    } else if entries[0].0.holds(props) {
        entries[0].1
    } else {
        first_choice(entries.skip(1), props)
    }
}

/// The instances of all entries whose predicates hold, in order.
pub open spec fn all_choices(
    entries: Seq<(PredicateShape, Seq<ModelInstance>)>,
    props: Props,
) -> Seq<ModelInstance>
    decreases entries.len(),
{
    if entries.len() == 0 {
        Seq::empty()
    } else {
        let before = all_choices(entries.drop_last(), props);
        if entries.last().0.holds(props) {
            before + entries.last().1
        } else {
            before
        }
    }
}

/// The model instances of a property assignment.
pub open spec fn resolved_state(a: AppearanceShape, props: Props) -> Seq<ModelInstance> {
    match a {
        AppearanceShape::Static(m) => m,
        AppearanceShape::Variants(e) => first_choice(e, props),
        AppearanceShape::Multipart(e) => all_choices(e, props),
    }
}

fn copy_instances(v: &[ModelInstance]) -> (r: Vec<ModelInstance>)
    ensures
        r@ == v@,
{
    let mut out: Vec<ModelInstance> = Vec::new();
    let mut i: usize = 0;
    while i < v.len()
        invariant
            i <= v.len(),
            out@ == v@.take(i as int),
        decreases v.len() - i,
    {
        out.push(v[i]);
        i += 1;
    }
    assert(v@.take(v@.len() as int) == v@);
    out
}

/// Resolves which model instances apply for a property assignment.
pub fn resolve_state(appearance: &StateAppearance, props: &[(String, String)]) -> (r: Vec<
    ModelInstance,
>)
    ensures
        r@ == resolved_state(appearance.shape(), pairs_of(props@)),
{
    let ghost pp = pairs_of(props@);
    match appearance {
        StateAppearance::Static(m) => copy_instances(m),
        StateAppearance::Variants(entries) => {
            let ghost shapes = appearance.shape()->Variants_0;
            let mut i: usize = 0;
            assert(shapes.skip(0) == shapes);
            while i < entries.len()
                invariant
                    i <= entries.len(),
                    pp == pairs_of(props@),
                    *appearance == StateAppearance::Variants(*entries),
                    shapes == appearance.shape()->Variants_0,
                    first_choice(shapes, pp) == first_choice(shapes.skip(i as int), pp),
                decreases entries.len() - i,
            {
                assert(shapes.skip(i as int)[0] == (
                    entries@[i as int].when.shape(),
                    entries@[i as int].models@,
                ));
                assert(shapes.skip(i as int).skip(1) == shapes.skip(i + 1));
                if entries[i].when.matches(props) {
                    return copy_instances(&entries[i].models);
                }
                i += 1;
            }
            let none: Vec<ModelInstance> = Vec::new();
            assert(none@ =~= Seq::empty());
            none
        },
        StateAppearance::Multipart(entries) => {
            let ghost shapes = appearance.shape()->Multipart_0;
            let mut out: Vec<ModelInstance> = Vec::new();
            let mut i: usize = 0;
            assert(out@ =~= all_choices(shapes.take(0), pp));
            while i < entries.len()
                invariant
                    i <= entries.len(),
                    pp == pairs_of(props@),
                    *appearance == StateAppearance::Multipart(*entries),
                    shapes == appearance.shape()->Multipart_0,
                    out@ == all_choices(shapes.take(i as int), pp),
                decreases entries.len() - i,
            {
                assert(shapes.take(i + 1).drop_last() == shapes.take(i as int));
                assert(shapes.take(i + 1).last() == (
                    entries@[i as int].when.shape(),
                    entries@[i as int].models@,
                ));
                if entries[i].when.matches(props) {
                    let mut more = copy_instances(&entries[i].models);
                    out.append(&mut more);
                }
                i += 1;
            }
            assert(shapes.take(shapes.len() as int) == shapes);
            out
        },
    }
}

/// What a state shows: static and variant appearances collapse to the
/// instances of the state, multipart ones stay.
pub open spec fn collapsed(a: AppearanceShape, resolved: Seq<ModelInstance>) -> AppearanceShape {
    match a {
        AppearanceShape::Multipart(e) => AppearanceShape::Multipart(e),
        _ => AppearanceShape::Static(resolved),
    }
}

/// What a list of compiled entries holds.
pub open spec fn entries_shape(v: Seq<(crate::blockstates::Predicate, Vec<ModelInstance>)>) -> Seq<
    (PredicateShape, Seq<ModelInstance>),
> {
    Seq::new(v.len(), |i: int| (v[i].0.shape(), v[i].1@))
}

/// What a compiled appearance holds.
pub open spec fn appearance_shape(a: CompiledAppearance) -> AppearanceShape {
    match a {
        CompiledAppearance::Static(m) => AppearanceShape::Static(m@),
        CompiledAppearance::Variants(v) => AppearanceShape::Variants(entries_shape(v@)),
        CompiledAppearance::Multipart(v) => AppearanceShape::Multipart(entries_shape(v@)),
    }
}

fn to_compiled(appearance: &StateAppearance, resolved: Vec<ModelInstance>) -> (r:
    CompiledAppearance)
    ensures
        appearance_shape(r) == collapsed(appearance.shape(), resolved@),
{
    match appearance {
        StateAppearance::Multipart(entries) => {
            let mut out: Vec<(crate::blockstates::Predicate, Vec<ModelInstance>)> = Vec::new();
            let mut i: usize = 0;
            while i < entries.len()
                invariant
                    i <= entries.len(),
                    out.len() == i,
                    forall|k: int|
                        0 <= k < i ==> (#[trigger] out@[k]).0.shape() == entries@[k].when.shape()
                            && out@[k].1@ == entries@[k].models@,
                decreases entries.len() - i,
            {
                out.push((entries[i].when.copied(), copy_instances(&entries[i].models)));
                i += 1;
            }
            assert(entries_shape(out@) =~= appearance.shape()->Multipart_0);
            CompiledAppearance::Multipart(out)
        },
        _ => CompiledAppearance::Static(resolved),
    }
}

/// The number of states of a schema, where 32 bits can count them.
pub fn count_states(schema: &[(String, Vec<String>)]) -> (r: Option<u32>)
    ensures
        match r {
            Some(n) => n == state_count(schema_of(schema@)),
            None => state_count(schema_of(schema@)) > u32::MAX,
        },
{
    let ghost all = schema_of(schema@);
    let mut i: usize = schema.len();
    let mut n: u32 = 1;
    assert(all.skip(all.len() as int).len() == 0);
    while i > 0
        invariant
            i <= schema.len(),
            all == schema_of(schema@),
            n == state_count(all.skip(i as int)),
        decreases i,
    {
        let ghost rest = all.skip(i - 1);
        assert(rest[0] == (schema@[i - 1].0@, names_of(schema@[i - 1].1@)));
        assert(rest.skip(1) == all.skip(i as int));
        let len: u128 = if schema[i - 1].1.len() == 0 { 1 } else { schema[i - 1].1.len() as u128 };
        proof {
            assert(len * n <= 0xffff_ffff_ffff_ffff * 0xffff_ffff) by (nonlinear_arith)
                requires
                    0 <= len <= 0xffff_ffff_ffff_ffff,
                    0 <= n <= 0xffff_ffff,
            ;
        }
        let next: u128 = len * n as u128;
        assert(next == state_count(rest));
        if next > u32::MAX as u128 {
            proof {
                lemma_count_grows(all, i - 1);
            }
            return None;
        }
        n = next as u32;
        i -= 1;
    }
    assert(all.skip(0) == all);
    Some(n)
}

proof fn lemma_count_grows(schema: Schema, i: int)
    requires
        0 <= i <= schema.len(),
    ensures
        state_count(schema) >= state_count(schema.skip(i)),
    decreases i,
{
    if i == 0 {
        assert(schema.skip(0) == schema);
    } else {
        lemma_count_grows(schema, i - 1);
        let rest = schema.skip(i - 1);
        assert(rest.skip(1) == schema.skip(i));
        lemma_state_count_positive(schema.skip(i));
        let a = radix(rest[0].1);
        let b = state_count(schema.skip(i));
        assert(a * b >= b) by (nonlinear_arith)
            requires
                a >= 1,
                b >= 1,
        ;
    }
}

/// Some property has no value.
pub open spec fn has_valueless(schema: Schema) -> bool {
    exists|i: int| 0 <= i < schema.len() && (#[trigger] schema[i]).1.len() == 0
}

/// The number of property combinations: none where a property has no value.
pub open spec fn combinations(schema: Schema) -> int {
    if has_valueless(schema) {
        0
    } else {
        state_count(schema)
    }
}

fn any_valueless(schema: &[(String, Vec<String>)]) -> (r: bool)
    ensures
        r == has_valueless(schema_of(schema@)),
{
    let ghost all = schema_of(schema@);
    let mut i: usize = 0;
    while i < schema.len()
        invariant
            i <= schema.len(),
            all == schema_of(schema@),
            forall|k: int| 0 <= k < i ==> (#[trigger] all[k]).1.len() > 0,
        decreases schema.len() - i,
    {
        assert(all[i as int].1.len() == schema@[i as int].1.len());
        if schema[i].1.len() == 0 {
            return true;
        }
        i += 1;
    }
    false
}

/// Enumerates all property combinations: the combination at a position is the
/// one that the position, as a state id, unpacks to.
fn enumerate_states(schema: &Vec<(String, Vec<String>)>) -> (r: Option<Vec<Vec<(String, String)>>>)
    ensures
        match r {
            Some(v) => state_count(schema_of(schema@)) <= u32::MAX && v.len() == combinations(
                schema_of(schema@),
            ) && forall|i: int|
                0 <= i < v.len() ==> pairs_of((#[trigger] v@[i])@) == unpacked(
                    schema_of(schema@),
                    i,
                ),
            None => state_count(schema_of(schema@)) > u32::MAX,
        },
{
    let total: u32 = match count_states(schema) {
        Some(n) => if any_valueless(schema) {
            0
        } else {
            n
        },
        None => {
            return None;
        },
    };
    let mut out: Vec<Vec<(String, String)>> = Vec::new();
    let mut id: u32 = 0;
    while id < total
        invariant
            id <= total,
            out.len() == id,
            forall|i: int|
                0 <= i < out.len() ==> pairs_of((#[trigger] out@[i])@) == unpacked(
                    schema_of(schema@),
                    i,
                ),
        decreases total - id,
    {
        out.push(crate::registry::unpack_assignment(schema, id));
        id += 1;
    }
    Some(out)
}

/// Every fourth byte is fully opaque.
pub open spec fn alpha_opaque(rgba: Seq<u8>) -> bool {
    forall|i: int| 0 <= i && 4 * i + 3 < rgba.len() ==> #[trigger] rgba[4 * i + 3] == 255
}

/// The sprite is known and fully opaque.
pub open spec fn opaque_sprite(store: SpriteStore, name: (Seq<char>, Seq<char>)) -> bool {
    store.lookup(name.0, name.1) matches Some(s) && alpha_opaque(s.tex.rgba@)
}

pub fn is_alpha_opaque(rgba: &[u8]) -> (r: bool)
    ensures
        r == alpha_opaque(rgba@),
{
    let n: usize = rgba.len() / 4;
    let mut k: usize = 0;
    while k < n
        invariant
            k <= n == rgba.len() / 4,
            forall|i: int| 0 <= i < k ==> #[trigger] rgba@[4 * i + 3] == 255,
        decreases n - k,
    {
        if rgba[4 * k + 3] != 255 {
            assert(rgba@[4 * k + 3] != 255);
            return false;
        }
        k += 1;
    }
    true
}

fn particle_is_opaque(store: &SpriteStore, name: &SpriteRef) -> (r: bool)
    ensures
        r == opaque_sprite(*store, (name.0@, name.1@)),
{
    match store.get(name.0.as_str(), name.1.as_str()) {
        Some(s) => is_alpha_opaque(&s.tex.rgba),
        None => false,
    }
}

/// Occlusion and same-kind culling of a state, by its first model: a full
/// cube occludes where its particle sprite is opaque, and culls its own kind
/// where it is not. A state without a model hides nothing.
pub open spec fn state_occlusion(
    store: SpriteStore,
    models: Seq<ModelShape>,
    resolved: Seq<ModelInstance>,
) -> (Occlusion, bool) {
    if resolved.len() > 0 && resolved[0].model.0 < models.len() {
        let m = models[resolved[0].model.0 as int];
        let cube = is_full_cube(m.quads);
        let opaque = opaque_sprite(store, m.particle);
        (
            if cube && opaque {
                Occlusion::Full
            } else {
                Occlusion::Never
            },
            cube && !opaque,
        )
    } else {
        (Occlusion::Never, false)
    }
}

/// What a compiled state holds.
#[verifier::ext_equal]
pub struct StateShape {
    pub appearance: AppearanceShape,
    pub occlusion: Occlusion,
    pub same_block_cull: bool,
}

/// What a compiled block holds.
#[verifier::ext_equal]
pub struct BlockShape {
    pub name: Seq<char>,
    pub schema: Schema,
    pub states: Seq<StateShape>,
}

pub open spec fn state_shape(s: RuntimeState) -> StateShape {
    StateShape {
        appearance: appearance_shape(s.appearance),
        occlusion: s.occlusion,
        same_block_cull: s.same_block_cull,
    }
}

pub open spec fn states_shape(v: Seq<RuntimeState>) -> Seq<StateShape> {
    Seq::new(v.len(), |i: int| state_shape(v[i]))
}

pub open spec fn block_shape(b: RuntimeBlock) -> BlockShape {
    BlockShape {
        name: b.name@,
        schema: schema_of(b.schema@),
        states: states_shape(b.states@),
    }
}

pub open spec fn blocks_shape(v: Seq<RuntimeBlock>) -> Seq<BlockShape> {
    Seq::new(v.len(), |i: int| block_shape(v[i]))
}

/// The states of a block.
pub open spec fn compiled_states(
    store: SpriteStore,
    models: Seq<ModelShape>,
    a: AppearanceShape,
    schema: Schema,
) -> Seq<StateShape> {
    Seq::new(
        combinations(schema) as nat,
        |i: int|
            {
                let resolved = resolved_state(a, unpacked(schema, i));
                StateShape {
                    appearance: collapsed(a, resolved),
                    occlusion: state_occlusion(store, models, resolved).0,
                    same_block_cull: state_occlusion(store, models, resolved).1,
                }
            },
    )
}

/// The table and the appearance of a blockstate: variants where it has them,
/// else its parts. It has none without either, and none where a model that it
/// names does not resolve.
pub open spec fn compiled_appearance(
    raws: RawModels,
    ns: Seq<char>,
    t: TableShape,
    raw: RawBlockstate,
) -> (TableShape, Option<AppearanceShape>) {
    match raw.variants {
        Some(v) => match variants_compiled(raws, ns, t, v@, v.len() as int) {
            (t1, Some(e)) => (t1, Some(variants_appearance(e))),
            (t1, None) => (t1, None),
        },
        None => match raw.multipart {
            Some(p) => match parts_compiled(raws, ns, t, p@, p.len() as int) {
                (t1, Some(e)) => (t1, Some(AppearanceShape::Multipart(e))),
                (t1, None) => (t1, None),
            },
            None => (t, None),
        },
    }
}

/// The table and the block of a blockstate; no block where it has no
/// appearance.
pub open spec fn compiled_block(
    raws: RawModels,
    store: SpriteStore,
    t: TableShape,
    name: (Seq<char>, Seq<char>),
    raw: RawBlockstate,
) -> (TableShape, Option<BlockShape>) {
    let schema = sorted_schema(observed_schema(raw));
    match compiled_appearance(raws, name.0, t, raw) {
        (t1, Some(a)) => (
            t1,
            Some(
                BlockShape {
                    name: name.1,
                    schema,
                    states: compiled_states(store, t1.models, a, schema),
                },
            ),
        ),
        (t1, None) => (t1, None),
    }
}

/// What compiling one block came to.
enum BlockOutcome {
    Skipped,
    TooManyStates,
    Compiled(RuntimeBlock),
}

/// A blockstate has more states than 32 bits can count.
pub open spec fn too_many_states(raw: RawBlockstate) -> bool {
    state_count(sorted_schema(observed_schema(raw))) > u32::MAX
}

fn compile_states(
    store: &SpriteStore,
    models: &Vec<CompiledModel>,
    appearance: &StateAppearance,
    combos: &Vec<Vec<(String, String)>>,
    Ghost(schema): Ghost<Schema>,
    Ghost(shapes): Ghost<Seq<ModelShape>>,
) -> (r: Vec<RuntimeState>)
    requires
        combos.len() == combinations(schema),
        forall|i: int|
            0 <= i < combos.len() ==> pairs_of((#[trigger] combos@[i])@) == unpacked(schema, i),
        shapes == Seq::new(models@.len(), |i: int| models@[i].shape()),
    ensures
        states_shape(r@) == compiled_states(*store, shapes, appearance.shape(), schema),
{
    let ghost want = compiled_states(*store, shapes, appearance.shape(), schema);
    let mut out: Vec<RuntimeState> = Vec::new();
    let mut i: usize = 0;
    while i < combos.len()
        invariant
            i <= combos.len(),
            combos.len() == combinations(schema),
            forall|i: int|
                0 <= i < combos.len() ==> pairs_of((#[trigger] combos@[i])@) == unpacked(
                    schema,
                    i,
                ),
            shapes == Seq::new(models@.len(), |i: int| models@[i].shape()),
            want == compiled_states(*store, shapes, appearance.shape(), schema),
            out.len() == i,
            forall|k: int| 0 <= k < i ==> state_shape(#[trigger] out@[k]) == want[k],
        decreases combos.len() - i,
    {
        let resolved = resolve_state(appearance, &combos[i]);
        let ghost rs = resolved@;
        let mut occlusion = Occlusion::Never;
        let mut same_block_cull = false;
        if resolved.len() > 0 {
            let slot: usize = resolved[0].model.0 as usize;
            if slot < models.len() {
                let m = &models[slot];
                assert(shapes[slot as int] == m.shape());
                let cube = match classify_occlusion(&m.quads) {
                    Occlusion::Full => true,
                    Occlusion::Never => false,
                };
                let opaque = particle_is_opaque(store, &m.particle);
                occlusion = if cube && opaque {
                    Occlusion::Full
                } else {
                    Occlusion::Never
                };
                same_block_cull = cube && !opaque;
            }
        }
        assert((occlusion, same_block_cull) == state_occlusion(*store, shapes, rs));
        let state = RuntimeState {
            appearance: to_compiled(appearance, resolved),
            occlusion,
            same_block_cull,
        };
        assert(state_shape(state) =~= want[i as int]);
        out.push(state);
        i += 1;
    }
    assert(states_shape(out@) =~= want);
    out
}

fn compile_block(
    raws: &RawModels,
    store: &SpriteStore,
    table: &mut ModelTable,
    name: &(String, String),
    raw: &RawBlockstate,
) -> (r: BlockOutcome)
    ensures
        ({
            let want = compiled_block(
                *raws,
                *store,
                old(table).shape(),
                (name.0@, name.1@),
                *raw,
            );
            match r {
                BlockOutcome::Skipped => (final(table).shape(), None::<BlockShape>) == want,
                BlockOutcome::TooManyStates => want.1 is Some && too_many_states(*raw),
                BlockOutcome::Compiled(b) => {
                    &&& !too_many_states(*raw)
                    &&& (final(table).shape(), Some(block_shape(b))) == want
                },
            }
        }),
{
    let compiled = if raw.variants.is_some() {
        compile_variants(raw, name.0.as_str(), raws, table)
    } else if raw.multipart.is_some() {
        compile_multipart(raw, name.0.as_str(), raws, table)
    } else {
        return BlockOutcome::Skipped;
    };
    let appearance = match compiled {
        Ok(a) => a,
        Err(_) => {
            return BlockOutcome::Skipped;
        },
    };
    let schema = extract_schema(raw);
    let ghost s = schema_of(schema.properties@);
    let combos = match enumerate_states(&schema.properties) {
        Some(c) => c,
        None => {
            return BlockOutcome::TooManyStates;
        },
    };
    let states = compile_states(
        store,
        &table.models,
        &appearance,
        &combos,
        Ghost(s),
        Ghost(table.shape().models),
    );
    let b = RuntimeBlock { name: name.1.clone(), schema: schema.properties, states };
    BlockOutcome::Compiled(b)
}

impl RawBlockstates {
    pub open spec fn wf(&self) -> bool {
        self.names.len() == self.states.len()
    }

    pub fn new() -> (r: RawBlockstates)
        ensures
            r.wf(),
            r.names.len() == 0,
    {
        RawBlockstates { names: Vec::new(), states: Vec::new() }
    }

    /// Puts a blockstate under a name, in place of the one that was there.
    pub fn insert(&mut self, ns: &str, name: &str, state: RawBlockstate)
        requires
            old(self).wf(),
        ensures
            final(self).wf(),
            ({
                let i = pair_pos(old(self).names@, ns@, name@);
                if i < old(self).names.len() {
                    &&& final(self).names@ == old(self).names@
                    &&& final(self).states@ == old(self).states@.update(i, state)
                } else {
                    &&& pairs_of(final(self).names@) == pairs_of(old(self).names@).push(
                        (ns@, name@),
                    )
                    &&& final(self).states@ == old(self).states@.push(state)
                }
            }),
    {
        let ghost before = pairs_of(self.names@);
        let i = find_pair(&self.names, ns, name);
        if i < self.names.len() {
            self.states.set(i, state);
        } else {
            self.names.push((ns.to_owned(), name.to_owned()));
            self.states.push(state);
            assert(pairs_of(self.names@) =~= before.push((ns@, name@)));
        }
    }
}

/// The table, the blocks and the number of skipped blockstates after the
/// first `n` selected blocks.
pub open spec fn all_blocks(
    raws: RawModels,
    store: SpriteStore,
    states: RawBlockstates,
    sel: Seq<usize>,
    n: int,
) -> (TableShape, Seq<BlockShape>, int)
    decreases n,
{
    if n <= 0 {
        (empty_table(), Seq::empty(), 0)
    } else {
        let (t, blocks, skipped) = all_blocks(raws, store, states, sel, n - 1);
        let name = states.names@[sel[n - 1] as int];
        let raw = states.states@[sel[n - 1] as int];
        match compiled_block(raws, store, t, (name.0@, name.1@), raw) {
            (t1, Some(b)) => (t1, blocks.push(b), skipped),
            (t1, None) => (t1, blocks, skipped + 1),
        }
    }
}

/// The position of the first selected blockstate that compiles and has too
/// many states; the length where there is none.
pub open spec fn first_too_many(
    raws: RawModels,
    store: SpriteStore,
    states: RawBlockstates,
    sel: Seq<usize>,
    n: int,
) -> int
    decreases n,
{
    if n <= 0 {
        0
    } else {
        let before = first_too_many(raws, store, states, sel, n - 1);
        let t = all_blocks(raws, store, states, sel, n - 1).0;
        let name = states.names@[sel[n - 1] as int];
        let raw = states.states@[sel[n - 1] as int];
        if before < n - 1 || (compiled_block(raws, store, t, (name.0@, name.1@), raw).1 is Some
            && too_many_states(raw)) {
            before
        } else {
            n
        }
    }
}

proof fn lemma_too_many_stays(
    raws: RawModels,
    store: SpriteStore,
    states: RawBlockstates,
    sel: Seq<usize>,
    n: int,
    m: int,
)
    requires
        0 <= n <= m,
        first_too_many(raws, store, states, sel, n) < n,
    ensures
        first_too_many(raws, store, states, sel, m) == first_too_many(raws, store, states, sel, n),
    decreases m,
{
    if n < m {
        lemma_too_many_stays(raws, store, states, sel, n, m - 1);
    }
}

/// What compiling the selected blocks came to.
enum BlocksOutcome {
    TooManyStates(usize),
    Compiled(Vec<RuntimeBlock>, usize),
}

fn compile_blocks(
    raws: &RawModels,
    store: &SpriteStore,
    states: &RawBlockstates,
    sel: &Vec<usize>,
    table: &mut ModelTable,
) -> (r: BlocksOutcome)
    requires
        states.wf(),
        forall|i: int| 0 <= i < sel.len() ==> (#[trigger] sel@[i]) < states.names.len(),
        old(table).shape() == empty_table(),
    ensures
        match r {
            BlocksOutcome::TooManyStates(i) => i < sel.len() && i == first_too_many(
                *raws,
                *store,
                *states,
                sel@,
                sel@.len() as int,
            ),
            BlocksOutcome::Compiled(blocks, skipped) => {
                &&& first_too_many(*raws, *store, *states, sel@, sel@.len() as int) == sel@.len()
                &&& (final(table).shape(), blocks_shape(blocks@), skipped as int) == all_blocks(
                    *raws,
                    *store,
                    *states,
                    sel@,
                    sel@.len() as int,
                )
                &&& blocks.len() + skipped == sel.len()
            },
        },
{
    let mut blocks: Vec<RuntimeBlock> = Vec::new();
    let mut skipped: usize = 0;
    let mut n: usize = 0;
    assert(blocks_shape(blocks@) =~= Seq::empty());
    while n < sel.len()
        invariant
            n <= sel.len(),
            states.wf(),
            forall|i: int| 0 <= i < sel.len() ==> (#[trigger] sel@[i]) < states.names.len(),
            blocks.len() + skipped == n,
            first_too_many(*raws, *store, *states, sel@, n as int) == n,
            (table.shape(), blocks_shape(blocks@), skipped as int) == all_blocks(
                *raws,
                *store,
                *states,
                sel@,
                n as int,
            ),
        decreases sel.len() - n,
    {
        let ghost before = blocks_shape(blocks@);
        let i = sel[n];
        match compile_block(raws, store, table, &states.names[i], &states.states[i]) {
            BlockOutcome::Skipped => {
                skipped += 1;
            },
            BlockOutcome::TooManyStates => {
                proof {
                    lemma_too_many_stays(*raws, *store, *states, sel@, n + 1, sel@.len() as int);
                }
                return BlocksOutcome::TooManyStates(n);
            },
            BlockOutcome::Compiled(b) => {
                let ghost shape = block_shape(b);
                blocks.push(b);
                assert(blocks_shape(blocks@) =~= before.push(shape));
            },
        }
        n += 1;
    }
    BlocksOutcome::Compiled(blocks, skipped)
}

/// Models, and which of them are turned copies: by base model and whole
/// degrees about x and y.
#[verifier::ext_equal]
pub struct Baked {
    pub models: Seq<ModelShape>,
    pub memo: Seq<((u32, u32, u32), ModelId)>,
}

/// The first position of a key; the length where it does not occur.
pub open spec fn memo_pos(memo: Seq<((u32, u32, u32), ModelId)>, key: (u32, u32, u32)) -> int
    decreases memo.len(),
{
    if memo.len() == 0 {
        0
    } else if memo[0].0 == key {
        0
    } else {
        1 + memo_pos(memo.skip(1), key)
    }
}

proof fn lemma_memo_pos(memo: Seq<((u32, u32, u32), ModelId)>, key: (u32, u32, u32), i: int)
    requires
        0 <= i <= memo.len(),
        forall|k: int| 0 <= k < i ==> (#[trigger] memo[k]).0 != key,
        i < memo.len() ==> memo[i].0 == key,
    ensures
        memo_pos(memo, key) == i,
    decreases memo.len(),
{
    if memo.len() > 0 && i > 0 {
        assert(memo[0].0 != key);
        assert forall|k: int| 0 <= k < i - 1 implies (#[trigger] memo.skip(1)[k]).0 != key by {
            assert(memo.skip(1)[k] == memo[k + 1]);
        }
        lemma_memo_pos(memo.skip(1), key, i - 1);
    }
}

/// The models and the id of a turned copy of a model: the model itself where
/// the rotation turns nothing, an earlier copy where there is one, else a new
/// one. An id without a model stays.
pub open spec fn baked_model(b: Baked, base: ModelId, rot: VariantRot) -> (Baked, ModelId) {
    let key = (base.0, rot.x.whole, rot.y.whole);
    let i = memo_pos(b.memo, key);
    if is_unturned(rot) {
        (b, base)
    } else if i < b.memo.len() {
        (b, b.memo[i].1)
    } else if base.0 < b.models.len() {
        let id = ModelId(b.models.len() as u32);
        (
            Baked {
                models: b.models.push(turned_shape(b.models[base.0 as int], rot)),
                memo: b.memo.push((key, id)),
            },
            id,
        )
    } else {
        (b, base)
    }
}

/// The models and the first `n` instances, with their turns baked in.
pub open spec fn baked_instances(b: Baked, list: Seq<ModelInstance>, n: int) -> (
    Baked,
    Seq<ModelInstance>,
)
    decreases n,
{
    if n <= 0 {
        (b, Seq::empty())
    } else {
        let (b1, before) = baked_instances(b, list, n - 1);
        let (b2, id) = baked_model(b1, list[n - 1].model, list[n - 1].rot);
        (b2, before.push(ModelInstance { model: id, ..list[n - 1] }))
    }
}

pub open spec fn baked_entries(
    b: Baked,
    entries: Seq<(PredicateShape, Seq<ModelInstance>)>,
    n: int,
) -> (Baked, Seq<(PredicateShape, Seq<ModelInstance>)>)
    decreases n,
{
    if n <= 0 {
        (b, Seq::empty())
    } else {
        let (b1, before) = baked_entries(b, entries, n - 1);
        let list = entries[n - 1].1;
        let (b2, baked) = baked_instances(b1, list, list.len() as int);
        (b2, before.push((entries[n - 1].0, baked)))
    }
}

pub open spec fn baked_appearance(b: Baked, a: AppearanceShape) -> (Baked, AppearanceShape) {
    match a {
        AppearanceShape::Static(m) => {
            let (b1, baked) = baked_instances(b, m, m.len() as int);
            (b1, AppearanceShape::Static(baked))
        },
        AppearanceShape::Variants(e) => {
            let (b1, baked) = baked_entries(b, e, e.len() as int);
            (b1, AppearanceShape::Variants(baked))
        },
        AppearanceShape::Multipart(e) => {
            let (b1, baked) = baked_entries(b, e, e.len() as int);
            (b1, AppearanceShape::Multipart(baked))
        },
    }
}

pub open spec fn baked_states(b: Baked, states: Seq<StateShape>, n: int) -> (
    Baked,
    Seq<StateShape>,
)
    decreases n,
{
    if n <= 0 {
        (b, Seq::empty())
    } else {
        let (b1, before) = baked_states(b, states, n - 1);
        let (b2, a) = baked_appearance(b1, states[n - 1].appearance);
        (b2, before.push(StateShape { appearance: a, ..states[n - 1] }))
    }
}

/// The models and the first `n` blocks, with the turns of their variants
/// baked into models of their own.
pub open spec fn baked_blocks(b: Baked, blocks: Seq<BlockShape>, n: int) -> (
    Baked,
    Seq<BlockShape>,
)
    decreases n,
{
    if n <= 0 {
        (b, Seq::empty())
    } else {
        let (b1, before) = baked_blocks(b, blocks, n - 1);
        let states = blocks[n - 1].states;
        let (b2, baked) = baked_states(b1, states, states.len() as int);
        (b2, before.push(BlockShape { states: baked, ..blocks[n - 1] }))
    }
}

/// Models with the turned copies made so far.
struct Baker {
    models: Vec<CompiledModel>,
    memo: Vec<((u32, u32, u32), ModelId)>,
}

impl Baker {
    spec fn shape(&self) -> Baked {
        Baked {
            models: Seq::new(self.models@.len(), |i: int| self.models@[i].shape()),
            memo: self.memo@,
        }
    }

    /// The id of a turned copy of a model, shared between all users of the
    /// same model and rotation.
    fn bake_rotated(&mut self, base: ModelId, rot: &VariantRot) -> (r: ModelId)
        ensures
            (final(self).shape(), r) == baked_model(old(self).shape(), base, *rot),
    {
        let zero = F32 { bits: 0 };
        if rot.x.degrees.same(zero) && rot.y.degrees.same(zero) {
            return base;
        }
        let ghost before = self.shape();
        let key: (u32, u32, u32) = (base.0, rot.x.whole, rot.y.whole);
        let mut i: usize = 0;
        while i < self.memo.len() && !(self.memo[i].0.0 == key.0 && self.memo[i].0.1 == key.1
            && self.memo[i].0.2 == key.2)
            invariant
                i <= self.memo.len(),
                forall|k: int| 0 <= k < i ==> (#[trigger] self.memo@[k]).0 != key,
            decreases self.memo.len() - i,
        {
            i += 1;
        }
        proof {
            lemma_memo_pos(self.memo@, key, i as int);
        }
        if i < self.memo.len() {
            return self.memo[i].1;
        }
        let slot: usize = base.0 as usize;
        if slot >= self.models.len() {
            return base;
        }
        let m = self.models[slot].turned(rot);
        let ghost shape = m.shape();
        #[verifier::truncate]
        let id = ModelId(self.models.len() as u32);
        assert(before.models[slot as int] == self.models@[slot as int].shape());
        self.models.push(m);
        self.memo.push((key, id));
        assert(self.shape().models =~= before.models.push(shape));
        id
    }

    fn bake_list(&mut self, list: &[ModelInstance]) -> (r: Vec<ModelInstance>)
        ensures
            (final(self).shape(), r@) == baked_instances(
                old(self).shape(),
                list@,
                list@.len() as int,
            ),
    {
        let ghost start = self.shape();
        let mut out: Vec<ModelInstance> = Vec::new();
        let mut n: usize = 0;
        while n < list.len()
            invariant
                n <= list.len(),
                (self.shape(), out@) == baked_instances(start, list@, n as int),
            decreases list.len() - n,
        {
            let model = self.bake_rotated(list[n].model, &list[n].rot);
            out.push(ModelInstance { model, rot: list[n].rot, weight: list[n].weight });
            n += 1;
        }
        out
    }

    fn bake_entries(
        &mut self,
        entries: Vec<(crate::blockstates::Predicate, Vec<ModelInstance>)>,
    ) -> (r: Vec<(crate::blockstates::Predicate, Vec<ModelInstance>)>)
        ensures
            (final(self).shape(), entries_shape(r@)) == baked_entries(
                old(self).shape(),
                entries_shape(entries@),
                entries@.len() as int,
            ),
    {
        let ghost start = self.shape();
        let ghost shapes = entries_shape(entries@);
        let mut out: Vec<(crate::blockstates::Predicate, Vec<ModelInstance>)> = Vec::new();
        assert(entries_shape(out@) =~= Seq::empty());
        for e in it: entries
            invariant
                it.seq() == entries@,
                shapes == entries_shape(entries@),
                (self.shape(), entries_shape(out@)) == baked_entries(
                    start,
                    shapes,
                    it.index() as int,
                ),
        {
            let ghost k = it.index() as int;
            let ghost before = entries_shape(out@);
            assert(shapes[k] == (e.0.shape(), e.1@));
            let baked = self.bake_list(&e.1);
            let ghost pair = (e.0.shape(), baked@);
            out.push((e.0, baked));
            assert(entries_shape(out@) =~= before.push(pair));
        }
        out
    }

    fn bake_appearance(&mut self, a: CompiledAppearance) -> (r: CompiledAppearance)
        ensures
            (final(self).shape(), appearance_shape(r)) == baked_appearance(
                old(self).shape(),
                appearance_shape(a),
            ),
    {
        match a {
            CompiledAppearance::Static(m) => CompiledAppearance::Static(self.bake_list(&m)),
            CompiledAppearance::Variants(e) => CompiledAppearance::Variants(self.bake_entries(e)),
            CompiledAppearance::Multipart(e) => CompiledAppearance::Multipart(
                self.bake_entries(e),
            ),
        }
    }

    fn bake_states(&mut self, states: Vec<RuntimeState>) -> (r: Vec<RuntimeState>)
        ensures
            (final(self).shape(), states_shape(r@)) == baked_states(
                old(self).shape(),
                states_shape(states@),
                states@.len() as int,
            ),
    {
        let ghost start = self.shape();
        let ghost shapes = states_shape(states@);
        let mut out: Vec<RuntimeState> = Vec::new();
        assert(states_shape(out@) =~= Seq::empty());
        for s in it: states
            invariant
                it.seq() == states@,
                shapes == states_shape(states@),
                (self.shape(), states_shape(out@)) == baked_states(
                    start,
                    shapes,
                    it.index() as int,
                ),
        {
            let ghost k = it.index() as int;
            let ghost before = states_shape(out@);
            assert(shapes[k] == state_shape(s));
            let appearance = self.bake_appearance(s.appearance);
            let state = RuntimeState {
                appearance,
                occlusion: s.occlusion,
                same_block_cull: s.same_block_cull,
            };
            let ghost shape = state_shape(state);
            out.push(state);
            assert(states_shape(out@) =~= before.push(shape));
        }
        out
    }

    fn bake_blocks(&mut self, blocks: Vec<RuntimeBlock>) -> (r: Vec<RuntimeBlock>)
        ensures
            (final(self).shape(), blocks_shape(r@)) == baked_blocks(
                old(self).shape(),
                blocks_shape(blocks@),
                blocks@.len() as int,
            ),
            r.len() == blocks.len(),
    {
        let ghost start = self.shape();
        let ghost shapes = blocks_shape(blocks@);
        let mut out: Vec<RuntimeBlock> = Vec::new();
        assert(blocks_shape(out@) =~= Seq::empty());
        for b in it: blocks
            invariant
                it.seq() == blocks@,
                shapes == blocks_shape(blocks@),
                out.len() == it.index(),
                (self.shape(), blocks_shape(out@)) == baked_blocks(
                    start,
                    shapes,
                    it.index() as int,
                ),
        {
            let ghost k = it.index() as int;
            let ghost before = blocks_shape(out@);
            assert(shapes[k] == block_shape(b));
            let states = self.bake_states(b.states);
            let block = RuntimeBlock { name: b.name, schema: b.schema, states };
            let ghost shape = block_shape(block);
            out.push(block);
            assert(blocks_shape(out@) =~= before.push(shape));
        }
        out
    }
}

/// The names after interning the particles of the first `n` models.
pub open spec fn with_particles(names: Names, models: Seq<ModelShape>, n: int) -> Names
    decreases n,
{
    if n <= 0 {
        names
    } else {
        interned(with_particles(names, models, n - 1), models[n - 1].particle)
    }
}

fn intern_particles(
    interner: &mut SpriteInterner,
    models: &Vec<CompiledModel>,
    Ghost(shapes): Ghost<Seq<ModelShape>>,
)
    requires
        shapes == Seq::new(models@.len(), |i: int| models@[i].shape()),
    ensures
        final(interner).view_names() == with_particles(
            old(interner).view_names(),
            shapes,
            shapes.len() as int,
        ),
{
    let ghost start = interner.view_names();
    let mut n: usize = 0;
    while n < models.len()
        invariant
            n <= models.len(),
            shapes == Seq::new(models@.len(), |i: int| models@[i].shape()),
            interner.view_names() == with_particles(start, shapes, n as int),
        decreases models.len() - n,
    {
        assert(shapes[n as int] == models@[n as int].shape());
        interner.intern(models[n].particle.0.as_str(), models[n].particle.1.as_str());
        n += 1;
    }
}

/// A block of this name is among the blocks.
pub open spec fn has_block(blocks: Seq<BlockShape>, name: Seq<char>) -> bool {
    exists|i: int| 0 <= i < blocks.len() && (#[trigger] blocks[i]).name == name
}

/// The first required block that is not among the blocks, counted from `i`.
pub open spec fn missing_required(blocks: Seq<BlockShape>, i: int) -> Option<Seq<char>>
    decreases 10 - i,
{
    if i < 0 || i >= 10 {
        None
    } else if !has_block(blocks, REQUIRED_BLOCKS[i]@) {
        Some(REQUIRED_BLOCKS[i]@)
    } else {
        missing_required(blocks, i + 1)
    }
}

fn find_missing_required(blocks: &Vec<RuntimeBlock>) -> (r: Option<usize>)
    ensures
        match r {
            Some(i) => i < 10 && missing_required(blocks_shape(blocks@), 0) == Some(
                REQUIRED_BLOCKS[i as int]@,
            ),
            None => missing_required(blocks_shape(blocks@), 0) is None,
        },
{
    let ghost shapes = blocks_shape(blocks@);
    let mut i: usize = 0;
    while i < 10
        invariant
            i <= 10,
            shapes == blocks_shape(blocks@),
            missing_required(shapes, 0) == missing_required(shapes, i as int),
        decreases 10 - i,
    {
        let mut found = false;
        let mut k: usize = 0;
        while k < blocks.len()
            invariant
                k <= blocks.len(),
                i < 10,
                shapes == blocks_shape(blocks@),
                found ==> has_block(shapes, REQUIRED_BLOCKS[i as int]@),
                !found ==> forall|j: int|
                    0 <= j < k ==> (#[trigger] shapes[j]).name != REQUIRED_BLOCKS[i as int]@,
            decreases blocks.len() - k,
        {
            assert(shapes[k as int].name == blocks@[k as int].name@);
            if str_eq(blocks[k].name.as_str(), REQUIRED_BLOCKS[i]) {
                found = true;
            }
            k += 1;
        }
        if !found {
            return Some(i);
        }
        i += 1;
    }
    None
}

/// The first `n` names that the store knows.
pub open spec fn known_names(store: SpriteStore, names: Names, n: int) -> Names
    decreases n,
{
    if n <= 0 {
        Seq::empty()
    } else {
        let before = known_names(store, names, n - 1);
        if store.lookup(names[n - 1].0, names[n - 1].1) is Some {
            before.push(names[n - 1])
        } else {
            before
        }
    }
}

/// The id that an interned sprite has among the known ones; 0 where it is not
/// known.
pub open spec fn known_id(store: SpriteStore, names: Names, id: SpriteId) -> SpriteId {
    if id.0 < names.len() && store.lookup(names[id.0 as int].0, names[id.0 as int].1) is Some {
        SpriteId(known_names(store, names, id.0 as int).len() as u32)
    } else {
        SpriteId(0)
    }
}

fn keep_known(store: &SpriteStore, interner: &SpriteInterner) -> (r: (
    Vec<Option<u32>>,
    Vec<SpriteRef>,
))
    ensures
        pairs_of(r.1@) == known_names(
            *store,
            interner.view_names(),
            interner.view_names().len() as int,
        ),
        r.0.len() == interner.view_names().len(),
        forall|i: int| #![trigger r.0@[i]]
            0 <= i < r.0.len() ==> match r.0@[i] {
                Some(id) => store.lookup(
                    interner.view_names()[i].0,
                    interner.view_names()[i].1,
                ) is Some && id == known_names(*store, interner.view_names(), i).len() as u32,
                None => store.lookup(
                    interner.view_names()[i].0,
                    interner.view_names()[i].1,
                ) is None,
            },
        forall|i: int|
            0 <= i < r.1.len() ==> store.lookup((#[trigger] r.1@[i]).0@, r.1@[i].1@) is Some,
{
    let ghost names = interner.view_names();
    let mut remap: Vec<Option<u32>> = Vec::new();
    let mut kept: Vec<SpriteRef> = Vec::new();
    let mut n: usize = 0;
    assert(pairs_of(kept@) =~= Seq::empty());
    while n < interner.names.len()
        invariant
            n <= interner.names.len(),
            names == interner.view_names(),
            pairs_of(kept@) == known_names(*store, names, n as int),
            remap.len() == n,
            forall|i: int| #![trigger remap@[i]]
                0 <= i < remap.len() ==> match remap@[i] {
                    Some(id) => store.lookup(names[i].0, names[i].1) is Some && id == known_names(
                        *store,
                        names,
                        i,
                    ).len() as u32,
                    None => store.lookup(names[i].0, names[i].1) is None,
                },
            forall|i: int|
                0 <= i < kept.len() ==> store.lookup((#[trigger] kept@[i]).0@, kept@[i].1@)
                    is Some,
        decreases interner.names.len() - n,
    {
        let ghost before = pairs_of(kept@);
        let name = &interner.names[n];
        assert(names[n as int] == (name.0@, name.1@));
        if store.get(name.0.as_str(), name.1.as_str()).is_some() {
            #[verifier::truncate]
            let id: u32 = kept.len() as u32;
            remap.push(Some(id));
            kept.push((name.0.clone(), name.1.clone()));
            assert(pairs_of(kept@) =~= before.push((name.0@, name.1@)));
        } else {
            remap.push(None);
        }
        n += 1;
    }
    (remap, kept)
}

/// What a runtime model holds.
#[verifier::ext_equal]
pub struct RuntimeShape {
    pub quads: Seq<FaceQuad>,
    pub particle: SpriteId,
    pub ambient_occlusion: bool,
    pub gui_light: crate::models::GuiLight,
    pub turn: Option<VariantRot>,
}

pub open spec fn runtime_shape(m: RuntimeModel) -> RuntimeShape {
    RuntimeShape {
        quads: m.quads@,
        particle: m.particle,
        ambient_occlusion: m.ambient_occlusion,
        gui_light: m.gui_light,
        turn: m.turn,
    }
}

pub open spec fn runtime_shapes(v: Seq<RuntimeModel>) -> Seq<RuntimeShape> {
    Seq::new(v.len(), |i: int| runtime_shape(v[i]))
}

/// The id of a particle among the sprite names; 0 where it is not among them.
pub open spec fn particle_id(kept: Seq<SpriteRef>, particle: (Seq<char>, Seq<char>)) -> SpriteId {
    let i = pair_pos(kept, particle.0, particle.1);
    if i < kept.len() {
        SpriteId(i as u32)
    } else {
        SpriteId(0)
    }
}

/// The runtime model of a compiled one: sprites by their final ids.
pub open spec fn runtime_of(
    store: SpriteStore,
    names: Names,
    kept: Seq<SpriteRef>,
    m: ModelShape,
) -> RuntimeShape {
    RuntimeShape {
        quads: Seq::new(
            m.quads.len(),
            |i: int| FaceQuad { sprite: known_id(store, names, m.quads[i].sprite), ..m.quads[i] },
        ),
        particle: particle_id(kept, m.particle),
        ambient_occlusion: m.ambient_occlusion,
        gui_light: m.gui_light,
        turn: m.turn,
    }
}

fn to_runtime(
    models: Vec<CompiledModel>,
    remap: &Vec<Option<u32>>,
    kept: &Vec<SpriteRef>,
    Ghost(store): Ghost<SpriteStore>,
    Ghost(names): Ghost<Names>,
    Ghost(shapes): Ghost<Seq<ModelShape>>,
) -> (r: Vec<RuntimeModel>)
    requires
        shapes == Seq::new(models@.len(), |i: int| models@[i].shape()),
        remap.len() == names.len(),
        forall|i: int| #![trigger remap@[i]]
            0 <= i < remap.len() ==> match remap@[i] {
                Some(id) => store.lookup(names[i].0, names[i].1) is Some && id == known_names(
                    store,
                    names,
                    i,
                ).len() as u32,
                None => store.lookup(names[i].0, names[i].1) is None,
            },
    ensures
        runtime_shapes(r@) == Seq::new(
            shapes.len(),
            |i: int| runtime_of(store, names, kept@, shapes[i]),
        ),
{
    let ghost want = Seq::new(
        shapes.len(),
        |i: int| runtime_of(store, names, kept@, shapes[i]),
    );
    let mut out: Vec<RuntimeModel> = Vec::new();
    for m in it: models
        invariant
            it.seq() == models@,
            shapes == Seq::new(models@.len(), |i: int| models@[i].shape()),
            want == Seq::new(
                shapes.len(),
                |i: int| runtime_of(store, names, kept@, shapes[i]),
            ),
            remap.len() == names.len(),
            forall|i: int| #![trigger remap@[i]]
                0 <= i < remap.len() ==> match remap@[i] {
                    Some(id) => store.lookup(names[i].0, names[i].1) is Some && id == known_names(
                        store,
                        names,
                        i,
                    ).len() as u32,
                    None => store.lookup(names[i].0, names[i].1) is None,
                },
            out.len() == it.index(),
            forall|k: int| 0 <= k < out.len() ==> runtime_shape(#[trigger] out@[k]) == want[k],
    {
        let ghost k = it.index() as int;
        assert(shapes[k] == m.shape());
        let mut quads: Vec<FaceQuad> = Vec::new();
        let mut i: usize = 0;
        while i < m.quads.len()
            invariant
                i <= m.quads.len(),
                remap.len() == names.len(),
                forall|i: int| #![trigger remap@[i]]
                    0 <= i < remap.len() ==> match remap@[i] {
                        Some(id) => store.lookup(names[i].0, names[i].1) is Some && id
                            == known_names(store, names, i).len() as u32,
                        None => store.lookup(names[i].0, names[i].1) is None,
                    },
                quads.len() == i,
                forall|j: int|
                    0 <= j < i ==> #[trigger] quads@[j] == (FaceQuad {
                        sprite: known_id(store, names, m.quads@[j].sprite),
                        ..m.quads@[j]
                    }),
            decreases m.quads.len() - i,
        {
            let q = m.quads[i];
            let slot: usize = q.sprite.0 as usize;
            let id: u32 = if slot < remap.len() {
                match remap[slot] {
                    Some(id) => id,
                    None => 0,
                }
            } else {
                0
            };
            quads.push(FaceQuad { sprite: SpriteId(id), ..q });
            i += 1;
        }
        let p = find_pair(kept, m.particle.0.as_str(), m.particle.1.as_str());
        #[verifier::truncate]
        let particle = if p < kept.len() { SpriteId(p as u32) } else { SpriteId(0) };
        let model = RuntimeModel {
            quads,
            particle,
            ambient_occlusion: m.ambient_occlusion,
            gui_light: m.gui_light,
            turn: m.turn,
        };
        assert(runtime_shape(model) =~= want[k]);
        out.push(model);
    }
    assert(runtime_shapes(out@) =~= want);
    out
}

/// What an animation says.
pub type AnimShape = (SpriteId, u32, Seq<u16>, u32, bool);

pub open spec fn anim_shape(a: RuntimeAnim) -> AnimShape {
    (a.sprite, a.frametime, a.frames@, a.strip_frames, a.interpolate)
}

pub open spec fn anim_shapes(v: Seq<RuntimeAnim>) -> Seq<AnimShape> {
    Seq::new(v.len(), |i: int| anim_shape(v[i]))
}

/// The frames of the entry of a name.
pub open spec fn entry_frames(atlas: Atlas, name: SpriteRef) -> u32 {
    let e = last_entry(atlas.entries@, name.0@, name.1@);
    if e >= 0 {
        atlas.entries@[e].1.frames
    } else {
        0
    }
}

/// The animations of the first `n` sprites: those that the atlas animates.
pub open spec fn animations_of(atlas: Atlas, kept: Seq<SpriteRef>, n: int) -> Seq<AnimShape>
    decreases n,
{
    if n <= 0 {
        Seq::empty()
    } else {
        let before = animations_of(atlas, kept, n - 1);
        let name = kept[n - 1];
        let a = last_entry(atlas.animations@, name.0@, name.1@);
        if a >= 0 {
            let t = table_view(atlas.animations@[a].1);
            before.push((SpriteId((n - 1) as u32), t.0, t.1, entry_frames(atlas, name), t.2))
        } else {
            before
        }
    }
}

fn collect_animations(atlas: &Atlas, kept: &Vec<SpriteRef>) -> (r: Vec<RuntimeAnim>)
    ensures
        anim_shapes(r@) == animations_of(*atlas, kept@, kept@.len() as int),
{
    let mut out: Vec<RuntimeAnim> = Vec::new();
    let mut n: usize = 0;
    assert(anim_shapes(out@) =~= Seq::empty());
    while n < kept.len()
        invariant
            n <= kept.len(),
            anim_shapes(out@) == animations_of(*atlas, kept@, n as int),
        decreases kept.len() - n,
    {
        let ghost before = anim_shapes(out@);
        let name = &kept[n];
        if let Some(t) = atlas.anim(name.0.as_str(), name.1.as_str()) {
            let strip_frames: u32 = match atlas.get(name.0.as_str(), name.1.as_str()) {
                Some(e) => e.frames,
                None => 0,
            };
            let frames = t.frames.clone();
            assert(frames@ =~= t.frames@);
            #[verifier::truncate]
            let id: u32 = n as u32;
            let a = RuntimeAnim {
                sprite: SpriteId(id),
                frametime: t.frametime,
                frames,
                strip_frames,
                interpolate: t.interpolate,
            };
            let ghost shape = anim_shape(a);
            out.push(a);
            assert(anim_shapes(out@) =~= before.push(shape));
        }
        n += 1;
    }
    out
}

/// What compiling a pack came to, given the names of its known sprites: an
/// atlas that cannot be packed is an error, otherwise the pack holds the
/// runtime models, the blocks, the animations of the atlas and the face
/// brightness.
pub open spec fn is_compiled_pack(
    r: AssetResult<(CompiledPack, Atlas, CompileStats)>,
    store: SpriteStore,
    names: Names,
    kept: Seq<SpriteRef>,
    models: Seq<ModelShape>,
    blocks: Seq<BlockShape>,
    skipped: int,
) -> bool {
    match atlas_side(store, kept, packing_order(store, kept)) {
        None => fails_with(r, "atlas"@, "failed to pack all sprites (atlas too large)"@),
        Some(side) => r matches Ok(p) && {
            let (pack, atlas, stats) = p;
            &&& atlas.is_atlas_of(store, kept, packing_order(store, kept), side)
            &&& pack.sprite_names@ == kept
            &&& runtime_shapes(pack.models@) == Seq::new(
                models.len(),
                |i: int| runtime_of(store, names, kept, models[i]),
            )
            &&& blocks_shape(pack.blocks@) == blocks
            &&& anim_shapes(pack.animations@) == animations_of(atlas, kept, kept.len() as int)
            &&& pack.face_shade@ == vanilla_shade()
            &&& stats.sprites == store.sprites.len()
            &&& stats.models == pack.models.len()
            &&& stats.blocks == pack.blocks.len()
            &&& stats.animations == pack.animations.len()
            &&& stats.skipped_blocks == skipped
            &&& stats.atlas_size == (side, side)
        },
    }
}

/// Compiles the whole pack from its sprites, models and blockstates.
/// `required_only` compiles just the required blocks.
pub fn compile_pack(
    store: &SpriteStore,
    raw_models: &RawModels,
    raw_blockstates: &RawBlockstates,
    required_only: bool,
) -> (r: AssetResult<(CompiledPack, Atlas, CompileStats)>)
    requires
        store.wf(),
        raw_blockstates.wf(),
    ensures
        ({
            let sel = selected_blocks(raw_blockstates.names@, required_only);
            let bad = first_too_many(
                *raw_models,
                *store,
                *raw_blockstates,
                sel,
                sel.len() as int,
            );
            let (t, blocks, skipped) = all_blocks(
                *raw_models,
                *store,
                *raw_blockstates,
                sel,
                sel.len() as int,
            );
            let (b, baked) = baked_blocks(
                Baked { models: t.models, memo: Seq::empty() },
                blocks,
                blocks.len() as int,
            );
            let names = with_particles(t.names, b.models, b.models.len() as int);
            if bad < sel.len() {
                let name = raw_blockstates.names@[sel[bad] as int];
                fails_with(r, qualified(name.0@, name.1@), "too many states"@)
            } else {
                match missing_required(baked, 0) {
                    Some(req) => fails_with(
                        r,
                        "blockstates"@,
                        "required block `"@ + req + "` failed to compile"@,
                    ),
                    None => exists|kept: Seq<SpriteRef>|
                        #![trigger pairs_of(kept)]
                        pairs_of(kept) == known_names(*store, names, names.len() as int)
                            && is_compiled_pack(
                            r,
                            *store,
                            names,
                            kept,
                            b.models,
                            baked,
                            skipped,
                        ),
                }
            }
        }),
        r matches Ok(p) ==> atlas_is_whole(p.1),
{
    let sel = select_blocks(&raw_blockstates.names, required_only);
    let mut table = ModelTable::new();
    let (blocks, skipped) = match compile_blocks(
        raw_models,
        store,
        raw_blockstates,
        &sel,
        &mut table,
    ) {
        BlocksOutcome::Compiled(b, s) => (b, s),
        BlocksOutcome::TooManyStates(i) => {
            let name = &raw_blockstates.names[sel[i]];
            return Err(
                AssetError {
                    path: qualified_name(name.0.as_str(), name.1.as_str()),
                    message: "too many states".to_owned(),
                },
            );
        },
    };
    let ghost t = table.shape();
    let ghost block_shapes = blocks_shape(blocks@);
    let ModelTable { interner, models, ids: _ } = table;
    let mut interner = interner;
    let mut baker = Baker { models, memo: Vec::new() };
    assert(baker.shape() =~= (Baked { models: t.models, memo: Seq::empty() }));
    let blocks = baker.bake_blocks(blocks);
    let ghost b = baker.shape();
    let ghost baked = blocks_shape(blocks@);
    let Baker { models, memo: _ } = baker;
    intern_particles(&mut interner, &models, Ghost(b.models));
    let ghost names = interner.view_names();
    if let Some(i) = find_missing_required(&blocks) {
        return Err(
            AssetError {
                path: "blockstates".to_owned(),
                message: join3("required block `", REQUIRED_BLOCKS[i], "` failed to compile"),
            },
        );
    }
    let (remap, kept) = keep_known(store, &interner);
    proof {
        assert(kept@.len() == kept.len());
        lemma_kept_present(*store, kept@);
    }
    let atlas = match build(store, &kept) {
        Ok(a) => a,
        Err(e) => {
            assert(is_compiled_pack(
                Err::<(CompiledPack, Atlas, CompileStats), AssetError>(e),
                *store,
                names,
                kept@,
                b.models,
                baked,
                skipped as int,
            ));
            return Err(e);
        },
    };
    proof {
        law_built_atlas_is_whole(atlas, *store, kept@, atlas.width);
    }
    let animations = collect_animations(&atlas, &kept);
    let runtime = to_runtime(
        models,
        &remap,
        &kept,
        Ghost(*store),
        Ghost(names),
        Ghost(b.models),
    );
    let stats = CompileStats {
        sprites: store.sprites.len(),
        models: runtime.len(),
        blocks: blocks.len(),
        animations: animations.len(),
        skipped_blocks: skipped,
        atlas_size: (atlas.width, atlas.height),
    };
    let pack = CompiledPack {
        sprite_names: kept,
        models: runtime,
        blocks,
        animations,
        face_shade: CompiledPack::vanilla_face_shade(),
    };
    let r: AssetResult<(CompiledPack, Atlas, CompileStats)> = Ok((pack, atlas, stats));
    assert(is_compiled_pack(r, *store, names, pack.sprite_names@, b.models, baked, skipped as int));
    assert(pairs_of(pack.sprite_names@) == known_names(*store, names, names.len() as int));
    r
}

/// Names that the store knows are all found in packing order.
proof fn lemma_kept_present(store: SpriteStore, kept: Seq<SpriteRef>)
    requires
        kept.len() <= usize::MAX,
        forall|i: int|
            0 <= i < kept.len() ==> store.lookup((#[trigger] kept[i]).0@, kept[i].1@) is Some,
    ensures
        present_count(store, kept, packing_order(store, kept)) == kept.len(),
{
    let order = packing_order(store, kept);
    crate::atlas::lemma_packing_order(store, kept);
    assert forall|k: int| 0 <= k < order.len() implies #[trigger] crate::atlas::present(
        store,
        kept,
        order,
        k,
    ) by {
        assert(order[k] < kept.len());
        assert(store.lookup(kept[order[k] as int].0@, kept[order[k] as int].1@) is Some);
    }
    crate::atlas::lemma_present_count(store, kept, order, order.len() as int);
}

/// The position of a known name among the known ones holds that name, and so
/// do all later lists.
proof fn lemma_known_place(store: SpriteStore, names: Names, i: int, n: int)
    requires
        0 <= i < n <= names.len(),
        store.lookup(names[i].0, names[i].1) is Some,
    ensures
        known_names(store, names, i).len() < known_names(store, names, n).len(),
        known_names(store, names, n)[known_names(store, names, i).len() as int] == names[i],
    decreases n,
{
    if i < n - 1 {
        lemma_known_place(store, names, i, n - 1);
    }
}

/// Renumbering sprites keeps what they name: the final id of a sprite that
/// the store knows stands for the same name.
pub proof fn law_renumbering_keeps_names(store: SpriteStore, names: Names, id: SpriteId)
    requires
        names.len() <= u32::MAX,
        id.0 < names.len(),
        store.lookup(names[id.0 as int].0, names[id.0 as int].1) is Some,
    ensures
        ({
            let kept = known_names(store, names, names.len() as int);
            let new_id = known_id(store, names, id);
            new_id.0 < kept.len() && kept[new_id.0 as int] == names[id.0 as int]
        }),
{
    lemma_known_place(store, names, id.0 as int, names.len() as int);
    lemma_known_len(store, names, id.0 as int);
}

proof fn lemma_known_len(store: SpriteStore, names: Names, n: int)
    requires
        0 <= n,
    ensures
        known_names(store, names, n).len() <= n,
    decreases n,
{
    if n > 0 {
        lemma_known_len(store, names, n - 1);
    }
}

/// State ids are packed property indices: the state at a position of a
/// compiled block is the one whose properties pack to that position, and it
/// shows what the appearance resolves to for them.
pub proof fn law_state_ids_are_packed(
    raws: RawModels,
    store: SpriteStore,
    t: TableShape,
    name: (Seq<char>, Seq<char>),
    raw: RawBlockstate,
    i: int,
)
    requires
        observed_schema(raw).len() <= usize::MAX,
        compiled_block(raws, store, t, name, raw).1 matches Some(b) && 0 <= i < b.states.len(),
    ensures
        ({
            let a = compiled_appearance(raws, name.0, t, raw).1->0;
            let b = compiled_block(raws, store, t, name, raw).1->0;
            let props = unpacked(b.schema, i);
            &&& compiled_appearance(raws, name.0, t, raw).1 is Some
            &&& b.states.len() == state_count(b.schema)
            &&& packed(b.schema, props) == i
            &&& b.states[i].appearance == collapsed(a, resolved_state(a, props))
        }),
{
    law_extracted_schema_is_wf(raw);
    let schema = sorted_schema(observed_schema(raw));
    assert(!has_valueless(schema));
    lemma_state_count_positive(schema);
    law_pack_unpack(schema, i);
}

/// Only an opaque full cube hides its neighbors: a state that occludes shows a
/// model, and the model is a full cube with an opaque particle sprite.
pub proof fn law_only_opaque_cubes_occlude(
    store: SpriteStore,
    models: Seq<ModelShape>,
    resolved: Seq<ModelInstance>,
)
    ensures
        state_occlusion(store, models, resolved).0 == Occlusion::Full ==> {
            &&& resolved.len() > 0
            &&& resolved[0].model.0 < models.len()
            &&& is_full_cube(models[resolved[0].model.0 as int].quads)
            &&& opaque_sprite(store, models[resolved[0].model.0 as int].particle)
        },
        resolved.len() == 0 ==> state_occlusion(store, models, resolved) == (
            Occlusion::Never,
            false,
        ),
{
}

/// A choice names a model that compiles.
pub open spec fn choice_resolves(raws: RawModels, ns: Seq<char>, v: RawVariant) -> bool {
    chain_of(raws, model_name(ns, v.model@), 32) is Found
}

/// All choices of a list name models that compile.
pub open spec fn list_resolves(raws: RawModels, ns: Seq<char>, list: Seq<RawVariant>) -> bool {
    forall|k: int| 0 <= k < list.len() ==> choice_resolves(raws, ns, #[trigger] list[k])
}

/// A blockstate has variants or parts, and all the models that they name
/// compile.
pub open spec fn block_resolves(raws: RawModels, ns: Seq<char>, raw: RawBlockstate) -> bool {
    match raw.variants {
        Some(v) => forall|i: int|
            0 <= i < v.len() ==> list_resolves(raws, ns, (#[trigger] v@[i]).1.list()),
        None => match raw.multipart {
            Some(p) => forall|i: int|
                0 <= i < p.len() ==> list_resolves(raws, ns, (#[trigger] p@[i]).apply.list()),
            None => false,
        },
    }
}

/// The names that have ids are names of models that compile.
pub open spec fn ids_resolve(raws: RawModels, t: TableShape) -> bool {
    forall|i: int| 0 <= i < t.ids.len() ==> chain_of(raws, (#[trigger] t.ids[i]).0, 32) is Found
}

proof fn lemma_id_pos_bounds(
    ids: Seq<((Seq<char>, Seq<char>), ModelId)>,
    name: (Seq<char>, Seq<char>),
)
    ensures
        0 <= id_pos(ids, name) <= ids.len(),
        id_pos(ids, name) < ids.len() ==> ids[id_pos(ids, name)].0 == name,
    decreases ids.len(),
{
    if ids.len() > 0 && ids[0].0 != name {
        lemma_id_pos_bounds(ids.skip(1), name);
    }
}

proof fn lemma_model_resolves(raws: RawModels, t: TableShape, name: (Seq<char>, Seq<char>))
    requires
        ids_resolve(raws, t),
    ensures
        ids_resolve(raws, with_model(raws, t, name).0),
        with_model(raws, t, name).1 is Some <==> chain_of(raws, name, 32) is Found,
{
    lemma_id_pos_bounds(t.ids, name);
    let i = id_pos(t.ids, name);
    if i < t.ids.len() {
        assert(chain_of(raws, t.ids[i].0, 32) is Found);
    }
}

proof fn lemma_choices_resolve(
    raws: RawModels,
    ns: Seq<char>,
    t: TableShape,
    list: Seq<RawVariant>,
    weighted: bool,
    n: int,
)
    requires
        ids_resolve(raws, t),
        0 <= n <= list.len(),
    ensures
        ids_resolve(raws, choices_compiled(raws, ns, t, list, weighted, n).0),
        choices_compiled(raws, ns, t, list, weighted, n).1 is Some <==> forall|k: int|
            0 <= k < n ==> choice_resolves(raws, ns, #[trigger] list[k]),
    decreases n,
{
    if n > 0 {
        lemma_choices_resolve(raws, ns, t, list, weighted, n - 1);
        let t1 = choices_compiled(raws, ns, t, list, weighted, n - 1).0;
        lemma_model_resolves(raws, t1, model_name(ns, list[n - 1].model@));
        assert(choice_resolves(raws, ns, list[n - 1]) <==> with_model(
            raws,
            t1,
            model_name(ns, list[n - 1].model@),
        ).1 is Some);
    }
}

proof fn lemma_variants_resolve(
    raws: RawModels,
    ns: Seq<char>,
    t: TableShape,
    variants: Seq<(String, RawVariantEntry)>,
    n: int,
)
    requires
        ids_resolve(raws, t),
        0 <= n <= variants.len(),
    ensures
        ids_resolve(raws, variants_compiled(raws, ns, t, variants, n).0),
        variants_compiled(raws, ns, t, variants, n).1 is Some <==> forall|i: int|
            0 <= i < n ==> list_resolves(raws, ns, (#[trigger] variants[i]).1.list()),
    decreases n,
{
    if n > 0 {
        lemma_variants_resolve(raws, ns, t, variants, n - 1);
        let t1 = variants_compiled(raws, ns, t, variants, n - 1).0;
        let list = variants[n - 1].1.list();
        lemma_choices_resolve(raws, ns, t1, list, true, list.len() as int);
        assert(list_resolves(raws, ns, list) <==> choices_compiled(
            raws,
            ns,
            t1,
            list,
            true,
            list.len() as int,
        ).1 is Some);
    }
}

proof fn lemma_parts_resolve(
    raws: RawModels,
    ns: Seq<char>,
    t: TableShape,
    parts: Seq<RawMultipartPart>,
    n: int,
)
    requires
        ids_resolve(raws, t),
        0 <= n <= parts.len(),
    ensures
        ids_resolve(raws, parts_compiled(raws, ns, t, parts, n).0),
        parts_compiled(raws, ns, t, parts, n).1 is Some <==> forall|i: int|
            0 <= i < n ==> list_resolves(raws, ns, (#[trigger] parts[i]).apply.list()),
    decreases n,
{
    if n > 0 {
        lemma_parts_resolve(raws, ns, t, parts, n - 1);
        let t1 = parts_compiled(raws, ns, t, parts, n - 1).0;
        let list = parts[n - 1].apply.list();
        lemma_choices_resolve(raws, ns, t1, list, false, list.len() as int);
        assert(list_resolves(raws, ns, list) <==> choices_compiled(
            raws,
            ns,
            t1,
            list,
            false,
            list.len() as int,
        ).1 is Some);
    }
}

/// A block compiles exactly where its blockstate resolves.
proof fn lemma_block_resolves(
    raws: RawModels,
    store: SpriteStore,
    t: TableShape,
    name: (Seq<char>, Seq<char>),
    raw: RawBlockstate,
)
    requires
        ids_resolve(raws, t),
    ensures
        ids_resolve(raws, compiled_block(raws, store, t, name, raw).0),
        compiled_block(raws, store, t, name, raw).1 is Some <==> block_resolves(
            raws,
            name.0,
            raw,
        ),
        compiled_block(raws, store, t, name, raw).1 matches Some(b) ==> b.name == name.1,
{
    match raw.variants {
        Some(v) => {
            lemma_variants_resolve(raws, name.0, t, v@, v.len() as int);
        },
        None => {
            if let Some(p) = raw.multipart {
                lemma_parts_resolve(raws, name.0, t, p@, p.len() as int);
            }
        },
    }
}

/// The blockstate that is selected at a position resolves.
pub open spec fn selected_resolves(
    raws: RawModels,
    states: RawBlockstates,
    sel: Seq<usize>,
    i: int,
) -> bool {
    block_resolves(raws, states.names@[sel[i] as int].0@, states.states@[sel[i] as int])
}

/// How many of the first `n` selected blockstates do not resolve.
pub open spec fn unresolved_count(
    raws: RawModels,
    states: RawBlockstates,
    sel: Seq<usize>,
    n: int,
) -> int
    decreases n,
{
    if n <= 0 {
        0
    } else {
        unresolved_count(raws, states, sel, n - 1) + if selected_resolves(
            raws,
            states,
            sel,
            n - 1,
        ) {
            0int
        } else {
            1
        }
    }
}

/// A block name belongs to one of the first `n` selected blockstates, one
/// that resolves.
pub open spec fn stands_for_resolved(
    raws: RawModels,
    states: RawBlockstates,
    sel: Seq<usize>,
    n: int,
    name: Seq<char>,
) -> bool {
    exists|i: int|
        0 <= i < n && #[trigger] selected_resolves(raws, states, sel, i) && states.names@[sel[i]
            as int].1@ == name
}

/// Blocks with unresolved references are skipped and counted: every selected
/// blockstate is compiled or skipped, the skipped ones are those that do not
/// resolve, and every compiled block stands for one that does.
pub proof fn law_unresolved_blocks_are_skipped(
    raws: RawModels,
    store: SpriteStore,
    states: RawBlockstates,
    sel: Seq<usize>,
    n: int,
)
    requires
        0 <= n <= sel.len(),
    ensures
        ids_resolve(raws, all_blocks(raws, store, states, sel, n).0),
        all_blocks(raws, store, states, sel, n).2 == unresolved_count(raws, states, sel, n),
        all_blocks(raws, store, states, sel, n).1.len() + unresolved_count(raws, states, sel, n)
            == n,
        forall|j: int|
            0 <= j < all_blocks(raws, store, states, sel, n).1.len() ==> stands_for_resolved(
                raws,
                states,
                sel,
                n,
                (#[trigger] all_blocks(raws, store, states, sel, n).1[j]).name,
            ),
    decreases n,
{
    if n > 0 {
        law_unresolved_blocks_are_skipped(raws, store, states, sel, n - 1);
        let (t, blocks, skipped) = all_blocks(raws, store, states, sel, n - 1);
        let name = states.names@[sel[n - 1] as int];
        let raw = states.states@[sel[n - 1] as int];
        lemma_block_resolves(raws, store, t, (name.0@, name.1@), raw);
        let after = all_blocks(raws, store, states, sel, n).1;
        assert(selected_resolves(raws, states, sel, n - 1) <==> compiled_block(
            raws,
            store,
            t,
            (name.0@, name.1@),
            raw,
        ).1 is Some);
        assert forall|j: int| 0 <= j < after.len() implies stands_for_resolved(
            raws,
            states,
            sel,
            n,
            (#[trigger] after[j]).name,
        ) by {
            if j < blocks.len() {
                assert(after[j] == blocks[j]);
                assert(stands_for_resolved(raws, states, sel, n - 1, blocks[j].name));
                let i = choose|i: int|
                    0 <= i < n - 1 && #[trigger] selected_resolves(raws, states, sel, i)
                        && states.names@[sel[i] as int].1@ == blocks[j].name;
                assert(selected_resolves(raws, states, sel, i));
            } else {
                assert(selected_resolves(raws, states, sel, n - 1));
            }
        }
    }
}

/// A model id that names a model still names one after baking, and the models
/// before it are unchanged.
pub proof fn law_baking_keeps_models(b: Baked, base: ModelId, rot: VariantRot)
    requires
        base.0 < b.models.len(),
        b.models.len() < u32::MAX,
        forall|i: int| 0 <= i < b.memo.len() ==> (#[trigger] b.memo[i]).1.0 < b.models.len(),
    ensures
        ({
            let (b1, id) = baked_model(b, base, rot);
            &&& id.0 < b1.models.len()
            &&& forall|i: int| 0 <= i < b.models.len() ==> b1.models[i] == b.models[i]
            &&& forall|i: int| 0 <= i < b1.memo.len() ==> (#[trigger] b1.memo[i]).1.0
                < b1.models.len()
        }),
{
    lemma_memo_bounds(b.memo, (base.0, rot.x.whole, rot.y.whole));
}

proof fn lemma_memo_bounds(memo: Seq<((u32, u32, u32), ModelId)>, key: (u32, u32, u32))
    ensures
        0 <= memo_pos(memo, key) <= memo.len(),
    decreases memo.len(),
{
    if memo.len() > 0 && memo[0].0 != key {
        lemma_memo_bounds(memo.skip(1), key);
    }
}

/// The ten blocks that a pack must have.
pub proof fn law_required_blocks(name: Seq<char>)
    ensures
        is_required(name) <==> (name == "oak_log"@ || name == "grass_block"@ || name == "stone"@ || name == "glass"@ || name == "torch"@ || name == "rail"@ || name == "short_grass"@ || name == "vine"@ || name == "redstone_wire"@ || name == "water"@),
{
    assert(REQUIRED_BLOCKS[0]@ == "oak_log"@);
    assert(REQUIRED_BLOCKS[1]@ == "grass_block"@);
    assert(REQUIRED_BLOCKS[2]@ == "stone"@);
    assert(REQUIRED_BLOCKS[3]@ == "glass"@);
    assert(REQUIRED_BLOCKS[4]@ == "torch"@);
    assert(REQUIRED_BLOCKS[5]@ == "rail"@);
    assert(REQUIRED_BLOCKS[6]@ == "short_grass"@);
    assert(REQUIRED_BLOCKS[7]@ == "vine"@);
    assert(REQUIRED_BLOCKS[8]@ == "redstone_wire"@);
    assert(REQUIRED_BLOCKS[9]@ == "water"@);
}

/// Only blocks of `minecraft` are compiled, and where only required ones are
/// wanted, only those.
pub proof fn law_selected_blocks_are_of_minecraft(name: (String, String))
    ensures
        is_selected(name, false) <==> name.0@ == "minecraft"@,
        is_selected(name, true) <==> name.0@ == "minecraft"@ && is_required(name.1@),
{
}

/// The selected names keep their order, and none is left out.
pub proof fn law_selection_keeps_the_order(
    names: Seq<(String, String)>,
    order: Seq<usize>,
    required_only: bool,
    n: int,
)
    requires
        0 <= n <= order.len(),
    ensures
        selected(names, order, required_only, n) == order.take(n).filter(
            |i: usize| is_selected(names[i as int], required_only),
        ),
    decreases n,
{
    reveal(Seq::filter);
    if n > 0 {
        law_selection_keeps_the_order(names, order, required_only, n - 1);
        assert(order.take(n).drop_last() =~= order.take(n - 1));
        assert(order.take(n).last() == order[n - 1]);
    }
}

/// A state of variants shows the first that holds; where none does, nothing.
pub proof fn law_first_variant_is_shown(
    entries: Seq<(PredicateShape, Seq<ModelInstance>)>,
    props: Props,
    i: int,
)
    requires
        0 <= i <= entries.len(),
        forall|k: int| 0 <= k < i ==> !(#[trigger] entries[k]).0.holds(props),
        i < entries.len() ==> entries[i].0.holds(props),
    ensures
        i < entries.len() ==> resolved_state(AppearanceShape::Variants(entries), props)
            == entries[i].1,
        i == entries.len() ==> resolved_state(AppearanceShape::Variants(entries), props).len() == 0,
    decreases entries.len(),
{
    if i > 0 {
        assert(!entries[0].0.holds(props));
        let rest = entries.skip(1);
        assert forall|k: int| 0 <= k < i - 1 implies !(#[trigger] rest[k]).0.holds(props) by {
            assert(rest[k] == entries[k + 1]);
        }
        law_first_variant_is_shown(rest, props, i - 1);
        assert(i < entries.len() ==> rest[i - 1] == entries[i]);
    }
}

/// A state of parts shows all that hold, in order; a static one its pool.
pub proof fn law_all_holding_parts_are_shown(
    entries: Seq<(PredicateShape, Seq<ModelInstance>)>,
    e: (PredicateShape, Seq<ModelInstance>),
    pool: Seq<ModelInstance>,
    props: Props,
)
    ensures
        resolved_state(AppearanceShape::Multipart(Seq::empty()), props).len() == 0,
        e.0.holds(props) ==> resolved_state(AppearanceShape::Multipart(entries.push(e)), props)
            == resolved_state(AppearanceShape::Multipart(entries), props) + e.1,
        !e.0.holds(props) ==> resolved_state(AppearanceShape::Multipart(entries.push(e)), props)
            == resolved_state(AppearanceShape::Multipart(entries), props),
        resolved_state(AppearanceShape::Static(pool), props) == pool,
{
    assert(entries.push(e).drop_last() =~= entries);
}

/// A state keeps the parts of a block that is put together from parts, and
/// else only what it shows.
pub proof fn law_states_keep_what_they_show(
    entries: Seq<(PredicateShape, Seq<ModelInstance>)>,
    pool: Seq<ModelInstance>,
    shown: Seq<ModelInstance>,
)
    ensures
        collapsed(AppearanceShape::Multipart(entries), shown) == AppearanceShape::Multipart(
            entries,
        ),
        collapsed(AppearanceShape::Variants(entries), shown) == AppearanceShape::Static(shown),
        collapsed(AppearanceShape::Static(pool), shown) == AppearanceShape::Static(shown),
{
}

/// A full cube with an opaque particle sprite occludes and does not cull its
/// own kind; one with a sprite that is not opaque culls its own kind and does
/// not occlude; anything else does neither.
pub proof fn law_cubes_occlude_or_cull(
    store: SpriteStore,
    models: Seq<ModelShape>,
    resolved: Seq<ModelInstance>,
)
    requires
        resolved.len() > 0,
        resolved[0].model.0 < models.len(),
    ensures
        ({
            let m = models[resolved[0].model.0 as int];
            let r = state_occlusion(store, models, resolved);
            &&& is_full_cube(m.quads) && opaque_sprite(store, m.particle) ==> r == (
                Occlusion::Full,
                false,
            )
            &&& is_full_cube(m.quads) && !opaque_sprite(store, m.particle) ==> r == (
                Occlusion::Never,
                true,
            )
            &&& !is_full_cube(m.quads) ==> r == (Occlusion::Never, false)
        }),
{
}

/// A sprite is opaque where the alpha of each of its pixels is full; one that
/// is not known is not.
pub proof fn law_opaque_sprites(store: SpriteStore, name: (Seq<char>, Seq<char>), i: int)
    ensures
        store.lookup(name.0, name.1) is None ==> !opaque_sprite(store, name),
        store.lookup(name.0, name.1) matches Some(s) ==> (0 <= i && 4 * i + 3 < s.tex.rgba@.len()
            && s.tex.rgba@[4 * i + 3] != 255 ==> !opaque_sprite(store, name)),
        store.lookup(name.0, name.1) matches Some(s) ==> ((forall|k: int|
            0 <= k < s.tex.rgba@.len() ==> #[trigger] s.tex.rgba@[k] == 255) ==> opaque_sprite(
            store,
            name,
        )),
{
}

/// A block has a state for each combination of its values; one for a block
/// without properties.
pub proof fn law_combinations(schema: Schema, i: int)
    ensures
        combinations(Seq::empty()) == 1,
        0 <= i < schema.len() && schema[i].1.len() == 0 ==> combinations(schema) == 0,
        (forall|k: int| 0 <= k < schema.len() ==> (#[trigger] schema[k]).1.len() > 0)
            ==> combinations(schema) == state_count(schema),
{
}

/// Variants go before parts; a blockstate with neither has no appearance.
pub proof fn law_variants_go_before_parts(
    raws: RawModels,
    ns: Seq<char>,
    t: TableShape,
    raw: RawBlockstate,
)
    ensures
        ({
            let r = compiled_appearance(raws, ns, t, raw).1;
            &&& raw.variants is None && raw.multipart is None ==> r is None
            &&& raw.variants matches Some(v) ==> {
                let e = variants_compiled(raws, ns, t, v@, v@.len() as int).1;
                &&& e is None ==> r is None
                &&& e matches Some(x) ==> r == Some(variants_appearance(x))
            }
            &&& raw.variants is None && raw.multipart is Some ==> {
                let p = raw.multipart->0;
                let e = parts_compiled(raws, ns, t, p@, p@.len() as int).1;
                &&& e is None ==> r is None
                &&& e matches Some(x) ==> r == Some(AppearanceShape::Multipart(x))
            }
        }),
{
}

/// A compiled block bears the name of its blockstate, and its properties stand
/// by name.
pub proof fn law_blocks_bear_their_name(
    raws: RawModels,
    store: SpriteStore,
    t: TableShape,
    name: (Seq<char>, Seq<char>),
    raw: RawBlockstate,
)
    ensures
        compiled_block(raws, store, t, name, raw).1 matches Some(b) ==> b.name == name.1 && b.schema
            == sorted_schema(observed_schema(raw)) && b.states.len() == combinations(b.schema)
            as nat,
        compiled_block(raws, store, t, name, raw).1 is None <==> compiled_appearance(
            raws,
            name.0,
            t,
            raw,
        ).1 is None,
{
}

/// A model that is not turned is used as it is. A turned copy is made once: it
/// shows the turned model, and the same turn of the same model finds it again.
pub proof fn law_turned_copies_are_made_once(b: Baked, base: ModelId, rot: VariantRot)
    requires
        base.0 < b.models.len() < u32::MAX,
        forall|i: int|
            0 <= i < b.memo.len() ==> (#[trigger] b.memo[i]).0 != (
                base.0,
                rot.x.whole,
                rot.y.whole,
            ),
    ensures
        ({
            let (after, id) = baked_model(b, base, rot);
            &&& is_unturned(rot) ==> (after, id) == (b, base)
            &&& !is_unturned(rot) ==> {
                &&& id.0 == b.models.len()
                &&& after.models == b.models.push(turned_shape(b.models[base.0 as int], rot))
                &&& baked_model(after, base, rot) == (after, id)
            }
        }),
{
    let key = (base.0, rot.x.whole, rot.y.whole);
    lemma_memo_pos(b.memo, key, b.memo.len() as int);
    let after = baked_model(b, base, rot).0;
    if !is_unturned(rot) {
        assert forall|i: int| 0 <= i < b.memo.len() implies (#[trigger] after.memo[i]).0 != key by {
            assert(after.memo[i] == b.memo[i]);
        }
        lemma_memo_pos(after.memo, key, b.memo.len() as int);
    }
}

/// Baking keeps the instances of a list, each with its turn and weight and
/// with the model that its turn gives.
pub proof fn law_baking_keeps_instances(b: Baked, list: Seq<ModelInstance>, n: int, i: int)
    requires
        0 <= i < n <= list.len(),
    ensures
        ({
            let r = baked_instances(b, list, n).1;
            &&& r.len() == n
            &&& r[i].rot == list[i].rot
            &&& r[i].weight == list[i].weight
            &&& r[i].model == baked_model(
                baked_instances(b, list, i).0,
                list[i].model,
                list[i].rot,
            ).1
        }),
    decreases n,
{
    if n > 1 {
        law_baking_keeps_instances(b, list, n - 1, if i < n - 1 { i } else { 0 });
    } else {
        assert(baked_instances(b, list, 0).1 =~= Seq::empty());
    }
}

/// Baking keeps the entries of an appearance under their predicates.
pub proof fn law_baking_keeps_predicates(
    b: Baked,
    entries: Seq<(PredicateShape, Seq<ModelInstance>)>,
    n: int,
    i: int,
)
    requires
        0 <= i < n <= entries.len(),
    ensures
        ({
            let r = baked_entries(b, entries, n).1;
            let list = entries[i].1;
            &&& r.len() == n
            &&& r[i].0 == entries[i].0
            &&& r[i].1 == baked_instances(
                baked_entries(b, entries, i).0,
                list,
                list.len() as int,
            ).1
        }),
    decreases n,
{
    if n > 1 {
        law_baking_keeps_predicates(b, entries, n - 1, if i < n - 1 { i } else { 0 });
    } else {
        assert(baked_entries(b, entries, 0).1 =~= Seq::empty());
    }
}

/// Baking keeps the blocks and states, and what they occlude and cull.
pub proof fn law_baking_keeps_blocks(b: Baked, blocks: Seq<BlockShape>, n: int, i: int, j: int)
    requires
        0 <= i < n <= blocks.len(),
        0 <= j < blocks[i].states.len(),
    ensures
        ({
            let r = baked_blocks(b, blocks, n).1;
            &&& r.len() == n
            &&& r[i].name == blocks[i].name
            &&& r[i].schema == blocks[i].schema
            &&& r[i].states.len() == blocks[i].states.len()
            &&& r[i].states[j].occlusion == blocks[i].states[j].occlusion
            &&& r[i].states[j].same_block_cull == blocks[i].states[j].same_block_cull
        }),
    decreases n,
{
    if i < n - 1 {
        law_baking_keeps_blocks(b, blocks, n - 1, i, j);
    } else {
        lemma_baked_blocks_len(b, blocks, n - 1);
        let states = blocks[i].states;
        lemma_baked_state(baked_blocks(b, blocks, n - 1).0, states, states.len() as int, j);
    }
}

proof fn lemma_baked_blocks_len(b: Baked, blocks: Seq<BlockShape>, n: int)
    requires
        0 <= n,
    ensures
        baked_blocks(b, blocks, n).1.len() == n,
    decreases n,
{
    if n > 0 {
        lemma_baked_blocks_len(b, blocks, n - 1);
    }
}

proof fn lemma_baked_state(b: Baked, states: Seq<StateShape>, n: int, j: int)
    requires
        0 <= n <= states.len(),
    ensures
        baked_states(b, states, n).1.len() == n,
        0 <= j < n ==> baked_states(b, states, n).1[j].occlusion == states[j].occlusion
            && baked_states(b, states, n).1[j].same_block_cull == states[j].same_block_cull,
    decreases n,
{
    if n > 0 {
        lemma_baked_state(b, states, n - 1, j);
    }
}

/// The particle of every model has a name among the interned ones.
pub proof fn law_particles_are_interned(names: Names, models: Seq<ModelShape>, n: int, i: int)
    requires
        0 <= i < n <= models.len(),
    ensures
        with_particles(names, models, n).contains(models[i].particle),
    decreases n,
{
    let before = with_particles(names, models, n - 1);
    let name = models[n - 1].particle;
    crate::models::lemma_name_pos_bounds(before, name);
    let after = interned(before, name);
    if i < n - 1 {
        law_particles_are_interned(names, models, n - 1, i);
        let k = choose|k: int| 0 <= k < before.len() && before[k] == models[i].particle;
        assert(after[k] == models[i].particle);
    } else {
        assert(after[crate::models::name_pos(before, name)] == name);
    }
}

/// Nothing is missing where all ten required blocks are there; what is said to
/// be missing is required and not there.
pub proof fn law_missing_blocks_are_named(blocks: Seq<BlockShape>, i: int)
    requires
        0 <= i <= 10,
    ensures
        missing_required(blocks, i) is None <==> forall|k: int|
            i <= k < 10 ==> has_block(blocks, (#[trigger] REQUIRED_BLOCKS[k])@),
        missing_required(blocks, i) matches Some(name) ==> is_required(name) && !has_block(
            blocks,
            name,
        ),
    decreases 10 - i,
{
    if i < 10 {
        law_missing_blocks_are_named(blocks, i + 1);
    }
}

/// Only names that the store knows are kept, in their order.
pub proof fn law_known_names_keep_their_order(store: SpriteStore, names: Names, n: int)
    requires
        0 <= n <= names.len(),
    ensures
        known_names(store, names, n) == names.take(n).filter(
            |name: (Seq<char>, Seq<char>)| store.lookup(name.0, name.1) is Some,
        ),
    decreases n,
{
    reveal(Seq::filter);
    if n > 0 {
        law_known_names_keep_their_order(store, names, n - 1);
        assert(names.take(n).drop_last() =~= names.take(n - 1));
        assert(names.take(n).last() == names[n - 1]);
    }
}

/// A runtime model keeps all of its quads but the numbers of their sprites.
pub proof fn law_runtime_models_keep_their_quads(
    store: SpriteStore,
    names: Names,
    kept: Seq<SpriteRef>,
    m: ModelShape,
    i: int,
)
    requires
        0 <= i < m.quads.len(),
    ensures
        ({
            let r = runtime_of(store, names, kept, m);
            let (a, b) = (m.quads[i], r.quads[i]);
            &&& r.quads.len() == m.quads.len()
            &&& (b.dir, b.uv, b.tint, b.cull) == (a.dir, a.uv, a.tint, a.cull)
            &&& (b.corners, b.bounds) == (a.corners, a.bounds)
            &&& b.force_translucent == a.force_translucent
            &&& b.light_emission == a.light_emission
            &&& b.shade_override == a.shade_override
            &&& b.sprite == known_id(store, names, a.sprite)
            &&& r.ambient_occlusion == m.ambient_occlusion
            &&& r.gui_light == m.gui_light
            &&& r.turn == m.turn
        }),
{
}

/// A particle has the place of its name among the kept names, and the first
/// place where it is not among them.
pub proof fn law_particles_have_their_place(
    kept: Seq<SpriteRef>,
    particle: (Seq<char>, Seq<char>),
    i: int,
)
    requires
        0 <= i <= kept.len() <= u32::MAX,
        forall|k: int|
            0 <= k < i ==> !((#[trigger] kept[k]).0@ == particle.0 && kept[k].1@ == particle.1),
        i < kept.len() ==> kept[i].0@ == particle.0 && kept[i].1@ == particle.1,
    ensures
        i < kept.len() ==> particle_id(kept, particle).0 == i,
        i == kept.len() ==> particle_id(kept, particle).0 == 0,
{
    crate::compiled::lemma_pair_pos(kept, particle.0, particle.1, i);
}

/// Each sprite that the atlas animates has a row under its place, with the
/// times and frames of the atlas; other sprites have none.
pub proof fn law_animated_sprites_have_rows(atlas: Atlas, kept: Seq<SpriteRef>, n: int)
    requires
        0 < n <= kept.len() <= u32::MAX,
    ensures
        ({
            let before = animations_of(atlas, kept, n - 1);
            let name = kept[n - 1];
            let a = last_entry(atlas.animations@, name.0@, name.1@);
            let after = animations_of(atlas, kept, n);
            &&& a < 0 ==> after == before
            &&& a >= 0 ==> {
                let t = table_view(atlas.animations@[a].1);
                &&& after.len() == before.len() + 1
                &&& after.take(before.len() as int) == before
                &&& after.last().0.0 == n - 1
                &&& (after.last().1, after.last().2, after.last().4) == t
                &&& after.last().3 == entry_frames(atlas, name)
            }
        }),
        animations_of(atlas, kept, 0).len() == 0,
{
    let before = animations_of(atlas, kept, n - 1);
    let after = animations_of(atlas, kept, n);
    if after.len() > before.len() {
        assert(after.take(before.len() as int) =~= before);
    }
}

/// The blocks to compile stand by name, and each selected name is among them.
pub proof fn law_blocks_are_compiled_by_name(names: Seq<(String, String)>, required_only: bool, i: int)
    requires
        is_stable_order(name_order(names), names.len() as int, pairs_le(names)),
        0 <= i < names.len(),
    ensures
        is_selected(names[i], required_only) <==> selected_blocks(names, required_only).contains(
            i as usize,
        ),
{
    let order = name_order(names);
    let n = names.len() as int;
    let p = |k: usize| is_selected(names[k as int], required_only);
    law_selection_keeps_the_order(names, order, required_only, n);
    assert(order.take(n) =~= order);
    crate::order::lemma_permutation_is_onto(order, n, i);
    let a = choose|a: int| 0 <= a < order.len() && order[a] == i;
    assert(order[a] == i as usize);
    assert(order.contains(i as usize));
    lemma_filter_contains(order, p, i as usize);
}

proof fn lemma_filter_contains(s: Seq<usize>, p: spec_fn(usize) -> bool, x: usize)
    ensures
        s.filter(p).contains(x) <==> s.contains(x) && p(x),
    decreases s.len(),
{
    reveal(Seq::filter);
    if s.len() > 0 {
        let t = s.drop_last();
        lemma_filter_contains(t, p, x);
        assert(s =~= t.push(s.last()));
        if s.contains(x) && s.last() != x {
            let i = choose|i: int| 0 <= i < s.len() && s[i] == x;
            assert(t[i] == x);
        }
        if t.contains(x) {
            let i = choose|i: int| 0 <= i < t.len() && t[i] == x;
            assert(s[i] == x);
        }
        assert(s[s.len() - 1] == s.last());
        let u = t.filter(p);
        if p(s.last()) {
            let w = u.push(s.last());
            if u.contains(x) {
                let i = choose|i: int| 0 <= i < u.len() && u[i] == x;
                assert(w[i] == x);
            }
            if w.contains(x) && s.last() != x {
                let i = choose|i: int| 0 <= i < w.len() && w[i] == x;
                assert(u[i] == x);
            }
            assert(w[u.len() as int] == s.last());
        }
    }
}

/// The first selected block that compiles to more states than 32 bits count is
/// found; where none does, none is.
pub proof fn law_first_overfull_block_is_found(
    raws: RawModels,
    store: SpriteStore,
    states: RawBlockstates,
    sel: Seq<usize>,
    n: int,
    i: int,
)
    requires
        0 <= i <= n <= sel.len(),
        forall|k: int| #![trigger sel[k]]
            0 <= k < i ==> !is_overfull(raws, store, states, sel, k),
        i < n ==> is_overfull(raws, store, states, sel, i),
    ensures
        first_too_many(raws, store, states, sel, n) == i,
    decreases n,
{
    if n > 0 {
        if i < n - 1 {
            law_first_overfull_block_is_found(raws, store, states, sel, n - 1, i);
        } else {
            law_first_overfull_block_is_found(raws, store, states, sel, n - 1, n - 1);
            if i == n {
                assert(!is_overfull(raws, store, states, sel, n - 1));
            }
        }
    }
}

/// A selected block that compiles and has more states than 32 bits count.
pub open spec fn is_overfull(
    raws: RawModels,
    store: SpriteStore,
    states: RawBlockstates,
    sel: Seq<usize>,
    i: int,
) -> bool {
    let t = all_blocks(raws, store, states, sel, i).0;
    let name = states.names@[sel[i] as int];
    let raw = states.states@[sel[i] as int];
    compiled_block(raws, store, t, (name.0@, name.1@), raw).1 is Some && state_count(
        sorted_schema(observed_schema(raw)),
    ) > 0xffff_ffff
}

/// A compiled pack has the names, models, blocks and animations that it was
/// made of, is counted right, and shades its faces as usual.
pub proof fn law_compiled_packs_are_counted(
    r: AssetResult<(CompiledPack, Atlas, CompileStats)>,
    store: SpriteStore,
    names: Names,
    kept: Seq<SpriteRef>,
    models: Seq<ModelShape>,
    blocks: Seq<BlockShape>,
    skipped: int,
    i: int,
)
    requires
        is_compiled_pack(r, store, names, kept, models, blocks, skipped),
    ensures
        r is Ok <==> atlas_side(store, kept, packing_order(store, kept)) is Some,
        r matches Ok(p) ==> {
            &&& p.0.sprite_names@ == kept
            &&& p.0.models@.len() == models.len()
            &&& 0 <= i < models.len() ==> runtime_shape(p.0.models@[i]) == runtime_of(
                store,
                names,
                kept,
                models[i],
            )
            &&& p.0.blocks@.len() == blocks.len()
            &&& 0 <= i < blocks.len() ==> p.0.blocks@[i].name@ == blocks[i].name
            &&& p.2.sprites == store.sprites@.len()
            &&& p.2.models == models.len()
            &&& p.2.blocks == blocks.len()
            &&& p.2.skipped_blocks == skipped
            &&& p.2.animations == p.0.animations@.len()
            &&& p.2.atlas_size == (p.1.width, p.1.height)
            &&& p.0.face_shade@ == vanilla_shade()
        },
{
    if let Ok(p) = r {
        assert(runtime_shapes(p.0.models@).len() == models.len());
        assert(blocks_shape(p.0.blocks@).len() == blocks.len());
        if 0 <= i < models.len() {
            assert(runtime_shapes(p.0.models@)[i] == runtime_shape(p.0.models@[i]));
        }
        if 0 <= i < blocks.len() {
            assert(blocks_shape(p.0.blocks@)[i] == block_shape(p.0.blocks@[i]));
        }
    }
}

/// A sprite has the frames of the last entry of its name, and none without an
/// entry.
pub proof fn law_entries_count_frames(atlas: Atlas, name: SpriteRef, i: int)
    requires
        -1 <= i < atlas.entries@.len(),
        forall|k: int|
            i < k < atlas.entries@.len() ==> !((#[trigger] atlas.entries@[k]).0.0@ == name.0@
                && atlas.entries@[k].0.1@ == name.1@),
        i >= 0 ==> atlas.entries@[i].0.0@ == name.0@ && atlas.entries@[i].0.1@ == name.1@,
    ensures
        i >= 0 ==> entry_frames(atlas, name) == atlas.entries@[i].1.frames,
        i == -1 ==> entry_frames(atlas, name) == 0,
{
    crate::atlas::lemma_last_entry(atlas.entries@, name.0@, name.1@, i);
}

/// A sprite that has no name, or one that the store does not know, is shown as
/// the first.
pub proof fn law_unknown_sprites_are_shown_as_the_first(
    store: SpriteStore,
    names: Names,
    id: SpriteId,
)
    ensures
        id.0 >= names.len() ==> known_id(store, names, id).0 == 0,
        id.0 < names.len() && store.lookup(names[id.0 as int].0, names[id.0 as int].1) is None
            ==> known_id(store, names, id).0 == 0,
{
}

} // verus!
