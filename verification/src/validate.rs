//! The checklist of the ten scene blocks, held against the compiled pack.

use crate::atlas::{last_entry, Atlas};
use crate::bits;
use crate::blockstates::{ModelInstance, Occlusion};
use crate::compiled::{CompiledAppearance, RuntimeModel};
use crate::effects::num;
use crate::error::AssetResult;
use crate::models::{FaceQuad, ModelId, SpriteId};
use crate::registry::{last_named, BlockDef, Registry, StateEntry};
use crate::scalar::F32;
use crate::sprites::SpriteStore;
use crate::text::{decimal, decimal_string, join2, join3};
use vstd::prelude::*;

verus! {

/// The findings: what was checked, whether it holds, and a remark.
#[derive(Debug)]
pub struct ValidationReport {
    pub lines: Vec<(String, bool, String)>,
}

/// How many of the first `n` lines failed.
pub open spec fn failed(lines: Seq<(String, bool, String)>, n: int) -> nat
    decreases n,
{
    if n <= 0 {
        0
    } else if lines[n - 1].1 {
        failed(lines, n - 1)
    } else {
        failed(lines, n - 1) + 1
    }
}

impl ValidationReport {
    /// How many checks failed.
    pub fn failures(&self) -> (r: usize)
        ensures
            r == failed(self.lines@, self.lines.len() as int),
    {
        let mut count: usize = 0;
        let mut n: usize = 0;
        while n < self.lines.len()
            invariant
                n <= self.lines.len(),
                count <= n,
                count == failed(self.lines@, n as int),
            decreases self.lines.len() - n,
        {
            if !self.lines[n].1 {
                count += 1;
            }
            n += 1;
        }
        count
    }
}

/// A report has no failures exactly when every check holds.
pub proof fn law_no_failures_means_all_hold(lines: Seq<(String, bool, String)>, n: int)
    requires
        0 <= n <= lines.len(),
    ensures
        failed(lines, n) == 0 <==> forall|i: int| 0 <= i < n ==> (#[trigger] lines[i]).1,
    decreases n,
{
    if n > 0 {
        law_no_failures_means_all_hold(lines, n - 1);
        if failed(lines, n) == 0 {
            assert forall|i: int| 0 <= i < n implies (#[trigger] lines[i]).1 by {
                if i < n - 1 {
                    assert(failed(lines, n - 1) == 0);
                }
            }
        }
        if forall|i: int| 0 <= i < n ==> (#[trigger] lines[i]).1 {
            assert(lines[n - 1].1);
        }
    }
}

/// The block of a name.
pub open spec fn block_named(r: Registry, name: Seq<char>) -> Option<BlockDef> {
    let i = last_named(r.blocks@, name);
    if i >= 0 {
        Some(r.blocks@[i])
    } else {
        None
    }
}

/// The model of an id.
pub open spec fn model_at(r: Registry, id: ModelId) -> Option<RuntimeModel> {
    if id.0 < r.models.len() {
        Some(r.models@[id.0 as int])
    } else {
        None
    }
}

/// The state shows one model, and that has six quads.
pub open spec fn is_one_cube(r: Registry, s: StateEntry) -> bool {
    match s.appearance {
        CompiledAppearance::Static(m) => m.len() == 1 && (model_at(r, m@[0].model) matches Some(
            model,
        ) && model.quads.len() == 6),
        _ => false,
    }
}

/// The block has three states, each a cube.
pub open spec fn has_three_axes(r: Registry) -> bool {
    block_named(r, "oak_log"@) matches Some(b) && b.states.len() == 3 && forall|i: int|
        0 <= i < b.states.len() ==> is_one_cube(r, #[trigger] b.states@[i])
}

/// The quads show exactly two sprites.
pub open spec fn shows_two_sprites(quads: Seq<FaceQuad>) -> bool {
    exists|i: int, j: int| #![trigger quads[i], quads[j]]
        0 <= i < quads.len() && 0 <= j < quads.len() && quads[i].sprite != quads[j].sprite
            && only_sprites(quads, quads[i].sprite, quads[j].sprite)
}

pub open spec fn only_sprites(quads: Seq<FaceQuad>, a: SpriteId, b: SpriteId) -> bool {
    forall|k: int|
        0 <= k < quads.len() ==> (#[trigger] quads[k]).sprite == a || quads[k].sprite == b
}

/// The first state's model shows two sprites.
pub open spec fn has_end_and_side(r: Registry) -> bool {
    r.model_of_spec("oak_log"@, 0) matches Some(m) && shows_two_sprites(m.quads@)
}

fn one_cube(r: &Registry, s: &StateEntry) -> (ok: bool)
    ensures
        ok == is_one_cube(*r, *s),
{
    match &s.appearance {
        CompiledAppearance::Static(m) => {
            if m.len() != 1 {
                return false;
            }
            match r.model(m[0].model) {
                Some(model) => model.quads.len() == 6,
                None => false,
            }
        },
        _ => false,
    }
}

fn three_axes(r: &Registry) -> (ok: bool)
    ensures
        ok == has_three_axes(*r),
{
    match r.block("oak_log") {
        Some(b) => {
            if b.states.len() != 3 {
                return false;
            }
            let mut i: usize = 0;
            while i < b.states.len()
                invariant
                    i <= b.states.len(),
                    block_named(*r, "oak_log"@) == Some(*b),
                    forall|k: int| 0 <= k < i ==> is_one_cube(*r, #[trigger] b.states@[k]),
                decreases b.states.len() - i,
            {
                if !one_cube(r, &b.states[i]) {
                    return false;
                }
                i += 1;
            }
            true
        },
        None => false,
    }
}

fn two_sprites(quads: &[FaceQuad]) -> (ok: bool)
    ensures
        ok == shows_two_sprites(quads@),
{
    if quads.len() == 0 {
        return false;
    }
    let first = quads[0].sprite;
    let mut j: usize = 1;
    while j < quads.len() && quads[j].sprite == first
        invariant
            1 <= j <= quads.len(),
            first == quads@[0].sprite,
            forall|k: int| 0 <= k < j ==> (#[trigger] quads@[k]).sprite == first,
        decreases quads.len() - j,
    {
        j += 1;
    }
    if j == quads.len() {
        assert(!shows_two_sprites(quads@));
        return false;
    }
    let second = quads[j].sprite;
    let mut k: usize = j + 1;
    while k < quads.len()
        invariant
            1 <= j < k <= quads.len(),
            first == quads@[0].sprite,
            second == quads@[j as int].sprite,
            first != second,
            forall|p: int|
                0 <= p < k ==> (#[trigger] quads@[p]).sprite == first || quads@[p].sprite
                    == second,
        decreases quads.len() - k,
    {
        if quads[k].sprite != first && quads[k].sprite != second {
            assert forall|a: int, b: int| 0 <= a < quads@.len() && 0 <= b < quads@.len()
                && quads@[a].sprite != quads@[b].sprite implies !only_sprites(
                quads@,
                #[trigger] quads@[a].sprite,
                #[trigger] quads@[b].sprite,
            ) by {
                if only_sprites(quads@, quads@[a].sprite, quads@[b].sprite) {
                    assert(quads@[0].sprite == quads@[a].sprite || quads@[0].sprite
                        == quads@[b].sprite);
                    assert(quads@[j as int].sprite == quads@[a].sprite || quads@[j as int].sprite
                        == quads@[b].sprite);
                    assert(quads@[k as int].sprite == quads@[a].sprite || quads@[k as int].sprite
                        == quads@[b].sprite);
                }
            }
            return false;
        }
        k += 1;
    }
    assert(only_sprites(quads@, quads@[0].sprite, quads@[j as int].sprite));
    true
}

/// Some quad has a tint.
pub open spec fn any_tinted(quads: Seq<FaceQuad>) -> bool {
    exists|i: int| 0 <= i < quads.len() && (#[trigger] quads[i]).tint is Some
}

fn has_tinted(quads: &[FaceQuad]) -> (ok: bool)
    ensures
        ok == any_tinted(quads@),
{
    let mut i: usize = 0;
    while i < quads.len()
        invariant
            i <= quads.len(),
            forall|k: int| 0 <= k < i ==> (#[trigger] quads@[k]).tint is None,
        decreases quads.len() - i,
    {
        if quads[i].tint.is_some() {
            return true;
        }
        i += 1;
    }
    false
}

/// Some model of a list has a tinted quad.
pub open spec fn any_model_tinted(r: Registry, models: Seq<ModelInstance>) -> bool {
    exists|i: int|
        0 <= i < models.len() && (model_at(r, (#[trigger] models[i]).model) matches Some(m)
            && any_tinted(m.quads@))
}

fn has_tinted_model(r: &Registry, models: &[ModelInstance]) -> (ok: bool)
    ensures
        ok == any_model_tinted(*r, models@),
{
    let mut i: usize = 0;
    while i < models.len()
        invariant
            i <= models.len(),
            forall|k: int|
                0 <= k < i ==> !(model_at(*r, (#[trigger] models@[k]).model) matches Some(m)
                    && any_tinted(m.quads@)),
        decreases models.len() - i,
    {
        match r.model(models[i].model) {
            Some(m) => {
                if has_tinted(&m.quads) {
                    assert(model_at(*r, models@[i as int].model) == Some(*m));
                    return true;
                }
            },
            None => {},
        }
        i += 1;
    }
    false
}

/// Some model that an appearance can show has a tinted quad.
pub open spec fn appearance_tinted(r: Registry, a: CompiledAppearance) -> bool {
    match a {
        CompiledAppearance::Static(m) => any_model_tinted(r, m@),
        CompiledAppearance::Variants(v) => exists|i: int|
            0 <= i < v.len() && any_model_tinted(r, (#[trigger] v@[i]).1@),
        CompiledAppearance::Multipart(v) => exists|i: int|
            0 <= i < v.len() && any_model_tinted(r, (#[trigger] v@[i]).1@),
    }
}

fn entries_tinted(
    r: &Registry,
    v: &Vec<(crate::blockstates::Predicate, Vec<ModelInstance>)>,
) -> (ok: bool)
    ensures
        ok == exists|i: int| 0 <= i < v.len() && any_model_tinted(*r, (#[trigger] v@[i]).1@),
{
    let mut i: usize = 0;
    while i < v.len()
        invariant
            i <= v.len(),
            forall|k: int| 0 <= k < i ==> !any_model_tinted(*r, (#[trigger] v@[k]).1@),
        decreases v.len() - i,
    {
        if has_tinted_model(r, &v[i].1) {
            return true;
        }
        i += 1;
    }
    false
}

/// Some state of the grass block shows a tinted quad.
pub open spec fn grass_is_tinted(r: Registry) -> bool {
    block_named(r, "grass_block"@) matches Some(b) && exists|i: int|
        0 <= i < b.states.len() && appearance_tinted(r, (#[trigger] b.states@[i]).appearance)
}

fn grass_tinted(r: &Registry) -> (ok: bool)
    ensures
        ok == grass_is_tinted(*r),
{
    match r.block("grass_block") {
        Some(b) => {
            let mut i: usize = 0;
            while i < b.states.len()
                invariant
                    i <= b.states.len(),
                    block_named(*r, "grass_block"@) == Some(*b),
                    forall|k: int|
                        0 <= k < i ==> !appearance_tinted(*r, (#[trigger] b.states@[k]).appearance),
                decreases b.states.len() - i,
            {
                let tinted = match &b.states[i].appearance {
                    CompiledAppearance::Static(m) => has_tinted_model(r, m),
                    CompiledAppearance::Variants(v) => entries_tinted(r, v),
                    CompiledAppearance::Multipart(v) => entries_tinted(r, v),
                };
                if tinted {
                    assert(appearance_tinted(*r, b.states@[i as int].appearance));
                    return true;
                }
                i += 1;
            }
            false
        },
        None => false,
    }
}

/// Every state of a block occludes, or none does.
pub open spec fn all_occlude(r: Registry, name: Seq<char>, full: bool) -> bool {
    block_named(r, name) matches Some(b) && forall|i: int|
        0 <= i < b.states.len() ==> ((#[trigger] b.states@[i]).occlusion == Occlusion::Full)
            == full
}

fn occludes(r: &Registry, name: &str, full: bool) -> (ok: bool)
    ensures
        ok == all_occlude(*r, name@, full),
{
    match r.block(name) {
        Some(b) => {
            let mut i: usize = 0;
            while i < b.states.len()
                invariant
                    i <= b.states.len(),
                    block_named(*r, name@) == Some(*b),
                    forall|k: int|
                        0 <= k < i ==> ((#[trigger] b.states@[k]).occlusion == Occlusion::Full)
                            == full,
                decreases b.states.len() - i,
            {
                if b.states[i].occlusion.hides_neighbor() != full {
                    return false;
                }
                i += 1;
            }
            true
        },
        None => false,
    }
}

/// The first model of a block has at least two quads.
pub open spec fn has_two_quads(r: Registry, name: Seq<char>) -> bool {
    r.model_of_spec(name, 0) matches Some(m) && m.quads.len() >= 2
}

/// The first model of the short grass is a tinted cross.
pub open spec fn is_tinted_cross(r: Registry) -> bool {
    r.model_of_spec("short_grass"@, 0) matches Some(m) && m.quads.len() >= 2 && forall|i: int|
        0 <= i < m.quads.len() ==> (#[trigger] m.quads@[i]).tint is Some
}

fn tinted_cross(r: &Registry) -> (ok: bool)
    ensures
        ok == is_tinted_cross(*r),
{
    match r.model_of("short_grass", 0) {
        Some(m) => {
            if m.quads.len() < 2 {
                return false;
            }
            let mut i: usize = 0;
            while i < m.quads.len()
                invariant
                    i <= m.quads.len(),
                    r.model_of_spec("short_grass"@, 0) == Some(*m),
                    forall|k: int| 0 <= k < i ==> (#[trigger] m.quads@[k]).tint is Some,
                decreases m.quads.len() - i,
            {
                if m.quads[i].tint.is_none() {
                    return false;
                }
                i += 1;
            }
            true
        },
        None => false,
    }
}

/// A quad of the first rail model is flatter than two sixteenths. `heights`
/// are the heights of its quads.
pub open spec fn has_flat_rail(r: Registry, heights: Seq<F32>) -> bool {
    r.model_of_spec("rail"@, 0) matches Some(m) && exists|i: int|
        0 <= i < m.quads.len() && i < heights.len() && (#[trigger] heights[i]).lt_spec(
            num(bits::TWO),
        )
}

fn flat_rail(r: &Registry, heights: &[F32]) -> (ok: bool)
    ensures
        ok == has_flat_rail(*r, heights@),
{
    match r.model_of("rail", 0) {
        Some(m) => {
            let mut i: usize = 0;
            while i < m.quads.len() && i < heights.len()
                invariant
                    i <= m.quads.len(),
                    i <= heights.len(),
                    r.model_of_spec("rail"@, 0) == Some(*m),
                    forall|k: int| 0 <= k < i ==> !(#[trigger] heights@[k]).lt_spec(num(bits::TWO)),
                decreases heights.len() - i,
            {
                if heights[i].lt(F32 { bits: bits::TWO }) {
                    return true;
                }
                i += 1;
            }
            false
        },
        None => false,
    }
}

/// Some state of a block is put together from parts.
pub open spec fn any_multipart(b: BlockDef) -> bool {
    exists|i: int| 0 <= i < b.states.len() && (#[trigger] b.states@[i]).appearance is Multipart
}

fn has_multipart(b: &BlockDef) -> (ok: bool)
    ensures
        ok == any_multipart(*b),
{
    let mut i: usize = 0;
    while i < b.states.len()
        invariant
            i <= b.states.len(),
            forall|k: int|
                0 <= k < i ==> !((#[trigger] b.states@[k]).appearance is Multipart),
        decreases b.states.len() - i,
    {
        let is_multipart = match &b.states[i].appearance {
            CompiledAppearance::Multipart(_) => true,
            _ => false,
        };
        if is_multipart {
            assert(b.states@[i as int].appearance is Multipart);
            return true;
        }
        i += 1;
    }
    false
}

pub open spec fn vine_is_multipart(r: Registry) -> bool {
    block_named(r, "vine"@) matches Some(b) && any_multipart(b)
}

pub open spec fn wire_is_multipart(r: Registry) -> bool {
    block_named(r, "redstone_wire"@) matches Some(b) && b.states.len() > 1 && any_multipart(b)
}

/// The frames of the water sprite: that of the first quad of water's first
/// model, or its particle, where it is animated.
pub open spec fn water_frames(r: Registry) -> Option<u32> {
    match block_named(r, "water"@) {
        Some(b) => if b.states.len() > 0 {
            match b.states@[0].appearance {
                CompiledAppearance::Static(m) => if m.len() > 0 {
                    match model_at(r, m@[0].model) {
                        Some(model) => frames_of_sprite(
                            r,
                            if model.quads.len() > 0 {
                                model.quads@[0].sprite
                            } else {
                                model.particle
                            },
                        ),
                        None => None,
                    }
                } else {
                    None
                },
                _ => None,
            }
        } else {
            None
        },
        None => None,
    }
}

/// The frames of an animated sprite.
pub open spec fn frames_of_sprite(r: Registry, sprite: SpriteId) -> Option<u32> {
    if r.anim_index(sprite) < r.anims.len() {
        let row = r.anims@[r.anim_index(sprite)];
        Some(
            if row.2.len() == 0 {
                row.3
            } else {
                row.2.len() as u32
            },
        )
    } else {
        None
    }
}

fn find_water_frames(r: &Registry) -> (f: Option<u32>)
    ensures
        f == water_frames(*r),
{
    match r.block("water") {
        Some(b) => match b.state(0) {
            Some(s) => match &s.appearance {
                CompiledAppearance::Static(m) => {
                    if m.len() == 0 {
                        return None;
                    }
                    match r.model(m[0].model) {
                        Some(model) => {
                            let sprite = if model.quads.len() > 0 {
                                model.quads[0].sprite
                            } else {
                                model.particle
                            };
                            r.anim_frames(sprite)
                        },
                        None => None,
                    }
                },
                _ => None,
            },
            None => None,
        },
        None => None,
    }
}

/// The end of a log has the size of its texture in the atlas.
pub open spec fn log_top_is_packed(atlas: Atlas, store: SpriteStore) -> bool {
    let i = last_entry(atlas.entries@, "minecraft"@, "block/oak_log_top"@);
    store.lookup("minecraft"@, "block/oak_log_top"@) matches Some(s) && i >= 0
        && atlas.entries@[i].1.frame_w == s.tex.width && atlas.entries@[i].1.frame_h
        == s.tex.height
}

fn log_top_packed(atlas: &Atlas, store: &SpriteStore) -> (ok: bool)
    ensures
        ok == log_top_is_packed(*atlas, *store),
{
    match store.get("minecraft", "block/oak_log_top") {
        Some(s) => match atlas.get("minecraft", "block/oak_log_top") {
            Some(e) => e.frame_w == s.tex.width && e.frame_h == s.tex.height,
            None => false,
        },
        None => false,
    }
}

/// A line of the report.
pub open spec fn is_line(
    l: (String, bool, String),
    name: Seq<char>,
    ok: bool,
    yes: Seq<char>,
    no: Seq<char>,
) -> bool {
    l.0@ == name && l.1 == ok && l.2@ == (if ok {
        yes
    } else {
        no
    })
}

fn line(name: &str, ok: bool, yes: &str, no: &str) -> (r: (String, bool, String))
    ensures
        is_line(r, name@, ok, yes@, no@),
{
    (
        name.to_owned(),
        ok,
        if ok {
            yes.to_owned()
        } else {
            no.to_owned()
        },
    )
}

/// A truth value in words.
pub open spec fn truth(b: bool) -> Seq<char> {
    if b {
        "true"@
    } else {
        "false"@
    }
}

fn truth_text(b: bool) -> (r: &'static str)
    ensures
        r@ == truth(b),
{
    if b {
        "true"
    } else {
        "false"
    }
}

/// The remark on water.
pub open spec fn water_remark(frames: Option<u32>) -> Seq<char> {
    match frames {
        Some(f) => "animated strip, "@ + decimal(f as nat) + " frames (via particle sprite)"@,
        None => "no animation found"@,
    }
}

/// The report on a registry, an atlas and a store.
pub open spec fn is_report(
    l: Seq<(String, bool, String)>,
    r: Registry,
    atlas: Atlas,
    store: SpriteStore,
    heights: Seq<F32>,
) -> bool {
    &&& l.len() == 11
    &&& is_line(
        l[0],
        "oak_log"@,
        has_three_axes(r) && has_end_and_side(r),
        "3 axis variants, 6 quads each, end+side sprites distinct"@,
        "three_axis="@ + truth(has_three_axes(r)) + " end_side="@ + truth(has_end_and_side(r)),
    )
    &&& is_line(
        l[1],
        "grass_block"@,
        grass_is_tinted(r),
        "tinted faces present (top + side overlay)"@,
        "no tinted faces"@,
    )
    &&& is_line(
        l[2],
        "stone"@,
        all_occlude(r, "stone"@, true),
        "classified full opaque occluder"@,
        "not classified as occluder"@,
    )
    &&& is_line(
        l[3],
        "glass"@,
        all_occlude(r, "glass"@, false),
        "non-occluding (neighbor faces preserved)"@,
        "wrongly occluding"@,
    )
    &&& is_line(
        l[4],
        "torch"@,
        has_two_quads(r, "torch"@),
        "non-cube geometry with side faces"@,
        "geometry missing"@,
    )
    &&& is_line(l[5], "rail"@, has_flat_rail(r, heights), "flat quad present"@, "no flat quad"@)
    &&& is_line(
        l[6],
        "short_grass"@,
        is_tinted_cross(r),
        "cross quads, tinted"@,
        "cross geometry/tint missing"@,
    )
    &&& is_line(l[7], "vine"@, vine_is_multipart(r), "multipart appearance"@, "not multipart"@)
    &&& is_line(
        l[8],
        "redstone_wire"@,
        wire_is_multipart(r),
        "multipart per connection state"@,
        "not multipart"@,
    )
    &&& l[9].0@ == "water"@
    &&& l[9].1 == (water_frames(r) matches Some(f) && f > 1)
    &&& l[9].2@ == water_remark(water_frames(r))
    &&& is_line(
        l[10],
        "atlas"@,
        log_top_is_packed(atlas, store),
        "oak_log_top packed with correct frame size"@,
        "atlas entry mismatch"@,
    )
}

/// Runs the checklist. `rail_heights` are the heights of the quads of the
/// first rail model, in sixteenths of a block.
pub fn validate(
    runtime: &Registry,
    atlas: &Atlas,
    store: &SpriteStore,
    rail_heights: &[F32],
) -> (r: AssetResult<ValidationReport>)
    ensures
        r is Ok,
        is_report(r->Ok_0.lines@, *runtime, *atlas, *store, rail_heights@),
{
    let mut lines: Vec<(String, bool, String)> = Vec::new();
    let three_axis = three_axes(runtime);
    let end_side = match runtime.model_of("oak_log", 0) {
        Some(m) => two_sprites(&m.quads),
        None => false,
    };
    let head = join2("three_axis=", truth_text(three_axis));
    let remark = join3(head.as_str(), " end_side=", truth_text(end_side));
    lines.push(
        line(
            "oak_log",
            three_axis && end_side,
            "3 axis variants, 6 quads each, end+side sprites distinct",
            remark.as_str(),
        ),
    );
    lines.push(
        line(
            "grass_block",
            grass_tinted(runtime),
            "tinted faces present (top + side overlay)",
            "no tinted faces",
        ),
    );
    lines.push(
        line(
            "stone",
            occludes(runtime, "stone", true),
            "classified full opaque occluder",
            "not classified as occluder",
        ),
    );
    lines.push(
        line(
            "glass",
            occludes(runtime, "glass", false),
            "non-occluding (neighbor faces preserved)",
            "wrongly occluding",
        ),
    );
    let torch = match runtime.model_of("torch", 0) {
        Some(m) => m.quads.len() >= 2,
        None => false,
    };
    lines.push(line("torch", torch, "non-cube geometry with side faces", "geometry missing"));
    lines.push(
        line("rail", flat_rail(runtime, rail_heights), "flat quad present", "no flat quad"),
    );
    lines.push(
        line(
            "short_grass",
            tinted_cross(runtime),
            "cross quads, tinted",
            "cross geometry/tint missing",
        ),
    );
    let vine = match runtime.block("vine") {
        Some(b) => has_multipart(b),
        None => false,
    };
    lines.push(line("vine", vine, "multipart appearance", "not multipart"));
    let wire = match runtime.block("redstone_wire") {
        Some(b) => b.states.len() > 1 && has_multipart(b),
        None => false,
    };
    lines.push(line("redstone_wire", wire, "multipart per connection state", "not multipart"));
    let frames = find_water_frames(runtime);
    let water = match frames {
        Some(f) => f > 1,
        None => false,
    };
    let water_text = match frames {
        Some(f) => {
            let n = decimal_string(f as u64);
            join3("animated strip, ", n.as_str(), " frames (via particle sprite)")
        },
        None => "no animation found".to_owned(),
    };
    lines.push(("water".to_owned(), water, water_text));
    lines.push(
        line(
            "atlas",
            log_top_packed(atlas, store),
            "oak_log_top packed with correct frame size",
            "atlas entry mismatch",
        ),
    );
    Ok(ValidationReport { lines })
}

/// The failed lines are counted.
pub proof fn law_failures_are_counted(lines: Seq<(String, bool, String)>, n: int)
    requires
        0 <= n <= lines.len(),
    ensures
        failed(lines, n) == lines.take(n).filter(|l: (String, bool, String)| !l.1).len(),
    decreases n,
{
    reveal(Seq::filter);
    if n > 0 {
        law_failures_are_counted(lines, n - 1);
        assert(lines.take(n).drop_last() =~= lines.take(n - 1));
        assert(lines.take(n).last() == lines[n - 1]);
    }
}

/// The report has a line for each block of the scene and one for the atlas.
pub proof fn law_reports_name_their_subjects(
    l: Seq<(String, bool, String)>,
    r: Registry,
    atlas: Atlas,
    store: SpriteStore,
    heights: Seq<F32>,
)
    requires
        is_report(l, r, atlas, store, heights),
    ensures
        l.len() == 11,
        l[0].0@ == "oak_log"@,
        l[1].0@ == "grass_block"@,
        l[2].0@ == "stone"@,
        l[3].0@ == "glass"@,
        l[4].0@ == "torch"@,
        l[5].0@ == "rail"@,
        l[6].0@ == "short_grass"@,
        l[7].0@ == "vine"@,
        l[8].0@ == "redstone_wire"@,
        l[9].0@ == "water"@,
        l[10].0@ == "atlas"@,
{
}

/// What the lines on single blocks hold of the registry, given where the last
/// blocks of their names stand: each state of stone occludes and none of glass
/// does; vines have a state of parts, and wire too, among several states.
pub proof fn law_lines_hold_of_their_blocks(
    l: Seq<(String, bool, String)>,
    r: Registry,
    atlas: Atlas,
    store: SpriteStore,
    heights: Seq<F32>,
    name: Seq<char>,
    i: int,
)
    requires
        is_report(l, r, atlas, store, heights),
        0 <= i < r.blocks@.len(),
        r.blocks@[i].name@ == name,
        forall|k: int| i < k < r.blocks@.len() ==> (#[trigger] r.blocks@[k]).name@ != name,
    ensures
        name == "stone"@ ==> (l[2].1 <==> forall|s: int|
            0 <= s < r.blocks@[i].states@.len() ==> (#[trigger] r.blocks@[i].states@[s]).occlusion
                == Occlusion::Full),
        name == "glass"@ ==> (l[3].1 <==> forall|s: int|
            0 <= s < r.blocks@[i].states@.len() ==> (#[trigger] r.blocks@[i].states@[s]).occlusion
                != Occlusion::Full),
        name == "vine"@ ==> (l[7].1 <==> exists|s: int|
            0 <= s < r.blocks@[i].states@.len() && (#[trigger] r.blocks@[i].states@[s]).appearance
                is Multipart),
        name == "redstone_wire"@ ==> (l[8].1 <==> r.blocks@[i].states@.len() > 1 && exists|s: int|
            0 <= s < r.blocks@[i].states@.len() && (#[trigger] r.blocks@[i].states@[s]).appearance
                is Multipart),
        name == "oak_log"@ && l[0].1 ==> r.blocks@[i].states@.len() == 3,
{
    crate::registry::lemma_last_named(r.blocks@, name, i);
}

/// A block that is not there fails its line.
pub proof fn law_missing_blocks_fail(
    l: Seq<(String, bool, String)>,
    r: Registry,
    atlas: Atlas,
    store: SpriteStore,
    heights: Seq<F32>,
    name: Seq<char>,
)
    requires
        is_report(l, r, atlas, store, heights),
        forall|k: int| 0 <= k < r.blocks@.len() ==> (#[trigger] r.blocks@[k]).name@ != name,
    ensures
        name == "oak_log"@ ==> !l[0].1,
        name == "grass_block"@ ==> !l[1].1,
        name == "stone"@ ==> !l[2].1,
        name == "glass"@ ==> !l[3].1,
        name == "torch"@ ==> !l[4].1,
        name == "rail"@ ==> !l[5].1,
        name == "short_grass"@ ==> !l[6].1,
        name == "vine"@ ==> !l[7].1,
        name == "redstone_wire"@ ==> !l[8].1,
        name == "water"@ ==> !l[9].1,
{
    crate::registry::lemma_last_named(r.blocks@, name, -1);
}

/// What the lines on first models hold: a torch has at least two quads, short
/// grass too, all of them tinted, a log shows two sprites, and a rail has a
/// quad flatter than two.
pub proof fn law_lines_hold_of_their_models(
    l: Seq<(String, bool, String)>,
    r: Registry,
    atlas: Atlas,
    store: SpriteStore,
    heights: Seq<F32>,
    m: RuntimeModel,
)
    requires
        is_report(l, r, atlas, store, heights),
    ensures
        r.model_of_spec("torch"@, 0) == Some(m) ==> (l[4].1 <==> m.quads@.len() >= 2),
        r.model_of_spec("short_grass"@, 0) == Some(m) ==> (l[6].1 <==> m.quads@.len() >= 2
            && forall|i: int| 0 <= i < m.quads@.len() ==> (#[trigger] m.quads@[i]).tint is Some),
        r.model_of_spec("rail"@, 0) == Some(m) ==> (l[5].1 <==> exists|i: int|
            0 <= i < m.quads@.len() && i < heights.len() && (#[trigger] heights[i]).lt_spec(
                F32 { bits: 0x4000_0000 },
            )),
        r.model_of_spec("torch"@, 0) is None ==> !l[4].1,
        r.model_of_spec("rail"@, 0) is None ==> !l[5].1,
        r.model_of_spec("short_grass"@, 0) is None ==> !l[6].1,
        r.model_of_spec("oak_log"@, 0) == Some(m) && l[0].1 ==> shows_two_sprites(m.quads@),
{
}

/// The line on the atlas holds where the end of a log is packed at its size.
pub proof fn law_atlas_line_holds_of_the_log(
    l: Seq<(String, bool, String)>,
    r: Registry,
    atlas: Atlas,
    store: SpriteStore,
    heights: Seq<F32>,
)
    requires
        is_report(l, r, atlas, store, heights),
    ensures
        l[10].1 ==> (store.lookup("minecraft"@, "block/oak_log_top"@) matches Some(s) && ({
            let i = last_entry(atlas.entries@, "minecraft"@, "block/oak_log_top"@);
            i >= 0 && atlas.entries@[i].1.frame_w == s.tex.width && atlas.entries@[i].1.frame_h
                == s.tex.height
        })),
        store.lookup("minecraft"@, "block/oak_log_top"@) is None ==> !l[10].1,
{
}

/// Water is animated where its sprite has more than one frame, and the remark
/// says how many.
pub proof fn law_water_line_counts_frames(
    l: Seq<(String, bool, String)>,
    r: Registry,
    atlas: Atlas,
    store: SpriteStore,
    heights: Seq<F32>,
)
    requires
        is_report(l, r, atlas, store, heights),
    ensures
        water_frames(r) is None ==> !l[9].1 && l[9].2@ == "no animation found"@,
        water_frames(r) matches Some(f) ==> l[9].1 == (f > 1) && l[9].2@ == "animated strip, "@
            + decimal(f as nat) + " frames (via particle sprite)"@,
{
}

/// An animated sprite has as many frames as its playback order, or as its
/// strip where it has none.
pub proof fn law_sprite_frames(r: Registry, sprite: SpriteId, i: int)
    requires
        0 <= i < r.anims@.len(),
        r.anim_index(sprite) == i,
        r.anims@[i].2@.len() <= u32::MAX,
    ensures
        r.anims@[i].2@.len() == 0 ==> frames_of_sprite(r, sprite) == Some(r.anims@[i].3),
        r.anims@[i].2@.len() > 0 ==> frames_of_sprite(r, sprite) == Some(
            r.anims@[i].2@.len() as u32,
        ),
{
}

/// A log holds where its block has three states that each show one model of
/// six quads, and its first model shows two sprites.
pub proof fn law_log_line_holds_of_its_states(
    l: Seq<(String, bool, String)>,
    r: Registry,
    atlas: Atlas,
    store: SpriteStore,
    heights: Seq<F32>,
    i: int,
    s: int,
)
    requires
        is_report(l, r, atlas, store, heights),
        0 <= i < r.blocks@.len(),
        r.blocks@[i].name@ == "oak_log"@,
        forall|k: int| i < k < r.blocks@.len() ==> (#[trigger] r.blocks@[k]).name@ != "oak_log"@,
        0 <= s < r.blocks@[i].states@.len(),
    ensures
        l[0].1 ==> (r.blocks@[i].states@[s].appearance matches CompiledAppearance::Static(m)
            && m@.len() == 1 && m@[0].model.0 < r.models@.len()
            && r.models@[m@[0].model.0 as int].quads@.len() == 6),
        l[0].1 ==> (r.model_of_spec("oak_log"@, 0) matches Some(m) && exists|a: int, b: int|
            #![trigger m.quads@[a], m.quads@[b]]
            0 <= a < m.quads@.len() && 0 <= b < m.quads@.len() && m.quads@[a].sprite
                != m.quads@[b].sprite),
{
    crate::registry::lemma_last_named(r.blocks@, "oak_log"@, i);
    if l[0].1 {
        assert(is_one_cube(r, r.blocks@[i].states@[s]));
    }
}

/// Grass holds where a state of its block shows a tinted quad.
pub proof fn law_grass_line_holds_of_a_tinted_quad(
    l: Seq<(String, bool, String)>,
    r: Registry,
    atlas: Atlas,
    store: SpriteStore,
    heights: Seq<F32>,
    i: int,
    s: int,
    k: int,
    q: int,
)
    requires
        is_report(l, r, atlas, store, heights),
        0 <= i < r.blocks@.len(),
        r.blocks@[i].name@ == "grass_block"@,
        forall|k: int| i < k < r.blocks@.len() ==> (#[trigger] r.blocks@[k]).name@ != "grass_block"@,
    ensures
        0 <= s < r.blocks@[i].states@.len() ==> (r.blocks@[i].states@[s].appearance
            matches CompiledAppearance::Static(m) ==> (0 <= k < m@.len() && m@[k].model.0
            < r.models@.len() && 0 <= q < r.models@[m@[k].model.0 as int].quads@.len()
            && r.models@[m@[k].model.0 as int].quads@[q].tint is Some ==> l[1].1)),
        r.blocks@[i].states@.len() == 0 ==> !l[1].1,
        (forall|m: int, j: int|
            0 <= m < r.models@.len() && 0 <= j < r.models@[m].quads@.len()
                ==> (#[trigger] r.models@[m].quads@[j]).tint is None) ==> !l[1].1,
{
    crate::registry::lemma_last_named(r.blocks@, "grass_block"@, i);
    if 0 <= s < r.blocks@[i].states@.len() {
        if let CompiledAppearance::Static(m) = r.blocks@[i].states@[s].appearance {
            if 0 <= k < m@.len() && m@[k].model.0 < r.models@.len() && 0 <= q
                < r.models@[m@[k].model.0 as int].quads@.len()
                && r.models@[m@[k].model.0 as int].quads@[q].tint is Some {
                assert(any_tinted(r.models@[m@[k].model.0 as int].quads@));
                assert(model_at(r, m@[k].model) is Some);
                assert(any_model_tinted(r, m@));
                assert(appearance_tinted(r, r.blocks@[i].states@[s].appearance));
                assert(grass_is_tinted(r));
            }
        }
    }
    if forall|m: int, j: int|
        0 <= m < r.models@.len() && 0 <= j < r.models@[m].quads@.len()
            ==> (#[trigger] r.models@[m].quads@[j]).tint is None {
        assert forall|list: Seq<ModelInstance>| !#[trigger] any_model_tinted(r, list) by {}
    }
}

/// The water sprite is that of the first quad of water's first model, or its
/// particle where it has no quad.
pub proof fn law_water_sprite_is_counted(r: Registry, i: int, m: RuntimeModel)
    requires
        0 <= i < r.blocks@.len(),
        r.blocks@[i].name@ == "water"@,
        forall|k: int| i < k < r.blocks@.len() ==> (#[trigger] r.blocks@[k]).name@ != "water"@,
        r.blocks@[i].states@.len() > 0,
        r.blocks@[i].states@[0].appearance is Static,
        r.model_of_spec("water"@, 0) == Some(m),
    ensures
        m.quads@.len() > 0 ==> water_frames(r) == frames_of_sprite(r, m.quads@[0].sprite),
        m.quads@.len() == 0 ==> water_frames(r) == frames_of_sprite(r, m.particle),
{
    crate::registry::lemma_last_named(r.blocks@, "water"@, i);
}

/// Truth values in words.
pub proof fn law_truth_has_words()
    ensures
        truth(true) == "true"@,
        truth(false) == "false"@,
{
}

/// What the lines of a report remark where they hold and where they do not.
pub proof fn law_reports_remark_on_their_subjects(
    l: Seq<(String, bool, String)>,
    r: Registry,
    atlas: Atlas,
    store: SpriteStore,
    heights: Seq<F32>,
)
    requires
        is_report(l, r, atlas, store, heights),
    ensures
        l[0].1 ==> l[0].2@ == "3 axis variants, 6 quads each, end+side sprites distinct"@,
        !l[0].1 ==> l[0].2@ == "three_axis="@ + truth(has_three_axes(r)) + " end_side="@ + truth(
            has_end_and_side(r),
        ),
        l[0].1 <==> has_three_axes(r) && has_end_and_side(r),
        l[1].1 ==> l[1].2@ == "tinted faces present (top + side overlay)"@,
        !l[1].1 ==> l[1].2@ == "no tinted faces"@,
        l[2].1 ==> l[2].2@ == "classified full opaque occluder"@,
        !l[2].1 ==> l[2].2@ == "not classified as occluder"@,
        l[3].1 ==> l[3].2@ == "non-occluding (neighbor faces preserved)"@,
        !l[3].1 ==> l[3].2@ == "wrongly occluding"@,
        l[4].1 ==> l[4].2@ == "non-cube geometry with side faces"@,
        !l[4].1 ==> l[4].2@ == "geometry missing"@,
        l[5].1 ==> l[5].2@ == "flat quad present"@,
        !l[5].1 ==> l[5].2@ == "no flat quad"@,
        l[6].1 ==> l[6].2@ == "cross quads, tinted"@,
        !l[6].1 ==> l[6].2@ == "cross geometry/tint missing"@,
        l[7].1 ==> l[7].2@ == "multipart appearance"@,
        !l[7].1 ==> l[7].2@ == "not multipart"@,
        l[8].1 ==> l[8].2@ == "multipart per connection state"@,
        !l[8].1 ==> l[8].2@ == "not multipart"@,
        l[10].1 ==> l[10].2@ == "oak_log_top packed with correct frame size"@,
        !l[10].1 ==> l[10].2@ == "atlas entry mismatch"@,
{
}

} // verus!
