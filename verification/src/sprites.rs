//! Sprites: decoded textures with their strip layout, and the store of them.

use crate::compiled::{find_pair, pair_pos};
use crate::error::{AssetError, AssetResult};
use crate::meta::{frame_entry, Animation, AnimationRaw};
use crate::order::{is_stable_order, order_pairs, pairs_le};
use crate::text::{
    chars_of, contains, contains_chars, decimal, decimal_string, ends_with, join2, join3, qualified,
    replace_char, replaced, starts_with, str_ends_with, str_starts_with, str_strip_prefix,
    strip_prefix,
};
use crate::texture::DecodedTexture;
use vstd::prelude::*;

verus! {

/// Identifies a texture inside the pack, such as `("minecraft", "block/stone")`.
pub type SpriteRef = (String, String);

/// A sprite whose strip layout is resolved.
#[derive(Debug)]
pub struct Sprite {
    pub name: SpriteRef,
    pub tex: DecodedTexture,
    /// Frame size. The whole texture for sprites without animation.
    pub frame_w: u32,
    pub frame_h: u32,
    /// Present when the sidecar declares an animation.
    pub animation: Option<Animation>,
}

impl Sprite {
    /// The texture is complete and not empty, and frames have a height.
    pub open spec fn wf(&self) -> bool {
        self.tex.wf() && self.tex.width > 0 && self.tex.height > 0 && self.frame_h > 0
            && self.frame_w <= self.tex.width
    }

    pub open spec fn frame_count_spec(&self) -> u32 {
        match self.animation {
            Some(a) => a.frame_count_spec(
                self.tex.height / (if self.frame_h == 0 {
                    1u32
                } else {
                    self.frame_h
                }),
            ),
            None => 1,
        }
    }

    /// Number of animation frames (1 for still textures).
    pub fn frame_count(&self) -> (r: u32)
        ensures
            r == self.frame_count_spec(),
    {
        match &self.animation {
            Some(a) => {
                let h: u32 = if self.frame_h == 0 { 1 } else { self.frame_h };
                a.frame_count(self.tex.height / h)
            },
            None => 1,
        }
    }

    pub fn is_animated(&self) -> (r: bool)
        ensures
            r == (self.frame_count_spec() > 1),
    {
        self.frame_count() > 1
    }
}

/// All textures decoded from the pack. Each name occurs once.
pub struct SpriteStore {
    pub names: Vec<SpriteRef>,
    /// One sprite per name.
    pub sprites: Vec<Sprite>,
    /// Sprite names in sorted order (stable atlas packing).
    pub sorted: Vec<SpriteRef>,
}

impl SpriteStore {
    pub open spec fn wf(&self) -> bool {
        &&& self.names.len() == self.sprites.len()
        &&& forall|i: int| 0 <= i < self.sprites.len() ==> (#[trigger] self.sprites@[i]).wf()
    }

    /// The sprite of a name.
    pub open spec fn lookup(&self, ns: Seq<char>, name: Seq<char>) -> Option<Sprite> {
        let i = pair_pos(self.names@, ns, name);
        if i < self.names.len() && i < self.sprites.len() {
            Some(self.sprites@[i])
        } else {
            None
        }
    }

    /// The sorted names are the names, in order.
    pub open spec fn is_sorted(&self) -> bool {
        exists|order: Seq<usize>|
            is_stable_order(order, self.names.len() as int, pairs_le(self.names@))
                && self.sorted@.len() == order.len() && forall|i: int|
                0 <= i < order.len() ==> #[trigger] self.sorted@[i] == self.names@[order[i] as int]
    }

    /// A store of loaded sprites; of two sprites with one name the later one
    /// stays.
    pub fn from_sprites(loaded: Vec<Sprite>) -> (r: SpriteStore)
        ensures
            r.names.len() == r.sprites.len(),
            r.is_sorted(),
            each_named(r.names@, r.sprites@),
            each_once(r.names@),
            forall|i: int|
                0 <= i < r.sprites.len() ==> loaded@.contains(#[trigger] r.sprites@[i]),
            forall|ns: Seq<char>, name: Seq<char>|
                #![trigger r.lookup(ns, name)]
                r.lookup(ns, name) == last_sprite(loaded@, ns, name),
    {
        let mut names: Vec<SpriteRef> = Vec::new();
        let mut sprites: Vec<Sprite> = Vec::new();
        let ghost store = |n: Seq<SpriteRef>, s: Seq<Sprite>, ns: Seq<char>, name: Seq<char>|
            {
                let i = pair_pos(n, ns, name);
                if i < n.len() && i < s.len() {
                    Some(s[i])
                } else {
                    None::<Sprite>
                }
            };
        for sprite in it: loaded
            invariant
                it.seq() == loaded@,
                names.len() == sprites.len(),
                each_named(names@, sprites@),
                each_once(names@),
                forall|i: int|
                    0 <= i < sprites.len() ==> loaded@.contains(#[trigger] sprites@[i]),
                forall|n: Seq<SpriteRef>, s: Seq<Sprite>, ns: Seq<char>, name: Seq<char>| #[trigger]
                    store(n, s, ns, name) == ({
                        let i = pair_pos(n, ns, name);
                        if i < n.len() && i < s.len() {
                            Some(s[i])
                        } else {
                            None::<Sprite>
                        }
                    }),
                forall|ns: Seq<char>, name: Seq<char>| #[trigger]
                    store(names@, sprites@, ns, name) == last_sprite(
                        it.seq().take(it.index() as int),
                        ns,
                        name,
                    ),
        {
            let ghost k = it.index() as int;
            let ghost n0 = names@;
            let ghost s0 = sprites@;
            assert(loaded@[k] == sprite);
            assert(loaded@.take(k + 1).drop_last() == loaded@.take(k));
            assert(loaded@.take(k + 1).last() == sprite);
            let i = find_pair(&names, sprite.name.0.as_str(), sprite.name.1.as_str());
            if i < names.len() {
                sprites.set(i, sprite);
                assert forall|ns: Seq<char>, name: Seq<char>| #[trigger]
                    store(names@, sprites@, ns, name) == last_sprite(
                        loaded@.take(k + 1),
                        ns,
                        name,
                    ) by {
                    assert(store(n0, s0, ns, name) == last_sprite(loaded@.take(k), ns, name));
                    lemma_pair_pos_bounds(names@, ns, name);
                }
            } else {
                names.push((sprite.name.0.clone(), sprite.name.1.clone()));
                let ghost added = sprite.name;
                sprites.push(sprite);
                assert forall|ns: Seq<char>, name: Seq<char>| #[trigger]
                    store(names@, sprites@, ns, name) == last_sprite(
                        loaded@.take(k + 1),
                        ns,
                        name,
                    ) by {
                    assert(store(n0, s0, ns, name) == last_sprite(loaded@.take(k), ns, name));
                    lemma_pair_pos_bounds(n0, ns, name);
                    lemma_pair_pos_push(n0, names@.last(), ns, name);
                    assert(names@ =~= n0.push(names@.last()));
                }
            }
        }
        assert(loaded@.take(loaded@.len() as int) == loaded@);
        let order = order_pairs(&names);
        let mut sorted: Vec<SpriteRef> = Vec::new();
        let mut i: usize = 0;
        while i < order.len()
            invariant
                i <= order.len(),
                is_stable_order(order@, names@.len() as int, pairs_le(names@)),
                sorted.len() == i,
                forall|k: int| 0 <= k < i ==> #[trigger] sorted@[k] == names@[order@[k] as int],
            decreases order.len() - i,
        {
            sorted.push((names[order[i]].0.clone(), names[order[i]].1.clone()));
            i += 1;
        }
        let r = SpriteStore { names, sprites, sorted };
        assert forall|ns: Seq<char>, name: Seq<char>| #![trigger r.lookup(ns, name)]
            r.lookup(ns, name) == last_sprite(loaded@, ns, name) by {
            assert(store(names@, sprites@, ns, name) == last_sprite(loaded@, ns, name));
        }
        r
    }

    pub fn get(&self, ns: &str, name: &str) -> (r: Option<&Sprite>)
        ensures
            match r {
                Some(s) => self.lookup(ns@, name@) == Some(*s),
                None => self.lookup(ns@, name@) is None,
            },
    {
        let i = find_pair(&self.names, ns, name);
        if i < self.names.len() && i < self.sprites.len() {
            Some(&self.sprites[i])
        } else {
            None
        }
    }
}

/// The last sprite with a name.
pub open spec fn last_sprite(v: Seq<Sprite>, ns: Seq<char>, name: Seq<char>) -> Option<Sprite>
    decreases v.len(),
{
    if v.len() == 0 {
        None
    } else if v.last().name.0@ == ns && v.last().name.1@ == name {
        Some(v.last())
    } else {
        last_sprite(v.drop_last(), ns, name)
    }
}

/// The sprites stand beside their own names.
pub open spec fn each_named(names: Seq<SpriteRef>, sprites: Seq<Sprite>) -> bool {
    forall|i: int|
        0 <= i < sprites.len() && i < names.len() ==> (#[trigger] sprites[i]).name.0@ == names[i].0@
            && sprites[i].name.1@ == names[i].1@
}

/// No name occurs twice.
pub open spec fn each_once(names: Seq<SpriteRef>) -> bool {
    forall|a: int, b: int|
        0 <= a < b < names.len() ==> !((#[trigger] names[a]).0@ == (#[trigger] names[b]).0@
            && names[a].1@ == names[b].1@)
}

pub proof fn lemma_pair_pos_bounds(names: Seq<SpriteRef>, ns: Seq<char>, name: Seq<char>)
    ensures
        0 <= pair_pos(names, ns, name) <= names.len(),
        pair_pos(names, ns, name) < names.len() ==> names[pair_pos(names, ns, name)].0@ == ns
            && names[pair_pos(names, ns, name)].1@ == name,
    decreases names.len(),
{
    if names.len() > 0 && !(names[0].0@ == ns && names[0].1@ == name) {
        lemma_pair_pos_bounds(names.skip(1), ns, name);
    }
}

pub proof fn lemma_pair_pos_push(
    names: Seq<SpriteRef>,
    next: SpriteRef,
    ns: Seq<char>,
    name: Seq<char>,
)
    ensures
        pair_pos(names.push(next), ns, name) == (if pair_pos(names, ns, name) < names.len() {
            pair_pos(names, ns, name)
        } else if next.0@ == ns && next.1@ == name {
            names.len() as int
        } else {
            names.len() as int + 1
        }),
    decreases names.len(),
{
    if names.len() == 0 {
        assert(names.push(next)[0] == next);
        assert(names.push(next).skip(1).len() == 0);
        assert(pair_pos(names.push(next).skip(1), ns, name) == 0);
    } else if !(names[0].0@ == ns && names[0].1@ == name) {
        assert(names.push(next)[0] == names[0]);
        assert(names.push(next).skip(1) == names.skip(1).push(next));
        lemma_pair_pos_push(names.skip(1), next, ns, name);
    }
}

/// The name under which an indexed file is loaded as a sprite: files below a
/// `textures` directory, without sidecars and fonts.
pub open spec fn sprite_name_spec(path: Seq<char>, file: Seq<char>) -> Option<Seq<char>> {
    let name = match strip_prefix(path, "textures/"@) {
        Some(rest) => rest,
        None => path,
    };
    if contains(replaced(file, '\\', '/'), "/textures/"@) && !ends_with(name, ".mcmeta"@)
        && !ends_with(name, ".png"@) && !starts_with(name, "font/"@) {
        Some(name)
    } else {
        None
    }
}

pub fn sprite_name(path: &str, file: &str) -> (r: Option<String>)
    ensures
        match r {
            Some(n) => sprite_name_spec(path@, file@) == Some(n@),
            None => sprite_name_spec(path@, file@) is None,
        },
{
    let f = chars_of(file);
    let forward = replace_char(&f, '\\', '/');
    let needle = chars_of("/textures/");
    if !contains_chars(&forward, &needle) {
        return None;
    }
    let name = match str_strip_prefix(path, "textures/") {
        Some(rest) => rest,
        None => path.to_owned(),
    };
    if str_ends_with(name.as_str(), ".mcmeta") || str_ends_with(name.as_str(), ".png")
        || str_starts_with(name.as_str(), "font/") {
        None
    } else {
        Some(name)
    }
}

/// The explicit frame list is usable: every entry can be read and names a row
/// of the strip.
pub open spec fn frames_usable(raw: AnimationRaw, strip_frames: u32) -> bool {
    raw.frames_readable() && forall|i: int|
        0 <= i < raw.frames->0.len() ==> (frame_entry((#[trigger] raw.frames->0@[i]).shape())->0).0
            < strip_frames
}

/// The animation of a section on a strip: the frame list where it is usable,
/// else every row of the strip in turn, which an empty list stands for.
pub open spec fn finalized(raw: AnimationRaw, strip_frames: u32, a: Animation) -> bool {
    &&& a.frametime == (match raw.frametime {
        Some(t) => t,
        None => 1,
    })
    &&& a.interpolate == (raw.interpolate == Some(true))
    &&& if frames_usable(raw, strip_frames) {
        &&& a.frames@.len() == raw.frames->0.len()
        &&& forall|i: int|
            0 <= i < a.frames@.len() ==> #[trigger] a.frames@[i] == (frame_entry(
                raw.frames->0@[i].shape(),
            )->0).0
    } else {
        a.frames@.len() == 0
    }
}

/// An animation plays rows of its strip only, whatever its section lists.
pub proof fn law_frames_lie_in_strip(raw: AnimationRaw, strip_frames: u32, a: Animation)
    requires
        finalized(raw, strip_frames, a),
    ensures
        forall|i: int| 0 <= i < a.frames@.len() ==> #[trigger] a.frames@[i] < strip_frames,
{
    assert forall|i: int| 0 <= i < a.frames@.len() implies #[trigger] a.frames@[i]
        < strip_frames by {
        assert((frame_entry(raw.frames->0@[i].shape())->0).0 < strip_frames);
    }
}

/// Validates frame indices and folds the frame list into the animation; an
/// invalid list is dropped for sequential playback.
pub fn finalize_animation(raw: &AnimationRaw, strip_frames: u32) -> (r: Animation)
    ensures
        finalized(*raw, strip_frames, r),
{
    let mut list: Vec<u16> = Vec::new();
    if let Some(times) = raw.frame_times() {
        let mut frames: Vec<u16> = Vec::new();
        let mut valid = true;
        let mut i: usize = 0;
        while i < times.len()
            invariant
                i <= times.len(),
                raw.frames_readable(),
                times.len() == raw.frames->0.len(),
                forall|k: int|
                    0 <= k < times.len() ==> Some(#[trigger] times@[k]) == frame_entry(
                        raw.frames->0@[k].shape(),
                    ),
                frames.len() == i,
                forall|k: int| 0 <= k < i ==> #[trigger] frames@[k] == times@[k].0,
                valid == forall|k: int| 0 <= k < i ==> (#[trigger] times@[k]).0 < strip_frames,
            decreases times.len() - i,
        {
            frames.push(times[i].0);
            if times[i].0 as u32 >= strip_frames {
                valid = false;
            }
            i += 1;
        }
        assert(valid == frames_usable(*raw, strip_frames)) by {
            let v = raw.frames->0@;
            assert forall|k: int| 0 <= k < v.len() implies (frame_entry(
                (#[trigger] v[k]).shape(),
            )->0).0 == times@[k].0 by {
                assert(Some(times@[k]) == frame_entry(v[k].shape()));
            }
            if valid {
                assert forall|k: int| 0 <= k < v.len() implies (frame_entry(
                    (#[trigger] v[k]).shape(),
                )->0).0 < strip_frames by {
                    assert(times@[k].0 < strip_frames);
                }
            } else {
                let k = choose|k: int| 0 <= k < times.len() && !((#[trigger] times@[k]).0 < strip_frames);
                assert((frame_entry(v[k].shape())->0).0 == times@[k].0);
            }
        }
        if valid {
            assert forall|k: int| 0 <= k < frames@.len() implies #[trigger] frames@[k]
                == (frame_entry(raw.frames->0@[k].shape())->0).0 by {
                assert(Some(times@[k]) == frame_entry(raw.frames->0@[k].shape()));
            }
            list = frames;
        }
    }
    Animation {
        frametime: match raw.frametime {
            Some(t) => t,
            None => 1,
        },
        frames: list,
        interpolate: match raw.interpolate {
            Some(b) => b,
            None => false,
        },
    }
}

/// The number of frames that a section plays on a strip.
pub fn frame_count_for_test(raw: &AnimationRaw, strip_frames: u32) -> (r: u32)
    ensures
        exists|a: Animation| finalized(*raw, strip_frames, a) && r == a.frame_count_spec(
            strip_frames,
        ),
{
    let a = finalize_animation(raw, strip_frames);
    a.frame_count(strip_frames)
}

/// The frame size of a texture: declared, or a square of the texture's width.
pub open spec fn frame_size(tex: DecodedTexture, raw: AnimationRaw) -> (u32, u32) {
    (
        match raw.width {
            Some(w) => w,
            None => tex.width,
        },
        match raw.height {
            Some(h) => h,
            None => tex.width,
        },
    )
}

/// The strip divides into frames of this size.
pub open spec fn divides(tex: DecodedTexture, size: (u32, u32)) -> bool {
    size.0 > 0 && size.1 > 0 && tex.height as int % size.1 as int == 0 && tex.width as int
        % size.0 as int == 0
}

/// The message for a strip that does not divide into its frames.
pub open spec fn strip_message(tex: DecodedTexture, size: (u32, u32)) -> Seq<char> {
    "animation strip "@ + decimal(tex.width as nat) + "x"@ + decimal(tex.height as nat)
        + " does not divide into "@ + decimal(size.0 as nat) + "x"@ + decimal(size.1 as nat)
        + " frames"@
}

/// Resolves the strip layout of a decoded texture.
pub fn resolve_sprite(
    ns: &str,
    name: &str,
    tex: DecodedTexture,
    anim_raw: Option<AnimationRaw>,
) -> (r: AssetResult<Sprite>)
    ensures
        match anim_raw {
            None => r matches Ok(s) && s.name.0@ == ns@ && s.name.1@ == name@ && s.tex == tex
                && s.frame_w == tex.width && s.frame_h == tex.height && s.animation is None,
            Some(raw) => if divides(tex, frame_size(tex, raw)) {
                r matches Ok(s) && s.name.0@ == ns@ && s.name.1@ == name@ && s.tex == tex
                    && s.frame_w == frame_size(tex, raw).0 && s.frame_h == frame_size(tex, raw).1
                    && s.animation is Some && finalized(
                    raw,
                    tex.height / frame_size(tex, raw).1,
                    s.animation->0,
                )
            } else {
                r matches Err(e) && e.path@ == qualified(ns@, "textures/"@ + name@) && e.message@
                    == strip_message(tex, frame_size(tex, raw))
            },
        },
{
    match anim_raw {
        None => {
            let w = tex.width;
            let h = tex.height;
            Ok(
                Sprite {
                    name: (ns.to_owned(), name.to_owned()),
                    tex,
                    frame_w: w,
                    frame_h: h,
                    animation: None,
                },
            )
        },
        Some(raw) => {
            let fw: u32 = match raw.width {
                Some(w) => w,
                None => tex.width,
            };
            let fh: u32 = match raw.height {
                Some(h) => h,
                None => tex.width,
            };
            if fw == 0 || fh == 0 || tex.height % fh != 0 || tex.width % fw != 0 {
                let mut m = join2("animation strip ", decimal_string(tex.width as u64).as_str());
                m.append("x");
                m.append(decimal_string(tex.height as u64).as_str());
                m.append(" does not divide into ");
                m.append(decimal_string(fw as u64).as_str());
                m.append("x");
                m.append(decimal_string(fh as u64).as_str());
                m.append(" frames");
                let path = join2("textures/", name);
                return Err(AssetError { path: join3(ns, ":", path.as_str()), message: m });
            }
            let animation = finalize_animation(&raw, tex.height / fh);
            Ok(
                Sprite {
                    name: (ns.to_owned(), name.to_owned()),
                    tex,
                    frame_w: fw,
                    frame_h: fh,
                    animation: Some(animation),
                },
            )
        },
    }
}

/// A sprite without animation has one frame; an animated one has those of its
/// list, or as many as its strip has rows of the frame's height.
pub proof fn law_sprites_count_their_frames(s: Sprite, rows: u32)
    requires
        s.wf(),
        s.tex.height == rows * s.frame_h,
    ensures
        s.animation is None ==> s.frame_count_spec() == 1,
        s.animation matches Some(a) ==> (a.frames@.len() == 0 ==> s.frame_count_spec() == rows),
        s.animation matches Some(a) ==> (0 < a.frames@.len() <= u32::MAX ==> s.frame_count_spec()
            == a.frames@.len()),
{
    assert(s.tex.height as int / s.frame_h as int == rows) by (nonlinear_arith)
        requires
            s.tex.height == rows * s.frame_h,
            s.frame_h > 0,
    ;
}

/// Of several sprites with one name the last counts.
pub proof fn law_last_sprite_counts(v: Seq<Sprite>, ns: Seq<char>, name: Seq<char>, i: int)
    requires
        -1 <= i < v.len(),
        forall|k: int|
            i < k < v.len() ==> !((#[trigger] v[k]).name.0@ == ns && v[k].name.1@ == name),
        i >= 0 ==> v[i].name.0@ == ns && v[i].name.1@ == name,
    ensures
        i >= 0 ==> last_sprite(v, ns, name) == Some(v[i]),
        i == -1 ==> last_sprite(v, ns, name) is None,
    decreases v.len(),
{
    if v.len() > 0 && i < v.len() - 1 {
        assert(!(v[v.len() - 1].name.0@ == ns && v[v.len() - 1].name.1@ == name));
        law_last_sprite_counts(v.drop_last(), ns, name, i);
    }
}

/// A file below a directory `textures` is a sprite under its path without that
/// directory, unless it belongs to a font or has an extension of its own.
pub proof fn law_textures_are_sprites(front: Seq<char>, name: Seq<char>, back: Seq<char>)
    ensures
        ({
            let file = front + "/textures/"@ + back;
            &&& !front.contains('\\') && !back.contains('\\') && !ends_with(name, ".png"@)
                && !ends_with(name, ".mcmeta"@) && !starts_with(name, "font/"@)
                ==> sprite_name_spec("textures/"@ + name, file) == Some(name)
            &&& starts_with(name, "font/"@) ==> sprite_name_spec("textures/"@ + name, file) is None
            &&& ends_with(name, ".mcmeta"@) ==> sprite_name_spec("textures/"@ + name, file) is None
            &&& ends_with(name, ".png"@) ==> sprite_name_spec("textures/"@ + name, file) is None
        }),
        !contains(front, "/textures/"@) && !front.contains('\\') ==> sprite_name_spec(name, front)
            is None,
{
    let file = front + "/textures/"@ + back;
    let e = Seq::<char>::empty();
    crate::text::law_parts_are_found("textures/"@, name, e);
    crate::text::law_parts_are_found(front, "/textures/"@, back);
    if !front.contains('\\') && !back.contains('\\') {
        lemma_slashes_stay(front, back);
    }
    if !front.contains('\\') {
        lemma_no_backslash(front);
    }
}

proof fn lemma_no_backslash(s: Seq<char>)
    requires
        !s.contains('\\'),
    ensures
        replaced(s, '\\', '/') == s,
{
    assert forall|i: int| 0 <= i < s.len() implies s[i] != '\\' by {
        assert(s.contains(s[i]));
    }
    assert(replaced(s, '\\', '/') =~= s);
}

proof fn lemma_slashes_stay(front: Seq<char>, back: Seq<char>)
    requires
        !front.contains('\\'),
        !back.contains('\\'),
    ensures
        replaced(front + "/textures/"@ + back, '\\', '/') == front + "/textures/"@ + back,
{
    reveal_strlit("/textures/");
    let mid = "/textures/"@;
    let file = front + mid + back;
    let n = front.len() as int;
    let m = mid.len() as int;
    assert(!mid.contains('\\'));
    assert forall|i: int| 0 <= i < file.len() implies file[i] != '\\' by {
        if i < n {
            assert(front.contains(front[i]));
        } else if i < n + m {
            assert(file[i] == mid[i - n]);
            assert(mid.contains(mid[i - n]));
        } else {
            assert(file[i] == back[i - n - m]);
            assert(back.contains(back[i - n - m]));
        }
    }
    assert(replaced(file, '\\', '/') =~= file);
}

/// The frames of a texture have the declared size, and else the width of the
/// texture on each side.
pub proof fn law_frames_are_square_by_default(tex: DecodedTexture, raw: AnimationRaw)
    ensures
        raw.width is None ==> frame_size(tex, raw).0 == tex.width,
        raw.height is None ==> frame_size(tex, raw).1 == tex.width,
        raw.width matches Some(w) ==> frame_size(tex, raw).0 == w,
        raw.height matches Some(h) ==> frame_size(tex, raw).1 == h,
{
}

/// A strip divides into whole frames: a number of columns and rows of them.
pub proof fn law_strips_hold_whole_frames(tex: DecodedTexture, w: u32, h: u32, m: int, n: int)
    requires
        w > 0,
        h > 0,
    ensures
        tex.width == m * w && tex.height == n * h ==> divides(tex, (w, h)),
        divides(tex, (w, h)) ==> tex.width == (tex.width as int / w as int) * w && tex.height == (
        tex.height as int / h as int) * h,
        !divides(tex, (0, h)) && !divides(tex, (w, 0)),
{
    if tex.width == m * w && tex.height == n * h {
        vstd::arithmetic::div_mod::lemma_mod_multiples_basic(m, w as int);
        vstd::arithmetic::div_mod::lemma_mod_multiples_basic(n, h as int);
    }
    vstd::arithmetic::div_mod::lemma_fundamental_div_mod(tex.width as int, w as int);
    vstd::arithmetic::div_mod::lemma_fundamental_div_mod(tex.height as int, h as int);
    let (p, q) = (tex.width as int / w as int, tex.height as int / h as int);
    assert(w * p == p * w) by (nonlinear_arith);
    assert(h * q == q * h) by (nonlinear_arith);
}

/// A list with a frame that cannot be read, or that the strip does not have,
/// is dropped whole; any other list is played as it is.
pub proof fn law_frame_lists_are_taken_or_dropped(
    raw: AnimationRaw,
    rows: u32,
    a: Animation,
    i: int,
)
    requires
        finalized(raw, rows, a),
    ensures
        raw.frames is None ==> a.frames@.len() == 0,
        raw.frames matches Some(v) ==> (0 <= i < v.len() && (frame_entry(v@[i].shape()) is None
            || (frame_entry(v@[i].shape()) matches Some(f) && f.0 >= rows)) ==> a.frames@.len()
            == 0),
        raw.frames matches Some(v) ==> ((forall|k: int|
            0 <= k < v.len() ==> (frame_entry((#[trigger] v@[k]).shape()) matches Some(f) && f.0
                < rows)) && 0 <= i < v.len() ==> a.frames@.len() == v.len() && (frame_entry(
            v@[i].shape(),
        ) matches Some(f) && a.frames@[i] == f.0)),
        raw.frametime is None ==> a.frametime == 1,
        raw.frametime matches Some(t) ==> a.frametime == t,
        a.interpolate <==> raw.interpolate == Some(true),
{
}

/// The sorted names of a store are its names, by namespace and then by name.
pub proof fn law_sorted_names_rise(s: SpriteStore, i: int, j: int)
    requires
        s.is_sorted(),
        0 <= i < j < s.names@.len(),
    ensures
        s.sorted@.len() == s.names@.len(),
        crate::order::pair_le(
            (s.sorted@[i].0@, s.sorted@[i].1@),
            (s.sorted@[j].0@, s.sorted@[j].1@),
        ),
        s.names@.contains(s.sorted@[i]) && s.names@.contains(s.sorted@[j]),
{
    let order = choose|order: Seq<usize>|
        is_stable_order(order, s.names.len() as int, pairs_le(s.names@)) && s.sorted@.len()
            == order.len() && forall|i: int|
            0 <= i < order.len() ==> #[trigger] s.sorted@[i] == s.names@[order[i] as int];
    let le = pairs_le(s.names@);
    assert(le(order[i] as int, order[j] as int));
    assert(s.sorted@[i] == s.names@[order[i] as int]);
    assert(s.sorted@[j] == s.names@[order[j] as int]);
}

/// The message on a strip names its size and that of its frames.
pub proof fn law_strip_messages_name_both_sizes(tex: DecodedTexture, size: (u32, u32))
    ensures
        strip_message(tex, size) == "animation strip "@ + decimal(tex.width as nat) + "x"@
            + decimal(tex.height as nat) + " does not divide into "@ + decimal(size.0 as nat)
            + "x"@ + decimal(size.1 as nat) + " frames"@,
{
}

} // verus!
