//! Model compiler: resolves parent chains, texture variables and element
//! geometry into quad prototypes ready for the chunk mesher.

use crate::blockstates::{lemma_key_pos_bounds, Angle, VariantRot};
use crate::chunk::offset_of;
use crate::compiled::find_pair;
use crate::error::{fails_with, AssetError, AssetResult};
use crate::models_raw::{FaceGeometry, RawDisplay, RawElement, RawFace, RawModel, RawModels, RawRotation, RawTextureValue};
use crate::scalar::F32;
use crate::sprites::SpriteRef;
use crate::text::{
    chars_of, pairs_of, part_string, qualified, qualified_name, split_once, split_once_chars,
    str_eq, string_of,
};
use vstd::prelude::*;

verus! {

/// Interned sprite reference. The compiler assigns these; the atlas and the
/// mesher translate them to texture rectangles without touching strings.
#[derive(Clone, Copy, Debug, PartialEq, Eq, Structural, Hash)]
pub struct SpriteId(pub u32);

/// Interned model reference (into the compiled model table).
#[derive(Clone, Copy, Debug, PartialEq, Eq, Structural, Hash)]
pub struct ModelId(pub u32);

#[derive(Clone, Copy, Debug, PartialEq, Eq, Structural, Hash)]
pub enum Direction {
    Down,
    Up,
    North,
    South,
    West,
    East,
}

#[derive(Clone, Copy, Debug, PartialEq, Eq, Structural)]
pub enum GuiLight {
    Side,
    Front,
}

/// A baked quad in block-local coordinates (0..16) with sprite-space UVs.
#[derive(Clone, Copy, Debug)]
pub struct FaceQuad {
    /// Bounding box of `corners`: minimum x, y, z, then maximum x, y, z.
    pub bounds: [F32; 6],
    /// The four corners, counter-clockwise seen from outside.
    pub corners: [[F32; 3]; 4],
    /// Which face this quad belongs to, after rotation.
    pub dir: Direction,
    /// Interned sprite this quad samples.
    pub sprite: SpriteId,
    /// Texture rectangle in the sprite's 0..16 space: u0, v0, u1, v1.
    pub uv: [F32; 4],
    /// Tint index: `None` is untinted.
    pub tint: Option<i32>,
    /// The face is hidden when the neighbor in this direction occludes.
    pub cull: Option<Direction>,
    /// Forced translucent blending.
    pub force_translucent: bool,
    /// Element light emission 0..15.
    pub light_emission: u8,
    /// Direction whose brightness is used in place of `dir`'s.
    pub shade_override: Option<Direction>,
}

/// Bit pattern of zero.
pub const ZERO_BITS: u32 = 0x0000_0000;

/// Bit pattern of sixteen, the side of a block in model units.
pub const SIXTEEN_BITS: u32 = 0x4180_0000;

/// The direction a name stands for.
pub open spec fn direction_of_name(s: Seq<char>) -> Option<Direction> {
    if s == "down"@ {
        Some(Direction::Down)
    } else if s == "up"@ {
        Some(Direction::Up)
    } else if s == "north"@ {
        Some(Direction::North)
    } else if s == "south"@ {
        Some(Direction::South)
    } else if s == "west"@ {
        Some(Direction::West)
    } else if s == "east"@ {
        Some(Direction::East)
    } else {
        None
    }
}

impl Direction {
    pub const ALL: [Direction; 6] = [
        Direction::Down,
        Direction::Up,
        Direction::North,
        Direction::South,
        Direction::West,
        Direction::East,
    ];

    pub fn from_name(s: &str) -> (r: Option<Direction>)
        ensures
            r == direction_of_name(s@),
    {
        if str_eq(s, "down") {
            Some(Direction::Down)
        } else if str_eq(s, "up") {
            Some(Direction::Up)
        } else if str_eq(s, "north") {
            Some(Direction::North)
        } else if str_eq(s, "south") {
            Some(Direction::South)
        } else if str_eq(s, "west") {
            Some(Direction::West)
        } else if str_eq(s, "east") {
            Some(Direction::East)
        } else {
            None
        }
    }
}

/// The four corners of a face of a box, counter-clockwise seen from outside.
pub open spec fn face_corners_spec(dir: Direction, b: [F32; 6]) -> [[F32; 3]; 4] {
    let (x0, y0, z0, x1, y1, z1) = (b[0], b[1], b[2], b[3], b[4], b[5]);
    match dir {
        Direction::Up => [[x0, y1, z1], [x1, y1, z1], [x1, y1, z0], [x0, y1, z0]],
        Direction::Down => [[x0, y0, z0], [x1, y0, z0], [x1, y0, z1], [x0, y0, z1]],
        Direction::North => [[x1, y0, z0], [x0, y0, z0], [x0, y1, z0], [x1, y1, z0]],
        Direction::South => [[x0, y0, z1], [x1, y0, z1], [x1, y1, z1], [x0, y1, z1]],
        Direction::West => [[x0, y0, z0], [x0, y0, z1], [x0, y1, z1], [x0, y1, z0]],
        Direction::East => [[x1, y0, z1], [x1, y0, z0], [x1, y1, z0], [x1, y1, z1]],
    }
}

pub fn face_corners(dir: Direction, b: [F32; 6]) -> (r: [[F32; 3]; 4])
    ensures
        r == face_corners_spec(dir, b),
{
    let x0 = b[0];
    let y0 = b[1];
    let z0 = b[2];
    let x1 = b[3];
    let y1 = b[4];
    let z1 = b[5];
    match dir {
        Direction::Up => [[x0, y1, z1], [x1, y1, z1], [x1, y1, z0], [x0, y1, z0]],
        Direction::Down => [[x0, y0, z0], [x1, y0, z0], [x1, y0, z1], [x0, y0, z1]],
        Direction::North => [[x1, y0, z0], [x0, y0, z0], [x0, y1, z0], [x1, y1, z0]],
        Direction::South => [[x0, y0, z1], [x1, y0, z1], [x1, y1, z1], [x0, y1, z1]],
        Direction::West => [[x0, y0, z0], [x0, y0, z1], [x0, y1, z1], [x0, y1, z0]],
        Direction::East => [[x1, y0, z1], [x1, y0, z0], [x1, y1, z0], [x1, y1, z1]],
    }
}

/// One quarter turn of a direction about an axis; other axis names turn
/// nothing.
pub open spec fn quarter_turn(d: Direction, axis: Seq<char>) -> Direction {
    if axis == "y"@ {
        match d {
            Direction::North => Direction::East,
            Direction::East => Direction::South,
            Direction::South => Direction::West,
            Direction::West => Direction::North,
            other => other,
        }
    } else if axis == "x"@ {
        match d {
            Direction::Up => Direction::North,
            Direction::North => Direction::Down,
            Direction::Down => Direction::South,
            Direction::South => Direction::Up,
            other => other,
        }
    } else if axis == "z"@ {
        match d {
            Direction::Up => Direction::East,
            Direction::East => Direction::Down,
            Direction::Down => Direction::West,
            Direction::West => Direction::Up,
            other => other,
        }
    } else {
        d
    }
}

/// A direction after a number of quarter turns.
pub open spec fn turned_direction(d: Direction, axis: Seq<char>, quarters: nat) -> Direction
    decreases quarters,
{
    if quarters == 0 {
        d
    } else {
        quarter_turn(turned_direction(d, axis, (quarters - 1) as nat), axis)
    }
}

/// Rotates a direction by quarter turns about an axis.
pub fn rotate_direction(d: Direction, axis: &str, quarters: u8) -> (r: Direction)
    ensures
        r == turned_direction(d, axis@, quarters as nat),
{
    let x = str_eq(axis, "x");
    let y = str_eq(axis, "y");
    let z = str_eq(axis, "z");
    proof {
        reveal_strlit("x");
        reveal_strlit("y");
        reveal_strlit("z");
        assert("x"@[0] == 'x' && "y"@[0] == 'y' && "z"@[0] == 'z');
    }
    let mut out = d;
    let mut i: u8 = 0;
    while i < quarters
        invariant
            i <= quarters,
            x == (axis@ == "x"@),
            y == (axis@ == "y"@),
            z == (axis@ == "z"@),
            out == turned_direction(d, axis@, i as nat),
        decreases quarters - i,
    {
        out = if y {
            match out {
                Direction::North => Direction::East,
                Direction::East => Direction::South,
                Direction::South => Direction::West,
                Direction::West => Direction::North,
                other => other,
            }
        } else if x {
            match out {
                Direction::Up => Direction::North,
                Direction::North => Direction::Down,
                Direction::Down => Direction::South,
                Direction::South => Direction::Up,
                other => other,
            }
        } else if z {
            match out {
                Direction::Up => Direction::East,
                Direction::East => Direction::Down,
                Direction::Down => Direction::West,
                Direction::West => Direction::Up,
                other => other,
            }
        } else {
            out
        };
        i += 1;
    }
    out
}

/// Four quarter turns bring a direction back.
pub proof fn law_full_turn_is_identity(d: Direction, axis: Seq<char>)
    ensures
        turned_direction(d, axis, 4) == d,
{
    reveal_with_fuel(turned_direction, 5);
}

/// Turning maps distinct directions to distinct directions.
pub proof fn law_turns_are_injective(a: Direction, b: Direction, axis: Seq<char>, quarters: nat)
    requires
        a != b,
    ensures
        turned_direction(a, axis, quarters) != turned_direction(b, axis, quarters),
    decreases quarters,
{
    if quarters > 0 {
        law_turns_are_injective(a, b, axis, (quarters - 1) as nat);
    }
}

/// A list of names without repetition: sprite names by id.
#[derive(Debug)]
pub struct SpriteInterner {
    pub names: Vec<SpriteRef>,
}

/// Names by id, as sequences of characters.
pub type Names = Seq<(Seq<char>, Seq<char>)>;

/// The first position of a name; the length where it does not occur.
pub open spec fn name_pos(names: Names, name: (Seq<char>, Seq<char>)) -> int
    decreases names.len(),
{
    if names.len() == 0 {
        0
    } else if names[0] == name {
        0
    } else {
        1 + name_pos(names.skip(1), name)
    }
}

/// The names after interning one more.
pub open spec fn interned(names: Names, name: (Seq<char>, Seq<char>)) -> Names {
    if name_pos(names, name) < names.len() {
        names
    } else {
        names.push(name)
    }
}

pub proof fn lemma_name_pos(names: Names, name: (Seq<char>, Seq<char>), i: int)
    requires
        0 <= i <= names.len(),
        forall|k: int| 0 <= k < i ==> names[k] != name,
        i < names.len() ==> names[i] == name,
    ensures
        name_pos(names, name) == i,
    decreases names.len(),
{
    if names.len() > 0 && i > 0 {
        assert(names[0] != name);
        assert forall|k: int| 0 <= k < i - 1 implies names.skip(1)[k] != name by {
            assert(names.skip(1)[k] == names[k + 1]);
        }
        lemma_name_pos(names.skip(1), name, i - 1);
    }
}

pub proof fn lemma_name_pos_bounds(names: Names, name: (Seq<char>, Seq<char>))
    ensures
        0 <= name_pos(names, name) <= names.len(),
        name_pos(names, name) < names.len() ==> names[name_pos(names, name)] == name,
        forall|k: int| 0 <= k < name_pos(names, name) ==> names[k] != name,
    decreases names.len(),
{
    if names.len() > 0 && names[0] != name {
        lemma_name_pos_bounds(names.skip(1), name);
        assert forall|k: int| 0 <= k < name_pos(names, name) implies names[k] != name by {
            if k > 0 {
                assert(names[k] == names.skip(1)[k - 1]);
            }
        }
    }
}

impl SpriteInterner {
    pub open spec fn view_names(&self) -> Names {
        pairs_of(self.names@)
    }

    /// An interner without names.
    pub fn new() -> (r: SpriteInterner)
        ensures
            r.names.len() == 0,
            r.view_names() == Names::empty(),
    {
        let r = SpriteInterner { names: Vec::new() };
        assert(r.view_names() =~= Names::empty());
        r
    }

    /// The id of a name; a new name gets the next id.
    pub fn intern(&mut self, ns: &str, name: &str) -> (r: SpriteId)
        ensures
            final(self).view_names() == interned(old(self).view_names(), (ns@, name@)),
            r.0 == name_pos(old(self).view_names(), (ns@, name@)) as u32,
    {
        let ghost before = self.view_names();
        let i = find_pair(&self.names, ns, name);
        proof {
            assert forall|k: int| 0 <= k < i implies before[k] != (ns@, name@) by {
                assert(!(self.names@[k].0@ == ns@ && self.names@[k].1@ == name@));
            }
            lemma_name_pos(before, (ns@, name@), i as int);
        }
        #[verifier::truncate]
        let id: u32 = i as u32;
        if i == self.names.len() {
            self.names.push((ns.to_owned(), name.to_owned()));
            assert(self.view_names() =~= before.push((ns@, name@)));
        }
        SpriteId(id)
    }

    /// The name of an id.
    pub fn name(&self, id: SpriteId) -> (r: &SpriteRef)
        requires
            id.0 < self.names.len(),
        ensures
            *r == self.names@[id.0 as int],
    {
        &self.names[id.0 as usize]
    }

    pub fn len(&self) -> (r: usize)
        ensures
            r == self.names.len(),
    {
        self.names.len()
    }

    pub fn names(&self) -> (r: &[SpriteRef])
        ensures
            r@ == self.names@,
    {
        &self.names
    }
}

/// Interning keeps names apart and earlier ids as they are, and the id names
/// what was interned.
pub proof fn law_interning(names: Names, name: (Seq<char>, Seq<char>))
    requires
        names.no_duplicates(),
    ensures
        interned(names, name).no_duplicates(),
        interned(names, name)[name_pos(names, name)] == name,
        name_pos(interned(names, name), name) == name_pos(names, name),
        interned(interned(names, name), name) == interned(names, name),
        forall|i: int| 0 <= i < names.len() ==> interned(names, name)[i] == names[i],
{
    lemma_name_pos_bounds(names, name);
    let next = interned(names, name);
    if name_pos(names, name) == names.len() {
        assert forall|i: int| 0 <= i < names.len() implies names[i] != name by {}
        assert(next.no_duplicates());
    }
    lemma_name_pos(next, name, name_pos(names, name));
}

/// A reference split into namespace and path; `minecraft` where it has none.
pub open spec fn normalized(s: Seq<char>) -> (Seq<char>, Seq<char>) {
    match split_once(s, ':') {
        Some(p) => p,
        None => ("minecraft"@, s),
    }
}

pub fn normalize_ref(s: &str) -> (r: (String, String))
    ensures
        (r.0@, r.1@) == normalized(s@),
{
    let c = chars_of(s);
    match split_once_chars(&c, ':') {
        Some((ns, p)) => (string_of(&ns), string_of(&p)),
        None => ("minecraft".to_owned(), s.to_owned()),
    }
}

/// A resolved texture reference: a sprite name plus layering info.
#[derive(Debug)]
pub struct ResolvedSprite {
    pub name: SpriteRef,
    pub force_translucent: bool,
}

/// What a resolved texture says.
#[verifier::ext_equal]
pub struct Texture {
    pub name: (Seq<char>, Seq<char>),
    pub force_translucent: bool,
}

impl ResolvedSprite {
    pub open spec fn texture(&self) -> Texture {
        Texture { name: (self.name.0@, self.name.1@), force_translucent: self.force_translucent }
    }
}

/// Texture variables by key, in the order in which they were first set.
pub type Textures = Seq<(Seq<char>, Texture)>;

pub open spec fn textures_of(v: Seq<(String, ResolvedSprite)>) -> Textures {
    Seq::new(v.len(), |i: int| (v[i].0@, v[i].1.texture()))
}

/// The first position of a key; the length where it does not occur.
pub open spec fn key_pos<V>(v: Seq<(Seq<char>, V)>, key: Seq<char>) -> int
    decreases v.len(),
{
    if v.len() == 0 {
        0
    } else if v[0].0 == key {
        0
    } else {
        1 + key_pos(v.skip(1), key)
    }
}

pub proof fn lemma_key_pos<V>(v: Seq<(Seq<char>, V)>, key: Seq<char>, i: int)
    requires
        0 <= i <= v.len(),
        forall|k: int| 0 <= k < i ==> (#[trigger] v[k]).0 != key,
        i < v.len() ==> v[i].0 == key,
    ensures
        key_pos(v, key) == i,
    decreases v.len(),
{
    if v.len() > 0 && i > 0 {
        assert(v[0].0 != key);
        assert forall|k: int| 0 <= k < i - 1 implies (#[trigger] v.skip(1)[k]).0 != key by {
            assert(v.skip(1)[k] == v[k + 1]);
        }
        lemma_key_pos(v.skip(1), key, i - 1);
    }
}

/// The list with a key set: in place where it occurs, else at the end.
pub open spec fn with_key<V>(v: Seq<(Seq<char>, V)>, key: Seq<char>, value: V) -> Seq<
    (Seq<char>, V),
> {
    let i = key_pos(v, key);
    if i < v.len() {
        v.update(i, (key, value))
    } else {
        v.push((key, value))
    }
}

/// The textures after those of one model are set over them.
pub open spec fn with_model_textures(t: Textures, model: RawModel, n: int) -> Textures
    decreases n,
{
    if n <= 0 {
        t
    } else {
        let (k, v) = model.textures@[n - 1];
        with_key(
            with_model_textures(t, model, n - 1),
            k@,
            Texture { name: normalized(v.reference()), force_translucent: v.forced() },
        )
    }
}

/// The merged textures of a parent chain: ancestors first, children over them.
pub open spec fn merged_textures(chain: Seq<RawModel>) -> Textures
    decreases chain.len(),
{
    if chain.len() == 0 {
        Seq::empty()
    } else {
        with_model_textures(
            merged_textures(chain.skip(1)),
            chain[0],
            chain[0].textures.len() as int,
        )
    }
}

/// A texture name that is itself a variable.
pub open spec fn is_variable(s: Seq<char>) -> bool {
    s.len() > 0 && s[0] == '#'
}

/// What a texture reference resolves to in at most `fuel` steps: a variable
/// is looked up, and looked up again while it names another variable.
pub open spec fn resolved_var(var: Seq<char>, t: Textures, fuel: nat) -> Option<Texture>
    decreases fuel,
{
    if fuel == 0 {
        None
    } else if !is_variable(var) {
        Some(Texture { name: normalized(var), force_translucent: false })
    } else {
        let i = key_pos(t, var.skip(1));
        if i >= t.len() {
            None
        } else if is_variable(t[i].1.name.1) {
            resolved_var(t[i].1.name.1, t, (fuel - 1) as nat)
        } else {
            Some(t[i].1)
        }
    }
}

/// The first texture that is not a variable.
pub open spec fn first_concrete(t: Textures) -> Option<(Seq<char>, Seq<char>)>
    decreases t.len(),
{
    if t.len() == 0 {
        None
    } else if !is_variable(t[0].1.name.1) {
        Some(t[0].1.name)
    } else {
        first_concrete(t.skip(1))
    }
}

/// The particle sprite: what the variable `particle` resolves to, else the
/// first sprite of the textures, else `minecraft:missingno`.
pub open spec fn particle_of(t: Textures) -> (Seq<char>, Seq<char>) {
    match resolved_var("#particle"@, t, 12) {
        Some(texture) => texture.name,
        None => match first_concrete(t) {
            Some(n) => n,
            None => ("minecraft"@, "missingno"@),
        },
    }
}

/// The position of a key in a texture list.
fn find_texture(v: &Vec<(String, ResolvedSprite)>, key: &str) -> (r: usize)
    ensures
        r == key_pos(textures_of(v@), key@),
        r <= v.len(),
        r < v.len() ==> v@[r as int].0@ == key@,
{
    let ghost t = textures_of(v@);
    let mut i: usize = 0;
    while i < v.len() && !str_eq(v[i].0.as_str(), key)
        invariant
            i <= v.len(),
            t == textures_of(v@),
            forall|k: int| 0 <= k < i ==> (#[trigger] t[k]).0 != key@,
        decreases v.len() - i,
    {
        i += 1;
    }
    proof {
        lemma_key_pos(t, key@, i as int);
    }
    i
}

/// Sets the textures of one model over those set before.
fn add_textures(out: &mut Vec<(String, ResolvedSprite)>, model: &RawModel)
    ensures
        textures_of(final(out)@) == with_model_textures(
            textures_of(old(out)@),
            *model,
            model.textures.len() as int,
        ),
{
    let ghost start = textures_of(out@);
    let mut n: usize = 0;
    while n < model.textures.len()
        invariant
            n <= model.textures.len(),
            textures_of(out@) == with_model_textures(start, *model, n as int),
        decreases model.textures.len() - n,
    {
        let ghost before = textures_of(out@);
        let key = &model.textures[n].0;
        let value = &model.textures[n].1;
        let resolved = ResolvedSprite {
            name: normalize_ref(value.sprite_ref()),
            force_translucent: value.force_translucent(),
        };
        let ghost texture = resolved.texture();
        let i = find_texture(out, key.as_str());
        if i < out.len() {
            out.set(i, (key.clone(), resolved));
            assert(textures_of(out@) =~= before.update(i as int, (key@, texture)));
        } else {
            out.push((key.clone(), resolved));
            assert(textures_of(out@) =~= before.push((key@, texture)));
        }
        n += 1;
    }
}

fn starts_with_hash(s: &str) -> (r: bool)
    ensures
        r == is_variable(s@),
{
    let c = chars_of(s);
    c.len() > 0 && c[0] == '#'
}

/// Resolves a `#var` chain against the merged textures. A variable whose
/// chain never reaches a sprite resolves to nothing.
fn resolve_var(var: &str, textures: &Vec<(String, ResolvedSprite)>) -> (r: Option<ResolvedSprite>)
    ensures
        match r {
            Some(s) => resolved_var(var@, textures_of(textures@), 12) == Some(s.texture()),
            None => resolved_var(var@, textures_of(textures@), 12) is None,
        },
{
    let ghost t = textures_of(textures@);
    let mut cur: String = var.to_owned();
    let mut fuel: u32 = 12;
    while fuel > 0
        invariant
            fuel <= 12,
            t == textures_of(textures@),
            resolved_var(var@, t, 12) == resolved_var(cur@, t, fuel as nat),
        decreases fuel,
    {
        let c = chars_of(cur.as_str());
        if c.len() == 0 || c[0] != '#' {
            return Some(
                ResolvedSprite { name: normalize_ref(cur.as_str()), force_translucent: false },
            );
        }
        let rest = part_string(&c, 1, c.len());
        assert(rest@ == cur@.skip(1));
        let i = find_texture(textures, rest.as_str());
        if i >= textures.len() {
            return None;
        }
        assert(t[i as int].1 == textures@[i as int].1.texture());
        if starts_with_hash(textures[i].1.name.1.as_str()) {
            cur = textures[i].1.name.1.clone();
        } else {
            return Some(
                ResolvedSprite {
                    name: (textures[i].1.name.0.clone(), textures[i].1.name.1.clone()),
                    force_translucent: textures[i].1.force_translucent,
                },
            );
        }
        fuel -= 1;
    }
    None
}

fn resolve_particle(textures: &Vec<(String, ResolvedSprite)>) -> (r: SpriteRef)
    ensures
        (r.0@, r.1@) == particle_of(textures_of(textures@)),
{
    let ghost t = textures_of(textures@);
    if let Some(s) = resolve_var("#particle", textures) {
        return s.name;
    }
    let mut k: usize = 0;
    assert(t.skip(0) == t);
    while k < textures.len()
        invariant
            k <= textures.len(),
            t == textures_of(textures@),
            first_concrete(t) == first_concrete(t.skip(k as int)),
            particle_of(t) == (match first_concrete(t) {
                Some(n) => n,
                None => ("minecraft"@, "missingno"@),
            }),
        decreases textures.len() - k,
    {
        assert(t.skip(k as int)[0] == t[k as int]);
        assert(t[k as int].1 == textures@[k as int].1.texture());
        assert(t.skip(k as int).skip(1) == t.skip(k + 1));
        if !starts_with_hash(textures[k].1.name.1.as_str()) {
            return (textures[k].1.name.0.clone(), textures[k].1.name.1.clone());
        }
        k += 1;
    }
    ("minecraft".to_owned(), "missingno".to_owned())
}

/// The place of a direction in the order down, up, north, south, west, east.
pub open spec fn direction_index(d: Direction) -> int {
    match d {
        Direction::Down => 0,
        Direction::Up => 1,
        Direction::North => 2,
        Direction::South => 3,
        Direction::West => 4,
        Direction::East => 5,
    }
}

pub fn index_of_direction(d: Direction) -> (r: usize)
    ensures
        r == direction_index(d),
        r < 6,
{
    match d {
        Direction::Down => 0,
        Direction::Up => 1,
        Direction::North => 2,
        Direction::South => 3,
        Direction::West => 4,
        Direction::East => 5,
    }
}

/// The turns of an element rotation, one after the other: the single axis
/// where axis and angle are given, else the given angles about x, y and z.
pub open spec fn rotation_steps(r: RawRotation) -> Seq<(Seq<char>, u8)> {
    if r.axis is Some && r.angle is Some {
        seq![(r.axis->0@, r.angle->0.quarters)]
    } else {
        let x = match r.x {
            Some(a) => seq![("x"@, a.quarters)],
            None => Seq::empty(),
        };
        let y = match r.y {
            Some(a) => seq![("y"@, a.quarters)],
            None => Seq::empty(),
        };
        let z = match r.z {
            Some(a) => seq![("z"@, a.quarters)],
            None => Seq::empty(),
        };
        x + y + z
    }
}

/// A direction after several turns.
pub open spec fn after_steps(d: Direction, steps: Seq<(Seq<char>, u8)>) -> Direction
    decreases steps.len(),
{
    if steps.len() == 0 {
        d
    } else {
        turned_direction(
            after_steps(d, steps.drop_last()),
            steps.last().0,
            steps.last().1 as nat,
        )
    }
}

/// The turns of an element.
pub open spec fn element_steps(el: RawElement) -> Seq<(Seq<char>, u8)> {
    match el.rotation {
        Some(r) => rotation_steps(r),
        None => Seq::empty(),
    }
}

/// The box of an element.
pub open spec fn element_box(el: RawElement) -> [F32; 6] {
    [el.from[0], el.from[1], el.from[2], el.to[0], el.to[1], el.to[2]]
}

/// The direction that an optional name stands for.
pub open spec fn optional_direction(name: Option<String>) -> Option<Direction> {
    match name {
        Some(s) => direction_of_name(s@),
        None => None,
    }
}

/// The full sprite.
pub open spec fn full_uv() -> [F32; 4] {
    [
        F32 { bits: ZERO_BITS },
        F32 { bits: ZERO_BITS },
        F32 { bits: SIXTEEN_BITS },
        F32 { bits: SIXTEEN_BITS },
    ]
}

/// The quad of a face.
pub open spec fn face_quad(
    el: RawElement,
    face: RawFace,
    dir: Direction,
    sprite: SpriteId,
    force_translucent: bool,
) -> FaceQuad {
    let steps = element_steps(el);
    let cull = optional_direction(face.cullface);
    FaceQuad {
        bounds: if steps.len() > 0 {
            el.turned[direction_index(dir)].bounds
        } else {
            element_box(el)
        },
        corners: if steps.len() > 0 {
            el.turned[direction_index(dir)].corners
        } else {
            face_corners_spec(dir, element_box(el))
        },
        dir: after_steps(dir, steps),
        sprite,
        uv: match face.uv {
            Some(uv) => uv,
            None => full_uv(),
        },
        tint: face.tintindex,
        cull: match cull {
            Some(c) => Some(after_steps(c, steps)),
            None => None,
        },
        force_translucent,
        light_emission: match el.light_emission {
            Some(l) => l,
            None => 0,
        },
        shade_override: optional_direction(el.shade_direction_override),
    }
}

/// The interned names and the quads after the first `n` faces of an element:
/// faces of unknown direction or unresolved texture are left out.
pub open spec fn baked_faces(
    el: RawElement,
    t: Textures,
    names: Names,
    quads: Seq<FaceQuad>,
    n: int,
) -> (Names, Seq<FaceQuad>)
    decreases n,
{
    if n <= 0 {
        (names, quads)
    } else {
        let (names1, quads1) = baked_faces(el, t, names, quads, n - 1);
        let (name, face) = el.faces@[n - 1];
        match direction_of_name(name@) {
            None => (names1, quads1),
            Some(dir) => match resolved_var(face.texture@, t, 12) {
                None => (names1, quads1),
                Some(tex) => (
                    interned(names1, tex.name),
                    quads1.push(
                        face_quad(
                            el,
                            face,
                            dir,
                            SpriteId(name_pos(names1, tex.name) as u32),
                            tex.force_translucent,
                        ),
                    ),
                ),
            },
        }
    }
}

/// The interned names and the quads after the first `n` elements of a model.
pub open spec fn baked_elements(els: Seq<RawElement>, t: Textures, names: Names, n: int) -> (
    Names,
    Seq<FaceQuad>,
)
    decreases n,
{
    if n <= 0 {
        (names, Seq::empty())
    } else {
        let (names1, quads1) = baked_elements(els, t, names, n - 1);
        baked_faces(els[n - 1], t, names1, quads1, els[n - 1].faces.len() as int)
    }
}

fn steps_of(r: &RawRotation) -> (out: Vec<(String, u8)>)
    ensures
        Seq::new(out@.len(), |i: int| (out@[i].0@, out@[i].1)) == rotation_steps(*r),
{
    let mut out: Vec<(String, u8)> = Vec::new();
    if let Some(axis) = &r.axis {
        if let Some(angle) = r.angle {
            out.push((axis.clone(), angle.quarters));
            assert(Seq::new(out@.len(), |i: int| (out@[i].0@, out@[i].1)) =~= rotation_steps(*r));
            return out;
        }
    }
    if let Some(a) = r.x {
        out.push(("x".to_owned(), a.quarters));
    }
    if let Some(a) = r.y {
        out.push(("y".to_owned(), a.quarters));
    }
    if let Some(a) = r.z {
        out.push(("z".to_owned(), a.quarters));
    }
    assert(Seq::new(out@.len(), |i: int| (out@[i].0@, out@[i].1)) =~= rotation_steps(*r));
    out
}

fn turn_by_steps(d: Direction, steps: &Vec<(String, u8)>) -> (r: Direction)
    ensures
        r == after_steps(d, Seq::new(steps@.len(), |i: int| (steps@[i].0@, steps@[i].1))),
{
    let ghost all = Seq::new(steps@.len(), |i: int| (steps@[i].0@, steps@[i].1));
    let mut out = d;
    let mut i: usize = 0;
    while i < steps.len()
        invariant
            i <= steps.len(),
            all == Seq::new(steps@.len(), |i: int| (steps@[i].0@, steps@[i].1)),
            out == after_steps(d, all.take(i as int)),
        decreases steps.len() - i,
    {
        assert(all.take(i + 1).drop_last() == all.take(i as int));
        assert(all.take(i + 1).last() == (steps@[i as int].0@, steps@[i as int].1));
        out = rotate_direction(out, steps[i].0.as_str(), steps[i].1);
        i += 1;
    }
    assert(all.take(all.len() as int) == all);
    out
}

fn direction_from(name: &Option<String>) -> (r: Option<Direction>)
    ensures
        r == optional_direction(*name),
{
    match name {
        Some(s) => Direction::from_name(s.as_str()),
        None => None,
    }
}

fn bake_face(
    el: &RawElement,
    face: &RawFace,
    dir: Direction,
    sprite: SpriteId,
    force_translucent: bool,
) -> (r: FaceQuad)
    ensures
        r == face_quad(*el, *face, dir, sprite, force_translucent),
{
    let b = [el.from[0], el.from[1], el.from[2], el.to[0], el.to[1], el.to[2]];
    let steps = match &el.rotation {
        Some(r) => steps_of(r),
        None => Vec::new(),
    };
    let ghost all = Seq::new(steps@.len(), |i: int| (steps@[i].0@, steps@[i].1));
    assert(all =~= element_steps(*el));
    let geometry = if steps.len() > 0 {
        el.turned[index_of_direction(dir)]
    } else {
        FaceGeometry { bounds: b, corners: face_corners(dir, b) }
    };
    let cull = match direction_from(&face.cullface) {
        Some(c) => Some(turn_by_steps(c, &steps)),
        None => None,
    };
    FaceQuad {
        bounds: geometry.bounds,
        corners: geometry.corners,
        dir: turn_by_steps(dir, &steps),
        sprite,
        uv: match face.uv {
            Some(uv) => uv,
            None => [
                F32 { bits: ZERO_BITS },
                F32 { bits: ZERO_BITS },
                F32 { bits: SIXTEEN_BITS },
                F32 { bits: SIXTEEN_BITS },
            ],
        },
        tint: face.tintindex,
        cull,
        force_translucent,
        light_emission: match el.light_emission {
            Some(l) => l,
            None => 0,
        },
        shade_override: direction_from(&el.shade_direction_override),
    }
}

fn bake_element(
    el: &RawElement,
    textures: &Vec<(String, ResolvedSprite)>,
    interner: &mut SpriteInterner,
    out: &mut Vec<FaceQuad>,
)
    ensures
        (final(interner).view_names(), final(out)@) == baked_faces(
            *el,
            textures_of(textures@),
            old(interner).view_names(),
            old(out)@,
            el.faces.len() as int,
        ),
{
    let ghost t = textures_of(textures@);
    let ghost names0 = interner.view_names();
    let ghost quads0 = out@;
    let mut n: usize = 0;
    while n < el.faces.len()
        invariant
            n <= el.faces.len(),
            t == textures_of(textures@),
            (interner.view_names(), out@) == baked_faces(*el, t, names0, quads0, n as int),
        decreases el.faces.len() - n,
    {
        let face = &el.faces[n].1;
        if let Some(dir) = Direction::from_name(el.faces[n].0.as_str()) {
            if let Some(sprite) = resolve_var(face.texture.as_str(), textures) {
                let id = interner.intern(sprite.name.0.as_str(), sprite.name.1.as_str());
                out.push(bake_face(el, face, dir, id, sprite.force_translucent));
            }
        }
        n += 1;
    }
}

/// A compiled model prototype.
#[derive(Debug)]
pub struct CompiledModel {
    pub quads: Vec<FaceQuad>,
    pub particle: SpriteRef,
    pub ambient_occlusion: bool,
    pub gui_light: GuiLight,
    /// Display transforms by context name.
    pub display: Vec<(String, RawDisplay)>,
    /// The turn that corners and bounds are still to be given.
    pub turn: Option<VariantRot>,
}

/// A model and its ancestors, or why there is no such chain.
pub enum Chain {
    Found(Seq<RawModel>),
    Missing((Seq<char>, Seq<char>)),
    TooDeep,
}

/// Parents that end a chain.
pub open spec fn is_builtin(path: Seq<char>) -> bool {
    path == "builtin/generated"@ || path == "builtin/entity"@
}

/// The chain of a model and its ancestors, of at most `fuel` models.
pub open spec fn chain_of(raws: RawModels, name: (Seq<char>, Seq<char>), fuel: nat) -> Chain
    decreases fuel,
{
    if fuel == 0 {
        Chain::TooDeep
    } else {
        match raws.lookup(name) {
            None => Chain::Missing(name),
            Some(m) => match m.parent {
                None => Chain::Found(seq![m]),
                Some(p) => {
                    let next = normalized(p@);
                    if is_builtin(next.1) {
                        Chain::Found(seq![m])
                    } else {
                        match chain_of(raws, next, (fuel - 1) as nat) {
                            Chain::Found(rest) => Chain::Found(seq![m] + rest),
                            other => other,
                        }
                    }
                },
            },
        }
    }
}

/// The first flag that a chain gives.
pub open spec fn nearest_ao(chain: Seq<RawModel>) -> bool
    decreases chain.len(),
{
    if chain.len() == 0 {
        true
    } else {
        match chain[0].ambientocclusion {
            Some(b) => b,
            None => nearest_ao(chain.skip(1)),
        }
    }
}

/// The first light that a chain gives: front where it says so.
pub open spec fn nearest_light(chain: Seq<RawModel>) -> GuiLight
    decreases chain.len(),
{
    if chain.len() == 0 {
        GuiLight::Side
    } else {
        match chain[0].gui_light {
            Some(s) => if s@ == "front"@ {
                GuiLight::Front
            } else {
                GuiLight::Side
            },
            None => nearest_light(chain.skip(1)),
        }
    }
}

/// The elements of the first model of a chain that has any.
pub open spec fn nearest_elements(chain: Seq<RawModel>) -> Seq<RawElement>
    decreases chain.len(),
{
    if chain.len() == 0 {
        Seq::empty()
    } else {
        match chain[0].elements {
            Some(e) => e@,
            None => nearest_elements(chain.skip(1)),
        }
    }
}

/// Display transforms by context.
pub type Displays = Seq<(Seq<char>, RawDisplay)>;

pub open spec fn displays_of(v: Seq<(String, RawDisplay)>) -> Displays {
    Seq::new(v.len(), |i: int| (v[i].0@, v[i].1))
}

/// The transforms with those of a model added where they are not yet given.
pub open spec fn with_displays(d: Displays, model: RawModel, n: int) -> Displays
    decreases n,
{
    if n <= 0 {
        d
    } else {
        let before = with_displays(d, model, n - 1);
        let (k, v) = model.display@[n - 1];
        if key_pos(before, k@) < before.len() {
            before
        } else {
            before.push((k@, v))
        }
    }
}

/// The transforms of a chain: nearest wins.
pub open spec fn nearest_displays(chain: Seq<RawModel>) -> Displays
    decreases chain.len(),
{
    if chain.len() == 0 {
        Seq::empty()
    } else {
        with_displays(
            nearest_displays(chain.drop_last()),
            chain.last(),
            chain.last().display.len() as int,
        )
    }
}

/// What a compiled model holds.
#[verifier::ext_equal]
pub struct ModelShape {
    pub quads: Seq<FaceQuad>,
    pub particle: (Seq<char>, Seq<char>),
    pub ambient_occlusion: bool,
    pub gui_light: GuiLight,
    pub display: Displays,
    pub turn: Option<VariantRot>,
}

impl CompiledModel {
    pub open spec fn shape(&self) -> ModelShape {
        ModelShape {
            quads: self.quads@,
            particle: (self.particle.0@, self.particle.1@),
            ambient_occlusion: self.ambient_occlusion,
            gui_light: self.gui_light,
            display: displays_of(self.display@),
            turn: self.turn,
        }
    }
}

/// The model that a chain compiles to, with interned names before it.
pub open spec fn compiled_shape(chain: Seq<RawModel>, names: Names) -> ModelShape {
    let t = merged_textures(chain);
    let els = nearest_elements(chain);
    ModelShape {
        quads: baked_elements(els, t, names, els.len() as int).1,
        particle: particle_of(t),
        ambient_occlusion: nearest_ao(chain),
        gui_light: nearest_light(chain),
        display: nearest_displays(chain),
        turn: None,
    }
}

/// The interned names after compiling a chain.
pub open spec fn names_after(chain: Seq<RawModel>, names: Names) -> Names {
    let els = nearest_elements(chain);
    baked_elements(els, merged_textures(chain), names, els.len() as int).0
}

/// The models of a chain of references.
spec fn chain_models(v: Seq<&RawModel>) -> Seq<RawModel> {
    Seq::new(v.len(), |i: int| *v[i])
}

/// The chain of a model, followed through its parents.
fn follow_chain<'a>(ns: &str, path: &str, raws: &'a RawModels) -> (r: AssetResult<Vec<&'a RawModel>>)
    ensures
        match chain_of(*raws, (ns@, path@), 32) {
            Chain::Found(chain) => r matches Ok(v) && chain_models(v@) == chain && chain.len() > 0,
            Chain::Missing(n) => fails_with(r, qualified(n.0, n.1), "model not found in pack"@),
            Chain::TooDeep => fails_with(
                r,
                qualified(ns@, path@),
                "parent chain too deep (cycle?)"@,
            ),
        },
{
    let mut chain: Vec<&'a RawModel> = Vec::new();
    let mut cur_ns: String = ns.to_owned();
    let mut cur_path: String = path.to_owned();
    let mut fuel: u32 = 32;
    while fuel > 0
        invariant
            fuel <= 32,
            match chain_of(*raws, (cur_ns@, cur_path@), fuel as nat) {
                Chain::Found(rest) => chain_of(*raws, (ns@, path@), 32) == Chain::Found(
                    chain_models(chain@) + rest,
                ),
                other => chain_of(*raws, (ns@, path@), 32) == other,
            },
        decreases fuel,
    {
        let ghost before = chain_models(chain@);
        let model: &'a RawModel = match raws.get(cur_ns.as_str(), cur_path.as_str()) {
            Some(m) => m,
            None => {
                return Err(
                    AssetError {
                        path: qualified_name(cur_ns.as_str(), cur_path.as_str()),
                        message: "model not found in pack".to_owned(),
                    },
                );
            },
        };
        chain.push(model);
        assert(chain_models(chain@) =~= before + seq![*model]);
        match &model.parent {
            None => {
                return Ok(chain);
            },
            Some(p) => {
                let next = normalize_ref(p.as_str());
                if str_eq(next.1.as_str(), "builtin/generated") || str_eq(
                    next.1.as_str(),
                    "builtin/entity",
                ) {
                    return Ok(chain);
                }
                proof {
                    match chain_of(*raws, (next.0@, next.1@), (fuel - 1) as nat) {
                        Chain::Found(rest) => {
                            assert(before + (seq![*model] + rest) =~= chain_models(chain@) + rest);
                        },
                        _ => {},
                    }
                }
                cur_ns = next.0;
                cur_path = next.1;
            },
        }
        fuel -= 1;
    }
    Err(
        AssetError {
            path: qualified_name(ns, path),
            message: "parent chain too deep (cycle?)".to_owned(),
        },
    )
}

fn find_display(v: &Vec<(String, RawDisplay)>, key: &str) -> (r: usize)
    ensures
        r == key_pos(displays_of(v@), key@),
        r <= v.len(),
{
    let ghost t = displays_of(v@);
    let mut i: usize = 0;
    while i < v.len() && !str_eq(v[i].0.as_str(), key)
        invariant
            i <= v.len(),
            t == displays_of(v@),
            forall|k: int| 0 <= k < i ==> (#[trigger] t[k]).0 != key@,
        decreases v.len() - i,
    {
        i += 1;
    }
    proof {
        lemma_key_pos(t, key@, i as int);
    }
    i
}

fn collect_displays(chain: &Vec<&RawModel>) -> (r: Vec<(String, RawDisplay)>)
    ensures
        displays_of(r@) == nearest_displays(chain_models(chain@)),
{
    let ghost models = chain_models(chain@);
    let mut out: Vec<(String, RawDisplay)> = Vec::new();
    let mut i: usize = 0;
    assert(displays_of(out@) =~= nearest_displays(models.take(0)));
    while i < chain.len()
        invariant
            i <= chain.len(),
            models == chain_models(chain@),
            displays_of(out@) == nearest_displays(models.take(i as int)),
        decreases chain.len() - i,
    {
        let ghost start = displays_of(out@);
        let model = chain[i];
        assert(models.take(i + 1).drop_last() == models.take(i as int));
        assert(models.take(i + 1).last() == *model);
        let mut n: usize = 0;
        while n < model.display.len()
            invariant
                n <= model.display.len(),
                displays_of(out@) == with_displays(start, *model, n as int),
            decreases model.display.len() - n,
        {
            let ghost before = displays_of(out@);
            let key = &model.display[n].0;
            let k = find_display(&out, key.as_str());
            if k >= out.len() {
                out.push((key.clone(), model.display[n].1));
                assert(displays_of(out@) =~= before.push((key@, model.display@[n as int].1)));
            }
            n += 1;
        }
        i += 1;
    }
    assert(models.take(models.len() as int) == models);
    out
}

fn merge_chain_textures(chain: &Vec<&RawModel>) -> (r: Vec<(String, ResolvedSprite)>)
    ensures
        textures_of(r@) == merged_textures(chain_models(chain@)),
{
    let ghost models = chain_models(chain@);
    let mut out: Vec<(String, ResolvedSprite)> = Vec::new();
    let mut i: usize = chain.len();
    assert(models.skip(models.len() as int).len() == 0);
    assert(textures_of(out@) =~= merged_textures(models.skip(i as int)));
    while i > 0
        invariant
            i <= chain.len(),
            models == chain_models(chain@),
            textures_of(out@) == merged_textures(models.skip(i as int)),
        decreases i,
    {
        assert(models.skip(i - 1)[0] == *chain@[i - 1]);
        assert(models.skip(i - 1).skip(1) == models.skip(i as int));
        add_textures(&mut out, chain[i - 1]);
        i -= 1;
    }
    assert(models.skip(0) == models);
    out
}

/// Compiles one model by flattening its parent chain: textures merge with the
/// child over its ancestors; elements, flags and display transforms come from
/// the nearest model that gives them. Built-in parents end the chain.
pub fn compile(ns: &str, path: &str, raws: &RawModels, interner: &mut SpriteInterner) -> (r:
    AssetResult<CompiledModel>)
    ensures
        match chain_of(*raws, (ns@, path@), 32) {
            Chain::Found(chain) => {
                &&& r matches Ok(m) && m.shape() == compiled_shape(
                    chain,
                    old(interner).view_names(),
                )
                &&& final(interner).view_names() == names_after(
                    chain,
                    old(interner).view_names(),
                )
            },
            Chain::Missing(n) => fails_with(r, qualified(n.0, n.1), "model not found in pack"@)
                && final(interner).view_names() == old(interner).view_names(),
            Chain::TooDeep => fails_with(
                r,
                qualified(ns@, path@),
                "parent chain too deep (cycle?)"@,
            ) && final(interner).view_names() == old(interner).view_names(),
        },
{
    let chain = match follow_chain(ns, path, raws) {
        Ok(c) => c,
        Err(e) => {
            return Err(e);
        },
    };
    let ghost models = chain_models(chain@);
    let ghost names0 = interner.view_names();
    let textures = merge_chain_textures(&chain);
    let display = collect_displays(&chain);
    let particle = resolve_particle(&textures);
    let mut ambient_occlusion: bool = true;
    let mut gui_light = GuiLight::Side;
    let mut ao_found = false;
    let mut light_found = false;
    let mut owner: Option<usize> = None;
    let mut i: usize = 0;
    assert(models.skip(0) == models);
    while i < chain.len()
        invariant
            i <= chain.len(),
            models == chain_models(chain@),
            nearest_ao(models) == (if ao_found {
                ambient_occlusion
            } else {
                nearest_ao(models.skip(i as int))
            }),
            !ao_found ==> ambient_occlusion,
            nearest_light(models) == (if light_found {
                gui_light
            } else {
                nearest_light(models.skip(i as int))
            }),
            !light_found ==> gui_light == GuiLight::Side,
            match owner {
                Some(k) => k < chain.len() && models[k as int].elements is Some
                    && nearest_elements(models) == (models[k as int].elements->0)@,
                None => nearest_elements(models) == nearest_elements(models.skip(i as int)),
            },
        decreases chain.len() - i,
    {
        let m = chain[i];
        assert(models.skip(i as int)[0] == *m);
        assert(models.skip(i as int).skip(1) == models.skip(i + 1));
        if !ao_found {
            if let Some(b) = m.ambientocclusion {
                ambient_occlusion = b;
                ao_found = true;
            }
        }
        if !light_found {
            if let Some(g) = &m.gui_light {
                if str_eq(g.as_str(), "front") {
                    gui_light = GuiLight::Front;
                }
                light_found = true;
            }
        }
        if owner.is_none() && m.elements.is_some() {
            owner = Some(i);
        }
        i += 1;
    }
    assert(models.skip(models.len() as int).len() == 0);
    let ghost t = textures_of(textures@);
    let mut quads: Vec<FaceQuad> = Vec::new();
    assert(baked_elements(Seq::empty(), t, names0, 0) == (names0, Seq::<FaceQuad>::empty()));
    if let Some(k) = owner {
        if let Some(els) = &chain[k].elements {
            let mut n: usize = 0;
            while n < els.len()
                invariant
                    n <= els.len(),
                    t == textures_of(textures@),
                    (interner.view_names(), quads@) == baked_elements(els@, t, names0, n as int),
                decreases els.len() - n,
            {
                bake_element(&els[n], &textures, interner, &mut quads);
                n += 1;
            }
        }
    }
    Ok(CompiledModel { quads, particle, ambient_occlusion, gui_light, display, turn: None })
}

/// Compiled models by id, with the ids of the names that compiled, and the
/// sprite names interned on the way.
pub struct ModelTable {
    pub interner: SpriteInterner,
    pub models: Vec<CompiledModel>,
    /// Names that compiled, each with its id.
    pub ids: Vec<(SpriteRef, ModelId)>,
}

/// What a model table holds.
#[verifier::ext_equal]
pub struct TableShape {
    pub names: Names,
    pub models: Seq<ModelShape>,
    pub ids: Seq<((Seq<char>, Seq<char>), ModelId)>,
}

/// The first position of a name among the compiled ones; the length where it
/// is not among them.
pub open spec fn id_pos(
    ids: Seq<((Seq<char>, Seq<char>), ModelId)>,
    name: (Seq<char>, Seq<char>),
) -> int
    decreases ids.len(),
{
    if ids.len() == 0 {
        0
    } else if ids[0].0 == name {
        0
    } else {
        1 + id_pos(ids.skip(1), name)
    }
}

proof fn lemma_id_pos(
    ids: Seq<((Seq<char>, Seq<char>), ModelId)>,
    name: (Seq<char>, Seq<char>),
    i: int,
)
    requires
        0 <= i <= ids.len(),
        forall|k: int| 0 <= k < i ==> (#[trigger] ids[k]).0 != name,
        i < ids.len() ==> ids[i].0 == name,
    ensures
        id_pos(ids, name) == i,
    decreases ids.len(),
{
    if ids.len() > 0 && i > 0 {
        assert(ids[0].0 != name);
        assert forall|k: int| 0 <= k < i - 1 implies (#[trigger] ids.skip(1)[k]).0 != name by {
            assert(ids.skip(1)[k] == ids[k + 1]);
        }
        lemma_id_pos(ids.skip(1), name, i - 1);
    }
}

/// The table and the id after asking for a model: a name that compiled keeps
/// its id, a new one that compiles gets the next, and one that does not
/// compile has none.
pub open spec fn with_model(raws: RawModels, t: TableShape, name: (Seq<char>, Seq<char>)) -> (
    TableShape,
    Option<ModelId>,
) {
    let i = id_pos(t.ids, name);
    if i < t.ids.len() {
        (t, Some(t.ids[i].1))
    } else {
        match chain_of(raws, name, 32) {
            Chain::Found(chain) => {
                let id = ModelId(t.models.len() as u32);
                (
                    TableShape {
                        names: names_after(chain, t.names),
                        models: t.models.push(compiled_shape(chain, t.names)),
                        ids: t.ids.push((name, id)),
                    },
                    Some(id),
                )
            },
            _ => (t, None),
        }
    }
}

impl ModelTable {
    pub open spec fn shape(&self) -> TableShape {
        TableShape {
            names: self.interner.view_names(),
            models: Seq::new(self.models@.len(), |i: int| self.models@[i].shape()),
            ids: Seq::new(
                self.ids@.len(),
                |i: int| ((self.ids@[i].0.0@, self.ids@[i].0.1@), self.ids@[i].1),
            ),
        }
    }

    /// A table without models.
    pub fn new() -> (r: ModelTable)
        ensures
            r.shape() == empty_table(),
    {
        let r = ModelTable {
            interner: SpriteInterner::new(),
            models: Vec::new(),
            ids: Vec::new(),
        };
        assert(r.shape() =~= empty_table());
        r
    }

    /// The id of a model, compiled on first use; none where it does not
    /// compile.
    pub fn resolve(&mut self, raws: &RawModels, ns: &str, path: &str) -> (r: Option<ModelId>)
        ensures
            (final(self).shape(), r) == with_model(*raws, old(self).shape(), (ns@, path@)),
    {
        let ghost before = self.shape();
        let mut i: usize = 0;
        while i < self.ids.len() && !(str_eq(self.ids[i].0.0.as_str(), ns) && str_eq(
            self.ids[i].0.1.as_str(),
            path,
        ))
            invariant
                i <= self.ids.len(),
                before == self.shape(),
                forall|k: int| 0 <= k < i ==> (#[trigger] before.ids[k]).0 != (ns@, path@),
            decreases self.ids.len() - i,
        {
            i += 1;
        }
        proof {
            lemma_id_pos(before.ids, (ns@, path@), i as int);
        }
        if i < self.ids.len() {
            return Some(self.ids[i].1);
        }
        match compile(ns, path, raws, &mut self.interner) {
            Ok(model) => {
                #[verifier::truncate]
                let id = ModelId(self.models.len() as u32);
                let ghost shape = model.shape();
                self.models.push(model);
                self.ids.push(((ns.to_owned(), path.to_owned()), id));
                assert(self.shape().models =~= before.models.push(shape));
                assert(self.shape().ids =~= before.ids.push(((ns@, path@), id)));
                Some(id)
            },
            Err(_) => {
                assert(self.shape() =~= before);
                None
            },
        }
    }
}

pub open spec fn empty_table() -> TableShape {
    TableShape { names: Seq::empty(), models: Seq::empty(), ids: Seq::empty() }
}

/// A rotation that turns nothing.
pub open spec fn is_unturned(rot: VariantRot) -> bool {
    let zero = F32 { bits: ZERO_BITS };
    rot.x.degrees.same_spec(zero) && rot.y.degrees.same_spec(zero)
}

/// A direction after a variant rotation: about x, and after that about y.
pub open spec fn variant_direction(d: Direction, rot: VariantRot) -> Direction {
    let zero = F32 { bits: ZERO_BITS };
    let about_x = if rot.x.degrees.same_spec(zero) {
        d
    } else {
        turned_direction(d, "x"@, rot.x.quarters as nat)
    };
    if rot.y.degrees.same_spec(zero) {
        about_x
    } else {
        turned_direction(about_x, "y"@, rot.y.quarters as nat)
    }
}

/// A quad with its directions turned by a variant rotation.
pub open spec fn variant_quad(q: FaceQuad, rot: VariantRot) -> FaceQuad {
    FaceQuad {
        dir: variant_direction(q.dir, rot),
        cull: match q.cull {
            Some(c) => Some(variant_direction(c, rot)),
            None => None,
        },
        ..q
    }
}

fn turn_variant(d: Direction, rot: &VariantRot) -> (r: Direction)
    ensures
        r == variant_direction(d, *rot),
{
    let zero = F32 { bits: ZERO_BITS };
    let about_x = if rot.x.degrees.same(zero) {
        d
    } else {
        rotate_direction(d, "x", rot.x.quarters)
    };
    if rot.y.degrees.same(zero) {
        about_x
    } else {
        rotate_direction(about_x, "y", rot.y.quarters)
    }
}

/// Turns the directions of a quad by a blockstate variant rotation.
pub fn apply_variant_rotation(q: &FaceQuad, rot: &VariantRot) -> (r: FaceQuad)
    ensures
        r == variant_quad(*q, *rot),
{
    FaceQuad {
        dir: turn_variant(q.dir, rot),
        cull: match q.cull {
            Some(c) => Some(turn_variant(c, rot)),
            None => None,
        },
        ..*q
    }
}

/// A model with the directions of its quads turned, and its geometry still to
/// be turned.
pub open spec fn turned_shape(m: ModelShape, rot: VariantRot) -> ModelShape {
    ModelShape {
        quads: Seq::new(m.quads.len(), |i: int| variant_quad(m.quads[i], rot)),
        turn: Some(rot),
        ..m
    }
}

impl CompiledModel {
    /// A copy of the model, turned.
    pub fn turned(&self, rot: &VariantRot) -> (r: CompiledModel)
        ensures
            r.shape() == turned_shape(self.shape(), *rot),
    {
        let mut quads: Vec<FaceQuad> = Vec::new();
        let mut i: usize = 0;
        while i < self.quads.len()
            invariant
                i <= self.quads.len(),
                quads.len() == i,
                forall|k: int| 0 <= k < i ==> #[trigger] quads@[k] == variant_quad(self.quads@[k], *rot),
            decreases self.quads.len() - i,
        {
            quads.push(apply_variant_rotation(&self.quads[i], rot));
            i += 1;
        }
        let mut display: Vec<(String, RawDisplay)> = Vec::new();
        let mut k: usize = 0;
        while k < self.display.len()
            invariant
                k <= self.display.len(),
                display@ == self.display@.take(k as int),
            decreases self.display.len() - k,
        {
            display.push((self.display[k].0.clone(), self.display[k].1));
            k += 1;
        }
        assert(self.display@.take(self.display@.len() as int) == self.display@);
        let r = CompiledModel {
            quads,
            particle: (self.particle.0.clone(), self.particle.1.clone()),
            ambient_occlusion: self.ambient_occlusion,
            gui_light: self.gui_light,
            display,
            turn: Some(*rot),
        };
        assert(r.shape().quads =~= turned_shape(self.shape(), *rot).quads);
        r
    }
}

/// What a list holds under a key.
pub open spec fn under<V>(v: Seq<(Seq<char>, V)>, key: Seq<char>) -> Option<V> {
    let i = key_pos(v, key);
    if 0 <= i < v.len() {
        Some(v[i].1)
    } else {
        None
    }
}

/// Setting a key gives it its value and leaves every other key alone.
pub proof fn law_set_key_is_read_back<V>(
    v: Seq<(Seq<char>, V)>,
    key: Seq<char>,
    value: V,
    other: Seq<char>,
)
    ensures
        under(with_key(v, key, value), key) == Some(value),
        other != key ==> under(with_key(v, key, value), other) == under(v, other),
{
    let w = with_key(v, key, value);
    let i = key_pos(v, key);
    lemma_key_pos_bounds(v, key);
    assert forall|k: int| 0 <= k < i implies (#[trigger] w[k]).0 != key by {
        assert(w[k] == v[k]);
    }
    lemma_key_pos(w, key, i);
    if other != key {
        let j = key_pos(v, other);
        lemma_key_pos_bounds(v, other);
        if j < v.len() {
            assert forall|k: int| 0 <= k < j implies (#[trigger] w[k]).0 != other by {
                assert(v[k].0 != other);
            }
            lemma_key_pos(w, other, j);
        } else {
            assert forall|k: int| 0 <= k < w.len() implies (#[trigger] w[k]).0 != other by {
                if k < v.len() {
                    assert(v[k].0 != other);
                }
            }
            lemma_key_pos(w, other, w.len() as int);
        }
    }
}

/// The first `n` textures of a model: the last value for a key counts, with
/// its flag, and a key without one stays as it was.
proof fn lemma_model_textures(t: Textures, model: RawModel, n: int, key: Seq<char>, i: int)
    requires
        0 <= n <= model.textures@.len(),
        forall|j: int| i < j < n ==> (#[trigger] model.textures@[j]).0@ != key,
        i == -1 || (0 <= i < n && model.textures@[i].0@ == key),
    ensures
        i == -1 ==> under(with_model_textures(t, model, n), key) == under(t, key),
        i >= 0 ==> under(with_model_textures(t, model, n), key) == Some(
            Texture {
                name: normalized(model.textures@[i].1.reference()),
                force_translucent: model.textures@[i].1.forced(),
            },
        ),
    decreases n,
{
    if n > 0 {
        let (k, v) = model.textures@[n - 1];
        law_set_key_is_read_back(
            with_model_textures(t, model, n - 1),
            k@,
            Texture { name: normalized(v.reference()), force_translucent: v.forced() },
            key,
        );
        if i < n - 1 {
            lemma_model_textures(t, model, n - 1, key, i);
        }
    }
}

/// A texture of a chain is that of the nearest model that sets its key, and a
/// key that no model sets has none.
pub proof fn law_nearest_texture_wins(chain: Seq<RawModel>, key: Seq<char>, m: int, i: int)
    requires
        0 <= m <= chain.len(),
        forall|a: int, b: int|
            0 <= a < m && 0 <= b < chain[a].textures@.len()
                ==> #[trigger] chain[a].textures@[b].0@ != key,
        m < chain.len() ==> 0 <= i < chain[m].textures@.len() && chain[m].textures@[i].0@ == key
            && forall|j: int|
            i < j < chain[m].textures@.len() ==> (#[trigger] chain[m].textures@[j]).0@ != key,
    ensures
        m == chain.len() ==> under(merged_textures(chain), key) is None,
        m < chain.len() ==> (under(merged_textures(chain), key) matches Some(t) && t.name
            == normalized(chain[m].textures@[i].1.reference()) && t.force_translucent == (
        chain[m].textures@[i].1 matches RawTextureValue::Sprite { force_translucent, .. }
            && force_translucent == Some(true))),
    decreases chain.len(),
{
    if chain.len() > 0 {
        let rest = merged_textures(chain.skip(1));
        let n = chain[0].textures@.len() as int;
        if m == 0 {
            lemma_model_textures(rest, chain[0], n, key, i);
        } else {
            assert forall|j: int| -1 < j < n implies (#[trigger] chain[0].textures@[j]).0@ != key by {
                assert(chain[0].textures@[j].0@ != key);
            }
            lemma_model_textures(rest, chain[0], n, key, -1);
            assert forall|a: int, b: int|
                0 <= a < m - 1 && 0 <= b < chain.skip(1)[a].textures@.len() implies #[trigger] chain.skip(
                1,
            )[a].textures@[b].0@ != key by {
                assert(chain.skip(1)[a] == chain[a + 1]);
                assert(chain[a + 1].textures@[b].0@ != key);
            }
            law_nearest_texture_wins(chain.skip(1), key, m - 1, i);
            if m < chain.len() {
                assert(chain.skip(1)[m - 1] == chain[m]);
            }
        }
    }
}

/// A reference with a namespace names it; one without is of `minecraft`.
pub proof fn law_references_name_their_namespace(ns: Seq<char>, path: Seq<char>)
    requires
        !ns.contains(':'),
    ensures
        normalized(ns + seq![':'] + path) == (ns, path),
        normalized(ns) == ("minecraft"@, ns),
{
    let s = ns + seq![':'] + path;
    assert forall|k: int| 0 <= k < ns.len() implies s[k] != ':' by {
        assert(ns.contains(ns[k]));
    }
    crate::text::lemma_first_pos(s, ':', ns.len() as int);
    assert(s.take(ns.len() as int) =~= ns);
    assert(s.skip(ns.len() as int + 1) =~= path);
    assert forall|k: int| 0 <= k < ns.len() implies ns[k] != ':' by {
        assert(ns.contains(ns[k]));
    }
    crate::text::lemma_first_pos(ns, ':', ns.len() as int);
}

/// A variable stands for what the textures hold under it, and where that is a
/// variable again, for what that one stands for, over at most twelve steps.
pub proof fn law_variables_are_followed(var: Seq<char>, t: Textures, fuel: nat, path: Seq<Texture>)
    requires
        0 < path.len() <= fuel,
        var.len() > 0 && var[0] == '#',
        under(t, var.skip(1)) == Some(path[0]),
        forall|i: int|
            0 <= i < path.len() - 1 ==> {
                let v = (#[trigger] path[i]).name.1;
                v.len() > 0 && v[0] == '#' && under(t, v.skip(1)) == Some(path[i + 1])
            },
        path.last().name.1.len() == 0 || path.last().name.1[0] != '#',
    ensures
        resolved_var(var, t, fuel) == Some(path.last()),
    decreases path.len(),
{
    lemma_key_pos_bounds(t, var.skip(1));
    if path.len() > 1 {
        let rest = path.skip(1);
        let v = path[0].name.1;
        assert(v.len() > 0 && v[0] == '#' && under(t, v.skip(1)) == Some(path[1]));
        assert forall|i: int| 0 <= i < rest.len() - 1 implies {
            let v = (#[trigger] rest[i]).name.1;
            v.len() > 0 && v[0] == '#' && under(t, v.skip(1)) == Some(rest[i + 1])
        } by {
            assert(rest[i] == path[i + 1]);
            assert(rest[i + 1] == path[i + 1 + 1]);
        }
        law_variables_are_followed(v, t, (fuel - 1) as nat, rest);
    }
}

/// A reference that is no variable stands for itself; a variable that the
/// textures do not hold, or that only leads to itself, stands for nothing.
pub proof fn law_references_resolve(s: Seq<char>, t: Textures, fuel: nat)
    requires
        fuel > 0,
    ensures
        s.len() == 0 || s[0] != '#' ==> resolved_var(s, t, fuel) == Some(
            Texture { name: normalized(s), force_translucent: false },
        ),
        s.len() > 0 && s[0] == '#' && under(t, s.skip(1)) is None ==> resolved_var(s, t, fuel)
            is None,
        s.len() > 0 && s[0] == '#' && (under(t, s.skip(1)) matches Some(x) && x.name.1 == s)
            ==> resolved_var(s, t, fuel) is None,
    decreases fuel,
{
    reveal_with_fuel(resolved_var, 2);
    lemma_key_pos_bounds(t, s.skip(1));
    if fuel > 1 {
        law_references_resolve(s, t, (fuel - 1) as nat);
    }
}

/// The particle sprite is what `particle` stands for; where that is nothing,
/// the first texture that is no variable, and else `minecraft:missingno`.
pub proof fn law_particle_sprite(t: Textures, i: int)
    requires
        0 <= i <= t.len(),
        forall|k: int|
            0 <= k < i ==> {
                let v = (#[trigger] t[k]).1.name.1;
                v.len() > 0 && v[0] == '#'
            },
        i < t.len() ==> t[i].1.name.1.len() == 0 || t[i].1.name.1[0] != '#',
    ensures
        under(t, "particle"@) matches Some(x) && (x.name.1.len() == 0 || x.name.1[0] != '#')
            ==> particle_of(t) == under(t, "particle"@)->0.name,
        under(t, "particle"@) is None && i < t.len() ==> particle_of(t) == t[i].1.name,
        under(t, "particle"@) is None && i == t.len() ==> particle_of(t) == (
            "minecraft"@,
            "missingno"@,
        ),
{
    let var = "#particle"@;
    reveal_strlit("#particle");
    reveal_strlit("particle");
    assert(var.skip(1) =~= "particle"@);
    law_references_resolve(var, t, 12);
    if let Some(x) = under(t, "particle"@) {
        if x.name.1.len() == 0 || x.name.1[0] != '#' {
            law_variables_are_followed(var, t, 12, seq![x]);
        }
    }
    lemma_first_concrete(t, i);
}

proof fn lemma_first_concrete(t: Textures, i: int)
    requires
        0 <= i <= t.len(),
        forall|k: int| 0 <= k < i ==> is_variable((#[trigger] t[k]).1.name.1),
        i < t.len() ==> !is_variable(t[i].1.name.1),
    ensures
        first_concrete(t) == if i < t.len() {
            Some(t[i].1.name)
        } else {
            None
        },
    decreases t.len(),
{
    if i > 0 {
        assert(is_variable(t[0].1.name.1));
        assert forall|k: int| 0 <= k < i - 1 implies is_variable(
            (#[trigger] t.skip(1)[k]).1.name.1,
        ) by {
            assert(t.skip(1)[k] == t[k + 1]);
        }
        lemma_first_concrete(t.skip(1), i - 1);
    }
}

/// The nearest model of a chain that says something decides: its flag of
/// ambient occlusion, its light and its elements. Where none does, occlusion
/// is on, the light comes from the side and there are no elements.
pub proof fn law_nearest_model_decides(chain: Seq<RawModel>, i: int)
    requires
        0 <= i <= chain.len(),
    ensures
        (forall|k: int| 0 <= k < i ==> (#[trigger] chain[k]).ambientocclusion is None) ==> (i
            < chain.len() ==> (chain[i].ambientocclusion matches Some(b) ==> nearest_ao(chain) == b))
            && (i == chain.len() ==> nearest_ao(chain)),
        (forall|k: int| 0 <= k < i ==> (#[trigger] chain[k]).gui_light is None) ==> (i < chain.len()
            ==> (chain[i].gui_light matches Some(s) ==> (nearest_light(chain) == GuiLight::Front)
            == (s@ == "front"@))) && (i == chain.len() ==> nearest_light(chain) == GuiLight::Side),
        (forall|k: int| 0 <= k < i ==> (#[trigger] chain[k]).elements is None) ==> (i < chain.len()
            ==> (chain[i].elements matches Some(e) ==> nearest_elements(chain) == e@)) && (i
            == chain.len() ==> nearest_elements(chain).len() == 0),
    decreases i,
{
    if i > 0 {
        let rest = chain.skip(1);
        law_nearest_model_decides(rest, i - 1);
        assert(i < chain.len() ==> rest[i - 1] == chain[i]);
        assert(forall|k: int| 0 <= k < i - 1 ==> #[trigger] rest[k] == chain[k + 1]);
    }
}

/// The transforms after the first `n` of a model: what was given stays, and
/// the first of a new key is taken.
proof fn lemma_displays(d: Displays, model: RawModel, n: int, key: Seq<char>, i: int)
    requires
        0 <= n <= model.display@.len(),
        0 <= i <= n,
        forall|j: int| 0 <= j < i ==> (#[trigger] model.display@[j]).0@ != key,
        i < n ==> model.display@[i].0@ == key,
    ensures
        under(d, key) is Some ==> under(with_displays(d, model, n), key) == under(d, key),
        under(d, key) is None ==> under(with_displays(d, model, n), key) == if i < n {
            Some(model.display@[i].1)
        } else {
            None
        },
    decreases n,
{
    if n > 0 {
        let before = with_displays(d, model, n - 1);
        let (k, v) = model.display@[n - 1];
        lemma_displays(d, model, n - 1, key, if i < n - 1 { i } else { n - 1 });
        lemma_key_pos_bounds(before, k@);
        lemma_key_pos_bounds(before, key);
        if key_pos(before, k@) == before.len() {
            law_set_key_is_read_back(before, k@, v, key);
            assert(before.push((k@, v)) == with_key(before, k@, v));
        }
    }
}

/// A display transform is the first that the nearest model with one for its
/// slot gives, and a slot without one has none.
pub proof fn law_nearest_display_wins(chain: Seq<RawModel>, key: Seq<char>, m: int, i: int)
    requires
        0 <= m <= chain.len(),
        forall|a: int, b: int|
            0 <= a < m && 0 <= b < chain[a].display@.len()
                ==> #[trigger] chain[a].display@[b].0@ != key,
        m < chain.len() ==> 0 <= i < chain[m].display@.len() && chain[m].display@[i].0@ == key
            && forall|j: int| 0 <= j < i ==> (#[trigger] chain[m].display@[j]).0@ != key,
    ensures
        under(nearest_displays(chain), key) == if m < chain.len() {
            Some(chain[m].display@[i].1)
        } else {
            None
        },
    decreases chain.len(),
{
    if chain.len() > 0 {
        let before = chain.drop_last();
        let last = chain.last();
        let n = last.display@.len() as int;
        if m < chain.len() - 1 {
            law_nearest_display_wins(before, key, m, i);
            let j = first_display(last, key, n);
            lemma_first_display(last, key, n);
            lemma_displays(nearest_displays(before), last, n, key, j);
        } else {
            law_nearest_display_wins(before, key, before.len() as int, 0);
            if m == chain.len() - 1 {
                lemma_displays(nearest_displays(before), last, n, key, i);
            } else {
                assert forall|j: int| 0 <= j < n implies (#[trigger] last.display@[j]).0@ != key by {
                    assert(chain[chain.len() - 1].display@[j].0@ != key);
                }
                lemma_displays(nearest_displays(before), last, n, key, n);
            }
        }
    }
}

/// The first of the first `n` transforms of a model for a slot; `n` where it
/// has none.
spec fn first_display(model: RawModel, key: Seq<char>, n: int) -> int
    decreases n,
{
    if n <= 0 {
        0
    } else if first_display(model, key, n - 1) < n - 1 {
        first_display(model, key, n - 1)
    } else if model.display@[n - 1].0@ == key {
        n - 1
    } else {
        n
    }
}

proof fn lemma_first_display(model: RawModel, key: Seq<char>, n: int)
    requires
        0 <= n <= model.display@.len(),
    ensures
        0 <= first_display(model, key, n) <= n,
        forall|j: int|
            0 <= j < first_display(model, key, n) ==> (#[trigger] model.display@[j]).0@ != key,
        first_display(model, key, n) < n ==> model.display@[first_display(model, key, n)].0@ == key,
    decreases n,
{
    if n > 0 {
        lemma_first_display(model, key, n - 1);
    }
}

/// The chain of a model starts with the model of that name, goes on from each
/// model to its parent, and ends with one that has no parent or a built-in
/// one.
pub open spec fn is_chain(raws: RawModels, name: (Seq<char>, Seq<char>), c: Seq<RawModel>) -> bool {
    &&& c.len() > 0
    &&& raws.lookup(name) == Some(c[0])
    &&& forall|i: int|
        0 <= i < c.len() - 1 ==> {
            &&& (#[trigger] c[i]).parent matches Some(p)
            &&& normalized(c[i].parent->0@).1 != "builtin/generated"@
            &&& normalized(c[i].parent->0@).1 != "builtin/entity"@
            &&& raws.lookup(normalized(c[i].parent->0@)) == Some(c[i + 1])
        }
    &&& c.last().parent matches Some(p) ==> normalized(p@).1 == "builtin/generated"@ || normalized(
        p@,
    ).1 == "builtin/entity"@
}

/// A chain within the limit is found as it is, and what is found is the chain.
pub proof fn law_chains_follow_parents(
    raws: RawModels,
    name: (Seq<char>, Seq<char>),
    fuel: nat,
    c: Seq<RawModel>,
)
    ensures
        is_chain(raws, name, c) && c.len() <= fuel ==> chain_of(raws, name, fuel) == Chain::Found(c),
        chain_of(raws, name, fuel) == Chain::Found(c) ==> is_chain(raws, name, c) && c.len()
            <= fuel,
        raws.lookup(name) is None && fuel > 0 ==> chain_of(raws, name, fuel) == Chain::Missing(name),
    decreases fuel,
{
    if fuel > 0 && c.len() > 0 {
        if let Some(m) = raws.lookup(name) {
            let rest = c.skip(1);
            if let Some(p) = m.parent {
                let next = normalized(p@);
                law_chains_follow_parents(raws, next, (fuel - 1) as nat, rest);
                if is_chain(raws, name, c) && c.len() > 1 {
                    assert(c[0].parent is Some);
                    assert forall|i: int| 0 <= i < rest.len() - 1 implies {
                        &&& (#[trigger] rest[i]).parent matches Some(p)
                        &&& normalized(rest[i].parent->0@).1 != "builtin/generated"@
                        &&& normalized(rest[i].parent->0@).1 != "builtin/entity"@
                        &&& raws.lookup(normalized(rest[i].parent->0@)) == Some(rest[i + 1])
                    } by {
                        assert(rest[i] == c[i + 1]);
                        assert(rest[i + 1] == c[i + 1 + 1]);
                    }
                    assert(is_chain(raws, next, rest));
                    assert(seq![m] + rest =~= c);
                }
                if chain_of(raws, name, fuel) == Chain::Found(c) && !is_builtin(next.1) {
                    let found = chain_of(raws, next, (fuel - 1) as nat)->Found_0;
                    assert(chain_of(raws, next, (fuel - 1) as nat) == Chain::Found(found));
                    assert(rest =~= found) by {
                        assert(c == seq![m] + found);
                    }
                    assert forall|i: int| 0 <= i < c.len() - 1 implies {
                        &&& (#[trigger] c[i]).parent matches Some(p)
                        &&& normalized(c[i].parent->0@).1 != "builtin/generated"@
                        &&& normalized(c[i].parent->0@).1 != "builtin/entity"@
                        &&& raws.lookup(normalized(c[i].parent->0@)) == Some(c[i + 1])
                    } by {
                        if i > 0 {
                            assert(rest[i - 1] == c[i]);
                            assert(rest[i - 1 + 1] == c[i + 1]);
                        } else {
                            assert(rest[0] == c[1]);
                        }
                    }
                }
            } else {
                assert(is_chain(raws, name, c) ==> c.len() == 1);
                assert(is_chain(raws, name, c) ==> c =~= seq![m]);
            }
            assert(is_chain(raws, name, c) && c.len() == 1 ==> c =~= seq![m]);
        }
    }
}

/// The names of the six directions.
pub proof fn law_directions_have_names()
    ensures
        direction_of_name("down"@) == Some(Direction::Down),
        direction_of_name("up"@) == Some(Direction::Up),
        direction_of_name("north"@) == Some(Direction::North),
        direction_of_name("south"@) == Some(Direction::South),
        direction_of_name("west"@) == Some(Direction::West),
        direction_of_name("east"@) == Some(Direction::East),
{
    reveal_strlit("down");
    reveal_strlit("up");
    reveal_strlit("north");
    reveal_strlit("south");
    reveal_strlit("west");
    reveal_strlit("east");
    assert("down"@.len() == 4 && "up"@.len() == 2 && "north"@.len() == 5 && "south"@.len() == 5);
    assert("west"@.len() == 4 && "east"@.len() == 4);
    assert("down"@[0] == 'd' && "west"@[0] == 'w' && "east"@[0] == 'e');
    assert("north"@[0] == 'n' && "south"@[0] == 's');
}

/// A quarter turn carries the vector of a direction: about y `(x, y, z)` goes
/// to `(-z, y, x)`, about x to `(x, z, -y)` and about z to `(y, -x, z)`.
pub proof fn law_quarter_turns_rotate(d: Direction)
    ensures
        ({
            let (x, y, z) = offset_of(d);
            &&& offset_of(quarter_turn(d, "y"@)) == (-z, y, x)
            &&& offset_of(quarter_turn(d, "x"@)) == (x, z, -y)
            &&& offset_of(quarter_turn(d, "z"@)) == (y, -x, z)
        }),
{
    reveal_strlit("x");
    reveal_strlit("y");
    reveal_strlit("z");
    assert("x"@[0] == 'x' && "y"@[0] == 'y' && "z"@[0] == 'z');
}

/// Turns about one axis add up; none leaves the direction, one is a quarter.
pub proof fn law_turns_add_up(d: Direction, axis: Seq<char>, a: nat, b: nat)
    ensures
        turned_direction(d, axis, 0) == d,
        turned_direction(d, axis, 1) == quarter_turn(d, axis),
        turned_direction(turned_direction(d, axis, a), axis, b) == turned_direction(
            d,
            axis,
            a + b,
        ),
    decreases b,
{
    reveal_with_fuel(turned_direction, 2);
    if b > 0 {
        law_turns_add_up(d, axis, a, (b - 1) as nat);
    }
}

/// An element turns about its one axis, where axis and angle are given, and
/// else about x, then y, then z, by the angles that are given.
pub proof fn law_elements_turn_in_order(d: Direction, r: RawRotation)
    ensures
        r.axis is Some && r.angle is Some ==> after_steps(d, rotation_steps(r)) == turned_direction(
            d,
            r.axis->0@,
            r.angle->0.quarters as nat,
        ),
        r.axis is None || r.angle is None ==> ({
            let about = |e: Direction, axis: Seq<char>, a: Option<Angle>|
                match a {
                    Some(angle) => turned_direction(e, axis, angle.quarters as nat),
                    None => e,
                };
            after_steps(d, rotation_steps(r)) == about(
                about(about(d, "x"@, r.x), "y"@, r.y),
                "z"@,
                r.z,
            )
        }),
{
    reveal_with_fuel(after_steps, 4);
    let steps = rotation_steps(r);
    if steps.len() > 0 {
        let a = steps.drop_last();
        if a.len() > 0 {
            let b = a.drop_last();
            assert(b.len() > 0 ==> b.drop_last().len() == 0);
        }
    }
}

/// A block state turns a model about x first and about y after that.
pub proof fn law_variants_turn_about_x_first(d: Direction, rot: VariantRot)
    ensures
        ({
            let zero = F32 { bits: 0 };
            let (x0, y0) = (rot.x.degrees.same_spec(zero), rot.y.degrees.same_spec(zero));
            let (x, y) = (rot.x.quarters as nat, rot.y.quarters as nat);
            &&& x0 && y0 ==> variant_direction(d, rot) == d
            &&& !x0 && y0 ==> variant_direction(d, rot) == turned_direction(d, "x"@, x)
            &&& x0 && !y0 ==> variant_direction(d, rot) == turned_direction(d, "y"@, y)
            &&& !x0 && !y0 ==> variant_direction(d, rot) == turned_direction(
                turned_direction(d, "x"@, x),
                "y"@,
                y,
            )
            &&& !x0 && !y0 && x == 1 && y == 1 ==> variant_direction(Direction::Up, rot)
                == Direction::East && variant_direction(Direction::North, rot) == Direction::Down
        }),
{
    law_turns_add_up(Direction::Up, "x"@, 0, 0);
    law_turns_add_up(Direction::North, "x"@, 0, 0);
    law_turns_add_up(quarter_turn(Direction::Up, "x"@), "y"@, 0, 0);
    law_turns_add_up(quarter_turn(Direction::North, "x"@), "y"@, 0, 0);
    reveal_strlit("x");
    reveal_strlit("y");
    assert("x"@[0] == 'x' && "y"@[0] == 'y');
}

/// Turning a model turns the directions of its quads and keeps all else.
pub proof fn law_turned_models_keep_their_quads(m: ModelShape, rot: VariantRot, i: int)
    requires
        0 <= i < m.quads.len(),
    ensures
        ({
            let t = turned_shape(m, rot);
            let (a, b) = (m.quads[i], t.quads[i]);
            &&& t.quads.len() == m.quads.len()
            &&& b.dir == variant_direction(a.dir, rot)
            &&& a.cull is None ==> b.cull is None
            &&& a.cull matches Some(c) ==> b.cull == Some(variant_direction(c, rot))
            &&& (b.sprite, b.uv, b.tint) == (a.sprite, a.uv, a.tint)
            &&& (b.corners, b.bounds) == (a.corners, a.bounds)
            &&& b.force_translucent == a.force_translucent
            &&& b.light_emission == a.light_emission
            &&& b.shade_override == a.shade_override
            &&& t.particle == m.particle
            &&& t.ambient_occlusion == m.ambient_occlusion
            &&& t.gui_light == m.gui_light
            &&& t.display == m.display
            &&& t.turn == Some(rot)
        }),
{
}

/// A coordinate of a corner of a face of the box from zero to one.
pub open spec fn unit_corner(dir: Direction, i: int, c: int) -> int {
    let (n, s) = (F32 { bits: 0 }, F32 { bits: 1 });
    face_corners_spec(dir, [n, n, n, s, s, s])[i][c].bits as int
}

/// The corners of a face are corners of its box: each coordinate is the lower
/// or the upper one of the box, as it is for the box from zero to one.
pub proof fn law_face_corners_are_of_the_box(dir: Direction, b: [F32; 6], i: int, c: int)
    requires
        0 <= i < 4,
        0 <= c < 3,
    ensures
        unit_corner(dir, i, c) == 0 || unit_corner(dir, i, c) == 1,
        unit_corner(dir, i, c) == 0 ==> face_corners_spec(dir, b)[i][c] == b[c],
        unit_corner(dir, i, c) == 1 ==> face_corners_spec(dir, b)[i][c] == b[c + 3],
{
    assert(i == 0 || i == 1 || i == 2 || i == 3);
    assert(c == 0 || c == 1 || c == 2);
}

/// The corners of a face lie on its side and go round it counter-clockwise
/// seen from where the side looks: the product of one edge with the next is
/// the vector of the side. Those of the four upright sides begin at the
/// bottom, that of the top at the south west and that of the bottom at the
/// north west.
pub proof fn law_face_corners_go_round(dir: Direction, i: int)
    requires
        0 <= i < 4,
    ensures
        ({
            let (j, k) = ((i + 1) % 4, (i + 2) % 4);
            let edge = |a: int, b: int, c: int| unit_corner(dir, b, c) - unit_corner(dir, a, c);
            let (x, y, z) = offset_of(dir);
            &&& x == edge(i, j, 1) * edge(j, k, 2) - edge(i, j, 2) * edge(j, k, 1)
            &&& y == edge(i, j, 2) * edge(j, k, 0) - edge(i, j, 0) * edge(j, k, 2)
            &&& z == edge(i, j, 0) * edge(j, k, 1) - edge(i, j, 1) * edge(j, k, 0)
            &&& x == 1 ==> unit_corner(dir, i, 0) == 1
            &&& x == -1 ==> unit_corner(dir, i, 0) == 0
            &&& y == 1 ==> unit_corner(dir, i, 1) == 1
            &&& y == -1 ==> unit_corner(dir, i, 1) == 0
            &&& z == 1 ==> unit_corner(dir, i, 2) == 1
            &&& z == -1 ==> unit_corner(dir, i, 2) == 0
        }),
        offset_of(dir).1 == 0 ==> unit_corner(dir, 0, 1) == 0 && unit_corner(dir, 1, 1) == 0,
        dir == Direction::Up ==> unit_corner(dir, 0, 0) == 0 && unit_corner(dir, 0, 2) == 1,
        dir == Direction::Down ==> unit_corner(dir, 0, 0) == 0 && unit_corner(dir, 0, 2) == 0,
{
    let (j, k) = ((i + 1) % 4, (i + 2) % 4);
    lemma_unit_corners(dir);
    assert(i == 0 || i == 1 || i == 2 || i == 3);
    let edge = |a: int, b: int, c: int| unit_corner(dir, b, c) - unit_corner(dir, a, c);
    lemma_unit_product(edge(i, j, 1), edge(j, k, 2));
    lemma_unit_product(edge(i, j, 2), edge(j, k, 1));
    lemma_unit_product(edge(i, j, 2), edge(j, k, 0));
    lemma_unit_product(edge(i, j, 0), edge(j, k, 2));
    lemma_unit_product(edge(i, j, 0), edge(j, k, 1));
    lemma_unit_product(edge(i, j, 1), edge(j, k, 0));
}

proof fn lemma_unit_corners(dir: Direction)
    ensures
        (unit_corner(dir, 0, 0), unit_corner(dir, 0, 1), unit_corner(dir, 0, 2)) == match dir {
            Direction::Up => (0int, 1int, 1int),
            Direction::Down => (0int, 0int, 0int),
            Direction::North => (1int, 0int, 0int),
            Direction::South => (0int, 0int, 1int),
            Direction::West => (0int, 0int, 0int),
            Direction::East => (1int, 0int, 1int),
        },
        (unit_corner(dir, 1, 0), unit_corner(dir, 1, 1), unit_corner(dir, 1, 2)) == match dir {
            Direction::Up => (1int, 1int, 1int),
            Direction::Down => (1int, 0int, 0int),
            Direction::North => (0int, 0int, 0int),
            Direction::South => (1int, 0int, 1int),
            Direction::West => (0int, 0int, 1int),
            Direction::East => (1int, 0int, 0int),
        },
        (unit_corner(dir, 2, 0), unit_corner(dir, 2, 1), unit_corner(dir, 2, 2)) == match dir {
            Direction::Up => (1int, 1int, 0int),
            Direction::Down => (1int, 0int, 1int),
            Direction::North => (0int, 1int, 0int),
            Direction::South => (1int, 1int, 1int),
            Direction::West => (0int, 1int, 1int),
            Direction::East => (1int, 1int, 0int),
        },
        (unit_corner(dir, 3, 0), unit_corner(dir, 3, 1), unit_corner(dir, 3, 2)) == match dir {
            Direction::Up => (0int, 1int, 0int),
            Direction::Down => (0int, 0int, 1int),
            Direction::North => (1int, 1int, 0int),
            Direction::South => (0int, 1int, 1int),
            Direction::West => (0int, 1int, 0int),
            Direction::East => (1int, 1int, 1int),
        },
{
}

proof fn lemma_unit_product(a: int, b: int)
    requires
        -1 <= a <= 1,
    ensures
        a == 0 ==> a * b == 0,
        a == 1 ==> a * b == b,
        a == -1 ==> a * b == -b,
{
    assert(a == -1 ==> a * b == -b) by (nonlinear_arith);
    assert(a == 1 ==> a * b == b) by (nonlinear_arith);
    assert(a == 0 ==> a * b == 0) by (nonlinear_arith);
}

/// A face that is drawn: its name is a direction and its texture resolves.
pub open spec fn is_drawn(face: (String, RawFace), t: Textures) -> bool {
    direction_of_name(face.0@) is Some && resolved_var(face.1.texture@, t, 12) is Some
}

/// A quad shows a face of an element: it has the face's texture rectangle, or
/// the whole sprite where the face gives none, its tint and its sprite, the
/// element's light, and looks and is hidden where the face says, each turned
/// as the element is. Of an element without turns it has the side's corners.
#[verifier::opaque]
pub open spec fn shows(
    q: FaceQuad,
    el: RawElement,
    face: (String, RawFace),
    t: Textures,
    names: Names,
) -> bool {
    let texture = resolved_var(face.1.texture@, t, 12)->0;
    let dir = direction_of_name(face.0@)->0;
    let turns = match el.rotation {
        Some(r) => rotation_steps(r),
        None => Seq::empty(),
    };
    let hidden = match face.1.cullface {
        Some(s) => direction_of_name(s@),
        None => None,
    };
    let (x0, y0, z0) = (el.from[0], el.from[1], el.from[2]);
    let (x1, y1, z1) = (el.to[0], el.to[1], el.to[2]);
    &&& face.1.uv matches Some(uv) ==> q.uv == uv
    &&& face.1.uv is None ==> q.uv[0].bits == 0 && q.uv[1].bits == 0 && q.uv[2].bits == 0x4180_0000
        && q.uv[3].bits == 0x4180_0000
    &&& q.tint == face.1.tintindex
    &&& 0 <= q.sprite.0 < names.len() && names[q.sprite.0 as int] == texture.name
    &&& q.force_translucent == texture.force_translucent
    &&& el.light_emission matches Some(l) ==> q.light_emission == l
    &&& el.light_emission is None ==> q.light_emission == 0
    &&& q.dir == after_steps(dir, turns)
    &&& hidden is None ==> q.cull is None
    &&& hidden matches Some(c) ==> q.cull == Some(after_steps(c, turns))
    &&& el.shade_direction_override is None ==> q.shade_override is None
    &&& el.shade_direction_override matches Some(s) ==> q.shade_override == direction_of_name(s@)
    &&& turns.len() == 0 ==> q.corners == face_corners_spec(dir, [x0, y0, z0, x1, y1, z1])
        && q.bounds == [x0, y0, z0, x1, y1, z1]
    &&& turns.len() > 0 ==> {
        let side = match dir {
            Direction::Down => 0int,
            Direction::Up => 1,
            Direction::North => 2,
            Direction::South => 3,
            Direction::West => 4,
            Direction::East => 5,
        };
        q.corners == el.turned[side].corners && q.bounds == el.turned[side].bounds
    }
}

/// Interning keeps the names before it.
proof fn lemma_names_grow(el: RawElement, t: Textures, names: Names, quads: Seq<FaceQuad>, n: int)
    requires
        0 <= n <= el.faces@.len(),
    ensures
        baked_faces(el, t, names, quads, n).0.len() >= names.len(),
        forall|i: int|
            0 <= i < names.len() ==> #[trigger] baked_faces(el, t, names, quads, n).0[i] == names[i],
        baked_faces(el, t, names, quads, n).1.len() == quads.len() + el.faces@.take(n).filter(
            |f: (String, RawFace)| is_drawn(f, t),
        ).len(),
        forall|i: int|
            0 <= i < quads.len() ==> #[trigger] baked_faces(el, t, names, quads, n).1[i] == quads[i],
    decreases n,
{
    reveal(Seq::filter);
    if n > 0 {
        lemma_names_grow(el, t, names, quads, n - 1);
        assert(el.faces@.take(n).drop_last() =~= el.faces@.take(n - 1));
        assert(el.faces@.take(n).last() == el.faces@[n - 1]);
    }
}

/// A quad goes on showing its face while names are added.
proof fn lemma_shows_stays(
    q: FaceQuad,
    el: RawElement,
    face: (String, RawFace),
    t: Textures,
    names: Names,
    more: Names,
)
    requires
        shows(q, el, face, t, names),
        names.len() <= more.len(),
        forall|i: int| 0 <= i < names.len() ==> #[trigger] more[i] == names[i],
    ensures
        shows(q, el, face, t, more),
{
    reveal(shows);
    assert(more[q.sprite.0 as int] == names[q.sprite.0 as int]);
}

/// The quad of a drawn face shows it.
proof fn lemma_face_quad_shows(el: RawElement, face: (String, RawFace), t: Textures, names: Names)
    requires
        is_drawn(face, t),
        interned(names, resolved_var(face.1.texture@, t, 12)->0.name).len() <= u32::MAX,
    ensures
        ({
            let tex = resolved_var(face.1.texture@, t, 12)->0;
            let q = face_quad(
                el,
                face.1,
                direction_of_name(face.0@)->0,
                SpriteId(name_pos(names, tex.name) as u32),
                tex.force_translucent,
            );
            shows(q, el, face, t, interned(names, tex.name))
        }),
{
    reveal(shows);
    let tex = resolved_var(face.1.texture@, t, 12)->0;
    lemma_name_pos_bounds(names, tex.name);
}

/// The quad of a drawn face.
proof fn lemma_face_has_quad(
    el: RawElement,
    t: Textures,
    names: Names,
    quads: Seq<FaceQuad>,
    n: int,
    j: int,
) -> (q: int)
    requires
        0 <= j < n <= el.faces@.len(),
        baked_faces(el, t, names, quads, n).0.len() <= u32::MAX,
        is_drawn(el.faces@[j], t),
    ensures
        ({
            let (ns, qs) = baked_faces(el, t, names, quads, n);
            quads.len() <= q < qs.len() && shows(qs[q], el, el.faces@[j], t, ns)
        }),
    decreases n,
{
    let (ns1, qs1) = baked_faces(el, t, names, quads, n - 1);
    let (ns, qs) = baked_faces(el, t, names, quads, n);
    let face = el.faces@[n - 1];
    lemma_names_grow(el, t, names, quads, n - 1);
    if j == n - 1 {
        lemma_face_quad_shows(el, face, t, ns1);
        qs.len() - 1
    } else {
        let q = lemma_face_has_quad(el, t, names, quads, n - 1, j);
        lemma_shows_stays(qs1[q], el, el.faces@[j], t, ns1, ns);
        assert(qs[q] == qs1[q]);
        q
    }
}

/// The face of a quad.
proof fn lemma_quad_has_face(
    el: RawElement,
    t: Textures,
    names: Names,
    quads: Seq<FaceQuad>,
    n: int,
    q: int,
) -> (j: int)
    requires
        0 <= n <= el.faces@.len(),
        baked_faces(el, t, names, quads, n).0.len() <= u32::MAX,
        quads.len() <= q < baked_faces(el, t, names, quads, n).1.len(),
    ensures
        ({
            let (ns, qs) = baked_faces(el, t, names, quads, n);
            0 <= j < n && is_drawn(el.faces@[j], t) && shows(qs[q], el, el.faces@[j], t, ns)
        }),
    decreases n,
{
    if n <= 0 {
        0
    } else {
        let (ns1, qs1) = baked_faces(el, t, names, quads, n - 1);
        let (ns, qs) = baked_faces(el, t, names, quads, n);
        let face = el.faces@[n - 1];
        lemma_names_grow(el, t, names, quads, n - 1);
        if q >= qs1.len() {
            lemma_face_quad_shows(el, face, t, ns1);
            n - 1
        } else {
            let j = lemma_quad_has_face(el, t, names, quads, n - 1, q);
            lemma_shows_stays(qs1[q], el, el.faces@[j], t, ns1, ns);
            assert(qs[q] == qs1[q]);
            j
        }
    }
}

/// The drawn faces of the first `n` elements.
pub open spec fn drawn_count(els: Seq<RawElement>, t: Textures, n: int) -> int
    decreases n,
{
    if n <= 0 {
        0
    } else {
        drawn_count(els, t, n - 1) + els[n - 1].faces@.filter(
            |f: (String, RawFace)| is_drawn(f, t),
        ).len()
    }
}

proof fn lemma_elements_grow(els: Seq<RawElement>, t: Textures, names: Names, n: int)
    requires
        0 <= n <= els.len(),
    ensures
        baked_elements(els, t, names, n).1.len() == drawn_count(els, t, n),
        baked_elements(els, t, names, n).0.len() >= names.len(),
        forall|i: int|
            0 <= i < names.len() ==> #[trigger] baked_elements(els, t, names, n).0[i] == names[i],
    decreases n,
{
    if n > 0 {
        let (ns1, qs1) = baked_elements(els, t, names, n - 1);
        let el = els[n - 1];
        let m = el.faces@.len() as int;
        lemma_elements_grow(els, t, names, n - 1);
        lemma_names_grow(el, t, ns1, qs1, m);
        assert(el.faces@.take(m) =~= el.faces@);
    }
}

proof fn lemma_element_face_has_quad(
    els: Seq<RawElement>,
    t: Textures,
    names: Names,
    n: int,
    k: int,
    j: int,
) -> (q: int)
    requires
        0 <= k < n <= els.len(),
        0 <= j < els[k].faces@.len(),
        is_drawn(els[k].faces@[j], t),
        baked_elements(els, t, names, n).0.len() <= u32::MAX,
    ensures
        ({
            let (ns, qs) = baked_elements(els, t, names, n);
            0 <= q < qs.len() && shows(qs[q], els[k], els[k].faces@[j], t, ns)
        }),
    decreases n,
{
    let (ns1, qs1) = baked_elements(els, t, names, n - 1);
    let (ns, qs) = baked_elements(els, t, names, n);
    let el = els[n - 1];
    let m = el.faces@.len() as int;
    if k == n - 1 {
        lemma_face_has_quad(el, t, ns1, qs1, m, j)
    } else {
        lemma_names_grow(el, t, ns1, qs1, m);
        let q = lemma_element_face_has_quad(els, t, names, n - 1, k, j);
        lemma_shows_stays(qs1[q], els[k], els[k].faces@[j], t, ns1, ns);
        assert(qs[q] == qs1[q]);
        q
    }
}

proof fn lemma_quad_has_element_face(
    els: Seq<RawElement>,
    t: Textures,
    names: Names,
    n: int,
    q: int,
) -> (r: (int, int))
    requires
        0 <= n <= els.len(),
        baked_elements(els, t, names, n).0.len() <= u32::MAX,
        0 <= q < baked_elements(els, t, names, n).1.len(),
    ensures
        ({
            let (ns, qs) = baked_elements(els, t, names, n);
            let (k, j) = r;
            &&& 0 <= k < n
            &&& 0 <= j < els[k].faces@.len()
            &&& is_drawn(els[k].faces@[j], t)
            &&& shows(qs[q], els[k], els[k].faces@[j], t, ns)
        }),
    decreases n,
{
    if n <= 0 {
        (0, 0)
    } else {
        let (ns1, qs1) = baked_elements(els, t, names, n - 1);
        let (ns, qs) = baked_elements(els, t, names, n);
        let el = els[n - 1];
        let m = el.faces@.len() as int;
        if q >= qs1.len() {
            (n - 1, lemma_quad_has_face(el, t, ns1, qs1, m, q))
        } else {
            lemma_names_grow(el, t, ns1, qs1, m);
            let (k, j) = lemma_quad_has_element_face(els, t, names, n - 1, q);
            lemma_shows_stays(qs1[q], els[k], els[k].faces@[j], t, ns1, ns);
            assert(qs[q] == qs1[q]);
            (k, j)
        }
    }
}

/// A compiled model shows every face of its elements whose name is a direction
/// and whose texture resolves, and has as many quads as such faces. Sprite
/// names that were interned before stay.
pub proof fn law_faces_have_quads(
    chain: Seq<RawModel>,
    names: Names,
    m: int,
    k: int,
    j: int,
)
    requires
        names_after(chain, names).len() <= u32::MAX,
        0 <= m < chain.len(),
        chain[m].elements is Some,
        forall|i: int| 0 <= i < m ==> (#[trigger] chain[i]).elements is None,
        0 <= k < chain[m].elements->0@.len(),
        0 <= j < chain[m].elements->0@[k].faces@.len(),
    ensures
        ({
            let els = chain[m].elements->0@;
            let t = merged_textures(chain);
            let quads = compiled_shape(chain, names).quads;
            let face = els[k].faces@[j];
            &&& is_drawn(face, t) ==> exists|q: int|
                0 <= q < quads.len() && shows(
                    #[trigger] quads[q],
                    els[k],
                    face,
                    t,
                    names_after(chain, names),
                )
            &&& quads.len() == drawn_count(els, t, els.len() as int)
        }),
        names_after(chain, names).len() >= names.len(),
        forall|i: int|
            0 <= i < names.len() ==> #[trigger] names_after(chain, names)[i] == names[i],
{
    law_nearest_model_decides(chain, m);
    let els = nearest_elements(chain);
    let t = merged_textures(chain);
    lemma_elements_grow(els, t, names, els.len() as int);
    if is_drawn(els[k].faces@[j], t) {
        let q = lemma_element_face_has_quad(els, t, names, els.len() as int, k, j);
        let quads = compiled_shape(chain, names).quads;
        assert(shows(quads[q], els[k], els[k].faces@[j], t, names_after(chain, names)));
    }
}

/// Every quad of a compiled model shows a face of the nearest elements.
pub proof fn law_quads_have_faces(chain: Seq<RawModel>, names: Names, m: int, q: int)
    requires
        names_after(chain, names).len() <= u32::MAX,
        0 <= m < chain.len(),
        chain[m].elements is Some,
        forall|i: int| 0 <= i < m ==> (#[trigger] chain[i]).elements is None,
        0 <= q < compiled_shape(chain, names).quads.len(),
    ensures
        exists|k: int, j: int|
            0 <= k < chain[m].elements->0@.len() && 0 <= j < chain[m].elements->0@[k].faces@.len()
                && is_drawn(#[trigger] chain[m].elements->0@[k].faces@[j], merged_textures(chain))
                && shows(
                compiled_shape(chain, names).quads[q],
                chain[m].elements->0@[k],
                chain[m].elements->0@[k].faces@[j],
                merged_textures(chain),
                names_after(chain, names),
            ),
{
    law_nearest_model_decides(chain, m);
    let els = nearest_elements(chain);
    let t = merged_textures(chain);
    let (k, j) = lemma_quad_has_element_face(els, t, names, els.len() as int, q);
    assert(is_drawn(chain[m].elements->0@[k].faces@[j], t));
}

/// The quad of a face has the texture rectangle that the face gives, whatever
/// it is, and only a face that gives none shows the whole sprite.
pub proof fn law_faces_keep_their_rectangle(
    el: RawElement,
    face: RawFace,
    dir: Direction,
    sprite: SpriteId,
    force_translucent: bool,
)
    ensures
        ({
            let q = face_quad(el, face, dir, sprite, force_translucent);
            &&& face.uv matches Some(uv) ==> q.uv == uv
            &&& face.uv is None ==> q.uv[0].bits == 0 && q.uv[1].bits == 0 && q.uv[2].bits
                == 0x4180_0000 && q.uv[3].bits == 0x4180_0000
            &&& q.sprite == sprite
        }),
{
}

/// A model that compiles gets the next id, under which the table holds what
/// its chain compiles to; asked for again, it has the same id and the table
/// stays. Models and ids that were there stay.
pub proof fn law_models_are_compiled_once(
    raws: RawModels,
    t: TableShape,
    name: (Seq<char>, Seq<char>),
    chain: Seq<RawModel>,
)
    requires
        chain_of(raws, name, 32) == Chain::Found(chain),
        forall|i: int| 0 <= i < t.ids.len() ==> (#[trigger] t.ids[i]).0 != name,
        t.models.len() < u32::MAX,
    ensures
        ({
            let (after, id) = with_model(raws, t, name);
            &&& id == Some(ModelId(t.models.len() as u32))
            &&& after.models.len() == t.models.len() + 1
            &&& after.models[t.models.len() as int] == compiled_shape(chain, t.names)
            &&& after.models.take(t.models.len() as int) == t.models
            &&& after.ids.take(t.ids.len() as int) == t.ids
            &&& after.ids.len() == t.ids.len() + 1
            &&& after.ids[t.ids.len() as int].0 == name
            &&& with_model(raws, after, name) == (after, id)
        }),
{
    lemma_id_pos(t.ids, name, t.ids.len() as int);
    let after = with_model(raws, t, name).0;
    assert forall|i: int| 0 <= i < t.ids.len() implies (#[trigger] after.ids[i]).0 != name by {
        assert(after.ids[i] == t.ids[i]);
    }
    lemma_id_pos(after.ids, name, t.ids.len() as int);
    assert(after.models.take(t.models.len() as int) =~= t.models);
    assert(after.ids.take(t.ids.len() as int) =~= t.ids);
}

/// A model whose chain is broken or too long has no id, and the table stays.
pub proof fn law_broken_models_are_refused(
    raws: RawModels,
    t: TableShape,
    name: (Seq<char>, Seq<char>),
)
    requires
        !(chain_of(raws, name, 32) is Found),
        forall|i: int| 0 <= i < t.ids.len() ==> (#[trigger] t.ids[i]).0 != name,
    ensures
        with_model(raws, t, name) == (t, None::<ModelId>),
{
    lemma_id_pos(t.ids, name, t.ids.len() as int);
}

} // verus!
