//! Model definitions as the pack writes them.

use crate::blockstates::Angle;
use crate::compiled::{find_pair, pair_pos};
use crate::scalar::F32;
use crate::sprites::{lemma_pair_pos_bounds, lemma_pair_pos_push};
use vstd::prelude::*;

verus! {

/// A model definition. Maps are lists in the order of the document, with each
/// key once.
#[derive(Debug)]
pub struct RawModel {
    pub parent: Option<String>,
    pub textures: Vec<(String, RawTextureValue)>,
    pub elements: Option<Vec<RawElement>>,
    pub ambientocclusion: Option<bool>,
    pub gui_light: Option<String>,
    pub display: Vec<(String, RawDisplay)>,
}

/// Texture values are plain strings, or objects with a sprite and a flag.
#[derive(Debug)]
pub enum RawTextureValue {
    Str(String),
    Sprite { sprite: String, force_translucent: Option<bool> },
}

impl RawTextureValue {
    pub open spec fn reference(&self) -> Seq<char> {
        match self {
            RawTextureValue::Str(s) => s@,
            RawTextureValue::Sprite { sprite, .. } => sprite@,
        }
    }

    pub open spec fn forced(&self) -> bool {
        match self {
            RawTextureValue::Str(_) => false,
            RawTextureValue::Sprite { force_translucent, .. } => *force_translucent == Some(true),
        }
    }

    pub fn sprite_ref(&self) -> (r: &str)
        ensures
            r@ == self.reference(),
    {
        match self {
            RawTextureValue::Str(s) => s.as_str(),
            RawTextureValue::Sprite { sprite, .. } => sprite.as_str(),
        }
    }

    pub fn force_translucent(&self) -> (r: bool)
        ensures
            r == self.forced(),
    {
        match self {
            RawTextureValue::Str(_) => false,
            RawTextureValue::Sprite { force_translucent, .. } => match force_translucent {
                Some(b) => *b,
                None => false,
            },
        }
    }
}

/// A display transform.
#[derive(Clone, Copy, Debug)]
pub struct RawDisplay {
    pub rotation: Option<[F32; 3]>,
    pub translation: Option<[F32; 3]>,
    pub scale: Option<[F32; 3]>,
}

/// Corners of a face and their bounding box.
#[derive(Clone, Copy, Debug)]
pub struct FaceGeometry {
    pub bounds: [F32; 6],
    pub corners: [[F32; 3]; 4],
}

#[derive(Debug)]
pub struct RawElement {
    /// Opposite corners of the box in 0..16 block units.
    pub from: [F32; 3],
    pub to: [F32; 3],
    pub rotation: Option<RawRotation>,
    /// The faces of the box after the rotation, in the order down, up, north,
    /// south, west, east; read where there is a rotation.
    pub turned: [FaceGeometry; 6],
    pub shade: Option<bool>,
    /// Light emission 0..15.
    pub light_emission: Option<u8>,
    pub faces: Vec<(String, RawFace)>,
    /// Forces the directional brightness.
    pub shade_direction_override: Option<String>,
}

#[derive(Debug)]
pub struct RawRotation {
    pub origin: [F32; 3],
    /// One axis and its angle, or an angle about each axis.
    pub axis: Option<String>,
    pub angle: Option<Angle>,
    pub x: Option<Angle>,
    pub y: Option<Angle>,
    pub z: Option<Angle>,
    pub rescale: bool,
}

#[derive(Debug)]
pub struct RawFace {
    /// Texture rectangle in 0..16 units. Defaults to the full face.
    pub uv: Option<[F32; 4]>,
    /// Texture variable or sprite name.
    pub texture: String,
    /// Direction whose neighbor hides this face.
    pub cullface: Option<String>,
    /// Tint index.
    pub tintindex: Option<i32>,
}

/// Parsed but unresolved models by name. Each name occurs once.
#[derive(Debug)]
pub struct RawModels {
    pub names: Vec<(String, String)>,
    pub models: Vec<RawModel>,
}

impl RawModels {
    pub open spec fn wf(&self) -> bool {
        self.names.len() == self.models.len()
    }

    /// The model of a name.
    pub open spec fn lookup(&self, name: (Seq<char>, Seq<char>)) -> Option<RawModel> {
        let i = pair_pos(self.names@, name.0, name.1);
        if i < self.names.len() && i < self.models.len() {
            Some(self.models@[i])
        } else {
            None
        }
    }

    pub fn new() -> (r: RawModels)
        ensures
            r.wf(),
            forall|n: (Seq<char>, Seq<char>)| #[trigger] r.lookup(n) is None,
    {
        RawModels { names: Vec::new(), models: Vec::new() }
    }

    /// Puts a model under a name, in place of the one that was there.
    pub fn insert(&mut self, ns: &str, name: &str, model: RawModel)
        requires
            old(self).wf(),
        ensures
            final(self).wf(),
            forall|n: (Seq<char>, Seq<char>)| #[trigger]
                final(self).lookup(n) == (if n == (ns@, name@) {
                    Some(model)
                } else {
                    old(self).lookup(n)
                }),
    {
        let ghost before = *self;
        let i = find_pair(&self.names, ns, name);
        if i < self.names.len() {
            self.models.set(i, model);
            assert forall|n: (Seq<char>, Seq<char>)| #[trigger]
                self.lookup(n) == (if n == (ns@, name@) {
                    Some(model)
                } else {
                    before.lookup(n)
                }) by {
                lemma_pair_pos_bounds(self.names@, n.0, n.1);
            }
        } else {
            self.names.push((ns.to_owned(), name.to_owned()));
            self.models.push(model);
            assert forall|n: (Seq<char>, Seq<char>)| #[trigger]
                self.lookup(n) == (if n == (ns@, name@) {
                    Some(model)
                } else {
                    before.lookup(n)
                }) by {
                lemma_pair_pos_bounds(before.names@, n.0, n.1);
                lemma_pair_pos_push(before.names@, self.names@.last(), n.0, n.1);
                assert(self.names@ =~= before.names@.push(self.names@.last()));
            }
        }
    }

    pub fn get(&self, ns: &str, name: &str) -> (r: Option<&RawModel>)
        ensures
            match r {
                Some(m) => self.lookup((ns@, name@)) == Some(*m),
                None => self.lookup((ns@, name@)) is None,
            },
    {
        let i = find_pair(&self.names, ns, name);
        if i < self.names.len() && i < self.models.len() {
            Some(&self.models[i])
        } else {
            None
        }
    }
}

} // verus!
