//! What is remembered between launches, and the changes to it.

use crate::bits;
use crate::scalar::F32;
use crate::text::str_eq;
use vstd::prelude::*;

verus! {

/// Render quality preset.
#[derive(Clone, Copy, Debug, PartialEq, Eq, Structural)]
pub enum Quality {
    /// Half-resolution scene, nothing extra.
    Low,
    /// Full resolution, no post processing.
    Medium,
    /// Full resolution and post processing.
    High,
    /// High with heavier settings.
    Ultra,
}

impl Default for Quality {
    fn default() -> (r: Quality)
        ensures
            r == Quality::Medium,
    {
        Quality::Medium
    }
}

impl Quality {
    pub open spec fn scale_spec(self) -> F32 {
        if self == Quality::Low {
            F32 { bits: bits::CENTI_50 }
        } else {
            F32 { bits: bits::ONE }
        }
    }

    /// Scale of the 3D scene before it is enlarged.
    pub fn render_scale(self) -> (r: F32)
        ensures
            r == self.scale_spec(),
    {
        match self {
            Quality::Low => F32 { bits: bits::CENTI_50 },
            _ => F32 { bits: bits::ONE },
        }
    }

    pub open spec fn post_process_spec(self) -> bool {
        self == Quality::High || self == Quality::Ultra
    }

    /// Whether the post-process pass runs.
    pub fn post_process(self) -> (r: bool)
        ensures
            r == self.post_process_spec(),
    {
        match self {
            Quality::High | Quality::Ultra => true,
            _ => false,
        }
    }

    pub open spec fn next_spec(self) -> Quality {
        match self {
            Quality::Low => Quality::Medium,
            Quality::Medium => Quality::High,
            Quality::High => Quality::Ultra,
            Quality::Ultra => Quality::Low,
        }
    }

    /// The next preset, from Low to Ultra and around.
    pub fn next(self) -> (r: Quality)
        ensures
            r == self.next_spec(),
    {
        match self {
            Quality::Low => Quality::Medium,
            Quality::Medium => Quality::High,
            Quality::High => Quality::Ultra,
            Quality::Ultra => Quality::Low,
        }
    }
}

/// Going on four times leads back, and no fewer times do.
pub proof fn law_quality_cycle(q: Quality)
    ensures
        q.next_spec().next_spec().next_spec().next_spec() == q,
        q.next_spec() != q,
        q.next_spec().next_spec() != q,
        q.next_spec().next_spec().next_spec() != q,
{
}

/// Everything remembered between launches.
#[derive(Debug, PartialEq)]
pub struct PackSettings {
    /// Id of the selected resource pack, if any.
    pub active_pack: Option<String>,
    /// `pack_format` of the selected pack.
    pub pack_format: Option<u32>,
    /// Id of the enabled shader pack, if any.
    pub active_shader: Option<String>,
    pub quality: Quality,
    /// The user has been through the first launch.
    pub onboarded: bool,
}

/// What the settings hold.
#[verifier::ext_equal]
pub struct SettingsShape {
    pub active_pack: Option<Seq<char>>,
    pub pack_format: Option<u32>,
    pub active_shader: Option<Seq<char>>,
    pub quality: Quality,
    pub onboarded: bool,
}

/// The text of an optional id.
pub open spec fn id_text(id: Option<String>) -> Option<Seq<char>> {
    match id {
        Some(s) => Some(s@),
        None => None,
    }
}

/// The settings of a first launch.
pub open spec fn first_settings() -> SettingsShape {
    SettingsShape {
        active_pack: None,
        pack_format: None,
        active_shader: None,
        quality: Quality::Medium,
        onboarded: false,
    }
}

impl Default for PackSettings {
    fn default() -> (r: PackSettings)
        ensures
            r.shape() == first_settings(),
    {
        PackSettings {
            active_pack: None,
            pack_format: None,
            active_shader: None,
            quality: Quality::Medium,
            onboarded: false,
        }
    }
}

fn is_id(active: &Option<String>, id: &str) -> (r: bool)
    ensures
        r == (id_text(*active) == Some(id@)),
{
    match active {
        Some(a) => str_eq(a.as_str(), id),
        None => false,
    }
}

impl PackSettings {
    pub open spec fn shape(&self) -> SettingsShape {
        SettingsShape {
            active_pack: id_text(self.active_pack),
            pack_format: self.pack_format,
            active_shader: id_text(self.active_shader),
            quality: self.quality,
            onboarded: self.onboarded,
        }
    }

    /// Selects a resource pack.
    pub fn use_pack(&mut self, id: &str, pack_format: Option<u32>)
        ensures
            final(self).shape() == (SettingsShape {
                active_pack: Some(id@),
                pack_format,
                onboarded: true,
                ..old(self).shape()
            }),
    {
        self.active_pack = Some(id.to_owned());
        self.pack_format = pack_format;
        self.onboarded = true;
    }

    /// Forgets a resource pack that was uninstalled; says whether it was the
    /// selected one.
    pub fn forget_pack(&mut self, id: &str) -> (r: bool)
        ensures
            r == (old(self).shape().active_pack == Some(id@)),
            final(self).shape() == (if r {
                SettingsShape { active_pack: None, ..old(self).shape() }
            } else {
                old(self).shape()
            }),
    {
        if is_id(&self.active_pack, id) {
            self.active_pack = None;
            true
        } else {
            false
        }
    }

    /// Enables a shader pack and hands out the one that was enabled before.
    pub fn enable(&mut self, id: &str) -> (r: Option<String>)
        ensures
            id_text(r) == old(self).shape().active_shader,
            final(self).shape() == (SettingsShape {
                active_shader: Some(id@),
                ..old(self).shape()
            }),
    {
        let prev = self.active_shader.take();
        self.active_shader = Some(id.to_owned());
        prev
    }

    /// Disables shaders and hands out the pack that was enabled.
    pub fn disable(&mut self) -> (r: Option<String>)
        ensures
            id_text(r) == old(self).shape().active_shader,
            final(self).shape() == (SettingsShape { active_shader: None, ..old(self).shape() }),
    {
        self.active_shader.take()
    }

    /// Forgets a shader pack that was uninstalled; says whether it was the
    /// enabled one.
    pub fn forget_shader(&mut self, id: &str) -> (r: bool)
        ensures
            r == (old(self).shape().active_shader == Some(id@)),
            final(self).shape() == (if r {
                SettingsShape { active_shader: None, ..old(self).shape() }
            } else {
                old(self).shape()
            }),
    {
        if is_id(&self.active_shader, id) {
            self.active_shader = None;
            true
        } else {
            false
        }
    }
}

/// The settings that a settings file stands for: what was read from it, or
/// those of a first launch where it is missing or corrupt. The flag says that
/// they have to be written.
pub fn load_or_create(read: Option<PackSettings>) -> (r: (PackSettings, bool))
    ensures
        read matches Some(s) ==> r.0.shape() == s.shape() && !r.1,
        read is None ==> r.0.shape() == first_settings() && r.1,
{
    match read {
        Some(s) => (s, false),
        None => (
            PackSettings {
                active_pack: None,
                pack_format: None,
                active_shader: None,
                quality: Quality::Medium,
                onboarded: false,
            },
            true,
        ),
    }
}

/// After a shader pack was enabled and then uninstalled none is enabled, and
/// nothing else has changed but that.
pub proof fn law_uninstalled_shader_is_off(
    before: SettingsShape,
    enabled: SettingsShape,
    after: SettingsShape,
    id: Seq<char>,
)
    requires
        enabled == (SettingsShape { active_shader: Some(id), ..before }),
        after == (if enabled.active_shader == Some(id) {
            SettingsShape { active_shader: None, ..enabled }
        } else {
            enabled
        }),
    ensures
        after == (SettingsShape { active_shader: None, ..before }),
{
}

/// After a pack was selected and then uninstalled none is selected, and the
/// shader pack and the preset are as before.
pub proof fn law_uninstalled_pack_is_not_selected(
    before: SettingsShape,
    selected: SettingsShape,
    after: SettingsShape,
    id: Seq<char>,
    pack_format: Option<u32>,
)
    requires
        selected == (SettingsShape {
            active_pack: Some(id),
            pack_format,
            onboarded: true,
            ..before
        }),
        after == (if selected.active_pack == Some(id) {
            SettingsShape { active_pack: None, ..selected }
        } else {
            selected
        }),
    ensures
        after.active_pack is None,
        after.active_shader == before.active_shader,
        after.quality == before.quality,
{
}

/// What the qualities do: only the low one halves the scene, and only the two
/// upper ones process the picture.
pub proof fn law_qualities_differ()
    ensures
        Quality::Low.scale_spec().bits == 0x3f00_0000,
        Quality::Medium.scale_spec().bits == 0x3f80_0000,
        Quality::High.scale_spec().bits == 0x3f80_0000,
        Quality::Ultra.scale_spec().bits == 0x3f80_0000,
        !Quality::Low.post_process_spec() && !Quality::Medium.post_process_spec(),
        Quality::High.post_process_spec() && Quality::Ultra.post_process_spec(),
        Quality::Low.next_spec() == Quality::Medium,
        Quality::Medium.next_spec() == Quality::High,
        Quality::High.next_spec() == Quality::Ultra,
        Quality::Ultra.next_spec() == Quality::Low,
{
}

/// On a first launch nothing is chosen, the quality is medium, and the user
/// has not been welcomed.
pub proof fn law_first_launch()
    ensures
        first_settings().active_pack is None,
        first_settings().pack_format is None,
        first_settings().active_shader is None,
        first_settings().quality == Quality::Medium,
        !first_settings().onboarded,
{
}

} // verus!
