//! What a picture is to look like.

use vstd::prelude::*;
use crate::minecraft::color::Color;
use crate::minecraft::render::canvas::Rgba;

verus! {

/// The width at which a server list breaks a description.
pub const MOTD_WIDTH: u32 = 267;

/// The greatest enlargement: a picture at a greater one could be held by no machine.
pub const MAX_SCALE: u32 = 0x10_0000;

/// A client version, which decides whether 24-bit colours are known.
#[derive(Debug, Clone, Copy, PartialEq, Eq, Structural)]
pub enum TargetVersion {
    V1_8_9,
    V1_12_2,
    V1_16_5,
    Latest,
}

impl TargetVersion {
    /// The protocol number of the version.
    pub fn protocol(self) -> (r: i32)
        ensures
            r == (match self {
                TargetVersion::V1_8_9 => 47i32,
                TargetVersion::V1_12_2 => 340i32,
                TargetVersion::V1_16_5 => 754i32,
                TargetVersion::Latest => 775i32,
            }),
    {
        match self {
            TargetVersion::V1_8_9 => 47,
            TargetVersion::V1_12_2 => 340,
            TargetVersion::V1_16_5 => 754,
            TargetVersion::Latest => 775,
        }
    }

    /// The version knows 24-bit colours.
    pub open spec fn knows_hex(self) -> bool {
        self is V1_16_5 || self is Latest
    }

    /// Whether the version knows 24-bit colours.
    pub fn supports_hex(self) -> (r: bool)
        ensures
            r == self.knows_hex(),
    {
        match self {
            TargetVersion::V1_16_5 => true,
            TargetVersion::Latest => true,
            _ => false,
        }
    }
}

/// What becomes of a 24-bit colour for a client that does not know it.
#[derive(Debug, Clone, Copy, PartialEq, Eq, Structural)]
pub enum OldColorPolicy {
    /// It is dropped, as such a client does.
    Drop,
    /// The nearest named colour takes its place.
    Downsample,
}

/// What a text is to look like. Lengths are GUI pixels, each of which becomes a square of `scale`
/// pixels.
#[derive(Debug, Clone, Copy)]
pub struct RenderOptions {
    /// The enlargement. Unifont glyphs take half of it.
    pub scale: u32,
    /// The width at which lines break.
    pub max_width: u32,
    /// How many lines are drawn.
    pub max_lines: usize,
    /// The space around the text.
    pub padding: u32,
    /// The colour of text for which none is given.
    pub default_color: (u8, u8, u8),
    pub background: Option<Rgba>,
    pub shadow: bool,
    pub target: TargetVersion,
    pub old_color_policy: OldColorPolicy,
    pub obfuscate_seed: u64,
}

/// The usual look of a text.
pub open spec fn usual_options() -> RenderOptions {
    RenderOptions {
        scale: 4,
        max_width: MOTD_WIDTH,
        max_lines: 2,
        padding: 4,
        default_color: (128, 128, 128),
        background: Some(Rgba { r: 20, g: 20, b: 24, a: 255 }),
        shadow: true,
        target: TargetVersion::Latest,
        old_color_policy: OldColorPolicy::Downsample,
        obfuscate_seed: 0,
    }
}

impl Default for RenderOptions {
    fn default() -> (r: Self)
        ensures
            r == usual_options(),
    {
        RenderOptions {
            scale: 4,
            max_width: MOTD_WIDTH,
            max_lines: 2,
            padding: 4,
            default_color: (128, 128, 128),
            background: Some(Rgba { r: 20, g: 20, b: 24, a: 255 }),
            shadow: true,
            target: TargetVersion::Latest,
            old_color_policy: OldColorPolicy::Downsample,
            obfuscate_seed: 0,
        }
    }
}

/// What a card is to look like.
#[derive(Debug, Clone)]
pub struct CardOptions {
    pub scale: u32,
    pub target: TargetVersion,
    pub old_color_policy: OldColorPolicy,
    pub background: Rgba,
    /// The title; without one the address is shown.
    pub title: Option<String>,
    /// Whether a checkerboard shows where the picture is not opaque.
    pub checker: bool,
}

impl Default for CardOptions {
    fn default() -> (r: Self)
        ensures
            r.scale == 4,
            r.target is Latest,
            r.old_color_policy is Downsample,
            r.background == (Rgba { r: 20, g: 20, b: 24, a: 255 }),
            r.title is None,
            r.checker,
    {
        CardOptions {
            scale: 4,
            target: TargetVersion::Latest,
            old_color_policy: OldColorPolicy::Downsample,
            background: Rgba { r: 20, g: 20, b: 24, a: 255 },
            title: None,
            checker: true,
        }
    }
}

/// What a screen is to look like.
#[derive(Debug, Clone)]
pub struct ScreenOptions {
    pub scale: u32,
    pub target: TargetVersion,
    pub old_color_policy: OldColorPolicy,
    /// The title of the entry; without one the address is shown.
    pub title: Option<String>,
}

impl Default for ScreenOptions {
    fn default() -> (r: Self)
        ensures
            r.scale == 4,
            r.target is Latest,
            r.old_color_policy is Downsample,
            r.title is None,
    {
        ScreenOptions {
            scale: 4,
            target: TargetVersion::Latest,
            old_color_policy: OldColorPolicy::Downsample,
            title: None,
        }
    }
}

/// The colour that a client shows.
pub open spec fn adjusted(
    c: Option<Color>,
    target: TargetVersion,
    policy: OldColorPolicy,
) -> Option<Color> {
    match c {
        Some(x) => if x is Rgb && !target.knows_hex() {
            if policy is Drop {
                None
            } else {
                Some(x.as_named())
            }
        } else {
            c
        },
        None => None,
    }
}

/// The colour that a client shows.
pub fn adjust(c: Option<Color>, opts: &RenderOptions) -> (r: Option<Color>)
    ensures
        r == adjusted(c, opts.target, opts.old_color_policy),
        (c matches Some(x) ==> x.wf()) ==> (r matches Some(y) ==> y.wf()),
{
    match c {
        None => None,
        Some(Color::Rgb(r, g, b)) => {
            if opts.target.supports_hex() {
                Some(Color::Rgb(r, g, b))
            } else {
                match opts.old_color_policy {
                    OldColorPolicy::Drop => None,
                    OldColorPolicy::Downsample => Some(Color::Rgb(r, g, b).downsample()),
                }
            }
        },
        Some(x) => Some(x),
    }
}

} // verus!
