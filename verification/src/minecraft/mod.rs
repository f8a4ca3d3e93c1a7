//! Server status protocols, the status model and its rendering.
//!
//! [`protocol`], [`legacy`], [`bedrock`], [`query`] and [`srv`] know what to send to a server and what
//! its answers mean; the sockets are left to the caller. [`status`] and [`component`] hold what a
//! server says about itself, and [`render`] draws it.

pub mod bedrock;
pub mod codec;
pub mod color;
pub mod component;
pub mod font;
pub mod forge;
pub mod json;
pub mod legacy;
pub mod outside;
pub mod protocol;
pub mod protocol_version;
pub mod query;
pub mod render;
pub mod srv;
pub mod status;
pub mod text;

pub use bedrock::{BedrockOptions, BedrockResult, BedrockStatus};
pub use component::{Component, ResolvedStyle, Span};
pub use protocol::{PingError, PingOptions, PingResult, ResolvedAddress};
pub use render::{
    render_motd, render_motd_png, render_select_server_png, render_select_server_screen,
    render_server_card, render_server_card_png, render_server_list_png, render_server_list_screen,
    visual_lines, CardOptions, ListEntry, OldColorPolicy, RenderOptions, ScreenOptions,
    TargetVersion,
};
pub use status::{Player, Players, StatusResponse, Version};
