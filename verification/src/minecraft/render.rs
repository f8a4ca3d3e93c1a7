//! Pixel pictures of server descriptions, cards and lists.
//!
//! Everything is laid out in GUI pixels and enlarged by a whole number. Spaces are kept as the
//! server sends them, since many servers centre their text with them.

pub mod bidi;
pub mod canvas;
pub mod card;
pub mod draw;
pub mod glyphs;
pub mod gui;
pub mod info;
pub mod ink;
pub mod layout;
pub mod motd;
pub mod options;
pub mod screen;
pub mod shown;
pub mod single;
pub mod slant;

pub use canvas::{composite_over_checker, stack_vertical};
pub use card::{render_server_card, render_server_card_png};
pub use layout::visual_lines;
pub use motd::{encode_png, render_component, render_motd, render_motd_png};
pub use options::{
    CardOptions, OldColorPolicy, RenderOptions, ScreenOptions, TargetVersion, MOTD_WIDTH,
};
pub use screen::{
    render_select_server_png, render_select_server_screen, render_server_list_png,
    render_server_list_screen, ListEntry,
};
