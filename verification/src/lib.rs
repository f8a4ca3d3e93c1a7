//! Minecraft server ping and vanilla-style status rendering.
//!
//! The [`minecraft`] module holds everything that can be decided without touching a socket, a
//! clock or a file: the wire formats of the Java, Bedrock, legacy, query and SRV exchanges, the
//! status model with its text components, and the pixel renderer.
//! [`api`] holds the decisions of the HTTP front end.

pub mod api;
pub mod minecraft;
