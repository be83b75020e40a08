//! A headless RDP client's protocol core, with its behaviour proved.
//!
//! Screen, pointer, keyboard, mouse, resize, clipboard, microphone and camera, and nothing
//! that touches the world: no socket, no thread and no clock. Bytes go in, and what they
//! mean comes out.
//!
//! - [`proto`]: every PDU a session is made of, read and written.
//! - [`connect`]: the order the connection's PDUs go in, up to a live share.
//! - [`framebuffer`]: the desktop, and the damage done to it.
//! - [`gfx`]: the graphics pipeline's surfaces, and how they reach the framebuffer.
//! - [`avc`]: the pipeline's H.264, decoded and put back into colour.
//! - [`egfx`]: what a pipeline client of another's did, in the order to apply it.
//! - [`input`], [`pointer`], [`camera`], [`microphone`]: what passes between a session and
//!   its callers.
//! - [`error`]: what a session failure is.
//! - [`pixels`], [`table`], [`text`]: what the rest is made of.

pub mod avc;
pub mod camera;
pub mod connect;
pub mod egfx;
pub mod error;
pub mod framebuffer;
pub mod gfx;
pub mod input;
pub mod microphone;
pub mod pixels;
pub mod pointer;
pub mod proto;
pub mod table;
pub mod text;
