//! Interaction engine of a mind-mapping editor.
//!
//! A rooted tree of labeled, freely positioned nodes on a 2D canvas,
//! manipulated through pointer and keyboard input.  The crate holds the node
//! store with its tree invariants, the hit tester, selection, drag and pan
//! bookkeeping, rubber-band area selection, and the interaction state machine
//! that dispatches pointer events to those parts.  Rendering and raw browser
//! event handling are left to the host application.
//!
//! All geometry lives in virtual space, measured in whole pixels:
//! `screen coordinate = virtual coordinate + viewport offset`.

pub mod coord;
pub mod engine;
pub mod laws;
pub mod mind_map;
pub mod model;
pub mod node;
