//! A minimal declarative UI layout engine.
//!
//! A markup tree with size hints in mixed units (absolute `dp`, proportional
//! `*`, `content`, `fill`) is turned into a flat, pre-order list of
//! absolutely positioned, coloured rectangles, ready to hand to a renderer.
//!
//! The pipeline has three stages: a bottom-up measurement pass
//! ([`measurer::measure_element_tree`]), a top-down arrangement pass
//! ([`arranger::arrange_layout_tree`]) and a flattening step, all driven by
//! the facade [`layout::generate_layout`].
//!
//! All geometry is carried in whole device-independent units. Leftover
//! space is divided among proportional children by truncating integer
//! division, and a negative leftover (children asking for more absolute
//! space than the parent has) is clamped to zero, so proportional children
//! then receive no space; both choices are stated in the contracts and
//! exercised by tests.

pub mod arranger;
pub mod layout;
pub mod measurer;
pub mod renderer;
pub mod markup;
pub mod text;

pub use markup::MarkupElement;
