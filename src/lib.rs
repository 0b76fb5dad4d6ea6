//! Optimal paragraph reformatting: text is split into paragraphs of tagged
//! words, each paragraph is broken into lines by a dynamic program that
//! minimises the total badness of its lines, and the chosen lines are
//! rendered back to text.

pub mod text;
pub mod cost;
pub mod breaker;
pub mod laws;
pub mod render;

pub use text::Word;
pub use tokenize::tokenize;
pub use breaker::{fits_measure, line_lengths, reformat, Args, Paragraph};
pub use cost::{badness, MAX_MEASURE};
pub mod tokenize;
pub mod roundtrip;
