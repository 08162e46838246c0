//! kaiseki -- literate programming preprocessing
//!
//! Reassembles ("tangles") lines of text drawn from one or more input
//! streams into a single linear output, according to inline anchor
//! directives embedded in the text.

pub mod laws;
pub mod list;
pub mod parsing;
pub mod tangle;

pub use tangle::OutputOptions;
pub use tangle::SourceFile;
pub use tangle::TangleError;
pub use tangle::tangle_output;
