//! Stylesheet sources and selector rewriting.
use vstd::prelude::*;

pub mod laws;
pub mod model;
pub mod scoper;

verus! {

/// The raw source of a component's styles, before any compilation or scoping.
///
/// `Css` holds a plain CSS string.
pub enum StyleSource {
    /// A plain CSS string (already valid CSS).
    Css(&'static str),
}

impl StyleSource {
    /// The stylesheet text this source stands for.
    pub open spec fn text(&self) -> Seq<char> {
        match self {
            StyleSource::Css(css) => css@,
        }
    }
}

} // verus!
