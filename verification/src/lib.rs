//! Scoped CSS for components with emulated view encapsulation.
//!
//! Every selector of a component's stylesheet is rewritten to carry the
//! component's content attribute (`[_leptoscontent-{id}]`), `:host` patterns
//! target the host attribute (`[_leptoshost-{id}]`), and a reference count per
//! scope decides when the `<style>` element enters and leaves the document.
pub mod css;
pub mod registry;
pub mod scope_id;
pub mod style;
pub mod text;

pub use css::scoper::CssScoper;
pub use registry::StyleRegistry;
pub use scope_id::ScopeId;
pub use style::ComponentStyle;
