//! Per-component style declarations.
use vstd::prelude::*;
use vstd::string::StringExecFns;
use crate::css::StyleSource;
use crate::css::model::scoped_stylesheet;
use crate::css::scoper::CssScoper;
use crate::scope_id::{content_attr_name, host_attr_name, scope_name, ScopeId};

verus! {

/// Declares the scoped styles for a component.
///
/// Construct one of these once per component. The CSS is scoped with the
/// attributes derived from the component's name.
pub struct ComponentStyle {
    /// Application-unique component name.  Used to derive the [`ScopeId`].
    name: &'static str,
    /// Raw style source before compilation / scoping.
    source: StyleSource,
    /// When `true`, CSS is injected as-is (document-global). Use for `:root`,
    /// `*` resets, and other rules that must not receive `[_leptoscontent-*]`.
    skip_scoping: bool,
}

/// The stylesheet that a style declaration injects: the source itself when
/// scoping is skipped, otherwise the source scoped with the attributes of the
/// scope derived from `name`.
pub open spec fn injected_css(name: Seq<char>, source: Seq<char>, skip_scoping: bool) -> Seq<char> {
    if skip_scoping {
        source
    } else {
        scoped_stylesheet(
            host_attr_name(scope_name(name)),
            content_attr_name(scope_name(name)),
            source,
        )
    }
}

/// A global stylesheet is injected exactly as written, and a scoped one is
/// the source rewritten with the host and content attributes of the scope
/// derived from the component's name.
pub proof fn lemma_injected_css_by_kind(name: Seq<char>, source: Seq<char>)
    ensures
        injected_css(name, source, true) == source,
        injected_css(name, source, false) == scoped_stylesheet(
            "_leptoshost-"@ + scope_name(name),
            "_leptoscontent-"@ + scope_name(name),
            source,
        ),
{
}

impl ComponentStyle {
    /// The component name.
    pub closed spec fn name(&self) -> Seq<char> {
        self.name@
    }

    /// The stylesheet source text.
    pub closed spec fn source(&self) -> Seq<char> {
        self.source.text()
    }

    /// Whether the stylesheet is injected without selector rewriting.
    pub closed spec fn skips_scoping(&self) -> bool {
        self.skip_scoping
    }

    /// Create a `ComponentStyle` from a plain CSS string.
    ///
    /// `name` must be unique across all components in the application.
    pub fn css(name: &'static str, css: &'static str) -> (s: Self)
        ensures
            s.name() == name@,
            s.source() == css@,
            !s.skips_scoping(),
    {
        Self { name, source: StyleSource::Css(css), skip_scoping: false }
    }

    /// Like [`Self::css`], but the stylesheet is injected **without** selector
    /// rewriting (no `_leptoshost` / `_leptoscontent` attributes).
    ///
    /// Use this for global design tokens (`:root { --token: … }`), universal
    /// resets (`* { box-sizing: … }`), and any CSS that must apply to the
    /// whole document.
    pub fn global_css(name: &'static str, css: &'static str) -> (s: Self)
        ensures
            s.name() == name@,
            s.source() == css@,
            s.skips_scoping(),
    {
        Self { name, source: StyleSource::Css(css), skip_scoping: true }
    }

    /// Returns the fully scoped CSS string.
    pub fn scoped_css(&self) -> (css: String)
        ensures
            css@ == injected_css(self.name(), self.source(), self.skips_scoping()),
    {
        let raw_css = self.compile_source();
        if self.skip_scoping {
            raw_css
        } else {
            let id = ScopeId::from_name(self.name);
            let host_attr = id.host_attr();
            let content_attr = id.content_attr();
            CssScoper::new(host_attr.as_str(), content_attr.as_str()).scope(raw_css.as_str())
        }
    }

    /// Returns the [`ScopeId`] derived from this component's name.
    pub fn scope_id(&self) -> (id: ScopeId)
        ensures
            id@ == scope_name(self.name()),
    {
        ScopeId::from_name(self.name)
    }

    /// Compile the style source to plain CSS.
    ///
    /// For `StyleSource::Css` this is the source text itself.
    pub fn compile_source(&self) -> (css: String)
        ensures
            css@ == self.source(),
    {
        match &self.source {
            StyleSource::Css(css) => String::from_str(css),
        }
    }
}

} // verus!
