//! Rewrites CSS selectors to include scope attributes so styles are isolated
//! to a single component.
//!
//! | Input | Output |
//! |---|---|
//! | `div { }` | `div[_leptoscontent-{id}] { }` |
//! | `a:hover { }` | `a[_leptoscontent-{id}]:hover { }` |
//! | `a[href^='http:'] { }` | `a[href^='http:'][_leptoscontent-{id}] { }` |
//! | `:host { }` | `[_leptoshost-{id}] { }` |
//! | `:host(.cls) { }` | `[_leptoshost-{id}].cls { }` |
//! | `:host(.cls) .x { }` | `[_leptoshost-{id}].cls .x[_leptoscontent-{id}] { }` |
//! | `:host .child { }` | `[_leptoshost-{id}] .child[_leptoscontent-{id}] { }` |
//! | `:host:hover { }`, `:host::before { }` | `[_leptoshost-{id}]:hover`, … |
//! | `:host:hover .x { }` | `[_leptoshost-{id}]:hover .x[_leptoscontent-{id}]` |
//! | `:root { }`, `:root .x { }`, … | passed through unchanged (document-level) |
//! | `:skip-scope(sel)` | `sel` unchanged, without the content attribute |
//! | `@media (…) { div { } }` | at-rule header passed through; inner selectors scoped |
//!
//! `:skip-scope` is compile-time sugar only (invalid in real CSS).
use vstd::prelude::*;
use vstd::slice::slice_subrange;
use crate::css::model::{
    attr_before_pseudo, balance, block_end, bracket_depth, bracketed, closes_block_at,
    closes_paren_at, combinator_sep, first_from, first_open_brace, host_child, host_kw, host_open, host_space,
    is_combinator_char, join, lemma_block_end_bounds, lemma_first_from, lemma_first_from_is,
    lemma_split_combinator_shorter, list_parts_from, list_sep, list_sep_at, open_brace_at,
    paren_depth, root_kw, scope_rules, scope_selector, scope_selector_list, scoped_stylesheet,
    skip_scope_inner, skip_scope_open, split_combinator, host_tail, scan_state, scan_step, split_selector_list, top_colon_at,
    top_combinator_at,
};
use crate::text::{
    is_whitespace_char, lemma_trim_len, push_char, push_chars, push_str,
    starts_with_str, to_chars, trim_chars, trim_end_chars, trim_start_chars,
};

verus! {

broadcast use vstd::string::group_string_axioms;

/// Rewrites the selectors of a stylesheet so that they only match inside one
/// component: `host_attr` marks the component's host element and
/// `content_attr` every element of its own view.
pub struct CssScoper<'a> {
    host_attr: &'a str,
    content_attr: &'a str,
}

/// The character sequences of a list of slices.
pub open spec fn slice_views(v: Seq<&[char]>) -> Seq<Seq<char>> {
    v.map_values(|p: &[char]| p@)
}

impl<'a> CssScoper<'a> {
    /// The host attribute name.
    pub closed spec fn host(&self) -> Seq<char> {
        self.host_attr@
    }

    /// The content attribute name.
    pub closed spec fn content(&self) -> Seq<char> {
        self.content_attr@
    }

    /// Create a new scoper.
    ///
    /// * `host_attr`    — attribute name for the host element, e.g. `_leptoshost-c1a2b3c4`
    /// * `content_attr` — attribute name for content elements, e.g. `_leptoscontent-c1a2b3c4`
    pub fn new(host_attr: &'a str, content_attr: &'a str) -> (s: Self)
        ensures
            s.host() == host_attr@,
            s.content() == content_attr@,
    {
        Self { host_attr, content_attr }
    }

    /// Rewrite all selectors in `css`, returning the scoped CSS string.
    pub fn scope(&self, css: &str) -> (res: String)
        ensures
            res@ == scoped_stylesheet(self.host(), self.content(), css@),
    {
        let chars = to_chars(css);
        let mut output = String::new();
        self.scope_rules(trim_chars(chars.as_slice()), &mut output);
        output
    }

    // ── Rule iteration (brace counting) ──────────────────────────────────

    fn scope_rules(&self, css: &[char], out: &mut String)
        ensures
            final(out)@ == old(out)@ + scope_rules(self.host(), self.content(), css@),
        decreases css@.len(),
    {
        let ghost h = self.host();
        let ghost c = self.content();
        let mut rest: &[char] = css;
        loop
            invariant
                old(out)@ + scope_rules(h, c, css@) == out@ + scope_rules(h, c, rest@),
                rest@.len() <= css@.len(),
                h == self.host(),
                c == self.content(),
            decreases rest@.len(),
        {
            let open = find_open_brace(rest);
            proof {
                lemma_first_from(rest@.len() as int, 0, open_brace_at(rest@));
            }
            if open == rest.len() {
                push_chars(out, rest);
                return;
            }
            let selector_text = trim_chars(slice_subrange(rest, 0, open));
            let after_open = slice_subrange(rest, open, rest.len());
            proof {
                assert(after_open@[0] == rest@[open as int]);
                lemma_block_end_bounds(after_open@);
                lemma_first_from_is(after_open@.len() as int, 0, open_brace_at(after_open@), 0);
            }
            let close = match find_block_end(after_open) {
                Some(i) => i,
                None => {
                    push_chars(out, rest);
                    return;
                },
            };
            let block_body = slice_subrange(after_open, 1, close);
            let after_block = slice_subrange(after_open, close + 1, after_open.len());
            let ghost before = out@;
            if selector_text.len() > 0 && selector_text[0] == '@' {
                // At-rule (@media, @supports, @layer …): pass the header through
                // and recurse into the block body so inner selectors are scoped.
                push_chars(out, selector_text);
                push_char(out, ' ');
                push_char(out, '{');
                push_char(out, '\n');
                let inner = trim_chars(block_body);
                proof {
                    lemma_trim_len(block_body@);
                }
                self.scope_rules(inner, out);
                push_char(out, '}');
                push_char(out, '\n');
                assert(out@ == before + (selector_text@ + seq![' ', '{', '\n'] + scope_rules(
                    h,
                    c,
                    inner@,
                ) + seq!['}', '\n']));
            } else {
                let scoped = self.scope_selector_list(selector_text);
                push_str(out, scoped.as_str());
                push_char(out, ' ');
                push_char(out, '{');
                push_chars(out, block_body);
                push_char(out, '}');
                push_char(out, '\n');
                assert(out@ == before + (scoped@ + seq![' ', '{'] + block_body@ + seq!['}', '\n']));
            }
            rest = after_block;
        }
    }

    // ── Selector list ─────────────────────────────────────────────────────

    fn scope_selector_list(&self, selectors: &[char]) -> (res: String)
        ensures
            res@ == scope_selector_list(self.host(), self.content(), selectors@),
    {
        let parts = split_selector_list_top_level(selectors);
        let ghost mapped = split_selector_list(selectors@).map_values(
            |p: Seq<char>| scope_selector(self.host(), self.content(), p),
        );
        let mut out = String::new();
        let n = parts.len();
        let mut k: usize = 0;
        while k < n
            invariant
                k <= n,
                n == parts@.len(),
                slice_views(parts@) == split_selector_list(selectors@),
                mapped == split_selector_list(selectors@).map_values(
                    |p: Seq<char>| scope_selector(self.host(), self.content(), p),
                ),
                out@ == join(mapped.take(k as int), list_sep()),
            decreases n - k,
        {
            let part = parts[k];
            assert(part@ == slice_views(parts@)[k as int]);
            let scoped = self.scope_one_selector(part);
            let ghost before = out@;
            if k > 0 {
                push_char(&mut out, ',');
                push_char(&mut out, ' ');
            }
            push_str(&mut out, scoped.as_str());
            proof {
                assert(mapped.take(k + 1).drop_last() =~= mapped.take(k as int));
                if k == 0 {
                    assert(out@ =~= mapped.take(1)[0]);
                } else {
                    assert(out@ =~= before + list_sep() + mapped.take(k + 1).last());
                }
            }
            k = k + 1;
        }
        assert(mapped.take(n as int) =~= mapped);
        out
    }

    // ── Single selector ───────────────────────────────────────────────────

    /// Appends `[host_attr]` to `out`.
    fn push_host(&self, out: &mut String)
        ensures
            final(out)@ == old(out)@ + bracketed(self.host()),
    {
        push_char(out, '[');
        push_str(out, self.host_attr);
        push_char(out, ']');
    }

    fn scope_one_selector(&self, selector: &[char]) -> (res: String)
        ensures
            res@ == scope_selector(self.host(), self.content(), selector@),
        decreases selector@.len(),
    {
        let s = trim_chars(selector);
        proof {
            lemma_trim_len(selector@);
            reveal_strlit(":root");
            reveal_strlit(":host(");
            reveal_strlit(":host ");
            reveal_strlit(":host>");
            reveal_strlit(":host");
            assert(":root"@ =~= root_kw());
            assert(":host("@ =~= host_open());
            assert(":host "@ =~= host_space());
            assert(":host>"@ =~= host_child());
            assert(":host"@ =~= host_kw());
        }
        // :skip-scope(inner) → inner (compile-time only; not valid CSS in browsers)
        if let Some(inner) = extract_skip_scope_inner(s) {
            let mut out = String::new();
            push_chars(&mut out, inner);
            return out;
        }
        // `:root` and selectors that start with `:root` stay global (CSS variables,
        // theme tokens, etc.).
        if starts_with_str(s, ":root") {
            let mut out = String::new();
            push_chars(&mut out, s);
            return out;
        }
        let len = s.len();
        // :host(.foo) → [host].foo, and :host(.foo) .child →
        // [host].foo .child[content]; an unbalanced :host(...) that ends
        // in `)` keeps everything between `:host(` and that `)`
        if starts_with_str(s, ":host(") {
            let inner = slice_subrange(s, 6, len);
            if let Some(i) = find_paren_close(inner) {
                let j = 6 + i;
                let rest = slice_subrange(s, j + 1, len);
                let tail = self.scope_host_tail(rest);
                let mut out = String::new();
                self.push_host(&mut out);
                push_chars(&mut out, slice_subrange(s, 6, j));
                push_str(&mut out, tail.as_str());
                return out;
            }
            // No balancing `)`: strip the final one, if any.
            if len >= 7 && s[len - 1] == ')' {
                let mut out = String::new();
                self.push_host(&mut out);
                push_chars(&mut out, slice_subrange(s, 6, len - 1));
                return out;
            }
        }
        // :host .child → [host] .child[content]
        if starts_with_str(s, ":host ") {
            let rest = trim_chars(slice_subrange(s, 6, len));
            proof {
                lemma_trim_len(s@.subrange(6, len as int));
            }
            let scoped_rest = self.scope_one_selector(rest);
            let mut out = String::new();
            self.push_host(&mut out);
            push_char(&mut out, ' ');
            push_str(&mut out, scoped_rest.as_str());
            return out;
        }
        // :host>.child → [host]>.child[content]
        if starts_with_str(s, ":host>") {
            let rest = trim_chars(slice_subrange(s, 6, len));
            proof {
                lemma_trim_len(s@.subrange(6, len as int));
            }
            let scoped_rest = self.scope_one_selector(rest);
            let mut out = String::new();
            self.push_host(&mut out);
            push_char(&mut out, '>');
            push_str(&mut out, scoped_rest.as_str());
            return out;
        }
        let host_prefix = starts_with_str(s, ":host");
        // :host (bare) → [host]
        if host_prefix && len == 5 {
            assert(s@ =~= host_kw());
            let mut out = String::new();
            self.push_host(&mut out);
            return out;
        }
        proof {
            if s@ == host_kw() {
                assert(s@.subrange(0, 5) =~= host_kw());
            }
        }
        // :host:hover, :host::before, :host[attr], :host.foo, optionally followed
        // by a combinator and more selectors.
        if host_prefix && len > 5 && (s[5] == ':' || s[5] == '.' || s[5] == '#' || s[5] == '[') {
            let tail = self.scope_host_tail(slice_subrange(s, 5, len));
            let mut out = String::new();
            self.push_host(&mut out);
            push_str(&mut out, tail.as_str());
            return out;
        }
        // Regular selector: insert [content] before the first pseudo-class /
        // pseudo-element that is outside of parentheses.
        let mut attr = String::new();
        push_char(&mut attr, '[');
        push_str(&mut attr, self.content_attr);
        push_char(&mut attr, ']');
        insert_before_pseudo(s, attr.as_str())
    }

    /// What follows the `:host` part of a host selector (e.g. `:hover`,
    /// `:hover .child`, ` > .child`).
    fn scope_host_tail(&self, rest: &[char]) -> (res: String)
        ensures
            res@ == host_tail(self.host(), self.content(), rest@),
        decreases rest@.len(),
    {
        proof {
            lemma_split_combinator_shorter(rest@);
        }
        match split_top_level_combinator(rest) {
            Some((host_subject, sep, tail)) => {
                let scoped_tail = self.scope_one_selector(tail);
                let mut out = String::new();
                push_chars(&mut out, host_subject);
                push_str(&mut out, sep);
                push_str(&mut out, scoped_tail.as_str());
                out
            },
            None => {
                let mut out = String::new();
                push_chars(&mut out, rest);
                out
            },
        }
    }
}

// ── Helpers ───────────────────────────────────────────────────────────────

/// Index of the first `{` in `s`, or `s.len()` when there is none.
fn find_open_brace(s: &[char]) -> (i: usize)
    ensures
        i as int == first_open_brace(s@),
{
    let len = s.len();
    let mut i: usize = 0;
    while i < len
        invariant
            i <= len,
            len == s@.len(),
            forall|j: int| 0 <= j < i ==> !#[trigger] open_brace_at(s@)(j),
        decreases len - i,
    {
        if s[i] == '{' {
            proof {
                lemma_first_from_is(len as int, 0, open_brace_at(s@), i as int);
            }
            return i;
        }
        i = i + 1;
    }
    proof {
        lemma_first_from_is(len as int, 0, open_brace_at(s@), len as int);
    }
    len
}

/// Split a selector list on commas that are **outside** `(...)` and `[...]`.
fn split_selector_list_top_level(s: &[char]) -> (parts: Vec<&[char]>)
    ensures
        slice_views(parts@) == split_selector_list(s@),
{
    let len = s.len();
    let mut depth_paren: usize = 0;
    let mut depth_bracket: usize = 0;
    let mut start: usize = 0;
    let mut out: Vec<&[char]> = Vec::new();
    let mut i: usize = 0;
    while i < len
        invariant
            i <= len,
            len == s@.len(),
            start <= i,
            depth_paren as int == paren_depth(s@, i as int),
            depth_bracket as int == bracket_depth(s@, i as int),
            depth_paren <= i,
            depth_bracket <= i,
            forall|j: int| start <= j < i ==> !#[trigger] list_sep_at(s@)(j),
            slice_views(out@) + list_parts_from(s@, start as int) == split_selector_list(s@),
        decreases len - i,
    {
        let ch = s[i];
        if ch == '(' {
            depth_paren = depth_paren + 1;
        } else if ch == ')' {
            depth_paren = if depth_paren > 0 {
                depth_paren - 1
            } else {
                0
            };
        } else if ch == '[' {
            depth_bracket = depth_bracket + 1;
        } else if ch == ']' {
            depth_bracket = if depth_bracket > 0 {
                depth_bracket - 1
            } else {
                0
            };
        } else if ch == ',' && depth_paren == 0 && depth_bracket == 0 {
            proof {
                lemma_first_from_is(len as int, start as int, list_sep_at(s@), i as int);
            }
            let part = trim_chars(slice_subrange(s, start, i));
            let ghost old_out = out@;
            if part.len() > 0 {
                out.push(part);
                assert(slice_views(out@) =~= slice_views(old_out).push(part@));
                assert(slice_views(out@) + list_parts_from(s@, i + 1) =~= slice_views(old_out) + (
                seq![part@] + list_parts_from(s@, i + 1)));
            }
            start = i + 1;
        }
        i = i + 1;
    }
    proof {
        lemma_first_from_is(len as int, start as int, list_sep_at(s@), len as int);
    }
    let last = trim_chars(slice_subrange(s, start, len));
    let ghost old_out = out@;
    if last.len() > 0 {
        out.push(last);
        assert(slice_views(out@) =~= slice_views(old_out).push(last@));
        assert(slice_views(out@) =~= slice_views(old_out) + seq![last@]);
    } else {
        assert(slice_views(out@) =~= slice_views(old_out) + Seq::<Seq<char>>::empty());
    }
    out
}

/// Index of the `)` that closes the parenthesis opened just before `inner`,
/// counting nested parentheses.
fn find_paren_close(inner: &[char]) -> (r: Option<usize>)
    requires
        inner@.len() < usize::MAX,
    ensures
        match r {
            Some(i) => i < inner@.len() && first_from(
                inner@.len() as int,
                0,
                closes_paren_at(inner@),
            ) == i,
            None => first_from(inner@.len() as int, 0, closes_paren_at(inner@)) == inner@.len(),
        },
{
    let len = inner.len();
    let mut depth: usize = 1;
    let mut i: usize = 0;
    while i < len
        invariant
            i <= len,
            len == inner@.len(),
            len < usize::MAX,
            depth as int == 1 + balance(inner@, i as int, '(', ')'),
            1 <= depth <= i + 1,
            forall|j: int| 0 <= j < i ==> !#[trigger] closes_paren_at(inner@)(j),
        decreases len - i,
    {
        let ch = inner[i];
        if ch == '(' {
            depth = depth + 1;
        } else if ch == ')' {
            depth = depth - 1;
            if depth == 0 {
                proof {
                    lemma_first_from_is(len as int, 0, closes_paren_at(inner@), i as int);
                }
                return Some(i);
            }
        }
        i = i + 1;
    }
    proof {
        lemma_first_from_is(len as int, 0, closes_paren_at(inner@), len as int);
    }
    None
}

/// Body of `:skip-scope(...)`, with parentheses balanced.
fn extract_skip_scope_inner(selector: &[char]) -> (r: Option<&[char]>)
    ensures
        match r {
            Some(x) => skip_scope_inner(selector@) == Some(x@),
            None => skip_scope_inner(selector@) is None,
        },
{
    proof {
        reveal_strlit(":skip-scope(");
        assert(":skip-scope("@ =~= skip_scope_open());
    }
    if !starts_with_str(selector, ":skip-scope(") {
        return None;
    }
    let inner = slice_subrange(selector, 12, selector.len());
    match find_paren_close(inner) {
        Some(i) => Some(trim_chars(slice_subrange(inner, 0, i))),
        None => None,
    }
}

/// One step of scanning a compound selector (see `scan_step`).
fn scan_next(paren: usize, bracket: usize, quote: Option<char>, ch: char) -> (r: (
    usize,
    usize,
    Option<char>,
))
    requires
        paren < usize::MAX,
        bracket < usize::MAX,
    ensures
        (r.0 as nat, r.1 as nat, r.2) == scan_step((paren as nat, bracket as nat, quote), ch),
        r.0 <= paren + 1,
        r.1 <= bracket + 1,
{
    match quote {
        Some(q) => {
            if ch == q {
                (paren, bracket, None)
            } else {
                (paren, bracket, quote)
            }
        },
        None => {
            if ch == '\'' || ch == '"' {
                (paren, bracket, Some(ch))
            } else if ch == '(' {
                (paren + 1, bracket, None)
            } else if ch == ')' {
                (if paren > 0 {
                    paren - 1
                } else {
                    0
                }, bracket, None)
            } else if ch == '[' {
                (paren, bracket + 1, None)
            } else if ch == ']' {
                (paren, if bracket > 0 {
                    bracket - 1
                } else {
                    0
                }, None)
            } else {
                (paren, bracket, None)
            }
        },
    }
}

/// Whether a scan state is outside every parenthesis, bracket and string.
fn is_top_state(paren: usize, bracket: usize, quote: Option<char>) -> (b: bool)
    ensures
        b == ((paren as nat, bracket as nat, quote) == (0nat, 0nat, None::<char>)),
{
    paren == 0 && bracket == 0 && match quote {
        None => true,
        Some(_) => false,
    }
}

/// How a combinator character is written between the two compounds.
fn combinator_text(c: char) -> (t: &'static str)
    requires
        is_combinator_char(c),
    ensures
        t@ == combinator_sep(c),
{
    proof {
        reveal_strlit(" > ");
        reveal_strlit(" + ");
        reveal_strlit(" ~ ");
        reveal_strlit(" ");
    }
    if c == '>' {
        assert(" > "@ =~= seq![' ', '>', ' ']);
        " > "
    } else if c == '+' {
        assert(" + "@ =~= seq![' ', '+', ' ']);
        " + "
    } else if c == '~' {
        assert(" ~ "@ =~= seq![' ', '~', ' ']);
        " ~ "
    } else {
        assert(" "@ =~= seq![' ']);
        " "
    }
}

/// Split `s` at the first combinator (` `, `>`, `+`, `~`) outside
/// parentheses, brackets and strings, so that `:not(.a .b)` or
/// `[title="a b"]` is never cut.
fn split_top_level_combinator(s: &[char]) -> (r: Option<(&[char], &'static str, &[char])>)
    ensures
        match r {
            Some(t) => split_combinator(s@) == Some((t.0@, t.1@, t.2@)),
            None => split_combinator(s@) is None,
        },
{
    let len = s.len();
    let mut paren: usize = 0;
    let mut bracket: usize = 0;
    let mut quote: Option<char> = None;
    let mut i: usize = 0;
    while i < len
        invariant
            i <= len,
            len == s@.len(),
            (paren as nat, bracket as nat, quote) == scan_state(s@, i as int),
            paren <= i,
            bracket <= i,
            forall|j: int| 0 <= j < i ==> !#[trigger] top_combinator_at(s@)(j),
        decreases len - i,
    {
        let ch = s[i];
        if is_top_state(paren, bracket, quote) && (ch == '>' || ch == '+' || ch == '~'
            || is_whitespace_char(ch)) {
            proof {
                lemma_first_from_is(len as int, 0, top_combinator_at(s@), i as int);
            }
            let left = trim_end_chars(slice_subrange(s, 0, i));
            let right = trim_start_chars(slice_subrange(s, i + 1, len));
            if right.len() == 0 {
                return None;
            }
            let sep = combinator_text(ch);
            return Some((left, sep, right));
        }
        let next = scan_next(paren, bracket, quote, ch);
        paren = next.0;
        bracket = next.1;
        quote = next.2;
        i = i + 1;
    }
    proof {
        lemma_first_from_is(len as int, 0, top_combinator_at(s@), len as int);
    }
    None
}

/// Insert `attr` into `selector` immediately before the first `:` that is
/// outside parentheses, attribute selectors and strings (i.e., before a
/// pseudo-class or pseudo-element). If no such colon exists, `attr` is
/// appended at the end.
fn insert_before_pseudo(selector: &[char], attr: &str) -> (res: String)
    ensures
        res@ == attr_before_pseudo(selector@, attr@),
{
    let len = selector.len();
    let mut paren: usize = 0;
    let mut bracket: usize = 0;
    let mut quote: Option<char> = None;
    let mut i: usize = 0;
    while i < len
        invariant
            i <= len,
            len == selector@.len(),
            (paren as nat, bracket as nat, quote) == scan_state(selector@, i as int),
            paren <= i,
            bracket <= i,
            forall|j: int| 0 <= j < i ==> !#[trigger] top_colon_at(selector@)(j),
        decreases len - i,
    {
        let ch = selector[i];
        if ch == ':' && is_top_state(paren, bracket, quote) {
            proof {
                lemma_first_from_is(len as int, 0, top_colon_at(selector@), i as int);
            }
            let mut out = String::new();
            push_chars(&mut out, slice_subrange(selector, 0, i));
            push_str(&mut out, attr);
            push_chars(&mut out, slice_subrange(selector, i, len));
            return out;
        }
        let next = scan_next(paren, bracket, quote, ch);
        paren = next.0;
        bracket = next.1;
        quote = next.2;
        i = i + 1;
    }
    proof {
        lemma_first_from_is(len as int, 0, top_colon_at(selector@), len as int);
    }
    let mut out = String::new();
    push_chars(&mut out, selector);
    push_str(&mut out, attr);
    out
}

/// Find the index of the `}` that closes the first `{` in `s`, given that
/// no `}` comes before that `{`.
fn find_block_end(s: &[char]) -> (r: Option<usize>)
    requires
        forall|i: int| 0 <= i < first_open_brace(s@) ==> s@[i] != '}',
    ensures
        match r {
            Some(i) => block_end(s@) == Some(i as int),
            None => block_end(s@) is None,
        },
{
    let len = s.len();
    let ghost first = first_open_brace(s@);
    proof {
        lemma_first_from(len as int, 0, open_brace_at(s@));
        assert forall|j: int| 0 <= j < first implies s@[j] != '}' && s@[j] != '{' by {
            assert(!open_brace_at(s@)(j));
        }
    }
    let mut depth: usize = 0;
    let mut i: usize = 0;
    while i < len
        invariant
            i <= len,
            len == s@.len(),
            first == first_open_brace(s@),
            0 <= first <= len,
            first < len ==> s@[first] == '{',
            forall|j: int| 0 <= j < first ==> s@[j] != '}' && s@[j] != '{',
            depth as int == balance(s@, i as int, '{', '}'),
            depth <= i,
            i <= first ==> depth == 0,
            i > first ==> depth >= 1,
            forall|j: int| 0 <= j < i ==> !#[trigger] closes_block_at(s@)(j),
        decreases len - i,
    {
        let ch = s[i];
        if ch == '{' {
            depth = depth + 1;
        } else if ch == '}' {
            assert(i > first);
            depth = depth - 1;
            if depth == 0 {
                proof {
                    lemma_first_from_is(len as int, 0, closes_block_at(s@), i as int);
                }
                return Some(i);
            }
        }
        i = i + 1;
    }
    proof {
        lemma_first_from_is(len as int, 0, closes_block_at(s@), len as int);
    }
    None
}

} // verus!
