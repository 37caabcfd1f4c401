//! The meaning of selector rewriting, stated over character sequences.
//!
//! Every executable function of the rewriter is specified by one of the
//! functions below; `scoped_stylesheet` is what `CssScoper::scope` returns.
use vstd::prelude::*;
use crate::text::{has_prefix, is_white_space, lemma_trim_len, trim, trim_end, trim_start};

verus! {

/// Least index in `k..n` at which `p` holds, or `n` when there is none.
pub open spec fn first_from(n: int, k: int, p: spec_fn(int) -> bool) -> int
    decreases n - k,
{
    if k >= n {
        n
    } else if p(k) {
        k
    } else {
        first_from(n, k + 1, p)
    }
}

/// `first_from` lies in range, satisfies `p` when it is below `n`, and
/// nothing before it does.
pub proof fn lemma_first_from(n: int, k: int, p: spec_fn(int) -> bool)
    requires
        k <= n,
    ensures
        k <= first_from(n, k, p) <= n,
        first_from(n, k, p) < n ==> p(first_from(n, k, p)),
        forall|j: int| k <= j < first_from(n, k, p) ==> !#[trigger] p(j),
    decreases n - k,
{
    if k < n && !p(k) {
        lemma_first_from(n, k + 1, p);
    }
}

/// An index with no earlier hit that is a hit (or the end) is the first hit.
pub proof fn lemma_first_from_is(n: int, k: int, p: spec_fn(int) -> bool, i: int)
    requires
        k <= i <= n,
        forall|j: int| k <= j < i ==> !#[trigger] p(j),
        i < n ==> p(i),
    ensures
        first_from(n, k, p) == i,
    decreases i - k,
{
    if k < i {
        lemma_first_from_is(n, k + 1, p, i);
    }
}

/// Nesting depth of `open`/`close` after reading `s[0..k]`; a closer that
/// finds depth zero leaves it at zero.
pub open spec fn nest_depth(s: Seq<char>, k: int, open: char, close: char) -> nat
    decreases k,
{
    if k <= 0 {
        0
    } else {
        let d = nest_depth(s, k - 1, open, close);
        if s[k - 1] == open {
            d + 1
        } else if s[k - 1] == close {
            if d > 0 {
                (d - 1) as nat
            } else {
                0
            }
        } else {
            d
        }
    }
}

/// Parenthesis depth before `s[k]`.
pub open spec fn paren_depth(s: Seq<char>, k: int) -> nat {
    nest_depth(s, k, '(', ')')
}

/// Square-bracket depth before `s[k]`.
pub open spec fn bracket_depth(s: Seq<char>, k: int) -> nat {
    nest_depth(s, k, '[', ']')
}

/// One step of scanning a compound selector: the parenthesis depth, the
/// square-bracket depth and the quote character of an open string, after
/// reading `ch`. Inside a string only its closing quote counts.
pub open spec fn scan_step(st: (nat, nat, Option<char>), ch: char) -> (nat, nat, Option<char>) {
    match st.2 {
        Some(q) => if ch == q {
            (st.0, st.1, None)
        } else {
            st
        },
        None => if ch == '\'' || ch == '"' {
            (st.0, st.1, Some(ch))
        } else if ch == '(' {
            (st.0 + 1, st.1, None)
        } else if ch == ')' {
            (if st.0 > 0 {
                (st.0 - 1) as nat
            } else {
                0
            }, st.1, None)
        } else if ch == '[' {
            (st.0, st.1 + 1, None)
        } else if ch == ']' {
            (st.0, if st.1 > 0 {
                (st.1 - 1) as nat
            } else {
                0
            }, None)
        } else {
            st
        },
    }
}

/// Where a scan of `s` stands before `s[k]`.
pub open spec fn scan_state(s: Seq<char>, k: int) -> (nat, nat, Option<char>)
    decreases k,
{
    if k <= 0 {
        (0, 0, None)
    } else {
        scan_step(scan_state(s, k - 1), s[k - 1])
    }
}

/// `s[i]` stands outside every `(...)`, `[...]` and quoted string.
pub open spec fn at_top_level(s: Seq<char>, i: int) -> bool {
    scan_state(s, i) == (0nat, 0nat, None::<char>)
}

/// Number of `open` minus number of `close` in `s[0..k]`.
pub open spec fn balance(s: Seq<char>, k: int, open: char, close: char) -> int
    decreases k,
{
    if k <= 0 {
        0
    } else {
        balance(s, k - 1, open, close) + if s[k - 1] == open {
            1int
        } else if s[k - 1] == close {
            -1int
        } else {
            0int
        }
    }
}

// ── Blocks ────────────────────────────────────────────────────────────────

/// `s[i]` is the `}` that brings the brace balance of `s[0..=i]` to zero.
pub open spec fn closes_block(s: Seq<char>, i: int) -> bool {
    s[i] == '}' && balance(s, i + 1, '{', '}') == 0
}

/// `closes_block` as a predicate on indices.
pub open spec fn closes_block_at(s: Seq<char>) -> spec_fn(int) -> bool {
    |i: int| closes_block(s, i)
}

/// Index of the `}` that closes the `{` at the start of `s`.
pub open spec fn block_end(s: Seq<char>) -> Option<int> {
    let i = first_from(s.len() as int, 0, closes_block_at(s));
    if i < s.len() {
        Some(i)
    } else {
        None
    }
}

/// A block that opens at `s[0]` closes strictly after it.
pub proof fn lemma_block_end_bounds(s: Seq<char>)
    requires
        s.len() > 0,
        s[0] == '{',
    ensures
        block_end(s) matches Some(i) ==> 1 <= i < s.len(),
{
    let p = closes_block_at(s);
    lemma_first_from(s.len() as int, 0, p);
}

// ── `:skip-scope(...)` ────────────────────────────────────────────────────

/// `:skip-scope(`
pub open spec fn skip_scope_open() -> Seq<char> {
    seq![':', 's', 'k', 'i', 'p', '-', 's', 'c', 'o', 'p', 'e', '(']
}

/// `inner[i]` is the `)` that closes the parenthesis opened just before
/// `inner`.
pub open spec fn closes_paren(inner: Seq<char>, i: int) -> bool {
    inner[i] == ')' && 1 + balance(inner, i + 1, '(', ')') == 0
}

/// `closes_paren` as a predicate on indices.
pub open spec fn closes_paren_at(inner: Seq<char>) -> spec_fn(int) -> bool {
    |i: int| closes_paren(inner, i)
}

/// The trimmed argument of a leading `:skip-scope(...)`, when its
/// parenthesis is closed.
pub open spec fn skip_scope_inner(sel: Seq<char>) -> Option<Seq<char>> {
    if has_prefix(sel, skip_scope_open()) {
        let inner = sel.subrange(12, sel.len() as int);
        let i = first_from(inner.len() as int, 0, closes_paren_at(inner));
        if i < inner.len() {
            Some(trim(inner.subrange(0, i)))
        } else {
            None
        }
    } else {
        None
    }
}

// ── Selector lists ────────────────────────────────────────────────────────

/// `s[i]` is a comma outside every `(...)` and `[...]`.
pub open spec fn is_list_sep(s: Seq<char>, i: int) -> bool {
    s[i] == ',' && paren_depth(s, i) == 0 && bracket_depth(s, i) == 0
}

/// `is_list_sep` as a predicate on indices.
pub open spec fn list_sep_at(s: Seq<char>) -> spec_fn(int) -> bool {
    |i: int| is_list_sep(s, i)
}

/// First top-level comma at or after `k`, or `s.len()`.
pub open spec fn next_list_sep(s: Seq<char>, k: int) -> int {
    first_from(s.len() as int, k, list_sep_at(s))
}

/// The non-empty trimmed selectors of `s[start..]`, split at top-level commas.
pub open spec fn list_parts_from(s: Seq<char>, start: int) -> Seq<Seq<char>>
    decreases s.len() - start,
{
    if start < 0 || start > s.len() {
        seq![]
    } else {
        let j = next_list_sep(s, start);
        let part = trim(s.subrange(start, j));
        let rest = if start <= j < s.len() {
            list_parts_from(s, j + 1)
        } else {
            seq![]
        };
        if part.len() > 0 {
            seq![part] + rest
        } else {
            rest
        }
    }
}

/// The selectors of a selector list.
pub open spec fn split_selector_list(s: Seq<char>) -> Seq<Seq<char>> {
    list_parts_from(s, 0)
}

/// `parts` joined with `sep` between neighbours.
pub open spec fn join(parts: Seq<Seq<char>>, sep: Seq<char>) -> Seq<char>
    decreases parts.len(),
{
    if parts.len() == 0 {
        seq![]
    } else if parts.len() == 1 {
        parts[0]
    } else {
        join(parts.drop_last(), sep) + sep + parts.last()
    }
}

// ── Combinators ───────────────────────────────────────────────────────────

/// A descendant, child, next-sibling or subsequent-sibling combinator.
pub open spec fn is_combinator_char(c: char) -> bool {
    c == '>' || c == '+' || c == '~' || is_white_space(c)
}

/// `s[i]` is a combinator outside parentheses, brackets and strings.
pub open spec fn is_top_combinator(s: Seq<char>, i: int) -> bool {
    at_top_level(s, i) && is_combinator_char(s[i])
}

/// `is_top_combinator` as a predicate on indices.
pub open spec fn top_combinator_at(s: Seq<char>) -> spec_fn(int) -> bool {
    |i: int| is_top_combinator(s, i)
}

/// How a combinator is written back out.
pub open spec fn combinator_sep(c: char) -> Seq<char> {
    if c == '>' {
        seq![' ', '>', ' ']
    } else if c == '+' {
        seq![' ', '+', ' ']
    } else if c == '~' {
        seq![' ', '~', ' ']
    } else {
        seq![' ']
    }
}

/// Split `s` at its first top-level combinator into the compound before it,
/// the normalised combinator, and the non-empty rest after it.
pub open spec fn split_combinator(s: Seq<char>) -> Option<(Seq<char>, Seq<char>, Seq<char>)> {
    let i = first_from(s.len() as int, 0, top_combinator_at(s));
    if 0 <= i < s.len() {
        let right = trim_start(s.subrange(i + 1, s.len() as int));
        if right.len() > 0 {
            Some((trim_end(s.subrange(0, i)), combinator_sep(s[i]), right))
        } else {
            None
        }
    } else {
        None
    }
}

/// The selector after a combinator is shorter than the text it was cut from.
pub proof fn lemma_split_combinator_shorter(s: Seq<char>)
    ensures
        split_combinator(s) matches Some(t) ==> t.2.len() < s.len(),
{
    let p = top_combinator_at(s);
    lemma_first_from(s.len() as int, 0, p);
    let i = first_from(s.len() as int, 0, p);
    if 0 <= i < s.len() {
        lemma_trim_len(s.subrange(i + 1, s.len() as int));
    }
}

// ── Attribute insertion ───────────────────────────────────────────────────

/// `s[i]` is a colon outside parentheses, attribute selectors and strings:
/// the start of a pseudo-class or pseudo-element.
pub open spec fn is_top_colon(s: Seq<char>, i: int) -> bool {
    s[i] == ':' && at_top_level(s, i)
}

/// `is_top_colon` as a predicate on indices.
pub open spec fn top_colon_at(s: Seq<char>) -> spec_fn(int) -> bool {
    |i: int| is_top_colon(s, i)
}

/// `attr` inserted before the first top-level colon of `s`, or appended.
pub open spec fn attr_before_pseudo(s: Seq<char>, attr: Seq<char>) -> Seq<char> {
    let i = first_from(s.len() as int, 0, top_colon_at(s));
    if 0 <= i < s.len() {
        s.subrange(0, i) + attr + s.subrange(i, s.len() as int)
    } else {
        s + attr
    }
}

// ── Single selectors ──────────────────────────────────────────────────────

/// `:root`
pub open spec fn root_kw() -> Seq<char> {
    seq![':', 'r', 'o', 'o', 't']
}

/// `:host`
pub open spec fn host_kw() -> Seq<char> {
    seq![':', 'h', 'o', 's', 't']
}

/// `:host(`
pub open spec fn host_open() -> Seq<char> {
    host_kw().push('(')
}

/// `:host ` (followed by a space)
pub open spec fn host_space() -> Seq<char> {
    host_kw().push(' ')
}

/// `:host>`
pub open spec fn host_child() -> Seq<char> {
    host_kw().push('>')
}

/// `[name]`: an attribute-presence selector.
pub open spec fn bracketed(name: Seq<char>) -> Seq<char> {
    seq!['['] + name + seq![']']
}

/// Characters that continue a `:host` compound selector.
pub open spec fn continues_host(c: char) -> bool {
    c == ':' || c == '.' || c == '#' || c == '['
}

/// Index in `s` of the `)` that closes the parenthesis of a leading
/// `:host(`.
pub open spec fn host_paren_close(s: Seq<char>) -> Option<int> {
    let inner = s.subrange(6, s.len() as int);
    let i = first_from(inner.len() as int, 0, closes_paren_at(inner));
    if i < inner.len() {
        Some(6 + i)
    } else {
        None
    }
}

/// A closing parenthesis found after `:host(` lies inside `s`.
pub proof fn lemma_host_paren_close_bounds(s: Seq<char>)
    requires
        s.len() >= 6,
    ensures
        host_paren_close(s) matches Some(j) ==> 6 <= j < s.len(),
{
    let inner = s.subrange(6, s.len() as int);
    lemma_first_from(inner.len() as int, 0, closes_paren_at(inner));
}

/// One selector rewritten for the scope with host attribute `h` and content
/// attribute `c`.
pub open spec fn scope_selector(h: Seq<char>, c: Seq<char>, sel: Seq<char>) -> Seq<char>
    decreases sel.len(), 1int,
{
    let s = trim(sel);
    proof {
        lemma_trim_len(sel);
    }
    if skip_scope_inner(s) is Some {
        skip_scope_inner(s)->0
    } else if has_prefix(s, root_kw()) {
        s
    } else if has_prefix(s, host_open()) && host_paren_close(s) is Some {
        let j = host_paren_close(s)->0;
        proof {
            lemma_host_paren_close_bounds(s);
        }
        bracketed(h) + s.subrange(6, j) + host_tail(h, c, s.subrange(j + 1, s.len() as int))
    } else if has_prefix(s, host_open()) && s.len() >= 7 && s.last() == ')' {
        bracketed(h) + s.subrange(6, s.len() - 1)
    } else if has_prefix(s, host_space()) {
        proof {
            lemma_trim_len(s.subrange(6, s.len() as int));
        }
        bracketed(h) + seq![' '] + scope_selector(h, c, trim(s.subrange(6, s.len() as int)))
    } else if has_prefix(s, host_child()) {
        proof {
            lemma_trim_len(s.subrange(6, s.len() as int));
        }
        bracketed(h) + seq!['>'] + scope_selector(h, c, trim(s.subrange(6, s.len() as int)))
    } else if s == host_kw() {
        bracketed(h)
    } else if has_prefix(s, host_kw()) && s.len() > 5 && continues_host(s[5]) {
        bracketed(h) + host_tail(h, c, s.subrange(5, s.len() as int))
    } else {
        attr_before_pseudo(s, bracketed(c))
    }
}

/// What follows the `:host` part of a host selector: the rest of its
/// compound, then, after the first top-level combinator, the scoped
/// selector that the combinator leads to.
pub open spec fn host_tail(h: Seq<char>, c: Seq<char>, rest: Seq<char>) -> Seq<char>
    decreases rest.len(), 0int,
{
    proof {
        lemma_split_combinator_shorter(rest);
    }
    match split_combinator(rest) {
        Some((subject, sep, tail)) => subject + sep + scope_selector(h, c, tail),
        None => rest,
    }
}

/// `, `
pub open spec fn list_sep() -> Seq<char> {
    seq![',', ' ']
}

/// A selector list rewritten selector by selector.
pub open spec fn scope_selector_list(h: Seq<char>, c: Seq<char>, sel: Seq<char>) -> Seq<char> {
    join(split_selector_list(sel).map_values(|p: Seq<char>| scope_selector(h, c, p)), list_sep())
}

// ── Rules ─────────────────────────────────────────────────────────────────

/// ` {\n`
pub open spec fn at_rule_open() -> Seq<char> {
    seq![' ', '{', '\n']
}

/// ` {`
pub open spec fn rule_open() -> Seq<char> {
    seq![' ', '{']
}

/// `}\n`
pub open spec fn rule_close() -> Seq<char> {
    seq!['}', '\n']
}

/// Whether `css[i]` opens a block.
pub open spec fn open_brace_at(css: Seq<char>) -> spec_fn(int) -> bool {
    |i: int| css[i] == '{'
}

/// Index of the first `{` of `css`, or `css.len()`.
pub open spec fn first_open_brace(css: Seq<char>) -> int {
    first_from(css.len() as int, 0, open_brace_at(css))
}

/// A sequence of rules rewritten: selectors of style rules are scoped and
/// their declaration blocks kept verbatim; at-rule headers are kept and their
/// blocks rewritten in turn; text that does not form a complete rule is kept
/// as it is.
pub open spec fn scope_rules(h: Seq<char>, c: Seq<char>, css: Seq<char>) -> Seq<char>
    decreases css.len(),
{
    let open = first_open_brace(css);
    proof {
        lemma_first_from(css.len() as int, 0, open_brace_at(css));
    }
    if open < css.len() {
        let selector = trim(css.subrange(0, open));
        let after_open = css.subrange(open, css.len() as int);
        proof {
            lemma_block_end_bounds(after_open);
        }
        match block_end(after_open) {
            None => css,
            Some(close) => {
                let body = after_open.subrange(1, close);
                let after = after_open.subrange(close + 1, after_open.len() as int);
                proof {
                    lemma_trim_len(body);
                }
                let head = if selector.len() > 0 && selector[0] == '@' {
                    selector + at_rule_open() + scope_rules(h, c, trim(body)) + rule_close()
                } else {
                    scope_selector_list(h, c, selector) + rule_open() + body + rule_close()
                };
                head + scope_rules(h, c, after)
            },
        }
    } else {
        css
    }
}

/// A stylesheet rewritten for the scope with host attribute `h` and content
/// attribute `c`.
pub open spec fn scoped_stylesheet(h: Seq<char>, c: Seq<char>, css: Seq<char>) -> Seq<char> {
    scope_rules(h, c, trim(css))
}

} // verus!
