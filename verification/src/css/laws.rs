//! What selector rewriting promises, proved over the model of `model.rs`.
use vstd::prelude::*;
use crate::css::model::{
    at_rule_open, attr_before_pseudo, balance, block_end, bracketed, closes_block_at,
    closes_paren_at, first_open_brace, host_child, host_kw, host_open, host_paren_close,
    host_space, host_tail, is_top_colon, lemma_first_from, lemma_first_from_is, list_parts_from,
    list_sep_at, nest_depth, next_list_sep, open_brace_at, root_kw, rule_close, rule_open,
    scan_state, scan_step, scope_rules, scope_selector, scope_selector_list, scoped_stylesheet,
    skip_scope_inner, skip_scope_open, split_combinator, split_selector_list, top_colon_at,
    top_combinator_at,
};
use crate::text::{
    has_prefix, is_white_space, lemma_trim_end_take, lemma_trim_start_skip, lemma_trim_subrange,
    trim, trim_end, trim_start,
};

verus! {

/// Every prefix of `x` has at least as many `open` as `close`, and `x` as a
/// whole has as many of each.
pub open spec fn balanced(x: Seq<char>, open: char, close: char) -> bool {
    &&& forall|k: int| 0 <= k <= x.len() ==> #[trigger] balance(x, k, open, close) >= 0
    &&& balance(x, x.len() as int, open, close) == 0
}

/// Appending text does not change the balance of a prefix.
proof fn lemma_balance_prefix(p: Seq<char>, q: Seq<char>, k: int, open: char, close: char)
    requires
        0 <= k <= p.len(),
    ensures
        balance(p + q, k, open, close) == balance(p, k, open, close),
    decreases k,
{
    if k > 0 {
        lemma_balance_prefix(p, q, k - 1, open, close);
        assert((p + q)[k - 1] == p[k - 1]);
    }
}

/// A leading opener adds one to every later balance.
proof fn lemma_balance_shift(x: Seq<char>, k: int, open: char, close: char)
    requires
        0 <= k <= x.len(),
        open != close,
    ensures
        balance(seq![open] + x, k + 1, open, close) == 1 + balance(x, k, open, close),
    decreases k,
{
    let s = seq![open] + x;
    if k > 0 {
        lemma_balance_shift(x, k - 1, open, close);
        assert(s[k] == x[k - 1]);
    } else {
        assert(s[0] == open);
        assert(balance(s, 0, open, close) == 0);
        assert(balance(x, 0, open, close) == 0);
    }
}

/// A balanced text between an opener and a closer: the first closer that
/// balances the opener is the last character.
proof fn lemma_balanced_block_end(x: Seq<char>)
    requires
        balanced(x, '{', '}'),
    ensures
        block_end(seq!['{'] + x + seq!['}']) == Some(x.len() as int + 1),
{
    let s = seq!['{'] + x + seq!['}'];
    let n = x.len() as int;
    assert forall|j: int| 0 <= j < n + 1 implies !#[trigger] closes_block_at(s)(j) by {
        if j == 0 {
            assert(s[0] == '{');
        } else {
            lemma_balance_prefix(seq!['{'] + x, seq!['}'], j + 1, '{', '}');
            lemma_balance_shift(x, j, '{', '}');
            assert(balance(x, j, '{', '}') >= 0);
        }
    }
    lemma_balance_prefix(seq!['{'] + x, seq!['}'], n + 1, '{', '}');
    lemma_balance_shift(x, n, '{', '}');
    assert(s[n + 1] == '}');
    assert(balance(s, n + 2, '{', '}') == balance(s, n + 1, '{', '}') - 1);
    assert(closes_block_at(s)(n + 1));
    lemma_first_from_is(s.len() as int, 0, closes_block_at(s), n + 1);
}

/// Text that starts with a non-whitespace character is its own `trim_start`.
proof fn lemma_trim_start_noop(s: Seq<char>)
    requires
        s.len() > 0,
        !is_white_space(s[0]),
    ensures
        trim_start(s) == s,
{
}

/// Text that ends with a non-whitespace character is its own `trim_end`.
proof fn lemma_trim_end_noop(s: Seq<char>)
    requires
        s.len() > 0,
        !is_white_space(s.last()),
    ensures
        trim_end(s) == s,
{
}

/// Leading whitespace of `a + b` comes from `a` alone when `b` starts with
/// a non-whitespace character.
proof fn lemma_trim_start_concat(a: Seq<char>, b: Seq<char>)
    requires
        b.len() > 0,
        !is_white_space(b[0]),
    ensures
        trim_start(a + b) == trim_start(a) + b,
    decreases a.len(),
{
    if a.len() == 0 {
        assert(a + b =~= b);
        assert(trim_start(a) + b =~= b);
    } else if is_white_space(a[0]) {
        assert((a + b).drop_first() =~= a.drop_first() + b);
        lemma_trim_start_concat(a.drop_first(), b);
    } else {
        assert((a + b)[0] == a[0]);
    }
}

/// `trim_start` removes all leading whitespace at once.
proof fn lemma_trim_start_idem(s: Seq<char>)
    ensures
        trim_start(trim_start(s)) == trim_start(s),
{
    let k = lemma_trim_start_skip(s);
    if k < s.len() {
        lemma_trim_start_noop(trim_start(s));
    }
}

/// Trimming the start first does not change the trimmed text.
proof fn lemma_trim_of_trim_start(s: Seq<char>)
    ensures
        trim(trim_start(s)) == trim(s),
{
    lemma_trim_start_idem(s);
}

/// A selector that does not begin with `:` is a regular selector: the
/// content attribute goes before its first pseudo-class or pseudo-element
/// outside parentheses, or at its end when it has none.
pub proof fn lemma_regular_selector(h: Seq<char>, c: Seq<char>, sel: Seq<char>)
    requires
        !(trim(sel).len() > 0 && trim(sel)[0] == ':'),
    ensures
        scope_selector(h, c, sel) == attr_before_pseudo(trim(sel), bracketed(c)),
{
    let s = trim(sel);
    assert(!has_prefix(s, skip_scope_open())) by {
        if has_prefix(s, skip_scope_open()) {
            assert(s.subrange(0, 12)[0] == ':');
        }
    }
    assert(!has_prefix(s, root_kw())) by {
        if has_prefix(s, root_kw()) {
            assert(s.subrange(0, 5)[0] == ':');
        }
    }
    assert(!has_prefix(s, host_kw())) by {
        if has_prefix(s, host_kw()) {
            assert(s.subrange(0, 5)[0] == ':');
        }
    }
    assert(!has_prefix(s, host_kw().push('('))) by {
        if has_prefix(s, host_kw().push('(')) {
            assert(s.subrange(0, 6)[0] == ':');
        }
    }
    assert(!has_prefix(s, host_kw().push(' '))) by {
        if has_prefix(s, host_kw().push(' ')) {
            assert(s.subrange(0, 6)[0] == ':');
        }
    }
    assert(!has_prefix(s, host_kw().push('>'))) by {
        if has_prefix(s, host_kw().push('>')) {
            assert(s.subrange(0, 6)[0] == ':');
        }
    }
    assert(s != host_kw()) by {
        if s == host_kw() {
            assert(s[0] == ':');
        }
    }
}

/// Every selector that starts with none of `:root`, `:host` and a closed
/// `:skip-scope(…)` (one that starts with `:` or `::` too) is a regular
/// selector: the content attribute goes before its first pseudo-class or
/// pseudo-element outside parentheses, or at its end when it has none.
pub proof fn lemma_non_keyword_selector_is_regular(h: Seq<char>, c: Seq<char>, sel: Seq<char>)
    requires
        !has_prefix(trim(sel), seq![':', 'r', 'o', 'o', 't']),
        !has_prefix(trim(sel), seq![':', 'h', 'o', 's', 't']),
        skip_scope_inner(trim(sel)) is None,
    ensures
        scope_selector(h, c, sel) == attr_before_pseudo(trim(sel), bracketed(c)),
{
    let s = trim(sel);
    assert(root_kw() =~= seq![':', 'r', 'o', 'o', 't']);
    assert(host_kw() =~= seq![':', 'h', 'o', 's', 't']);
    assert(!has_prefix(s, host_open())) by {
        if has_prefix(s, host_open()) {
            assert(s.subrange(0, 5) =~= host_kw());
        }
    }
    assert(!has_prefix(s, host_kw().push(' '))) by {
        if has_prefix(s, host_kw().push(' ')) {
            assert(s.subrange(0, 5) =~= host_kw());
        }
    }
    assert(!has_prefix(s, host_kw().push('>'))) by {
        if has_prefix(s, host_kw().push('>')) {
            assert(s.subrange(0, 5) =~= host_kw());
        }
    }
    assert(s != host_kw()) by {
        if s == host_kw() {
            assert(s.subrange(0, 5) =~= host_kw());
        }
    }
}

/// A selector without any colon gets the content attribute appended.
pub proof fn lemma_plain_selector_gets_content_attr(h: Seq<char>, c: Seq<char>, sel: Seq<char>)
    requires
        forall|i: int| 0 <= i < sel.len() ==> sel[i] != ':',
    ensures
        scope_selector(h, c, sel) == trim(sel) + bracketed(c),
{
    let r = lemma_trim_subrange(sel);
    let s = trim(sel);
    assert forall|i: int| 0 <= i < s.len() implies s[i] != ':' by {
        assert(s[i] == sel[r.0 + i]);
    }
    lemma_regular_selector(h, c, sel);
    let p = top_colon_at(s);
    lemma_first_from(s.len() as int, 0, p);
}

/// Selectors that start with `:root` stay global: they come out trimmed and
/// otherwise unchanged.
pub proof fn lemma_root_selectors_unscoped(h: Seq<char>, c: Seq<char>, sel: Seq<char>)
    requires
        has_prefix(trim(sel), root_kw()),
    ensures
        scope_selector(h, c, sel) == trim(sel),
{
    let s = trim(sel);
    assert(!has_prefix(s, skip_scope_open())) by {
        if has_prefix(s, skip_scope_open()) {
            assert(s.subrange(0, 12)[1] == 's');
            assert(s.subrange(0, 5)[1] == 'r');
        }
    }
}

/// `:skip-scope(x)` comes out as `x`, trimmed, without any attribute, when
/// the parentheses inside `x` are balanced.
pub proof fn lemma_skip_scope_passthrough(h: Seq<char>, c: Seq<char>, x: Seq<char>)
    requires
        balanced(x, '(', ')'),
    ensures
        scope_selector(h, c, skip_scope_open() + x + seq![')']) == trim(x),
{
    let sel = skip_scope_open() + x + seq![')'];
    let n = x.len() as int;
    lemma_trim_start_noop(sel);
    assert(sel.last() == ')');
    lemma_trim_end_noop(sel);
    assert(trim(sel) == sel);
    assert(sel.subrange(0, 12) =~= skip_scope_open());
    let inner = sel.subrange(12, sel.len() as int);
    assert(inner =~= x + seq![')']);
    assert forall|j: int| 0 <= j < n implies !#[trigger] closes_paren_at(inner)(j) by {
        lemma_balance_prefix(x, seq![')'], j + 1, '(', ')');
    }
    lemma_balance_prefix(x, seq![')'], n, '(', ')');
    assert(inner[n] == ')');
    assert(closes_paren_at(inner)(n));
    lemma_first_from_is(inner.len() as int, 0, closes_paren_at(inner), n);
    assert(inner.subrange(0, n) =~= x);
}

/// Text without any `{` holds no rule: it comes out trimmed and otherwise
/// unchanged.
pub proof fn lemma_text_without_rules_unchanged(h: Seq<char>, c: Seq<char>, css: Seq<char>)
    requires
        forall|i: int| 0 <= i < css.len() ==> css[i] != '{',
    ensures
        scoped_stylesheet(h, c, css) == trim(css),
{
    let r = lemma_trim_subrange(css);
    let t = trim(css);
    assert forall|i: int| 0 <= i < t.len() implies !#[trigger] open_brace_at(t)(i) by {
        assert(t[i] == css[r.0 + i]);
    }
    lemma_first_from_is(t.len() as int, 0, open_brace_at(t), t.len() as int);
}

/// One rule `selector { body }` with a balanced body: a style rule keeps its
/// body verbatim and gets its selector list scoped; an at-rule keeps its
/// header and gets its body rewritten as rules in turn.
pub proof fn lemma_single_rule(h: Seq<char>, c: Seq<char>, sel: Seq<char>, body: Seq<char>)
    requires
        forall|i: int| 0 <= i < sel.len() ==> sel[i] != '{',
        balanced(body, '{', '}'),
    ensures
        scoped_stylesheet(h, c, sel + seq!['{'] + body + seq!['}']) == if trim(sel).len() > 0
            && trim(sel)[0] == '@' {
            trim(sel) + at_rule_open() + scope_rules(h, c, trim(body)) + rule_close()
        } else {
            scope_selector_list(h, c, trim(sel)) + rule_open() + body + rule_close()
        },
{
    let block = seq!['{'] + body + seq!['}'];
    let css = sel + block;
    assert(css =~= sel + seq!['{'] + body + seq!['}']);
    lemma_trim_start_concat(sel, block);
    let a = trim_start(sel);
    let t0 = a + block;
    assert(t0.last() == '}');
    lemma_trim_end_noop(t0);
    assert(trim(css) == t0);
    let k = lemma_trim_start_skip(sel);
    assert forall|i: int| 0 <= i < a.len() implies !#[trigger] open_brace_at(t0)(i) by {
        assert(t0[i] == sel[k + i]);
    }
    assert(t0[a.len() as int] == '{');
    lemma_first_from_is(t0.len() as int, 0, open_brace_at(t0), a.len() as int);
    assert(first_open_brace(t0) == a.len());
    assert(t0.subrange(0, a.len() as int) =~= a);
    lemma_trim_of_trim_start(sel);
    let after_open = t0.subrange(a.len() as int, t0.len() as int);
    assert(after_open =~= block);
    lemma_balanced_block_end(body);
    assert(block.subrange(1, body.len() as int + 1) =~= body);
    let after = block.subrange(body.len() as int + 2, block.len() as int);
    assert(after =~= Seq::<char>::empty());
    lemma_first_from_is(0, 0, open_brace_at(after), 0);
    assert(scope_rules(h, c, after) == after);
    let head = if trim(sel).len() > 0 && trim(sel)[0] == '@' {
        trim(sel) + at_rule_open() + scope_rules(h, c, trim(body)) + rule_close()
    } else {
        scope_selector_list(h, c, trim(sel)) + rule_open() + body + rule_close()
    };
    assert(scope_rules(h, c, t0) == head + scope_rules(h, c, after));
    assert(head + after =~= head);
}

/// A balanced block keeps its end when text follows it.
proof fn lemma_balanced_block_end_then(x: Seq<char>, tail: Seq<char>)
    requires
        balanced(x, '{', '}'),
    ensures
        block_end(seq!['{'] + x + seq!['}'] + tail) == Some(x.len() as int + 1),
{
    let b = seq!['{'] + x + seq!['}'];
    let s = b + tail;
    let n = x.len() as int;
    lemma_balanced_block_end(x);
    lemma_first_from(b.len() as int, 0, closes_block_at(b));
    assert forall|j: int| 0 <= j <= n + 1 implies #[trigger] closes_block_at(s)(j) == closes_block_at(
        b,
    )(j) by {
        lemma_balance_prefix(b, tail, j + 1, '{', '}');
        assert(s[j] == b[j]);
    }
    assert forall|j: int| 0 <= j < n + 1 implies !#[trigger] closes_block_at(s)(j) by {
        assert(closes_block_at(s)(j) == closes_block_at(b)(j));
    }
    assert(closes_block_at(s)(n + 1) == closes_block_at(b)(n + 1));
    lemma_first_from_is(s.len() as int, 0, closes_block_at(s), n + 1);
}

/// Rules are rewritten one after the other: a rule `selector { body }` with
/// a balanced body, followed by any text, comes out as that rule rewritten
/// (a style rule keeps its body verbatim and gets its selector list scoped;
/// an at-rule keeps its header and gets its body rewritten as rules in turn),
/// followed by the rewriting of the text after it.
#[verifier::spinoff_prover]
#[verifier::rlimit(40)]
pub proof fn lemma_rule_then_rest(
    h: Seq<char>,
    c: Seq<char>,
    sel: Seq<char>,
    body: Seq<char>,
    rest: Seq<char>,
)
    requires
        forall|i: int| 0 <= i < sel.len() ==> sel[i] != '{',
        balanced(body, '{', '}'),
    ensures
        scope_rules(h, c, sel + seq!['{'] + body + seq!['}'] + rest) == (if trim(sel).len() > 0
            && trim(sel)[0] == '@' {
            trim(sel) + at_rule_open() + scope_rules(h, c, trim(body)) + rule_close()
        } else {
            scope_selector_list(h, c, trim(sel)) + rule_open() + body + rule_close()
        }) + scope_rules(h, c, rest),
{
    let block = seq!['{'] + body + seq!['}'];
    let after_open = block + rest;
    let css = sel + after_open;
    assert(css =~= sel + seq!['{'] + body + seq!['}'] + rest);
    let n = sel.len() as int;
    assert forall|i: int| 0 <= i < n implies !#[trigger] open_brace_at(css)(i) by {
        assert(css[i] == sel[i]);
    }
    assert(css[n] == '{');
    lemma_first_from_is(css.len() as int, 0, open_brace_at(css), n);
    assert(css.subrange(0, n) =~= sel);
    assert(css.subrange(n, css.len() as int) =~= after_open);
    lemma_balanced_block_end_then(body, rest);
    assert(after_open.subrange(1, body.len() as int + 1) =~= body);
    assert(after_open.subrange(body.len() as int + 2, after_open.len() as int) =~= rest);
}

/// A selector that does not begin with `:` and has no colon outside
/// parentheses, attribute selectors and strings gets the content attribute
/// appended: colons inside `[...]` or quotes are never split.
pub proof fn lemma_no_pseudo_appends_content_attr(h: Seq<char>, c: Seq<char>, sel: Seq<char>)
    requires
        !(trim(sel).len() > 0 && trim(sel)[0] == ':'),
        forall|i: int| 0 <= i < trim(sel).len() ==> !is_top_colon(trim(sel), i),
    ensures
        scope_selector(h, c, sel) == trim(sel) + bracketed(c),
{
    let s = trim(sel);
    lemma_regular_selector(h, c, sel);
    let p = top_colon_at(s);
    lemma_first_from(s.len() as int, 0, p);
}

/// `:host(x)` followed by more of the compound or by a combinator: the host
/// attribute replaces `:host(...)`, `x` is kept, and what follows is
/// rewritten as the rest of a host selector.
pub proof fn lemma_host_paren_selector(h: Seq<char>, c: Seq<char>, x: Seq<char>, rest: Seq<char>)
    requires
        balanced(x, '(', ')'),
        rest.len() > 0 ==> !is_white_space(rest.last()),
    ensures
        scope_selector(h, c, host_kw() + seq!['('] + x + seq![')'] + rest) == bracketed(h) + x
            + host_tail(h, c, rest),
{
    let s = host_kw() + seq!['('] + x + seq![')'] + rest;
    let n = x.len() as int;
    lemma_trim_start_noop(s);
    assert(s.last() == if rest.len() > 0 {
        rest.last()
    } else {
        ')'
    });
    lemma_trim_end_noop(s);
    assert(trim(s) == s);
    assert(!has_prefix(s, skip_scope_open())) by {
        if has_prefix(s, skip_scope_open()) {
            assert(s.subrange(0, 12)[1] == 's');
        }
    }
    assert(!has_prefix(s, root_kw())) by {
        if has_prefix(s, root_kw()) {
            assert(s.subrange(0, 5)[1] == 'r');
        }
    }
    assert(s.subrange(0, 6) =~= host_open());
    let inner = s.subrange(6, s.len() as int);
    assert(inner =~= x + (seq![')'] + rest));
    assert forall|j: int| 0 <= j < n implies !#[trigger] closes_paren_at(inner)(j) by {
        lemma_balance_prefix(x, seq![')'] + rest, j + 1, '(', ')');
    }
    lemma_balance_prefix(x, seq![')'] + rest, n, '(', ')');
    assert(balance(inner, n + 1, '(', ')') == balance(inner, n, '(', ')') - 1);
    assert(closes_paren_at(inner)(n));
    lemma_first_from_is(inner.len() as int, 0, closes_paren_at(inner), n);
    assert(host_paren_close(s) == Some(6 + n));
    assert(s.subrange(6, 6 + n) =~= x);
    assert(s.subrange(7 + n, s.len() as int) =~= rest);
}

/// `:host(x) y` with a descendant combinator: the host attribute with `x`,
/// a space, then `y` scoped as a selector of the component's content.
pub proof fn lemma_host_paren_descendant(h: Seq<char>, c: Seq<char>, x: Seq<char>, y: Seq<char>)
    requires
        balanced(x, '(', ')'),
        y.len() > 0,
        !is_white_space(y[0]),
        !is_white_space(y.last()),
    ensures
        scope_selector(h, c, host_kw() + seq!['('] + x + seq![')', ' '] + y) == bracketed(h) + x
            + seq![' '] + scope_selector(h, c, y),
{
    let rest = seq![' '] + y;
    assert(host_kw() + seq!['('] + x + seq![')', ' '] + y =~= host_kw() + seq!['('] + x + seq![
        ')',
    ] + rest);
    assert(rest.last() == y.last());
    lemma_host_paren_selector(h, c, x, rest);
    assert(scan_state(rest, 0) == (0nat, 0nat, None::<char>));
    assert(top_combinator_at(rest)(0));
    lemma_first_from_is(rest.len() as int, 0, top_combinator_at(rest), 0);
    assert(rest.subrange(1, rest.len() as int) =~= y);
    lemma_trim_start_noop(y);
    assert(rest.subrange(0, 0) =~= Seq::<char>::empty());
    assert(trim_end(Seq::<char>::empty()) =~= Seq::<char>::empty());
    assert(split_combinator(rest) == Some((Seq::<char>::empty(), seq![' '], y)));
    assert(Seq::<char>::empty() + seq![' '] + scope_selector(h, c, y) =~= seq![' ']
        + scope_selector(h, c, y));
}

/// The balance of a concatenation continues from the balance of its first
/// part.
proof fn lemma_balance_concat(p: Seq<char>, q: Seq<char>, j: int, open: char, close: char)
    requires
        0 <= j <= q.len(),
    ensures
        balance(p + q, p.len() + j, open, close) == balance(p, p.len() as int, open, close)
            + balance(q, j, open, close),
    decreases j,
{
    if j == 0 {
        lemma_balance_prefix(p, q, p.len() as int, open, close);
    } else {
        lemma_balance_concat(p, q, j - 1, open, close);
        assert((p + q)[p.len() + j - 1] == q[j - 1]);
    }
}

/// Nesting depth counts nesting: as long as no prefix closes more than it
/// opened, the depth before `s[k]` is the number of openers minus the number
/// of closers in `s[0..k]`.
pub proof fn lemma_nest_depth_counts_nesting(s: Seq<char>, k: int, open: char, close: char)
    requires
        0 <= k <= s.len(),
        open != close,
        forall|j: int| 0 <= j <= k ==> #[trigger] balance(s, j, open, close) >= 0,
    ensures
        nest_depth(s, k, open, close) == balance(s, k, open, close),
    decreases k,
{
    if k > 0 {
        lemma_nest_depth_counts_nesting(s, k - 1, open, close);
        assert(balance(s, k, open, close) >= 0);
    }
}

/// A comma of `x` lies inside some `(...)` or `[...]`.
pub open spec fn commas_nested(x: Seq<char>) -> bool {
    forall|i: int|
        0 <= i < x.len() && x[i] == ',' ==> #[trigger] balance(x, i, '(', ')') > 0 || balance(
            x,
            i,
            '[',
            ']',
        ) > 0
}

/// Text that starts and ends with a non-whitespace character.
pub open spec fn is_trimmed_nonempty(x: Seq<char>) -> bool {
    x.len() > 0 && !is_white_space(x[0]) && !is_white_space(x.last())
}

/// Depths in `x + ", " + y` match the counts of each part.
proof fn lemma_pair_depths(s: Seq<char>, x: Seq<char>, y: Seq<char>, open: char, close: char)
    requires
        s == x + seq![',', ' '] + y,
        balanced(x, open, close),
        balanced(y, open, close),
        open != close,
        open != ',' && open != ' ',
        close != ',' && close != ' ',
    ensures
        forall|i: int|
            0 <= i <= x.len() ==> #[trigger] nest_depth(s, i, open, close)
                == balance(x, i, open, close),
        forall|j: int|
            0 <= j <= y.len() ==> #[trigger] nest_depth(s, x.len() + 2 + j, open, close) == balance(y, j, open, close),
{
    let p = x + seq![',', ' '];
    assert(s =~= p + y);
    let n = x.len() as int;
    let z = seq![',', ' '];
    assert(z[0] == ',' && z[1] == ' ');
    assert(balance(z, 0, open, close) == 0);
    assert(balance(z, 1, open, close) == 0);
    assert(balance(z, 2, open, close) == 0);
    lemma_balance_concat(x, seq![',', ' '], 2, open, close);
    assert(balance(p, p.len() as int, open, close) == 0);
    assert forall|k: int| 0 <= k <= s.len() implies #[trigger] balance(s, k, open, close) >= 0 by {
        if k <= n {
            lemma_balance_prefix(x, seq![',', ' '] + y, k, open, close);
            assert(s =~= x + (seq![',', ' '] + y));
        } else if k <= n + 2 {
            lemma_balance_concat(x, seq![',', ' '], k - n, open, close);
            lemma_balance_prefix(p, y, k, open, close);

        } else {
            lemma_balance_concat(p, y, k - n - 2, open, close);
        }
    }
    assert forall|i: int| 0 <= i <= x.len() implies #[trigger] nest_depth(s, i, open, close) == balance(x, i, open, close) by {
        lemma_nest_depth_counts_nesting(s, i, open, close);
        lemma_balance_prefix(x, seq![',', ' '] + y, i, open, close);
        assert(s =~= x + (seq![',', ' '] + y));
    }
    assert forall|j: int| 0 <= j <= y.len() implies #[trigger] nest_depth(s, x.len() + 2 + j, open, close) == balance(y, j, open, close) by {
        lemma_nest_depth_counts_nesting(s, n + 2 + j, open, close);
        lemma_balance_concat(p, y, j, open, close);
    }
}

/// Two selectors joined by `, ` split back into exactly those two, whatever
/// parentheses and brackets they nest: commas inside `(...)` or `[...]`,
/// at any depth, never split.
pub proof fn lemma_split_two_selectors(x: Seq<char>, y: Seq<char>)
    requires
        is_trimmed_nonempty(x),
        is_trimmed_nonempty(y),
        balanced(x, '(', ')'),
        balanced(x, '[', ']'),
        balanced(y, '(', ')'),
        balanced(y, '[', ']'),
        commas_nested(x),
        commas_nested(y),
    ensures
        split_selector_list(x + seq![',', ' '] + y) == seq![x, y],
{
    let s = x + seq![',', ' '] + y;
    let n = x.len() as int;
    lemma_pair_depths(s, x, y, '(', ')');
    lemma_pair_depths(s, x, y, '[', ']');
    assert forall|i: int| 0 <= i < n implies !#[trigger] list_sep_at(s)(i) by {
        assert(s[i] == x[i]);
        assert(nest_depth(s, i, '(', ')') == balance(x, i, '(', ')'));
        assert(nest_depth(s, i, '[', ']') == balance(x, i, '[', ']'));
    }
    assert(s[n] == ',');
    assert(nest_depth(s, n, '(', ')') == balance(x, n, '(', ')'));
    assert(nest_depth(s, n, '[', ']') == balance(x, n, '[', ']'));
    assert(list_sep_at(s)(n));
    lemma_first_from_is(s.len() as int, 0, list_sep_at(s), n);
    assert(s.subrange(0, n) =~= x);
    lemma_trim_start_noop(x);
    lemma_trim_end_noop(x);
    assert forall|i: int| n + 1 <= i < s.len() implies !#[trigger] list_sep_at(s)(i) by {
        if i > n + 1 {
            let j = i - n - 2;
            assert(s[i] == y[j]);
            assert(nest_depth(s, n + 2 + j, '(', ')') == balance(y, j, '(', ')'));
            assert(nest_depth(s, n + 2 + j, '[', ']') == balance(y, j, '[', ']'));
        }
    }
    lemma_first_from_is(s.len() as int, n + 1, list_sep_at(s), s.len() as int);
    let second = s.subrange(n + 1, s.len() as int);
    assert(second =~= seq![' '] + y);
    assert(second.drop_first() =~= y);
    lemma_trim_start_noop(y);
    lemma_trim_end_noop(y);
    assert(trim(second) == y);
    assert(list_parts_from(s, n + 1) =~= seq![y]);
    assert(list_parts_from(s, 0) =~= seq![x] + seq![y]);
    assert(seq![x] + seq![y] =~= seq![x, y]);
}

/// The balance of a slice is the balance of the whole at its end minus the
/// balance at its start.
proof fn lemma_balance_subrange(s: Seq<char>, a: int, b: int, k: int, open: char, close: char)
    requires
        0 <= a <= b <= s.len(),
        0 <= k <= b - a,
    ensures
        balance(s.subrange(a, b), k, open, close) == balance(s, a + k, open, close) - balance(
            s,
            a,
            open,
            close,
        ),
    decreases k,
{
    if k > 0 {
        lemma_balance_subrange(s, a, b, k - 1, open, close);
        assert(s.subrange(a, b)[k - 1] == s[a + k - 1]);
    }
}

/// Characters that are neither `open` nor `close` leave the balance as it is.
proof fn lemma_balance_flat(s: Seq<char>, a: int, b: int, open: char, close: char)
    requires
        0 <= a <= b <= s.len(),
        forall|i: int| a <= i < b ==> #[trigger] s[i] != open && s[i] != close,
    ensures
        balance(s, b, open, close) == balance(s, a, open, close),
    decreases b - a,
{
    if a < b {
        lemma_balance_flat(s, a, b - 1, open, close);
    }
}

/// The pairs of characters that a selector list nests by.
pub open spec fn is_nesting_pair(open: char, close: char) -> bool {
    (open == '(' && close == ')') || (open == '[' && close == ']')
}

/// The trimmed slice of `s` between two points of zero balance is balanced.
proof fn lemma_trimmed_slice_balanced(s: Seq<char>, a: int, b: int, open: char, close: char)
    requires
        0 <= a <= b <= s.len(),
        is_nesting_pair(open, close),
        forall|k: int| 0 <= k <= s.len() ==> #[trigger] balance(s, k, open, close) >= 0,
        balance(s, a, open, close) == 0,
        balance(s, b, open, close) == 0,
    ensures
        balanced(trim(s.subrange(a, b)), open, close),
{
    let sub = s.subrange(a, b);
    let k1 = lemma_trim_start_skip(sub);
    let ts = trim_start(sub);
    let k2 = lemma_trim_end_take(ts);
    let p = a + k1;
    let q = a + k1 + k2;
    assert(trim(sub) =~= s.subrange(p, q));
    assert forall|i: int| a <= i < p implies #[trigger] s[i] != open && s[i] != close by {
        assert(is_white_space(sub[i - a]));
        assert(sub[i - a] == s[i]);
    }
    lemma_balance_flat(s, a, p, open, close);
    assert forall|i: int| q <= i < b implies #[trigger] s[i] != open && s[i] != close by {
        assert(is_white_space(ts[i - p]));
        assert(ts[i - p] == s[i]);
    }
    lemma_balance_flat(s, q, b, open, close);
    let part = s.subrange(p, q);
    assert forall|k: int| 0 <= k <= part.len() implies #[trigger] balance(part, k, open, close)
        >= 0 by {
        lemma_balance_subrange(s, p, q, k, open, close);
    }
    lemma_balance_subrange(s, p, q, q - p, open, close);
}

/// Every part from `start` on is balanced.
proof fn lemma_parts_from_balanced(s: Seq<char>, start: int, open: char, close: char)
    requires
        0 <= start <= s.len(),
        is_nesting_pair(open, close),
        balanced(s, open, close),
        balance(s, start, open, close) == 0,
    ensures
        forall|i: int|
            0 <= i < list_parts_from(s, start).len() ==> balanced(
                #[trigger] list_parts_from(s, start)[i],
                open,
                close,
            ),
    decreases s.len() - start,
{
    let j = next_list_sep(s, start);
    lemma_first_from(s.len() as int, start, list_sep_at(s));
    if j < s.len() {
        assert(list_sep_at(s)(j));
        lemma_nest_depth_counts_nesting(s, j, open, close);
    }
    assert(balance(s, j, open, close) == 0);
    lemma_trimmed_slice_balanced(s, start, j, open, close);
    let part = trim(s.subrange(start, j));
    let rest = if start <= j < s.len() {
        list_parts_from(s, j + 1)
    } else {
        seq![]
    };
    if j < s.len() {
        assert(s[j] == ',');
        assert(balance(s, j + 1, open, close) == 0);
        lemma_parts_from_balanced(s, j + 1, open, close);
    }
    assert forall|i: int| 0 <= i < rest.len() implies balanced(#[trigger] rest[i], open, close) by {
        assert(rest[i] == list_parts_from(s, j + 1)[i]);
    }
    if part.len() > 0 {
        assert(list_parts_from(s, start) =~= seq![part] + rest);
        assert forall|i: int| 0 <= i < list_parts_from(s, start).len() implies balanced(
            #[trigger] list_parts_from(s, start)[i],
            open,
            close,
        ) by {
            if i > 0 {
                assert(list_parts_from(s, start)[i] == rest[i - 1]);
            }
        }
    } else {
        assert(list_parts_from(s, start) =~= rest);
    }
}

/// Splitting a selector list never cuts inside parentheses or brackets:
/// where the list is balanced, so is every selector it splits into, so no
/// part leaves a `(` or `[` unclosed.
pub proof fn lemma_split_parts_balanced(s: Seq<char>, open: char, close: char)
    requires
        is_nesting_pair(open, close),
        balanced(s, open, close),
    ensures
        forall|i: int|
            0 <= i < split_selector_list(s).len() ==> balanced(
                #[trigger] split_selector_list(s)[i],
                open,
                close,
            ),
{
    lemma_parts_from_balanced(s, 0, open, close);
}

/// A selector that starts with `:` (a pseudo-class or pseudo-element such as
/// `::selection`) and is none of `:root…`, `:host…` or a closed
/// `:skip-scope(…)` gets the content attribute in front of it.
pub proof fn lemma_leading_pseudo_gets_content_attr(h: Seq<char>, c: Seq<char>, sel: Seq<char>)
    requires
        trim(sel).len() > 0,
        trim(sel)[0] == ':',
        !has_prefix(trim(sel), seq![':', 'r', 'o', 'o', 't']),
        !has_prefix(trim(sel), seq![':', 'h', 'o', 's', 't']),
        skip_scope_inner(trim(sel)) is None,
    ensures
        scope_selector(h, c, sel) == seq!['['] + c + seq![']'] + trim(sel),
{
    lemma_non_keyword_selector_is_regular(h, c, sel);
    let s = trim(sel);
    assert(scan_state(s, 0) == (0nat, 0nat, None::<char>));
    assert(top_colon_at(s)(0));
    lemma_first_from_is(s.len() as int, 0, top_colon_at(s), 0);
    assert(s.subrange(0, 0) + bracketed(c) + s.subrange(0, s.len() as int) =~= seq!['['] + c
        + seq![']'] + s);
}

/// `:host` directly followed by a class, id, attribute or pseudo part: the
/// host attribute replaces `:host`, and what follows is kept up to the first
/// top-level combinator, after which the rest is scoped as a selector.
pub proof fn lemma_host_compound_is_host(h: Seq<char>, c: Seq<char>, t: Seq<char>)
    requires
        t.len() > 0,
        t[0] == '.' || t[0] == ':' || t[0] == '#' || t[0] == '[',
        !is_white_space(t.last()),
    ensures
        scope_selector(h, c, seq![':', 'h', 'o', 's', 't'] + t) == seq!['['] + h + seq![']']
            + host_tail(h, c, t),
{
    let s = seq![':', 'h', 'o', 's', 't'] + t;
    lemma_trim_start_noop(s);
    assert(s.last() == t.last());
    lemma_trim_end_noop(s);
    assert(trim(s) == s);
    assert(!has_prefix(s, skip_scope_open())) by {
        if has_prefix(s, skip_scope_open()) {
            assert(s.subrange(0, 12)[1] == 's');
        }
    }
    assert(!has_prefix(s, root_kw())) by {
        if has_prefix(s, root_kw()) {
            assert(s.subrange(0, 5)[1] == 'r');
        }
    }
    assert(s[5] == t[0]);
    assert(!has_prefix(s, host_open())) by {
        if has_prefix(s, host_open()) {
            assert(s.subrange(0, 6)[5] == '(');
        }
    }
    assert(!has_prefix(s, host_space())) by {
        if has_prefix(s, host_space()) {
            assert(s.subrange(0, 6)[5] == ' ');
        }
    }
    assert(!has_prefix(s, host_child())) by {
        if has_prefix(s, host_child()) {
            assert(s.subrange(0, 6)[5] == '>');
        }
    }
    assert(s.subrange(0, 5) =~= host_kw());
    assert(s.len() > 5);
    let rest = s.subrange(5, s.len() as int);
    assert(rest =~= t);
}

/// `:host` directly followed by a class, id, attribute or pseudo compound
/// with no combinator: the host attribute replaces `:host` and the compound
/// is kept, so `:host.active` targets the host element.
pub proof fn lemma_host_compound_targets_host(h: Seq<char>, c: Seq<char>, t: Seq<char>)
    requires
        t.len() > 0,
        t[0] == '.' || t[0] == ':' || t[0] == '#' || t[0] == '[',
        forall|i: int|
            0 <= i < t.len() ==> !is_white_space(#[trigger] t[i]) && t[i] != '>' && t[i] != '+'
                && t[i] != '~',
    ensures
        scope_selector(h, c, seq![':', 'h', 'o', 's', 't'] + t) == seq!['['] + h + seq![']'] + t,
{
    assert(!is_white_space(t[t.len() - 1]));
    lemma_host_compound_is_host(h, c, t);
    let p = top_combinator_at(t);
    lemma_first_from(t.len() as int, 0, p);
    assert(split_combinator(t) is None);
    assert(host_tail(h, c, t) == t);
}

/// Outside quoted strings the scan counts nesting: while no prefix closes
/// more than it opened and no quote occurs, the scan stands at the number of
/// `(` minus `)` and of `[` minus `]` read so far.
pub proof fn lemma_scan_counts_nesting(s: Seq<char>, k: int)
    requires
        0 <= k <= s.len(),
        forall|i: int| 0 <= i < k ==> #[trigger] s[i] != '\'' && s[i] != '"',
        forall|j: int| 0 <= j <= k ==> #[trigger] balance(s, j, '(', ')') >= 0,
        forall|j: int| 0 <= j <= k ==> #[trigger] balance(s, j, '[', ']') >= 0,
    ensures
        scan_state(s, k).0 == balance(s, k, '(', ')'),
        scan_state(s, k).1 == balance(s, k, '[', ']'),
        scan_state(s, k).2 is None,
    decreases k,
{
    if k > 0 {
        lemma_scan_counts_nesting(s, k - 1);
        assert(s[k - 1] != '\'' && s[k - 1] != '"');
        assert(balance(s, k, '(', ')') >= 0);
        assert(balance(s, k, '[', ']') >= 0);
    }
}

/// Within a quoted string the scan keeps the depths and the quote.
proof fn lemma_scan_in_string(s: Seq<char>, a: int, i: int)
    requires
        0 <= a < i <= s.len(),
        scan_state(s, a).2 is None,
        s[a] == '\'' || s[a] == '"',
        forall|m: int| a < m < i ==> #[trigger] s[m] != s[a],
    ensures
        scan_state(s, i) == (scan_state(s, a).0, scan_state(s, a).1, Some(s[a])),
    decreases i,
{
    if i > a + 1 {
        lemma_scan_in_string(s, a, i - 1);
        assert(s[i - 1] != s[a]);
    }
}

/// Inside a quoted string nothing counts: a scan that meets a quote outside
/// any string goes on past its closing quote with the depths it had.
pub proof fn lemma_scan_skips_string(s: Seq<char>, a: int, e: int)
    requires
        0 <= a < e < s.len(),
        scan_state(s, a).2 is None,
        s[a] == '\'' || s[a] == '"',
        forall|i: int| a < i < e ==> #[trigger] s[i] != s[a],
        s[e] == s[a],
    ensures
        scan_state(s, e + 1) == scan_state(s, a),
{
    lemma_scan_in_string(s, a, e);
    assert(s[e] == s[a]);
    assert(scan_state(s, e + 1) == scan_step(scan_state(s, e), s[e]));
}

} // verus!
