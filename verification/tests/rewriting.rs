use leptos_scoped_style::css::scoper::CssScoper;

fn rewriter() -> CssScoper<'static> {
    CssScoper::new("_leptoshost-abc", "_leptoscontent-abc")
}

#[test]
fn unclosed_block_is_kept_verbatim() {
    assert_eq!(rewriter().scope("div { color: red;"), "div { color: red;");
}

#[test]
fn text_without_rules_is_trimmed_only() {
    assert_eq!(rewriter().scope("  no rules here  "), "no rules here");
}

#[test]
fn empty_stylesheet() {
    assert_eq!(rewriter().scope(""), "");
    assert_eq!(rewriter().scope(" \n\t "), "");
}

#[test]
fn stray_braces_without_block_end() {
    assert_eq!(rewriter().scope("}}{"), "}}{");
}

#[test]
fn host_compound_not_split_inside_parens() {
    assert_eq!(
        rewriter().scope(":host:not(.a .b) .x{}"),
        "[_leptoshost-abc]:not(.a .b) .x[_leptoscontent-abc] {}\n"
    );
}

#[test]
fn host_hover_spaced_child_combinator() {
    assert_eq!(
        rewriter().scope(":host:hover > .x { a: b; }"),
        "[_leptoshost-abc]:hover > .x[_leptoscontent-abc] { a: b; }\n"
    );
}

#[test]
fn unbalanced_skip_scope_is_scoped_normally() {
    assert_eq!(
        rewriter().scope(":skip-scope(.a { x }"),
        "[_leptoscontent-abc]:skip-scope(.a { x }\n"
    );
}

#[test]
fn skip_scope_with_nested_parens() {
    assert_eq!(rewriter().scope(":skip-scope(.a:not(.b)) { x }"), ".a:not(.b) { x }\n");
}

#[test]
fn nested_at_rules() {
    assert_eq!(
        rewriter().scope("@media screen { @supports (display: grid) { .g { display: grid; } } }"),
        "@media screen {\n@supports (display: grid) {\n.g[_leptoscontent-abc] { display: grid; }\n}\n}\n"
    );
}

#[test]
fn regular_selector_with_pseudo_class() {
    assert_eq!(
        rewriter().scope("li.item:first-child{x}"),
        "li.item[_leptoscontent-abc]:first-child {x}\n"
    );
}

#[test]
fn several_rules_and_trailing_text() {
    assert_eq!(
        rewriter().scope("div { }  span { } tail"),
        "div[_leptoscontent-abc] { }\nspan[_leptoscontent-abc] { }\n tail"
    );
}

#[test]
fn host_sibling_combinators() {
    assert_eq!(
        rewriter().scope(":host + .sib {}"),
        "[_leptoshost-abc] + .sib[_leptoscontent-abc] {}\n"
    );
    assert_eq!(
        rewriter().scope(":host ~ .sib{}"),
        "[_leptoshost-abc] ~ .sib[_leptoscontent-abc] {}\n"
    );
}

#[test]
fn host_id_and_attribute_compounds() {
    assert_eq!(rewriter().scope(":host#id.cls{}"), "[_leptoshost-abc]#id.cls {}\n");
    assert_eq!(
        rewriter().scope(":host[open] ~ p{}"),
        "[_leptoshost-abc][open] ~ p[_leptoscontent-abc] {}\n"
    );
}

#[test]
fn comma_inside_attribute_selector_is_not_a_split() {
    assert_eq!(
        rewriter().scope(".a[data-x=\"1,2\"], .b { }"),
        ".a[data-x=\"1,2\"][_leptoscontent-abc], .b[_leptoscontent-abc] { }\n"
    );
}

#[test]
fn mixed_list_of_pseudo_root_and_host() {
    assert_eq!(
        rewriter().scope("a::before, :root.dark, :host {}"),
        "a[_leptoscontent-abc]::before, :root.dark, [_leptoshost-abc] {}\n"
    );
}

#[test]
fn nested_block_body_kept_verbatim() {
    assert_eq!(
        rewriter().scope("div { .nested { x: y; } }"),
        "div[_leptoscontent-abc] { .nested { x: y; } }\n"
    );
}

#[test]
fn at_rule_without_nested_rules() {
    assert_eq!(
        rewriter().scope("@font-face { font-family: x; }"),
        "@font-face {\nfont-family: x;}\n"
    );
}

#[test]
fn host_empty_parens() {
    assert_eq!(rewriter().scope(":host() { a: b; }"), "[_leptoshost-abc] { a: b; }\n");
}

#[test]
fn unicode_whitespace_is_trimmed() {
    assert_eq!(
        rewriter().scope("\u{3000}p\u{a0}{ x }\u{2028}"),
        "p[_leptoscontent-abc] { x }\n"
    );
}

#[test]
fn host_paren_then_descendant() {
    assert_eq!(
        rewriter().scope(":host(.active) .label { a: b; }"),
        "[_leptoshost-abc].active .label[_leptoscontent-abc] { a: b; }\n"
    );
}

#[test]
fn host_paren_then_pseudo_and_child() {
    assert_eq!(
        rewriter().scope(":host(.a):hover > .x {}"),
        "[_leptoshost-abc].a:hover > .x[_leptoscontent-abc] {}\n"
    );
    assert_eq!(
        rewriter().scope(":host(.a)>.b {}"),
        "[_leptoshost-abc].a > .b[_leptoscontent-abc] {}\n"
    );
}

#[test]
fn host_paren_nested_parens() {
    assert_eq!(
        rewriter().scope(":host(:not(.x)) p {}"),
        "[_leptoshost-abc]:not(.x) p[_leptoscontent-abc] {}\n"
    );
}

#[test]
fn colon_inside_attribute_selector_is_not_a_pseudo() {
    assert_eq!(
        rewriter().scope("a[href^='http:'] {}"),
        "a[href^='http:'][_leptoscontent-abc] {}\n"
    );
    assert_eq!(
        rewriter().scope("a[href^=\"http:\"]:hover {}"),
        "a[href^=\"http:\"][_leptoscontent-abc]:hover {}\n"
    );
}

#[test]
fn host_attribute_with_quoted_space_is_not_split() {
    assert_eq!(
        rewriter().scope(":host[title=\"a b\"] .x {}"),
        "[_leptoshost-abc][title=\"a b\"] .x[_leptoscontent-abc] {}\n"
    );
}

#[test]
fn unbalanced_host_paren_strips_final_paren() {
    assert_eq!(rewriter().scope(":host((a) { x }"), "[_leptoshost-abc](a { x }\n");
}
