use leptos_scoped_style::css::scoper::CssScoper;

fn scoper() -> CssScoper<'static> {
    CssScoper::new("_leptoshost-abc", "_leptoscontent-abc")
}

#[test]
fn host_hover_compound() {
    let out = scoper().scope(":host:hover { color: blue; }");
    assert_eq!(out.trim(), "[_leptoshost-abc]:hover { color: blue; }");
}

#[test]
fn host_before_compound() {
    let out = scoper().scope(":host::before { content: ''; }");
    assert_eq!(out.trim(), "[_leptoshost-abc]::before { content: ''; }");
}

#[test]
fn host_hover_descendant_scopes_tail() {
    let out = scoper().scope(":host:hover .label { opacity: 1; }");
    assert_eq!(
        out.trim(),
        "[_leptoshost-abc]:hover .label[_leptoscontent-abc] { opacity: 1; }"
    );
}

#[test]
fn host_hover_child_combinator() {
    let out = scoper().scope(":host:hover>.track { height: 2px; }");
    assert_eq!(
        out.trim(),
        "[_leptoshost-abc]:hover > .track[_leptoscontent-abc] { height: 2px; }"
    );
}

#[test]
fn plain_element() {
    let out = scoper().scope("div { color: red; }");
    assert_eq!(out.trim(), "div[_leptoscontent-abc] { color: red; }");
}

#[test]
fn pseudo_class() {
    let out = scoper().scope("a:hover { color: blue; }");
    assert_eq!(out.trim(), "a[_leptoscontent-abc]:hover { color: blue; }");
}

#[test]
fn pseudo_element() {
    let out = scoper().scope("input::placeholder { color: grey; }");
    assert_eq!(out.trim(), "input[_leptoscontent-abc]::placeholder { color: grey; }");
}

#[test]
fn host_bare() {
    let out = scoper().scope(":host { display: block; }");
    assert_eq!(out.trim(), "[_leptoshost-abc] { display: block; }");
}

#[test]
fn host_with_class() {
    let out = scoper().scope(":host(.active) { color: green; }");
    assert_eq!(out.trim(), "[_leptoshost-abc].active { color: green; }");
}

#[test]
fn host_descendant() {
    let out = scoper().scope(":host .child { font-size: 1rem; }");
    assert_eq!(
        out.trim(),
        "[_leptoshost-abc] .child[_leptoscontent-abc] { font-size: 1rem; }"
    );
}

#[test]
fn host_child_combinator() {
    let out = scoper().scope(":host>span { margin: 0; }");
    assert_eq!(out.trim(), "[_leptoshost-abc]>span[_leptoscontent-abc] { margin: 0; }");
}

#[test]
fn media_query_recursion() {
    let css = "@media (max-width: 600px) { div { color: red; } }";
    let out = scoper().scope(css);
    assert!(out.contains("@media (max-width: 600px)"));
    assert!(out.contains("div[_leptoscontent-abc]"));
}

#[test]
fn comma_separated_selectors() {
    let out = scoper().scope("h1, h2 { font-weight: bold; }");
    assert!(out.contains("h1[_leptoscontent-abc]"));
    assert!(out.contains("h2[_leptoscontent-abc]"));
}

#[test]
fn root_selector_unscoped() {
    let out = scoper().scope(":root { --x: 1; }");
    assert_eq!(out.trim(), ":root { --x: 1; }");
}

#[test]
fn root_compound_and_descendant_unscoped() {
    let out = scoper().scope(":root.dark { color: red; }");
    assert_eq!(out.trim(), ":root.dark { color: red; }");

    let out = scoper().scope(":root .theme { --y: 2; }");
    assert_eq!(out.trim(), ":root .theme { --y: 2; }");
}

#[test]
fn root_with_sibling_selector_still_unscoped() {
    let out = scoper().scope(":root, .panel { margin: 0; }");
    assert!(out.contains(":root"));
    assert!(out.contains(".panel[_leptoscontent-abc]"));
}

#[test]
fn skip_scope_removes_wrapper() {
    let out = scoper().scope(":skip-scope(.pul-portal) { z-index: 9; }");
    assert_eq!(out.trim(), ".pul-portal { z-index: 9; }");
}

#[test]
fn skip_scope_comma_inside_one_selector() {
    let out =
        scoper().scope(":skip-scope(.a, .b:hover) { color: red; }");
    assert_eq!(out.trim(), ".a, .b:hover { color: red; }");
}

#[test]
fn skip_scope_mixed_with_scoped_selector() {
    let out = scoper().scope(":skip-scope(.global), div { display: block; }");
    assert_eq!(
        out.trim(),
        ".global, div[_leptoscontent-abc] { display: block; }"
    );
}

#[test]
fn comma_inside_is_not_selector_list_split() {
    let out = scoper().scope(":is(.a, .b) { margin: 0; }");
    assert_eq!(
        out.trim(),
        "[_leptoscontent-abc]:is(.a, .b) { margin: 0; }"
    );
}
