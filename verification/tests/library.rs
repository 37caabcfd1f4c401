use leptos_scoped_style::css::scoper::CssScoper;
use leptos_scoped_style::registry::{
    insert_style_element, style_element_id, StyleInsertion, StyleRegistry,
};
use leptos_scoped_style::text::trim_leading_slashes;
use leptos_scoped_style::{ComponentStyle, ScopeId};

#[test]
fn scope_id_is_djb2_in_lower_hex() {
    assert_eq!(ScopeId::from_name("").as_str(), "00001505");
    assert_eq!(ScopeId::from_name("a").as_str(), "0002b606");
    assert_eq!(ScopeId::from_name("my-button").as_str(), "ab534d14");
    assert_eq!(ScopeId::from_name("my-card").as_str(), "e7f1f392");
}

#[test]
fn scope_id_digest_matches_text() {
    let id = ScopeId::from_name("design-tokens");
    assert_eq!(id.digest(), 0x501ce540);
    assert_eq!(format!("{:08x}", id.digest()), id.as_str());
}

#[test]
fn scope_id_is_eight_lower_hex_digits() {
    for name in ["", "x", "my-button", "ünïcödé", "a much longer component name"] {
        let id = ScopeId::from_name(name);
        assert_eq!(id.as_str().len(), 8);
        assert!(id
            .as_str()
            .chars()
            .all(|c| c.is_ascii_digit() || ('a'..='f').contains(&c)));
    }
}

#[test]
fn scope_id_equality_follows_text() {
    let a = ScopeId::from_name("left");
    let b = ScopeId::from_name("right");
    assert_eq!(a == b, a.as_str() == b.as_str());
    assert_eq!(a.clone(), a);
}

#[test]
fn attribute_names_exact() {
    let id = ScopeId::from_name("my-button");
    assert_eq!(id.host_attr(), "_leptoshost-ab534d14");
    assert_eq!(id.content_attr(), "_leptoscontent-ab534d14");
}

#[test]
fn component_style_scoped_css() {
    let style = ComponentStyle::css(
        "my-button",
        ":host { display: inline-block; } button { color: red; }",
    );
    assert_eq!(
        style.scoped_css(),
        "[_leptoshost-ab534d14] { display: inline-block; }\nbutton[_leptoscontent-ab534d14] { color: red; }\n"
    );
    assert_eq!(style.scope_id(), ScopeId::from_name("my-button"));
}

#[test]
fn global_style_is_injected_verbatim() {
    let css = ":root { --brand: hsl(220 70% 50%); } * { box-sizing: border-box; }";
    let style = ComponentStyle::global_css("design-tokens", css);
    assert_eq!(style.scoped_css(), css);
    assert_eq!(style.compile_source(), css);
}

#[test]
fn registry_counts_mounts() {
    let mut reg = StyleRegistry::new();
    let id = ScopeId::from_name("my-button");
    let other = ScopeId::from_name("my-card");
    assert_eq!(reg.mount_count(&id), 0);
    assert!(reg.inject(&id));
    assert!(!reg.inject(&id));
    assert!(reg.inject(&other));
    assert_eq!(reg.mount_count(&id), 2);
    assert!(!reg.release(&id));
    assert!(reg.release(&id));
    assert_eq!(reg.mount_count(&id), 0);
    assert_eq!(reg.mount_count(&other), 1);
}

#[test]
fn registry_release_without_mount() {
    let mut reg = StyleRegistry::new();
    let id = ScopeId::from_name("never-mounted");
    assert!(!reg.release(&id));
    assert_eq!(reg.mount_count(&id), 0);
}

#[test]
fn release_undoes_inject() {
    let mut reg = StyleRegistry::new();
    let id = ScopeId::from_name("a");
    reg.inject(&id);
    let first = reg.inject(&ScopeId::from_name("b"));
    let last = reg.release(&ScopeId::from_name("b"));
    assert_eq!(first, last);
    assert_eq!(reg.mount_count(&id), 1);
    assert_eq!(reg.mount_count(&ScopeId::from_name("b")), 0);
}

#[test]
fn balanced_mounts_restore_registry() {
    let mut reg = StyleRegistry::new();
    let id = ScopeId::from_name("list-item");
    let mut inserted = Vec::new();
    for _ in 0..3 {
        inserted.push(reg.inject(&id));
    }
    let mut removed = Vec::new();
    for _ in 0..3 {
        removed.push(reg.release(&id));
    }
    assert_eq!(inserted, vec![true, false, false]);
    assert_eq!(removed, vec![false, false, true]);
    assert_eq!(reg.mount_count(&id), 0);
}

#[test]
fn style_element_ids() {
    let id = ScopeId::from_name("my-button");
    assert_eq!(style_element_id(&id), "leptos-scoped-style-ab534d14");
}

#[test]
fn style_insertion_decisions() {
    assert!(matches!(insert_style_element(true, "a{}"), StyleInsertion::AlreadyPresent));
    assert!(matches!(insert_style_element(true, ""), StyleInsertion::AlreadyPresent));
    assert!(matches!(insert_style_element(false, ""), StyleInsertion::EmptyCss));
    assert!(matches!(insert_style_element(false, "a{}"), StyleInsertion::Insert));
}

#[test]
fn leading_slashes_trimmed() {
    assert_eq!(trim_leading_slashes("//src/a.scss"), "src/a.scss");
    assert_eq!(trim_leading_slashes("src/a.scss"), "src/a.scss");
    assert_eq!(trim_leading_slashes("/"), "");
}

fn short_attr_scoper() -> CssScoper<'static> {
    CssScoper::new("h", "c")
}

#[test]
fn law_regular_selector() {
    assert_eq!(short_attr_scoper().scope("  a.b:hover::after { }"), "a.b[c]:hover::after { }\n");
    assert_eq!(short_attr_scoper().scope("x:is(:a, :b):focus {}"), "x[c]:is(:a, :b):focus {}\n");
}

#[test]
fn law_plain_selector() {
    assert_eq!(short_attr_scoper().scope("ul > li + li {}"), "ul > li + li[c] {}\n");
}

#[test]
fn law_root_selectors_unscoped() {
    assert_eq!(short_attr_scoper().scope(":root:hover > a {}"), ":root:hover > a {}\n");
}

#[test]
fn law_skip_scope_passthrough() {
    assert_eq!(short_attr_scoper().scope(":skip-scope( .p (q) ) {}"), ".p (q) {}\n");
}

#[test]
fn law_single_rule() {
    assert_eq!(short_attr_scoper().scope(" p { a { b } } "), "p[c] { a { b } }\n");
    assert_eq!(short_attr_scoper().scope(" @layer base { p { } } "), "@layer base {\np[c] { }\n}\n");
}

#[test]
fn interleaved_mounts_track_live_instances() {
    let mut reg = StyleRegistry::new();
    let id = ScopeId::from_name("card");
    // mount, mount, unmount, mount, unmount, unmount
    assert!(reg.inject(&id));
    assert!(!reg.inject(&id));
    assert!(!reg.release(&id));
    assert_eq!(reg.mount_count(&id), 1);
    assert!(!reg.inject(&id));
    assert!(!reg.release(&id));
    assert!(reg.release(&id));
    assert_eq!(reg.mount_count(&id), 0);
    assert!(reg.inject(&id));
}

#[test]
fn law_rule_then_rest() {
    assert_eq!(
        short_attr_scoper().scope("p { a } @media x { q { b } } tail"),
        "p[c] { a }\n@media x {\nq[c] { b }\n}\n tail"
    );
}

#[test]
fn law_no_pseudo_appends_content_attr() {
    assert_eq!(
        short_attr_scoper().scope("input[type=\"a:b\"][x='(:'] {}"),
        "input[type=\"a:b\"][x='(:'][c] {}\n"
    );
}

#[test]
fn law_host_paren_selector() {
    assert_eq!(short_attr_scoper().scope(":host(.a)#b::after {}"), "[h].a#b::after {}\n");
    assert_eq!(short_attr_scoper().scope(":host((.x)) ~ i {}"), "[h](.x) ~ i[c] {}\n");
}
