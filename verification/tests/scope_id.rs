use leptos_scoped_style::scope_id::ScopeId;

#[test]
fn same_name_same_id() {
    assert_eq!(ScopeId::from_name("my-button"), ScopeId::from_name("my-button"));
}

#[test]
fn different_names_different_ids() {
    assert_ne!(ScopeId::from_name("my-button"), ScopeId::from_name("my-card"));
}

#[test]
fn attr_format() {
    let id = ScopeId::from_name("my-button");
    assert!(id.host_attr().starts_with("_leptoshost-"));
    assert!(id.content_attr().starts_with("_leptoscontent-"));
}
