use ferrograph::graph::schema::{EdgeType, NodeId, NodeType};

#[test]
fn node_type_display_from_str_roundtrip() {
    let variants = [
        NodeType::File,
        NodeType::Module,
        NodeType::Function,
        NodeType::Struct,
        NodeType::Enum,
        NodeType::Trait,
        NodeType::Impl,
        NodeType::TypeAlias,
        NodeType::Const,
        NodeType::Static,
        NodeType::Macro,
        NodeType::CrateRoot,
    ];
    for v in &variants {
        let s = v.to_string();
        let parsed = NodeType::from_str(&s).expect("parse node type");
        assert_eq!(format!("{v:?}"), format!("{parsed:?}"), "roundtrip {s}");
    }
}

#[test]
fn edge_type_display_from_str_roundtrip() {
    let variants = [
        EdgeType::Contains,
        EdgeType::Imports,
        EdgeType::Calls,
        EdgeType::References,
        EdgeType::ImplementsTrait,
        EdgeType::Owns,
        EdgeType::Borrows,
        EdgeType::ExpandsTo,
        EdgeType::UsesUnsafe,
        EdgeType::LifetimeScope,
        EdgeType::ChangesWith,
    ];
    for v in &variants {
        let s = v.to_string();
        let parsed = EdgeType::from_str(&s).expect("parse edge type");
        assert_eq!(format!("{v:?}"), format!("{parsed:?}"), "roundtrip {s}");
    }
}

#[test]
fn resolver_only_type_names_are_not_schema_types() {
    assert_eq!(
        NodeType::from_str("primitive"),
        Err("unknown node type: \"primitive\"".to_string())
    );
    assert_eq!(
        NodeType::from_str("external_type"),
        Err("unknown node type: \"external_type\"".to_string())
    );
    assert_eq!(
        EdgeType::from_str("borrows_mut"),
        Err("unknown edge type: \"borrows_mut\"".to_string())
    );
}

#[test]
fn unknown_type_names_are_refused() {
    assert_eq!(
        NodeType::from_str("widget"),
        Err("unknown node type: \"widget\"".to_string())
    );
    assert_eq!(
        EdgeType::from_str("Calls"),
        Err("unknown edge type: \"Calls\"".to_string())
    );
}

#[test]
fn node_id_keeps_its_text() {
    let id = NodeId::new("src/lib.rs#1:1");
    assert_eq!(id.as_str(), "src/lib.rs#1:1");
    assert_eq!(id.clone().as_str(), "src/lib.rs#1:1");
}
