use yantra::domain::AgentKind;

#[test]
fn test_module_compiles() {
    let _kind = AgentKind::Coder;
}
