use reconcile_engine::error::EngineError;

#[test]
fn codes_are_stable() {
    assert_eq!(EngineError::Parse("x".into()).code(), 1);
    assert_eq!(EngineError::Storage("x".into()).code(), 2);
    assert_eq!(EngineError::Source("x".into()).code(), 3);
    assert_eq!(EngineError::Command("x".into()).code(), 4);
}

#[test]
fn display_includes_message() {
    assert_eq!(
        EngineError::Command("nope".into()).to_string(),
        "command error: nope"
    );
}

#[test]
fn every_kind_has_its_prefix() {
    assert_eq!(EngineError::Parse("a".into()).to_string(), "parse error: a");
    assert_eq!(EngineError::Storage("b".into()).to_string(), "storage error: b");
    assert_eq!(EngineError::Source("c".into()).to_string(), "source error: c");
    assert_eq!(EngineError::Command(String::new()).to_string(), "command error: ");
}
