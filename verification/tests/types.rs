use sift::types::{Env, ResultSet, SqError};

#[test]
fn error_messages() {
    assert_eq!(SqError::Rg("boom".into()).message(), "rg backend error: boom");
    assert_eq!(SqError::LexUnavailable.message(), "lex backend not available (compile with --features lex)");
    assert_eq!(SqError::SemUnavailable.message(), "sem backend not available (compile with --features sem)");
    assert_eq!(SqError::UnboundVar("x".into()).message(), "unbound variable: x");
    assert_eq!(SqError::Other("plain".into()).message(), "plain");
}

#[test]
fn env_later_bindings_shadow() {
    let mut env = Env::new();
    assert!(env.get("x").is_none());
    env.insert("x".into(), ResultSet::empty());
    let mut one = ResultSet::empty();
    one.hits.push(sift::types::Hit {
        path: "a".into(),
        line: 1,
        snippet: String::new(),
        score: sift::types::Score::zero(),
    });
    env.insert("x".into(), one);
    assert_eq!(env.get("x").unwrap().hits.len(), 1);
    let copy = env.clone_env();
    assert_eq!(copy.get("x").unwrap().hits.len(), 1);
    assert!(copy.get("y").is_none());
}
