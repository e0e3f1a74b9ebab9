use aether::ext_runtime::smoke_eval;

#[test]
fn quickjs_runs() {
    assert_eq!(smoke_eval(), Some(41));
}
