use fnhost::errors::ServiceError;
use fnhost::host::log_line;
use fnhost::host::op_kv_get;
use fnhost::host::op_kv_set;
use fnhost::invoke::finish_invocation;
use fnhost::invoke::ScriptOutcome;
use fnhost::name::name_is_valid;
use fnhost::registry::Registry;
use fnhost::store::Store;
use fnhost::value::CanonicalValue;

fn s(x: &str) -> String {
    x.to_string()
}

#[test]
fn ascii_letter_names_are_valid() {
    assert!(name_is_valid("hello"));
    assert!(name_is_valid("ABCdefXYZ"));
    assert!(name_is_valid(""));
}

#[test]
fn names_with_other_characters_are_rejected() {
    assert!(!name_is_valid("hello1"));
    assert!(!name_is_valid("with space"));
    assert!(!name_is_valid("a_b"));
    assert!(!name_is_valid("x-y"));
    assert!(!name_is_valid("naïve"));
}

#[test]
fn rejected_submission_leaves_no_trace() {
    let mut reg = Registry::new();
    let r = reg.submit(&s("bad1"), &s("1 + 1"));
    assert_eq!(r, Err(ServiceError::InvalidFunctionName));
    assert_eq!(reg.lookup(&s("bad1")), Err(ServiceError::UnknownFunction));
}

#[test]
fn submit_then_lookup_returns_the_source() {
    let mut reg = Registry::new();
    assert_eq!(reg.submit(&s("hello"), &s("set('x', 1); get('x') + 1")), Ok(()));
    assert_eq!(reg.lookup(&s("hello")), Ok(s("set('x', 1); get('x') + 1")));
}

#[test]
fn executing_an_unknown_name_fails_without_side_effects() {
    let reg = Registry::new();
    assert_eq!(reg.lookup(&s("ghost")), Err(ServiceError::UnknownFunction));
    let mut reg2 = Registry::new();
    assert_eq!(
        op_kv_set(&mut reg2, &s("ghost"), &s("k"), &CanonicalValue::Null),
        Err(ServiceError::UnknownFunction)
    );
}

#[test]
fn resubmission_replaces_source_and_keeps_stored_values() {
    let mut reg = Registry::new();
    assert_eq!(reg.submit(&s("counter"), &s("set('n', 1)")), Ok(()));
    assert_eq!(
        op_kv_set(&mut reg, &s("counter"), &s("n"), &CanonicalValue::Number(s("1"))),
        Ok(())
    );
    assert_eq!(reg.submit(&s("counter"), &s("get('n')")), Ok(()));
    assert_eq!(reg.lookup(&s("counter")), Ok(s("get('n')")));
    assert_eq!(
        op_kv_get(&reg, &s("counter"), &s("n")),
        Ok(Some(CanonicalValue::Number(s("1"))))
    );
}

#[test]
fn kv_round_trip_within_and_across_invocations() {
    let mut reg = Registry::new();
    assert_eq!(reg.submit(&s("f"), &s("set('k', [1, 'two'])")), Ok(()));
    let v = CanonicalValue::Array(vec![
        CanonicalValue::Number(s("1")),
        CanonicalValue::Text(s("two")),
    ]);
    assert_eq!(op_kv_set(&mut reg, &s("f"), &s("k"), &v), Ok(()));
    // read in the same invocation
    assert_eq!(op_kv_get(&reg, &s("f"), &s("k")), Ok(Some(v)));
    // a fresh runtime for a later invocation shares no state, only the store
    let first = finish_invocation(ScriptOutcome::Completed(CanonicalValue::Null));
    assert_eq!(first, Ok(s("null")));
    let again = op_kv_get(&reg, &s("f"), &s("k"));
    assert_eq!(
        again,
        Ok(Some(CanonicalValue::Array(vec![
            CanonicalValue::Number(s("1")),
            CanonicalValue::Text(s("two")),
        ])))
    );
    // a key that was never set reads as the absent marker
    assert_eq!(op_kv_get(&reg, &s("f"), &s("other")), Ok(None));
}

#[test]
fn stored_text_is_the_canonical_encoding() {
    let mut reg = Registry::new();
    assert_eq!(reg.submit(&s("f"), &s("set('k', 'hi')")), Ok(()));
    assert_eq!(
        op_kv_set(&mut reg, &s("f"), &s("k"), &CanonicalValue::Text(s("hi"))),
        Ok(())
    );
    assert_eq!(reg.kv_get(&s("f"), &s("k")), Ok(Some(s("\"hi\""))));
}

#[test]
fn stores_serialize_writes_per_key() {
    let mut store = Store::new();
    store.set(&s("a"), &s("1"));
    store.set(&s("b"), &s("2"));
    assert_eq!(store.get(&s("a")), Some(&s("1")));
    assert_eq!(store.get(&s("b")), Some(&s("2")));
    // the later write to the same key wins, whole and uncorrupted
    store.set(&s("a"), &s("3"));
    assert_eq!(store.get(&s("a")), Some(&s("3")));
    assert_eq!(store.get(&s("b")), Some(&s("2")));
    assert_eq!(store.get(&s("c")), None);
}

#[test]
fn distinct_key_writes_survive_in_either_order() {
    let mut one = Store::new();
    one.set(&s("x"), &s("1"));
    one.set(&s("y"), &s("2"));
    let mut two = Store::new();
    two.set(&s("y"), &s("2"));
    two.set(&s("x"), &s("1"));
    assert_eq!(one.get(&s("x")), two.get(&s("x")));
    assert_eq!(one.get(&s("y")), two.get(&s("y")));
}

#[test]
fn functions_have_isolated_stores() {
    let mut reg = Registry::new();
    assert_eq!(reg.submit(&s("a"), &s("set('k', 1)")), Ok(()));
    assert_eq!(reg.submit(&s("b"), &s("get('k')")), Ok(()));
    assert_eq!(
        op_kv_set(&mut reg, &s("a"), &s("k"), &CanonicalValue::Number(s("1"))),
        Ok(())
    );
    assert_eq!(op_kv_get(&reg, &s("b"), &s("k")), Ok(None));
}

#[test]
fn completed_scripts_return_canonical_json_text() {
    // submitting `set('x', 1); get('x') + 1` and executing it makes the
    // runtime report the value of the last expression, which is 2
    let r = finish_invocation(ScriptOutcome::Completed(CanonicalValue::Number(s("2"))));
    assert_eq!(r, Ok(s("2")));
}

#[test]
fn script_errors_carry_their_message() {
    let r = finish_invocation(ScriptOutcome::Threw(s("Uncaught Error: boom")));
    assert_eq!(r, Err(ServiceError::ScriptError(s("Uncaught Error: boom"))));
}

#[test]
fn non_representable_results_are_serialization_errors() {
    let r = finish_invocation(ScriptOutcome::NotRepresentable);
    assert_eq!(r, Err(ServiceError::SerializationError));
}

#[test]
fn engine_failures_are_construction_errors() {
    let r = finish_invocation(ScriptOutcome::EngineFailure(s("out of memory")));
    assert_eq!(r, Err(ServiceError::RuntimeConstructionError(s("out of memory"))));
}

#[test]
fn log_lines_carry_the_function_prefix() {
    assert_eq!(log_line(&s("hello"), &s("starting up")), s("[hello]: starting up"));
}
