use temp_env_var::{EnvAction, EnvTable, TempEnvVar};

/// Acquires a handle on `name` in `env` and performs the clearing action.
fn acquire(env: &mut EnvTable, name: &str) -> TempEnvVar {
    let current = env.var(name);
    let (handle, action) = TempEnvVar::new(name, current);
    env.apply(&action);
    handle
}

/// Overrides the variable of `handle` in `env`.
fn override_with(env: &mut EnvTable, handle: TempEnvVar, value: &str) -> TempEnvVar {
    let (handle, action) = handle.with(value);
    env.apply(&action);
    handle
}

/// Ends the scope of `handle` in `env`.
fn release(env: &mut EnvTable, handle: TempEnvVar) {
    let action = handle.restore();
    env.apply(&action);
}

#[test]
fn with_non_existing_variable() {
    let mut env = EnvTable::new();
    let name = "MISSINGVAR";
    env.remove_var(name);
    let variable = acquire(&mut env, name);
    assert_eq!(variable.initial_value, None);
    assert_eq!(env.var(name), None);
    let variable = override_with(&mut env, variable, "SOMETHING");
    assert_eq!(variable.initial_value, None);
    assert_eq!(env.var(name), Some("SOMETHING".into()));
    release(&mut env, variable);
    assert_eq!(env.var(name), None);
}

#[test]
fn with_existing_variable() {
    let mut env = EnvTable::new();
    let name = "EXISTINGVAR";
    env.set_var(name, "INITIAL");
    let variable = acquire(&mut env, name);
    assert_eq!(variable.initial_value, Some("INITIAL".into()));
    assert_eq!(env.var(name), None);
    let variable = override_with(&mut env, variable, "SOMETHING");
    assert_eq!(variable.initial_value, Some("INITIAL".into()));
    assert_eq!(env.var(name), Some("SOMETHING".into()));
    release(&mut env, variable);
    assert_eq!(env.var(name), Some("INITIAL".into()));
}

#[test]
fn new_returns_clearing_action() {
    let (handle, action) = TempEnvVar::new("BAZ", Some("K".to_string()));
    assert_eq!(handle.key, "BAZ");
    assert_eq!(handle.initial_value, Some("K".to_string()));
    assert_eq!(action, EnvAction::RemoveVar { key: "BAZ".to_string() });
}

#[test]
fn with_returns_set_action_and_same_handle() {
    let (handle, _) = TempEnvVar::new("Q", Some("0".to_string()));
    let (handle, action) = handle.with("1");
    assert_eq!(handle.key, "Q");
    assert_eq!(handle.initial_value, Some("0".to_string()));
    assert_eq!(
        action,
        EnvAction::SetVar { key: "Q".to_string(), value: "1".to_string() }
    );
}

#[test]
fn restore_writes_back_captured_value() {
    let (handle, _) = TempEnvVar::new("BAR", Some("INITIAL".to_string()));
    assert_eq!(
        handle.restore(),
        EnvAction::SetVar { key: "BAR".to_string(), value: "INITIAL".to_string() }
    );
}

#[test]
fn restore_removes_when_nothing_was_captured() {
    let (handle, _) = TempEnvVar::new("FOO", None);
    assert_eq!(handle.restore(), EnvAction::RemoveVar { key: "FOO".to_string() });
}

#[test]
fn unset_variable_override_then_release() {
    let mut env = EnvTable::new();
    let h = acquire(&mut env, "FOO");
    assert_eq!(h.initial_value, None);
    assert_eq!(env.var("FOO"), None);
    let h = override_with(&mut env, h, "X");
    assert_eq!(env.var("FOO"), Some("X".to_string()));
    release(&mut env, h);
    assert_eq!(env.var("FOO"), None);
}

#[test]
fn set_variable_override_then_release() {
    let mut env = EnvTable::new();
    env.set_var("BAR", "INITIAL");
    let h = acquire(&mut env, "BAR");
    assert_eq!(h.initial_value, Some("INITIAL".to_string()));
    assert_eq!(env.var("BAR"), None);
    let h = override_with(&mut env, h, "X");
    assert_eq!(env.var("BAR"), Some("X".to_string()));
    release(&mut env, h);
    assert_eq!(env.var("BAR"), Some("INITIAL".to_string()));
}

#[test]
fn acquire_without_override() {
    let mut env = EnvTable::new();
    env.set_var("BAZ", "K");
    let h = acquire(&mut env, "BAZ");
    assert_eq!(env.var("BAZ"), None);
    release(&mut env, h);
    assert_eq!(env.var("BAZ"), Some("K".to_string()));
}

#[test]
fn multiple_overrides_keep_last() {
    let mut env = EnvTable::new();
    env.set_var("Q", "0");
    let h = acquire(&mut env, "Q");
    let h = override_with(&mut env, h, "1");
    let h = override_with(&mut env, h, "2");
    assert_eq!(env.var("Q"), Some("2".to_string()));
    assert_eq!(h.initial_value, Some("0".to_string()));
    release(&mut env, h);
    assert_eq!(env.var("Q"), Some("0".to_string()));
}

#[test]
fn nested_scopes_restore_in_lifo_order() {
    let mut env = EnvTable::new();
    env.set_var("N", "A");
    let outer = acquire(&mut env, "N");
    let outer = override_with(&mut env, outer, "B");
    let inner = acquire(&mut env, "N");
    assert_eq!(inner.initial_value, Some("B".to_string()));
    let inner = override_with(&mut env, inner, "C");
    assert_eq!(env.var("N"), Some("C".to_string()));
    release(&mut env, inner);
    assert_eq!(env.var("N"), Some("B".to_string()));
    release(&mut env, outer);
    assert_eq!(env.var("N"), Some("A".to_string()));
}

#[test]
fn repeated_cycles_return_to_original() {
    let mut env = EnvTable::new();
    env.set_var("R", "orig");
    env.set_var("OTHER", "o");
    for value in ["1", "2", "3"] {
        let h = acquire(&mut env, "R");
        let h = override_with(&mut env, h, value);
        assert_eq!(env.var("R"), Some(value.to_string()));
        release(&mut env, h);
        assert_eq!(env.var("R"), Some("orig".to_string()));
        assert_eq!(env.var("OTHER"), Some("o".to_string()));
    }
    for _ in 0..2 {
        let h = acquire(&mut env, "UNSET");
        let h = override_with(&mut env, h, "v");
        release(&mut env, h);
        assert_eq!(env.var("UNSET"), None);
    }
}

#[test]
fn empty_value_is_distinct_from_unset() {
    let mut env = EnvTable::new();
    env.set_var("EMPTY", "");
    let h = acquire(&mut env, "EMPTY");
    assert_eq!(h.initial_value, Some(String::new()));
    assert_eq!(env.var("EMPTY"), None);
    release(&mut env, h);
    assert_eq!(env.var("EMPTY"), Some(String::new()));
}

#[test]
fn table_set_replace_and_remove() {
    let mut env = EnvTable::new();
    assert_eq!(env.var("A"), None);
    env.set_var("A", "1");
    env.set_var("B", "2");
    env.set_var("A", "3");
    assert_eq!(env.var("A"), Some("3".to_string()));
    assert_eq!(env.var("B"), Some("2".to_string()));
    env.remove_var("A");
    assert_eq!(env.var("A"), None);
    assert_eq!(env.var("B"), Some("2".to_string()));
    env.remove_var("A");
    assert_eq!(env.var("B"), Some("2".to_string()));
}
