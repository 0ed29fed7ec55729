use vstd::prelude::*;

use crate::env::{env_value, text_opt, EnvAction, EnvChange, EnvMap};

verus! {

/// A handle on one environment variable, restored to `initial_value` when the handle's
/// scope ends.
pub struct TempEnvVar {
    /// The name of the variable under control.
    pub key: String,
    /// The value the variable had when the handle was acquired, `None` where it was unset.
    pub initial_value: Option<String>,
}

/// What acquiring a handle on `key` does: the variable is unset.
pub open spec fn acquire_change(key: Seq<char>) -> EnvChange {
    EnvChange { key, value: None }
}

/// What overriding `key` with `value` does: the variable holds `value`.
pub open spec fn override_change(key: Seq<char>, value: Seq<char>) -> EnvChange {
    EnvChange { key, value: Some(value) }
}

/// What leaving the scope of a handle on `key` that captured `initial` does: the variable
/// holds `initial` again, or is unset where `initial` is `None`.
pub open spec fn restore_change(key: Seq<char>, initial: Option<Seq<char>>) -> EnvChange {
    EnvChange { key, value: initial }
}

/// The environment after each value of `values` in turn is written to `key`.
pub open spec fn after_overrides(env: EnvMap, key: Seq<char>, values: Seq<Seq<char>>) -> EnvMap
    decreases values.len(),
{
    if values.len() == 0 {
        env
    } else {
        override_change(key, values.last()).apply_to(
            after_overrides(env, key, values.drop_last()),
        )
    }
}

/// The environment after a whole scope on `key`, entered in `env`: acquire, then each
/// override of `values` in turn, then the restore on exit.
pub open spec fn after_scope(env: EnvMap, key: Seq<char>, values: Seq<Seq<char>>) -> EnvMap {
    restore_change(key, env_value(env, key)).apply_to(
        after_overrides(acquire_change(key).apply_to(env), key, values),
    )
}

/// The environment after one scope on `key` for each entry of `cycles`, one after the
/// other, each entry holding the values that its scope writes.
pub open spec fn after_cycles(env: EnvMap, key: Seq<char>, cycles: Seq<Seq<Seq<char>>>) -> EnvMap
    decreases cycles.len(),
{
    if cycles.len() == 0 {
        env
    } else {
        after_scope(after_cycles(env, key, cycles.drop_last()), key, cycles.last())
    }
}

impl TempEnvVar {
    /// Acquires a handle on `key`, whose value at this moment is `current` (`None` where it
    /// is unset). The handle keeps `current`; the action returned unsets the variable and
    /// is to be performed at once.
    pub fn new(key: &str, current: Option<String>) -> (r: (TempEnvVar, EnvAction))
        requires
            key@.len() > 0,
        ensures
            r.0.key@ == key@,
            r.0.initial_value == current,
            r.1@ == acquire_change(key@),
    {
        let key = key.to_owned();
        let action = EnvAction::RemoveVar { key: key.clone() };
        (TempEnvVar { key, initial_value: current }, action)
    }

    /// Overrides the variable with `value`. The handle comes back unchanged, its
    /// `initial_value` included; the action returned writes `value`.
    pub fn with(self, value: &str) -> (r: (TempEnvVar, EnvAction))
        ensures
            r.0 == self,
            r.1@ == override_change(self.key@, value@),
    {
        let action = EnvAction::SetVar { key: self.key.clone(), value: value.to_owned() };
        (self, action)
    }

    /// The action that ends this handle's scope: it writes `initial_value` back, or unsets
    /// the variable where `initial_value` is `None`.
    pub fn restore(&self) -> (r: EnvAction)
        ensures
            r@ == restore_change(self.key@, text_opt(self.initial_value)),
    {
        match &self.initial_value {
            Some(value) => EnvAction::SetVar { key: self.key.clone(), value: value.clone() },
            None => EnvAction::RemoveVar { key: self.key.clone() },
        }
    }
}

/// Once a handle on `key` is acquired, `key` is unset, whatever the environment held.
pub proof fn lemma_clear_on_acquire(env: EnvMap, key: Seq<char>)
    ensures
        env_value(acquire_change(key).apply_to(env), key) is None,
{
}

/// Once `key` is overridden with `value`, it reads as `value`.
pub proof fn lemma_override_visible(env: EnvMap, key: Seq<char>, value: Seq<char>)
    ensures
        env_value(override_change(key, value).apply_to(env), key) == Some(value),
{
}

/// Overrides replace one another: after a nonempty run of them, `key` holds the last value
/// written.
pub proof fn lemma_last_override_wins(env: EnvMap, key: Seq<char>, values: Seq<Seq<char>>)
    requires
        values.len() > 0,
    ensures
        env_value(after_overrides(env, key, values), key) == Some(values.last()),
{
}

/// Overrides of `key` touch no other variable.
proof fn lemma_overrides_touch_key_only(env: EnvMap, key: Seq<char>, values: Seq<Seq<char>>)
    ensures
        after_overrides(env, key, values).remove(key) == env.remove(key),
    decreases values.len(),
{
    if values.len() > 0 {
        lemma_overrides_touch_key_only(env, key, values.drop_last());
        assert(after_overrides(env, key, values).remove(key) =~= env.remove(key));
    } else {
        assert(env.remove(key) =~= env.remove(key));
    }
}

/// A whole scope on `key` (acquire, any overrides, exit) leaves the environment exactly as
/// it was before the acquire: `key` has its earlier value again, or is unset where it was
/// unset, and no other variable has changed.
pub proof fn lemma_restore_on_exit(env: EnvMap, key: Seq<char>, values: Seq<Seq<char>>)
    ensures
        after_scope(env, key, values) == env,
        env_value(after_scope(env, key, values), key) == env_value(env, key),
{
    let acquired = acquire_change(key).apply_to(env);
    let written = after_overrides(acquired, key, values);
    lemma_overrides_touch_key_only(acquired, key, values);
    assert(acquired.remove(key) =~= env.remove(key));
    assert forall|k: Seq<char>| k != key implies (written.contains_key(k) == env.contains_key(k)
        && (env.contains_key(k) ==> written[k] == env[k])) by {
        assert(written.remove(key).contains_key(k) == written.contains_key(k));
        assert(env.remove(key).contains_key(k) == env.contains_key(k));
        if env.contains_key(k) {
            assert(written.remove(key)[k] == written[k]);
            assert(env.remove(key)[k] == env[k]);
        }
    }
    assert(after_scope(env, key, values) =~= env);
}

/// Scopes on `key` run one after another each bring the environment back to where it
/// started, however many there are and whatever each of them writes.
pub proof fn lemma_repeated_cycles(env: EnvMap, key: Seq<char>, cycles: Seq<Seq<Seq<char>>>)
    ensures
        after_cycles(env, key, cycles) == env,
    decreases cycles.len(),
{
    if cycles.len() > 0 {
        lemma_repeated_cycles(env, key, cycles.drop_last());
        lemma_restore_on_exit(env, key, cycles.last());
    }
}

/// Scopes on one `key` nested in last-in, first-out order: an outer scope acquires and
/// writes `outer_before`; an inner scope then acquires, writes `inner`, and exits, which
/// brings back the state the outer scope had just before the inner acquire; the outer
/// scope writes `outer_after` and exits, which brings back the state before the outer
/// acquire.
pub proof fn lemma_lifo_nesting(
    env: EnvMap,
    key: Seq<char>,
    outer_before: Seq<Seq<char>>,
    inner: Seq<Seq<char>>,
    outer_after: Seq<Seq<char>>,
)
    ensures
        ({
            let outer_state = after_overrides(
                acquire_change(key).apply_to(env),
                key,
                outer_before,
            );
            let after_inner = after_scope(outer_state, key, inner);
            &&& after_inner == outer_state
            &&& restore_change(key, env_value(env, key)).apply_to(
                after_overrides(after_inner, key, outer_after),
            ) == env
        }),
{
    let outer_state = after_overrides(acquire_change(key).apply_to(env), key, outer_before);
    lemma_restore_on_exit(outer_state, key, inner);
    lemma_restore_on_exit(env, key, outer_before + outer_after);
    lemma_overrides_concat(acquire_change(key).apply_to(env), key, outer_before, outer_after);
}

/// Writing `a` and then `b` is writing `a + b`.
proof fn lemma_overrides_concat(
    env: EnvMap,
    key: Seq<char>,
    a: Seq<Seq<char>>,
    b: Seq<Seq<char>>,
)
    ensures
        after_overrides(after_overrides(env, key, a), key, b) == after_overrides(env, key, a + b),
    decreases b.len(),
{
    if b.len() == 0 {
        assert(a + b =~= a);
    } else {
        lemma_overrides_concat(env, key, a, b.drop_last());
        assert((a + b).drop_last() =~= a + b.drop_last());
        assert((a + b).last() == b.last());
    }
}

} // verus!
