use vstd::prelude::*;

verus! {

/// An environment as text: each variable name that is set maps to its value. A name that
/// is not in the domain is unset, which is distinct from being set to the empty string.
pub type EnvMap = Map<Seq<char>, Seq<char>>;

/// The value of `key` in `env`, `None` where it is unset.
pub open spec fn env_value(env: EnvMap, key: Seq<char>) -> Option<Seq<char>> {
    if env.contains_key(key) {
        Some(env[key])
    } else {
        None
    }
}

/// The text held by an optional string.
pub open spec fn text_opt(s: Option<String>) -> Option<Seq<char>> {
    match s {
        Some(t) => Some(t@),
        None => None,
    }
}

/// A change to one variable: after it, `key` holds `value`, or is unset where `value` is
/// `None`.
pub struct EnvChange {
    pub key: Seq<char>,
    pub value: Option<Seq<char>>,
}

impl EnvChange {
    /// The environment after this change is made to `env`. Only `self.key` is touched.
    pub open spec fn apply_to(self, env: EnvMap) -> EnvMap {
        match self.value {
            Some(v) => env.insert(self.key, v),
            None => env.remove(self.key),
        }
    }
}

/// A write to an environment, to be performed by whoever holds the environment.
#[derive(Debug, PartialEq, Eq)]
pub enum EnvAction {
    /// Set the variable `key` to `value`.
    SetVar { key: String, value: String },
    /// Unset the variable `key`.
    RemoveVar { key: String },
}

impl View for EnvAction {
    type V = EnvChange;

    open spec fn view(&self) -> EnvChange {
        match self {
            EnvAction::SetVar { key, value } => EnvChange { key: key@, value: Some(value@) },
            EnvAction::RemoveVar { key } => EnvChange { key: key@, value: None },
        }
    }
}

/// An environment held in memory: a list of distinct names with their values.
pub struct EnvTable {
    vars: Vec<(String, String)>,
    contents: Ghost<EnvMap>,
}

impl View for EnvTable {
    type V = EnvMap;

    closed spec fn view(&self) -> EnvMap {
        self.contents@
    }
}

impl EnvTable {
    /// The list holds each name once, and holds exactly the variables of the view.
    pub closed spec fn wf(&self) -> bool {
        &&& forall|i: int, j: int|
            0 <= i < j < self.vars@.len() ==> #[trigger] self.vars@[i].0@
                != #[trigger] self.vars@[j].0@
        &&& forall|i: int|
            0 <= i < self.vars@.len() ==> self.contents@.contains_key(#[trigger] self.vars@[i].0@)
                && self.contents@[self.vars@[i].0@] == self.vars@[i].1@
        &&& forall|k: Seq<char>| #[trigger]
            self.contents@.contains_key(k) ==> exists|i: int|
                0 <= i < self.vars@.len() && #[trigger] self.vars@[i].0@ == k
    }

    /// An environment in which no variable is set.
    pub fn new() -> (r: EnvTable)
        ensures
            r.wf(),
            r@ == EnvMap::empty(),
    {
        EnvTable { vars: Vec::new(), contents: Ghost(EnvMap::empty()) }
    }

    /// The index of `key` in the list, if it is set.
    fn position(&self, key: &str) -> (r: Option<usize>)
        ensures
            match r {
                Some(i) => i < self.vars@.len() && self.vars@[i as int].0@ == key@,
                None => forall|i: int| 0 <= i < self.vars@.len() ==> self.vars@[i].0@ != key@,
            },
    {
        let k = key.to_owned();
        let mut i: usize = 0;
        while i < self.vars.len()
            invariant
                i <= self.vars@.len(),
                k@ == key@,
                forall|j: int| 0 <= j < i ==> self.vars@[j].0@ != key@,
            decreases self.vars@.len() - i,
        {
            if self.vars[i].0 == k {
                return Some(i);
            }
            i = i + 1;
        }
        None
    }

    /// The value of `key`, `None` where it is unset.
    pub fn var(&self, key: &str) -> (r: Option<String>)
        requires
            self.wf(),
        ensures
            text_opt(r) == env_value(self@, key@),
    {
        match self.position(key) {
            Some(i) => Some(self.vars[i].1.clone()),
            None => None,
        }
    }

    /// Sets `key` to `value`, replacing any value it had.
    pub fn set_var(&mut self, key: &str, value: &str)
        requires
            old(self).wf(),
        ensures
            final(self).wf(),
            final(self)@ == old(self)@.insert(key@, value@),
    {
        let ghost before = self.vars@;
        let ghost target = self.contents@.insert(key@, value@);
        match self.position(key) {
            Some(i) => {
                self.vars.set(i, (key.to_owned(), value.to_owned()));
                self.contents = Ghost(target);
                assert forall|k: Seq<char>| #[trigger] target.contains_key(k) implies exists|j: int|
                    0 <= j < self.vars@.len() && #[trigger] self.vars@[j].0@ == k by {
                    if k != key@ {
                        let j = choose|j: int| 0 <= j < before.len() && #[trigger] before[j].0@ == k;
                        assert(self.vars@[j].0@ == k);
                    } else {
                        assert(self.vars@[i as int].0@ == k);
                    }
                }
            },
            None => {
                self.vars.push((key.to_owned(), value.to_owned()));
                self.contents = Ghost(target);
                assert forall|k: Seq<char>| #[trigger] target.contains_key(k) implies exists|j: int|
                    0 <= j < self.vars@.len() && #[trigger] self.vars@[j].0@ == k by {
                    if k != key@ {
                        let j = choose|j: int| 0 <= j < before.len() && #[trigger] before[j].0@ == k;
                        assert(self.vars@[j].0@ == k);
                    } else {
                        assert(self.vars@[before.len() as int].0@ == k);
                    }
                }
            },
        }
    }

    /// Unsets `key`; nothing changes where it is already unset.
    pub fn remove_var(&mut self, key: &str)
        requires
            old(self).wf(),
        ensures
            final(self).wf(),
            final(self)@ == old(self)@.remove(key@),
    {
        let ghost before = self.vars@;
        let ghost target = self.contents@.remove(key@);
        match self.position(key) {
            Some(i) => {
                self.vars.remove(i);
                self.contents = Ghost(target);
                assert forall|k: Seq<char>| #[trigger] target.contains_key(k) implies exists|j: int|
                    0 <= j < self.vars@.len() && #[trigger] self.vars@[j].0@ == k by {
                    let j = choose|j: int| 0 <= j < before.len() && #[trigger] before[j].0@ == k;
                    if j < i {
                        assert(self.vars@[j].0@ == k);
                    } else {
                        assert(self.vars@[j - 1].0@ == k);
                    }
                }
            },
            None => {
                assert(target =~= self.contents@);
            },
        }
    }

    /// Performs `action` on this environment.
    pub fn apply(&mut self, action: &EnvAction)
        requires
            old(self).wf(),
        ensures
            final(self).wf(),
            final(self)@ == action@.apply_to(old(self)@),
    {
        match action {
            EnvAction::SetVar { key, value } => self.set_var(key.as_str(), value.as_str()),
            EnvAction::RemoveVar { key } => self.remove_var(key.as_str()),
        }
    }
}

} // verus!
