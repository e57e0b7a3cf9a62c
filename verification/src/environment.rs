//! The environment: a chain of scopes, innermost first, each binding names
//! to values.

use vstd::prelude::*;
use vstd::hash_map::StringHashMap;
use crate::expr::{Literal, LiteralView};
use crate::error::{RuntimeError, RuntimeErrorView};

verus! {

/// The bindings of one scope.
pub type Scope = Map<Seq<char>, LiteralView>;

/// The scopes of an environment, the innermost first, the global one last.
pub type Scopes = Seq<Map<Seq<char>, LiteralView>>;

/// The value bound to `name` in the innermost scope that binds it.
pub open spec fn lookup(env: Scopes, name: Seq<char>) -> Option<LiteralView>
    decreases env.len(),
{
    if env.len() == 0 {
        None
    } else if env[0].dom().contains(name) {
        Some(env[0][name])
    } else {
        lookup(env.drop_first(), name)
    }
}

/// The environment after `value` was assigned to `name` in the innermost
/// scope that binds it, or `None` if no scope binds it.
pub open spec fn assigned(env: Scopes, name: Seq<char>, value: LiteralView) -> Option<Scopes>
    decreases env.len(),
{
    if env.len() == 0 {
        None
    } else if env[0].dom().contains(name) {
        Some(env.update(0, env[0].insert(name, value)))
    } else {
        match assigned(env.drop_first(), name, value) {
            Some(rest) => Some(seq![env[0]] + rest),
            None => None,
        }
    }
}

/// The environment after `name` was declared in the innermost scope.
pub open spec fn defined(env: Scopes, name: Seq<char>, value: LiteralView) -> Scopes {
    if env.len() == 0 {
        env
    } else {
        env.update(0, env[0].insert(name, value))
    }
}

/// The environment after a new, empty innermost scope was entered.
pub open spec fn entered(env: Scopes) -> Scopes {
    seq![Map::<Seq<char>, LiteralView>::empty()] + env
}

/// The environment after the innermost scope was left.
pub open spec fn exited(env: Scopes) -> Scopes {
    env.drop_first()
}

/// The values of the bindings of a scope.
pub open spec fn scope_view(space: Map<Seq<char>, Literal>) -> Scope {
    space.map_values(|v: Literal| v@)
}

/// One scope, which owns the scopes that enclose it.
pub struct State {
    space: StringHashMap<Literal>,
    parent: Option<Box<State>>,
}

impl View for State {
    type V = Scopes;

    closed spec fn view(&self) -> Scopes {
        self.scopes()
    }
}

impl State {
    /// This scope, then the scopes that enclose it.
    closed spec fn scopes(&self) -> Scopes
        decreases self,
    {
        seq![scope_view(self.space@)] + match self.parent {
            Some(par) => par.scopes(),
            None => Seq::empty(),
        }
    }

    /// Every environment has at least its global scope.
    pub proof fn lemma_has_scope(&self)
        ensures
            self@.len() >= 1,
    {
    }

    /// A new, empty scope inside `par`, or a global scope if there is none.
    pub fn new(par: Option<Box<State>>) -> (state: State)
        ensures
            state@ == match par {
                Some(p) => entered(p@),
                None => seq![Map::<Seq<char>, LiteralView>::empty()],
            },
    {
        let ghost given = par;
        let state = State { space: StringHashMap::new(), parent: par };
        proof {
            assert(scope_view(state.space@) =~= Map::<Seq<char>, LiteralView>::empty());
            match given {
                Some(p) => {
                    assert(state@ =~= entered(p@));
                },
                None => {
                    assert(state@ =~= seq![Map::<Seq<char>, LiteralView>::empty()]);
                },
            }
        }
        state
    }

    /// Declares `name` in the innermost scope; a name already declared there
    /// is bound anew.
    pub fn define(&mut self, name: String, value: Literal)
        ensures
            final(self)@ == defined(old(self)@, name@, value@),
    {
        self.space.insert(name, value);
        proof {
            assert(scope_view(self.space@) =~= scope_view(old(self).space@).insert(
                name@,
                value@,
            ));
            assert(self@ =~= defined(old(self)@, name@, value@));
        }
    }

    /// The value bound to `name` in the innermost scope that binds it.
    pub fn get(&self, name: String) -> (r: Result<Literal, RuntimeError>)
        ensures
            match lookup(self@, name@) {
                Some(v) => r matches Ok(x) && x@ == v,
                None => r matches Err(e) && e@ == RuntimeErrorView::UndefinedVariable(name@),
            },
        decreases self,
    {
        proof {
            self.lemma_tail();
        }
        match self.space.get(name.as_str()) {
            Some(val) => {
                assert(self@[0].dom().contains(name@));
                assert(self@[0][name@] == self.space@[name@]@);
                Ok(val.clone())
            },
            None => {
                assert(!self@[0].dom().contains(name@));
                match &self.parent {
                    None => {
                        assert(lookup(Seq::<Scope>::empty(), name@) is None);
                        Err(RuntimeError::UndefinedVariable(name))
                    },
                    Some(par) => par.get(name),
                }
            },
        }
    }

    /// Assigns `value` to `name` in the innermost scope that binds it. Where
    /// no scope binds it, nothing changes and the name is reported.
    pub fn assign(&mut self, name: String, value: Literal) -> (r: Result<(), RuntimeError>)
        ensures
            match assigned(old(self)@, name@, value@) {
                Some(env) => r is Ok && final(self)@ == env,
                None => final(self)@ == old(self)@ && (r matches Err(e) && e@
                    == RuntimeErrorView::UndefinedVariable(name@)),
            },
        decreases old(self)@.len(),
    {
        proof {
            self.lemma_tail();
        }
        if self.space.contains_key(name.as_str()) {
            assert(self@[0].dom().contains(name@));
            self.space.insert(name, value);
            proof {
                assert(scope_view(self.space@) =~= scope_view(old(self).space@).insert(
                    name@,
                    value@,
                ));
                assert(self@ =~= old(self)@.update(0, old(self)@[0].insert(name@, value@)));
            }
            return Ok(());
        }
        assert(!self@[0].dom().contains(name@));
        let mut parent: Option<Box<State>> = None;
        core::mem::swap(&mut self.parent, &mut parent);
        match parent {
            Some(mut par) => {
                let ghost before = par@;
                assert(before == old(self)@.drop_first());
                let r = par.assign(name, value);
                self.parent = Some(par);
                proof {
                    assert(self@[0] == old(self)@[0]);
                    match assigned(before, name@, value@) {
                        Some(rest) => {
                            assert(self@ =~= seq![old(self)@[0]] + rest);
                        },
                        None => {
                            assert(self@ =~= old(self)@);
                        },
                    }
                }
                r
            },
            None => {
                proof {
                    assert(self@ =~= old(self)@);
                    assert(assigned(Seq::<Scope>::empty(), name@, value@) is None);
                }
                Err(RuntimeError::UndefinedVariable(name))
            },
        }
    }

    /// Gives up the innermost scope and returns the one that encloses it, or
    /// reports that there is none.
    pub fn get_parent(self) -> (r: Result<State, RuntimeError>)
        ensures
            match r {
                Ok(par) => self@.len() >= 2 && par@ == exited(self@),
                Err(e) => self@.len() == 1 && e@ == RuntimeErrorView::NoEnclosingScope,
            },
    {
        proof {
            self.lemma_tail();
        }
        match self.parent {
            None => Err(RuntimeError::NoEnclosingScope),
            Some(par) => {
                proof {
                    par.lemma_has_scope();
                }
                Ok(*par)
            },
        }
    }

    /// The first scope is this one's own and the rest are its parent's.
    proof fn lemma_tail(&self)
        ensures
            self@.len() >= 1,
            self@[0] == scope_view(self.space@),
            self@.drop_first() == match self.parent {
                Some(par) => par@,
                None => Seq::empty(),
            },
            forall|name: Seq<char>|
                self@[0].dom().contains(name) == self.space@.contains_key(name),
            forall|name: Seq<char>|
                self.space@.contains_key(name) ==> self@[0][name] == #[trigger] self.space@[name]@,
    {
        let rest = match self.parent {
            Some(par) => par@,
            None => Seq::empty(),
        };
        assert(self@.drop_first() =~= rest);
    }
}

/// Declares `name` in the innermost scope of `env`.
pub fn define_env(env: &mut State, name: String, value: Literal)
    ensures
        final(env)@ == defined(old(env)@, name@, value@),
{
    env.define(name, value);
}

/// Assigns `value` to `name` in the innermost scope of `env` that binds it.
pub fn assign_env(env: &mut State, name: String, value: Literal) -> (r: Result<(), RuntimeError>)
    ensures
        match assigned(old(env)@, name@, value@) {
            Some(scopes) => r is Ok && final(env)@ == scopes,
            None => final(env)@ == old(env)@ && (r matches Err(e) && e@
                == RuntimeErrorView::UndefinedVariable(name@)),
        },
{
    env.assign(name, value)
}

/// Reads `name` in the innermost scope of `env` that binds it.
pub fn get_env(env: &State, name: String) -> (r: Result<Literal, RuntimeError>)
    ensures
        match lookup(env@, name@) {
            Some(v) => r matches Ok(x) && x@ == v,
            None => r matches Err(e) && e@ == RuntimeErrorView::UndefinedVariable(name@),
        },
{
    env.get(name)
}

/// Enters a new, empty innermost scope.
pub fn add_block_scoping(env: &mut State)
    ensures
        final(env)@ == entered(old(env)@),
{
    let mut outer = State::new(None);
    core::mem::swap(env, &mut outer);
    *env = State::new(Some(Box::new(outer)));
}

/// Leaves the innermost scope. Where only the global scope is open, nothing
/// changes and that is reported.
pub fn remove_block_scoping(env: &mut State) -> (r: Result<(), RuntimeError>)
    ensures
        match r {
            Ok(_) => old(env)@.len() >= 2 && final(env)@ == exited(old(env)@),
            Err(e) => old(env)@.len() == 1 && final(env)@ == old(env)@ && e@
                == RuntimeErrorView::NoEnclosingScope,
        },
{
    proof {
        env.lemma_tail();
    }
    let mut parent: Option<Box<State>> = None;
    core::mem::swap(&mut env.parent, &mut parent);
    match parent {
        Some(par) => {
            proof {
                par.lemma_has_scope();
            }
            *env = *par;
            Ok(())
        },
        None => {
            proof {
                assert(env@ =~= old(env)@);
            }
            Err(RuntimeError::NoEnclosingScope)
        },
    }
}

} // verus!
