use vstd::prelude::*;
use crate::parser::{clone_list, nodes_of, Ast, Node};
use crate::stack_machine::{Entity, RuntimeFault, RuntimeFaultView, Value};

verus! {

/// What a name is bound to: a word, which is called, or a stored value.
#[derive(Debug, PartialEq)]
pub enum Variable {
    Function { body: Vec<Ast> },
    Variable(Entity),
}

/// The mathematical value of a [`Variable`].
pub enum Binding {
    Function { body: Seq<Node> },
    Variable(Value),
}

impl View for Variable {
    type V = Binding;

    open spec fn view(&self) -> Binding {
        match self {
            Variable::Function { body } => Binding::Function { body: nodes_of(body@) },
            Variable::Variable(entity) => Binding::Variable(entity@),
        }
    }
}

impl Clone for Variable {
    fn clone(&self) -> (r: Variable)
        ensures
            r@ == self@,
    {
        match self {
            Variable::Function { body } => Variable::Function { body: clone_list(body) },
            Variable::Variable(entity) => Variable::Variable(entity.clone()),
        }
    }
}

/// One scope: what each of its names is bound to.
pub type Scope = Map<Seq<char>, Binding>;

/// The scope that a list of entries stands for. Where a name occurs twice,
/// the earlier entry counts.
pub open spec fn scope_of(entries: Seq<(String, Variable)>) -> Scope
    decreases entries.len(),
{
    if entries.len() == 0 {
        Map::empty()
    } else {
        scope_of(entries.drop_first()).insert(entries[0].0@, entries[0].1@)
    }
}

/// What `name` is bound to in a chain of scopes, innermost first: the
/// binding in the first scope that has the name, if any has.
pub open spec fn resolve(scopes: Seq<Scope>, name: Seq<char>) -> Option<Binding>
    decreases scopes.len(),
{
    if scopes.len() == 0 {
        None
    } else if scopes[0].contains_key(name) {
        Some(scopes[0][name])
    } else {
        resolve(scopes.drop_first(), name)
    }
}

/// The chain of scopes after `name` is bound to `binding` in the innermost
/// scope. The scopes around it stay as they are.
pub open spec fn bind(scopes: Seq<Scope>, name: Seq<char>, binding: Binding) -> Seq<Scope>
    recommends
        scopes.len() > 0,
{
    scopes.update(0, scopes[0].insert(name, binding))
}

/// No entry before `end` has the name `name`.
pub open spec fn absent(entries: Seq<(String, Variable)>, name: Seq<char>, end: int) -> bool {
    forall|j: int| 0 <= j < end && j < entries.len() ==> (#[trigger] entries[j]).0@ != name
}

/// A name that no entry has is not in the scope.
proof fn lemma_scope_absent(entries: Seq<(String, Variable)>, name: Seq<char>)
    requires
        absent(entries, name, entries.len() as int),
    ensures
        !scope_of(entries).contains_key(name),
    decreases entries.len(),
{
    if entries.len() > 0 {
        let rest = entries.drop_first();
        assert forall|j: int| 0 <= j < rest.len() implies (#[trigger] rest[j]).0@ != name by {
            assert(rest[j] == entries[j + 1]);
        }
        lemma_scope_absent(rest, name);
        assert(entries[0].0@ != name);
    }
}

/// The first entry of a name is what the name is bound to.
proof fn lemma_scope_found(entries: Seq<(String, Variable)>, name: Seq<char>, i: int)
    requires
        0 <= i < entries.len(),
        entries[i].0@ == name,
        absent(entries, name, i),
    ensures
        scope_of(entries).contains_key(name),
        scope_of(entries)[name] == entries[i].1@,
    decreases entries.len(),
{
    if i > 0 {
        let rest = entries.drop_first();
        assert forall|j: int| 0 <= j < i - 1 implies (#[trigger] rest[j]).0@ != name by {
            assert(rest[j] == entries[j + 1]);
        }
        lemma_scope_found(rest, name, i - 1);
        assert(entries[0].0@ != name);
    }
}

/// A new entry at the end binds a name that no entry has.
proof fn lemma_scope_push(entries: Seq<(String, Variable)>, entry: (String, Variable))
    requires
        absent(entries, entry.0@, entries.len() as int),
    ensures
        scope_of(entries.push(entry)) == scope_of(entries).insert(entry.0@, entry.1@),
    decreases entries.len(),
{
    if entries.len() == 0 {
        assert(entries.push(entry).drop_first() =~= entries);
        assert(scope_of(entries.push(entry)) =~= scope_of(entries).insert(entry.0@, entry.1@));
    } else {
        let rest = entries.drop_first();
        assert forall|j: int| 0 <= j < rest.len() implies (#[trigger] rest[j]).0@ != entry.0@ by {
            assert(rest[j] == entries[j + 1]);
        }
        lemma_scope_push(rest, entry);
        assert(entries.push(entry).drop_first() =~= rest.push(entry));
        assert(entries[0].0@ != entry.0@);
        assert(scope_of(entries.push(entry)) =~= scope_of(entries).insert(entry.0@, entry.1@));
    }
}

/// A new entry in place of the first entry of its name binds the name
/// anew.
proof fn lemma_scope_update(entries: Seq<(String, Variable)>, i: int, entry: (String, Variable))
    requires
        0 <= i < entries.len(),
        entries[i].0@ == entry.0@,
        absent(entries, entry.0@, i),
    ensures
        scope_of(entries.update(i, entry)) == scope_of(entries).insert(entry.0@, entry.1@),
    decreases entries.len(),
{
    let rest = entries.drop_first();
    if i == 0 {
        assert(entries.update(i, entry).drop_first() =~= rest);
        assert(scope_of(entries.update(i, entry)) =~= scope_of(entries).insert(
            entry.0@,
            entry.1@,
        ));
    } else {
        assert forall|j: int| 0 <= j < i - 1 implies (#[trigger] rest[j]).0@ != entry.0@ by {
            assert(rest[j] == entries[j + 1]);
        }
        lemma_scope_update(rest, i - 1, entry);
        assert(entries.update(i, entry).drop_first() =~= rest.update(i - 1, entry));
        assert(entries[0].0@ != entry.0@);
        assert(scope_of(entries.update(i, entry)) =~= scope_of(entries).insert(
            entry.0@,
            entry.1@,
        ));
    }
}

/// An environment: a scope of its own and, around it, the scopes of its
/// parents.
#[derive(Debug)]
pub struct Context {
    parent: Option<Box<Context>>,
    variables: Vec<(String, Variable)>,
}

impl View for Context {
    type V = Seq<Scope>;

    /// The chain of scopes, innermost first.
    closed spec fn view(&self) -> Seq<Scope> {
        self.scopes()
    }
}

impl Context {
    /// The chain of scopes, innermost first.
    spec fn scopes(&self) -> Seq<Scope>
        decreases self,
    {
        match self.parent {
            None => seq![scope_of(self.variables@)],
            Some(parent) => seq![scope_of(self.variables@)] + parent.scopes(),
        }
    }

    /// A context always has a scope of its own.
    pub proof fn lemma_has_scope(&self)
        ensures
            self@.len() >= 1,
    {
    }

    /// A context with an empty scope of its own inside the scopes of
    /// `parent`.
    pub fn new(parent: Option<Box<Context>>) -> (c: Self)
        ensures
            c@ == seq![Map::<Seq<char>, Binding>::empty()] + match parent {
                None => Seq::<Scope>::empty(),
                Some(p) => p@,
            },
    {
        let c = Self { parent, variables: Vec::new() };
        assert(c@ =~= seq![Map::<Seq<char>, Binding>::empty()] + match parent {
            None => Seq::<Scope>::empty(),
            Some(p) => p@,
        });
        c
    }

    /// The index of the first entry of `name` in this context's own
    /// scope.
    fn find(&self, name: &String) -> (r: Option<usize>)
        ensures
            match r {
                Some(i) => i < self.variables.len() && self.variables[i as int].0@ == name@
                    && absent(self.variables@, name@, i as int),
                None => absent(self.variables@, name@, self.variables.len() as int),
            },
    {
        let mut i: usize = 0;
        while i < self.variables.len()
            invariant
                i <= self.variables.len(),
                absent(self.variables@, name@, i as int),
            decreases self.variables.len() - i,
        {
            if self.variables[i].0 == *name {
                return Some(i);
            }
            i = i + 1;
        }
        None
    }

    /// What `name` is bound to: a copy of its binding in the innermost scope
    /// that has the name. It is a fault if no scope has it.
    pub fn get(&self, name: String) -> (r: Result<Variable, RuntimeFault>)
        ensures
            match resolve(self@, name@) {
                Some(binding) => r matches Ok(v) && v@ == binding,
                None => r matches Err(f) && f@ == RuntimeFaultView::UndefinedWord(name@),
            },
        decreases self,
    {
        match self.find(&name) {
            Some(i) => {
                proof {
                    lemma_scope_found(self.variables@, name@, i as int);
                }
                Ok(self.variables[i].1.clone())
            },
            None => {
                proof {
                    lemma_scope_absent(self.variables@, name@);
                }
                match &self.parent {
                    Some(parent) => {
                        assert(self@.drop_first() =~= parent@);
                        parent.get(name)
                    },
                    None => {
                        assert(self@.drop_first() =~= Seq::<Scope>::empty());
                        Err(RuntimeFault::UndefinedWord(name))
                    },
                }
            },
        }
    }

    /// Binds `name` to `var` in this context's own scope, in place of what
    /// the name was bound to there.
    pub fn set(&mut self, name: String, var: Variable)
        ensures
            final(self)@ == bind(old(self)@, name@, var@),
    {
        match self.find(&name) {
            Some(i) => {
                proof {
                    lemma_scope_update(self.variables@, i as int, (name, var));
                }
                self.variables[i] = (name, var);
            },
            None => {
                proof {
                    lemma_scope_push(self.variables@, (name, var));
                }
                self.variables.push((name, var));
            },
        }
        assert(final(self)@ =~= bind(old(self)@, name@, var@));
    }
}

impl Clone for Context {
    fn clone(&self) -> (r: Context)
        ensures
            r@ == self@,
        decreases self,
    {
        let mut variables: Vec<(String, Variable)> = Vec::new();
        let mut i: usize = 0;
        while i < self.variables.len()
            invariant
                i <= self.variables.len(),
                variables.len() == i,
                forall|j: int| 0 <= j < i ==> (#[trigger] variables[j]).0@ == self.variables[j].0@
                    && variables[j].1@ == self.variables[j].1@,
            decreases self.variables.len() - i,
        {
            variables.push((self.variables[i].0.clone(), self.variables[i].1.clone()));
            i = i + 1;
        }
        proof {
            lemma_scope_same(variables@, self.variables@);
        }
        let parent = match &self.parent {
            Some(p) => Some(Box::new((**p).clone())),
            None => None,
        };
        Context { parent, variables }
    }
}

/// Lists of entries with the same names and values stand for the same
/// scope.
proof fn lemma_scope_same(a: Seq<(String, Variable)>, b: Seq<(String, Variable)>)
    requires
        a.len() == b.len(),
        forall|j: int| 0 <= j < a.len() ==> (#[trigger] a[j]).0@ == b[j].0@ && a[j].1@ == b[j].1@,
    ensures
        scope_of(a) == scope_of(b),
    decreases a.len(),
{
    if a.len() > 0 {
        assert forall|j: int| 0 <= j < a.drop_first().len() implies (#[trigger] a.drop_first()[j]).0@
            == b.drop_first()[j].0@ && a.drop_first()[j].1@ == b.drop_first()[j].1@ by {
            assert(a.drop_first()[j] == a[j + 1]);
        }
        lemma_scope_same(a.drop_first(), b.drop_first());
        assert(a[0].0@ == b[0].0@);
    }
}

} // verus!
