//! The variable store of one scope: names bound to values.

use crate::text::same_text;
use vstd::prelude::*;
use vstd::string::StringSliceAdditionalSpecFns;

verus! {

/// The error of assigning to a variable that no definition made.
#[derive(Debug, Default, Clone, Copy, PartialEq, Eq, Structural)]
pub struct UndefinedVariable;

/// Variables of one scope, each bound to a value. Its view maps each name,
/// by its UTF-8 bytes, to the value it holds.
/// The bindings are a list searched from the newest, rather than a hash map
/// keyed by `&str`, whose lookups by such keys come with no specification
/// to prove against.
#[derive(Debug)]
pub struct Environment<'a, V> {
    variables: Vec<(&'a str, V)>,
}

/// The map that a list of bindings makes, a later binding of a name standing
/// over an earlier one.
pub open spec fn bindings<V>(entries: Seq<(&str, V)>) -> Map<Seq<u8>, V>
    decreases entries.len(),
{
    if entries.len() == 0 {
        Map::empty()
    } else {
        bindings(entries.drop_last()).insert(entries.last().0.spec_bytes(), entries.last().1)
    }
}

/// `i` is the last binding of `key` in `entries`.
pub open spec fn last_binding<V>(entries: Seq<(&str, V)>, key: Seq<u8>, i: int) -> bool {
    &&& 0 <= i < entries.len()
    &&& entries[i].0.spec_bytes() == key
    &&& forall|j: int| i < j < entries.len() ==> entries[j].0.spec_bytes() != key
}

proof fn lemma_bindings_absent<V>(entries: Seq<(&str, V)>, key: Seq<u8>)
    requires
        forall|j: int| 0 <= j < entries.len() ==> entries[j].0.spec_bytes() != key,
    ensures
        !bindings(entries).contains_key(key),
    decreases entries.len(),
{
    if entries.len() > 0 {
        lemma_bindings_absent(entries.drop_last(), key);
    }
}

proof fn lemma_bindings_last<V>(entries: Seq<(&str, V)>, key: Seq<u8>, i: int)
    requires
        last_binding(entries, key, i),
    ensures
        bindings(entries).contains_key(key),
        bindings(entries)[key] == entries[i].1,
    decreases entries.len(),
{
    if i < entries.len() - 1 {
        lemma_bindings_last(entries.drop_last(), key, i);
    }
}

proof fn lemma_bindings_update<V>(entries: Seq<(&str, V)>, key: Seq<u8>, i: int, name: &str, value: V)
    requires
        last_binding(entries, key, i),
        name.spec_bytes() == key,
    ensures
        bindings(entries.update(i, (name, value))) == bindings(entries).insert(key, value),
    decreases entries.len(),
{
    let updated = entries.update(i, (name, value));
    if i == entries.len() - 1 {
        assert(updated.drop_last() =~= entries.drop_last());
        assert(bindings(updated) =~= bindings(entries).insert(key, value));
    } else {
        lemma_bindings_update(entries.drop_last(), key, i, name, value);
        assert(updated.drop_last() =~= entries.drop_last().update(i, (name, value)));
        assert(bindings(updated) =~= bindings(entries).insert(key, value));
    }
}

impl<'a, V> View for Environment<'a, V> {
    type V = Map<Seq<u8>, V>;

    closed spec fn view(&self) -> Map<Seq<u8>, V> {
        bindings(self.variables@)
    }
}

impl<'a, V> Environment<'a, V> {
    /// An environment with no variable.
    pub fn new() -> (e: Self)
        ensures
            e@ == Map::<Seq<u8>, V>::empty(),
    {
        Environment { variables: Vec::new() }
    }

    /// Where the last binding of `name` stands, if any.
    fn find(&self, name: &str) -> (r: Option<usize>)
        ensures
            match r {
                Some(i) => last_binding(self.variables@, name.spec_bytes(), i as int),
                None => forall|j: int|
                    0 <= j < self.variables@.len() ==> #[trigger] self.variables@[j].0.spec_bytes()
                        != name.spec_bytes(),
            },
    {
        let mut i = self.variables.len();
        while i > 0
            invariant
                i <= self.variables@.len(),
                forall|j: int|
                    i <= j < self.variables@.len() ==> #[trigger] self.variables@[j].0.spec_bytes()
                        != name.spec_bytes(),
            decreases i,
        {
            if same_text(self.variables[i - 1].0, name) {
                return Some(i - 1);
            }
            i = i - 1;
        }
        None
    }

    /// Binds `name` to `value`, in place of any value it held.
    pub fn define(&mut self, name: &'a str, value: V)
        ensures
            final(self)@ == old(self)@.insert(name.spec_bytes(), value),
    {
        match self.find(name) {
            Some(i) => {
                proof {
                    lemma_bindings_update(self.variables@, name.spec_bytes(), i as int, name, value);
                }
                self.variables.set(i, (name, value));
            },
            None => {
                let ghost before = self.variables@;
                self.variables.push((name, value));
                assert(self.variables@.drop_last() =~= before);
            },
        }
    }

    /// Stores a clone of `value` in the variable `name` and hands `value`
    /// back; an error, with nothing changed, where `name` is not defined.
    pub fn assign(&mut self, name: &'a str, value: V) -> (r: Result<V, UndefinedVariable>) where
        V: Clone,
        ensures
            old(self)@.contains_key(name.spec_bytes()) ==> r == Ok::<V, UndefinedVariable>(value)
                && final(self)@ == old(self)@.insert(
                name.spec_bytes(),
                final(self)@[name.spec_bytes()],
            ) && cloned(value, final(self)@[name.spec_bytes()]),
            !old(self)@.contains_key(name.spec_bytes()) ==> r == Err::<V, UndefinedVariable>(
                UndefinedVariable,
            ) && final(self)@ == old(self)@,
    {
        match self.find(name) {
            Some(i) => {
                let stored = value.clone();
                proof {
                    lemma_bindings_last(self.variables@, name.spec_bytes(), i as int);
                    lemma_bindings_update(self.variables@, name.spec_bytes(), i as int, name, stored);
                }
                self.variables.set(i, (name, stored));
                Ok(value)
            },
            None => {
                proof {
                    lemma_bindings_absent(self.variables@, name.spec_bytes());
                }
                Err(UndefinedVariable)
            },
        }
    }

    /// A clone of the value of `name`, if it is defined.
    pub fn get(&self, name: &str) -> (r: Option<V>) where V: Clone
        ensures
            r is Some == self@.contains_key(name.spec_bytes()),
            r matches Some(v) ==> cloned(self@[name.spec_bytes()], v),
    {
        match self.find(name) {
            Some(i) => {
                proof {
                    lemma_bindings_last(self.variables@, name.spec_bytes(), i as int);
                }
                Some(self.variables[i].1.clone())
            },
            None => {
                proof {
                    lemma_bindings_absent(self.variables@, name.spec_bytes());
                }
                None
            },
        }
    }
}

/// A handle on one environment of an `EnvironmentTree`.
#[derive(Debug, Clone, Copy, PartialEq, Eq, Structural)]
pub struct EnvironmentId(usize);

impl EnvironmentId {
    /// The position of the environment in its tree.
    pub closed spec fn index(self) -> int {
        self.0 as int
    }
}

/// One environment of a tree and the one that encloses it.
#[derive(Debug)]
struct Frame<'a, V> {
    enclosing: Option<usize>,
    variables: Environment<'a, V>,
}

/// Environments that enclose one another: each but the outermost ones has
/// an enclosing environment, made before it, and a function value can keep
/// the environment it was declared in. Environments stay as long as the
/// tree.
/// They are kept in one vector and named by position, in place of shared,
/// mutable links between environments, which verified code cannot follow.
#[derive(Debug)]
pub struct EnvironmentTree<'a, V> {
    frames: Vec<Frame<'a, V>>,
}

impl<'a, V> EnvironmentTree<'a, V> {
    /// How many environments the tree holds.
    pub closed spec fn len(&self) -> nat {
        self.frames@.len()
    }

    /// The environment that encloses `id`, if any.
    pub closed spec fn enclosing_of(&self, id: int) -> Option<int> {
        match self.frames@[id].enclosing {
            Some(e) => Some(e as int),
            None => None,
        }
    }

    /// The variables of `id`.
    pub closed spec fn variables_of(&self, id: int) -> Map<Seq<u8>, V> {
        self.frames@[id].variables@
    }

    /// Whether `id` is an environment of this tree.
    pub open spec fn holds(&self, id: EnvironmentId) -> bool {
        0 <= id.index() < self.len()
    }

    /// The invariant: an environment is enclosed only by one made before it.
    pub open spec fn wf(&self) -> bool {
        forall|i: int|
            0 <= i < self.len() ==> match #[trigger] self.enclosing_of(i) {
                Some(e) => 0 <= e < i,
                None => true,
            }
    }

    /// The environment `distance` steps out from `id`, where the chain of
    /// enclosing environments is long enough.
    pub open spec fn ancestor(&self, id: int, distance: nat) -> Option<int>
        decreases distance,
    {
        if distance == 0 {
            Some(id)
        } else {
            match self.enclosing_of(id) {
                Some(e) => self.ancestor(e, (distance - 1) as nat),
                None => None,
            }
        }
    }

    /// Whether `next` differs from `self` at most in the variables of `id`.
    pub open spec fn same_but(&self, next: &Self, id: int) -> bool {
        &&& next.len() == self.len()
        &&& forall|i: int| 0 <= i < self.len() ==> #[trigger] next.enclosing_of(i) == self.enclosing_of(i)
        &&& forall|i: int|
            0 <= i < self.len() && i != id ==> #[trigger] next.variables_of(i) == self.variables_of(i)
    }

    /// A tree with no environment.
    pub fn new() -> (t: Self)
        ensures
            t.wf(),
            t.len() == 0,
    {
        EnvironmentTree { frames: Vec::new() }
    }

    /// A new environment with no variable, enclosed by `enclosing`.
    pub fn open(&mut self, enclosing: Option<EnvironmentId>) -> (id: EnvironmentId)
        requires
            old(self).wf(),
            enclosing matches Some(e) ==> old(self).holds(e),
        ensures
            final(self).wf(),
            id.index() == old(self).len(),
            final(self).len() == old(self).len() + 1,
            final(self).enclosing_of(id.index()) == match enclosing {
                Some(e) => Some(e.index()),
                None => None::<int>,
            },
            final(self).variables_of(id.index()) == Map::<Seq<u8>, V>::empty(),
            forall|i: int|
                0 <= i < old(self).len() ==> #[trigger] final(self).enclosing_of(i)
                    == old(self).enclosing_of(i) && final(self).variables_of(i)
                    == old(self).variables_of(i),
    {
        let id = self.frames.len();
        let enclosing = match enclosing {
            Some(e) => Some(e.0),
            None => None,
        };
        self.frames.push(Frame { enclosing, variables: Environment::new() });
        assert forall|i: int| 0 <= i < self.len() implies match #[trigger] self.enclosing_of(i) {
            Some(e) => 0 <= e < i,
            None => true,
        } by {
            if i < id {
                assert(self.frames@[i] == old(self).frames@[i]);
                assert(self.enclosing_of(i) == old(self).enclosing_of(i));
            }
        }
        EnvironmentId(id)
    }

    /// The environment that encloses `id`, if any.
    pub fn enclosing(&self, id: EnvironmentId) -> (r: Option<EnvironmentId>)
        requires
            self.holds(id),
        ensures
            match r {
                Some(e) => self.enclosing_of(id.index()) == Some(e.index()),
                None => self.enclosing_of(id.index()) is None,
            },
    {
        match self.frames[id.0].enclosing {
            Some(e) => Some(EnvironmentId(e)),
            None => None,
        }
    }

    /// Binds `name` to `value` in the environment `id`.
    pub fn define(&mut self, id: EnvironmentId, name: &'a str, value: V)
        requires
            old(self).wf(),
            old(self).holds(id),
        ensures
            final(self).wf(),
            old(self).same_but(final(self), id.index()),
            final(self).variables_of(id.index()) == old(self).variables_of(id.index()).insert(
                name.spec_bytes(),
                value,
            ),
    {
        self.frames[id.0].variables.define(name, value);
        assert(forall|i: int|
            0 <= i < self.len() ==> #[trigger] self.enclosing_of(i) == old(self).enclosing_of(i));
    }

    /// The position of the environment `distance` steps out from `id`.
    fn ancestor_of(&self, id: EnvironmentId, distance: usize) -> (r: Option<usize>)
        requires
            self.wf(),
            self.holds(id),
        ensures
            match r {
                Some(j) => self.ancestor(id.index(), distance as nat) == Some(j as int) && j
                    < self.len(),
                None => self.ancestor(id.index(), distance as nat) is None,
            },
    {
        let mut current = id.0;
        let mut k: usize = 0;
        while k < distance
            invariant
                self.wf(),
                k <= distance,
                current < self.len(),
                self.ancestor(id.index(), distance as nat) == self.ancestor(
                    current as int,
                    (distance - k) as nat,
                ),
            decreases distance - k,
        {
            match self.frames[current].enclosing {
                Some(e) => {
                    assert(self.enclosing_of(current as int) == Some(e as int));
                    current = e;
                },
                None => {
                    return None;
                },
            }
            k = k + 1;
        }
        Some(current)
    }

    /// A clone of the value of `name` in the environment `distance` steps
    /// out from `id`; `None` where the chain is shorter or that environment
    /// does not define `name`.
    pub fn get_at(&self, id: EnvironmentId, name: &str, distance: usize) -> (r: Option<V>) where
        V: Clone,
        requires
            self.wf(),
            self.holds(id),
        ensures
            match self.ancestor(id.index(), distance as nat) {
                Some(j) => {
                    &&& r is Some == self.variables_of(j).contains_key(name.spec_bytes())
                    &&& r matches Some(v) ==> cloned(self.variables_of(j)[name.spec_bytes()], v)
                },
                None => r is None,
            },
    {
        match self.ancestor_of(id, distance) {
            Some(j) => self.frames[j].variables.get(name),
            None => None,
        }
    }

    /// Stores a clone of `value` in the variable `name` of the environment
    /// `distance` steps out from `id`, and hands `value` back; an error, with
    /// nothing changed, where the chain is shorter or that environment does
    /// not define `name`.
    pub fn assign_at(&mut self, id: EnvironmentId, name: &'a str, value: V, distance: usize) -> (r:
        Result<V, UndefinedVariable>) where V: Clone
        requires
            old(self).wf(),
            old(self).holds(id),
        ensures
            final(self).wf(),
            match old(self).ancestor(id.index(), distance as nat) {
                Some(j) => {
                    let key = name.spec_bytes();
                    if old(self).variables_of(j).contains_key(key) {
                        &&& r == Ok::<V, UndefinedVariable>(value)
                        &&& old(self).same_but(final(self), j)
                        &&& final(self).variables_of(j) == old(self).variables_of(j).insert(
                            key,
                            final(self).variables_of(j)[key],
                        )
                        &&& cloned(value, final(self).variables_of(j)[key])
                    } else {
                        &&& r == Err::<V, UndefinedVariable>(UndefinedVariable)
                        &&& old(self).same_but(final(self), j)
                        &&& final(self).variables_of(j) == old(self).variables_of(j)
                    }
                },
                None => r == Err::<V, UndefinedVariable>(UndefinedVariable) && *final(self) == *old(
                    self,
                ),
            },
    {
        match self.ancestor_of(id, distance) {
            Some(j) => {
                let r = self.frames[j].variables.assign(name, value);
                assert(forall|i: int|
                    0 <= i < self.len() ==> #[trigger] self.enclosing_of(i) == old(self).enclosing_of(
                        i,
                    ));
                r
            },
            None => Err(UndefinedVariable),
        }
    }
}

/// Defining or assigning a variable never changes where a distance leads:
/// trees that differ only in the variables of one environment walk the
/// same chains.
pub proof fn lemma_ancestor_stable<'a, V>(
    t: &EnvironmentTree<'a, V>,
    u: &EnvironmentTree<'a, V>,
    changed: int,
    id: int,
    distance: nat,
)
    requires
        t.same_but(u, changed),
        t.wf(),
        0 <= id < t.len(),
    ensures
        u.ancestor(id, distance) == t.ancestor(id, distance),
    decreases distance,
{
    if distance > 0 {
        assert(u.enclosing_of(id) == t.enclosing_of(id));
        match t.enclosing_of(id) {
            Some(e) => {
                lemma_ancestor_stable(t, u, changed, e, (distance - 1) as nat);
            },
            None => {},
        }
    }
}

/// Reading back after defining: once `name` is bound to `value` in the
/// environment `id`, a read of `name` at distance zero from `id` finds
/// `value`, and a read of any other name, or from any other environment,
/// finds what it found before.
pub proof fn lemma_define_then_get<'a, V>(
    t: &EnvironmentTree<'a, V>,
    u: &EnvironmentTree<'a, V>,
    id: int,
    name: Seq<u8>,
    value: V,
    other: Seq<u8>,
    at: int,
    distance: nat,
)
    requires
        t.wf(),
        0 <= id < t.len(),
        0 <= at < t.len(),
        t.same_but(u, id),
        u.variables_of(id) == t.variables_of(id).insert(name, value),
    ensures
        u.ancestor(id, 0) == Some(id),
        u.variables_of(id).contains_key(name) && u.variables_of(id)[name] == value,
        u.ancestor(at, distance) == t.ancestor(at, distance),
        u.ancestor(at, distance) matches Some(j) ==> (j != id || other != name) ==> (
        u.variables_of(j).contains_key(other) == t.variables_of(j).contains_key(other)
            && u.variables_of(j)[other] == t.variables_of(j)[other]),
{
    lemma_ancestor_stable(t, u, id, at, distance);
    lemma_ancestor_in_tree(t, at, distance);
}

/// The environment a distance leads to belongs to the tree.
pub proof fn lemma_ancestor_in_tree<'a, V>(t: &EnvironmentTree<'a, V>, id: int, distance: nat)
    requires
        t.wf(),
        0 <= id < t.len(),
    ensures
        t.ancestor(id, distance) matches Some(j) ==> 0 <= j <= id,
    decreases distance,
{
    if distance > 0 {
        match t.enclosing_of(id) {
            Some(e) => {
                lemma_ancestor_in_tree(t, e, (distance - 1) as nat);
            },
            None => {},
        }
    }
}

/// Reading back after assigning at a distance: where the environment
/// `distance` steps out from `id` defines `name` and the assignment stores
/// `stored` there, a read of `name` at that distance from `id` finds
/// `stored`, and a read of any other name, or from any other environment
/// at any distance, finds what it found before. Where that environment does
/// not exist or does not define `name`, the assignment changes nothing.
pub proof fn lemma_assign_then_get<'a, V>(
    t: &EnvironmentTree<'a, V>,
    u: &EnvironmentTree<'a, V>,
    id: int,
    distance: nat,
    name: Seq<u8>,
    stored: V,
    other: Seq<u8>,
    at: int,
    at_distance: nat,
)
    requires
        t.wf(),
        0 <= id < t.len(),
        0 <= at < t.len(),
        t.ancestor(id, distance) matches Some(j) && t.variables_of(j).contains_key(name)
            && t.same_but(u, j) && u.variables_of(j) == t.variables_of(j).insert(name, stored),
    ensures
        u.ancestor(id, distance) == t.ancestor(id, distance),
        u.variables_of(u.ancestor(id, distance)->0).contains_key(name),
        u.variables_of(u.ancestor(id, distance)->0)[name] == stored,
        u.ancestor(at, at_distance) == t.ancestor(at, at_distance),
        u.ancestor(at, at_distance) matches Some(k) ==> (k != t.ancestor(id, distance)->0 || other
            != name) ==> (u.variables_of(k).contains_key(other) == t.variables_of(k).contains_key(
            other,
        ) && u.variables_of(k)[other] == t.variables_of(k)[other]),
{
    let j = t.ancestor(id, distance)->0;
    lemma_ancestor_in_tree(t, id, distance);
    lemma_ancestor_stable(t, u, j, id, distance);
    lemma_ancestor_stable(t, u, j, at, at_distance);
    lemma_ancestor_in_tree(t, at, at_distance);
}

} // verus!
