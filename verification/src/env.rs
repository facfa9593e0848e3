//! Lexical scopes: what a name is bound to, and where the search for it goes
//! on when a scope does not bind it.

use crate::value::{SpecValue, Value};
use vstd::prelude::*;

verus! {

/// The native procedures. Two references to a native procedure are equal
/// exactly when they name the same one.
#[derive(Debug, Clone, Copy, PartialEq, Eq, Structural)]
pub enum Builtin {
    Add,
    Equal,
    Print,
    If,
    Define,
    Function,
    Get,
    Update,
    Len,
    Import,
    Type,
}

/// What a name is bound to: a native procedure or a value.
#[derive(Debug, PartialEq)]
pub enum EnvValue {
    EnvCode(Builtin),
    Value(Value),
}

/// The mathematical model of an [`EnvValue`].
pub ghost enum SpecEnvValue {
    EnvCode(Builtin),
    Value(SpecValue),
}

impl View for EnvValue {
    type V = SpecEnvValue;

    open spec fn view(&self) -> SpecEnvValue {
        match self {
            EnvValue::EnvCode(b) => SpecEnvValue::EnvCode(*b),
            EnvValue::Value(v) => SpecEnvValue::Value(v@),
        }
    }
}

impl EnvValue {
    /// A deep copy.
    pub fn copy(&self) -> (r: EnvValue)
        ensures
            r@ == self@,
    {
        match self {
            EnvValue::EnvCode(b) => EnvValue::EnvCode(*b),
            EnvValue::Value(v) => EnvValue::Value(v.copy()),
        }
    }
}

/// The model of an optional binding.
pub open spec fn binding_view(b: Option<EnvValue>) -> Option<SpecEnvValue> {
    match b {
        Some(v) => Some(v@),
        None => None,
    }
}

/// The model of an optional scope index.
pub open spec fn parent_model(parent: Option<usize>) -> Option<int> {
    match parent {
        Some(p) => Some(p as int),
        None => None,
    }
}

/// The model of one scope: the scope that the search goes on in, if any, and
/// the bindings of the scope itself.
pub ghost struct SpecScope {
    pub parent: Option<int>,
    pub bindings: Map<Seq<char>, SpecEnvValue>,
}

/// Every parent was there before its child, so no chain of parents comes
/// back to where it started.
pub open spec fn chained(scopes: Seq<SpecScope>) -> bool {
    forall|i: int|
        0 <= i < scopes.len() ==> ((#[trigger] scopes[i]).parent matches Some(p) ==> 0 <= p < i)
}

/// The nearest scope that binds `key`, searching from `at` through its
/// parents.
pub open spec fn holder(scopes: Seq<SpecScope>, at: int, key: Seq<char>) -> Option<int>
    decreases at,
{
    if !(0 <= at < scopes.len()) {
        None
    } else if scopes[at].bindings.dom().contains(key) {
        Some(at)
    } else {
        match scopes[at].parent {
            Some(p) => if 0 <= p < at {
                holder(scopes, p, key)
            } else {
                None
            },
            None => None,
        }
    }
}

/// What `key` is bound to as seen from `at`: the binding in the nearest scope
/// that has one.
pub open spec fn lookup(scopes: Seq<SpecScope>, at: int, key: Seq<char>) -> Option<SpecEnvValue> {
    match holder(scopes, at, key) {
        Some(h) => Some(scopes[h].bindings[key]),
        None => None,
    }
}

/// The scopes after `key` is bound to `value` in the scope `at` itself.
pub open spec fn declared(
    scopes: Seq<SpecScope>,
    at: int,
    key: Seq<char>,
    value: SpecEnvValue,
) -> Seq<SpecScope> {
    if 0 <= at < scopes.len() {
        scopes.update(
            at,
            SpecScope { parent: scopes[at].parent, bindings: scopes[at].bindings.insert(key, value) },
        )
    } else {
        scopes
    }
}

/// The scopes after `key` is rebound to `value` in the nearest scope that
/// binds it; unchanged if none does.
pub open spec fn replaced(
    scopes: Seq<SpecScope>,
    at: int,
    key: Seq<char>,
    value: SpecEnvValue,
) -> Seq<SpecScope> {
    match holder(scopes, at, key) {
        Some(h) => declared(scopes, h, key, value),
        None => scopes,
    }
}

/// The scopes after every binding of `from` is copied into `into`, replacing
/// what `into` had under the same name.
pub open spec fn merged(scopes: Seq<SpecScope>, into: int, from: int) -> Seq<SpecScope> {
    if 0 <= into < scopes.len() && 0 <= from < scopes.len() {
        scopes.update(
            into,
            SpecScope {
                parent: scopes[into].parent,
                bindings: scopes[into].bindings.union_prefer_right(scopes[from].bindings),
            },
        )
    } else {
        scopes
    }
}

/// The scopes after every binding of `extra` is written into the scope `at`.
pub open spec fn declared_all(
    scopes: Seq<SpecScope>,
    at: int,
    extra: Map<Seq<char>, SpecEnvValue>,
) -> Seq<SpecScope> {
    if 0 <= at < scopes.len() {
        scopes.update(
            at,
            SpecScope {
                parent: scopes[at].parent,
                bindings: scopes[at].bindings.union_prefer_right(extra),
            },
        )
    } else {
        scopes
    }
}

/// The scopes after a new one with no bindings is added at the end.
pub open spec fn opened(scopes: Seq<SpecScope>, parent: Option<int>) -> Seq<SpecScope> {
    scopes.push(SpecScope { parent, bindings: Map::empty() })
}

/// `after` has every scope of `before`, with the same parent and with at
/// least the names it had: scopes are never removed or relinked, and no
/// binding is ever deleted.
pub open spec fn extends(before: Seq<SpecScope>, after: Seq<SpecScope>) -> bool {
    &&& before.len() <= after.len()
    &&& forall|i: int|
        0 <= i < before.len() ==> {
            &&& (#[trigger] after[i]).parent == before[i].parent
            &&& before[i].bindings.dom().subset_of(after[i].bindings.dom())
        }
}

/// The bindings that every root scope starts with: the current file's path,
/// empty at first, and the native procedures under their names.
pub open spec fn defaults() -> Map<Seq<char>, SpecEnvValue> {
    Map::empty()
        .insert("FILE"@, SpecEnvValue::Value(SpecValue::Str(Seq::empty())))
        .insert("+"@, SpecEnvValue::EnvCode(Builtin::Add))
        .insert("="@, SpecEnvValue::EnvCode(Builtin::Equal))
        .insert("print"@, SpecEnvValue::EnvCode(Builtin::Print))
        .insert("if"@, SpecEnvValue::EnvCode(Builtin::If))
        .insert("define"@, SpecEnvValue::EnvCode(Builtin::Define))
        .insert("fn"@, SpecEnvValue::EnvCode(Builtin::Function))
        .insert("get"@, SpecEnvValue::EnvCode(Builtin::Get))
        .insert("set"@, SpecEnvValue::EnvCode(Builtin::Update))
        .insert("len"@, SpecEnvValue::EnvCode(Builtin::Len))
        .insert("import"@, SpecEnvValue::EnvCode(Builtin::Import))
        .insert("type"@, SpecEnvValue::EnvCode(Builtin::Type))
}

/// The scopes after the default bindings are written into the scope `at`.
pub open spec fn populated(scopes: Seq<SpecScope>, at: int) -> Seq<SpecScope> {
    if 0 <= at < scopes.len() {
        scopes.update(
            at,
            SpecScope {
                parent: scopes[at].parent,
                bindings: scopes[at].bindings.union_prefer_right(defaults()),
            },
        )
    } else {
        scopes
    }
}

struct Entry {
    name: String,
    value: EnvValue,
}

struct Scope {
    parent: Option<usize>,
    entries: Vec<Entry>,
}

spec fn holds(entries: Seq<Entry>, key: Seq<char>) -> bool {
    exists|i: int| 0 <= i < entries.len() && (#[trigger] entries[i]).name@ == key
}

spec fn slot(entries: Seq<Entry>, key: Seq<char>) -> int {
    choose|i: int| 0 <= i < entries.len() && (#[trigger] entries[i]).name@ == key
}

spec fn distinct(entries: Seq<Entry>) -> bool {
    forall|i: int, j: int|
        0 <= i < j < entries.len() ==> (#[trigger] entries[i]).name@ != (#[trigger] entries[j]).name@
}

spec fn bindings_of(entries: Seq<Entry>) -> Map<Seq<char>, SpecEnvValue> {
    Map::new(|k: Seq<char>| holds(entries, k), |k: Seq<char>| entries[slot(entries, k)].value@)
}

proof fn lemma_slot(entries: Seq<Entry>, i: int)
    requires
        distinct(entries),
        0 <= i < entries.len(),
    ensures
        holds(entries, entries[i].name@),
        slot(entries, entries[i].name@) == i,
        bindings_of(entries).dom().contains(entries[i].name@),
        bindings_of(entries)[entries[i].name@] == entries[i].value@,
{
    let key = entries[i].name@;
    let j = slot(entries, key);
    assert(0 <= j < entries.len() && entries[j].name@ == key);
    if j < i {
        assert(entries[j].name@ != entries[i].name@);
    } else if i < j {
        assert(entries[i].name@ != entries[j].name@);
    }
}

proof fn lemma_overwrite(entries: Seq<Entry>, i: int, e: Entry)
    requires
        distinct(entries),
        0 <= i < entries.len(),
        e.name@ == entries[i].name@,
    ensures
        distinct(entries.update(i, e)),
        bindings_of(entries.update(i, e)) == bindings_of(entries).insert(e.name@, e.value@),
{
    let after = entries.update(i, e);
    assert(distinct(after)) by {
        assert forall|a: int, b: int| 0 <= a < b < after.len() implies (#[trigger] after[a]).name@
            != (#[trigger] after[b]).name@ by {
            assert(entries[a].name@ != entries[b].name@);
        }
    }
    assert forall|k: Seq<char>| holds(after, k) == holds(entries, k) by {
        if holds(entries, k) {
            let j = slot(entries, k);
            assert(after[j].name@ == k);
        }
        if holds(after, k) {
            let j = slot(after, k);
            assert(entries[j].name@ == k);
        }
    }
    assert forall|k: Seq<char>| holds(after, k) implies #[trigger] bindings_of(after)[k]
        == bindings_of(entries).insert(e.name@, e.value@)[k] by {
        let j = slot(after, k);
        lemma_slot(after, j);
        lemma_slot(entries, j);
    }
    assert(bindings_of(after) =~= bindings_of(entries).insert(e.name@, e.value@));
}

proof fn lemma_append(entries: Seq<Entry>, e: Entry)
    requires
        distinct(entries),
        !holds(entries, e.name@),
    ensures
        distinct(entries.push(e)),
        bindings_of(entries.push(e)) == bindings_of(entries).insert(e.name@, e.value@),
{
    let after = entries.push(e);
    let n = entries.len() as int;
    assert(distinct(after)) by {
        assert forall|a: int, b: int| 0 <= a < b < after.len() implies (#[trigger] after[a]).name@
            != (#[trigger] after[b]).name@ by {
            if b < n {
                assert(entries[a].name@ != entries[b].name@);
            } else {
                assert(entries[a].name@ != e.name@);
            }
        }
    }
    assert(after[n].name@ == e.name@);
    assert forall|k: Seq<char>| holds(after, k) == (holds(entries, k) || k == e.name@) by {
        if holds(entries, k) {
            let j = slot(entries, k);
            assert(after[j].name@ == k);
        }
        if holds(after, k) {
            let j = slot(after, k);
            if j < n {
                assert(entries[j].name@ == k);
            }
        }
    }
    assert forall|k: Seq<char>| holds(after, k) implies #[trigger] bindings_of(after)[k]
        == bindings_of(entries).insert(e.name@, e.value@)[k] by {
        let j = slot(after, k);
        lemma_slot(after, j);
        if j < n {
            lemma_slot(entries, j);
        }
    }
    assert(bindings_of(after) =~= bindings_of(entries).insert(e.name@, e.value@));
}

impl Scope {
    spec fn model(&self) -> SpecScope {
        SpecScope { parent: parent_model(self.parent), bindings: bindings_of(self.entries@) }
    }

    /// The index of the entry under `key`, if there is one.
    fn position(&self, key: &String) -> (r: Option<usize>)
        ensures
            match r {
                Some(i) => i < self.entries.len() && self.entries[i as int].name@ == key@,
                None => !holds(self.entries@, key@),
            },
    {
        let mut i: usize = 0;
        while i < self.entries.len()
            invariant
                i <= self.entries.len(),
                forall|j: int| 0 <= j < i ==> (#[trigger] self.entries[j]).name@ != key@,
            decreases self.entries.len() - i,
        {
            if self.entries[i].name == *key {
                return Some(i);
            }
            i += 1;
        }
        None
    }

    /// Binds `key` to `value` here, in place of what it was bound to.
    fn put(&mut self, key: String, value: EnvValue)
        requires
            distinct(old(self).entries@),
        ensures
            distinct(final(self).entries@),
            final(self).parent == old(self).parent,
            bindings_of(final(self).entries@) == bindings_of(old(self).entries@).insert(
                key@,
                value@,
            ),
    {
        let found = self.position(&key);
        let entry = Entry { name: key, value };
        proof {
            match found {
                Some(i) => lemma_overwrite(self.entries@, i as int, entry),
                None => lemma_append(self.entries@, entry),
            }
        }
        match found {
            Some(i) => {
                self.entries[i] = entry;
            },
            None => {
                self.entries.push(entry);
            },
        }
    }
}

/// Every scope of one interpreter. A scope is known by its index; the root
/// scope of a fresh environment has index 0.
pub struct Environment {
    scopes: Vec<Scope>,
}

impl View for Environment {
    type V = Seq<SpecScope>;

    closed spec fn view(&self) -> Seq<SpecScope> {
        Seq::new(self.scopes.len() as nat, |i: int| self.scopes[i].model())
    }
}

impl Environment {
    /// The invariant of the representation; it implies that the scopes are
    /// [`chained`] and that there is at least one.
    pub closed spec fn wf(&self) -> bool {
        &&& self.scopes.len() > 0
        &&& chained(self@)
        &&& forall|i: int| 0 <= i < self.scopes.len() ==> distinct((#[trigger] self.scopes[i]).entries@)
    }

    /// What [`Environment::wf`] says of the model.
    pub proof fn wf_implies(&self)
        requires
            self.wf(),
        ensures
            self@.len() > 0,
            chained(self@),
    {
    }

    /// An environment with one scope, which has no parent and no bindings.
    pub fn new() -> (e: Environment)
        ensures
            e.wf(),
            e@ == opened(Seq::empty(), None),
    {
        let mut scopes: Vec<Scope> = Vec::new();
        scopes.push(Scope { parent: None, entries: Vec::new() });
        let e = Environment { scopes };
        assert(e@ =~= opened(Seq::empty(), None)) by {
            assert(bindings_of(e.scopes[0].entries@) =~= Map::empty());
        }
        e
    }

    /// The number of scopes.
    pub fn len(&self) -> (n: usize)
        ensures
            n == self@.len(),
    {
        self.scopes.len()
    }

    /// Adds a scope with no bindings and returns its index. Returns `None`,
    /// and adds nothing, if `parent` names a scope that does not exist.
    pub fn open(&mut self, parent: Option<usize>) -> (r: Option<usize>)
        requires
            old(self).wf(),
        ensures
            final(self).wf(),
            match r {
                Some(id) => {
                    &&& (parent matches Some(p) ==> p < old(self)@.len())
                    &&& id == old(self)@.len()
                    &&& final(self)@ == opened(old(self)@, parent_model(parent))
                },
                None => {
                    &&& parent matches Some(p) && p >= old(self)@.len()
                    &&& final(self)@ == old(self)@
                },
            },
    {
        match parent {
            Some(p) => {
                if p >= self.scopes.len() {
                    return None;
                }
            },
            None => {},
        }
        let id: usize = self.scopes.len();
        self.scopes.push(Scope { parent, entries: Vec::new() });
        proof {
            assert(bindings_of(self.scopes[id as int].entries@) =~= Map::empty());
            assert(self@ =~= opened(old(self)@, parent_model(parent)));
        }
        Some(id)
    }

    /// What `key` is bound to as seen from `scope`: the binding in the nearest
    /// scope on the chain of parents that has one.
    pub fn find(&self, scope: usize, key: &String) -> (r: Option<EnvValue>)
        requires
            self.wf(),
        ensures
            binding_view(r) == lookup(self@, scope as int, key@),
    {
        let mut at: usize = scope;
        loop
            invariant
                self.wf(),
                holder(self@, at as int, key@) == holder(self@, scope as int, key@),
            decreases at,
        {
            if at >= self.scopes.len() {
                return None;
            }
            proof {
                assert(self@[at as int] == self.scopes[at as int].model());
            }
            match self.scopes[at].position(key) {
                Some(i) => {
                    proof {
                        lemma_slot(self.scopes[at as int].entries@, i as int);
                    }
                    return Some(self.scopes[at].entries[i].value.copy());
                },
                None => {},
            }
            match self.scopes[at].parent {
                Some(p) => {
                    at = p;
                },
                None => {
                    return None;
                },
            }
        }
    }

    /// The index of the nearest scope, from `scope` through its parents, that
    /// binds `key`.
    fn holder_of(&self, scope: usize, key: &String) -> (r: Option<usize>)
        requires
            self.wf(),
        ensures
            parent_model(r) == holder(self@, scope as int, key@),
            r matches Some(h) ==> h < self.scopes.len() && holds(self.scopes[h as int].entries@, key@),
    {
        let mut at: usize = scope;
        loop
            invariant
                self.wf(),
                holder(self@, at as int, key@) == holder(self@, scope as int, key@),
            decreases at,
        {
            if at >= self.scopes.len() {
                return None;
            }
            proof {
                assert(self@[at as int] == self.scopes[at as int].model());
            }
            match self.scopes[at].position(key) {
                Some(i) => {
                    return Some(at);
                },
                None => {},
            }
            match self.scopes[at].parent {
                Some(p) => {
                    at = p;
                },
                None => {
                    return None;
                },
            }
        }
    }

    /// Binds `key` to `value` in the scope `scope` itself, whatever its
    /// parents bind it to. Does nothing if there is no such scope.
    pub fn declare(&mut self, scope: usize, key: String, value: EnvValue)
        requires
            old(self).wf(),
        ensures
            final(self).wf(),
            final(self)@ == declared(old(self)@, scope as int, key@, value@),
    {
        if scope >= self.scopes.len() {
            return;
        }
        let ghost before = self.scopes@;
        self.scopes[scope].put(key, value);
        proof {
            assert(self.scopes@.len() == before.len());
            assert forall|i: int| 0 <= i < before.len() && i != scope implies self.scopes@[i]
                == before[i] by {}
            assert(self@ =~= declared(old(self)@, scope as int, key@, value@));
            assert(chained(self@)) by {
                assert forall|i: int| 0 <= i < self@.len() implies ((#[trigger] self@[i]).parent matches Some(
                    p,
                ) ==> 0 <= p < i) by {
                    assert(self@[i].parent == old(self)@[i].parent);
                }
            }
        }
    }

    /// Rebinds `key` to `value` in the nearest scope, from `scope` through
    /// its parents, that already binds it, and returns `true`. Returns
    /// `false`, and changes nothing, if no scope on the chain binds `key`.
    pub fn replace(&mut self, scope: usize, key: String, value: EnvValue) -> (r: bool)
        requires
            old(self).wf(),
        ensures
            final(self).wf(),
            r == holder(old(self)@, scope as int, key@) is Some,
            final(self)@ == replaced(old(self)@, scope as int, key@, value@),
    {
        match self.holder_of(scope, &key) {
            Some(h) => {
                self.declare(h, key, value);
                true
            },
            None => false,
        }
    }

    /// Copies every binding of the scope `from` into the scope `into`,
    /// replacing what `into` had under the same name. Does nothing if either
    /// scope does not exist.
    pub fn merge(&mut self, into: usize, from: usize)
        requires
            old(self).wf(),
        ensures
            final(self).wf(),
            final(self)@ == merged(old(self)@, into as int, from as int),
    {
        if into >= self.scopes.len() || from >= self.scopes.len() {
            return;
        }
        if into == from {
            proof {
                let b = self@[into as int].bindings;
                assert(b.union_prefer_right(b) =~= b);
                assert(self@ =~= merged(self@, into as int, from as int));
            }
            return;
        }
        let ghost before = self.scopes@;
        let ghost source = self.scopes[from as int].entries@;
        let ghost target = bindings_of(self.scopes[into as int].entries@);
        let n: usize = self.scopes[from].entries.len();
        let mut i: usize = 0;
        proof {
            assert(bindings_of(source.take(0)) =~= Map::empty());
            assert(target.union_prefer_right(Map::empty()) =~= target);
        }
        while i < n
            invariant
                into != from,
                into < self.scopes.len(),
                from < self.scopes.len(),
                self.scopes.len() == before.len(),
                forall|k: int| 0 <= k < before.len() && k != into ==> self.scopes[k] == before[k],
                self.scopes[into as int].parent == before[into as int].parent,
                distinct(self.scopes[into as int].entries@),
                distinct(source),
                source == before[from as int].entries@,
                forall|k: int| 0 <= k < before.len() ==> distinct((#[trigger] before[k]).entries@),
                n == source.len(),
                i <= n,
                bindings_of(self.scopes[into as int].entries@) == target.union_prefer_right(
                    bindings_of(source.take(i as int)),
                ),
            decreases n - i,
        {
            let name = self.scopes[from].entries[i].name.clone();
            let value = self.scopes[from].entries[i].value.copy();
            proof {
                let done = source.take(i as int);
                assert(distinct(done)) by {
                    assert forall|a: int, b: int| 0 <= a < b < done.len() implies (
                    #[trigger] done[a]).name@ != (#[trigger] done[b]).name@ by {
                        assert(source[a].name@ != source[b].name@);
                    }
                }
                assert(!holds(done, source[i as int].name@)) by {
                    if holds(done, source[i as int].name@) {
                        let j = slot(done, source[i as int].name@);
                        assert(source[j].name@ != source[i as int].name@);
                    }
                }
                lemma_append(done, source[i as int]);
                assert(done.push(source[i as int]) =~= source.take(i + 1));
            }
            self.scopes[into].put(name, value);
            proof {
                let old_part = bindings_of(source.take(i as int));
                let new_part = bindings_of(source.take(i + 1));
                assert(target.union_prefer_right(old_part).insert(name@, value@)
                    =~= target.union_prefer_right(new_part));
            }
            i += 1;
        }
        proof {
            assert(source.take(n as int) =~= source);
            assert(self@ =~= merged(old(self)@, into as int, from as int));
            assert forall|k: int| 0 <= k < self.scopes.len() implies distinct(
                (#[trigger] self.scopes[k]).entries@,
            ) by {
                if k != into {
                    assert(self.scopes[k] == before[k]);
                }
            }
            assert(chained(self@)) by {
                assert forall|k: int| 0 <= k < self@.len() implies ((#[trigger] self@[k]).parent matches Some(
                    p,
                ) ==> 0 <= p < k) by {
                    assert(self@[k].parent == old(self)@[k].parent);
                }
            }
        }
    }

    /// Writes the default bindings into the scope `scope`: the current file's
    /// path, empty at first, and every native procedure under its name. Does
    /// nothing if there is no such scope.
    pub fn populate_default(&mut self, scope: usize)
        requires
            old(self).wf(),
        ensures
            final(self).wf(),
            final(self)@ == populated(old(self)@, scope as int),
    {
        if scope >= self.scopes.len() {
            return;
        }
        self.declare(scope, String::from_str("FILE"), EnvValue::Value(Value::Str(String::new())));
        self.declare(scope, String::from_str("+"), EnvValue::EnvCode(Builtin::Add));
        self.declare(scope, String::from_str("="), EnvValue::EnvCode(Builtin::Equal));
        self.declare(scope, String::from_str("print"), EnvValue::EnvCode(Builtin::Print));
        self.declare(scope, String::from_str("if"), EnvValue::EnvCode(Builtin::If));
        self.declare(scope, String::from_str("define"), EnvValue::EnvCode(Builtin::Define));
        self.declare(scope, String::from_str("fn"), EnvValue::EnvCode(Builtin::Function));
        self.declare(scope, String::from_str("get"), EnvValue::EnvCode(Builtin::Get));
        self.declare(scope, String::from_str("set"), EnvValue::EnvCode(Builtin::Update));
        self.declare(scope, String::from_str("len"), EnvValue::EnvCode(Builtin::Len));
        self.declare(scope, String::from_str("import"), EnvValue::EnvCode(Builtin::Import));
        self.declare(scope, String::from_str("type"), EnvValue::EnvCode(Builtin::Type));
        proof {
            let had = old(self)@[scope as int].bindings;
            assert(self@[scope as int].bindings =~= had.union_prefer_right(defaults()));
            assert(self@ =~= populated(old(self)@, scope as int));
        }
    }
}

/// Whether the search for `key` that starts in `from` comes to the scope
/// `at`: either `at` is `from` itself, or `from` does not bind `key` and the
/// search that starts in its parent comes to `at`.
pub open spec fn reaches(scopes: Seq<SpecScope>, from: int, at: int, key: Seq<char>) -> bool
    decreases from,
{
    if !(0 <= from < scopes.len()) {
        false
    } else if from == at {
        true
    } else if scopes[from].bindings.dom().contains(key) {
        false
    } else {
        match scopes[from].parent {
            Some(p) => 0 <= p < from && reaches(scopes, p, at, key),
            None => false,
        }
    }
}

/// Whether `at` is `from` itself or one of its ancestors.
pub open spec fn on_chain(scopes: Seq<SpecScope>, from: int, at: int) -> bool
    decreases from,
{
    if !(0 <= from < scopes.len()) {
        false
    } else if from == at {
        true
    } else {
        match scopes[from].parent {
            Some(p) => 0 <= p < from && on_chain(scopes, p, at),
            None => false,
        }
    }
}

/// A declaration shadows locally. After `key` is declared in the scope `at`,
/// a search for `key` finds the new binding exactly when it comes to `at`: from
/// `at` itself and from every descendant with no binding of `key` in between.
/// Every other search finds what it found before; in particular nothing
/// changes for a scope that does not have `at` on its chain, such as a parent
/// or a sibling, nor for any other name.
pub proof fn law_declare_shadows(
    scopes: Seq<SpecScope>,
    at: int,
    key: Seq<char>,
    value: SpecEnvValue,
    from: int,
    name: Seq<char>,
)
    requires
        0 <= at < scopes.len(),
    ensures
        lookup(declared(scopes, at, key, value), at, key) == Some(value),
        reaches(scopes, from, at, key) ==> lookup(declared(scopes, at, key, value), from, key)
            == Some(value),
        !reaches(scopes, from, at, key) ==> lookup(declared(scopes, at, key, value), from, key)
            == lookup(scopes, from, key),
        !on_chain(scopes, from, at) ==> !reaches(scopes, from, at, key),
        name != key || !on_chain(scopes, from, at) ==> lookup(
            declared(scopes, at, key, value),
            from,
            name,
        ) == lookup(scopes, from, name),
    decreases from,
{
    let after = declared(scopes, at, key, value);
    if 0 <= from < scopes.len() {
        if let Some(p) = scopes[from].parent {
            if 0 <= p < from {
                law_declare_shadows(scopes, at, key, value, p, name);
                law_declare_shadows(scopes, at, key, value, p, key);
            }
        }
    }
}

/// An assignment is shared. Rebinding `key` from the scope `at` changes the
/// nearest scope `h` on the chain of `at` that binds it, so every search for
/// `key` that comes to `h`, from whatever scope it starts, finds the new
/// value; every other search finds what it found before. If no scope on the
/// chain binds `key`, nothing changes at all.
pub proof fn law_replace_shared(
    scopes: Seq<SpecScope>,
    at: int,
    key: Seq<char>,
    value: SpecEnvValue,
    from: int,
    name: Seq<char>,
)
    ensures
        holder(scopes, at, key) is None ==> replaced(scopes, at, key, value) == scopes,
        holder(scopes, at, key) matches Some(h) ==> {
            &&& reaches(scopes, at, h, key)
            &&& lookup(replaced(scopes, at, key, value), at, key) == Some(value)
            &&& reaches(scopes, from, h, key) ==> lookup(
                replaced(scopes, at, key, value),
                from,
                key,
            ) == Some(value)
            &&& !reaches(scopes, from, h, key) ==> lookup(
                replaced(scopes, at, key, value),
                from,
                key,
            ) == lookup(scopes, from, key)
        },
        name != key ==> lookup(replaced(scopes, at, key, value), from, name) == lookup(
            scopes,
            from,
            name,
        ),
{
    match holder(scopes, at, key) {
        Some(h) => {
            lemma_holder_reached(scopes, at, key);
            law_declare_shadows(scopes, h, key, value, from, name);
            law_declare_shadows(scopes, h, key, value, at, name);
        },
        None => {},
    }
}

/// The search for a name comes to the scope that holds it.
pub proof fn lemma_holder_reached(scopes: Seq<SpecScope>, at: int, key: Seq<char>)
    ensures
        holder(scopes, at, key) matches Some(h) ==> {
            &&& 0 <= h <= at < scopes.len()
            &&& scopes[h].bindings.dom().contains(key)
            &&& reaches(scopes, at, h, key)
        },
    decreases at,
{
    if 0 <= at < scopes.len() && !scopes[at].bindings.dom().contains(key) {
        if let Some(p) = scopes[at].parent {
            if 0 <= p < at {
                lemma_holder_reached(scopes, p, key);
            }
        }
    }
}

/// A new scope sees what its parent sees, and is seen by no scope that was
/// there before: every search that starts in an older scope finds what it
/// found before the new scope was added.
pub proof fn law_open_inherits(
    scopes: Seq<SpecScope>,
    parent: Option<int>,
    from: int,
    name: Seq<char>,
)
    ensures
        0 <= from < scopes.len() ==> lookup(opened(scopes, parent), from, name) == lookup(
            scopes,
            from,
            name,
        ),
        parent matches Some(p) ==> lookup(opened(scopes, parent), scopes.len() as int, name)
            == lookup(scopes, p, name),
        parent is None ==> lookup(opened(scopes, parent), scopes.len() as int, name) is None,
{
    let after = opened(scopes, parent);
    if 0 <= from < scopes.len() {
        lemma_lookup_local(scopes, after, from, name);
    }
    if let Some(p) = parent {
        if 0 <= p < scopes.len() {
            lemma_lookup_local(scopes, after, p, name);
        }
    }
}

/// What a merge makes visible. After the bindings of `from` are merged into
/// `into`, every name that `from` binds is bound in `into` to what `from`
/// binds it to, every other name of `into` is as it was, and merging the same
/// bindings a second time changes nothing.
pub proof fn law_merge(scopes: Seq<SpecScope>, into: int, from: int, name: Seq<char>)
    requires
        0 <= into < scopes.len(),
        0 <= from < scopes.len(),
    ensures
        scopes[from].bindings.dom().contains(name) ==> lookup(
            merged(scopes, into, from),
            into,
            name,
        ) == Some(scopes[from].bindings[name]),
        !scopes[from].bindings.dom().contains(name) ==> lookup(
            merged(scopes, into, from),
            into,
            name,
        ) == lookup(scopes, into, name),
        declared_all(merged(scopes, into, from), into, scopes[from].bindings) == merged(
            scopes,
            into,
            from,
        ),
{
    let after = merged(scopes, into, from);
    let extra = scopes[from].bindings;
    assert(after[into].bindings.union_prefer_right(extra) =~= after[into].bindings);
    assert(declared_all(after, into, extra) =~= after);
    if !extra.dom().contains(name) && !scopes[into].bindings.dom().contains(name) {
        if let Some(p) = scopes[into].parent {
            if 0 <= p < into {
                lemma_lookup_local(scopes, after, p, name);
            }
        }
    }
}

/// A search sees only the scopes on its chain: if two sequences of scopes
/// agree on every scope up to `from`, a search from `from` finds the same in
/// both.
pub proof fn lemma_lookup_local(
    a: Seq<SpecScope>,
    b: Seq<SpecScope>,
    from: int,
    name: Seq<char>,
)
    requires
        0 <= from < a.len(),
        from < b.len(),
        forall|i: int| 0 <= i <= from ==> a[i] == b[i],
    ensures
        holder(a, from, name) == holder(b, from, name),
        lookup(a, from, name) == lookup(b, from, name),
    decreases from,
{
    if !a[from].bindings.dom().contains(name) {
        if let Some(p) = a[from].parent {
            if 0 <= p < from {
                lemma_lookup_local(a, b, p, name);
            }
        }
    }
}

/// Nothing that is done to an environment removes a scope, relinks one or
/// deletes a binding.
pub proof fn lemma_extends(
    scopes: Seq<SpecScope>,
    at: int,
    key: Seq<char>,
    value: SpecEnvValue,
    from: int,
    parent: Option<int>,
)
    ensures
        extends(scopes, scopes),
        extends(scopes, declared(scopes, at, key, value)),
        extends(scopes, replaced(scopes, at, key, value)),
        extends(scopes, merged(scopes, at, from)),
        extends(scopes, opened(scopes, parent)),
        extends(scopes, populated(scopes, at)),
{
    lemma_holder_reached(scopes, at, key);
}

/// What holds from one state to the next holds over several steps.
pub proof fn lemma_extends_trans(a: Seq<SpecScope>, b: Seq<SpecScope>, c: Seq<SpecScope>)
    requires
        extends(a, b),
        extends(b, c),
    ensures
        extends(a, c),
{
    assert forall|i: int| 0 <= i < a.len() implies {
        &&& (#[trigger] c[i]).parent == a[i].parent
        &&& a[i].bindings.dom().subset_of(c[i].bindings.dom())
    } by {
        assert(b[i].parent == a[i].parent);
        assert(c[i].parent == b[i].parent);
    }
}

} // verus!
