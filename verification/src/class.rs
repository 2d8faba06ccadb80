//! Class definitions, the table that registers them, and lookup along the
//! inheritance chain.

use vstd::prelude::*;
use crate::error::Fault;
use crate::syntax::{Literal, Stmt, TypeName};
use crate::value::Value;

verus! {

/// A field of a class.
#[derive(Debug)]
pub struct FieldDef {
    pub name: String,
    pub ty: TypeName,
    /// A static field lives once for the class; any other once for each
    /// instance.
    pub is_static: bool,
    /// The constant that the field starts with, where one is declared.
    pub init: Option<Literal>,
}

impl FieldDef {
    /// What the field holds before it is assigned: the declared constant,
    /// or else the default of its type.
    pub open spec fn initial_spec(self) -> Value {
        match self.init {
            Some(l) => l.value_spec(),
            None => self.ty.default_value(),
        }
    }

    /// What the field holds before it is assigned.
    pub fn initial(&self) -> (v: Value)
        ensures
            v == self.initial_spec(),
            !(v is Object),
            !(v is Array),
    {
        match self.init {
            Some(l) => l.value(),
            None => self.ty.initial(),
        }
    }
}

/// A parameter of a method.
#[derive(Debug)]
pub struct Param {
    pub name: String,
    pub ty: TypeName,
}

/// A method of a class. The constructor of a class is its method of the
/// same name.
#[derive(Debug)]
pub struct MethodDef {
    pub name: String,
    /// The parameters; they take the first slots of the frame.
    pub params: Vec<Param>,
    pub ret: TypeName,
    pub body: Vec<Stmt>,
}

/// A class as it is handed over for registration.
#[derive(Debug)]
pub struct ClassDef {
    pub name: String,
    /// The name of the one parent, if there is one.
    pub parent: Option<String>,
    pub fields: Vec<FieldDef>,
    pub methods: Vec<MethodDef>,
}

/// Whether `names[i]` is the first entry of `names` that equals `name`.
pub open spec fn is_first<A>(names: Seq<A>, name: A, i: int) -> bool {
    &&& 0 <= i < names.len()
    &&& names[i] == name
    &&& forall|j: int| 0 <= j < i ==> names[j] != name
}

/// The position of the first entry of `names` that equals `name`.
pub open spec fn position<A>(names: Seq<A>, name: A) -> Option<int> {
    if exists|i: int| is_first(names, name, i) {
        Some(choose|i: int| is_first(names, name, i))
    } else {
        None
    }
}

/// There is one first occurrence at most, so finding one settles `position`.
pub proof fn lemma_position_found<A>(names: Seq<A>, name: A, i: int)
    requires
        is_first(names, name, i),
    ensures
        position(names, name) == Some(i),
{
    let w = choose|w: int| is_first(names, name, w);
    if w < i {
        assert(names[w] != name);
    }
    if i < w {
        assert(names[i] != name);
    }
}

/// What `position` finds is a first occurrence, and where it finds nothing
/// there is none.
pub proof fn lemma_position<A>(names: Seq<A>, name: A)
    ensures
        match position(names, name) {
            Some(i) => is_first(names, name, i),
            None => forall|j: int| 0 <= j < names.len() ==> names[j] != name,
        },
{
    if position(names, name) is None {
        assert forall|j: int| 0 <= j < names.len() implies names[j] != name by {
            if names[j] == name {
                lemma_first_exists(names, name, j);
            }
        }
    }
}

/// An occurrence at `j` means that there is a first occurrence.
pub proof fn lemma_first_exists<A>(names: Seq<A>, name: A, j: int)
    requires
        0 <= j < names.len(),
        names[j] == name,
    ensures
        exists|i: int| is_first(names, name, i),
    decreases j,
{
    if exists|k: int| 0 <= k < j && names[k] == name {
        let k = choose|k: int| 0 <= k < j && names[k] == name;
        lemma_first_exists(names, name, k);
    } else {
        assert(is_first(names, name, j));
    }
}

impl ClassDef {
    /// The names of the fields, in the order of their declaration.
    pub open spec fn field_names(self) -> Seq<Seq<char>> {
        Seq::new(self.fields.len() as nat, |i: int| self.fields@[i].name@)
    }

    /// The names of the methods, in the order of their declaration.
    pub open spec fn method_names(self) -> Seq<Seq<char>> {
        Seq::new(self.methods.len() as nat, |i: int| self.methods@[i].name@)
    }

    /// The first field of this class with the given name.
    pub fn find_field(&self, name: &String) -> (res: Option<usize>)
        ensures
            match res {
                Some(i) => position(self.field_names(), name@) == Some(i as int),
                None => position(self.field_names(), name@) is None,
            },
    {
        let n: usize = self.fields.len();
        let mut i: usize = 0;
        while i < n
            invariant
                n == self.fields@.len(),
                i <= n,
                forall|j: int| 0 <= j < i ==> self.field_names()[j] != name@,
            decreases n - i,
        {
            if self.fields[i].name == *name {
                proof {
                    lemma_position_found(self.field_names(), name@, i as int);
                }
                return Some(i);
            }
            i += 1;
        }
        None
    }

    /// The first method of this class with the given name.
    pub fn find_method(&self, name: &String) -> (res: Option<usize>)
        ensures
            match res {
                Some(i) => position(self.method_names(), name@) == Some(i as int),
                None => position(self.method_names(), name@) is None,
            },
    {
        let n: usize = self.methods.len();
        let mut i: usize = 0;
        while i < n
            invariant
                n == self.methods@.len(),
                i <= n,
                forall|j: int| 0 <= j < i ==> self.method_names()[j] != name@,
            decreases n - i,
        {
            if self.methods[i].name == *name {
                proof {
                    lemma_position_found(self.method_names(), name@, i as int);
                }
                return Some(i);
            }
            i += 1;
        }
        None
    }
}

/// The place of a field or of a method: the class that declares it, and its
/// position among the fields or methods of that class.
#[derive(Clone, Copy, Debug, PartialEq, Eq, Structural)]
pub struct Member {
    pub class: usize,
    pub index: usize,
}

impl ClassDef {
    /// The places of the fields among the first `n` that each instance holds,
    /// in the order of their declaration, for the class with identifier
    /// `class`.
    pub open spec fn own_slots(self, class: int, n: int) -> Seq<Member>
        decreases n,
    {
        if n <= 0 {
            Seq::empty()
        } else {
            let before = self.own_slots(class, n - 1);
            if self.fields@[n - 1].is_static {
                before
            } else {
                before.push(Member { class: class as usize, index: (n - 1) as usize })
            }
        }
    }
}

/// A registered class.
#[derive(Debug)]
pub struct ClassEntry {
    pub def: ClassDef,
    /// The identifier of the parent.
    pub parent: Option<usize>,
    /// The fields that an instance holds, those of the root ancestor first.
    pub layout: Vec<Member>,
}

/// The registered classes. The identifier of a class is its position in the
/// order of registration, and a parent is registered before its children.
#[derive(Debug)]
pub struct ClassTable {
    entries: Vec<ClassEntry>,
}

impl View for ClassTable {
    type V = Seq<ClassEntry>;

    closed spec fn view(&self) -> Seq<ClassEntry> {
        self.entries@
    }
}

impl ClassTable {
    /// The names of the classes, in the order of registration.
    pub open spec fn names(self) -> Seq<Seq<char>> {
        Seq::new(self@.len(), |c: int| self@[c].def.name@)
    }

    /// The parent of class `c`, where it has one.
    pub open spec fn up(self, c: int) -> Option<int> {
        if 0 <= c < self@.len() {
            match self@[c].parent {
                Some(p) => if p < c {
                    Some(p as int)
                } else {
                    None
                },
                None => None,
            }
        } else {
            None
        }
    }

    /// Whether class `c` is `a` or has `a` among its ancestors.
    pub open spec fn descends(self, c: int, a: int) -> bool
        decreases c,
    {
        c == a || match self.up(c) {
            Some(p) => self.descends(p, a),
            None => false,
        }
    }

    /// The method that a call of `name` on an instance of class `c` runs: the
    /// first of that name in `c`, or else what the parent of `c` resolves
    /// it to.
    pub open spec fn resolve_method_spec(self, c: int, name: Seq<char>) -> Option<Member>
        decreases c,
    {
        if 0 <= c < self@.len() {
            match position(self@[c].def.method_names(), name) {
                Some(m) => Some(Member { class: c as usize, index: m as usize }),
                None => match self.up(c) {
                    Some(p) => self.resolve_method_spec(p, name),
                    None => None,
                },
            }
        } else {
            None
        }
    }

    /// The field that `name` stands for in class `c`: the first of that name
    /// in `c`, or else what the parent of `c` resolves it to.
    pub open spec fn resolve_field_spec(self, c: int, name: Seq<char>) -> Option<Member>
        decreases c,
    {
        if 0 <= c < self@.len() {
            match position(self@[c].def.field_names(), name) {
                Some(f) => Some(Member { class: c as usize, index: f as usize }),
                None => match self.up(c) {
                    Some(p) => self.resolve_field_spec(p, name),
                    None => None,
                },
            }
        } else {
            None
        }
    }

    /// The names of all fields along the chain of class `c`, those of the
    /// root ancestor first.
    pub open spec fn chain_field_names(self, c: int) -> Seq<Seq<char>>
        decreases c,
    {
        if 0 <= c < self@.len() {
            match self.up(c) {
                Some(p) => self.chain_field_names(p) + self@[c].def.field_names(),
                None => self@[c].def.field_names(),
            }
        } else {
            Seq::empty()
        }
    }

    /// The fields that an instance of class `c` holds, slot by slot: those
    /// of the root ancestor first, those of `c` itself last.
    pub open spec fn layout_spec(self, c: int) -> Seq<Member>
        decreases c,
    {
        if 0 <= c < self@.len() {
            let own = self@[c].def.own_slots(c, self@[c].def.fields@.len() as int);
            match self.up(c) {
                Some(p) => self.layout_spec(p) + own,
                None => own,
            }
        } else {
            Seq::empty()
        }
    }

    /// Class `c` is linked to the parent that its definition names, which was
    /// registered before it; its layout is the one that the chain gives; and
    /// no field name occurs twice along its chain.
    pub open spec fn entry_wf(self, c: int) -> bool {
        &&& match self@[c].parent {
            Some(p) => {
                &&& p < c
                &&& self@[c].def.parent matches Some(n) && n@ == self@[p as int].def.name@
            },
            None => self@[c].def.parent is None,
        }
        &&& self@[c].layout@ == self.layout_spec(c)
        &&& self.chain_field_names(c).no_duplicates()
    }

    /// Every class is well linked, and no two classes share a name.
    pub open spec fn wf(self) -> bool {
        &&& forall|c: int| 0 <= c < self@.len() ==> #[trigger] self.entry_wf(c)
        &&& self.names().no_duplicates()
    }

    /// The method at `m`.
    pub open spec fn method_at(self, m: Member) -> MethodDef {
        self@[m.class as int].def.methods@[m.index as int]
    }

    /// Whether `m` names a method of a registered class.
    pub open spec fn has_method(self, m: Member) -> bool {
        m.class < self@.len() && m.index < self@[m.class as int].def.methods.len()
    }

    /// Whether `m` names a field of a registered class.
    pub open spec fn has_field(self, m: Member) -> bool {
        m.class < self@.len() && m.index < self@[m.class as int].def.fields.len()
    }

    /// A table without classes.
    pub fn new() -> (table: ClassTable)
        ensures
            table@.len() == 0,
            table.wf(),
    {
        ClassTable { entries: Vec::new() }
    }

    /// The number of registered classes.
    pub fn len(&self) -> (n: usize)
        ensures
            n == self@.len(),
    {
        self.entries.len()
    }

    /// The class with identifier `c`.
    pub fn get(&self, c: usize) -> (entry: &ClassEntry)
        requires
            c < self@.len(),
        ensures
            *entry == self@[c as int],
    {
        &self.entries[c]
    }

    /// The method at `m`.
    pub fn method(&self, m: Member) -> (def: &MethodDef)
        requires
            self.has_method(m),
        ensures
            *def == self@[m.class as int].def.methods@[m.index as int],
    {
        &self.entries[m.class].def.methods[m.index]
    }

    /// The field at `m`.
    pub fn field(&self, m: Member) -> (def: &FieldDef)
        requires
            self.has_field(m),
        ensures
            *def == self@[m.class as int].def.fields@[m.index as int],
    {
        &self.entries[m.class].def.fields[m.index]
    }

    /// The identifier of the class with the given name.
    pub fn find(&self, name: &String) -> (res: Option<usize>)
        ensures
            match res {
                Some(c) => position(self.names(), name@) == Some(c as int),
                None => position(self.names(), name@) is None,
            },
    {
        let n: usize = self.entries.len();
        let mut c: usize = 0;
        while c < n
            invariant
                n == self@.len(),
                c <= n,
                forall|j: int| 0 <= j < c ==> self.names()[j] != name@,
            decreases n - c,
        {
            if self.entries[c].def.name == *name {
                proof {
                    lemma_position_found(self.names(), name@, c as int);
                }
                return Some(c);
            }
            c += 1;
        }
        None
    }

    /// The method that a call of `name` on an instance of class `c` runs.
    /// The search starts at `c` and walks towards the root, so the
    /// declaration nearest to `c` wins.
    pub fn resolve_method(&self, c: usize, name: &String) -> (res: Option<Member>)
        requires
            self.wf(),
            c < self@.len(),
        ensures
            res == self.resolve_method_spec(c as int, name@),
            res matches Some(m) ==> self.has_method(m) && self.descends(c as int, m.class as int),
    {
        let mut cur: usize = c;
        loop
            invariant
                self.wf(),
                cur < self@.len(),
                self.resolve_method_spec(c as int, name@) == self.resolve_method_spec(
                    cur as int,
                    name@,
                ),
                self.descends(c as int, cur as int),
            decreases cur,
        {
            proof {
                lemma_position(self@[cur as int].def.method_names(), name@);
                assert(self.entry_wf(cur as int));
            }
            match self.entries[cur].def.find_method(name) {
                Some(m) => {
                    return Some(Member { class: cur, index: m });
                },
                None => {},
            }
            match self.entries[cur].parent {
                Some(p) => {
                    proof {
                        self.lemma_descends_up(c as int, cur as int);
                    }
                    cur = p;
                },
                None => {
                    return None;
                },
            }
        }
    }

    /// The field that `name` stands for in class `c`. The search starts at
    /// `c` and walks towards the root.
    pub fn resolve_field(&self, c: usize, name: &String) -> (res: Option<Member>)
        requires
            self.wf(),
            c < self@.len(),
        ensures
            res == self.resolve_field_spec(c as int, name@),
            res matches Some(m) ==> self.has_field(m) && self.descends(c as int, m.class as int),
    {
        let mut cur: usize = c;
        loop
            invariant
                self.wf(),
                cur < self@.len(),
                self.resolve_field_spec(c as int, name@) == self.resolve_field_spec(
                    cur as int,
                    name@,
                ),
                self.descends(c as int, cur as int),
            decreases cur,
        {
            proof {
                lemma_position(self@[cur as int].def.field_names(), name@);
                assert(self.entry_wf(cur as int));
            }
            match self.entries[cur].def.find_field(name) {
                Some(f) => {
                    return Some(Member { class: cur, index: f });
                },
                None => {},
            }
            match self.entries[cur].parent {
                Some(p) => {
                    proof {
                        self.lemma_descends_up(c as int, cur as int);
                    }
                    cur = p;
                },
                None => {
                    return None;
                },
            }
        }
    }

    /// Whether class `c` is `a` or has `a` among its ancestors.
    pub fn is_descendant(&self, c: usize, a: usize) -> (res: bool)
        requires
            self.wf(),
            c < self@.len(),
        ensures
            res == self.descends(c as int, a as int),
    {
        let mut cur: usize = c;
        loop
            invariant
                self.wf(),
                cur < self@.len(),
                self.descends(c as int, a as int) == self.descends(cur as int, a as int),
            decreases cur,
        {
            proof {
                assert(self.entry_wf(cur as int));
            }
            if cur == a {
                return true;
            }
            match self.entries[cur].parent {
                Some(p) => {
                    cur = p;
                },
                None => {
                    return false;
                },
            }
        }
    }

    /// A class descends from the parent of each class that it descends from.
    pub proof fn lemma_descends_up(self, c: int, a: int)
        requires
            self.descends(c, a),
            self.up(a) is Some,
        ensures
            self.descends(c, self.up(a).unwrap()),
        decreases c,
    {
        if c == a {
            let p = self.up(a).unwrap();
            assert(self.descends(p, p));
        } else {
            self.lemma_descends_up(self.up(c).unwrap(), a);
        }
    }
}

impl ClassTable {
    /// Whether `other` holds every class of this table under the same
    /// identifier, and maybe more.
    pub open spec fn extended_by(self, other: ClassTable) -> bool {
        &&& self@.len() <= other@.len()
        &&& forall|c: int| 0 <= c < self@.len() ==> self@[c] == other@[c]
    }

    /// Registering further classes changes nothing for a class that is
    /// already there: its chain, its layout, and what names resolve to.
    pub proof fn lemma_extension(self, other: ClassTable, c: int)
        requires
            self.extended_by(other),
            0 <= c < self@.len(),
        ensures
            other.up(c) == self.up(c),
            other.chain_field_names(c) == self.chain_field_names(c),
            other.layout_spec(c) == self.layout_spec(c),
        decreases c,
    {
        assert(self@[c] == other@[c]);
        match self.up(c) {
            Some(p) => {
                self.lemma_extension(other, p);
            },
            None => {},
        }
    }

    /// Registering further classes changes nothing in what a class that is
    /// already there descends from, nor in what a name resolves to for it.
    pub proof fn lemma_extension_lookup(self, other: ClassTable, c: int, a: int, name: Seq<char>)
        requires
            self.extended_by(other),
            0 <= c < self@.len(),
        ensures
            other.descends(c, a) == self.descends(c, a),
            other.resolve_method_spec(c, name) == self.resolve_method_spec(c, name),
            other.resolve_field_spec(c, name) == self.resolve_field_spec(c, name),
        decreases c,
    {
        assert(self@[c] == other@[c]);
        match self.up(c) {
            Some(p) => {
                self.lemma_extension_lookup(other, p, a, name);
            },
            None => {},
        }
    }

    /// A name resolves to a field of class `c` just when it is among the
    /// field names along the chain of `c`.
    pub proof fn lemma_resolves_iff_named(self, c: int, name: Seq<char>)
        requires
            0 <= c < self@.len(),
        ensures
            self.resolve_field_spec(c, name) is Some <==> self.chain_field_names(c).contains(name),
        decreases c,
    {
        let own = self@[c].def.field_names();
        lemma_position(own, name);
        match self.up(c) {
            Some(p) => {
                self.lemma_resolves_iff_named(p, name);
                let up = self.chain_field_names(p);
                let all = up + own;
                if position(own, name) is Some {
                    let i = position(own, name).unwrap();
                    assert(all[up.len() + i] == name);
                } else if up.contains(name) {
                    let k = choose|k: int| 0 <= k < up.len() && up[k] == name;
                    assert(all[k] == name);
                } else {
                    if all.contains(name) {
                        let k = choose|k: int| 0 <= k < all.len() && all[k] == name;
                        if k < up.len() {
                            assert(up[k] == name);
                        } else {
                            assert(own[k - up.len()] == name);
                        }
                    }
                }
            },
            None => {
                if position(own, name) is Some {
                    let i = position(own, name).unwrap();
                    assert(own[i] == name);
                }
            },
        }
    }

    /// The field names that a class with the given parent takes over.
    pub open spec fn inherited_names(self, parent: Option<usize>) -> Seq<Seq<char>> {
        match parent {
            Some(p) => self.chain_field_names(p as int),
            None => Seq::empty(),
        }
    }

    /// The slots that a class with the given parent takes over.
    pub open spec fn inherited_layout(self, parent: Option<usize>) -> Seq<Member> {
        match parent {
            Some(p) => self.layout_spec(p as int),
            None => Seq::empty(),
        }
    }

    /// The identifier of the parent that `def` names, where it names one
    /// that is registered.
    pub open spec fn parent_of(self, def: ClassDef) -> Option<usize> {
        match def.parent {
            Some(n) => match position(self.names(), n@) {
                Some(p) => Some(p as usize),
                None => None,
            },
            None => None,
        }
    }

    /// Why `def` is not registered, if it is not: its name is taken; or it
    /// names a parent that is not registered; or one of its fields has the
    /// name of another of its fields or of a field of an ancestor.
    pub open spec fn define_fault(self, def: ClassDef) -> Option<Fault> {
        if position(self.names(), def.name@) is Some {
            Some(Fault::DuplicateClass)
        } else if def.parent is Some && self.parent_of(def) is None {
            Some(Fault::UnresolvedClass)
        } else if !(self.inherited_names(self.parent_of(def)) + def.field_names()).no_duplicates() {
            Some(Fault::DuplicateFieldName)
        } else {
            None
        }
    }

    /// Whether the fields of `def` differ in name from each other and from
    /// every field along the chain of `parent`.
    fn fields_distinct(&self, parent: Option<usize>, def: &ClassDef) -> (ok: bool)
        requires
            self.wf(),
            parent matches Some(p) ==> p < self@.len(),
        ensures
            ok == (self.inherited_names(parent) + def.field_names()).no_duplicates(),
    {
        let ghost up = self.inherited_names(parent);
        let ghost own = def.field_names();
        let ghost all = up + own;
        proof {
            if parent is Some {
                assert(self.entry_wf(parent.unwrap() as int));
            }
        }
        let n: usize = def.fields.len();
        let mut i: usize = 0;
        while i < n
            invariant
                self.wf(),
                parent matches Some(p) ==> p < self@.len(),
                up == self.inherited_names(parent),
                own == def.field_names(),
                all == up + own,
                up.no_duplicates(),
                n == def.fields@.len(),
                i <= n,
                forall|a: int, b: int| 0 <= b < a < i ==> own[a] != own[b],
                forall|a: int| 0 <= a < i ==> !up.contains(#[trigger] own[a]),
            decreases n - i,
        {
            let name: &String = &def.fields[i].name;
            let mut j: usize = 0;
            while j < i
                invariant
                    n == def.fields@.len(),
                    i < n,
                    j <= i,
                    up == self.inherited_names(parent),
                    own == def.field_names(),
                    all == up + own,
                    name@ == own[i as int],
                    forall|b: int| 0 <= b < j ==> own[i as int] != own[b],
                decreases i - j,
            {
                if def.fields[j].name == *name {
                    proof {
                        assert(all[up.len() + j] == all[up.len() + i]);
                    }
                    return false;
                }
                j += 1;
            }
            match parent {
                Some(p) => {
                    proof {
                        self.lemma_resolves_iff_named(p as int, name@);
                    }
                    if self.resolve_field(p, name).is_some() {
                        proof {
                            let k = choose|k: int| 0 <= k < up.len() && up[k] == name@;
                            assert(all[k] == all[up.len() + i]);
                        }
                        return false;
                    }
                },
                None => {},
            }
            i += 1;
        }
        proof {
            assert forall|a: int, b: int| 0 <= a < all.len() && 0 <= b < all.len() && a != b implies all[a]
                != all[b] by {
                let (lo, hi) = if a < b {
                    (a, b)
                } else {
                    (b, a)
                };
                if hi < up.len() {
                } else if lo < up.len() {
                    assert(!up.contains(own[hi - up.len()]));
                    assert(up[lo] == all[lo]);
                } else {
                    assert(own[hi - up.len()] != own[lo - up.len()]);
                }
            }
        }
        true
    }

    /// The layout of a class with identifier `class`, parent `parent` and
    /// definition `def`.
    fn layout_for(&self, class: usize, parent: Option<usize>, def: &ClassDef) -> (layout: Vec<Member>)
        requires
            self.wf(),
            parent matches Some(p) ==> p < self@.len(),
        ensures
            layout@ == self.inherited_layout(parent) + def.own_slots(
                class as int,
                def.fields@.len() as int,
            ),
    {
        let mut layout: Vec<Member> = Vec::new();
        match parent {
            Some(p) => {
                proof {
                    assert(self.entry_wf(p as int));
                }
                let taken: &Vec<Member> = &self.entries[p].layout;
                let m: usize = taken.len();
                let mut k: usize = 0;
                while k < m
                    invariant
                        m == taken@.len(),
                        k <= m,
                        layout@ == taken@.take(k as int),
                    decreases m - k,
                {
                    layout.push(taken[k]);
                    k += 1;
                    proof {
                        assert(layout@ =~= taken@.take(k as int));
                    }
                }
                proof {
                    assert(taken@.take(m as int) =~= taken@);
                }
            },
            None => {},
        }
        let ghost base = layout@;
        let n: usize = def.fields.len();
        let mut i: usize = 0;
        proof {
            assert(layout@ =~= base + def.own_slots(class as int, 0));
        }
        while i < n
            invariant
                n == def.fields@.len(),
                i <= n,
                layout@ == base + def.own_slots(class as int, i as int),
            decreases n - i,
        {
            if !def.fields[i].is_static {
                layout.push(Member { class, index: i });
            }
            i += 1;
            proof {
                assert(layout@ =~= base + def.own_slots(class as int, i as int));
            }
        }
        layout
    }

    /// Registers `def` and returns its identifier. The classes that are
    /// already registered keep their identifiers and stay as they are. A
    /// definition that is turned down leaves the table unchanged.
    pub fn define_class(&mut self, def: ClassDef) -> (res: Result<usize, Fault>)
        requires
            old(self).wf(),
        ensures
            final(self).wf(),
            old(self).extended_by(*final(self)),
            match res {
                Ok(c) => {
                    &&& old(self).define_fault(def) is None
                    &&& c == old(self)@.len()
                    &&& final(self)@.len() == c + 1
                    &&& final(self)@[c as int].def == def
                    &&& final(self)@[c as int].parent == old(self).parent_of(def)
                },
                Err(f) => {
                    &&& old(self).define_fault(def) == Some(f)
                    &&& final(self)@ == old(self)@
                },
            },
    {
        if self.find(&def.name).is_some() {
            return Err(Fault::DuplicateClass);
        }
        let parent: Option<usize> = match &def.parent {
            Some(n) => match self.find(n) {
                Some(p) => Some(p),
                None => {
                    return Err(Fault::UnresolvedClass);
                },
            },
            None => None,
        };
        proof {
            if def.parent is Some {
                lemma_position(self.names(), def.parent.unwrap()@);
            }
        }
        if !self.fields_distinct(parent, &def) {
            return Err(Fault::DuplicateFieldName);
        }
        let c: usize = self.entries.len();
        let layout: Vec<Member> = self.layout_for(c, parent, &def);
        let ghost before = *self;
        self.entries.push(ClassEntry { def, parent, layout });
        proof {
            let after = *self;
            assert(before.extended_by(after));
            assert forall|i: int| 0 <= i < after@.len() implies #[trigger] after.entry_wf(i) by {
                if i < c {
                    assert(before.entry_wf(i));
                    before.lemma_extension(after, i);
                } else {
                    if parent is Some {
                        before.lemma_extension(after, parent.unwrap() as int);
                    }
                }
            }
            lemma_position(before.names(), def.name@);
            assert forall|a: int, b: int|
                0 <= a < after.names().len() && 0 <= b < after.names().len() && a != b implies after.names()[a]
                != after.names()[b] by {
                if a < c && b < c {
                    assert(before.names()[a] != before.names()[b]);
                } else if a < c {
                    assert(before.names()[a] != def.name@);
                } else {
                    assert(before.names()[b] != def.name@);
                }
            }
        }
        Ok(c)
    }
}

impl ClassTable {
    /// The identifiers fit the machine's word.
    pub proof fn lemma_count_fits(self)
        ensures
            self@.len() <= usize::MAX,
    {
        assert(self.entries.len() == self.entries@.len());
    }

    /// A class that declares no method of some name runs, for that name, the
    /// method that its parent declares.
    pub proof fn lemma_inherited_method(self, c: int, p: int, name: Seq<char>, i: int)
        requires
            0 <= c < self@.len(),
            self.up(c) == Some(p),
            position(self@[c].def.method_names(), name) is None,
            position(self@[p].def.method_names(), name) == Some(i),
        ensures
            self.resolve_method_spec(c, name) == Some(Member { class: p as usize, index: i as usize }),
    {
        assert(self.resolve_method_spec(c, name) == self.resolve_method_spec(p, name));
    }

    /// A class that declares a method is served by its own declaration,
    /// whatever its ancestors declare under that name: of two declarations
    /// along a chain, the one nearer to the leaf wins.
    pub proof fn lemma_override_wins(self, s: int, a: int, name: Seq<char>, i: int)
        requires
            0 <= s < self@.len(),
            self.descends(s, a),
            position(self@[s].def.method_names(), name) == Some(i),
        ensures
            self.resolve_method_spec(s, name) == Some(Member { class: s as usize, index: i as usize }),
    {
    }

    /// What a name resolves to is declared by the class itself or by one of
    /// its ancestors, under that name, and by no class nearer to the leaf.
    pub proof fn lemma_resolved_method(self, c: int, name: Seq<char>)
        requires
            0 <= c < self@.len(),
        ensures
            match self.resolve_method_spec(c, name) {
                Some(m) => {
                    &&& self.descends(c, m.class as int)
                    &&& self.has_method(m)
                    &&& is_first(self@[m.class as int].def.method_names(), name, m.index as int)
                },
                None => forall|a: int|
                    0 <= a < self@.len() && #[trigger] self.descends(c, a) ==> position(
                        self@[a].def.method_names(),
                        name,
                    ) is None,
            },
        decreases c,
    {
        lemma_position(self@[c].def.method_names(), name);
        self.lemma_count_fits();
        assert(self.descends(c, c));
        match self.up(c) {
            Some(p) => {
                self.lemma_resolved_method(p, name);
            },
            None => {},
        }
        if position(self@[c].def.method_names(), name) is None {
            if self.resolve_method_spec(c, name) is None {
                assert forall|a: int| 0 <= a < self@.len() && #[trigger] self.descends(c, a) implies position(
                    self@[a].def.method_names(),
                    name,
                ) is None by {
                    if a != c {
                        assert(self.descends(self.up(c).unwrap(), a));
                    }
                }
            }
        }
    }
}

impl ClassDef {
    /// The slots of a class are its own fields that are not static, and each
    /// of those has a slot.
    pub proof fn lemma_own_slots(self, class: int, n: int)
        requires
            0 <= n <= self.fields@.len(),
            0 <= class <= usize::MAX,
        ensures
            forall|k: int|
                0 <= k < self.own_slots(class, n).len() ==> {
                    let m = #[trigger] self.own_slots(class, n)[k];
                    &&& m.class == class
                    &&& m.index < n
                    &&& !self.fields@[m.index as int].is_static
                },
            forall|i: int|
                0 <= i < n && !self.fields@[i].is_static ==> self.own_slots(class, n).contains(
                    Member { class: class as usize, index: i as usize },
                ),
        decreases n,
    {
        if n > 0 {
            self.lemma_own_slots(class, n - 1);
            assert(self.fields.len() == self.fields@.len());
            let before = self.own_slots(class, n - 1);
            let now = self.own_slots(class, n);
            assert forall|i: int| 0 <= i < n && !self.fields@[i].is_static implies now.contains(
                Member { class: class as usize, index: i as usize },
            ) by {
                let m = Member { class: class as usize, index: i as usize };
                if i < n - 1 {
                    let k = choose|k: int| 0 <= k < before.len() && before[k] == m;
                    assert(now[k] == m);
                } else {
                    assert(now[now.len() - 1] == m);
                }
            }
        }
    }
}

impl ClassTable {
    /// Every slot of an instance stands for a field that is not static, of
    /// the class itself or of one of its ancestors.
    pub proof fn lemma_layout_member(self, c: int, k: int)
        requires
            0 <= c < self@.len(),
            0 <= k < self.layout_spec(c).len(),
        ensures
            self.has_field(self.layout_spec(c)[k]),
            !self@[self.layout_spec(c)[k].class as int].def.fields@[self.layout_spec(
                c,
            )[k].index as int].is_static,
            self.descends(c, self.layout_spec(c)[k].class as int),
        decreases c,
    {
        self.lemma_count_fits();
        let def = self@[c].def;
        let own = def.own_slots(c, def.fields@.len() as int);
        def.lemma_own_slots(c, def.fields@.len() as int);
        assert(def.fields.len() == def.fields@.len());
        match self.up(c) {
            Some(p) => {
                let taken = self.layout_spec(p);
                if k < taken.len() {
                    self.lemma_layout_member(p, k);
                } else {
                    assert(self.layout_spec(c)[k] == own[k - taken.len()]);
                }
            },
            None => {
                assert(self.layout_spec(c)[k] == own[k]);
            },
        }
    }

    /// A field that a name resolves to has a slot in every instance, unless
    /// it is static.
    pub proof fn lemma_field_has_slot(self, c: int, name: Seq<char>)
        requires
            0 <= c < self@.len(),
            self.resolve_field_spec(c, name) is Some,
        ensures
            ({
                let m = self.resolve_field_spec(c, name).unwrap();
                &&& self.has_field(m)
                &&& self.descends(c, m.class as int)
                &&& is_first(self@[m.class as int].def.field_names(), name, m.index as int)
                &&& !self@[m.class as int].def.fields@[m.index as int].is_static ==> {
                    &&& position(self.layout_spec(c), m) is Some
                    &&& 0 <= position(self.layout_spec(c), m).unwrap() < self.layout_spec(c).len()
                }
            }),
        decreases c,
    {
        self.lemma_count_fits();
        let def = self@[c].def;
        let own = def.own_slots(c, def.fields@.len() as int);
        let all = self.layout_spec(c);
        let m = self.resolve_field_spec(c, name).unwrap();
        def.lemma_own_slots(c, def.fields@.len() as int);
        lemma_position(def.field_names(), name);
        assert(def.fields.len() == def.fields@.len());
        assert(self.descends(c, c));
        if position(def.field_names(), name) is Some {
            if !def.fields@[m.index as int].is_static {
                let k = choose|k: int| 0 <= k < own.len() && own[k] == m;
                match self.up(c) {
                    Some(p) => {
                        assert(all[self.layout_spec(p).len() + k] == m);
                        lemma_first_exists(all, m, self.layout_spec(p).len() + k);
                    },
                    None => {
                        lemma_first_exists(all, m, k);
                    },
                }
                lemma_position(all, m);
            }
        } else {
            let p = self.up(c).unwrap();
            self.lemma_field_has_slot(p, name);
            if !self@[m.class as int].def.fields@[m.index as int].is_static {
                lemma_position(self.layout_spec(p), m);
                let k = position(self.layout_spec(p), m).unwrap();
                assert(all[k] == m);
                lemma_first_exists(all, m, k);
                lemma_position(all, m);
            }
        }
    }
}

impl ClassTable {
    /// Whether `other` holds the same definitions in the same order.
    pub open spec fn same_defs(self, other: ClassTable) -> bool {
        &&& self@.len() == other@.len()
        &&& forall|c: int| 0 <= c < self@.len() ==> (#[trigger] self@[c]).def == other@[c].def
    }

    /// The definitions settle the table: two well-formed tables of the same
    /// definitions link each class to the same parent and give it the same
    /// chain.
    pub proof fn lemma_defs_settle_links(self, other: ClassTable, c: int)
        requires
            self.wf(),
            other.wf(),
            self.same_defs(other),
            0 <= c < self@.len(),
        ensures
            self@[c].parent == other@[c].parent,
            self.chain_field_names(c) == other.chain_field_names(c),
            self.layout_spec(c) == other.layout_spec(c),
        decreases c,
    {
        assert(self.entry_wf(c));
        assert(other.entry_wf(c));
        assert(self@[c].def == other@[c].def);
        match self@[c].parent {
            Some(p) => {
                let q = other@[c].parent.unwrap();
                assert(self@[q as int].def == other@[q as int].def);
                assert(self.names()[p as int] == self.names()[q as int]);
                self.lemma_defs_settle_links(other, p as int);
            },
            None => {},
        }
    }

    /// The definitions settle the answer: two well-formed tables of the
    /// same definitions take or turn down a further class alike.
    pub proof fn lemma_defs_settle_answer(self, other: ClassTable, def: ClassDef)
        requires
            self.wf(),
            other.wf(),
            self.same_defs(other),
        ensures
            self.define_fault(def) == other.define_fault(def),
            self.parent_of(def) == other.parent_of(def),
    {
        assert(self.names() =~= other.names()) by {
            assert forall|c: int| 0 <= c < self@.len() implies self.names()[c] == other.names()[c] by {
                assert(self@[c].def == other@[c].def);
            }
        }
        if self.parent_of(def) is Some {
            let n = def.parent.unwrap();
            lemma_position(self.names(), n@);
            self.lemma_count_fits();
            self.lemma_defs_settle_links(other, position(self.names(), n@).unwrap());
        }
    }
}

} // verus!
