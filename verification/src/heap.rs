//! The heap: the instances, the arrays, and the static fields of the classes.
//! Instances and arrays are reached by handle, so a handle that is copied
//! still names the same storage.

use vstd::prelude::*;
use crate::array::{in_bounds, lemma_offset_in_volume, lemma_offset_injective, offset, ArrayObject};
use crate::class::{lemma_position, lemma_position_found, position, ClassTable, Member};
use crate::error::Fault;
use crate::value::{ElementKind, Value};

verus! {

/// An instance: its class, and one slot for each field along the chain of
/// the class that is not static, those of the root ancestor first.
#[derive(Debug)]
pub struct Instance {
    pub class: usize,
    pub slots: Vec<Value>,
}

/// The storage of a running program.
#[derive(Debug)]
pub struct Heap {
    objects: Vec<Instance>,
    arrays: Vec<ArrayObject>,
    statics: Vec<Vec<Value>>,
}

impl Heap {
    /// The instances; the handle of an instance is its position.
    pub closed spec fn objects(self) -> Seq<Instance> {
        self.objects@
    }

    /// The arrays; the handle of an array is its position.
    pub closed spec fn arrays(self) -> Seq<ArrayObject> {
        self.arrays@
    }

    /// For each class, one value for each field that it declares, in the
    /// order of declaration. Only those of the static fields are ever read.
    pub closed spec fn statics(self) -> Seq<Seq<Value>> {
        Seq::new(self.statics.len() as nat, |c: int| self.statics@[c]@)
    }

    /// Whether `v` is no handle, or a handle of this heap.
    pub open spec fn holds(self, v: Value) -> bool {
        match v {
            Value::Object(r) => r < self.objects().len(),
            Value::Array(a) => a < self.arrays().len(),
            _ => true,
        }
    }

    /// Whether an array of the given kind takes `v` as it is: a value of its
    /// own primitive kind, or an instance of its class or of a descendant.
    pub open spec fn admits(self, classes: ClassTable, kind: ElementKind, v: Value) -> bool {
        match kind {
            ElementKind::Int => v is Int,
            ElementKind::Float => v is Float,
            ElementKind::Bool => v is Bool,
            ElementKind::Str => v is Str,
            ElementKind::Object(k) => {
                &&& v is Object
                &&& v->Object_0 < self.objects().len()
                &&& classes.descends(self.objects()[v->Object_0 as int].class as int, k as int)
            },
        }
    }

    /// Instance `r` belongs to a registered class, has the slots of that
    /// class, and holds handles of this heap only.
    pub open spec fn object_ok(self, classes: ClassTable, r: int) -> bool {
        &&& self.objects()[r].class < classes@.len()
        &&& self.objects()[r].slots@.len() == classes.layout_spec(self.objects()[r].class as int).len()
        &&& forall|k: int|
            0 <= k < self.objects()[r].slots@.len() ==> self.holds(#[trigger] self.objects()[r].slots@[k])
    }

    /// Array `a` is well formed, and each slot holds the default of the kind
    /// or a value that the kind admits.
    pub open spec fn array_ok(self, classes: ClassTable, a: int) -> bool {
        &&& self.arrays()[a].wf()
        &&& forall|i: int|
            0 <= i < self.arrays()[a]@.len() ==> {
                ||| #[trigger] self.arrays()[a]@[i] == self.arrays()[a].kind().default_value()
                ||| self.admits(classes, self.arrays()[a].kind(), self.arrays()[a]@[i])
            }
    }

    /// Class `c` has one static value for each declared field, and they
    /// hold handles of this heap only.
    pub open spec fn statics_ok(self, classes: ClassTable, c: int) -> bool {
        &&& self.statics()[c].len() == classes@[c].def.fields@.len()
        &&& forall|f: int| 0 <= f < self.statics()[c].len() ==> self.holds(#[trigger] self.statics()[c][f])
    }

    /// The heap fits the classes, and no handle in it dangles.
    pub open spec fn wf(self, classes: ClassTable) -> bool {
        &&& self.statics().len() == classes@.len()
        &&& forall|r: int| 0 <= r < self.objects().len() ==> #[trigger] self.object_ok(classes, r)
        &&& forall|a: int| 0 <= a < self.arrays().len() ==> #[trigger] self.array_ok(classes, a)
        &&& forall|c: int| 0 <= c < self.statics().len() ==> #[trigger] self.statics_ok(classes, c)
    }

    /// What the fields of the classes hold before any assignment.
    pub open spec fn fresh_statics(classes: ClassTable) -> Seq<Seq<Value>> {
        Seq::new(
            classes@.len(),
            |c: int|
                Seq::new(
                    classes@[c].def.fields@.len(),
                    |f: int| classes@[c].def.fields@[f].initial_spec(),
                ),
        )
    }

    /// What the slots of a new instance of class `c` hold: for each field
    /// its declared constant, or else the default of its type.
    pub open spec fn fresh_slots(classes: ClassTable, c: int) -> Seq<Value> {
        Seq::new(
            classes.layout_spec(c).len(),
            |k: int|
                classes@[classes.layout_spec(c)[k].class as int].def.fields@[classes.layout_spec(
                    c,
                )[k].index as int].initial_spec(),
        )
    }

    /// A heap without instances and arrays, in which every static field holds
    /// its initial value.
    pub fn new(classes: &ClassTable) -> (heap: Heap)
        ensures
            heap.objects().len() == 0,
            heap.arrays().len() == 0,
            heap.statics() == Self::fresh_statics(*classes),
            heap.wf(*classes),
    {
        let mut statics: Vec<Vec<Value>> = Vec::new();
        let n: usize = classes.len();
        let mut c: usize = 0;
        while c < n
            invariant
                n == classes@.len(),
                c <= n,
                statics@.len() == c,
                forall|j: int|
                    0 <= j < c ==> (#[trigger] statics@[j])@.len() == classes@[j].def.fields@.len(),
                forall|j: int, f: int|
                    0 <= j < c && 0 <= f < classes@[j].def.fields@.len() ==> #[trigger] statics@[j]@[f]
                        == classes@[j].def.fields@[f].initial_spec(),
                forall|j: int, f: int|
                    0 <= j < c && 0 <= f < classes@[j].def.fields@.len() ==> !(
                    #[trigger] statics@[j]@[f] is Object) && !(statics@[j]@[f] is Array),
            decreases n - c,
        {
            let entry = classes.get(c);
            let m: usize = entry.def.fields.len();
            let mut row: Vec<Value> = Vec::new();
            let mut f: usize = 0;
            while f < m
                invariant
                    m == entry.def.fields@.len(),
                    f <= m,
                    row@.len() == f,
                    forall|g: int| 0 <= g < f ==> #[trigger] row@[g] == entry.def.fields@[g].initial_spec(),
                    forall|g: int| 0 <= g < f ==> !(#[trigger] row@[g] is Object) && !(row@[g] is Array),
                decreases m - f,
            {
                row.push(entry.def.fields[f].initial());
                f += 1;
            }
            statics.push(row);
            c += 1;
        }
        let heap = Heap { objects: Vec::new(), arrays: Vec::new(), statics };
        proof {
            assert(heap.statics() =~~= Self::fresh_statics(*classes));
            assert forall|j: int| 0 <= j < heap.statics().len() implies #[trigger] heap.statics_ok(
                *classes,
                j,
            ) by {
                assert forall|f: int| 0 <= f < heap.statics()[j].len() implies heap.holds(
                    #[trigger] heap.statics()[j][f],
                ) by {
                    assert(!(statics@[j]@[f] is Object));
                }
            }
        }
        heap
    }

    /// The number of instances.
    pub fn object_count(&self) -> (n: usize)
        ensures
            n == self.objects().len(),
    {
        self.objects.len()
    }

    /// The number of arrays.
    pub fn array_count(&self) -> (n: usize)
        ensures
            n == self.arrays().len(),
    {
        self.arrays.len()
    }

    /// The class of instance `r`: its runtime class, whatever the type of
    /// the variable through which it is reached.
    pub fn class_of(&self, r: usize) -> (c: usize)
        requires
            r < self.objects().len(),
        ensures
            c == self.objects()[r as int].class,
    {
        self.objects[r].class
    }

    /// A new instance of class `c`, its fields holding their initial values.
    /// Everything that was in the heap stays as it is.
    pub fn allocate(&mut self, classes: &ClassTable, c: usize) -> (r: usize)
        requires
            old(self).wf(*classes),
            classes.wf(),
            c < classes@.len(),
        ensures
            final(self).wf(*classes),
            r == old(self).objects().len(),
            final(self).objects().len() == r + 1,
            forall|i: int| 0 <= i < r ==> final(self).objects()[i] == old(self).objects()[i],
            final(self).objects()[r as int].class == c,
            final(self).objects()[r as int].slots@ == Self::fresh_slots(*classes, c as int),
            final(self).arrays() == old(self).arrays(),
            final(self).statics() == old(self).statics(),
    {
        let entry = classes.get(c);
        proof {
            assert(classes.entry_wf(c as int));
        }
        let n: usize = entry.layout.len();
        let mut slots: Vec<Value> = Vec::new();
        let mut k: usize = 0;
        while k < n
            invariant
                classes.wf(),
                c < classes@.len(),
                *entry == classes@[c as int],
                entry.layout@ == classes.layout_spec(c as int),
                n == entry.layout@.len(),
                k <= n,
                slots@.len() == k,
                forall|j: int| 0 <= j < k ==> #[trigger] slots@[j] == Self::fresh_slots(*classes, c as int)[j],
                forall|j: int| 0 <= j < k ==> !(#[trigger] slots@[j] is Object) && !(slots@[j] is Array),
            decreases n - k,
        {
            proof {
                classes.lemma_layout_member(c as int, k as int);
            }
            let m: Member = entry.layout[k];
            slots.push(classes.field(m).initial());
            k += 1;
        }
        let r: usize = self.objects.len();
        let ghost before = *self;
        self.objects.push(Instance { class: c, slots });
        proof {
            let after = *self;
            assert(after.objects()[r as int].slots@ =~= Self::fresh_slots(*classes, c as int));
            assert(after.statics() =~~= before.statics());
            assert forall|i: int| 0 <= i < after.objects().len() implies #[trigger] after.object_ok(
                *classes,
                i,
            ) by {
                if i < r {
                    assert(before.object_ok(*classes, i));
                    assert(after.objects()[i] == before.objects()[i]);
                    assert forall|j: int| 0 <= j < after.objects()[i].slots@.len() implies after.holds(
                        #[trigger] after.objects()[i].slots@[j],
                    ) by {
                        assert(before.holds(before.objects()[i].slots@[j]));
                    }
                } else {
                    assert forall|j: int| 0 <= j < after.objects()[i].slots@.len() implies after.holds(
                        #[trigger] after.objects()[i].slots@[j],
                    ) by {
                        assert(!(slots@[j] is Object));
                    }
                }
            }
            assert forall|a: int| 0 <= a < after.arrays().len() implies #[trigger] after.array_ok(
                *classes,
                a,
            ) by {
                assert(before.array_ok(*classes, a));
            }
            assert forall|s: int| 0 <= s < after.statics().len() implies #[trigger] after.statics_ok(
                *classes,
                s,
            ) by {
                assert(before.statics_ok(*classes, s));
                assert forall|f: int| 0 <= f < after.statics()[s].len() implies after.holds(
                    #[trigger] after.statics()[s][f],
                ) by {
                    assert(before.holds(before.statics()[s][f]));
                }
            }
        }
        r
    }
}

/// How a write into an array ended.
#[derive(Clone, Copy, Debug, PartialEq, Eq, Structural)]
pub enum Stored {
    /// The value is in its slot.
    Done,
    /// Nothing was written: the array holds floats and the value is this
    /// integer, which has to be promoted to a float first.
    Promote(i64),
}

impl Heap {
    /// Whether two heaps hold the same.
    pub open spec fn same(self, other: Heap) -> bool {
        &&& self.objects() == other.objects()
        &&& self.arrays() == other.arrays()
        &&& self.statics() == other.statics()
    }

    /// The value of field `name` reached through instance `r`: the name is
    /// resolved from the class of the instance towards the root; a static
    /// field is read from its class, any other from the slot of the instance.
    pub open spec fn get_field_spec(self, classes: ClassTable, r: int, name: Seq<char>) -> Result<
        Value,
        Fault,
    > {
        let c = self.objects()[r].class as int;
        match classes.resolve_field_spec(c, name) {
            None => Err(Fault::UnresolvedField),
            Some(m) => if classes@[m.class as int].def.fields@[m.index as int].is_static {
                Ok(self.statics()[m.class as int][m.index as int])
            } else {
                Ok(self.objects()[r].slots@[position(classes.layout_spec(c), m).unwrap()])
            },
        }
    }

    /// The value of the static field `name` reached through class `c`.
    pub open spec fn get_static_spec(self, classes: ClassTable, c: int, name: Seq<char>) -> Result<
        Value,
        Fault,
    > {
        match classes.resolve_field_spec(c, name) {
            None => Err(Fault::UnresolvedField),
            Some(m) => if classes@[m.class as int].def.fields@[m.index as int].is_static {
                Ok(self.statics()[m.class as int][m.index as int])
            } else {
                Err(Fault::UnresolvedField)
            },
        }
    }

    /// `other` is this heap after `v` was written to the static field at `m`.
    pub open spec fn static_written(self, other: Heap, m: Member, v: Value) -> bool {
        &&& other.objects() == self.objects()
        &&& other.arrays() == self.arrays()
        &&& other.statics() == self.statics().update(
            m.class as int,
            self.statics()[m.class as int].update(m.index as int, v),
        )
    }

    /// `other` is this heap after `v` was written to slot `k` of instance `r`.
    pub open spec fn slot_written(self, other: Heap, r: int, k: int, v: Value) -> bool {
        &&& other.arrays() == self.arrays()
        &&& other.statics() == self.statics()
        &&& other.objects().len() == self.objects().len()
        &&& forall|i: int|
            0 <= i < self.objects().len() && i != r ==> other.objects()[i] == self.objects()[i]
        &&& other.objects()[r].class == self.objects()[r].class
        &&& other.objects()[r].slots@ == self.objects()[r].slots@.update(k, v)
    }

    /// `other` is this heap after `v` was written to position `p` of array `a`.
    pub open spec fn cell_written(self, other: Heap, a: int, p: int, v: Value) -> bool {
        &&& other.objects() == self.objects()
        &&& other.statics() == self.statics()
        &&& other.arrays().len() == self.arrays().len()
        &&& forall|i: int| 0 <= i < self.arrays().len() && i != a ==> other.arrays()[i] == self.arrays()[i]
        &&& other.arrays()[a].kind() == self.arrays()[a].kind()
        &&& other.arrays()[a].shape() == self.arrays()[a].shape()
        &&& other.arrays()[a]@ == self.arrays()[a]@.update(p, v)
    }

    /// The slot of the field at `m` in an instance of class `c`.
    fn slot_index(classes: &ClassTable, c: usize, m: Member) -> (k: usize)
        requires
            classes.wf(),
            c < classes@.len(),
            position(classes.layout_spec(c as int), m) is Some,
        ensures
            position(classes.layout_spec(c as int), m) == Some(k as int),
            k < classes.layout_spec(c as int).len(),
    {
        let entry = classes.get(c);
        proof {
            assert(classes.entry_wf(c as int));
            lemma_position(classes.layout_spec(c as int), m);
        }
        let n: usize = entry.layout.len();
        let mut k: usize = 0;
        while k < n
            invariant
                entry.layout@ == classes.layout_spec(c as int),
                n == entry.layout@.len(),
                k <= n,
                position(entry.layout@, m) is Some,
                k <= position(entry.layout@, m).unwrap(),
                forall|j: int| 0 <= j < k ==> entry.layout@[j] != m,
            decreases n - k,
        {
            let e: Member = entry.layout[k];
            if e.class == m.class && e.index == m.index {
                proof {
                    lemma_position_found(entry.layout@, m, k as int);
                }
                return k;
            }
            proof {
                lemma_position(entry.layout@, m);
            }
            k += 1;
        }
        proof {
            lemma_position(entry.layout@, m);
        }
        0
    }

    /// Reads field `name` through instance `r`.
    pub fn get_field(&self, classes: &ClassTable, r: usize, name: &String) -> (res: Result<Value, Fault>)
        requires
            self.wf(*classes),
            classes.wf(),
            r < self.objects().len(),
        ensures
            res == self.get_field_spec(*classes, r as int, name@),
            res matches Ok(v) ==> self.holds(v),
    {
        proof {
            assert(self.object_ok(*classes, r as int));
        }
        let c: usize = self.objects[r].class;
        match classes.resolve_field(c, name) {
            None => Err(Fault::UnresolvedField),
            Some(m) => {
                proof {
                    classes.lemma_field_has_slot(c as int, name@);
                    assert(self.statics_ok(*classes, m.class as int));
                }
                if classes.field(m).is_static {
                    let v: Value = self.statics[m.class][m.index];
                    proof {
                        assert(v == self.statics()[m.class as int][m.index as int]);
                    }
                    Ok(v)
                } else {
                    let k: usize = Self::slot_index(classes, c, m);
                    Ok(self.objects[r].slots[k])
                }
            },
        }
    }

    /// Writes field `name` through instance `r`. A static field is written
    /// in its class, any other in the slot of the instance; nothing else
    /// changes, and nothing at all where the name does not resolve.
    pub fn set_field(&mut self, classes: &ClassTable, r: usize, name: &String, v: Value) -> (res: Result<
        (),
        Fault,
    >)
        requires
            old(self).wf(*classes),
            classes.wf(),
            r < old(self).objects().len(),
            old(self).holds(v),
        ensures
            final(self).wf(*classes),
            match classes.resolve_field_spec(old(self).objects()[r as int].class as int, name@) {
                None => res == Err::<(), Fault>(Fault::UnresolvedField) && old(self).same(*final(self)),
                Some(m) => {
                    &&& res is Ok
                    &&& if classes@[m.class as int].def.fields@[m.index as int].is_static {
                        old(self).static_written(*final(self), m, v)
                    } else {
                        old(self).slot_written(
                            *final(self),
                            r as int,
                            position(
                                classes.layout_spec(old(self).objects()[r as int].class as int),
                                m,
                            ).unwrap(),
                            v,
                        )
                    }
                },
            },
    {
        proof {
            assert(self.object_ok(*classes, r as int));
        }
        let c: usize = self.objects[r].class;
        match classes.resolve_field(c, name) {
            None => Err(Fault::UnresolvedField),
            Some(m) => {
                proof {
                    classes.lemma_field_has_slot(c as int, name@);
                    assert(self.statics_ok(*classes, m.class as int));
                }
                if classes.field(m).is_static {
                    self.write_static(classes, m, v);
                } else {
                    let k: usize = Self::slot_index(classes, c, m);
                    self.write_slot(classes, r, k, v);
                }
                Ok(())
            },
        }
    }

    /// Writes `v` to the static value at `m`.
    fn write_static(&mut self, classes: &ClassTable, m: Member, v: Value)
        requires
            old(self).wf(*classes),
            old(self).holds(v),
            m.class < old(self).statics().len(),
            m.index < old(self).statics()[m.class as int].len(),
        ensures
            final(self).wf(*classes),
            old(self).static_written(*final(self), m, v),
    {
        let ghost before = *self;
        self.statics[m.class].set(m.index, v);
        proof {
            let after = *self;
            assert(after.statics() =~~= before.statics().update(
                m.class as int,
                before.statics()[m.class as int].update(m.index as int, v),
            ));
            assert forall|i: int| 0 <= i < after.objects().len() implies #[trigger] after.object_ok(
                *classes,
                i,
            ) by {
                assert(before.object_ok(*classes, i));
            }
            assert forall|a: int| 0 <= a < after.arrays().len() implies #[trigger] after.array_ok(
                *classes,
                a,
            ) by {
                assert(before.array_ok(*classes, a));
            }
            assert forall|s: int| 0 <= s < after.statics().len() implies #[trigger] after.statics_ok(
                *classes,
                s,
            ) by {
                assert(before.statics_ok(*classes, s));
                assert forall|f: int| 0 <= f < after.statics()[s].len() implies after.holds(
                    #[trigger] after.statics()[s][f],
                ) by {
                    if s == m.class && f == m.index {
                    } else {
                        assert(before.holds(before.statics()[s][f]));
                    }
                }
            }
        }
    }

    /// Writes `v` to slot `k` of instance `r`.
    fn write_slot(&mut self, classes: &ClassTable, r: usize, k: usize, v: Value)
        requires
            old(self).wf(*classes),
            old(self).holds(v),
            r < old(self).objects().len(),
            k < old(self).objects()[r as int].slots@.len(),
        ensures
            final(self).wf(*classes),
            old(self).slot_written(*final(self), r as int, k as int, v),
    {
        let ghost before = *self;
        self.objects[r].slots.set(k, v);
        proof {
            let after = *self;
            assert(after.statics() =~~= before.statics());
            assert forall|i: int| 0 <= i < after.objects().len() implies #[trigger] after.object_ok(
                *classes,
                i,
            ) by {
                assert(before.object_ok(*classes, i));
                assert forall|j: int| 0 <= j < after.objects()[i].slots@.len() implies after.holds(
                    #[trigger] after.objects()[i].slots@[j],
                ) by {
                    if i == r && j == k {
                    } else {
                        assert(before.holds(before.objects()[i].slots@[j]));
                    }
                }
            }
            assert forall|a: int| 0 <= a < after.arrays().len() implies #[trigger] after.array_ok(
                *classes,
                a,
            ) by {
                assert(before.array_ok(*classes, a));
            }
            assert forall|s: int| 0 <= s < after.statics().len() implies #[trigger] after.statics_ok(
                *classes,
                s,
            ) by {
                assert(before.statics_ok(*classes, s));
            }
        }
    }
}

impl Heap {
    /// Reads the static field `name` through class `c`. A field of that name
    /// that is not static counts as not found.
    pub fn get_static(&self, classes: &ClassTable, c: usize, name: &String) -> (res: Result<Value, Fault>)
        requires
            self.wf(*classes),
            classes.wf(),
            c < classes@.len(),
        ensures
            res == self.get_static_spec(*classes, c as int, name@),
            res matches Ok(v) ==> self.holds(v),
    {
        match classes.resolve_field(c, name) {
            None => Err(Fault::UnresolvedField),
            Some(m) => {
                proof {
                    assert(self.statics_ok(*classes, m.class as int));
                }
                if classes.field(m).is_static {
                    let v: Value = self.statics[m.class][m.index];
                    proof {
                        assert(v == self.statics()[m.class as int][m.index as int]);
                    }
                    Ok(v)
                } else {
                    Err(Fault::UnresolvedField)
                }
            },
        }
    }

    /// Writes the static field `name` through class `c`. Nothing else
    /// changes, and nothing at all where no static field of that name is
    /// found.
    pub fn set_static(&mut self, classes: &ClassTable, c: usize, name: &String, v: Value) -> (res: Result<
        (),
        Fault,
    >)
        requires
            old(self).wf(*classes),
            classes.wf(),
            c < classes@.len(),
            old(self).holds(v),
        ensures
            final(self).wf(*classes),
            match classes.resolve_field_spec(c as int, name@) {
                None => res == Err::<(), Fault>(Fault::UnresolvedField) && old(self).same(*final(self)),
                Some(m) => if classes@[m.class as int].def.fields@[m.index as int].is_static {
                    res is Ok && old(self).static_written(*final(self), m, v)
                } else {
                    res == Err::<(), Fault>(Fault::UnresolvedField) && old(self).same(*final(self))
                },
            },
    {
        match classes.resolve_field(c, name) {
            None => Err(Fault::UnresolvedField),
            Some(m) => {
                proof {
                    assert(self.statics_ok(*classes, m.class as int));
                }
                if classes.field(m).is_static {
                    self.write_static(classes, m, v);
                    Ok(())
                } else {
                    Err(Fault::UnresolvedField)
                }
            },
        }
    }

    /// Makes an array of the given kind and dimensions, every slot holding
    /// the default of the kind, and returns its handle. Everything that was
    /// in the heap stays as it is.
    pub fn create_array(&mut self, classes: &ClassTable, kind: ElementKind, dims: &Vec<i64>) -> (res: Result<
        usize,
        Fault,
    >)
        requires
            old(self).wf(*classes),
        ensures
            final(self).wf(*classes),
            final(self).objects() == old(self).objects(),
            final(self).statics() == old(self).statics(),
            match res {
                Ok(a) => {
                    &&& ArrayObject::create_fault(dims@) is None
                    &&& a == old(self).arrays().len()
                    &&& final(self).arrays().len() == a + 1
                    &&& forall|i: int| 0 <= i < a ==> final(self).arrays()[i] == old(self).arrays()[i]
                    &&& final(self).arrays()[a as int].wf()
                    &&& final(self).arrays()[a as int].kind() == kind
                    &&& final(self).arrays()[a as int].shape() == dims@
                    &&& forall|i: int|
                        0 <= i < final(self).arrays()[a as int]@.len() ==> final(self).arrays()[a as int]@[i]
                            == kind.default_value()
                },
                Err(f) => {
                    &&& ArrayObject::create_fault(dims@) == Some(f)
                    &&& final(self).arrays() == old(self).arrays()
                },
            },
    {
        match ArrayObject::create(kind, dims) {
            Err(f) => Err(f),
            Ok(array) => {
                let a: usize = self.arrays.len();
                let ghost before = *self;
                self.arrays.push(array);
                proof {
                    let after = *self;
                    assert(after.statics() =~~= before.statics());
                    assert forall|i: int| 0 <= i < after.objects().len() implies #[trigger] after.object_ok(
                        *classes,
                        i,
                    ) by {
                        assert(before.object_ok(*classes, i));
                        assert forall|j: int| 0 <= j < after.objects()[i].slots@.len() implies after.holds(
                            #[trigger] after.objects()[i].slots@[j],
                        ) by {
                            assert(before.holds(before.objects()[i].slots@[j]));
                        }
                    }
                    assert forall|i: int| 0 <= i < after.arrays().len() implies #[trigger] after.array_ok(
                        *classes,
                        i,
                    ) by {
                        if i < a {
                            assert(before.array_ok(*classes, i));
                        }
                    }
                    assert forall|s: int| 0 <= s < after.statics().len() implies #[trigger] after.statics_ok(
                        *classes,
                        s,
                    ) by {
                        assert(before.statics_ok(*classes, s));
                        assert forall|f: int| 0 <= f < after.statics()[s].len() implies after.holds(
                            #[trigger] after.statics()[s][f],
                        ) by {
                            assert(before.holds(before.statics()[s][f]));
                        }
                    }
                }
                Ok(a)
            },
        }
    }

    /// What reading array `a` at `indices` gives: a wrong number of indices
    /// is a `DimensionMismatch`, an index outside its dimension an
    /// `IndexOutOfRange`.
    pub open spec fn array_get_spec(self, a: int, indices: Seq<i64>) -> Result<Value, Fault> {
        match self.arrays()[a].locate_fault(indices) {
            None => Ok(self.arrays()[a].at(indices)),
            Some(f) => Err(f),
        }
    }

    /// Reads the slot of array `a` that `indices` names.
    pub fn array_get(&self, classes: &ClassTable, a: usize, indices: &Vec<i64>) -> (res: Result<Value, Fault>)
        requires
            self.wf(*classes),
            a < self.arrays().len(),
        ensures
            res == self.array_get_spec(a as int, indices@),
            res matches Ok(v) ==> self.holds(v),
    {
        proof {
            assert(self.array_ok(*classes, a as int));
        }
        let res = self.arrays[a].get(indices);
        proof {
            if res is Ok {
                lemma_offset_in_volume(self.arrays()[a as int].shape(), indices@);
                let p = offset(self.arrays()[a as int].shape(), indices@);
                assert(self.arrays()[a as int]@[p] == self.arrays()[a as int].at(indices@));
            }
        }
        res
    }

    /// Whether an array of the given kind takes `v` as it is.
    pub fn admits_value(&self, classes: &ClassTable, kind: ElementKind, v: Value) -> (res: bool)
        requires
            self.wf(*classes),
            classes.wf(),
        ensures
            res == self.admits(*classes, kind, v),
    {
        match kind {
            ElementKind::Int => matches!(v, Value::Int(_)),
            ElementKind::Float => matches!(v, Value::Float(_)),
            ElementKind::Bool => matches!(v, Value::Bool(_)),
            ElementKind::Str => matches!(v, Value::Str(_)),
            ElementKind::Object(k) => match v {
                Value::Object(r) => {
                    if r < self.objects.len() {
                        proof {
                            assert(self.object_ok(*classes, r as int));
                        }
                        classes.is_descendant(self.objects[r].class, k)
                    } else {
                        false
                    }
                },
                _ => false,
            },
        }
    }

    /// Writes `v` into the slot of array `a` that `indices` names. The
    /// indices are looked at first, as in a read. An integer for an array of
    /// floats is not written: it is handed back to be promoted. Any other
    /// value that the kind of the array does not admit is a `TypeMismatch`.
    /// A write changes the one slot and nothing else; every other outcome
    /// leaves the heap as it is.
    pub fn array_set(&mut self, classes: &ClassTable, a: usize, indices: &Vec<i64>, v: Value) -> (res: Result<
        Stored,
        Fault,
    >)
        requires
            old(self).wf(*classes),
            classes.wf(),
            a < old(self).arrays().len(),
        ensures
            final(self).wf(*classes),
            match old(self).arrays()[a as int].locate_fault(indices@) {
                Some(f) => res == Err::<Stored, Fault>(f) && old(self).same(*final(self)),
                None => if old(self).arrays()[a as int].kind() == ElementKind::Float && v is Int {
                    res == Ok::<Stored, Fault>(Stored::Promote(v->Int_0)) && old(self).same(*final(self))
                } else if !old(self).admits(*classes, old(self).arrays()[a as int].kind(), v) {
                    res == Err::<Stored, Fault>(Fault::TypeMismatch) && old(self).same(*final(self))
                } else {
                    res == Ok::<Stored, Fault>(Stored::Done) && old(self).cell_written(
                        *final(self),
                        a as int,
                        offset(old(self).arrays()[a as int].shape(), indices@),
                        v,
                    )
                },
            },
    {
        proof {
            assert(self.array_ok(*classes, a as int));
        }
        let p: usize = match self.arrays[a].locate(indices) {
            Ok(p) => p,
            Err(f) => {
                return Err(f);
            },
        };
        let kind: ElementKind = self.arrays[a].element_kind();
        match (kind, v) {
            (ElementKind::Float, Value::Int(i)) => {
                return Ok(Stored::Promote(i));
            },
            _ => {},
        }
        if !self.admits_value(classes, kind, v) {
            return Err(Fault::TypeMismatch);
        }
        let ghost before = *self;
        self.arrays[a].write(p, v);
        proof {
            let after = *self;
            assert(after.statics() =~~= before.statics());
            assert forall|i: int| 0 <= i < after.objects().len() implies #[trigger] after.object_ok(
                *classes,
                i,
            ) by {
                assert(before.object_ok(*classes, i));
            }
            assert forall|i: int| 0 <= i < after.arrays().len() implies #[trigger] after.array_ok(
                *classes,
                i,
            ) by {
                assert(before.array_ok(*classes, i));
                if i == a {
                    assert forall|j: int| 0 <= j < after.arrays()[i]@.len() implies {
                        ||| #[trigger] after.arrays()[i]@[j] == after.arrays()[i].kind().default_value()
                        ||| after.admits(*classes, after.arrays()[i].kind(), after.arrays()[i]@[j])
                    } by {
                        if j != p {
                            assert(after.arrays()[i]@[j] == before.arrays()[i]@[j]);
                        }
                    }
                }
            }
            assert forall|s: int| 0 <= s < after.statics().len() implies #[trigger] after.statics_ok(
                *classes,
                s,
            ) by {
                assert(before.statics_ok(*classes, s));
            }
        }
        Ok(Stored::Done)
    }

    /// A handle that was copied names the same array: what is written
    /// through one copy is read through the other.
    pub proof fn lemma_alias_sees_write(
        self,
        after: Heap,
        x: Value,
        y: Value,
        indices: Seq<i64>,
        v: Value,
    )
        requires
            x is Array,
            y == x,
            x->Array_0 < self.arrays().len(),
            in_bounds(self.arrays()[x->Array_0 as int].shape(), indices),
            self.arrays()[x->Array_0 as int].wf(),
            self.cell_written(
                after,
                x->Array_0 as int,
                offset(self.arrays()[x->Array_0 as int].shape(), indices),
                v,
            ),
        ensures
            after.array_get_spec(y->Array_0 as int, indices) == Ok::<Value, Fault>(v),
    {
        lemma_offset_in_volume(self.arrays()[x->Array_0 as int].shape(), indices);
    }

    /// A handle that was copied names the same instance: what is written to
    /// a field through one copy is read through the other.
    pub proof fn lemma_alias_sees_field(
        self,
        after: Heap,
        classes: ClassTable,
        x: Value,
        y: Value,
        name: Seq<char>,
        v: Value,
    )
        requires
            x is Object,
            y == x,
            x->Object_0 < self.objects().len(),
            classes.resolve_field_spec(self.objects()[x->Object_0 as int].class as int, name) is Some,
            ({
                let c = self.objects()[x->Object_0 as int].class as int;
                let m = classes.resolve_field_spec(c, name).unwrap();
                let k = position(classes.layout_spec(c), m);
                if classes@[m.class as int].def.fields@[m.index as int].is_static {
                    &&& m.class < self.statics().len()
                    &&& m.index < self.statics()[m.class as int].len()
                    &&& self.static_written(after, m, v)
                } else {
                    &&& k is Some
                    &&& 0 <= k.unwrap() < self.objects()[x->Object_0 as int].slots@.len()
                    &&& self.slot_written(after, x->Object_0 as int, k.unwrap(), v)
                }
            }),
        ensures
            after.get_field_spec(classes, y->Object_0 as int, name) == Ok::<Value, Fault>(v),
    {
    }

    /// A static field is shared: what is written to it through one
    /// instance is read through every instance whose class resolves the
    /// name to that field.
    pub proof fn lemma_static_is_shared(
        self,
        after: Heap,
        classes: ClassTable,
        r: int,
        s: int,
        name: Seq<char>,
        v: Value,
    )
        requires
            0 <= r < self.objects().len(),
            0 <= s < self.objects().len(),
            classes.resolve_field_spec(self.objects()[r].class as int, name) is Some,
            classes.resolve_field_spec(self.objects()[s].class as int, name) == classes.resolve_field_spec(
                self.objects()[r].class as int,
                name,
            ),
            ({
                let m = classes.resolve_field_spec(self.objects()[r].class as int, name).unwrap();
                &&& classes@[m.class as int].def.fields@[m.index as int].is_static
                &&& m.class < self.statics().len()
                &&& m.index < self.statics()[m.class as int].len()
                &&& self.static_written(after, m, v)
            }),
        ensures
            after.get_field_spec(classes, s, name) == Ok::<Value, Fault>(v),
    {
    }

    /// A write changes no other slot: reading any other slot of the array,
    /// or any slot of another array, gives what it gave before.
    pub proof fn lemma_write_leaves_others(
        self,
        after: Heap,
        a: int,
        indices: Seq<i64>,
        v: Value,
        b: int,
        others: Seq<i64>,
    )
        requires
            0 <= a < self.arrays().len(),
            0 <= b < self.arrays().len(),
            self.arrays()[a].wf(),
            in_bounds(self.arrays()[a].shape(), indices),
            self.cell_written(after, a, offset(self.arrays()[a].shape(), indices), v),
            b != a || others != indices,
        ensures
            after.array_get_spec(b, others) == self.array_get_spec(b, others),
    {
        if b == a {
            if in_bounds(self.arrays()[a].shape(), others) {
                lemma_offset_in_volume(self.arrays()[a].shape(), indices);
                lemma_offset_in_volume(self.arrays()[a].shape(), others);
                if offset(self.arrays()[a].shape(), others) == offset(self.arrays()[a].shape(), indices) {
                    lemma_offset_injective(self.arrays()[a].shape(), others, indices);
                }
            }
        }
    }
}

} // verus!
