use object_runtime::array::ArrayObject;
use object_runtime::class::{ClassDef, ClassTable, FieldDef};
use object_runtime::error::Fault;
use object_runtime::heap::{Heap, Stored};
use object_runtime::syntax::TypeName;
use object_runtime::value::{ElementKind, Value};

fn integer_class() -> ClassDef {
    ClassDef {
        name: "Integer".to_string(),
        parent: None,
        fields: vec![FieldDef { name: "x".to_string(), ty: TypeName::Int, is_static: false, init: None }],
        methods: vec![],
    }
}

#[test]
fn create_fills_with_defaults() {
    let a = ArrayObject::create(ElementKind::Int, &vec![5, 4]).unwrap();
    assert_eq!(a.len(), 20);
    assert_eq!(a.rank(), 2);
    assert_eq!(a.dimension(0), 5);
    assert_eq!(a.dimension(1), 4);
    for i in 0..5 {
        for j in 0..4 {
            assert_eq!(a.get(&vec![i, j]), Ok(Value::Int(0)));
        }
    }
    let b = ArrayObject::create(ElementKind::Bool, &vec![3]).unwrap();
    assert_eq!(b.get(&vec![2]), Ok(Value::Bool(false)));
    let c = ArrayObject::create(ElementKind::Float, &vec![1]).unwrap();
    assert_eq!(c.get(&vec![0]), Ok(Value::Float(0)));
    let d = ArrayObject::create(ElementKind::Object(0), &vec![2, 2, 2]).unwrap();
    assert_eq!(d.get(&vec![1, 1, 1]), Ok(Value::Null));
    let e = ArrayObject::create(ElementKind::Str, &vec![1]).unwrap();
    assert_eq!(e.get(&vec![0]), Ok(Value::Null));
}

#[test]
fn create_rejects_bad_dimensions() {
    assert_eq!(ArrayObject::create(ElementKind::Int, &vec![]).err(), Some(Fault::DimensionMismatch));
    assert_eq!(ArrayObject::create(ElementKind::Int, &vec![3, 0]).err(), Some(Fault::IndexOutOfRange));
    assert_eq!(ArrayObject::create(ElementKind::Int, &vec![-1]).err(), Some(Fault::IndexOutOfRange));
    assert_eq!(
        ArrayObject::create(ElementKind::Int, &vec![i64::MAX, i64::MAX, 4]).err(),
        Some(Fault::IndexOutOfRange)
    );
}

#[test]
fn locate_is_row_major() {
    let a = ArrayObject::create(ElementKind::Int, &vec![5, 4]).unwrap();
    assert_eq!(a.locate(&vec![0, 0]), Ok(0));
    assert_eq!(a.locate(&vec![0, 1]), Ok(1));
    assert_eq!(a.locate(&vec![1, 0]), Ok(4));
    assert_eq!(a.locate(&vec![4, 3]), Ok(19));
    let b = ArrayObject::create(ElementKind::Int, &vec![2, 3, 4]).unwrap();
    assert_eq!(b.locate(&vec![1, 2, 3]), Ok(23));
    assert_eq!(b.locate(&vec![1, 0, 2]), Ok(14));
}

#[test]
fn wrong_arity_is_dimension_mismatch() {
    let a = ArrayObject::create(ElementKind::Int, &vec![5, 4]).unwrap();
    assert_eq!(a.get(&vec![0, 1, 2]), Err(Fault::DimensionMismatch));
    assert_eq!(a.get(&vec![0]), Err(Fault::DimensionMismatch));
    assert_eq!(a.get(&vec![]), Err(Fault::DimensionMismatch));
    assert_eq!(a.locate(&vec![9, 9, 9]), Err(Fault::DimensionMismatch));
}

#[test]
fn index_outside_is_out_of_range() {
    let a = ArrayObject::create(ElementKind::Int, &vec![5, 4]).unwrap();
    assert_eq!(a.get(&vec![5, 0]), Err(Fault::IndexOutOfRange));
    assert_eq!(a.get(&vec![0, 4]), Err(Fault::IndexOutOfRange));
    assert_eq!(a.get(&vec![-1, 0]), Err(Fault::IndexOutOfRange));
    assert_eq!(a.get(&vec![0, -1]), Err(Fault::IndexOutOfRange));
    assert_eq!(a.get(&vec![4, 3]), Ok(Value::Int(0)));
}

#[test]
fn heap_set_and_get_objects() {
    let mut classes = ClassTable::new();
    let c = classes.define_class(integer_class()).unwrap();
    let mut heap = Heap::new(&classes);
    let a = heap.create_array(&classes, ElementKind::Object(c), &vec![5, 4]).unwrap();
    let obj = heap.allocate(&classes, c);
    assert_eq!(heap.set_field(&classes, obj, &"x".to_string(), Value::Int(100)), Ok(()));
    assert_eq!(heap.array_set(&classes, a, &vec![0, 1], Value::Object(obj)), Ok(Stored::Done));
    let got = heap.array_get(&classes, a, &vec![0, 1]).unwrap();
    assert_eq!(got, Value::Object(obj));
    match got {
        Value::Object(r) => assert_eq!(heap.get_field(&classes, r, &"x".to_string()), Ok(Value::Int(100))),
        _ => panic!("not an object"),
    }
    assert_eq!(heap.array_get(&classes, a, &vec![0, 0]), Ok(Value::Null));
    assert_eq!(heap.array_get(&classes, a, &vec![1, 0]), Ok(Value::Null));
}

#[test]
fn heap_set_reports_faults_in_order() {
    let mut classes = ClassTable::new();
    let c = classes.define_class(integer_class()).unwrap();
    let mut heap = Heap::new(&classes);
    let a = heap.create_array(&classes, ElementKind::Object(c), &vec![5, 4]).unwrap();
    assert_eq!(heap.array_set(&classes, a, &vec![0, 1, 2], Value::Int(1)), Err(Fault::DimensionMismatch));
    assert_eq!(heap.array_set(&classes, a, &vec![5, 0], Value::Int(1)), Err(Fault::IndexOutOfRange));
    assert_eq!(heap.array_set(&classes, a, &vec![0, 0], Value::Int(1)), Err(Fault::TypeMismatch));
    assert_eq!(heap.array_set(&classes, a, &vec![0, 0], Value::Null), Err(Fault::TypeMismatch));
    assert_eq!(heap.array_get(&classes, a, &vec![0, 1, 2]), Err(Fault::DimensionMismatch));
    assert_eq!(heap.array_get(&classes, a, &vec![5, 0]), Err(Fault::IndexOutOfRange));
    assert_eq!(heap.array_get(&classes, a, &vec![0, 0]), Ok(Value::Null));
}

#[test]
fn primitive_arrays_take_their_kind_only() {
    let classes = ClassTable::new();
    let mut heap = Heap::new(&classes);
    let ints = heap.create_array(&classes, ElementKind::Int, &vec![3]).unwrap();
    let floats = heap.create_array(&classes, ElementKind::Float, &vec![3]).unwrap();
    let bools = heap.create_array(&classes, ElementKind::Bool, &vec![3]).unwrap();
    let strs = heap.create_array(&classes, ElementKind::Str, &vec![3]).unwrap();
    assert_eq!(heap.array_set(&classes, ints, &vec![1], Value::Int(7)), Ok(Stored::Done));
    assert_eq!(heap.array_get(&classes, ints, &vec![1]), Ok(Value::Int(7)));
    assert_eq!(heap.array_set(&classes, ints, &vec![1], Value::Float(0)), Err(Fault::TypeMismatch));
    assert_eq!(heap.array_set(&classes, ints, &vec![1], Value::Bool(true)), Err(Fault::TypeMismatch));
    assert_eq!(heap.array_get(&classes, ints, &vec![1]), Ok(Value::Int(7)));
    assert_eq!(heap.array_set(&classes, floats, &vec![0], Value::Float(1.5f64.to_bits())), Ok(Stored::Done));
    assert_eq!(heap.array_get(&classes, floats, &vec![0]), Ok(Value::Float(1.5f64.to_bits())));
    assert_eq!(heap.array_set(&classes, floats, &vec![2], Value::Int(3)), Ok(Stored::Promote(3)));
    assert_eq!(heap.array_get(&classes, floats, &vec![2]), Ok(Value::Float(0)));
    assert_eq!(heap.array_set(&classes, floats, &vec![2], Value::Bool(true)), Err(Fault::TypeMismatch));
    assert_eq!(heap.array_set(&classes, bools, &vec![2], Value::Bool(true)), Ok(Stored::Done));
    assert_eq!(heap.array_set(&classes, bools, &vec![2], Value::Int(1)), Err(Fault::TypeMismatch));
    assert_eq!(heap.array_set(&classes, strs, &vec![0], Value::Str(4)), Ok(Stored::Done));
    assert_eq!(heap.array_get(&classes, strs, &vec![0]), Ok(Value::Str(4)));
    assert_eq!(heap.array_set(&classes, strs, &vec![0], Value::Int(1)), Err(Fault::TypeMismatch));
}

#[test]
fn object_arrays_take_descendants() {
    let mut classes = ClassTable::new();
    let base = classes.define_class(integer_class()).unwrap();
    let derived = classes
        .define_class(ClassDef {
            name: "Big".to_string(),
            parent: Some("Integer".to_string()),
            fields: vec![],
            methods: vec![],
        })
        .unwrap();
    let other = classes
        .define_class(ClassDef { name: "Other".to_string(), parent: None, fields: vec![], methods: vec![] })
        .unwrap();
    let mut heap = Heap::new(&classes);
    let of_base = heap.create_array(&classes, ElementKind::Object(base), &vec![2]).unwrap();
    let of_derived = heap.create_array(&classes, ElementKind::Object(derived), &vec![2]).unwrap();
    let b = heap.allocate(&classes, base);
    let d = heap.allocate(&classes, derived);
    let o = heap.allocate(&classes, other);
    assert_eq!(heap.array_set(&classes, of_base, &vec![0], Value::Object(b)), Ok(Stored::Done));
    assert_eq!(heap.array_set(&classes, of_base, &vec![1], Value::Object(d)), Ok(Stored::Done));
    assert_eq!(heap.array_set(&classes, of_base, &vec![1], Value::Object(o)), Err(Fault::TypeMismatch));
    assert_eq!(heap.array_set(&classes, of_derived, &vec![0], Value::Object(b)), Err(Fault::TypeMismatch));
    assert_eq!(heap.array_set(&classes, of_derived, &vec![0], Value::Object(d)), Ok(Stored::Done));
    assert_eq!(heap.array_get(&classes, of_base, &vec![1]), Ok(Value::Object(d)));
}

#[test]
fn a_copied_handle_sees_the_write() {
    let classes = ClassTable::new();
    let mut heap = Heap::new(&classes);
    let a = heap.create_array(&classes, ElementKind::Int, &vec![2, 2]).unwrap();
    let other = heap.create_array(&classes, ElementKind::Int, &vec![2, 2]).unwrap();
    let first = Value::Array(a);
    let second = first;
    let through = |v: Value| match v {
        Value::Array(h) => h,
        _ => panic!("not an array"),
    };
    assert_eq!(heap.array_set(&classes, through(first), &vec![1, 0], Value::Int(42)), Ok(Stored::Done));
    assert_eq!(heap.array_get(&classes, through(second), &vec![1, 0]), Ok(Value::Int(42)));
    assert_eq!(heap.array_get(&classes, through(second), &vec![0, 1]), Ok(Value::Int(0)));
    assert_eq!(heap.array_get(&classes, other, &vec![1, 0]), Ok(Value::Int(0)));
}
