use object_runtime::builtin::{Bridge, Builtin};
use object_runtime::class::{ClassDef, ClassTable, FieldDef, Member, MethodDef};
use object_runtime::error::Fault;
use object_runtime::heap::Heap;
use object_runtime::program::Program;
use object_runtime::syntax::{Literal, TypeName};
use object_runtime::value::Value;

fn name(text: &str) -> String {
    text.to_string()
}

fn field(text: &str, ty: TypeName) -> FieldDef {
    FieldDef { name: name(text), ty, is_static: false, init: None }
}

fn static_field(text: &str, ty: TypeName, init: Option<Literal>) -> FieldDef {
    FieldDef { name: name(text), ty, is_static: true, init }
}

fn method(text: &str) -> MethodDef {
    MethodDef { name: name(text), params: vec![], ret: TypeName::Void, body: vec![] }
}

fn class(text: &str, parent: Option<&str>, fields: Vec<FieldDef>, methods: Vec<MethodDef>) -> ClassDef {
    ClassDef { name: name(text), parent: parent.map(name), fields, methods }
}

fn entry() -> MethodDef {
    method("main")
}

#[test]
fn define_class_gives_identifiers_in_order() {
    let mut table = ClassTable::new();
    assert_eq!(table.len(), 0);
    assert_eq!(table.define_class(class("A", None, vec![], vec![])), Ok(0));
    assert_eq!(table.define_class(class("B", Some("A"), vec![], vec![])), Ok(1));
    assert_eq!(table.define_class(class("C", Some("B"), vec![], vec![])), Ok(2));
    assert_eq!(table.len(), 3);
    assert_eq!(table.find(&name("A")), Some(0));
    assert_eq!(table.find(&name("C")), Some(2));
    assert_eq!(table.find(&name("D")), None);
    assert_eq!(table.get(2).parent, Some(1));
    assert_eq!(table.get(0).parent, None);
    assert_eq!(table.get(1).def.name, "B");
}

#[test]
fn define_class_rejects_a_taken_name() {
    let mut table = ClassTable::new();
    assert_eq!(table.define_class(class("A", None, vec![], vec![])), Ok(0));
    assert_eq!(table.define_class(class("A", None, vec![], vec![])), Err(Fault::DuplicateClass));
    assert_eq!(
        table.define_class(class("A", Some("Missing"), vec![field("x", TypeName::Int), field("x", TypeName::Int)], vec![])),
        Err(Fault::DuplicateClass)
    );
    assert_eq!(table.len(), 1);
}

#[test]
fn define_class_rejects_an_unknown_parent() {
    let mut table = ClassTable::new();
    assert_eq!(table.define_class(class("B", Some("A"), vec![], vec![])), Err(Fault::UnresolvedClass));
    assert_eq!(table.define_class(class("B", Some("B"), vec![], vec![])), Err(Fault::UnresolvedClass));
    assert_eq!(table.len(), 0);
}

#[test]
fn define_class_rejects_colliding_fields() {
    let mut table = ClassTable::new();
    assert_eq!(
        table.define_class(class("A", None, vec![field("x", TypeName::Int), field("y", TypeName::Int)], vec![])),
        Ok(0)
    );
    assert_eq!(
        table.define_class(class("Twice", None, vec![field("a", TypeName::Int), field("a", TypeName::Bool)], vec![])),
        Err(Fault::DuplicateFieldName)
    );
    assert_eq!(
        table.define_class(class("B", Some("A"), vec![field("z", TypeName::Int), field("x", TypeName::Float)], vec![])),
        Err(Fault::DuplicateFieldName)
    );
    assert_eq!(table.define_class(class("B", Some("A"), vec![field("z", TypeName::Int)], vec![])), Ok(1));
    assert_eq!(
        table.define_class(class("C", Some("B"), vec![static_field("y", TypeName::Int, None)], vec![])),
        Err(Fault::DuplicateFieldName)
    );
    assert_eq!(table.define_class(class("D", None, vec![field("x", TypeName::Int)], vec![])), Ok(2));
    assert_eq!(table.len(), 3);
}

#[test]
fn inherited_method_resolves_to_the_parent() {
    let mut table = ClassTable::new();
    let p = table.define_class(class("P", None, vec![], vec![method("other"), method("m")])).unwrap();
    let c = table.define_class(class("C", Some("P"), vec![], vec![method("own")])).unwrap();
    assert_eq!(table.resolve_method(c, &name("m")), Some(Member { class: p, index: 1 }));
    assert_eq!(table.resolve_method(c, &name("own")), Some(Member { class: c, index: 0 }));
    assert_eq!(table.resolve_method(p, &name("own")), None);
    assert_eq!(table.resolve_method(c, &name("missing")), None);
    assert_eq!(table.method(Member { class: p, index: 1 }).name, "m");
}

#[test]
fn override_nearest_to_the_leaf_wins() {
    let mut table = ClassTable::new();
    let a = table.define_class(class("A", None, vec![], vec![method("m")])).unwrap();
    let s = table.define_class(class("S", Some("A"), vec![], vec![method("x"), method("m")])).unwrap();
    let t = table.define_class(class("T", Some("S"), vec![], vec![])).unwrap();
    assert_eq!(table.resolve_method(a, &name("m")), Some(Member { class: a, index: 0 }));
    assert_eq!(table.resolve_method(s, &name("m")), Some(Member { class: s, index: 1 }));
    assert_eq!(table.resolve_method(t, &name("m")), Some(Member { class: s, index: 1 }));
}

#[test]
fn first_method_of_a_name_wins_inside_a_class() {
    let mut table = ClassTable::new();
    let a = table.define_class(class("A", None, vec![], vec![method("m"), method("m")])).unwrap();
    assert_eq!(table.resolve_method(a, &name("m")), Some(Member { class: a, index: 0 }));
    assert_eq!(table.get(a).def.find_method(&name("m")), Some(0));
    assert_eq!(table.get(a).def.find_method(&name("n")), None);
}

#[test]
fn fields_resolve_from_leaf_to_root() {
    let mut table = ClassTable::new();
    let a = table
        .define_class(class("A", None, vec![field("x", TypeName::Int), static_field("count", TypeName::Int, None)], vec![]))
        .unwrap();
    let b = table.define_class(class("B", Some("A"), vec![field("y", TypeName::Int)], vec![])).unwrap();
    assert_eq!(table.resolve_field(b, &name("y")), Some(Member { class: b, index: 0 }));
    assert_eq!(table.resolve_field(b, &name("x")), Some(Member { class: a, index: 0 }));
    assert_eq!(table.resolve_field(b, &name("count")), Some(Member { class: a, index: 1 }));
    assert_eq!(table.resolve_field(a, &name("y")), None);
    assert_eq!(table.resolve_field(b, &name("z")), None);
    assert_eq!(table.field(Member { class: a, index: 1 }).name, "count");
    assert_eq!(table.get(a).def.find_field(&name("count")), Some(1));
}

#[test]
fn layout_runs_from_root_to_leaf() {
    let mut table = ClassTable::new();
    let a = table
        .define_class(class(
            "A",
            None,
            vec![field("a1", TypeName::Int), static_field("s", TypeName::Int, None), field("a2", TypeName::Int)],
            vec![],
        ))
        .unwrap();
    let b = table.define_class(class("B", Some("A"), vec![field("b1", TypeName::Int)], vec![])).unwrap();
    let c = table
        .define_class(class("C", Some("B"), vec![static_field("t", TypeName::Int, None), field("c1", TypeName::Int)], vec![]))
        .unwrap();
    assert_eq!(table.get(a).layout, vec![Member { class: a, index: 0 }, Member { class: a, index: 2 }]);
    assert_eq!(
        table.get(b).layout,
        vec![Member { class: a, index: 0 }, Member { class: a, index: 2 }, Member { class: b, index: 0 }]
    );
    assert_eq!(
        table.get(c).layout,
        vec![
            Member { class: a, index: 0 },
            Member { class: a, index: 2 },
            Member { class: b, index: 0 },
            Member { class: c, index: 1 }
        ]
    );
}

#[test]
fn registering_more_classes_keeps_the_old_ones() {
    let mut table = ClassTable::new();
    let a = table.define_class(class("A", None, vec![field("x", TypeName::Int)], vec![method("m")])).unwrap();
    let layout_before = table.get(a).layout.clone();
    let resolved_before = table.resolve_method(a, &name("m"));
    table.define_class(class("B", Some("A"), vec![field("y", TypeName::Int)], vec![method("m")])).unwrap();
    table.define_class(class("C", None, vec![field("x", TypeName::Int)], vec![method("m")])).unwrap();
    assert_eq!(table.get(a).layout, layout_before);
    assert_eq!(table.resolve_method(a, &name("m")), resolved_before);
    assert_eq!(table.get(a).parent, None);
}

#[test]
fn descendants_are_told_from_strangers() {
    let mut table = ClassTable::new();
    let a = table.define_class(class("A", None, vec![], vec![])).unwrap();
    let b = table.define_class(class("B", Some("A"), vec![], vec![])).unwrap();
    let c = table.define_class(class("C", Some("B"), vec![], vec![])).unwrap();
    let d = table.define_class(class("D", None, vec![], vec![])).unwrap();
    assert!(table.is_descendant(a, a));
    assert!(table.is_descendant(b, a));
    assert!(table.is_descendant(c, a));
    assert!(table.is_descendant(c, b));
    assert!(!table.is_descendant(a, b));
    assert!(!table.is_descendant(d, a));
    assert!(!table.is_descendant(c, d));
    assert!(!table.is_descendant(a, 17));
}

#[test]
fn new_instances_hold_initial_values() {
    let mut table = ClassTable::new();
    let a = table
        .define_class(class(
            "A",
            None,
            vec![
                field("i", TypeName::Int),
                FieldDef { name: name("y"), ty: TypeName::Float, is_static: false, init: Some(Literal::Int(1)) },
                field("b", TypeName::Bool),
                field("s", TypeName::Str),
                field("o", TypeName::Class(name("A"))),
                field("f", TypeName::Float),
            ],
            vec![],
        ))
        .unwrap();
    let mut heap = Heap::new(&table);
    let r = heap.allocate(&table, a);
    assert_eq!(heap.class_of(r), a);
    assert_eq!(heap.get_field(&table, r, &name("i")), Ok(Value::Int(0)));
    assert_eq!(heap.get_field(&table, r, &name("y")), Ok(Value::Int(1)));
    assert_eq!(heap.get_field(&table, r, &name("b")), Ok(Value::Bool(false)));
    assert_eq!(heap.get_field(&table, r, &name("s")), Ok(Value::Null));
    assert_eq!(heap.get_field(&table, r, &name("o")), Ok(Value::Null));
    assert_eq!(heap.get_field(&table, r, &name("f")), Ok(Value::Float(0)));
    assert_eq!(heap.get_field(&table, r, &name("missing")), Err(Fault::UnresolvedField));
    assert_eq!(heap.object_count(), 1);
    assert_eq!(heap.array_count(), 0);
}

#[test]
fn instance_fields_are_per_instance() {
    let mut table = ClassTable::new();
    let a = table.define_class(class("A", None, vec![field("x", TypeName::Int)], vec![])).unwrap();
    let b = table.define_class(class("B", Some("A"), vec![field("y", TypeName::Int)], vec![])).unwrap();
    let mut heap = Heap::new(&table);
    let first = heap.allocate(&table, b);
    let second = heap.allocate(&table, b);
    let plain = heap.allocate(&table, a);
    assert_eq!(heap.set_field(&table, first, &name("x"), Value::Int(5)), Ok(()));
    assert_eq!(heap.set_field(&table, first, &name("y"), Value::Int(6)), Ok(()));
    assert_eq!(heap.set_field(&table, second, &name("y"), Value::Int(7)), Ok(()));
    assert_eq!(heap.get_field(&table, first, &name("x")), Ok(Value::Int(5)));
    assert_eq!(heap.get_field(&table, first, &name("y")), Ok(Value::Int(6)));
    assert_eq!(heap.get_field(&table, second, &name("x")), Ok(Value::Int(0)));
    assert_eq!(heap.get_field(&table, second, &name("y")), Ok(Value::Int(7)));
    assert_eq!(heap.set_field(&table, plain, &name("y"), Value::Int(1)), Err(Fault::UnresolvedField));
    assert_eq!(heap.get_field(&table, plain, &name("x")), Ok(Value::Int(0)));
}

#[test]
fn static_fields_are_shared() {
    let mut table = ClassTable::new();
    let a = table
        .define_class(class(
            "A",
            None,
            vec![static_field("count", TypeName::Int, Some(Literal::Int(200))), field("x", TypeName::Int)],
            vec![],
        ))
        .unwrap();
    let b = table.define_class(class("B", Some("A"), vec![], vec![])).unwrap();
    let mut heap = Heap::new(&table);
    let first = heap.allocate(&table, a);
    let second = heap.allocate(&table, b);
    assert_eq!(heap.get_static(&table, a, &name("count")), Ok(Value::Int(200)));
    assert_eq!(heap.get_field(&table, first, &name("count")), Ok(Value::Int(200)));
    assert_eq!(heap.set_field(&table, first, &name("count"), Value::Int(3)), Ok(()));
    assert_eq!(heap.get_field(&table, second, &name("count")), Ok(Value::Int(3)));
    assert_eq!(heap.get_static(&table, b, &name("count")), Ok(Value::Int(3)));
    assert_eq!(heap.set_static(&table, b, &name("count"), Value::Int(4)), Ok(()));
    assert_eq!(heap.get_static(&table, a, &name("count")), Ok(Value::Int(4)));
    assert_eq!(heap.get_static(&table, a, &name("x")), Err(Fault::UnresolvedField));
    assert_eq!(heap.set_static(&table, a, &name("x"), Value::Int(1)), Err(Fault::UnresolvedField));
    assert_eq!(heap.get_static(&table, a, &name("nothing")), Err(Fault::UnresolvedField));
    assert_eq!(heap.set_static(&table, a, &name("nothing"), Value::Int(1)), Err(Fault::UnresolvedField));
    assert_eq!(heap.get_field(&table, first, &name("x")), Ok(Value::Int(0)));
}

#[test]
fn load_registers_in_order() {
    let program = Program::load(
        vec![class("A", None, vec![], vec![]), class("B", Some("A"), vec![], vec![]), class("C", Some("A"), vec![], vec![])],
        entry(),
        vec![name("hello")],
    )
    .unwrap();
    assert_eq!(program.classes.len(), 3);
    assert_eq!(program.classes.find(&name("B")), Some(1));
    assert_eq!(program.classes.get(2).parent, Some(0));
    assert_eq!(program.strings, vec![name("hello")]);
    assert_eq!(program.entry.name, "main");
}

#[test]
fn load_stops_at_the_first_fault() {
    let child_first = Program::load(
        vec![class("B", Some("A"), vec![], vec![]), class("A", None, vec![], vec![])],
        entry(),
        vec![],
    );
    assert_eq!(child_first.err(), Some(Fault::UnresolvedClass));
    let twice = Program::load(
        vec![class("A", None, vec![], vec![]), class("A", None, vec![], vec![]), class("B", Some("Z"), vec![], vec![])],
        entry(),
        vec![],
    );
    assert_eq!(twice.err(), Some(Fault::DuplicateClass));
    let fields = Program::load(
        vec![
            class("A", None, vec![field("x", TypeName::Int)], vec![]),
            class("B", Some("A"), vec![field("x", TypeName::Int)], vec![]),
        ],
        entry(),
        vec![],
    );
    assert_eq!(fields.err(), Some(Fault::DuplicateFieldName));
}

#[test]
fn builtins_are_reached_by_name() {
    let bridge = Bridge::new();
    assert_eq!(bridge.resolve(&name("io"), &name("printf")), Ok(Builtin::Print));
    assert_eq!(bridge.resolve(&name("array"), &name("create")), Ok(Builtin::ArrayCreate));
    assert_eq!(bridge.resolve(&name("io"), &name("create")), Err(Fault::UnresolvedMethod));
    assert_eq!(bridge.resolve(&name("array"), &name("printf")), Err(Fault::UnresolvedMethod));
    assert_eq!(bridge.resolve(&name("types"), &name("int")), Err(Fault::UnresolvedMethod));
    assert_eq!(bridge.resolve(&name(""), &name("printf")), Err(Fault::UnresolvedMethod));
}

#[test]
fn builtins_check_the_shape_of_a_call() {
    assert!(Builtin::Print.accepts(false, 1));
    assert!(Builtin::Print.accepts(false, 3));
    assert!(!Builtin::Print.accepts(false, 0));
    assert!(!Builtin::Print.accepts(true, 1));
    assert!(Builtin::ArrayCreate.accepts(true, 1));
    assert!(Builtin::ArrayCreate.accepts(true, 2));
    assert!(!Builtin::ArrayCreate.accepts(true, 0));
    assert!(!Builtin::ArrayCreate.accepts(false, 2));
}
