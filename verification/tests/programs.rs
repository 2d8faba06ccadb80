use object_runtime::class::{ClassDef, FieldDef, MethodDef, Param};
use object_runtime::error::{Failure, Fault};
use object_runtime::machine::{start, Action, Request, Status, Task};
use object_runtime::program::{Program, Runtime};
use object_runtime::syntax::{BinOp, Expr, Literal, Stmt, TypeName};
use object_runtime::thread::{exit_code, ThreadState};
use object_runtime::value::Value;

fn name(text: &str) -> String {
    text.to_string()
}

fn num(i: i64) -> Expr {
    Expr::Literal(Literal::Int(i))
}

fn flt(x: f64) -> Expr {
    Expr::Literal(Literal::Float(x.to_bits()))
}

fn local(slot: usize) -> Expr {
    Expr::Local(slot)
}

fn bin(op: BinOp, left: Expr, right: Expr) -> Expr {
    Expr::Binary(op, Box::new(left), Box::new(right))
}

fn get(object: Expr, field: &str) -> Expr {
    Expr::Field(Box::new(object), name(field))
}

fn call(receiver: Expr, method: &str, arguments: Vec<Expr>) -> Expr {
    Expr::Call(Box::new(receiver), name(method), arguments)
}

fn new(class: &str, arguments: Vec<Expr>) -> Expr {
    Expr::New(name(class), arguments)
}

fn index(array: Expr, indices: Vec<Expr>) -> Expr {
    Expr::Index(Box::new(array), indices)
}

fn printf(arguments: Vec<Expr>) -> Stmt {
    Stmt::Eval(Expr::Builtin { namespace: name("io"), name: name("printf"), element: None, arguments })
}

fn create(element: TypeName, dims: Vec<Expr>) -> Expr {
    Expr::Builtin { namespace: name("array"), name: name("create"), element: Some(element), arguments: dims }
}

fn ret(value: Expr) -> Stmt {
    Stmt::Return(Some(value))
}

fn field(text: &str, ty: TypeName, init: Option<Literal>) -> FieldDef {
    FieldDef { name: name(text), ty, is_static: false, init }
}

fn method(text: &str, params: usize, body: Vec<Stmt>) -> MethodDef {
    let mut list = Vec::new();
    for i in 0..params {
        list.push(Param { name: format!("p{}", i), ty: TypeName::Int });
    }
    MethodDef { name: name(text), params: list, ret: TypeName::Int, body }
}

fn class(text: &str, parent: Option<&str>, fields: Vec<FieldDef>, methods: Vec<MethodDef>) -> ClassDef {
    ClassDef { name: name(text), parent: parent.map(name), fields, methods }
}

fn load(classes: Vec<ClassDef>, body: Vec<Stmt>) -> Program {
    Program::load(classes, method("start", 0, body), vec![name("started... \n"), name("--> hello_%d %d \n")]).unwrap()
}

fn number(v: Value) -> f64 {
    match v {
        Value::Int(i) => i as f64,
        Value::Float(bits) => f64::from_bits(bits),
        _ => panic!("not a number"),
    }
}

fn answer(request: Request) -> Value {
    match request {
        Request::Promote(i) => Value::Float((i as f64).to_bits()),
        Request::Arith(BinOp::Add, a, b) => Value::Float((number(a) + number(b)).to_bits()),
        Request::Arith(BinOp::Sub, a, b) => Value::Float((number(a) - number(b)).to_bits()),
        Request::Arith(BinOp::Mul, a, b) => Value::Float((number(a) * number(b)).to_bits()),
        Request::Arith(BinOp::Equal, a, b) => Value::Bool(number(a) == number(b)),
    }
}

struct Host {
    printed: Vec<Vec<Value>>,
    spawned: Vec<usize>,
}

fn drive<'a>(program: &'a Program, rt: &mut Runtime, task: &mut Task<'a>, host: &mut Host) -> Result<Value, Fault> {
    let mut steps: u64 = 0;
    loop {
        steps += 1;
        assert!(steps < 10_000_000, "the program does not end");
        match task.step(program, rt) {
            Action::Continue => {}
            Action::Print(values) => host.printed.push(values),
            Action::Compute(request) => assert!(task.resume(rt, answer(request))),
            Action::Spawned(t) => host.spawned.push(t),
            Action::Finished(v) => return Ok(v),
            Action::Failed(f) => return Err(f),
        }
    }
}

fn run_main(program: &Program) -> (Result<Value, Fault>, Runtime, Host) {
    let (mut rt, mut task) = start(program);
    let mut host = Host { printed: Vec::new(), spawned: Vec::new() };
    let result = drive(program, &mut rt, &mut task, &mut host);
    (result, rt, host)
}

fn result_of(classes: Vec<ClassDef>, body: Vec<Stmt>) -> Result<Value, Fault> {
    let program = load(classes, body);
    run_main(&program).0
}

fn advanced_math() -> ClassDef {
    class(
        "AdvancedMath",
        None,
        vec![field("PI", TypeName::Float, Some(Literal::Float(3.14159265f64.to_bits())))],
        vec![
            method("AdvancedMath", 0, vec![]),
            method("circleArea", 1, vec![ret(bin(BinOp::Mul, bin(BinOp::Mul, get(Expr::This, "PI"), local(0)), local(0)))]),
            method(
                "circleCircumference",
                1,
                vec![ret(bin(BinOp::Mul, bin(BinOp::Mul, num(2), get(Expr::This, "PI")), local(0)))],
            ),
            method(
                "power",
                2,
                vec![
                    Stmt::If(
                        bin(BinOp::Equal, local(1), num(0)),
                        vec![ret(num(1))],
                        vec![ret(bin(
                            BinOp::Mul,
                            local(0),
                            call(Expr::This, "power", vec![local(0), bin(BinOp::Sub, local(1), num(1))]),
                        ))],
                    ),
                    ret(num(0)),
                ],
            ),
            method(
                "factorial",
                1,
                vec![
                    Stmt::If(
                        bin(BinOp::Equal, local(0), num(1)),
                        vec![ret(num(1))],
                        vec![ret(bin(
                            BinOp::Mul,
                            local(0),
                            call(Expr::This, "factorial", vec![bin(BinOp::Sub, local(0), num(1))]),
                        ))],
                    ),
                    ret(num(0)),
                ],
            ),
        ],
    )
}

fn math_call(method_name: &str, arguments: Vec<Expr>) -> Result<Value, Fault> {
    result_of(
        vec![advanced_math()],
        vec![Stmt::SetLocal(0, new("AdvancedMath", vec![])), ret(call(local(0), method_name, arguments))],
    )
}

#[test]
fn power_recurses() {
    assert_eq!(math_call("power", vec![num(2), num(0)]), Ok(Value::Int(1)));
    assert_eq!(math_call("power", vec![num(7), num(0)]), Ok(Value::Int(1)));
    assert_eq!(math_call("power", vec![num(2), num(5)]), Ok(Value::Int(32)));
    assert_eq!(math_call("power", vec![num(3), num(4)]), Ok(Value::Int(81)));
    assert_eq!(math_call("power", vec![num(-2), num(3)]), Ok(Value::Int(-8)));
}

#[test]
fn factorial_recurses() {
    assert_eq!(math_call("factorial", vec![num(1)]), Ok(Value::Int(1)));
    assert_eq!(math_call("factorial", vec![num(5)]), Ok(Value::Int(120)));
    assert_eq!(math_call("factorial", vec![num(10)]), Ok(Value::Int(3628800)));
}

#[test]
fn integer_arithmetic_wraps() {
    assert_eq!(
        result_of(vec![], vec![ret(bin(BinOp::Add, num(i64::MAX), num(1)))]),
        Ok(Value::Int(i64::MIN))
    );
    assert_eq!(
        result_of(vec![], vec![ret(bin(BinOp::Sub, num(i64::MIN), num(1)))]),
        Ok(Value::Int(i64::MAX))
    );
    assert_eq!(
        result_of(vec![], vec![ret(bin(BinOp::Mul, num(i64::MAX), num(2)))]),
        Ok(Value::Int(-2))
    );
    assert_eq!(result_of(vec![], vec![ret(bin(BinOp::Sub, num(10), num(12)))]), Ok(Value::Int(-2)));
}

#[test]
fn floats_are_computed_by_the_host() {
    assert_eq!(
        math_call("circleArea", vec![flt(2.0)]),
        Ok(Value::Float((3.14159265f64 * 2.0 * 2.0).to_bits()))
    );
    assert_eq!(
        math_call("circleCircumference", vec![flt(0.5)]),
        Ok(Value::Float((2.0 * 3.14159265f64 * 0.5).to_bits()))
    );
    assert_eq!(
        math_call("circleArea", vec![num(3)]),
        Ok(Value::Float((3.14159265f64 * 3.0 * 3.0).to_bits()))
    );
}

#[test]
fn a_float_operation_waits_for_its_answer() {
    let program = load(vec![], vec![ret(bin(BinOp::Add, num(1), flt(0.5)))]);
    let (mut rt, mut task) = start(&program);
    let mut request = None;
    for _ in 0..20 {
        match task.step(&program, &mut rt) {
            Action::Continue => {}
            Action::Compute(r) => {
                request = Some(r);
                break;
            }
            other => panic!("unexpected {:?}", other),
        }
    }
    let request = request.unwrap();
    assert_eq!(request, Request::Arith(BinOp::Add, Value::Int(1), Value::Float(0.5f64.to_bits())));
    assert_eq!(task.status(), Status::Waiting(request));
    assert!(matches!(task.step(&program, &mut rt), Action::Compute(r) if r == request));
    assert!(!task.resume(&rt, Value::Int(1)));
    assert!(!task.resume(&rt, Value::Bool(true)));
    assert_eq!(task.status(), Status::Waiting(request));
    assert!(task.resume(&rt, Value::Float(1.5f64.to_bits())));
    assert_eq!(task.status(), Status::Running);
    assert!(!task.resume(&rt, Value::Float(1.5f64.to_bits())));
    let mut host = Host { printed: Vec::new(), spawned: Vec::new() };
    assert_eq!(drive(&program, &mut rt, &mut task, &mut host), Ok(Value::Float(1.5f64.to_bits())));
    assert_eq!(task.status(), Status::Finished(Value::Float(1.5f64.to_bits())));
    assert_eq!(task.depth(), 0);
    assert!(matches!(task.step(&program, &mut rt), Action::Finished(Value::Float(_))));
}

#[test]
fn float_comparison_wants_a_boolean() {
    let program = load(vec![], vec![ret(bin(BinOp::Equal, flt(2.0), num(2)))]);
    let (mut rt, mut task) = start(&program);
    loop {
        match task.step(&program, &mut rt) {
            Action::Continue => {}
            Action::Compute(_) => break,
            other => panic!("unexpected {:?}", other),
        }
    }
    assert!(!task.resume(&rt, Value::Float(0)));
    assert!(task.resume(&rt, Value::Bool(true)));
    let mut host = Host { printed: Vec::new(), spawned: Vec::new() };
    assert_eq!(drive(&program, &mut rt, &mut task, &mut host), Ok(Value::Bool(true)));
}

#[test]
fn equality_compares_any_two_values() {
    assert_eq!(result_of(vec![], vec![ret(bin(BinOp::Equal, num(3), num(3)))]), Ok(Value::Bool(true)));
    assert_eq!(result_of(vec![], vec![ret(bin(BinOp::Equal, num(3), num(4)))]), Ok(Value::Bool(false)));
    assert_eq!(
        result_of(vec![], vec![ret(bin(BinOp::Equal, Expr::Literal(Literal::Null), Expr::Literal(Literal::Null)))]),
        Ok(Value::Bool(true))
    );
    assert_eq!(
        result_of(vec![], vec![ret(bin(BinOp::Equal, num(1), Expr::Literal(Literal::Bool(true))))]),
        Ok(Value::Bool(false))
    );
    assert_eq!(
        result_of(
            vec![class("A", None, vec![], vec![])],
            vec![
                Stmt::SetLocal(0, new("A", vec![])),
                Stmt::SetLocal(1, new("A", vec![])),
                Stmt::SetLocal(2, local(0)),
                ret(bin(BinOp::Equal, local(0), local(2)))
            ]
        ),
        Ok(Value::Bool(true))
    );
    assert_eq!(
        result_of(
            vec![class("A", None, vec![], vec![])],
            vec![
                Stmt::SetLocal(0, new("A", vec![])),
                Stmt::SetLocal(1, new("A", vec![])),
                ret(bin(BinOp::Equal, local(0), local(1)))
            ]
        ),
        Ok(Value::Bool(false))
    );
}

#[test]
fn arithmetic_on_other_values_is_a_type_mismatch() {
    assert_eq!(
        result_of(vec![], vec![ret(bin(BinOp::Add, num(1), Expr::Literal(Literal::Bool(true))))]),
        Err(Fault::TypeMismatch)
    );
    assert_eq!(
        result_of(vec![], vec![ret(bin(BinOp::Mul, Expr::Literal(Literal::Null), flt(1.0)))]),
        Err(Fault::TypeMismatch)
    );
    assert_eq!(
        result_of(vec![], vec![ret(bin(BinOp::Sub, Expr::Literal(Literal::Str(0)), num(1)))]),
        Err(Fault::TypeMismatch)
    );
}

#[test]
fn directory_reader_sample() {
    let reader = class(
        "DirectoryReader",
        None,
        vec![
            FieldDef { name: name("x"), ty: TypeName::Float, is_static: true, init: Some(Literal::Int(200)) },
            field("y", TypeName::Float, Some(Literal::Int(1))),
        ],
        vec![
            method("sum", 2, vec![ret(get(Expr::This, "y"))]),
            method("mul", 2, vec![ret(bin(BinOp::Mul, local(0), local(1)))]),
            method("sub", 2, vec![ret(bin(BinOp::Sub, local(0), local(1)))]),
        ],
    );
    let body = vec![
        Stmt::SetLocal(0, new("DirectoryReader", vec![])),
        Stmt::SetLocal(
            1,
            bin(
                BinOp::Add,
                call(local(0), "sum", vec![num(10), num(10)]),
                call(local(0), "mul", vec![num(10), num(20)]),
            ),
        ),
        ret(local(1)),
    ];
    assert_eq!(result_of(vec![reader], body), Ok(Value::Int(201)));
}

#[test]
fn a_body_without_return_gives_null() {
    assert_eq!(result_of(vec![], vec![]), Ok(Value::Null));
    assert_eq!(result_of(vec![], vec![Stmt::SetLocal(0, num(1))]), Ok(Value::Null));
    assert_eq!(result_of(vec![], vec![Stmt::Return(None), ret(num(1))]), Ok(Value::Null));
    assert_eq!(
        result_of(
            vec![class("A", None, vec![], vec![method("m", 0, vec![])])],
            vec![Stmt::SetLocal(0, new("A", vec![])), ret(call(local(0), "m", vec![]))]
        ),
        Ok(Value::Null)
    );
}

#[test]
fn locals_beyond_the_frame_hold_null() {
    assert_eq!(result_of(vec![], vec![ret(local(5))]), Ok(Value::Null));
    assert_eq!(
        result_of(vec![], vec![Stmt::SetLocal(3, num(9)), ret(bin(BinOp::Equal, local(1), Expr::Literal(Literal::Null)))]),
        Ok(Value::Bool(true))
    );
    assert_eq!(result_of(vec![], vec![Stmt::SetLocal(3, num(9)), ret(local(3))]), Ok(Value::Int(9)));
    assert_eq!(
        result_of(vec![], vec![Stmt::SetLocal(0, num(1)), Stmt::SetLocal(0, num(2)), ret(local(0))]),
        Ok(Value::Int(2))
    );
}

#[test]
fn foreach_runs_over_a_half_open_range() {
    let sum = |low: i64, high: i64| {
        result_of(
            vec![],
            vec![
                Stmt::SetLocal(0, num(0)),
                Stmt::Foreach(1, num(low), num(high), vec![Stmt::SetLocal(0, bin(BinOp::Add, local(0), local(1)))]),
                ret(local(0)),
            ],
        )
    };
    assert_eq!(sum(1, 5), Ok(Value::Int(10)));
    assert_eq!(sum(0, 1), Ok(Value::Int(0)));
    assert_eq!(sum(3, 3), Ok(Value::Int(0)));
    assert_eq!(sum(5, 1), Ok(Value::Int(0)));
    assert_eq!(sum(-2, 3), Ok(Value::Int(0)));
    assert_eq!(sum(1, 1000), Ok(Value::Int(499500)));
    assert_eq!(sum(i64::MAX - 2, i64::MAX), Ok(Value::Int((i64::MAX - 2).wrapping_add(i64::MAX - 1))));
}

#[test]
fn foreach_counts_its_rounds() {
    assert_eq!(
        result_of(
            vec![],
            vec![
                Stmt::SetLocal(0, num(0)),
                Stmt::Foreach(
                    1,
                    num(0),
                    num(3),
                    vec![Stmt::Foreach(2, num(0), num(4), vec![Stmt::SetLocal(0, bin(BinOp::Add, local(0), num(1)))])]
                ),
                ret(local(0)),
            ]
        ),
        Ok(Value::Int(12))
    );
    assert_eq!(
        result_of(
            vec![],
            vec![Stmt::Foreach(0, num(0), num(10), vec![Stmt::If(bin(BinOp::Equal, local(0), num(4)), vec![ret(local(0))], vec![])]), ret(num(-1))]
        ),
        Ok(Value::Int(4))
    );
    assert_eq!(
        result_of(vec![], vec![Stmt::Foreach(0, num(0), Expr::Literal(Literal::Bool(true)), vec![])]),
        Err(Fault::TypeMismatch)
    );
}

#[test]
fn if_wants_a_boolean() {
    assert_eq!(
        result_of(vec![], vec![Stmt::If(Expr::Literal(Literal::Bool(true)), vec![ret(num(1))], vec![ret(num(2))])]),
        Ok(Value::Int(1))
    );
    assert_eq!(
        result_of(vec![], vec![Stmt::If(Expr::Literal(Literal::Bool(false)), vec![ret(num(1))], vec![ret(num(2))])]),
        Ok(Value::Int(2))
    );
    assert_eq!(
        result_of(vec![], vec![Stmt::If(num(1), vec![ret(num(1))], vec![ret(num(2))])]),
        Err(Fault::TypeMismatch)
    );
}

fn shapes() -> Vec<ClassDef> {
    vec![
        class(
            "Shape",
            None,
            vec![field("sides", TypeName::Int, None)],
            vec![
                method("Shape", 1, vec![Stmt::SetField(Expr::This, name("sides"), local(0))]),
                method("area", 0, vec![ret(num(0))]),
                method("label", 0, vec![ret(num(1))]),
                method("describe", 0, vec![ret(call(Expr::This, "area", vec![]))]),
            ],
        ),
        class(
            "Square",
            Some("Shape"),
            vec![field("width", TypeName::Int, None)],
            vec![
                method(
                    "Square",
                    1,
                    vec![
                        Stmt::Eval(call(Expr::This, "Shape", vec![num(4)])),
                        Stmt::SetField(Expr::This, name("width"), local(0)),
                    ],
                ),
                method("area", 0, vec![ret(bin(BinOp::Mul, get(Expr::This, "width"), get(Expr::This, "width")))]),
            ],
        ),
    ]
}

#[test]
fn an_inherited_method_runs_the_parents_body() {
    assert_eq!(
        result_of(shapes(), vec![Stmt::SetLocal(0, new("Square", vec![num(3)])), ret(call(local(0), "label", vec![]))]),
        Ok(Value::Int(1))
    );
}

#[test]
fn dispatch_goes_by_the_runtime_class() {
    assert_eq!(
        result_of(shapes(), vec![Stmt::SetLocal(0, new("Square", vec![num(3)])), ret(call(local(0), "area", vec![]))]),
        Ok(Value::Int(9))
    );
    assert_eq!(
        result_of(shapes(), vec![Stmt::SetLocal(0, new("Shape", vec![num(3)])), ret(call(local(0), "area", vec![]))]),
        Ok(Value::Int(0))
    );
    assert_eq!(
        result_of(
            shapes(),
            vec![Stmt::SetLocal(0, new("Square", vec![num(5)])), ret(call(local(0), "describe", vec![]))]
        ),
        Ok(Value::Int(25))
    );
}

#[test]
fn constructors_are_not_chained_by_themselves() {
    assert_eq!(
        result_of(shapes(), vec![Stmt::SetLocal(0, new("Square", vec![num(3)])), ret(get(local(0), "sides"))]),
        Ok(Value::Int(4))
    );
    let plain = vec![
        class(
            "Base",
            None,
            vec![field("a", TypeName::Int, None)],
            vec![method("Base", 0, vec![Stmt::SetField(Expr::This, name("a"), num(7))])],
        ),
        class(
            "Derived",
            Some("Base"),
            vec![],
            vec![method("Derived", 0, vec![])],
        ),
    ];
    assert_eq!(
        result_of(plain, vec![Stmt::SetLocal(0, new("Derived", vec![])), ret(get(local(0), "a"))]),
        Ok(Value::Int(0))
    );
}

#[test]
fn new_hands_back_the_instance() {
    let classes = vec![class(
        "Box",
        None,
        vec![field("v", TypeName::Int, None)],
        vec![method("Box", 1, vec![Stmt::SetField(Expr::This, name("v"), local(0)), ret(num(99))])],
    )];
    assert_eq!(result_of(classes, vec![ret(get(new("Box", vec![num(5)]), "v"))]), Ok(Value::Int(5)));
    let program = load(vec![class("Plain", None, vec![], vec![])], vec![ret(new("Plain", vec![]))]);
    let (result, rt, _) = run_main(&program);
    assert_eq!(result, Ok(Value::Object(0)));
    assert_eq!(rt.heap.object_count(), 1);
    assert_eq!(rt.heap.class_of(0), 0);
}

#[test]
fn calls_fail_as_typed_failures() {
    let classes = || vec![class("A", None, vec![field("f", TypeName::Int, None)], vec![method("A", 0, vec![]), method("m", 1, vec![])])];
    let with = |body: Vec<Stmt>| result_of(classes(), body);
    assert_eq!(with(vec![ret(new("Missing", vec![]))]), Err(Fault::UnresolvedClass));
    assert_eq!(with(vec![ret(new("A", vec![num(1)]))]), Err(Fault::TypeMismatch));
    assert_eq!(
        with(vec![Stmt::SetLocal(0, new("A", vec![])), ret(call(local(0), "nothing", vec![]))]),
        Err(Fault::UnresolvedMethod)
    );
    assert_eq!(
        with(vec![Stmt::SetLocal(0, new("A", vec![])), ret(call(local(0), "m", vec![]))]),
        Err(Fault::TypeMismatch)
    );
    assert_eq!(with(vec![ret(call(Expr::Literal(Literal::Null), "m", vec![num(1)]))]), Err(Fault::TypeMismatch));
    assert_eq!(with(vec![ret(call(num(3), "m", vec![num(1)]))]), Err(Fault::TypeMismatch));
    assert_eq!(with(vec![ret(call(Expr::This, "m", vec![num(1)]))]), Err(Fault::TypeMismatch));
    assert_eq!(
        with(vec![Stmt::SetLocal(0, new("A", vec![])), ret(get(local(0), "g"))]),
        Err(Fault::UnresolvedField)
    );
    assert_eq!(
        with(vec![Stmt::SetLocal(0, new("A", vec![])), Stmt::SetField(local(0), name("g"), num(1))]),
        Err(Fault::UnresolvedField)
    );
    assert_eq!(with(vec![ret(get(num(1), "f"))]), Err(Fault::TypeMismatch));
    assert_eq!(with(vec![Stmt::SetField(Expr::Literal(Literal::Null), name("f"), num(1))]), Err(Fault::TypeMismatch));
    assert_eq!(with(vec![ret(Expr::Static(name("Missing"), name("f")))]), Err(Fault::UnresolvedClass));
    assert_eq!(with(vec![ret(Expr::Static(name("A"), name("f")))]), Err(Fault::UnresolvedField));
    assert_eq!(with(vec![Stmt::SetStatic(name("Missing"), name("f"), num(1))]), Err(Fault::UnresolvedClass));
    assert_eq!(with(vec![Stmt::SetStatic(name("A"), name("f"), num(1))]), Err(Fault::UnresolvedField));
    let no_constructor = vec![class("Bare", None, vec![], vec![])];
    assert_eq!(result_of(no_constructor, vec![ret(new("Bare", vec![num(1)]))]), Err(Fault::UnresolvedMethod));
}

#[test]
fn a_failed_step_changes_nothing_in_the_heap() {
    let program = load(
        vec![class("A", None, vec![], vec![method("A", 0, vec![])])],
        vec![Stmt::SetLocal(0, new("A", vec![])), ret(new("A", vec![num(1)]))],
    );
    let (result, rt, _) = run_main(&program);
    assert_eq!(result, Err(Fault::TypeMismatch));
    assert_eq!(rt.heap.object_count(), 1);
}

#[test]
fn static_fields_in_programs() {
    let classes = vec![
        class(
            "Counter",
            None,
            vec![FieldDef { name: name("count"), ty: TypeName::Int, is_static: true, init: Some(Literal::Int(200)) }],
            vec![method(
                "bump",
                0,
                vec![Stmt::SetField(Expr::This, name("count"), bin(BinOp::Add, get(Expr::This, "count"), num(1)))],
            )],
        ),
        class("Sub", Some("Counter"), vec![], vec![]),
    ];
    let body = vec![
        Stmt::SetLocal(0, new("Counter", vec![])),
        Stmt::SetLocal(1, new("Sub", vec![])),
        Stmt::Eval(call(local(0), "bump", vec![])),
        Stmt::Eval(call(local(1), "bump", vec![])),
        Stmt::SetStatic(name("Sub"), name("count"), bin(BinOp::Add, Expr::Static(name("Counter"), name("count")), num(10))),
        ret(get(local(0), "count")),
    ];
    assert_eq!(result_of(classes, body), Ok(Value::Int(212)));
}

fn integer() -> ClassDef {
    class(
        "Integer",
        None,
        vec![field("x", TypeName::Int, None)],
        vec![method("Integer", 1, vec![Stmt::SetField(Expr::This, name("x"), local(0))])],
    )
}

#[test]
fn array_of_objects_sample() {
    let body = vec![
        Stmt::SetLocal(0, create(TypeName::Class(name("Integer")), vec![num(5), num(4)])),
        Stmt::SetIndex(local(0), vec![num(0), num(1)], new("Integer", vec![num(100)])),
        ret(get(index(local(0), vec![num(0), num(1)]), "x")),
    ];
    assert_eq!(result_of(vec![integer()], body), Ok(Value::Int(100)));
}

#[test]
fn array_faults_in_programs() {
    let with = |tail: Vec<Stmt>| {
        let mut body = vec![Stmt::SetLocal(0, create(TypeName::Class(name("Integer")), vec![num(5), num(4)]))];
        body.extend(tail);
        result_of(vec![integer()], body)
    };
    assert_eq!(with(vec![ret(index(local(0), vec![num(0), num(1), num(2)]))]), Err(Fault::DimensionMismatch));
    assert_eq!(with(vec![ret(index(local(0), vec![num(5), num(0)]))]), Err(Fault::IndexOutOfRange));
    assert_eq!(with(vec![ret(index(local(0), vec![num(0), num(-1)]))]), Err(Fault::IndexOutOfRange));
    assert_eq!(with(vec![ret(index(local(0), vec![num(4), num(3)]))]), Ok(Value::Null));
    assert_eq!(
        with(vec![Stmt::SetIndex(local(0), vec![num(0), num(1), num(2)], new("Integer", vec![num(1)]))]),
        Err(Fault::DimensionMismatch)
    );
    assert_eq!(
        with(vec![Stmt::SetIndex(local(0), vec![num(5), num(0)], new("Integer", vec![num(1)]))]),
        Err(Fault::IndexOutOfRange)
    );
    assert_eq!(with(vec![Stmt::SetIndex(local(0), vec![num(0), num(0)], num(1))]), Err(Fault::TypeMismatch));
    assert_eq!(
        with(vec![ret(index(local(0), vec![Expr::Literal(Literal::Bool(true)), num(0)]))]),
        Err(Fault::TypeMismatch)
    );
    assert_eq!(with(vec![ret(index(num(3), vec![num(0)]))]), Err(Fault::TypeMismatch));
    assert_eq!(with(vec![Stmt::SetIndex(num(3), vec![num(0)], num(1))]), Err(Fault::TypeMismatch));
}

#[test]
fn array_factory_checks_its_call() {
    let make = |e: Expr| result_of(vec![integer()], vec![ret(e)]);
    assert_eq!(make(create(TypeName::Int, vec![num(2), num(3)])), Ok(Value::Array(0)));
    assert_eq!(make(create(TypeName::Int, vec![])), Err(Fault::TypeMismatch));
    assert_eq!(make(create(TypeName::Int, vec![num(0)])), Err(Fault::IndexOutOfRange));
    assert_eq!(make(create(TypeName::Int, vec![num(2), num(-3)])), Err(Fault::IndexOutOfRange));
    assert_eq!(make(create(TypeName::Int, vec![Expr::Literal(Literal::Bool(true))])), Err(Fault::TypeMismatch));
    assert_eq!(make(create(TypeName::Void, vec![num(2)])), Err(Fault::TypeMismatch));
    assert_eq!(make(create(TypeName::Class(name("Missing")), vec![num(2)])), Err(Fault::UnresolvedClass));
    assert_eq!(
        make(Expr::Builtin { namespace: name("array"), name: name("create"), element: None, arguments: vec![num(2)] }),
        Err(Fault::TypeMismatch)
    );
    assert_eq!(
        make(Expr::Builtin { namespace: name("array"), name: name("destroy"), element: None, arguments: vec![] }),
        Err(Fault::UnresolvedMethod)
    );
}

#[test]
fn two_variables_share_one_array() {
    let body = vec![
        Stmt::SetLocal(0, create(TypeName::Int, vec![num(3)])),
        Stmt::SetLocal(1, local(0)),
        Stmt::SetIndex(local(1), vec![num(1)], num(7)),
        ret(index(local(0), vec![num(1)])),
    ];
    assert_eq!(result_of(vec![], body), Ok(Value::Int(7)));
}

#[test]
fn two_variables_share_one_instance() {
    let body = vec![
        Stmt::SetLocal(0, new("Integer", vec![num(1)])),
        Stmt::SetLocal(1, local(0)),
        Stmt::SetField(local(1), name("x"), num(50)),
        ret(get(local(0), "x")),
    ];
    assert_eq!(result_of(vec![integer()], body), Ok(Value::Int(50)));
}

#[test]
fn an_integer_is_promoted_on_a_write_to_floats() {
    let body = vec![
        Stmt::SetLocal(0, create(TypeName::Float, vec![num(2)])),
        Stmt::SetIndex(local(0), vec![num(0)], num(3)),
        Stmt::SetIndex(local(0), vec![num(1)], flt(2.5)),
        ret(bin(BinOp::Add, index(local(0), vec![num(0)]), index(local(0), vec![num(1)]))),
    ];
    assert_eq!(result_of(vec![], body), Ok(Value::Float(5.5f64.to_bits())));
    let program = load(
        vec![],
        vec![Stmt::SetLocal(0, create(TypeName::Float, vec![num(2)])), Stmt::SetIndex(local(0), vec![num(1)], num(3))],
    );
    let (mut rt, mut task) = start(&program);
    loop {
        match task.step(&program, &mut rt) {
            Action::Continue => {}
            Action::Compute(r) => {
                assert_eq!(r, Request::Promote(3));
                break;
            }
            other => panic!("unexpected {:?}", other),
        }
    }
    assert_eq!(rt.heap.array_get(&program.classes, 0, &vec![1]), Ok(Value::Float(0)));
    assert!(!task.resume(&rt, Value::Int(3)));
    assert!(task.resume(&rt, Value::Float(3.0f64.to_bits())));
    let mut host = Host { printed: Vec::new(), spawned: Vec::new() };
    assert_eq!(drive(&program, &mut rt, &mut task, &mut host), Ok(Value::Null));
    assert_eq!(rt.heap.array_get(&program.classes, 0, &vec![1]), Ok(Value::Float(3.0f64.to_bits())));
    let into_ints = vec![
        Stmt::SetLocal(0, create(TypeName::Int, vec![num(2)])),
        Stmt::SetIndex(local(0), vec![num(0)], flt(1.0)),
    ];
    assert_eq!(result_of(vec![], into_ints), Err(Fault::TypeMismatch));
}

#[test]
fn printing_goes_to_the_host() {
    let program = load(
        vec![],
        vec![
            printf(vec![Expr::Literal(Literal::Str(0))]),
            printf(vec![Expr::Literal(Literal::Str(1)), num(967), bin(BinOp::Add, num(1), num(1))]),
            ret(num(0)),
        ],
    );
    let (result, _, host) = run_main(&program);
    assert_eq!(result, Ok(Value::Int(0)));
    assert_eq!(host.printed, vec![vec![Value::Str(0)], vec![Value::Str(1), Value::Int(967), Value::Int(2)]]);
    assert_eq!(program.strings[0], "started... \n");
    assert_eq!(result_of(vec![], vec![printf(vec![])]), Err(Fault::TypeMismatch));
    assert_eq!(result_of(vec![], vec![printf(vec![num(1)])]), Err(Fault::TypeMismatch));
    assert_eq!(
        result_of(vec![], vec![ret(Expr::Builtin {
            namespace: name("io"),
            name: name("printf"),
            element: None,
            arguments: vec![Expr::Literal(Literal::Str(0))]
        })]),
        Ok(Value::Null)
    );
    assert_eq!(
        result_of(vec![], vec![Stmt::Eval(Expr::Builtin {
            namespace: name("io"),
            name: name("scanf"),
            element: None,
            arguments: vec![]
        })]),
        Err(Fault::UnresolvedMethod)
    );
}

fn worker() -> ClassDef {
    class(
        "Worker",
        None,
        vec![field("id", TypeName::Int, None), field("done", TypeName::Int, None)],
        vec![
            method("Worker", 1, vec![Stmt::SetField(Expr::This, name("id"), local(0))]),
            method(
                "do",
                0,
                vec![Stmt::Foreach(
                    0,
                    num(1),
                    num(1000),
                    vec![printf(vec![Expr::Literal(Literal::Str(1)), get(Expr::This, "id"), local(0)])],
                )],
            ),
            method("mark", 0, vec![Stmt::SetField(Expr::This, name("done"), get(Expr::This, "id"))]),
            method("note", 0, vec![Stmt::SetField(Expr::This, name("done"), num(-1))]),
            method("broken", 0, vec![Stmt::Eval(call(Expr::This, "nothing", vec![]))]),
            method("takes", 1, vec![]),
        ],
    )
}

#[test]
fn worker_sample_spawns_two_threads() {
    let program = load(
        vec![worker()],
        vec![
            printf(vec![Expr::Literal(Literal::Str(0))]),
            Stmt::SetLocal(0, new("Worker", vec![num(967)])),
            Stmt::SetLocal(1, new("Worker", vec![num(1)])),
            Stmt::Spawn(local(0), name("do")),
            Stmt::Spawn(local(0), name("do")),
        ],
    );
    let (mut rt, mut main) = start(&program);
    let mut host = Host { printed: Vec::new(), spawned: Vec::new() };
    let result = drive(&program, &mut rt, &mut main, &mut host);
    assert_eq!(result, Ok(Value::Null));
    assert_eq!(host.spawned, vec![0, 1]);
    assert_eq!(host.printed, vec![vec![Value::Str(0)]]);
    assert_eq!(rt.threads.len(), 2);
    assert_eq!(rt.threads.get(0).state, ThreadState::Running);
    assert_eq!(rt.threads.get(0).bound.receiver, rt.threads.get(1).bound.receiver);
    assert_eq!(rt.threads.settle(result), None);
    let mut first = Task::for_thread(&program, &rt, 0);
    let mut second = Task::for_thread(&program, &rt, 1);
    assert_eq!(first.thread(), Some(0));
    assert_eq!(main.thread(), None);
    let mut turn = 0;
    while first.status() == Status::Running || second.status() == Status::Running {
        let task = if turn % 2 == 0 { &mut first } else { &mut second };
        turn += 1;
        for _ in 0..7 {
            match task.step(&program, &mut rt) {
                Action::Print(values) => host.printed.push(values),
                Action::Continue | Action::Finished(_) => {}
                other => panic!("unexpected {:?}", other),
            }
        }
    }
    assert_eq!(host.printed.len(), 1 + 2 * 999);
    for t in 0..2 {
        let indices: Vec<Value> = host.printed[1..].iter().filter(|p| p[1] == Value::Int(967)).map(|p| p[2]).collect();
        assert_eq!(indices.len(), 2 * 999);
        assert_eq!(rt.threads.get(t).state, ThreadState::Completed);
        assert_eq!(rt.threads.join(t), Some(Ok(())));
    }
    assert_eq!(rt.threads.outstanding(), None);
    let report = rt.threads.settle(result).unwrap();
    assert_eq!(report, Ok(Value::Null));
    assert_eq!(exit_code(report), 0);
}

#[test]
fn two_workers_with_distinct_methods_both_finish() {
    let program = load(
        vec![worker()],
        vec![
            Stmt::SetLocal(0, new("Worker", vec![num(11)])),
            Stmt::SetLocal(1, new("Worker", vec![num(22)])),
            Stmt::Spawn(local(0), name("mark")),
            Stmt::Spawn(local(1), name("note")),
            ret(num(3)),
        ],
    );
    let (mut rt, mut main) = start(&program);
    let mut host = Host { printed: Vec::new(), spawned: Vec::new() };
    let result = drive(&program, &mut rt, &mut main, &mut host);
    assert_eq!(result, Ok(Value::Int(3)));
    assert_eq!(host.spawned, vec![0, 1]);
    assert_eq!(rt.threads.settle(result), None);
    assert_eq!(rt.threads.outstanding(), Some(0));
    let mut second = Task::for_thread(&program, &rt, 1);
    assert_eq!(drive(&program, &mut rt, &mut second, &mut host), Ok(Value::Null));
    assert_eq!(rt.threads.settle(result), None);
    assert_eq!(rt.threads.join(1), Some(Ok(())));
    assert_eq!(rt.threads.join(0), None);
    let mut first = Task::for_thread(&program, &rt, 0);
    assert_eq!(drive(&program, &mut rt, &mut first, &mut host), Ok(Value::Null));
    assert_eq!(rt.threads.join(0), Some(Ok(())));
    let report = rt.threads.settle(result).unwrap();
    assert_eq!(report, Ok(Value::Int(3)));
    assert_eq!(exit_code(report), 3);
    let a = rt.threads.get(0).bound.receiver;
    let b = rt.threads.get(1).bound.receiver;
    assert!(a != b);
    assert!(rt.threads.get(0).bound.method != rt.threads.get(1).bound.method);
    assert_eq!(rt.heap.get_field(&program.classes, a, &name("done")), Ok(Value::Int(11)));
    assert_eq!(rt.heap.get_field(&program.classes, b, &name("done")), Ok(Value::Int(-1)));
}

#[test]
fn a_failing_thread_shows_at_the_join() {
    let program = load(
        vec![worker()],
        vec![
            Stmt::SetLocal(0, new("Worker", vec![num(1)])),
            Stmt::Spawn(local(0), name("broken")),
            Stmt::Spawn(local(0), name("mark")),
            ret(num(0)),
        ],
    );
    let (mut rt, mut main) = start(&program);
    let mut host = Host { printed: Vec::new(), spawned: Vec::new() };
    let result = drive(&program, &mut rt, &mut main, &mut host);
    assert_eq!(result, Ok(Value::Int(0)));
    let mut broken = Task::for_thread(&program, &rt, 0);
    assert_eq!(drive(&program, &mut rt, &mut broken, &mut host), Err(Fault::UnresolvedMethod));
    assert_eq!(broken.status(), Status::Failed(Fault::UnresolvedMethod));
    assert_eq!(main.status(), Status::Finished(Value::Int(0)));
    assert_eq!(rt.threads.get(0).state, ThreadState::Failed(Fault::UnresolvedMethod));
    assert_eq!(rt.threads.join(0), Some(Err(Failure::ThreadPanicked(Fault::UnresolvedMethod))));
    assert_eq!(rt.threads.settle(result), None);
    let mut fine = Task::for_thread(&program, &rt, 1);
    assert_eq!(drive(&program, &mut rt, &mut fine, &mut host), Ok(Value::Null));
    let report = rt.threads.settle(result).unwrap();
    assert_eq!(report, Err(Failure::ThreadPanicked(Fault::UnresolvedMethod)));
    assert_eq!(exit_code(report), 1);
}

#[test]
fn a_failure_on_the_main_path_is_reported_as_raised() {
    let program = load(vec![], vec![ret(index(num(0), vec![num(0)]))]);
    let (result, rt, _) = run_main(&program);
    assert_eq!(result, Err(Fault::TypeMismatch));
    let report = rt.threads.settle(result).unwrap();
    assert_eq!(report, Err(Failure::Raised(Fault::TypeMismatch)));
    assert_eq!(exit_code(report), 1);
}

#[test]
fn spawn_binds_the_method_at_once() {
    let with = |s: Stmt| result_of(vec![worker()], vec![Stmt::SetLocal(0, new("Worker", vec![num(1)])), s]);
    assert_eq!(with(Stmt::Spawn(local(0), name("nothing"))), Err(Fault::UnresolvedMethod));
    assert_eq!(with(Stmt::Spawn(local(0), name("takes"))), Err(Fault::TypeMismatch));
    assert_eq!(with(Stmt::Spawn(num(1), name("do"))), Err(Fault::TypeMismatch));
    assert_eq!(with(Stmt::Spawn(local(4), name("do"))), Err(Fault::TypeMismatch));
}
