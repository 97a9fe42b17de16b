use zub::compiler::{BinOp, Binding, BindingKind, CompileError, Expr, UnOp};
use zub::value::Value;
use zub::vm::{ArithOp, Step, VmError, VM};

fn n(x: f64) -> Expr {
    Expr::Number(x.to_bits())
}

fn b(e: Expr) -> Box<Expr> {
    Box::new(e)
}

fn global(name: &str) -> Binding {
    Binding { name: name.as_bytes().to_vec(), kind: BindingKind::Global, depth: 0, function_depth: 0 }
}

fn local(name: &str, slot: u8, function_depth: usize) -> Binding {
    Binding { name: name.as_bytes().to_vec(), kind: BindingKind::Local, depth: slot, function_depth }
}

fn var(binding: Binding) -> Expr {
    Expr::Var(binding)
}

fn bin(op: BinOp, l: Expr, r: Expr) -> Expr {
    Expr::Binary(op, b(l), b(r))
}

fn call(callee: Expr, args: Vec<Expr>) -> Expr {
    Expr::Call(b(callee), args)
}

fn value(x: f64) -> Value {
    Value::Num(x.to_bits())
}

fn compute(op: ArithOp, a: u64, c: u64) -> Value {
    let (x, y) = (f64::from_bits(a), f64::from_bits(c));
    match op {
        ArithOp::Add => value(x + y),
        ArithOp::Sub => value(x - y),
        ArithOp::Mul => value(x * y),
        ArithOp::Div => value(x / y),
        ArithOp::Rem => value(x % y),
        ArithOp::Neg => value(-x),
        ArithOp::Lt => Value::Bool(x < y),
        ArithOp::Gt => Value::Bool(x > y),
    }
}

fn run(program: Vec<Expr>) -> Result<VM, VmError> {
    let mut vm = VM::new();
    vm.exec(&program)?;
    loop {
        match vm.step() {
            Step::Continue | Step::Print(_) => {}
            Step::Halted => return Ok(vm),
            Step::Arith { op, a, b } => vm.resume(compute(op, a, b))?,
            Step::Native { .. } => vm.resume(Value::Nil)?,
            Step::Fault(e) => return Err(e),
        }
    }
}

fn num_global(vm: &VM, name: &str) -> f64 {
    match vm.global(&name.as_bytes().to_vec()) {
        Some(Value::Num(bits)) => f64::from_bits(bits),
        other => panic!("{} is {:?}", name, other),
    }
}

fn list_global(vm: &VM, name: &str) -> Vec<f64> {
    let h = match vm.global(&name.as_bytes().to_vec()) {
        Some(Value::Obj(h)) => h,
        other => panic!("{} is {:?}", name, other),
    };
    vm.object(h)
        .unwrap()
        .as_list()
        .unwrap()
        .iter()
        .map(|v| match v {
            Value::Num(bits) => f64::from_bits(*bits),
            other => panic!("element {:?}", other),
        })
        .collect()
}

#[test]
fn compiled_arithmetic_and_global() {
    let vm = run(vec![Expr::Bind(
        global("r"),
        b(bin(BinOp::Add, n(1.0), bin(BinOp::Mul, n(2.0), n(3.0)))),
    )])
    .unwrap();
    assert_eq!(num_global(&vm, "r"), 7.0);
}

#[test]
fn compiled_closure_identity() {
    let c = || local("c", 1, 1);
    let inc = Expr::Function(
        local("inc", 2, 1),
        vec![],
        vec![
            Expr::Assign(c(), b(bin(BinOp::Add, var(c()), n(1.0)))),
            Expr::Return(Some(b(var(c())))),
        ],
    );
    let make = Expr::Function(
        global("make"),
        vec![],
        vec![Expr::Bind(c(), b(n(0.0))), inc, Expr::Return(Some(b(var(local("inc", 2, 1)))))],
    );
    let vm = run(vec![
        make,
        Expr::Bind(global("f"), b(call(var(global("make")), vec![]))),
        Expr::Bind(global("a"), b(call(var(global("f")), vec![]))),
        Expr::Bind(global("b"), b(call(var(global("f")), vec![]))),
    ])
    .unwrap();
    assert_eq!(num_global(&vm, "a"), 1.0);
    assert_eq!(num_global(&vm, "b"), 2.0);
}

#[test]
fn compiled_nested_closure_capture() {
    let bob = Expr::Function(
        local("bob", 1, 1),
        vec![],
        vec![Expr::Return(Some(b(var(local("a", 1, 0)))))],
    );
    let id = Expr::Function(
        global("id"),
        vec![],
        vec![bob, Expr::Return(Some(b(call(var(local("bob", 1, 1)), vec![]))))],
    );
    let vm = run(vec![
        Expr::Bind(local("a", 1, 0), b(n(10.0))),
        id,
        Expr::Bind(global("foo"), b(call(var(global("id")), vec![]))),
    ])
    .unwrap();
    assert_eq!(num_global(&vm, "foo"), 10.0);
}

#[test]
fn compiled_recursion() {
    let arg = || var(local("n", 1, 1));
    let fib = || var(global("fib"));
    let body = vec![
        Expr::If(b(bin(BinOp::Lt, arg(), n(2.0))), vec![Expr::Return(Some(b(arg())))], vec![]),
        Expr::Return(Some(b(bin(
            BinOp::Add,
            call(fib(), vec![bin(BinOp::Sub, arg(), n(1.0))]),
            call(fib(), vec![bin(BinOp::Sub, arg(), n(2.0))]),
        )))),
    ];
    let vm = run(vec![
        Expr::Function(global("fib"), vec![local("n", 1, 1)], body),
        Expr::Bind(global("x"), b(call(fib(), vec![n(10.0)]))),
    ])
    .unwrap();
    assert_eq!(num_global(&vm, "x"), 55.0);
}

#[test]
fn compiled_list_ops() {
    let xs = || var(local("xs", 1, 0));
    let vm = run(vec![
        Expr::Bind(local("xs", 1, 0), b(Expr::List(vec![n(1.0), n(2.0), n(3.0)]))),
        Expr::SetElement(b(xs()), b(n(1.0)), b(n(9.0))),
        Expr::Bind(global("v"), b(Expr::GetElement(b(xs()), b(n(1.0))))),
        Expr::Bind(global("all"), b(xs())),
    ])
    .unwrap();
    assert_eq!(num_global(&vm, "v"), 9.0);
    assert_eq!(list_global(&vm, "all"), vec![1.0, 9.0, 3.0]);
}

#[test]
fn compiled_gc_stress() {
    let i = || var(local("i", 1, 0));
    let vm = run(vec![
        Expr::Bind(global("keep"), b(Expr::List(vec![n(7.0), n(8.0)]))),
        Expr::Bind(local("i", 1, 0), b(n(0.0))),
        Expr::While(
            b(bin(BinOp::Lt, i(), n(5000.0))),
            vec![
                Expr::List(vec![i(), Expr::Str(b"x".to_vec())]),
                Expr::Assign(local("i", 1, 0), b(bin(BinOp::Add, i(), n(1.0)))),
            ],
        ),
    ])
    .unwrap();
    assert!(vm.heap.len() < 4200);
    assert!(vm.heap.slots.len() <= 4200);
    assert_eq!(list_global(&vm, "keep"), vec![7.0, 8.0]);
    assert_eq!(vm.stack.len(), 1);
}

#[test]
fn compiled_statements_keep_the_stack_balanced() {
    let vm = run(vec![
        Expr::Bind(global("g"), b(n(1.0))),
        Expr::Assign(global("g"), b(n(2.0))),
        call(var(global("h")), vec![]),
    ]);
    assert_eq!(vm.err(), Some(VmError::UndefinedGlobal(b"h".to_vec())));
    let vm = run(vec![
        Expr::Bind(global("g"), b(n(1.0))),
        Expr::Assign(global("g"), b(n(2.0))),
        Expr::If(b(Expr::Bool(false)), vec![Expr::Nil], vec![Expr::Unary(UnOp::Not, b(Expr::Nil))]),
        Expr::While(b(Expr::Bool(false)), vec![]),
    ])
    .unwrap();
    assert_eq!(num_global(&vm, "g"), 2.0);
    // only the value the top level returned is left
    assert_eq!(vm.stack, vec![Value::Nil]);
}

#[test]
fn compile_rejects_unresolvable_local() {
    let mut vm = VM::new();
    let program = vec![var(local("ghost", 1, 3))];
    assert_eq!(vm.compile(&program).err(), Some(CompileError::UnresolvedName));
}

#[test]
fn compile_rejects_too_many_constants() {
    let mut vm = VM::new();
    let program: Vec<Expr> = (0..300).map(|k| Expr::Str(format!("s{}", k).into_bytes())).collect();
    assert_eq!(vm.compile(&program).err(), Some(CompileError::TooManyConstants));
}

#[test]
fn exec_reports_compile_errors() {
    let mut vm = VM::new();
    let program = vec![Expr::Assign(local("far", 2, 5), b(Expr::Nil))];
    assert_eq!(vm.exec(&program), Err(VmError::Compile(CompileError::UnresolvedName)));
    assert_eq!(vm.frame_count(), 0);
}

#[test]
fn compile_rejects_too_many_arguments() {
    let mut vm = VM::new();
    let program = vec![call(Expr::Nil, (0..256).map(|_| Expr::Nil).collect())];
    assert_eq!(vm.compile(&program).err(), Some(CompileError::TooManyOperands));
}

#[test]
fn compiled_if_jumps_land_on_instructions() {
    let mut vm = VM::new();
    let program = vec![Expr::If(
        b(Expr::Bool(true)),
        vec![Expr::Bind(global("t"), b(n(1.0)))],
        vec![Expr::Bind(global("t"), b(n(2.0)))],
    )];
    let f = vm.compile(&program).unwrap();
    let code = &f.chunk.code;
    // True, Jze else, Pop, then..., Jmp end, else: Pop ...
    assert_eq!(code[0], zub::vm::OP_TRUE);
    assert_eq!(code[1], zub::vm::OP_JZE);
    let else_at = ((code[2] as usize) << 8) | code[3] as usize;
    assert_eq!(code[else_at], zub::vm::OP_POP);
    assert_eq!(code[else_at - 3], zub::vm::OP_JMP);
    let end_at = ((code[else_at - 2] as usize) << 8) | code[else_at - 1] as usize;
    assert!(end_at < code.len());
    assert_eq!(code[end_at], zub::vm::OP_NIL);
    assert_eq!(*code.last().unwrap(), zub::vm::OP_RETURN);
}

#[test]
fn compiled_closures_share_a_live_local() {
    let c = || local("c", 1, 1);
    let inc = Expr::Function(
        local("inc", 2, 1),
        vec![],
        vec![Expr::Assign(c(), b(bin(BinOp::Add, var(c()), n(1.0))))],
    );
    let get = Expr::Function(local("get", 3, 1), vec![], vec![Expr::Return(Some(b(var(c()))))]);
    let make = Expr::Function(
        global("make"),
        vec![],
        vec![
            Expr::Bind(c(), b(n(0.0))),
            inc,
            get,
            call(var(local("inc", 2, 1)), vec![]),
            Expr::Bind(global("during"), b(call(var(local("get", 3, 1)), vec![]))),
            Expr::Bind(global("g"), b(var(local("get", 3, 1)))),
            Expr::Bind(global("i"), b(var(local("inc", 2, 1)))),
        ],
    );
    let vm = run(vec![
        make,
        call(var(global("make")), vec![]),
        call(var(global("i")), vec![]),
        Expr::Bind(global("after"), b(call(var(global("g")), vec![]))),
    ])
    .unwrap();
    assert_eq!(num_global(&vm, "during"), 1.0);
    assert_eq!(num_global(&vm, "after"), 2.0);
}
