use zub::chunk::Chunk;
use zub::object::{Function, Object};
use zub::value::Value;
use zub::vm::{
    ArithOp, Step, VmError, VM, OP_ADD, OP_CALL, OP_CLOSURE, OP_DEFINE_GLOBAL, OP_GET_ELEMENT,
    OP_GET_GLOBAL, OP_GET_LOCAL, OP_GET_UPVALUE, OP_IMMEDIATE, OP_JZE, OP_LIST, OP_LOOP, OP_LT,
    OP_MUL, OP_NIL, OP_POP, OP_RETURN, OP_SET_ELEMENT, OP_SET_LOCAL, OP_SET_UPVALUE, OP_SUB,
};

fn num(x: f64) -> Value {
    Value::Num(x.to_bits())
}

fn as_num(v: Value) -> f64 {
    match v {
        Value::Num(b) => f64::from_bits(b),
        other => panic!("not a number: {:?}", other),
    }
}

fn arith(op: ArithOp, a: u64, b: u64) -> Value {
    let (x, y) = (f64::from_bits(a), f64::from_bits(b));
    match op {
        ArithOp::Add => num(x + y),
        ArithOp::Sub => num(x - y),
        ArithOp::Mul => num(x * y),
        ArithOp::Div => num(x / y),
        ArithOp::Rem => num(x % y),
        ArithOp::Neg => num(-x),
        ArithOp::Lt => Value::Bool(x < y),
        ArithOp::Gt => Value::Bool(x > y),
    }
}

fn drive(vm: &mut VM) -> Result<Vec<Value>, VmError> {
    let mut printed = Vec::new();
    loop {
        match vm.step() {
            Step::Continue => {}
            Step::Halted => return Ok(printed),
            Step::Print(v) => printed.push(v),
            Step::Arith { op, a, b } => vm.resume(arith(op, a, b))?,
            Step::Native { id, args } => {
                assert_eq!(id, 0);
                vm.resume(num(args.len() as f64))?
            }
            Step::Fault(e) => return Err(e),
        }
    }
}

fn imm(c: &mut Chunk, x: f64) {
    c.write(OP_IMMEDIATE, 1);
    for b in x.to_bits().to_be_bytes() {
        c.write(b, 1);
    }
}

fn op(c: &mut Chunk, o: u8) {
    c.write(o, 1);
}

fn op1(c: &mut Chunk, o: u8, a: u8) {
    c.write(o, 1);
    c.write(a, 1);
}

fn string(vm: &mut VM, s: &str) -> Value {
    Value::Obj(vm.allocate(Object::Str(s.as_bytes().to_vec())))
}

fn constant(c: &mut Chunk, v: Value) -> u8 {
    c.add_constant(v).unwrap()
}

fn function(vm: &mut VM, name: &str, arity: u8, upvalue_count: u8, chunk: Chunk) -> Value {
    let f = Function { name: name.as_bytes().to_vec(), arity, upvalue_count, chunk };
    Value::Obj(vm.allocate(Object::Function(f)))
}

fn top(chunk: Chunk) -> Function {
    Function { name: b"<top>".to_vec(), arity: 0, upvalue_count: 0, chunk }
}

fn global(vm: &VM, name: &str) -> Value {
    vm.global(&name.as_bytes().to_vec()).unwrap()
}

fn define(vm: &mut VM, c: &mut Chunk, name: &str) {
    let k = string(vm, name);
    let k = constant(c, k);
    op1(c, OP_DEFINE_GLOBAL, k);
}

fn get(vm: &mut VM, c: &mut Chunk, name: &str) {
    let k = string(vm, name);
    let k = constant(c, k);
    op1(c, OP_GET_GLOBAL, k);
}

fn finish(c: &mut Chunk) {
    op(c, OP_NIL);
    op(c, OP_RETURN);
}

#[test]
fn arithmetic_and_global() {
    let mut vm = VM::new();
    let mut c = Chunk::new(b"main".to_vec());
    imm(&mut c, 1.0);
    imm(&mut c, 2.0);
    imm(&mut c, 3.0);
    op(&mut c, OP_MUL);
    op(&mut c, OP_ADD);
    define(&mut vm, &mut c, "r");
    finish(&mut c);
    vm.start(top(c)).unwrap();
    drive(&mut vm).unwrap();
    assert_eq!(as_num(global(&vm, "r")), 7.0);
}

#[test]
fn closure_identity() {
    let mut vm = VM::new();
    // fn inc() { c = c + 1; return c }
    let mut inc = Chunk::new(b"inc".to_vec());
    op1(&mut inc, OP_GET_UPVALUE, 0);
    imm(&mut inc, 1.0);
    op(&mut inc, OP_ADD);
    op1(&mut inc, OP_SET_UPVALUE, 0);
    op(&mut inc, OP_POP);
    op1(&mut inc, OP_GET_UPVALUE, 0);
    op(&mut inc, OP_RETURN);
    let inc = function(&mut vm, "inc", 0, 1, inc);
    // fn make() { let c = 0; fn inc ...; return inc }
    let mut make = Chunk::new(b"make".to_vec());
    imm(&mut make, 0.0);
    let k = constant(&mut make, inc);
    op1(&mut make, OP_CLOSURE, k);
    make.write(1, 1);
    make.write(1, 1);
    op1(&mut make, OP_GET_LOCAL, 2);
    op(&mut make, OP_RETURN);
    let make = function(&mut vm, "make", 0, 0, make);
    let mut c = Chunk::new(b"main".to_vec());
    let k = constant(&mut c, make);
    op1(&mut c, OP_CLOSURE, k);
    op1(&mut c, OP_CALL, 0);
    define(&mut vm, &mut c, "f");
    for name in ["a", "b"] {
        get(&mut vm, &mut c, "f");
        op1(&mut c, OP_CALL, 0);
        define(&mut vm, &mut c, name);
    }
    finish(&mut c);
    vm.start(top(c)).unwrap();
    drive(&mut vm).unwrap();
    assert_eq!(as_num(global(&vm, "a")), 1.0);
    assert_eq!(as_num(global(&vm, "b")), 2.0);
}

#[test]
fn nested_closure_capture() {
    let mut vm = VM::new();
    let mut bob = Chunk::new(b"bob".to_vec());
    op1(&mut bob, OP_GET_UPVALUE, 0);
    op(&mut bob, OP_RETURN);
    let bob = function(&mut vm, "bob", 0, 1, bob);
    let mut id = Chunk::new(b"id".to_vec());
    let k = constant(&mut id, bob);
    op1(&mut id, OP_CLOSURE, k);
    id.write(0, 1);
    id.write(0, 1);
    op1(&mut id, OP_GET_LOCAL, 1);
    op1(&mut id, OP_CALL, 0);
    op(&mut id, OP_RETURN);
    let id = function(&mut vm, "id", 0, 1, id);
    let mut c = Chunk::new(b"main".to_vec());
    imm(&mut c, 10.0);
    let k = constant(&mut c, id);
    op1(&mut c, OP_CLOSURE, k);
    c.write(1, 1);
    c.write(1, 1);
    op1(&mut c, OP_GET_LOCAL, 2);
    op1(&mut c, OP_CALL, 0);
    define(&mut vm, &mut c, "foo");
    finish(&mut c);
    vm.start(top(c)).unwrap();
    drive(&mut vm).unwrap();
    assert_eq!(as_num(global(&vm, "foo")), 10.0);
}

#[test]
fn recursion() {
    let mut vm = VM::new();
    let mut fib = Chunk::new(b"fib".to_vec());
    op1(&mut fib, OP_GET_LOCAL, 1);
    imm(&mut fib, 2.0);
    op(&mut fib, OP_LT);
    let jump = fib.len();
    op(&mut fib, OP_JZE);
    fib.write_u16(0, 1);
    op(&mut fib, OP_POP);
    op1(&mut fib, OP_GET_LOCAL, 1);
    op(&mut fib, OP_RETURN);
    let target = fib.len() as u16;
    fib.patch_u16(jump + 1, target);
    op(&mut fib, OP_POP);
    for d in [1.0, 2.0] {
        get(&mut vm, &mut fib, "fib");
        op1(&mut fib, OP_GET_LOCAL, 1);
        imm(&mut fib, d);
        op(&mut fib, OP_SUB);
        op1(&mut fib, OP_CALL, 1);
    }
    op(&mut fib, OP_ADD);
    op(&mut fib, OP_RETURN);
    let fib = function(&mut vm, "fib", 1, 0, fib);
    let mut c = Chunk::new(b"main".to_vec());
    let k = constant(&mut c, fib);
    op1(&mut c, OP_CLOSURE, k);
    define(&mut vm, &mut c, "fib");
    get(&mut vm, &mut c, "fib");
    imm(&mut c, 10.0);
    op1(&mut c, OP_CALL, 1);
    define(&mut vm, &mut c, "x");
    finish(&mut c);
    vm.start(top(c)).unwrap();
    drive(&mut vm).unwrap();
    assert_eq!(as_num(global(&vm, "x")), 55.0);
}

#[test]
fn list_ops() {
    let mut vm = VM::new();
    let mut c = Chunk::new(b"main".to_vec());
    imm(&mut c, 3.0);
    imm(&mut c, 2.0);
    imm(&mut c, 1.0);
    op1(&mut c, OP_LIST, 3);
    imm(&mut c, 9.0);
    op1(&mut c, OP_GET_LOCAL, 1);
    imm(&mut c, 1.0);
    op(&mut c, OP_SET_ELEMENT);
    op1(&mut c, OP_GET_LOCAL, 1);
    imm(&mut c, 1.0);
    op(&mut c, OP_GET_ELEMENT);
    define(&mut vm, &mut c, "v");
    op1(&mut c, OP_GET_LOCAL, 1);
    define(&mut vm, &mut c, "xs");
    finish(&mut c);
    vm.start(top(c)).unwrap();
    drive(&mut vm).unwrap();
    assert_eq!(as_num(global(&vm, "v")), 9.0);
    let h = match global(&vm, "xs") {
        Value::Obj(h) => h,
        other => panic!("not a list: {:?}", other),
    };
    let items: Vec<f64> = vm.object(h).unwrap().as_list().unwrap().iter().map(|v| as_num(*v)).collect();
    assert_eq!(items, vec![1.0, 9.0, 3.0]);
}

#[test]
fn gc_stress() {
    let n = 5000.0;
    let mut vm = VM::new();
    let mut c = Chunk::new(b"main".to_vec());
    imm(&mut c, 0.0);
    imm(&mut c, 7.0);
    imm(&mut c, 8.0);
    op1(&mut c, OP_LIST, 2);
    define(&mut vm, &mut c, "keep");
    let start = c.len();
    op1(&mut c, OP_GET_LOCAL, 1);
    imm(&mut c, n);
    op(&mut c, OP_LT);
    let exit = c.len();
    op(&mut c, OP_JZE);
    c.write_u16(0, 1);
    op(&mut c, OP_POP);
    op1(&mut c, OP_GET_LOCAL, 1);
    op1(&mut c, OP_LIST, 1);
    op(&mut c, OP_POP);
    op1(&mut c, OP_GET_LOCAL, 1);
    imm(&mut c, 1.0);
    op(&mut c, OP_ADD);
    op1(&mut c, OP_SET_LOCAL, 1);
    op(&mut c, OP_POP);
    op(&mut c, OP_LOOP);
    let delta = (c.len() + 2 - start) as u16;
    c.write_u16(delta, 1);
    let end = c.len() as u16;
    c.patch_u16(exit + 1, end);
    op(&mut c, OP_POP);
    finish(&mut c);
    vm.start(top(c)).unwrap();
    drive(&mut vm).unwrap();
    assert!(vm.heap.len() < 2100);
    assert!(vm.heap.slots.len() <= 4096);
    let h = match global(&vm, "keep") {
        Value::Obj(h) => h,
        other => panic!("not a list: {:?}", other),
    };
    let items: Vec<f64> = vm.object(h).unwrap().as_list().unwrap().iter().map(|v| as_num(*v)).collect();
    assert_eq!(items, vec![8.0, 7.0]);
}
