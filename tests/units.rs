use zub::chunk::{Chunk, MAX_CONSTANTS};
use zub::frame::CallFrame;
use zub::globals::{bytes_eq, define_global, get_global, Global};
use zub::heap::Heap;
use zub::object::{Closure, Function, Object, UpValue};
use zub::value::{index_from_bits, Value};
use zub::vm::{
    ArithOp, Step, VmError, VM, FRAMES_MAX, OP_CALL, OP_CLOSURE, OP_DEFINE_GLOBAL, OP_EQ,
    OP_FALSE, OP_GET_ELEMENT, OP_GET_GLOBAL, OP_GET_LOCAL, OP_IMMEDIATE, OP_NIL, OP_NOT,
    OP_PRINT, OP_RETURN, OP_SET_ELEMENT, OP_TRUE,
};

fn num(x: f64) -> Value {
    Value::Num(x.to_bits())
}

fn imm(c: &mut Chunk, x: f64) {
    c.write(OP_IMMEDIATE, 1);
    for b in x.to_bits().to_be_bytes() {
        c.write(b, 1);
    }
}

fn top(chunk: Chunk) -> Function {
    Function { name: b"<top>".to_vec(), arity: 0, upvalue_count: 0, chunk }
}

/// Steps until the machine stops, answering arithmetic with a fixed number.
fn run_to_stop(vm: &mut VM) -> Step {
    loop {
        match vm.step() {
            Step::Continue | Step::Print(_) => {}
            Step::Arith { .. } => vm.resume(num(0.0)).unwrap(),
            Step::Native { .. } => vm.resume(Value::Nil).unwrap(),
            other => return other,
        }
    }
}

fn fault_of(c: Chunk) -> VmError {
    let mut vm = VM::new();
    vm.start(top(c)).unwrap();
    match run_to_stop(&mut vm) {
        Step::Fault(e) => e,
        other => panic!("expected a fault, got {:?}", other),
    }
}

#[test]
fn chunk_reads_big_endian_operands() {
    let mut c = Chunk::new(b"c".to_vec());
    for b in [0x12u8, 0x34, 0x56, 0x78, 0x9a, 0xbc, 0xde, 0xf0] {
        c.write(b, 3);
    }
    assert_eq!(c.read_byte(1), 0x34);
    assert_eq!(c.read_u16(0), 0x1234);
    assert_eq!(c.read_u64(0), 0x123456789abcdef0);
    c.patch_u16(2, 0xbeef);
    assert_eq!(c.read_u16(2), 0xbeef);
    assert_eq!(c.read_byte(4), 0x9a);
}

#[test]
fn chunk_line_table() {
    let mut c = Chunk::new(b"c".to_vec());
    assert_eq!(c.line(0), 0);
    c.write(1, 10);
    c.write(2, 10);
    c.write(3, 12);
    assert_eq!(c.lines, vec![(0, 10), (2, 12)]);
    assert_eq!(c.line(0), 10);
    assert_eq!(c.line(1), 10);
    assert_eq!(c.line(2), 12);
    assert_eq!(c.line(7), 12);
}

#[test]
fn chunk_constant_pool_is_bounded() {
    let mut c = Chunk::new(b"c".to_vec());
    for i in 0..MAX_CONSTANTS {
        assert_eq!(c.add_constant(Value::Bool(true)), Some(i as u8));
    }
    assert_eq!(c.add_constant(Value::Nil), None);
    assert_eq!(c.get_constant(255), Some(Value::Bool(true)));
    assert_eq!(c.constants.len(), MAX_CONSTANTS);
}

#[test]
fn frame_reads_advance_ip() {
    let mut c = Chunk::new(b"c".to_vec());
    for b in [0u8, 1, 0, 2, 0, 0, 0, 0, 0, 0, 0, 9] {
        c.write(b, 1);
    }
    c.add_constant(num(4.5));
    let mut f = CallFrame::new(7, 3);
    assert_eq!((f.closure, f.ip, f.stack_start), (7, 0, 3));
    assert_eq!(f.read_constant(&c), num(4.5));
    assert_eq!(f.ip, 1);
    assert_eq!(f.read_byte(&c), 1);
    assert_eq!(f.read_u16(&c), 2);
    assert_eq!(f.read_u64(&c), 9);
    assert_eq!(f.ip, 12);
    assert_eq!(f.read_constant_at(&c, 0), num(4.5));
}

#[test]
fn index_conversion_takes_whole_numbers_only() {
    assert_eq!(index_from_bits(1.0f64.to_bits()), Some(1));
    assert_eq!(index_from_bits(0.0f64.to_bits()), Some(0));
    assert_eq!(index_from_bits((-0.0f64).to_bits()), Some(0));
    assert_eq!(index_from_bits(2.9f64.to_bits()), None);
    assert_eq!(index_from_bits(0.5f64.to_bits()), None);
    assert_eq!(index_from_bits((-1.0f64).to_bits()), None);
    assert_eq!(index_from_bits((-3.0f64).to_bits()), None);
    assert_eq!(index_from_bits(f64::NAN.to_bits()), None);
    assert_eq!(index_from_bits(f64::INFINITY.to_bits()), None);
    assert_eq!(index_from_bits(1e30f64.to_bits()), None);
    assert_eq!(index_from_bits(9007199254740992.0f64.to_bits()), Some(9007199254740992));
    assert_eq!(index_from_bits(1152921504606846976.0f64.to_bits()), Some(1u64 << 60));
    assert_eq!(index_from_bits(12345.0f64.to_bits()), Some(12345));
}

#[test]
fn negative_index_reads_nil_and_cannot_write() {
    let mut vm = VM::new();
    let mut c = Chunk::new(b"main".to_vec());
    imm(&mut c, 5.0);
    c.write(zub::vm::OP_LIST, 1);
    c.write(1, 1);
    c.write(OP_GET_LOCAL, 1);
    c.write(1, 1);
    imm(&mut c, -1.0);
    c.write(OP_GET_ELEMENT, 1);
    c.write(OP_PRINT, 1);
    vm.start(top(c)).unwrap();
    for _ in 0..5 {
        assert_eq!(vm.step(), Step::Continue);
    }
    assert_eq!(vm.step(), Step::Print(Value::Nil));
    let mut c = Chunk::new(b"main".to_vec());
    imm(&mut c, 9.0);
    imm(&mut c, 5.0);
    c.write(zub::vm::OP_LIST, 1);
    c.write(1, 1);
    imm(&mut c, -1.0);
    c.write(OP_SET_ELEMENT, 1);
    assert_eq!(fault_of(c), VmError::IndexOutOfRange);
}

#[test]
fn truthiness() {
    assert!(!Value::nil().truthy());
    assert!(!Value::falselit().truthy());
    assert!(Value::truelit().truthy());
    assert!(num(0.0).truthy());
    assert!(Value::from_raw(f64::NAN.to_bits()).truthy());
    assert!(Value::Obj(0).truthy());
    assert_eq!(Value::Obj(4).as_object(), Some(4));
    assert_eq!(num(1.0).as_object(), None);
}

#[test]
fn globals_latest_binding_wins() {
    let mut gs: Vec<Global> = Vec::new();
    define_global(&mut gs, b"a".to_vec(), num(1.0));
    define_global(&mut gs, b"b".to_vec(), num(2.0));
    define_global(&mut gs, b"a".to_vec(), num(3.0));
    assert_eq!(gs.len(), 2);
    assert_eq!(get_global(&gs, &b"a".to_vec()), Some(num(3.0)));
    assert_eq!(get_global(&gs, &b"b".to_vec()), Some(num(2.0)));
    assert_eq!(get_global(&gs, &b"c".to_vec()), None);
    assert!(bytes_eq(&b"xy".to_vec(), &b"xy".to_vec()));
    assert!(!bytes_eq(&b"xy".to_vec(), &b"x".to_vec()));
}

#[test]
fn collection_keeps_reachable_objects() {
    let mut heap = Heap::new();
    let s = heap.insert(Object::Str(b"kept".to_vec()));
    let l = heap.insert(Object::List(vec![Value::Obj(s), num(1.0)]));
    let dead = heap.insert(Object::List(vec![num(2.0)]));
    let f = heap.insert(Object::Function(top(Chunk::new(b"f".to_vec()))));
    let c = heap.insert(Object::Closure(Closure::new(f, 0, Vec::new())));
    assert_eq!(heap.len(), 5);
    heap.collect(&vec![l, c], &Vec::new());
    assert_eq!(heap.len(), 4);
    assert!(heap.get(dead).is_none());
    assert!(matches!(heap.get(s), Some(Object::Str(b)) if b == b"kept"));
    assert!(heap.get(l).is_some());
    assert!(heap.get(f).is_some());
    let again = heap.insert(Object::Str(b"new".to_vec()));
    assert_eq!(again, dead);
}

#[test]
fn heap_list_set() {
    let mut heap = Heap::new();
    let l = heap.insert(Object::List(vec![num(1.0)]));
    assert!(heap.list_set(l, 0, num(5.0)));
    assert!(heap.list_set(l, 1, num(6.0)));
    assert!(!heap.list_set(l, 3, num(7.0)));
    assert_eq!(heap.get(l).unwrap().as_list().unwrap(), &vec![num(5.0), num(6.0)]);
}

#[test]
fn arity_mismatch_faults_before_the_callee_runs() {
    let mut vm = VM::new();
    let mut body = Chunk::new(b"two".to_vec());
    body.write(OP_PRINT, 1);
    body.write(OP_RETURN, 1);
    let f = Function { name: b"two".to_vec(), arity: 2, upvalue_count: 0, chunk: body };
    let f = vm.allocate(Object::Function(f));
    let mut c = Chunk::new(b"main".to_vec());
    let k = c.add_constant(Value::Obj(f)).unwrap();
    c.write(OP_CLOSURE, 1);
    c.write(k, 1);
    imm(&mut c, 1.0);
    c.write(OP_CALL, 1);
    c.write(1, 1);
    vm.start(top(c)).unwrap();
    let mut printed = false;
    let end = loop {
        match vm.step() {
            Step::Continue => {}
            Step::Print(_) => printed = true,
            other => break other,
        }
    };
    assert_eq!(end, Step::Fault(VmError::ArityMismatch { expected: 2, got: 1 }));
    assert!(!printed);
    assert_eq!(vm.frame_count(), 1);
}

#[test]
fn exec_refuses_function_with_parameters() {
    let mut vm = VM::new();
    let f = Function { name: b"f".to_vec(), arity: 1, upvalue_count: 0, chunk: Chunk::new(Vec::new()) };
    assert_eq!(vm.start(f), Err(VmError::ArityMismatch { expected: 1, got: 0 }));
}

#[test]
fn mixed_kind_equality_is_false() {
    let mut vm = VM::new();
    let mut c = Chunk::new(b"main".to_vec());
    c.write(OP_NIL, 1);
    c.write(OP_FALSE, 1);
    c.write(OP_EQ, 1);
    c.write(OP_PRINT, 1);
    imm(&mut c, 0.0);
    c.write(OP_FALSE, 1);
    c.write(OP_EQ, 1);
    c.write(OP_PRINT, 1);
    imm(&mut c, 2.0);
    imm(&mut c, 2.0);
    c.write(OP_EQ, 1);
    c.write(OP_PRINT, 1);
    c.write(OP_NIL, 1);
    c.write(OP_NOT, 1);
    c.write(OP_PRINT, 1);
    c.write(OP_NIL, 1);
    c.write(OP_RETURN, 1);
    vm.start(top(c)).unwrap();
    let mut printed = Vec::new();
    loop {
        match vm.step() {
            Step::Continue => {}
            Step::Print(v) => printed.push(v),
            Step::Halted => break,
            other => panic!("unexpected {:?}", other),
        }
    }
    assert_eq!(
        printed,
        vec![Value::Bool(false), Value::Bool(false), Value::Bool(true), Value::Bool(true)]
    );
}

#[test]
fn string_equality_by_bytes() {
    let mut vm = VM::new();
    let a = vm.allocate(Object::Str(b"same".to_vec()));
    let b = vm.allocate(Object::Str(b"same".to_vec()));
    let c = vm.allocate(Object::Str(b"other".to_vec()));
    let l = vm.allocate(Object::List(Vec::new()));
    let m = vm.allocate(Object::List(Vec::new()));
    assert!(vm.values_eq(Value::Obj(a), Value::Obj(b)));
    assert!(!vm.values_eq(Value::Obj(a), Value::Obj(c)));
    assert!(vm.values_eq(Value::Obj(l), Value::Obj(l)));
    assert!(!vm.values_eq(Value::Obj(l), Value::Obj(m)));
    assert!(!vm.values_eq(num(0.0), num(-0.0)));
    assert!(vm.values_eq(num(f64::NAN), num(f64::NAN)));
}

#[test]
fn return_restores_stack_depth() {
    let mut vm = VM::new();
    let mut body = Chunk::new(b"g".to_vec());
    body.write(OP_GET_LOCAL, 1);
    body.write(2, 1);
    body.write(OP_RETURN, 1);
    let g = Function { name: b"g".to_vec(), arity: 2, upvalue_count: 0, chunk: body };
    let g = vm.allocate(Object::Function(g));
    let mut c = Chunk::new(b"main".to_vec());
    let k = c.add_constant(Value::Obj(g)).unwrap();
    c.write(OP_TRUE, 1);
    c.write(OP_CLOSURE, 1);
    c.write(k, 1);
    imm(&mut c, 4.0);
    imm(&mut c, 5.0);
    c.write(OP_CALL, 1);
    c.write(2, 1);
    c.write(OP_PRINT, 1);
    vm.start(top(c)).unwrap();
    // `true`, the callee and two arguments go above main's closure
    for _ in 0..4 {
        assert_eq!(vm.step(), Step::Continue);
    }
    assert_eq!(vm.stack.len(), 5);
    assert_eq!(vm.step(), Step::Continue);
    assert_eq!(vm.frame_count(), 2);
    assert_eq!(vm.step(), Step::Continue);
    assert_eq!(vm.step(), Step::Continue);
    assert_eq!(vm.frame_count(), 1);
    assert_eq!(vm.stack.len(), 5 - (2 + 1) + 1);
    assert_eq!(vm.stack[2], num(5.0));
    assert_eq!(vm.step(), Step::Print(num(5.0)));
}

#[test]
fn native_call_hands_over_callee_and_arguments() {
    let mut vm = VM::new();
    let id = vm.add_native(b"clock".to_vec(), 1);
    assert_eq!(id, 0);
    let clock = vm.global(&b"clock".to_vec()).unwrap();
    let mut c = Chunk::new(b"main".to_vec());
    let name = Value::Obj(vm.allocate(Object::Str(b"clock".to_vec())));
    let k = c.add_constant(name).unwrap();
    c.write(OP_GET_GLOBAL, 1);
    c.write(k, 1);
    imm(&mut c, 3.0);
    c.write(OP_CALL, 1);
    c.write(1, 1);
    c.write(OP_PRINT, 1);
    vm.start(top(c)).unwrap();
    assert_eq!(vm.step(), Step::Continue);
    assert_eq!(vm.step(), Step::Continue);
    assert_eq!(vm.step(), Step::Native { id: 0, args: vec![clock, num(3.0)] });
    assert_eq!(vm.stack.len(), 1);
    vm.resume(num(42.0)).unwrap();
    assert_eq!(vm.step(), Step::Print(num(42.0)));
}

#[test]
fn arithmetic_is_handed_to_the_embedder() {
    let mut vm = VM::new();
    let mut c = Chunk::new(b"main".to_vec());
    imm(&mut c, 6.0);
    imm(&mut c, 4.0);
    c.write(zub::vm::OP_SUB, 1);
    vm.start(top(c)).unwrap();
    vm.step();
    vm.step();
    assert_eq!(
        vm.step(),
        Step::Arith { op: ArithOp::Sub, a: 6.0f64.to_bits(), b: 4.0f64.to_bits() }
    );
    assert_eq!(vm.stack.len(), 1);
}

#[test]
fn type_error_on_non_numeric_operands() {
    let mut c = Chunk::new(b"main".to_vec());
    c.write(OP_TRUE, 1);
    imm(&mut c, 1.0);
    c.write(zub::vm::OP_ADD, 1);
    assert_eq!(fault_of(c), VmError::TypeError);
    let mut c = Chunk::new(b"main".to_vec());
    c.write(OP_NIL, 1);
    c.write(zub::vm::OP_NEG, 1);
    assert_eq!(fault_of(c), VmError::TypeError);
}

#[test]
fn undefined_global_faults() {
    let mut vm = VM::new();
    let name = Value::Obj(vm.allocate(Object::Str(b"nope".to_vec())));
    let mut c = Chunk::new(b"main".to_vec());
    let k = c.add_constant(name).unwrap();
    c.write(OP_GET_GLOBAL, 1);
    c.write(k, 1);
    vm.start(top(c)).unwrap();
    assert_eq!(vm.step(), Step::Fault(VmError::UndefinedGlobal(b"nope".to_vec())));
}

#[test]
fn set_global_binds_an_unbound_name() {
    let mut vm = VM::new();
    let name = Value::Obj(vm.allocate(Object::Str(b"g".to_vec())));
    let mut c = Chunk::new(b"main".to_vec());
    let k = c.add_constant(name).unwrap();
    imm(&mut c, 2.0);
    c.write(zub::vm::OP_SET_GLOBAL, 1);
    c.write(k, 1);
    c.write(OP_DEFINE_GLOBAL, 1);
    c.write(k, 1);
    c.write(OP_NIL, 1);
    c.write(OP_RETURN, 1);
    vm.start(top(c)).unwrap();
    assert_eq!(vm.step(), Step::Continue);
    assert_eq!(vm.step(), Step::Continue);
    assert_eq!(vm.global(&b"g".to_vec()), Some(num(2.0)));
    assert_eq!(vm.stack.len(), 2);
    assert_eq!(run_to_stop(&mut vm), Step::Halted);
}

#[test]
fn bad_call_faults() {
    let mut c = Chunk::new(b"main".to_vec());
    imm(&mut c, 1.0);
    c.write(OP_CALL, 1);
    c.write(0, 1);
    assert_eq!(fault_of(c), VmError::BadCall);
}

#[test]
fn indexing_faults() {
    let mut c = Chunk::new(b"main".to_vec());
    c.write(zub::vm::OP_LIST, 1);
    c.write(0, 1);
    c.write(OP_TRUE, 1);
    c.write(OP_GET_ELEMENT, 1);
    assert_eq!(fault_of(c), VmError::NonNumericIndex);
    let mut c = Chunk::new(b"main".to_vec());
    imm(&mut c, 1.0);
    imm(&mut c, 0.0);
    c.write(OP_GET_ELEMENT, 1);
    assert_eq!(fault_of(c), VmError::IndexIntoNonList);
    let mut c = Chunk::new(b"main".to_vec());
    imm(&mut c, 1.0);
    c.write(zub::vm::OP_LIST, 1);
    c.write(0, 1);
    imm(&mut c, 5.0);
    c.write(OP_SET_ELEMENT, 1);
    assert_eq!(fault_of(c), VmError::IndexOutOfRange);
}

#[test]
fn out_of_range_read_gives_nil() {
    let mut vm = VM::new();
    let mut c = Chunk::new(b"main".to_vec());
    c.write(zub::vm::OP_LIST, 1);
    c.write(0, 1);
    imm(&mut c, 3.0);
    c.write(OP_GET_ELEMENT, 1);
    c.write(OP_PRINT, 1);
    vm.start(top(c)).unwrap();
    vm.step();
    vm.step();
    vm.step();
    assert_eq!(vm.step(), Step::Print(Value::Nil));
}

#[test]
fn stack_underflow_and_bad_opcode_fault() {
    let mut c = Chunk::new(b"main".to_vec());
    c.write(zub::vm::OP_POP, 1);
    c.write(zub::vm::OP_POP, 1);
    assert_eq!(fault_of(c), VmError::StackUnderflow);
    let mut c = Chunk::new(b"main".to_vec());
    c.write(200, 1);
    assert_eq!(fault_of(c), VmError::MalformedCode);
    let c = Chunk::new(b"main".to_vec());
    assert_eq!(fault_of(c), VmError::MalformedCode);
}

#[test]
fn deep_recursion_overflows_frames() {
    let mut vm = VM::new();
    let name = Value::Obj(vm.allocate(Object::Str(b"r".to_vec())));
    let mut body = Chunk::new(b"r".to_vec());
    let k = body.add_constant(name).unwrap();
    body.write(OP_GET_GLOBAL, 1);
    body.write(k, 1);
    body.write(OP_CALL, 1);
    body.write(0, 1);
    body.write(OP_RETURN, 1);
    let f = Function { name: b"r".to_vec(), arity: 0, upvalue_count: 0, chunk: body };
    let f = vm.allocate(Object::Function(f));
    let mut c = Chunk::new(b"main".to_vec());
    let kf = c.add_constant(Value::Obj(f)).unwrap();
    let kn = c.add_constant(name).unwrap();
    c.write(OP_CLOSURE, 1);
    c.write(kf, 1);
    c.write(OP_DEFINE_GLOBAL, 1);
    c.write(kn, 1);
    c.write(OP_GET_GLOBAL, 1);
    c.write(kn, 1);
    c.write(OP_CALL, 1);
    c.write(0, 1);
    vm.start(top(c)).unwrap();
    assert_eq!(run_to_stop(&mut vm), Step::Fault(VmError::FrameOverflow));
    assert_eq!(vm.frame_count(), FRAMES_MAX);
    let trace = vm.trace();
    assert_eq!(trace.len(), FRAMES_MAX);
    assert_eq!(trace[0], (b"r".to_vec(), 1));
    assert_eq!(trace[FRAMES_MAX - 1].0, b"main".to_vec());
}

#[test]
fn halted_after_last_return_and_step_stays_halted() {
    let mut vm = VM::new();
    let mut c = Chunk::new(b"main".to_vec());
    c.write(OP_NIL, 1);
    c.write(OP_RETURN, 1);
    vm.start(top(c)).unwrap();
    assert_eq!(vm.step(), Step::Continue);
    assert_eq!(vm.step(), Step::Halted);
    assert_eq!(vm.frame_count(), 0);
    assert_eq!(vm.stack, vec![Value::Nil]);
    assert_eq!(vm.step(), Step::Halted);
}

#[test]
fn closed_cells_are_followed_only_through_live_closures() {
    let mut heap = Heap::new();
    let held = heap.insert(Object::List(vec![num(1.0)]));
    let orphan = heap.insert(Object::List(vec![num(2.0)]));
    let f = heap.insert(Object::Function(top(Chunk::new(b"f".to_vec()))));
    let c = heap.insert(Object::Closure(Closure::new(f, 0, vec![0])));
    let cells = vec![UpValue::Closed(Value::Obj(held)), UpValue::Closed(Value::Obj(orphan))];
    heap.collect(&vec![c], &cells);
    assert!(heap.get(held).is_some());
    assert!(heap.get(orphan).is_none());
    assert!(heap.get(f).is_some());
}
