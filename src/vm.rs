use vstd::prelude::*;

use crate::chunk::{be_u16_at, be_u64_at, line_at, Chunk};
use crate::compiler::{compile, functions_land, heap_grows, jumps_land, CompileError, Expr};
use crate::frame::CallFrame;
use crate::globals::{bytes_eq, copy_bytes, define_global, get_global, lookup, Global};
use crate::heap::{collected_from, holds_handle, is_path, lemma_collection_keeps_reachable, lemma_contains_extended, lemma_root_kept, Heap};
use crate::object::{refers_to, Closure, Function, NativeFunction, Object, UpValue};
use crate::value::{index_from_bits, index_of_bits, is_truthy, Handle, Value};

verus! {

pub const STACK_SIZE: usize = 4096;
pub const FRAMES_MAX: usize = 256;
pub const HEAP_GROWTH: usize = 2;
pub const GC_TRIGGER_COUNT: usize = 1024;

pub const OP_CONSTANT: u8 = 0;
pub const OP_IMMEDIATE: u8 = 1;
pub const OP_NIL: u8 = 2;
pub const OP_TRUE: u8 = 3;
pub const OP_FALSE: u8 = 4;
pub const OP_POP: u8 = 5;
pub const OP_GET_LOCAL: u8 = 6;
pub const OP_SET_LOCAL: u8 = 7;
pub const OP_GET_GLOBAL: u8 = 8;
pub const OP_DEFINE_GLOBAL: u8 = 9;
pub const OP_SET_GLOBAL: u8 = 10;
pub const OP_GET_UPVALUE: u8 = 11;
pub const OP_SET_UPVALUE: u8 = 12;
pub const OP_ADD: u8 = 13;
pub const OP_SUB: u8 = 14;
pub const OP_MUL: u8 = 15;
pub const OP_DIV: u8 = 16;
pub const OP_REM: u8 = 17;
pub const OP_NEG: u8 = 18;
pub const OP_EQ: u8 = 19;
pub const OP_LT: u8 = 20;
pub const OP_GT: u8 = 21;
pub const OP_NOT: u8 = 22;
pub const OP_JMP: u8 = 23;
pub const OP_JZE: u8 = 24;
pub const OP_LOOP: u8 = 25;
pub const OP_CALL: u8 = 26;
pub const OP_CLOSURE: u8 = 27;
pub const OP_CLOSE_UPVALUE: u8 = 28;
pub const OP_RETURN: u8 = 29;
pub const OP_LIST: u8 = 30;
pub const OP_GET_ELEMENT: u8 = 31;
pub const OP_SET_ELEMENT: u8 = 32;
pub const OP_PRINT: u8 = 33;

/// Faults that stop the machine.
#[derive(PartialEq, Eq, Debug)]
pub enum VmError {
    ArityMismatch { expected: u8, got: u8 },
    BadCall,
    TypeError,
    UndefinedGlobal(Vec<u8>),
    IndexIntoNonList,
    NonNumericIndex,
    IndexOutOfRange,
    StackOverflow,
    StackUnderflow,
    FrameOverflow,
    ReturnFromTopLevel,
    MalformedCode,
    DanglingHandle,
    Compile(CompileError),
}

/// A floating-point operation the embedder carries out on the raw bits of
/// its operands; the result is handed back with `resume`.
#[derive(Clone, Copy, PartialEq, Eq, Debug, Structural)]
pub enum ArithOp {
    Add,
    Sub,
    Mul,
    Div,
    Rem,
    Neg,
    Lt,
    Gt,
}

/// What one instruction left for the embedder to do.
#[derive(PartialEq, Eq, Debug)]
pub enum Step {
    /// The instruction completed.
    Continue,
    /// The outermost frame returned; execution is over.
    Halted,
    /// Print this value, then continue.
    Print(Value),
    /// Compute `a op b` (for `Neg`, `-a`) and `resume` with the result.
    Arith { op: ArithOp, a: u64, b: u64 },
    /// Run native function `id` on `args`, the callee slot followed by the
    /// arguments, which have left the stack; `resume` with its result.
    Native { id: usize, args: Vec<Value> },
    /// The machine faulted.
    Fault(VmError),
}

/// The chunk run by the closure at `closure`, if the handles lead to one.
pub open spec fn chunk_of_spec(heap: Heap, closure: Handle) -> Option<Chunk> {
    if heap.is_live(closure) && heap.object(closure) is Closure {
        let f = heap.object(closure)->Closure_0.function;
        if heap.is_live(f) && heap.object(f) is Function {
            Some(heap.object(f)->Function_0.chunk)
        } else {
            None
        }
    } else {
        None
    }
}

/// The handles a collection must keep: the new object, the stack, the
/// globals, the closed upvalue cells and the running closures.
pub open spec fn covers_roots(vm: VM, fresh: Handle, roots: Seq<Handle>) -> bool {
    &&& roots.contains(fresh)
    &&& forall|i: int, q: Handle|
        0 <= i < vm.stack@.len() && vm.stack@[i] == Value::Obj(q) ==> roots.contains(q)
    &&& forall|k: int, q: Handle|
        0 <= k < vm.globals@.len() && vm.globals@[k].value == Value::Obj(q) ==> roots.contains(q)
    &&& forall|k: int| 0 <= k < vm.frames@.len() ==> roots.contains(#[trigger] vm.frames@[k].closure)
}

/// Whether `h` is a root of the machine: a handle on the stack, in a global,
/// or the closure of a frame. Closed upvalue cells are reached through the
/// closures that hold them.
pub open spec fn is_machine_root(vm: VM, h: Handle) -> bool {
    ||| holds_handle(vm.stack@, h)
    ||| exists|k: int| 0 <= k < vm.globals@.len() && #[trigger] vm.globals@[k].value == Value::Obj(h)
    ||| exists|k: int| 0 <= k < vm.frames@.len() && #[trigger] vm.frames@[k].closure == h
}

/// Whether `h` is reached from a root of the machine through live objects.
pub open spec fn machine_reachable(vm: VM, h: Handle) -> bool {
    exists|path: Seq<Handle>|
        path.len() > 0 && is_machine_root(vm, path[0]) && is_path(vm.cells@, vm.heap.slots@, path) && #[trigger] path.last()
            == h
}

/// The heap's slots once `obj` is stored at `r`.
pub open spec fn with_new(slots: Seq<Option<Object>>, r: Handle, obj: Object) -> Seq<Option<Object>> {
    if r < slots.len() {
        slots.update(r as int, Some(obj))
    } else {
        slots.push(Some(obj))
    }
}

/// Whether `h` is reached, in `slots`, from a root of `vm` or from `fresh`.
pub open spec fn reachable_with(slots: Seq<Option<Object>>, vm: VM, fresh: Handle, h: Handle) -> bool {
    exists|path: Seq<Handle>|
        path.len() > 0 && (path[0] == fresh || is_machine_root(vm, path[0])) && is_path(vm.cells@, slots, path)
            && #[trigger] path.last() == h
}

/// The threshold after a collection.
pub open spec fn grown(next_gc: usize) -> usize {
    if next_gc <= usize::MAX / HEAP_GROWTH {
        (next_gc * HEAP_GROWTH) as usize
    } else {
        usize::MAX
    }
}

/// The object at `q` is unchanged between the two heaps if it was live.
pub open spec fn kept(before: Heap, after: Heap, q: Handle) -> bool {
    before.is_live(q) ==> after.is_live(q) && after.object(q) == before.object(q)
}

/// The frames with the newest one's instruction pointer moved on by `k`.
pub open spec fn advanced(frames: Seq<CallFrame>, k: int) -> Seq<CallFrame> {
    frames.update(
        frames.len() - 1,
        CallFrame {
            closure: frames.last().closure,
            ip: (frames.last().ip + k) as usize,
            stack_start: frames.last().stack_start,
        },
    )
}

/// The frames with the newest one's instruction pointer set to `ip`.
pub open spec fn jumped(frames: Seq<CallFrame>, ip: int) -> Seq<CallFrame> {
    frames.update(
        frames.len() - 1,
        CallFrame {
            closure: frames.last().closure,
            ip: ip as usize,
            stack_start: frames.last().stack_start,
        },
    )
}

/// Equality of values: by variant and payload; numbers by their bits; two
/// strings by their bytes, other objects by handle. Mixed variants differ.
pub open spec fn values_equal(heap: Heap, a: Value, b: Value) -> bool {
    match (a, b) {
        (Value::Nil, Value::Nil) => true,
        (Value::Bool(x), Value::Bool(y)) => x == y,
        (Value::Num(x), Value::Num(y)) => x == y,
        (Value::Obj(x), Value::Obj(y)) => if heap.is_live(x) && heap.is_live(y) && heap.object(x) is Str
            && heap.object(y) is Str {
            heap.object(x)->Str_0@ == heap.object(y)->Str_0@
        } else {
            x == y
        },
        _ => false,
    }
}

/// Whether two values are of different variants.
pub open spec fn different_kinds(a: Value, b: Value) -> bool {
    match (a, b) {
        (Value::Nil, Value::Nil) => false,
        (Value::Bool(_), Value::Bool(_)) => false,
        (Value::Num(_), Value::Num(_)) => false,
        (Value::Obj(_), Value::Obj(_)) => false,
        _ => true,
    }
}

/// Comparison totality: values of different variants are never equal.
pub proof fn lemma_mixed_kinds_unequal(heap: Heap, a: Value, b: Value)
    requires
        different_kinds(a, b),
    ensures
        !values_equal(heap, a, b),
{
}

/// The bytes of the string object that `v` refers to.
pub open spec fn string_of(heap: Heap, v: Value) -> Option<Seq<u8>> {
    match v {
        Value::Obj(h) => if heap.is_live(h) && heap.object(h) is Str {
            Some(heap.object(h)->Str_0@)
        } else {
            None
        },
        _ => None,
    }
}

/// Every entry of the open list names an open cell, and no two entries name
/// different cells over the same stack slot.
pub open spec fn open_wf(cells: Seq<UpValue>, open: Seq<usize>) -> bool {
    &&& forall|k: int| 0 <= k < open.len() ==> #[trigger] open[k] < cells.len() && cells[open[k] as int] is Open
    &&& forall|i: int, j: int|
        0 <= i < open.len() && 0 <= j < open.len() && cells[#[trigger] open[i] as int] == cells[#[trigger] open[j] as int]
            ==> open[i] == open[j]
}

/// Whether `open` holds an open cell over stack slot `offset`.
pub open spec fn has_open(cells: Seq<UpValue>, open: Seq<usize>, offset: usize) -> bool {
    exists|k: int| 0 <= k < open.len() && open[k] < cells.len() && #[trigger] cells[open[k] as int] == UpValue::Open(offset)
}

/// What capturing stack slot `offset` does: it returns the open cell over that
/// slot if there is one, else it adds a new open cell and returns it.
pub open spec fn captures(
    cells: Seq<UpValue>,
    open: Seq<usize>,
    offset: usize,
    r: usize,
    cells2: Seq<UpValue>,
    open2: Seq<usize>,
) -> bool {
    if has_open(cells, open, offset) {
        &&& open.contains(r)
        &&& r < cells.len()
        &&& cells[r as int] == UpValue::Open(offset)
        &&& cells2 == cells
        &&& open2 == open
    } else {
        &&& r == cells.len()
        &&& cells2 == cells.push(UpValue::Open(offset))
        &&& open2 == open.push(r)
    }
}

/// Capturing keeps the open list well formed.
pub proof fn lemma_capture_keeps_open_wf(
    cells: Seq<UpValue>,
    open: Seq<usize>,
    offset: usize,
    r: usize,
    cells2: Seq<UpValue>,
    open2: Seq<usize>,
)
    requires
        open_wf(cells, open),
        captures(cells, open, offset, r, cells2, open2),
    ensures
        open_wf(cells2, open2),
{
    if !has_open(cells, open, offset) {
        assert forall|k: int| 0 <= k < open2.len() implies #[trigger] open2[k] < cells2.len()
            && cells2[open2[k] as int] is Open by {
            if k < open.len() {
                assert(open2[k] == open[k]);
            }
        }
        assert forall|i: int, j: int|
            0 <= i < open2.len() && 0 <= j < open2.len() && cells2[#[trigger] open2[i] as int]
                == cells2[#[trigger] open2[j] as int] implies open2[i] == open2[j] by {
            if i < open.len() && j < open.len() {
                assert(open2[i] == open[i] && open2[j] == open[j]);
            } else if i < open.len() {
                assert(open2[i] == open[i]);
                assert(cells2[open2[j] as int] == UpValue::Open(offset));
                assert(cells[open[i] as int] == UpValue::Open(offset));
            } else if j < open.len() {
                assert(open2[j] == open[j]);
                assert(cells[open[j] as int] == UpValue::Open(offset));
            }
        }
    }
}

/// Shared capture: while a slot's cell stays open, capturing the same slot
/// again yields the same cell and changes nothing, so every closure that
/// captured the variable reads and writes one cell.
pub proof fn lemma_capture_shared(
    cells: Seq<UpValue>,
    open: Seq<usize>,
    offset: usize,
    r1: usize,
    cells1: Seq<UpValue>,
    open1: Seq<usize>,
    r2: usize,
    cells2: Seq<UpValue>,
    open2: Seq<usize>,
)
    requires
        open_wf(cells, open),
        captures(cells, open, offset, r1, cells1, open1),
        captures(cells1, open1, offset, r2, cells2, open2),
    ensures
        r1 == r2,
        cells2 == cells1,
        open2 == open1,
{
    lemma_capture_keeps_open_wf(cells, open, offset, r1, cells1, open1);
    if !has_open(cells, open, offset) {
        assert(open1[open1.len() - 1] == r1);
        assert(cells1[open1[open1.len() - 1] as int] == UpValue::Open(offset));
    }
    assert(has_open(cells1, open1, offset));
    let w1 = choose|w: int| 0 <= w < open1.len() && open1[w] == r1;
    let w2 = choose|w: int| 0 <= w < open1.len() && open1[w] == r2;
    assert(cells1[open1[w1] as int] == cells1[open1[w2] as int]);
}

/// What a stack slot holds when its cell is closed.
pub open spec fn slot_value(stack: Seq<Value>, offset: usize) -> Value {
    if offset < stack.len() {
        stack[offset as int]
    } else {
        Value::Nil
    }
}

/// Whether cell `c` stays open when closing from stack slot `end`.
pub open spec fn stays_open(cells: Seq<UpValue>, end: usize, c: usize) -> bool {
    c < cells.len() && cells[c as int] is Open && cells[c as int]->Open_0 < end
}

/// Whether closing from stack slot `end` closes cell `c`.
pub open spec fn closes(cells: Seq<UpValue>, open: Seq<usize>, end: usize, c: usize) -> bool {
    &&& open.contains(c)
    &&& c < cells.len()
    &&& cells[c as int] is Open
    &&& cells[c as int]->Open_0 >= end
}

/// A line of a stack trace for frame `f`: its chunk's name and the source
/// line of its instruction pointer, or nothing when the frame's closure is
/// gone.
pub open spec fn trace_entry(heap: Heap, f: CallFrame, e: (Vec<u8>, usize)) -> bool {
    match chunk_of_spec(heap, f.closure) {
        Some(c) => e.0@ == c.name@ && e.1 == line_at(c.lines@, f.ip as int),
        None => e.0@.len() == 0 && e.1 == 0,
    }
}

/// Jump correctness while running: in a well-formed machine, the chunk of
/// every frame whose closure leads to a function has its forward jumps
/// landing on instruction starts inside the code.
pub proof fn lemma_running_chunks_land(vm: VM, k: int)
    requires
        vm.wf(),
        0 <= k < vm.frames@.len(),
        chunk_of_spec(vm.heap, vm.frames@[k].closure) is Some,
    ensures
        jumps_land(chunk_of_spec(vm.heap, vm.frames@[k].closure).unwrap()),
{
    let f = vm.heap.object(vm.frames@[k].closure)->Closure_0.function;
    assert(vm.heap.is_live(f) && vm.heap.object(f) is Function);
}

/// The stack once a frame that starts at slot `start` has returned the value
/// on top of `stack`.
pub open spec fn stack_after_return(stack: Seq<Value>, start: int) -> Seq<Value> {
    stack.subrange(0, start).push(stack.last())
}

/// Return depth: a call of `arity` arguments made when the stack held
/// `entry` values starts its frame at `entry - arity - 1`; when it returns,
/// the stack holds `entry - (arity + 1) + 1` values.
pub proof fn lemma_return_depth(stack: Seq<Value>, entry: int, arity: int)
    requires
        0 <= arity,
        arity + 1 <= entry,
        entry - arity - 1 < stack.len(),
    ensures
        stack_after_return(stack, entry - arity - 1).len() == entry - (arity + 1) + 1,
        stack_after_return(stack, entry - arity - 1).last() == stack.last(),
        stack_after_return(stack, entry - arity - 1).subrange(0, entry - arity - 1) == stack.subrange(
            0,
            entry - arity - 1,
        ),
{
    assert(stack_after_return(stack, entry - arity - 1).subrange(0, entry - arity - 1) =~= stack.subrange(
        0,
        entry - arity - 1,
    ));
}

/// What instructions without operands do to a machine whose stack, frames,
/// heap and globals are given, with `b` the state after and `r` the outcome: literals and `Pop`, `Not`, `Eq`,
/// `Print`, `Return` and the numeric operations.
pub open spec fn simple_effect(
    op: u8,
    stack: Seq<Value>,
    frames: Seq<CallFrame>,
    heap: Heap,
    globals: Seq<Global>,
    b: VM,
    r: Result<Step, VmError>,
) -> bool {
    let n = stack.len();
    &&& (op == OP_NIL || op == OP_TRUE || op == OP_FALSE) ==> if n < STACK_SIZE {
        &&& r == Ok::<Step, VmError>(Step::Continue)
        &&& b.stack@ == stack.push(
            if op == OP_NIL {
                Value::Nil
            } else {
                Value::Bool(op == OP_TRUE)
            },
        )
        &&& b.frames@ == frames
        &&& b.globals@ == globals
    } else {
        r == Err::<Step, VmError>(VmError::StackOverflow)
    }
    &&& op == OP_POP ==> if n > 0 {
        &&& r == Ok::<Step, VmError>(Step::Continue)
        &&& b.stack@ == stack.drop_last()
        &&& b.frames@ == frames
    } else {
        r == Err::<Step, VmError>(VmError::StackUnderflow)
    }
    &&& op == OP_PRINT ==> if n > 0 {
        &&& r == Ok::<Step, VmError>(Step::Print(stack.last()))
        &&& b.stack@ == stack.drop_last()
        &&& b.frames@ == frames
    } else {
        r == Err::<Step, VmError>(VmError::StackUnderflow)
    }
    &&& op == OP_NOT ==> if n > 0 {
        &&& r == Ok::<Step, VmError>(Step::Continue)
        &&& b.stack@ == stack.drop_last().push(Value::Bool(!is_truthy(stack.last())))
        &&& b.frames@ == frames
    } else {
        r is Err
    }
    &&& op == OP_EQ ==> if n >= 2 {
        &&& r == Ok::<Step, VmError>(Step::Continue)
        &&& b.stack@ == stack.subrange(0, n - 2).push(
            Value::Bool(values_equal(heap, stack[n - 2], stack.last())),
        )
        &&& b.frames@ == frames
    } else {
        r is Err
    }
    &&& (op == OP_ADD || op == OP_SUB || op == OP_MUL || op == OP_DIV || op == OP_REM || op == OP_LT
        || op == OP_GT) ==> if n >= 2 {
        &&& b.stack@ == stack.subrange(0, n - 2)
        &&& b.frames@ == frames
        &&& match (stack[n - 2], stack.last()) {
            (Value::Num(x), Value::Num(y)) => r == Ok::<Step, VmError>(
                Step::Arith { op: arith_op(op), a: x, b: y },
            ),
            _ => r == Err::<Step, VmError>(VmError::TypeError),
        }
    } else {
        r is Err
    }
    &&& op == OP_NEG ==> if n > 0 {
        &&& b.stack@ == stack.drop_last()
        &&& b.frames@ == frames
        &&& match stack.last() {
            Value::Num(x) => r == Ok::<Step, VmError>(Step::Arith { op: ArithOp::Neg, a: x, b: 0 }),
            _ => r == Err::<Step, VmError>(VmError::TypeError),
        }
    } else {
        r is Err
    }
    &&& op == OP_CLOSE_UPVALUE && n > 0 ==> r == Ok::<Step, VmError>(Step::Continue) && b.stack@ == stack.drop_last()
        && b.frames@ == frames
    &&& op == OP_GET_ELEMENT && n >= 2 && stack.last() is Num && list_in(heap, stack[n - 2]) is Some ==> {
        let l = list_in(heap, stack[n - 2]).unwrap();
        let i = index_of_bits(stack.last()->Num_0);
        &&& r == Ok::<Step, VmError>(Step::Continue)
        &&& b.frames@ == frames
        &&& b.stack@ == stack.subrange(0, n - 2).push(
            if i is Some && i->Some_0 < l.len() {
                l[i->Some_0 as int]
            } else {
                Value::Nil
            },
        )
    }
    &&& op == OP_SET_ELEMENT && n >= 3 && stack.last() is Num && list_in(heap, stack[n - 2]) is Some
        && index_of_bits(stack.last()->Num_0) is Some && index_of_bits(stack.last()->Num_0)->Some_0 <= list_in(
        heap,
        stack[n - 2],
    ).unwrap().len() ==> {
        let l = list_in(heap, stack[n - 2]).unwrap();
        let i = index_of_bits(stack.last()->Num_0)->Some_0;
        &&& r == Ok::<Step, VmError>(Step::Continue)
        &&& b.frames@ == frames
        &&& b.stack@ == stack.subrange(0, n - 3)
        &&& list_in(b.heap, stack[n - 2]) == Some(
            if i < l.len() {
                l.update(i as int, stack[n - 3])
            } else {
                l.push(stack[n - 3])
            },
        )
    }
    &&& (op == OP_GET_ELEMENT || op == OP_SET_ELEMENT) ==> {
        let need = if op == OP_GET_ELEMENT {
            2int
        } else {
            3int
        };
        &&& n < need ==> r is Err
        &&& n >= need && !(stack.last() is Num) ==> r == Err::<Step, VmError>(VmError::NonNumericIndex)
        &&& n >= need && stack.last() is Num && list_in(heap, stack[n - 2]) is None ==> r == Err::<Step, VmError>(
            VmError::IndexIntoNonList,
        )
    }
    &&& op == OP_SET_ELEMENT && n >= 3 && stack.last() is Num && list_in(heap, stack[n - 2]) is Some && (index_of_bits(
        stack.last()->Num_0,
    ) is None || index_of_bits(stack.last()->Num_0)->Some_0 > list_in(heap, stack[n - 2]).unwrap().len())
        ==> r == Err::<Step, VmError>(VmError::IndexOutOfRange)
    &&& op == OP_RETURN && frames.len() > 0 && n > 0 && frames.last().stack_start < n ==> {
        &&& r == Ok::<Step, VmError>(
            if frames.len() == 1 {
                Step::Halted
            } else {
                Step::Continue
            },
        )
        &&& b.frames@ == frames.drop_last()
        &&& b.stack@ == stack_after_return(stack, frames.last().stack_start as int)
        &&& b.globals@ == globals
    }
}

/// The arity a closure callee declares when a call of `n` arguments names a
/// closure of another arity.
pub open spec fn closure_arity_mismatch(heap: Heap, stack: Seq<Value>, n: u8) -> Option<u8> {
    if stack.len() >= n + 1 {
        match stack[stack.len() - n - 1] {
            Value::Obj(h) => if heap.is_live(h) && heap.object(h) is Closure
                && heap.object(h)->Closure_0.arity != n {
                Some(heap.object(h)->Closure_0.arity)
            } else {
                None
            },
            _ => None,
        }
    } else {
        None
    }
}

proof fn lemma_jumped_advanced(f: Seq<CallFrame>, k: int, t: int)
    requires
        f.len() > 0,
    ensures
        jumped(advanced(f, k), t) == jumped(f, t),
{
    assert(jumped(advanced(f, k), t) =~= jumped(f, t));
}

proof fn lemma_advanced_twice(f: Seq<CallFrame>, j: int, k: int)
    requires
        f.len() > 0,
        0 <= j,
        0 <= k,
        f.last().ip + j <= usize::MAX,
    ensures
        advanced(advanced(f, j), k) == advanced(f, j + k),
{
    assert(advanced(advanced(f, j), k) =~= advanced(f, j + k));
}

/// The native function a call of `n` arguments names.
pub open spec fn callee_native(heap: Heap, stack: Seq<Value>, n: u8) -> Option<NativeFunction> {
    if stack.len() >= n + 1 {
        match stack[stack.len() - n - 1] {
            Value::Obj(h) => if heap.is_live(h) && heap.object(h) is Native {
                Some(heap.object(h)->Native_0)
            } else {
                None
            },
            _ => None,
        }
    } else {
        None
    }
}

/// The closure a call of `n` arguments names when its arity is `n`.
pub open spec fn callee_closure(heap: Heap, stack: Seq<Value>, n: u8) -> Option<Handle> {
    if stack.len() >= n + 1 {
        match stack[stack.len() - n - 1] {
            Value::Obj(h) => if heap.is_live(h) && heap.object(h) is Closure && heap.object(h)->Closure_0.arity
                == n {
                Some(h)
            } else {
                None
            },
            _ => None,
        }
    } else {
        None
    }
}

/// What instructions with operands do to machine `a`, whose operands start
/// `off` bytes past its newest frame's instruction pointer, with `b` the
/// state after and `r` the outcome.
pub open spec fn operand_effect(op: u8, a: VM, b: VM, r: Result<Step, VmError>, off: int) -> bool {
    let n = a.stack@.len();
    let x = a.code_at(off);
    let next = advanced(a.frames@, off + 1);
    let ok = Ok::<Step, VmError>(Step::Continue);
    &&& a.has_bytes(off + 1) ==> {
        &&& op == OP_GET_LOCAL && a.local_slot(x) < n && n < STACK_SIZE ==> r == ok && b.stack@ == a.stack@.push(
            a.stack@[a.local_slot(x)],
        ) && b.frames@ == next
        &&& op == OP_SET_LOCAL && a.local_slot(x) < n ==> r == ok && b.stack@ == a.stack@.update(
            a.local_slot(x),
            a.stack@.last(),
        ) && b.frames@ == next
        &&& op == OP_GET_UPVALUE && a.upvalue_read(x) is Some && n < STACK_SIZE ==> r == ok && b.stack@
            == a.stack@.push(a.upvalue_read(x).unwrap()) && b.frames@ == next
        &&& op == OP_SET_UPVALUE && a.upvalue_read(x) is Some && n > 0 ==> r == ok && b.upvalue_read(x) == Some(
            a.stack@.last(),
        ) && b.frames@ == next
        &&& op == OP_CALL && callee_closure(a.heap, a.stack@, x) is Some && a.frames@.len() < FRAMES_MAX ==> r
            == ok && b.stack@ == a.stack@ && b.frames@ == next.push(
            CallFrame {
                closure: callee_closure(a.heap, a.stack@, x).unwrap(),
                ip: 0,
                stack_start: (n - x - 1) as usize,
            },
        )
        &&& op == OP_CALL && callee_native(a.heap, a.stack@, x) is Some ==> {
            let nf = callee_native(a.heap, a.stack@, x).unwrap();
            let start = n - x - 1;
            &&& nf.arity == x ==> r is Ok && r->Ok_0 is Native && r->Ok_0->Native_id == nf.id
                && r->Ok_0->Native_args@ == a.stack@.subrange(start, n as int) && b.stack@ == a.stack@.subrange(0, start)
                && b.frames@ == next
            &&& nf.arity != x ==> r == Err::<Step, VmError>(VmError::ArityMismatch { expected: nf.arity, got: x })
                && b.stack@ == a.stack@
        }
        &&& op == OP_LIST && x <= n && n - x < STACK_SIZE ==> r == ok && b.frames@ == next && b.stack@.len()
            == n - x + 1 && b.stack@.subrange(0, n - x) == a.stack@.subrange(0, n - x)
        &&& op == OP_CONSTANT && (x as int) < a.cur_chunk().unwrap().constants@.len() && n < STACK_SIZE ==> r
            == ok && b.stack@ == a.stack@.push(a.cur_chunk().unwrap().constants@[x as int]) && b.frames@ == next
        &&& op == OP_CLOSURE && (x as int) < a.cur_chunk().unwrap().constants@.len() && a.function_of(
            a.cur_chunk().unwrap().constants@[x as int],
        ) is Some ==> {
            let fval = a.cur_chunk().unwrap().constants@[x as int];
            let cnt = a.function_of(fval).unwrap().upvalue_count as int;
            &&& a.pairs_ok_at(off + 1, cnt) && n < STACK_SIZE ==> r == ok
            &&& r == ok ==> {
                let top = b.stack@.last()->Obj_0;
                &&& b.stack@.len() == n + 1
                &&& b.stack@.subrange(0, n as int) == a.stack@
                &&& b.stack@.last() is Obj
                &&& !a.heap.is_live(top)
                &&& b.heap.is_live(top)
                &&& b.heap.object(top) is Closure
                &&& b.heap.object(top)->Closure_0.function == fval->Obj_0
                &&& b.heap.object(top)->Closure_0.upvalues@.len() == cnt
                &&& forall|i: int|
                    0 <= i < cnt ==> a.pair_built_at(
                        off + 1,
                        b,
                        i,
                        #[trigger] b.heap.object(top)->Closure_0.upvalues@[i],
                    )
                &&& b.frames@ == advanced(a.frames@, off + 1 + 2 * cnt)
            }
        }
        &&& (x as int) < a.cur_chunk().unwrap().constants@.len() && string_of(
            a.heap,
            a.cur_chunk().unwrap().constants@[x as int],
        ) is Some ==> {
            let name = string_of(a.heap, a.cur_chunk().unwrap().constants@[x as int]).unwrap();
            &&& op == OP_GET_GLOBAL && lookup(a.globals@, name) is Some && n < STACK_SIZE ==> r == ok
                && b.stack@ == a.stack@.push(lookup(a.globals@, name).unwrap()) && b.frames@ == next
            &&& op == OP_GET_GLOBAL && lookup(a.globals@, name) is None ==> r is Err && r->Err_0 is UndefinedGlobal
            &&& op == OP_DEFINE_GLOBAL && n > 0 ==> r == ok && b.stack@ == a.stack@.drop_last() && b.frames@ == next
                && lookup(b.globals@, name) == Some(a.stack@.last())
            &&& op == OP_SET_GLOBAL && n > 0 ==> r == ok && b.stack@ == a.stack@ && b.frames@ == next && lookup(
                b.globals@,
                name,
            ) == Some(a.stack@.last())
        }
    }
    &&& a.has_bytes(off + 2) ==> {
        let t = be_u16_at(a.cur_chunk().unwrap().code@, a.cur_ip() + off);
        &&& op == OP_JMP ==> r == ok && b.stack@ == a.stack@ && b.frames@ == jumped(a.frames@, t)
        &&& op == OP_LOOP && t <= a.cur_ip() + off + 2 ==> r == ok && b.stack@ == a.stack@ && b.frames@ == jumped(
            a.frames@,
            a.cur_ip() + off + 2 - t,
        )
        &&& op == OP_JZE && n > 0 ==> r == ok && b.stack@ == a.stack@ && b.frames@ == if is_truthy(
            a.stack@.last(),
        ) {
            advanced(a.frames@, off + 2)
        } else {
            jumped(a.frames@, t)
        }
    }
    &&& a.has_bytes(off + 8) && op == OP_IMMEDIATE && n < STACK_SIZE ==> r == ok && b.stack@ == a.stack@.push(
        Value::Num(be_u64_at(a.cur_chunk().unwrap().code@, a.cur_ip() + off) as u64),
    ) && b.frames@ == advanced(a.frames@, off + 8)
}

/// The elements of the list that `v` refers to.
pub open spec fn list_in(heap: Heap, v: Value) -> Option<Seq<Value>> {
    match v {
        Value::Obj(h) => if heap.is_live(h) && heap.object(h) is List {
            Some(heap.object(h)->List_0@)
        } else {
            None
        },
        _ => None,
    }
}

/// The numeric operation a binary opcode asks for.
pub open spec fn arith_op(op: u8) -> ArithOp {
    if op == OP_ADD {
        ArithOp::Add
    } else if op == OP_SUB {
        ArithOp::Sub
    } else if op == OP_MUL {
        ArithOp::Mul
    } else if op == OP_DIV {
        ArithOp::Div
    } else if op == OP_REM {
        ArithOp::Rem
    } else if op == OP_LT {
        ArithOp::Lt
    } else {
        ArithOp::Gt
    }
}

pub struct VM {
    pub heap: Heap,
    pub next_gc: usize,
    pub globals: Vec<Global>,
    pub open_upvalues: Vec<usize>,
    /// Upvalue cells, shared by index between closures. Cells are not
    /// reclaimed: a closed cell's value stays a collection root for the life
    /// of the machine.
    pub cells: Vec<UpValue>,
    pub stack: Vec<Value>,
    pub frames: Vec<CallFrame>,
    pub natives: usize,
}

impl VM {
    pub fn new() -> (r: VM)
        ensures
            r.stack@.len() == 0,
            r.frames@.len() == 0,
            r.globals@.len() == 0,
            r.open_upvalues@.len() == 0,
            r.cells@.len() == 0,
            r.heap.slots@.len() == 0,
            r.heap.wf(),
            r.wf(),
            functions_land(r.heap),
            r.next_gc == GC_TRIGGER_COUNT,
    {
        VM {
            heap: Heap::new(),
            next_gc: GC_TRIGGER_COUNT,
            globals: Vec::new(),
            open_upvalues: Vec::new(),
            cells: Vec::new(),
            stack: Vec::new(),
            frames: Vec::new(),
            natives: 0,
        }
    }


    /// The heap's counter is exact, the open list holds open cells, at most
    /// one per stack slot, and every function in the heap has code whose
    /// forward jumps land on instruction starts.
    pub open spec fn wf(&self) -> bool {
        &&& self.heap.wf()
        &&& open_wf(self.cells@, self.open_upvalues@)
        &&& functions_land(self.heap)
    }

    pub open spec fn lookup_global(&self, name: Seq<u8>) -> Option<Value> {
        lookup(self.globals@, name)
    }

    /// Number of live call frames.
    pub fn frame_count(&self) -> (r: usize)
        ensures
            r == self.frames@.len(),
    {
        self.frames.len()
    }

    /// The value of global `name`, if it is bound.
    pub fn global(&self, name: &Vec<u8>) -> (r: Option<Value>)
        ensures
            r == self.lookup_global(name@),
    {
        get_global(&self.globals, name)
    }

    /// The object at `h`, if the heap holds one there.
    pub fn object(&self, h: Handle) -> (r: Option<&Object>)
        ensures
            r.is_some() == self.heap.is_live(h),
            r.is_some() ==> *r.unwrap() == self.heap.object(h),
    {
        self.heap.get(h)
    }

    /// Pushes a value; faults once the stack is full.
    pub fn push(&mut self, value: Value) -> (r: Result<(), VmError>)
        ensures
            old(self).stack@.len() < STACK_SIZE ==> r is Ok && final(self).stack@ == old(self).stack@.push(value),
            old(self).stack@.len() >= STACK_SIZE ==> r == Err::<(), VmError>(
                VmError::StackOverflow,
            ) && final(self).stack@ == old(self).stack@,
            final(self).frames@ == old(self).frames@,
            final(self).heap == old(self).heap,
            final(self).globals@ == old(self).globals@,
            final(self).cells@ == old(self).cells@,
            final(self).open_upvalues@ == old(self).open_upvalues@,
    {
        if self.stack.len() >= STACK_SIZE {
            return Err(VmError::StackOverflow);
        }
        self.stack.push(value);
        Ok(())
    }

    /// Hands back the result of a `Step::Arith` or `Step::Native`.
    pub fn resume(&mut self, value: Value) -> (r: Result<(), VmError>)
        ensures
            old(self).stack@.len() < STACK_SIZE ==> r is Ok && final(self).stack@ == old(self).stack@.push(value),
            old(self).stack@.len() >= STACK_SIZE ==> r == Err::<(), VmError>(
                VmError::StackOverflow,
            ) && final(self).stack@ == old(self).stack@,
            final(self).frames@ == old(self).frames@,
            final(self).heap == old(self).heap,
            final(self).globals@ == old(self).globals@,
    {
        self.push(value)
    }

    fn pop(&mut self) -> (r: Result<Value, VmError>)
        ensures
            old(self).stack@.len() > 0 ==> r == Ok::<Value, VmError>(old(self).stack@.last())
                && final(self).stack@ == old(self).stack@.drop_last(),
            old(self).stack@.len() == 0 ==> r == Err::<Value, VmError>(VmError::StackUnderflow)
                && final(self).stack@ == old(self).stack@,
            final(self).frames@ == old(self).frames@,
            final(self).heap == old(self).heap,
            final(self).globals@ == old(self).globals@,
            final(self).cells@ == old(self).cells@,
            final(self).open_upvalues@ == old(self).open_upvalues@,
    {
        match self.stack.pop() {
            Some(v) => Ok(v),
            None => Err(VmError::StackUnderflow),
        }
    }

    fn peek(&self) -> (r: Result<Value, VmError>)
        ensures
            self.stack@.len() > 0 ==> r == Ok::<Value, VmError>(self.stack@.last()),
            self.stack@.len() == 0 ==> r == Err::<Value, VmError>(VmError::StackUnderflow),
    {
        let n = self.stack.len();
        if n == 0 {
            Err(VmError::StackUnderflow)
        } else {
            Ok(self.stack[n - 1])
        }
    }

    /// Every handle a collection must keep, `fresh` first.
    fn roots(&self, fresh: Handle) -> (r: Vec<Handle>)
        ensures
            covers_roots(*self, fresh, r@),
            forall|k: int| 0 <= k < r@.len() ==> #[trigger] r@[k] == fresh || is_machine_root(*self, r@[k]),
    {
        let mut roots: Vec<Handle> = Vec::new();
        roots.push(fresh);
        assert(roots@[0] == fresh);
        let ghost r0 = roots@;
        Heap::push_handles(&self.stack, &mut roots);
        assert forall|k: int| 0 <= k < roots@.len() implies #[trigger] roots@[k] == fresh || is_machine_root(*self, roots@[k]) by {
            if k >= 1 {
                assert(holds_handle(self.stack@, roots@[k]));
            }
        }
        proof {
            lemma_contains_extended(r0, roots@, fresh);
        }
        let ghost r1 = roots@;
        let mut k: usize = 0;
        while k < self.globals.len()
            invariant
                k <= self.globals@.len(),
                roots@.len() >= r1.len(),
                roots@.subrange(0, r1.len() as int) == r1,
                forall|k: int| 0 <= k < roots@.len() ==> #[trigger] roots@[k] == fresh || is_machine_root(*self, roots@[k]),
                forall|j: int, q: Handle|
                    0 <= j < k && self.globals@[j].value == Value::Obj(q) ==> roots@.contains(q),
            decreases self.globals@.len() - k,
        {
            let ghost prev = roots@;
            if let Value::Obj(h) = self.globals[k].value {
                roots.push(h);
                assert(roots@[prev.len() as int] == h);
                assert(self.globals@[k as int].value == Value::Obj(h));
                assert(is_machine_root(*self, h));
            }
            assert forall|j: int| 0 <= j < roots@.len() implies #[trigger] roots@[j] == fresh || is_machine_root(*self, roots@[j]) by {
                if j < prev.len() {
                    assert(roots@[j] == prev[j]);
                }
            }
            assert(roots@.subrange(0, prev.len() as int) =~= prev);
            assert(roots@.subrange(0, r1.len() as int) =~= prev.subrange(0, r1.len() as int));
            proof {
                assert forall|j: int, q: Handle|
                    0 <= j < k && self.globals@[j].value == Value::Obj(q) implies roots@.contains(q) by {
                    lemma_contains_extended(prev, roots@, q);
                }
            }
            k = k + 1;
        }
        let ghost r2 = roots@;
        assert(r2.subrange(0, r2.len() as int) =~= r2);
        let ghost r3 = roots@;
        let mut k: usize = 0;
        while k < self.frames.len()
            invariant
                k <= self.frames@.len(),
                roots@.len() >= r3.len(),
                roots@.subrange(0, r3.len() as int) == r3,
                forall|k: int| 0 <= k < roots@.len() ==> #[trigger] roots@[k] == fresh || is_machine_root(*self, roots@[k]),
                forall|j: int| 0 <= j < k ==> roots@.contains(#[trigger] self.frames@[j].closure),
            decreases self.frames@.len() - k,
        {
            let ghost prev = roots@;
            roots.push(self.frames[k].closure);
            assert(roots@[prev.len() as int] == self.frames@[k as int].closure);
            assert(is_machine_root(*self, self.frames@[k as int].closure));
            assert forall|j: int| 0 <= j < roots@.len() implies #[trigger] roots@[j] == fresh || is_machine_root(*self, roots@[j]) by {
                if j < prev.len() {
                    assert(roots@[j] == prev[j]);
                }
            }
            assert(roots@.subrange(0, prev.len() as int) =~= prev);
            assert(roots@.subrange(0, r3.len() as int) =~= prev.subrange(0, r3.len() as int));
            proof {
                assert forall|j: int| 0 <= j < k implies roots@.contains(#[trigger] self.frames@[j].closure) by {
                    lemma_contains_extended(prev, roots@, self.frames@[j].closure);
                }
            }
            k = k + 1;
        }
        proof {
            lemma_contains_extended(r0, r1, fresh);
            lemma_contains_extended(r1, r2, fresh);
            lemma_contains_extended(r2, r3, fresh);
            lemma_contains_extended(r3, roots@, fresh);
            assert forall|i: int, q: Handle|
                0 <= i < self.stack@.len() && self.stack@[i] == Value::Obj(q) implies roots@.contains(q) by {
                lemma_contains_extended(r1, r2, q);
                lemma_contains_extended(r2, r3, q);
                lemma_contains_extended(r3, roots@, q);
            }
            assert forall|k: int, q: Handle|
                0 <= k < self.globals@.len() && self.globals@[k].value == Value::Obj(q) implies roots@.contains(q) by {
                lemma_contains_extended(r2, r3, q);
                lemma_contains_extended(r3, roots@, q);
            }
        }
        roots
    }

    /// Stores `obj` in the heap. When the object count reaches the threshold,
    /// the threshold grows and a collection runs first, keeping every root.
    pub fn allocate(&mut self, obj: Object) -> (r: Handle)
        ensures
            final(self).heap.is_live(r),
            final(self).heap.object(r) == obj,
            !old(self).heap.is_live(r),
            final(self).stack@ == old(self).stack@,
            final(self).globals@ == old(self).globals@,
            final(self).frames@ == old(self).frames@,
            final(self).cells@ == old(self).cells@,
            final(self).open_upvalues@ == old(self).open_upvalues@,
            forall|i: int, q: Handle|
                0 <= i < old(self).stack@.len() && old(self).stack@[i] == Value::Obj(q) ==> kept(
                    old(self).heap,
                    final(self).heap,
                    q,
                ),
            forall|k: int, q: Handle|
                0 <= k < old(self).globals@.len() && old(self).globals@[k].value == Value::Obj(q)
                    ==> kept(old(self).heap, final(self).heap, q),
            forall|k: int|
                0 <= k < old(self).frames@.len() ==> kept(
                    old(self).heap,
                    final(self).heap,
                    #[trigger] old(self).frames@[k].closure,
                ),
            forall|p: Handle|
                p != r && #[trigger] final(self).heap.is_live(p) ==> old(self).heap.is_live(p)
                    && final(self).heap.object(p) == old(self).heap.object(p),
            forall|q: Handle| #[trigger] refers_to(old(self).cells@, obj, q) ==> kept(old(self).heap, final(self).heap, q),
            forall|q: Handle| #[trigger] machine_reachable(*old(self), q) ==> kept(old(self).heap, final(self).heap, q),
            final(self).next_gc == if old(self).heap.live + 1 >= old(self).next_gc {
                grown(old(self).next_gc)
            } else {
                old(self).next_gc
            },
            old(self).heap.live + 1 < old(self).next_gc ==> forall|q: Handle| #[trigger] old(self).heap.is_live(q)
                ==> kept(old(self).heap, final(self).heap, q),
            old(self).heap.live + 1 >= old(self).next_gc ==> forall|p: Handle|
                p < final(self).heap.slots@.len() && !reachable_with(
                    with_new(old(self).heap.slots@, r, obj),
                    *old(self),
                    r,
                    p,
                ) ==> #[trigger] final(self).heap.slots@[p as int] is None,
            old(self).heap.wf() ==> final(self).heap.wf(),
            old(self).wf() && (obj is Function ==> jumps_land(obj->Function_0.chunk)) ==> final(self).wf(),
    {
        let ghost h0 = self.heap;
        let h = self.heap.insert(obj);
        let ghost h1 = self.heap;
        if self.heap.len() >= self.next_gc {
            self.next_gc = if self.next_gc <= usize::MAX / HEAP_GROWTH {
                self.next_gc * HEAP_GROWTH
            } else {
                usize::MAX
            };
            let roots = self.roots(h);
            self.heap.collect(&roots, &self.cells);
            proof {
                assert(h1.slots@ =~= with_new(h0.slots@, h, obj));
                assert forall|p: Handle|
                    p < self.heap.slots@.len() && !reachable_with(with_new(h0.slots@, h, obj), *old(self), h, p)
                        implies #[trigger] self.heap.slots@[p as int] is None by {
                    if crate::heap::reachable(self.cells@, h1.slots@, roots@, p) {
                        let path = choose|path: Seq<Handle>|
                            path.len() > 0 && roots@.contains(path[0]) && is_path(self.cells@, h1.slots@, path)
                                && #[trigger] path.last() == p;
                        let w = choose|w: int| 0 <= w < roots@.len() && roots@[w] == path[0];
                        assert(roots@[w] == h || is_machine_root(*self, roots@[w]));
                        assert(reachable_with(h1.slots@, *old(self), h, p));
                    }
                }
                assert forall|q: Handle| #[trigger] machine_reachable(*old(self), q) implies kept(h0, self.heap, q) by {
                    let path = choose|path: Seq<Handle>|
                        path.len() > 0 && is_machine_root(*old(self), path[0]) && is_path(self.cells@, h0.slots@, path)
                            && #[trigger] path.last() == q;
                    assert(path[0] < h0.slots@.len());
                    assert(roots@.contains(path[0])) by {
                        let r0 = path[0];
                        if holds_handle(self.stack@, r0) {
                            let i = choose|i: int| 0 <= i < self.stack@.len() && self.stack@[i] == Value::Obj(r0);
                        } else if exists|k: int| 0 <= k < self.globals@.len() && #[trigger] self.globals@[k].value == Value::Obj(r0) {
                            let k = choose|k: int| 0 <= k < self.globals@.len() && #[trigger] self.globals@[k].value == Value::Obj(r0);
                        } else {
                            let k = choose|k: int| 0 <= k < self.frames@.len() && #[trigger] self.frames@[k].closure == r0;
                        }
                    }
                    assert forall|i: int| 0 <= i < path.len() implies #[trigger] path[i] < h1.slots@.len()
                        && h1.slots@[path[i] as int] is Some && h1.slots@[path[i] as int] == h0.slots@[path[i] as int] by {
                        assert(path[i] < h0.slots@.len() && h0.slots@[path[i] as int] is Some);
                    }
                    assert forall|i: int| 0 <= i < path.len() - 1 implies crate::object::refers_to(
                        self.cells@,
                        #[trigger] h1.slots@[path[i] as int].unwrap(),
                        path[i + 1],
                    ) by {
                        assert(path[i] < h0.slots@.len() && h0.slots@[path[i] as int] is Some);
                        assert(crate::object::refers_to(self.cells@, h0.slots@[path[i] as int].unwrap(), path[i + 1]));
                    }
                    assert(is_path(self.cells@, h1.slots@, path));
                    lemma_collection_keeps_reachable(self.cells@, h1.slots@, self.heap.slots@, roots@, path);
                    assert(path[path.len() - 1] == q);
                }
                lemma_root_kept(self.cells@, h1.slots@, self.heap.slots@, roots@, h);
                assert forall|q: Handle| #[trigger] roots@.contains(q) && h1.is_live(q) implies self.heap.is_live(q)
                    && self.heap.object(q) == h1.object(q) by {
                    lemma_root_kept(self.cells@, h1.slots@, self.heap.slots@, roots@, q);
                }
                assert forall|i: int, q: Handle|
                    0 <= i < self.stack@.len() && self.stack@[i] == Value::Obj(q) implies kept(h0, self.heap, q) by {
                    assert(roots@.contains(q));
                    if h0.is_live(q) {
                        assert(h1.is_live(q));
                    }
                }
                assert forall|k: int, q: Handle|
                    0 <= k < self.globals@.len() && self.globals@[k].value == Value::Obj(q) implies kept(h0, self.heap, q) by {
                    assert(roots@.contains(q));
                    if h0.is_live(q) {
                        assert(h1.is_live(q));
                    }
                }
                assert forall|k: int| 0 <= k < self.frames@.len() implies kept(h0, self.heap, #[trigger] self.frames@[k].closure) by {
                    let q = self.frames@[k].closure;
                    assert(roots@.contains(q));
                    if h0.is_live(q) {
                        assert(h1.is_live(q));
                    }
                }
                assert forall|q: Handle| #[trigger] refers_to(self.cells@, obj, q) implies kept(h0, self.heap, q) by {
                    if h0.is_live(q) {
                        assert(h1.is_live(q));
                        assert(self.heap.slots@[h as int] is Some);
                        assert(h1.slots@[h as int].unwrap() == obj);
                    }
                }
                assert forall|p: Handle| p != h && #[trigger] self.heap.is_live(p) implies h0.is_live(p)
                    && self.heap.object(p) == h0.object(p) by {
                    assert(self.heap.slots@[p as int] is Some);
                }
            }
        }
        proof {
            if old(self).wf() && (obj is Function ==> jumps_land(obj->Function_0.chunk)) {
                assert forall|q: Handle| #[trigger] self.heap.is_live(q) && self.heap.object(q) is Function implies jumps_land(
                    self.heap.object(q)->Function_0.chunk,
                ) by {
                    if q != h {
                        assert(self.heap.slots@[q as int] is Some);
                        assert(h0.is_live(q));
                    }
                }
            }
        }
        h
    }

    /// The chunk run by the closure at `closure`.
    pub fn chunk_of(heap: &Heap, closure: Handle) -> (r: Option<&Chunk>)
        ensures
            r.is_some() == chunk_of_spec(*heap, closure).is_some(),
            r.is_some() ==> *r.unwrap() == chunk_of_spec(*heap, closure).unwrap(),
    {
        match heap.get(closure) {
            Some(Object::Closure(c)) => match heap.get(c.function) {
                Some(Object::Function(f)) => Some(&f.chunk),
                _ => None,
            },
            _ => None,
        }
    }

    /// The chunk of the newest frame.
    pub open spec fn cur_chunk(&self) -> Option<Chunk> {
        if self.frames@.len() > 0 {
            chunk_of_spec(self.heap, self.frames@.last().closure)
        } else {
            None
        }
    }

    pub open spec fn cur_ip(&self) -> int {
        self.frames@.last().ip as int
    }

    /// Whether the newest frame has `k` more bytes of code at its ip.
    pub open spec fn has_bytes(&self, k: int) -> bool {
        self.cur_chunk() is Some && self.cur_ip() + k <= self.cur_chunk().unwrap().code@.len()
    }

    pub open spec fn code_at(&self, k: int) -> u8 {
        self.cur_chunk().unwrap().code@[self.cur_ip() + k]
    }

    pub open spec fn unchanged_but_frames(&self, other: &VM) -> bool {
        &&& self.stack@ == other.stack@
        &&& self.heap == other.heap
        &&& self.globals@ == other.globals@
        &&& self.cells@ == other.cells@
        &&& self.open_upvalues@ == other.open_upvalues@
    }

    /// Reads the next byte of the newest frame's code.
    fn read_byte(&mut self) -> (r: Result<u8, VmError>)
        ensures
            final(self).unchanged_but_frames(old(self)),
            old(self).has_bytes(1) ==> r == Ok::<u8, VmError>(old(self).code_at(0))
                && final(self).frames@ == advanced(old(self).frames@, 1) && old(self).cur_ip() + 1
                <= usize::MAX,
            !old(self).has_bytes(1) ==> r is Err && final(self).frames@ == old(self).frames@,
    {
        let n = self.frames.len();
        if n == 0 {
            return Err(VmError::MalformedCode);
        }
        let mut f = self.frames[n - 1];
        match Self::chunk_of(&self.heap, f.closure) {
            Some(chunk) => {
                if f.ip < chunk.len() {
                    let b = f.read_byte(chunk);
                    self.frames.set(n - 1, f);
                    assert(self.frames@ =~= advanced(old(self).frames@, 1));
                    Ok(b)
                } else {
                    Err(VmError::MalformedCode)
                }
            },
            None => Err(VmError::DanglingHandle),
        }
    }

    /// Reads the next two-byte operand of the newest frame's code.
    fn read_u16(&mut self) -> (r: Result<u16, VmError>)
        ensures
            final(self).unchanged_but_frames(old(self)),
            old(self).has_bytes(2) ==> r is Ok && r->Ok_0 as int == be_u16_at(
                old(self).cur_chunk().unwrap().code@,
                old(self).cur_ip(),
            ) && final(self).frames@ == advanced(old(self).frames@, 2),
            !old(self).has_bytes(2) ==> r is Err && final(self).frames@ == old(self).frames@,
    {
        let n = self.frames.len();
        if n == 0 {
            return Err(VmError::MalformedCode);
        }
        let mut f = self.frames[n - 1];
        match Self::chunk_of(&self.heap, f.closure) {
            Some(chunk) => {
                if chunk.len() >= 2 && f.ip <= chunk.len() - 2 {
                    let v = f.read_u16(chunk);
                    self.frames.set(n - 1, f);
                    assert(self.frames@ =~= advanced(old(self).frames@, 2));
                    Ok(v)
                } else {
                    Err(VmError::MalformedCode)
                }
            },
            None => Err(VmError::DanglingHandle),
        }
    }

    /// Reads the next eight-byte operand of the newest frame's code.
    fn read_u64(&mut self) -> (r: Result<u64, VmError>)
        ensures
            final(self).unchanged_but_frames(old(self)),
            old(self).has_bytes(8) ==> r is Ok && r->Ok_0 as int == be_u64_at(
                old(self).cur_chunk().unwrap().code@,
                old(self).cur_ip(),
            ) && final(self).frames@ == advanced(old(self).frames@, 8),
            !old(self).has_bytes(8) ==> r is Err && final(self).frames@ == old(self).frames@,
    {
        let n = self.frames.len();
        if n == 0 {
            return Err(VmError::MalformedCode);
        }
        let mut f = self.frames[n - 1];
        match Self::chunk_of(&self.heap, f.closure) {
            Some(chunk) => {
                if chunk.len() >= 8 && f.ip <= chunk.len() - 8 {
                    let v = f.read_u64(chunk);
                    self.frames.set(n - 1, f);
                    assert(self.frames@ =~= advanced(old(self).frames@, 8));
                    Ok(v)
                } else {
                    Err(VmError::MalformedCode)
                }
            },
            None => Err(VmError::DanglingHandle),
        }
    }

    /// Reads a one-byte constant index and returns that constant of the
    /// newest frame's chunk.
    fn read_constant(&mut self) -> (r: Result<Value, VmError>)
        ensures
            final(self).unchanged_but_frames(old(self)),
            old(self).has_bytes(1) && (old(self).code_at(0) as int) < old(self).cur_chunk().unwrap().constants@.len() ==> r == Ok::<Value, VmError>(
                old(self).cur_chunk().unwrap().constants@[old(self).code_at(0) as int],
            ) && final(self).frames@ == advanced(old(self).frames@, 1),
            !(old(self).has_bytes(1) && (old(self).code_at(0) as int) < old(self).cur_chunk().unwrap().constants@.len()) ==> r is Err && final(self).frames@ == old(self).frames@,
    {
        let n = self.frames.len();
        if n == 0 {
            return Err(VmError::MalformedCode);
        }
        let mut f = self.frames[n - 1];
        match Self::chunk_of(&self.heap, f.closure) {
            Some(chunk) => {
                if f.ip < chunk.len() && (chunk.code[f.ip] as usize) < chunk.constants.len() {
                    let v = f.read_constant(chunk);
                    self.frames.set(n - 1, f);
                    assert(self.frames@ =~= advanced(old(self).frames@, 1));
                    Ok(v)
                } else {
                    Err(VmError::MalformedCode)
                }
            },
            None => Err(VmError::DanglingHandle),
        }
    }

    pub open spec fn same_but_stack(&self, other: &VM) -> bool {
        &&& self.frames@ == other.frames@
        &&& self.heap == other.heap
        &&& self.globals@ == other.globals@
        &&& self.cells@ == other.cells@
        &&& self.open_upvalues@ == other.open_upvalues@
    }

    /// Equality of two values, as `values_equal` states it.
    pub fn values_eq(&self, a: Value, b: Value) -> (r: bool)
        ensures
            r == values_equal(self.heap, a, b),
    {
        match (a, b) {
            (Value::Nil, Value::Nil) => true,
            (Value::Bool(x), Value::Bool(y)) => x == y,
            (Value::Num(x), Value::Num(y)) => x == y,
            (Value::Obj(x), Value::Obj(y)) => {
                match (self.heap.get(x), self.heap.get(y)) {
                    (Some(Object::Str(s)), Some(Object::Str(t))) => bytes_eq(s, t),
                    _ => x == y,
                }
            },
            _ => false,
        }
    }

    /// The bytes of the string object that `v` refers to.
    pub fn string_value(&self, v: Value) -> (r: Option<&Vec<u8>>)
        ensures
            r.is_some() == string_of(self.heap, v).is_some(),
            r.is_some() ==> r.unwrap()@ == string_of(self.heap, v).unwrap(),
    {
        match v {
            Value::Obj(h) => match self.heap.get(h) {
                Some(Object::Str(s)) => Some(s),
                _ => None,
            },
            _ => None,
        }
    }

    /// `Eq`: pops two values and pushes whether they are equal.
    fn op_eq(&mut self) -> (r: Result<(), VmError>)
        ensures
            final(self).same_but_stack(old(self)),
            old(self).stack@.len() >= 2 ==> r is Ok && final(self).stack@ == old(self).stack@.subrange(
                0,
                old(self).stack@.len() - 2,
            ).push(
                Value::Bool(
                    values_equal(
                        old(self).heap,
                        old(self).stack@[old(self).stack@.len() - 2],
                        old(self).stack@.last(),
                    ),
                ),
            ),
            old(self).stack@.len() < 2 ==> r is Err,
    {
        let b = self.pop()?;
        let a = self.pop()?;
        let e = self.values_eq(a, b);
        self.stack.push(Value::Bool(e));
        assert(self.stack@.drop_last() =~= old(self).stack@.subrange(0, old(self).stack@.len() - 2));
        Ok(())
    }

    /// `Not`: pops a value and pushes whether it is falsy.
    fn op_not(&mut self) -> (r: Result<(), VmError>)
        ensures
            final(self).same_but_stack(old(self)),
            old(self).stack@.len() >= 1 ==> r is Ok && final(self).stack@ == old(self).stack@.drop_last().push(
                Value::Bool(!is_truthy(old(self).stack@.last())),
            ),
            old(self).stack@.len() < 1 ==> r is Err,
    {
        let a = self.pop()?;
        self.stack.push(Value::Bool(!a.truthy()));
        Ok(())
    }

    /// A binary numeric instruction: pops two numbers and asks the embedder
    /// to combine them.
    fn binary(&mut self, op: ArithOp) -> (r: Result<Step, VmError>)
        ensures
            final(self).same_but_stack(old(self)),
            old(self).stack@.len() >= 2 ==> final(self).stack@ == old(self).stack@.subrange(
                0,
                old(self).stack@.len() - 2,
            ),
            old(self).stack@.len() >= 2 ==> match (
                old(self).stack@[old(self).stack@.len() - 2],
                old(self).stack@.last(),
            ) {
                (Value::Num(a), Value::Num(b)) => r == Ok::<Step, VmError>(Step::Arith { op, a, b }),
                _ => r == Err::<Step, VmError>(VmError::TypeError),
            },
            old(self).stack@.len() < 2 ==> r is Err,
    {
        let b = self.pop()?;
        let a = self.pop()?;
        assert(self.stack@ =~= old(self).stack@.subrange(0, old(self).stack@.len() - 2));
        match (a, b) {
            (Value::Num(x), Value::Num(y)) => Ok(Step::Arith { op, a: x, b: y }),
            _ => Err(VmError::TypeError),
        }
    }

    /// `Neg`: pops a number and asks the embedder to negate it.
    fn negate(&mut self) -> (r: Result<Step, VmError>)
        ensures
            final(self).same_but_stack(old(self)),
            old(self).stack@.len() >= 1 ==> final(self).stack@ == old(self).stack@.drop_last(),
            old(self).stack@.len() >= 1 ==> match old(self).stack@.last() {
                Value::Num(a) => r == Ok::<Step, VmError>(Step::Arith { op: ArithOp::Neg, a, b: 0 }),
                _ => r == Err::<Step, VmError>(VmError::TypeError),
            },
            old(self).stack@.len() < 1 ==> r is Err,
    {
        let a = self.pop()?;
        match a {
            Value::Num(x) => Ok(Step::Arith { op: ArithOp::Neg, a: x, b: 0 }),
            _ => Err(VmError::TypeError),
        }
    }

    /// The stack slot of local `idx` in the newest frame.
    pub open spec fn local_slot(&self, idx: u8) -> int {
        self.frames@.last().stack_start + idx
    }

    /// `GetLocal idx`: pushes the local.
    fn get_local(&mut self, idx: u8) -> (r: Result<(), VmError>)
        ensures
            final(self).same_but_stack(old(self)),
            old(self).frames@.len() > 0 && old(self).local_slot(idx) < old(self).stack@.len()
                && old(self).stack@.len() < STACK_SIZE ==> r is Ok && final(self).stack@ == old(self).stack@.push(old(self).stack@[old(self).local_slot(idx)]),
            !(old(self).frames@.len() > 0 && old(self).local_slot(idx) < old(self).stack@.len()
                && old(self).stack@.len() < STACK_SIZE) ==> r is Err,
    {
        let n = self.frames.len();
        if n == 0 {
            return Err(VmError::MalformedCode);
        }
        let start = self.frames[n - 1].stack_start;
        if start >= self.stack.len() || idx as usize >= self.stack.len() - start {
            return Err(VmError::MalformedCode);
        }
        let v = self.stack[start + idx as usize];
        self.push(v)
    }

    /// `SetLocal idx`: stores the top of the stack into the local, without
    /// popping it.
    fn set_local(&mut self, idx: u8) -> (r: Result<(), VmError>)
        ensures
            final(self).same_but_stack(old(self)),
            old(self).frames@.len() > 0 && old(self).local_slot(idx) < old(self).stack@.len() ==> r is Ok
                && final(self).stack@ == old(self).stack@.update(
                old(self).local_slot(idx),
                old(self).stack@.last(),
            ),
            !(old(self).frames@.len() > 0 && old(self).local_slot(idx) < old(self).stack@.len())
                ==> r is Err,
    {
        let n = self.frames.len();
        if n == 0 {
            return Err(VmError::MalformedCode);
        }
        let start = self.frames[n - 1].stack_start;
        if start >= self.stack.len() || idx as usize >= self.stack.len() - start {
            return Err(VmError::MalformedCode);
        }
        let v = self.stack[self.stack.len() - 1];
        self.stack.set(start + idx as usize, v);
        Ok(())
    }

    /// `GetGlobal`: pushes the global named by the string constant `name`.
    fn get_global(&mut self, name: Value) -> (r: Result<(), VmError>)
        ensures
            final(self).same_but_stack(old(self)),
            string_of(old(self).heap, name) is None ==> r == Err::<(), VmError>(
                VmError::MalformedCode,
            ),
            string_of(old(self).heap, name) is Some && old(self).lookup_global(
                string_of(old(self).heap, name).unwrap(),
            ) is None ==> r is Err && r->Err_0 is UndefinedGlobal,
            string_of(old(self).heap, name) is Some && old(self).lookup_global(
                string_of(old(self).heap, name).unwrap(),
            ) is Some ==> if old(self).stack@.len() < STACK_SIZE {
                r is Ok && final(self).stack@ == old(self).stack@.push(
                    old(self).lookup_global(string_of(old(self).heap, name).unwrap()).unwrap(),
                )
            } else {
                r == Err::<(), VmError>(VmError::StackOverflow)
            },
    {
        let found = match self.string_value(name) {
            Some(s) => match get_global(&self.globals, s) {
                Some(v) => Ok(v),
                None => Err(VmError::UndefinedGlobal(copy_bytes(s))),
            },
            None => Err(VmError::MalformedCode),
        };
        let v = found?;
        self.push(v)
    }

    /// `DefineGlobal`: pops a value and binds the global named by the string
    /// constant `name` to it.
    fn define_global(&mut self, name: Value) -> (r: Result<(), VmError>)
        ensures
            final(self).frames@ == old(self).frames@,
            final(self).heap == old(self).heap,
            final(self).cells@ == old(self).cells@,
            final(self).open_upvalues@ == old(self).open_upvalues@,
            string_of(old(self).heap, name) is Some && old(self).stack@.len() > 0 ==> r is Ok
                && final(self).stack@ == old(self).stack@.drop_last() && final(self).lookup_global(
                string_of(old(self).heap, name).unwrap(),
            ) == Some(old(self).stack@.last()) && forall|n: Seq<u8>|
                n != string_of(old(self).heap, name).unwrap() ==> final(self).lookup_global(n)
                    == old(self).lookup_global(n),
            !(string_of(old(self).heap, name) is Some && old(self).stack@.len() > 0) ==> r is Err,
    {
        let key = match self.string_value(name) {
            Some(s) => copy_bytes(s),
            None => return Err(VmError::MalformedCode),
        };
        let v = self.pop()?;
        define_global(&mut self.globals, key, v);
        Ok(())
    }

    /// `SetGlobal`: binds the global named by the string constant `name` to
    /// the top of the stack, without popping it; an unbound name is bound.
    fn set_global(&mut self, name: Value) -> (r: Result<(), VmError>)
        ensures
            final(self).stack@ == old(self).stack@,
            final(self).frames@ == old(self).frames@,
            final(self).heap == old(self).heap,
            final(self).cells@ == old(self).cells@,
            final(self).open_upvalues@ == old(self).open_upvalues@,
            string_of(old(self).heap, name) is Some && old(self).stack@.len() > 0 ==> r is Ok
                && final(self).lookup_global(string_of(old(self).heap, name).unwrap()) == Some(
                old(self).stack@.last(),
            ) && forall|n: Seq<u8>|
                n != string_of(old(self).heap, name).unwrap() ==> final(self).lookup_global(n)
                    == old(self).lookup_global(n),
            !(string_of(old(self).heap, name) is Some && old(self).stack@.len() > 0) ==> r is Err,
    {
        let key = match self.string_value(name) {
            Some(s) => copy_bytes(s),
            None => return Err(VmError::MalformedCode),
        };
        let v = self.peek()?;
        define_global(&mut self.globals, key, v);
        Ok(())
    }

    /// Captures local `idx` of the newest frame: the open cell over its stack
    /// slot is shared if there is one, else a new open cell is made.
    pub fn capture_upvalue(&mut self, idx: u8) -> (r: Result<usize, VmError>)
        ensures
            final(self).stack@ == old(self).stack@,
            final(self).frames@ == old(self).frames@,
            final(self).heap == old(self).heap,
            final(self).globals@ == old(self).globals@,
            old(self).frames@.len() > 0 && old(self).local_slot(idx) < old(self).stack@.len() ==> r is Ok
                && captures(
                old(self).cells@,
                old(self).open_upvalues@,
                old(self).local_slot(idx) as usize,
                r->Ok_0,
                final(self).cells@,
                final(self).open_upvalues@,
            ),
            !(old(self).frames@.len() > 0 && old(self).local_slot(idx) < old(self).stack@.len()) ==> r
                is Err && final(self).cells@ == old(self).cells@ && final(self).open_upvalues@ == old(self).open_upvalues@,
            old(self).wf() ==> final(self).wf(),
    {
        let n = self.frames.len();
        if n == 0 {
            return Err(VmError::MalformedCode);
        }
        let start = self.frames[n - 1].stack_start;
        if start >= self.stack.len() || idx as usize >= self.stack.len() - start {
            return Err(VmError::MalformedCode);
        }
        let offset = start + idx as usize;
        let mut k = self.open_upvalues.len();
        while k > 0
            invariant
                self.cells@ == old(self).cells@,
                self.open_upvalues@ == old(self).open_upvalues@,
                self.stack@ == old(self).stack@,
                self.frames@ == old(self).frames@,
                self.heap == old(self).heap,
                self.globals@ == old(self).globals@,
                offset == old(self).local_slot(idx),
                offset < self.stack@.len(),
                self.frames@.len() > 0,
                k <= self.open_upvalues@.len(),
                forall|j: int|
                    k <= j < self.open_upvalues@.len() && self.open_upvalues@[j] < self.cells@.len()
                        ==> self.cells@[self.open_upvalues@[j] as int] != UpValue::Open(offset),
            decreases k,
        {
            let c = self.open_upvalues[k - 1];
            if c < self.cells.len() && self.cells[c] == UpValue::Open(offset) {
                assert(self.open_upvalues@[k - 1] == c);
                return Ok(c);
            }
            k = k - 1;
        }
        let c = self.cells.len();
        self.cells.push(UpValue::Open(offset));
        self.open_upvalues.push(c);
        proof {
            assert(!has_open(old(self).cells@, old(self).open_upvalues@, offset));
            if old(self).wf() {
                lemma_capture_keeps_open_wf(
                    old(self).cells@,
                    old(self).open_upvalues@,
                    offset,
                    c,
                    self.cells@,
                    self.open_upvalues@,
                );
            }
        }
        Ok(c)
    }

    /// Closes every open cell over stack slot `end` or above: each takes the
    /// value its slot holds and leaves the open list.
    pub fn close_upvalues(&mut self, end: usize)
        ensures
            final(self).stack@ == old(self).stack@,
            final(self).frames@ == old(self).frames@,
            final(self).heap == old(self).heap,
            final(self).globals@ == old(self).globals@,
            final(self).cells@.len() == old(self).cells@.len(),
            forall|c: usize|
                c < old(self).cells@.len() ==> #[trigger] final(self).cells@[c as int] == if closes(
                    old(self).cells@,
                    old(self).open_upvalues@,
                    end,
                    c,
                ) {
                    UpValue::Closed(slot_value(old(self).stack@, old(self).cells@[c as int]->Open_0))
                } else {
                    old(self).cells@[c as int]
                },
            forall|c: usize|
                final(self).open_upvalues@.contains(c) <==> old(self).open_upvalues@.contains(c) && c
                    < old(self).cells@.len() && old(self).cells@[c as int] is Open && !closes(
                    old(self).cells@,
                    old(self).open_upvalues@,
                    end,
                    c,
                ),
            open_wf(old(self).cells@, old(self).open_upvalues@) ==> open_wf(
                final(self).cells@,
                final(self).open_upvalues@,
            ),
            final(self).open_upvalues@ == old(self).open_upvalues@.filter(
                |c: usize| stays_open(old(self).cells@, end, c),
            ),
    {
        let ghost cells0 = self.cells@;
        let ghost open0 = self.open_upvalues@;
        let mut kept: Vec<usize> = Vec::new();
        let mut k: usize = 0;
        while k < self.open_upvalues.len()
            invariant
                self.open_upvalues@ == open0,
                cells0 == old(self).cells@,
                open0 == old(self).open_upvalues@,
                self.stack@ == old(self).stack@,
                self.frames@ == old(self).frames@,
                self.heap == old(self).heap,
                self.globals@ == old(self).globals@,
                self.cells@.len() == cells0.len(),
                k <= open0.len(),
                forall|c: usize|
                    c < cells0.len() ==> #[trigger] self.cells@[c as int] == if open0.subrange(0, k as int).contains(c)
                        && closes(cells0, open0, end, c) {
                        UpValue::Closed(slot_value(old(self).stack@, cells0[c as int]->Open_0))
                    } else {
                        cells0[c as int]
                    },
                kept@ == open0.subrange(0, k as int).filter(|c: usize| stays_open(cells0, end, c)),
                forall|c: usize|
                    kept@.contains(c) <==> open0.subrange(0, k as int).contains(c) && c < cells0.len()
                        && cells0[c as int] is Open && !closes(cells0, open0, end, c),
            decreases open0.len() - k,
        {
            let c = self.open_upvalues[k];
            let ghost prev = kept@;
            let ghost cprev = self.cells@;
            assert(open0.subrange(0, k + 1) =~= open0.subrange(0, k as int).push(c));
            assert forall|q: usize|
                open0.subrange(0, k + 1).contains(q) <==> open0.subrange(0, k as int).contains(q) || q
                    == c by {
                let sub = open0.subrange(0, k + 1);
                let sub0 = open0.subrange(0, k as int);
                if sub.contains(q) {
                    let w = choose|w: int| 0 <= w < sub.len() && sub[w] == q;
                    if w < k {
                        assert(sub0[w] == q);
                    }
                }
                if sub0.contains(q) {
                    let w = choose|w: int| 0 <= w < sub0.len() && sub0[w] == q;
                    assert(sub[w] == q);
                }
                if q == c {
                    assert(sub[k as int] == q);
                }
            }
            if c < self.cells.len() {
                if let UpValue::Open(off) = self.cells[c] {
                    if off >= end {
                        let v = if off < self.stack.len() {
                            self.stack[off]
                        } else {
                            Value::Nil
                        };
                        self.cells.set(c, UpValue::Closed(v));
                    } else {
                        kept.push(c);
                    }
                }
            }
            proof {
                reveal_with_fuel(Seq::filter, 1);
                assert(open0.subrange(0, k + 1).drop_last() =~= open0.subrange(0, k as int));
                let opened = c < cells0.len() && cprev[c as int] is Open;
                assert(kept@ == if opened && cprev[c as int]->Open_0 < end {
                    prev.push(c)
                } else {
                    prev
                });
                assert(self.cells@ == if opened && cprev[c as int]->Open_0 >= end {
                    cprev.update(
                        c as int,
                        UpValue::Closed(slot_value(old(self).stack@, cprev[c as int]->Open_0)),
                    )
                } else {
                    cprev
                });
                assert(open0[k as int] == c);
                assert forall|q: usize| q < cells0.len() implies self.cells@[q as int] == if open0.subrange(
                    0,
                    k + 1,
                ).contains(q) && closes(cells0, open0, end, q) {
                    UpValue::Closed(slot_value(old(self).stack@, cells0[q as int]->Open_0))
                } else {
                    cells0[q as int]
                } by {
                    let was = if open0.subrange(0, k as int).contains(q) && closes(cells0, open0, end, q) {
                        UpValue::Closed(slot_value(old(self).stack@, cells0[q as int]->Open_0))
                    } else {
                        cells0[q as int]
                    };
                    assert(cprev[q as int] == was);
                    if q == c {
                        assert(open0.contains(c));
                        assert(open0.subrange(0, k + 1).contains(c));
                    }
                }
            }
            proof {
                assert forall|q: usize|
                    kept@.contains(q) <==> open0.subrange(0, k + 1).contains(q) && q < cells0.len()
                        && cells0[q as int] is Open && !closes(cells0, open0, end, q) by {
                    if kept@.contains(q) {
                        let w = choose|w: int| 0 <= w < kept@.len() && kept@[w] == q;
                        if w < prev.len() {
                            assert(prev[w] == q);
                        }
                    }
                    if prev.contains(q) {
                        let w = choose|w: int| 0 <= w < prev.len() && prev[w] == q;
                        assert(kept@[w] == q);
                    }
                    if kept@.len() > prev.len() {
                        assert(kept@[prev.len() as int] == c);
                    }
                }
            }
            k = k + 1;
        }
        assert(open0.subrange(0, open0.len() as int) =~= open0);
        self.open_upvalues = kept;
        proof {
            if open_wf(cells0, open0) {
                let open1 = self.open_upvalues@;
                let cells1 = self.cells@;
                assert forall|k: int| 0 <= k < open1.len() implies #[trigger] open1[k] < cells1.len()
                    && cells1[open1[k] as int] is Open by {
                    assert(open1.contains(open1[k]));
                }
                assert forall|i: int, j: int|
                    0 <= i < open1.len() && 0 <= j < open1.len() && cells1[#[trigger] open1[i] as int]
                        == cells1[#[trigger] open1[j] as int] implies open1[i] == open1[j] by {
                    assert(open1.contains(open1[i]));
                    assert(open1.contains(open1[j]));
                    let wi = choose|w: int| 0 <= w < open0.len() && open0[w] == open1[i];
                    let wj = choose|w: int| 0 <= w < open0.len() && open0[w] == open1[j];
                    assert(cells0[open0[wi] as int] == cells0[open0[wj] as int]);
                }
            }
        }
    }

    /// The closure run by the newest frame.
    pub open spec fn cur_closure(&self) -> Option<Closure> {
        if self.frames@.len() > 0 && self.heap.is_live(self.frames@.last().closure)
            && self.heap.object(self.frames@.last().closure) is Closure {
            Some(self.heap.object(self.frames@.last().closure)->Closure_0)
        } else {
            None
        }
    }

    /// The cell behind upvalue `idx` of the running closure.
    pub open spec fn upvalue_cell(&self, idx: u8) -> Option<usize> {
        if self.cur_closure() is Some && (idx as int) < self.cur_closure().unwrap().upvalues@.len()
            && self.cur_closure().unwrap().upvalues@[idx as int] < self.cells@.len() {
            Some(self.cur_closure().unwrap().upvalues@[idx as int])
        } else {
            None
        }
    }

    /// What upvalue `idx` of the running closure holds: the stack slot of an
    /// open cell, or the value of a closed one.
    pub open spec fn upvalue_read(&self, idx: u8) -> Option<Value> {
        match self.upvalue_cell(idx) {
            Some(c) => match self.cells@[c as int] {
                UpValue::Open(s) => if s < self.stack@.len() {
                    Some(self.stack@[s as int])
                } else {
                    None
                },
                UpValue::Closed(v) => Some(v),
            },
            None => None,
        }
    }

    fn closure_cell(&self, idx: u8) -> (r: Option<usize>)
        ensures
            r == self.upvalue_cell(idx),
    {
        let n = self.frames.len();
        if n == 0 {
            return None;
        }
        match self.heap.get(self.frames[n - 1].closure) {
            Some(Object::Closure(c)) => {
                if (idx as usize) < c.upvalues.len() && c.upvalues[idx as usize] < self.cells.len() {
                    Some(c.upvalues[idx as usize])
                } else {
                    None
                }
            },
            _ => None,
        }
    }

    /// `GetUpvalue idx`: pushes what the upvalue holds.
    pub fn get_upvalue(&mut self, idx: u8) -> (r: Result<(), VmError>)
        ensures
            final(self).same_but_stack(old(self)),
            old(self).upvalue_read(idx) is Some && old(self).stack@.len() < STACK_SIZE ==> r is Ok
                && final(self).stack@ == old(self).stack@.push(old(self).upvalue_read(idx).unwrap()),
            !(old(self).upvalue_read(idx) is Some && old(self).stack@.len() < STACK_SIZE) ==> r is Err,
    {
        let c = match self.closure_cell(idx) {
            Some(c) => c,
            None => return Err(VmError::MalformedCode),
        };
        let v = match self.cells[c] {
            UpValue::Open(s) => {
                if s < self.stack.len() {
                    self.stack[s]
                } else {
                    return Err(VmError::MalformedCode);
                }
            },
            UpValue::Closed(v) => v,
        };
        self.push(v)
    }

    /// `SetUpvalue idx`: stores the top of the stack, without popping it,
    /// through the upvalue: into the stack slot of an open cell, or into a
    /// closed cell.
    pub fn set_upvalue(&mut self, idx: u8) -> (r: Result<(), VmError>)
        ensures
            final(self).frames@ == old(self).frames@,
            final(self).heap == old(self).heap,
            final(self).globals@ == old(self).globals@,
            final(self).open_upvalues@ == old(self).open_upvalues@,
            old(self).upvalue_read(idx) is Some && old(self).stack@.len() > 0 ==> r is Ok && match old(self).cells@[old(self).upvalue_cell(idx).unwrap() as int] {
                UpValue::Open(s) => final(self).stack@ == old(self).stack@.update(
                    s as int,
                    old(self).stack@.last(),
                ) && final(self).cells@ == old(self).cells@,
                UpValue::Closed(_) => final(self).stack@ == old(self).stack@ && final(self).cells@
                    == old(self).cells@.update(
                    old(self).upvalue_cell(idx).unwrap() as int,
                    UpValue::Closed(old(self).stack@.last()),
                ),
            },
            !(old(self).upvalue_read(idx) is Some && old(self).stack@.len() > 0) ==> r is Err,
            old(self).wf() ==> final(self).wf(),
    {
        let v = self.peek()?;
        let c = match self.closure_cell(idx) {
            Some(c) => c,
            None => return Err(VmError::MalformedCode),
        };
        match self.cells[c] {
            UpValue::Open(s) => {
                if s < self.stack.len() {
                    self.stack.set(s, v);
                } else {
                    return Err(VmError::MalformedCode);
                }
            },
            UpValue::Closed(_) => {
                let ghost cells0 = self.cells@;
                self.cells.set(c, UpValue::Closed(v));
                proof {
                    if old(self).wf() {
                        assert forall|k: int| 0 <= k < self.open_upvalues@.len() implies #[trigger] self.open_upvalues@[k]
                            != c by {
                            assert(cells0[self.open_upvalues@[k] as int] is Open);
                        }
                        assert forall|k: int| 0 <= k < self.open_upvalues@.len() implies #[trigger] self.open_upvalues@[k]
                            < self.cells@.len() && self.cells@[self.open_upvalues@[k] as int] is Open by {
                            assert(self.open_upvalues@[k] != c);
                        }
                        assert forall|i: int, j: int|
                            0 <= i < self.open_upvalues@.len() && 0 <= j < self.open_upvalues@.len()
                                && self.cells@[#[trigger] self.open_upvalues@[i] as int]
                                == self.cells@[#[trigger] self.open_upvalues@[j] as int] implies self.open_upvalues@[i]
                            == self.open_upvalues@[j] by {
                            assert(self.open_upvalues@[i] != c);
                            assert(self.open_upvalues@[j] != c);
                        }
                    }
                }
            },
        }
        Ok(())
    }

    /// `CloseUpvalue`: closes the cells over the top slot, then pops it.
    pub fn close_upvalue(&mut self) -> (r: Result<(), VmError>)
        ensures
            final(self).frames@ == old(self).frames@,
            final(self).heap == old(self).heap,
            final(self).globals@ == old(self).globals@,
            old(self).stack@.len() > 0 ==> r is Ok && final(self).stack@ == old(self).stack@.drop_last()
                && final(self).cells@.len() == old(self).cells@.len() && forall|c: usize|
                c < old(self).cells@.len() ==> #[trigger] final(self).cells@[c as int] == if closes(
                    old(self).cells@,
                    old(self).open_upvalues@,
                    (old(self).stack@.len() - 1) as usize,
                    c,
                ) {
                    UpValue::Closed(slot_value(old(self).stack@, old(self).cells@[c as int]->Open_0))
                } else {
                    old(self).cells@[c as int]
                },
            old(self).stack@.len() == 0 ==> r is Err,
            old(self).wf() ==> final(self).wf(),
            old(self).stack@.len() > 0 ==> final(self).open_upvalues@ == old(self).open_upvalues@.filter(
                |c: usize| stays_open(old(self).cells@, (old(self).stack@.len() - 1) as usize, c),
            ),
    {
        let n = self.stack.len();
        if n == 0 {
            return Err(VmError::StackUnderflow);
        }
        self.close_upvalues(n - 1);
        self.stack.pop();
        Ok(())
    }

    /// Calls the value `arity` slots below the top with the `arity` values
    /// above it. A closure of that arity gets a new frame over them; a native
    /// function of that arity is handed to the embedder together with the
    /// callee slot and the arguments, which leave the stack.
    pub fn call(&mut self, arity: u8) -> (r: Result<Step, VmError>)
        ensures
            final(self).heap == old(self).heap,
            final(self).globals@ == old(self).globals@,
            final(self).cells@ == old(self).cells@,
            final(self).open_upvalues@ == old(self).open_upvalues@,
            old(self).stack@.len() < arity + 1 ==> r == Err::<Step, VmError>(VmError::StackUnderflow),
            old(self).stack@.len() >= arity + 1 ==> {
                let start = old(self).stack@.len() - arity - 1;
                let callee = old(self).stack@[start];
                match callee {
                    Value::Obj(h) => if old(self).heap.is_live(h) {
                        match old(self).heap.object(h) {
                            Object::Closure(c) => if c.arity != arity {
                                r == Err::<Step, VmError>(
                                    VmError::ArityMismatch { expected: c.arity, got: arity },
                                ) && final(self).frames@ == old(self).frames@
                            } else if old(self).frames@.len() >= FRAMES_MAX {
                                r == Err::<Step, VmError>(VmError::FrameOverflow)
                            } else {
                                r == Ok::<Step, VmError>(Step::Continue) && final(self).stack@ == old(self).stack@ && final(self).frames@ == old(self).frames@.push(
                                    CallFrame { closure: h, ip: 0, stack_start: start as usize },
                                )
                            },
                            Object::Native(nf) => if nf.arity != arity {
                                r == Err::<Step, VmError>(
                                    VmError::ArityMismatch { expected: nf.arity, got: arity },
                                )
                            } else {
                                r is Ok && r->Ok_0 is Native && r->Ok_0->Native_id == nf.id
                                    && r->Ok_0->Native_args@ == old(self).stack@.subrange(
                                    start,
                                    old(self).stack@.len() as int,
                                ) && final(self).stack@ == old(self).stack@.subrange(0, start)
                                    && final(self).frames@ == old(self).frames@
                            },
                            _ => r == Err::<Step, VmError>(VmError::BadCall),
                        }
                    } else {
                        r == Err::<Step, VmError>(VmError::DanglingHandle)
                    },
                    _ => r == Err::<Step, VmError>(VmError::BadCall),
                }
            },
            r is Err ==> final(self).stack@ == old(self).stack@ && final(self).frames@ == old(self).frames@,
    {
        let last = self.stack.len();
        if last < arity as usize + 1 {
            return Err(VmError::StackUnderflow);
        }
        let start = last - arity as usize - 1;
        let h = match self.stack[start] {
            Value::Obj(h) => h,
            _ => return Err(VmError::BadCall),
        };
        let native = match self.heap.get(h) {
            Some(Object::Closure(c)) => {
                if c.arity != arity {
                    return Err(VmError::ArityMismatch { expected: c.arity, got: arity });
                }
                None
            },
            Some(Object::Native(nf)) => {
                if nf.arity != arity {
                    return Err(VmError::ArityMismatch { expected: nf.arity, got: arity });
                }
                Some(nf.id)
            },
            Some(_) => return Err(VmError::BadCall),
            None => return Err(VmError::DanglingHandle),
        };
        match native {
            None => {
                if self.frames.len() >= FRAMES_MAX {
                    return Err(VmError::FrameOverflow);
                }
                self.frames.push(CallFrame::new(h, start));
                Ok(Step::Continue)
            },
            Some(id) => {
                let mut args: Vec<Value> = Vec::new();
                let mut i = start;
                while i < last
                    invariant
                        start <= i <= last,
                        last == self.stack@.len(),
                        args@ == self.stack@.subrange(start as int, i as int),
                    decreases last - i,
                {
                    args.push(self.stack[i]);
                    assert(args@ =~= self.stack@.subrange(start as int, i + 1));
                    i = i + 1;
                }
                self.stack.truncate(start);
                assert(self.stack@ =~= old(self).stack@.subrange(0, start as int));
                Ok(Step::Native { id, args })
            },
        }
    }

    /// `Return`: pops the result, closes the cells over the returning frame's
    /// slots, drops those slots and the frame, and pushes the result. Once the
    /// outermost frame has returned, execution is over.
    pub fn ret(&mut self) -> (r: Result<Step, VmError>)
        ensures
            final(self).heap == old(self).heap,
            final(self).globals@ == old(self).globals@,
            old(self).frames@.len() == 0 ==> r == Err::<Step, VmError>(VmError::ReturnFromTopLevel),
            old(self).frames@.len() > 0 && old(self).stack@.len() == 0 ==> r is Err,
            old(self).frames@.len() > 0 && old(self).stack@.len() > 0 && old(self).frames@.last().stack_start
                >= old(self).stack@.len() ==> r is Err,
            old(self).frames@.len() > 0 && old(self).stack@.len() > 0 && old(self).frames@.last().stack_start
                < old(self).stack@.len() ==> {
                &&& r is Ok
                &&& r->Ok_0 == if old(self).frames@.len() == 1 {
                    Step::Halted
                } else {
                    Step::Continue
                }
                &&& final(self).frames@ == old(self).frames@.drop_last()
                &&& final(self).stack@ == stack_after_return(
                    old(self).stack@,
                    old(self).frames@.last().stack_start as int,
                )
                &&& final(self).cells@.len() == old(self).cells@.len()
                &&& forall|c: usize|
                    c < old(self).cells@.len() ==> #[trigger] final(self).cells@[c as int] == if closes(
                        old(self).cells@,
                        old(self).open_upvalues@,
                        old(self).frames@.last().stack_start,
                        c,
                    ) {
                        UpValue::Closed(slot_value(old(self).stack@, old(self).cells@[c as int]->Open_0))
                    } else {
                        old(self).cells@[c as int]
                    }
            },
            old(self).wf() ==> final(self).wf(),
            r is Err ==> final(self).stack@ == old(self).stack@ && final(self).frames@ == old(self).frames@
                && final(self).cells@ == old(self).cells@ && final(self).open_upvalues@ == old(self).open_upvalues@,
            r is Ok ==> final(self).open_upvalues@ == old(self).open_upvalues@.filter(
                |c: usize| stays_open(old(self).cells@, old(self).frames@.last().stack_start, c),
            ),
    {
        let n = self.frames.len();
        if n == 0 {
            return Err(VmError::ReturnFromTopLevel);
        }
        let start = self.frames[n - 1].stack_start;
        let len = self.stack.len();
        if len == 0 {
            return Err(VmError::StackUnderflow);
        }
        if start >= len {
            return Err(VmError::MalformedCode);
        }
        let value = self.stack[len - 1];
        self.close_upvalues(start);
        self.frames.pop();
        self.stack.truncate(start);
        self.stack.push(value);
        assert(self.stack@ =~= old(self).stack@.subrange(0, start as int).push(value));
        if n == 1 {
            Ok(Step::Halted)
        } else {
            Ok(Step::Continue)
        }
    }

    /// The function object that `v` refers to.
    pub open spec fn function_of(&self, v: Value) -> Option<Function> {
        match v {
            Value::Obj(h) => if self.heap.is_live(h) && self.heap.object(h) is Function {
                Some(self.heap.object(h)->Function_0)
            } else {
                None
            },
            _ => None,
        }
    }

    /// Whether upvalue pair `i`, whose bytes start `off + 2 * i` bytes past
    /// the newest frame's instruction pointer, can be built: a local slot on
    /// the stack, or an upvalue of the running closure.
    pub open spec fn pair_ok_at(&self, off: int, i: int) -> bool {
        if self.code_at(off + 2 * i) > 0 {
            self.frames@.len() > 0 && self.local_slot(self.code_at(off + 2 * i + 1)) < self.stack@.len()
        } else {
            self.upvalue_cell(self.code_at(off + 2 * i + 1)) is Some
        }
    }

    /// Whether `count` upvalue pairs follow, `off` bytes past the newest
    /// frame's instruction pointer, and each can be built.
    pub open spec fn pairs_ok_at(&self, off: int, count: int) -> bool {
        &&& self.has_bytes(off + 2 * count)
        &&& forall|i: int| 0 <= i < count ==> #[trigger] self.pair_ok_at(off, i)
    }

    /// What upvalue `u`, built from pair `i` (at offset `off`), must be once
    /// the closure is built in state `after`: the open cell over the local's
    /// slot, or the running closure's cell.
    pub open spec fn pair_built_at(&self, off: int, after: VM, i: int, u: usize) -> bool {
        if self.code_at(off + 2 * i) > 0 {
            &&& u < after.cells@.len()
            &&& after.cells@[u as int] == UpValue::Open(self.local_slot(self.code_at(off + 2 * i + 1)) as usize)
            &&& after.open_upvalues@.contains(u)
        } else {
            &&& self.cur_closure() is Some
            &&& (self.code_at(off + 2 * i + 1) as int) < self.cur_closure().unwrap().upvalues@.len()
            &&& u == self.cur_closure().unwrap().upvalues@[self.code_at(off + 2 * i + 1) as int]
        }
    }

    pub open spec fn pair_ok(&self, i: int) -> bool {
        self.pair_ok_at(0, i)
    }

    pub open spec fn pairs_ok(&self, count: int) -> bool {
        &&& self.has_bytes(2 * count)
        &&& forall|i: int| 0 <= i < count ==> #[trigger] self.pair_ok(i)
    }

    pub open spec fn pair_built(&self, after: VM, i: int, u: usize) -> bool {
        self.pair_built_at(0, after, i, u)
    }

    /// `Closure`: builds a closure over the function constant `fval`. Each of
    /// its upvalues is described by a pair of bytes in the code: a local of
    /// the running frame, which is captured, or an upvalue of the running
    /// closure, which is shared.
    pub fn make_closure(&mut self, fval: Value) -> (r: Result<(), VmError>)
        ensures
            final(self).globals@ == old(self).globals@,
            old(self).function_of(fval) is None ==> r is Err,
            r is Ok ==> {
                &&& old(self).function_of(fval) is Some
                &&& old(self).stack@.len() < STACK_SIZE
                &&& final(self).frames@.len() == old(self).frames@.len()
                &&& final(self).stack@.len() == old(self).stack@.len() + 1
                &&& final(self).stack@.subrange(0, old(self).stack@.len() as int) == old(self).stack@
                &&& final(self).stack@.last() is Obj
                &&& final(self).heap.is_live(final(self).stack@.last()->Obj_0)
                &&& final(self).heap.object(final(self).stack@.last()->Obj_0) is Closure
                &&& final(self).heap.object(final(self).stack@.last()->Obj_0)->Closure_0.function
                    == fval->Obj_0
                &&& final(self).heap.object(final(self).stack@.last()->Obj_0)->Closure_0.arity
                    == old(self).function_of(fval).unwrap().arity
                &&& final(self).heap.object(final(self).stack@.last()->Obj_0)->Closure_0.upvalues@.len()
                    == old(self).function_of(fval).unwrap().upvalue_count
            },
            old(self).heap.wf() ==> final(self).heap.wf(),
            old(self).wf() ==> final(self).wf(),
            old(self).function_of(fval) is Some && old(self).pairs_ok(
                old(self).function_of(fval).unwrap().upvalue_count as int,
            ) && old(self).stack@.len() < STACK_SIZE ==> r is Ok,
            r is Ok ==> !old(self).heap.is_live(final(self).stack@.last()->Obj_0) && forall|i: int|
                0 <= i < old(self).function_of(fval).unwrap().upvalue_count ==> old(self).pair_built(
                    *final(self),
                    i,
                    #[trigger] final(self).heap.object(final(self).stack@.last()->Obj_0)->Closure_0.upvalues@[i],
                ),
            r is Ok ==> final(self).frames@ == if old(self).function_of(fval).unwrap().upvalue_count == 0 {
                old(self).frames@
            } else {
                advanced(old(self).frames@, 2 * old(self).function_of(fval).unwrap().upvalue_count)
            },
            r is Ok ==> final(self).cells@.len() >= old(self).cells@.len() && forall|c: int|
                0 <= c < old(self).cells@.len() ==> #[trigger] final(self).cells@[c] == old(self).cells@[c],
            r is Ok ==> forall|c: usize| #[trigger] old(self).open_upvalues@.contains(c) ==> final(self).open_upvalues@.contains(c),
    {
        let fh = match fval {
            Value::Obj(h) => h,
            _ => return Err(VmError::MalformedCode),
        };
        let (count, arity) = match self.heap.get(fh) {
            Some(Object::Function(f)) => (f.upvalue_count, f.arity),
            _ => return Err(VmError::MalformedCode),
        };
        let mut ups: Vec<usize> = Vec::new();
        let mut i: u8 = 0;
        while i < count
            invariant
                self.heap == old(self).heap,
                self.stack@ == old(self).stack@,
                self.globals@ == old(self).globals@,
                self.frames@.len() == old(self).frames@.len(),
                old(self).wf() ==> self.wf(),
                ups@.len() == i,
                i <= count,
                count == old(self).function_of(fval).unwrap().upvalue_count,
                old(self).function_of(fval) is Some,
                i == 0 ==> self.frames@ == old(self).frames@,
                i > 0 ==> old(self).frames@.len() > 0 && self.frames@ == advanced(old(self).frames@, 2 * i)
                    && old(self).cur_ip() + 2 * i <= usize::MAX,
                self.cells@.len() >= old(self).cells@.len(),
                self.cells@.subrange(0, old(self).cells@.len() as int) == old(self).cells@,
                forall|c: usize| #[trigger] old(self).open_upvalues@.contains(c) ==> self.open_upvalues@.contains(c),
                forall|k: int| 0 <= k < i ==> old(self).pair_built(*self, k, #[trigger] ups@[k]),
                self.cur_chunk() == old(self).cur_chunk(),
                self.cur_ip() == old(self).cur_ip() + 2 * i,
                self.cells@.len() < usize::MAX ==> true,
            decreases count - i,
        {
            let ghost pre = *self;
            proof {
                if old(self).pairs_ok(count as int) {
                    assert(old(self).pair_ok(i as int));
                }
            }
            let is_local = self.read_byte()?;
            let idx = self.read_byte()?;
            proof {
                assert(advanced(advanced(pre.frames@, 1), 1) =~= advanced(pre.frames@, 2));
                assert(pre.cur_ip() + 2 <= usize::MAX);
                if i > 0 {
                    assert(pre.cur_ip() == old(self).cur_ip() + 2 * i);
                    assert(advanced(advanced(old(self).frames@, 2 * i), 2) =~= advanced(old(self).frames@, 2 * (i + 1)));
                } else {
                    assert(advanced(old(self).frames@, 2) =~= advanced(old(self).frames@, 2 * (i + 1)));
                }
            }
            let ghost mid = *self;
            proof {
                assert(mid.cur_chunk() == old(self).cur_chunk());
                assert(is_local == old(self).code_at(2 * i));
                assert(idx == old(self).code_at(2 * i + 1));
                assert(mid.local_slot(idx) == old(self).local_slot(idx));
                if old(self).upvalue_cell(idx) is Some {
                    assert(mid.upvalue_cell(idx) == old(self).upvalue_cell(idx));
                }
            }
            let c = if is_local > 0 {
                self.capture_upvalue(idx)?
            } else {
                match self.closure_cell(idx) {
                    Some(c) => c,
                    None => return Err(VmError::MalformedCode),
                }
            };
            proof {
                assert(self.cells@.subrange(0, mid.cells@.len() as int) =~= mid.cells@);
                assert(self.cells@.subrange(0, old(self).cells@.len() as int) =~= old(self).cells@) by {
                    assert(mid.cells@.subrange(0, old(self).cells@.len() as int) == old(self).cells@);
                }
                assert(self.cells@ == mid.cells@ || self.cells@.drop_last() == mid.cells@);
                assert(self.open_upvalues@ == mid.open_upvalues@ || self.open_upvalues@ == mid.open_upvalues@.push(c));
                assert forall|q: usize| #[trigger] mid.open_upvalues@.contains(q) implies self.open_upvalues@.contains(q) by {
                    if self.open_upvalues@ != mid.open_upvalues@ {
                        let w = choose|w: int| 0 <= w < mid.open_upvalues@.len() && mid.open_upvalues@[w] == q;
                        assert(self.open_upvalues@[w] == q);
                    }
                }
                assert forall|k: int| 0 <= k < i implies old(self).pair_built(*self, k, #[trigger] ups@[k]) by {
                    assert(old(self).pair_built(mid, k, ups@[k]));
                    if old(self).code_at(2 * k) > 0 {
                        assert(self.cells@.subrange(0, mid.cells@.len() as int)[ups@[k] as int] == mid.cells@[ups@[k] as int]);
                    }
                }
            }
            ups.push(c);
            proof {
                assert forall|k: int| 0 <= k < i + 1 implies old(self).pair_built(*self, k, #[trigger] ups@[k]) by {
                    if k == i {
                        assert(old(self).code_at(2 * k) == is_local);
                        assert(old(self).code_at(2 * k + 1) == idx);
                        assert(ups@[k] == c);
                        assert(mid.cur_closure() == old(self).cur_closure());
                        if is_local > 0 && self.open_upvalues@ != mid.open_upvalues@ {
                            assert(self.open_upvalues@[mid.open_upvalues@.len() as int] == c);
                        }
                    }
                }
            }
            i = i + 1;
        }
        let ghost built = ups@;
        if self.stack.len() >= STACK_SIZE {
            return Err(VmError::StackOverflow);
        }
        let ghost before_alloc = *self;
        let h = self.allocate(Object::Closure(Closure::new(fh, arity, ups)));
        self.stack.push(Value::Obj(h));
        assert(self.stack@.subrange(0, old(self).stack@.len() as int) =~= old(self).stack@);
        assert(forall|k: int| 0 <= k < count ==> old(self).pair_built(before_alloc, k, #[trigger] built[k]));
        assert forall|c: int| 0 <= c < old(self).cells@.len() implies #[trigger] self.cells@[c] == old(self).cells@[c] by {
            assert(before_alloc.cells@.subrange(0, old(self).cells@.len() as int)[c] == old(self).cells@[c]);
        }
        Ok(())
    }

    /// `List n`: pops `n` values, the top first, and pushes a new list that
    /// holds them in that order.
    fn list(&mut self, n: u8) -> (r: Result<(), VmError>)
        ensures
            final(self).globals@ == old(self).globals@,
            final(self).frames@ == old(self).frames@,
            old(self).stack@.len() < n ==> r == Err::<(), VmError>(VmError::StackUnderflow),
            old(self).stack@.len() >= n && old(self).stack@.len() - n >= STACK_SIZE ==> r is Err,
            old(self).stack@.len() >= n && old(self).stack@.len() - n < STACK_SIZE ==> {
                let base = old(self).stack@.len() - n;
                &&& r is Ok
                &&& final(self).stack@.len() == base + 1
                &&& final(self).stack@.subrange(0, base) == old(self).stack@.subrange(0, base)
                &&& final(self).stack@.last() is Obj
                &&& final(self).heap.is_live(final(self).stack@.last()->Obj_0)
                &&& final(self).heap.object(final(self).stack@.last()->Obj_0) is List
                &&& final(self).heap.object(final(self).stack@.last()->Obj_0)->List_0@.len() == n
                &&& forall|i: int|
                    0 <= i < n ==> #[trigger] final(self).heap.object(
                        final(self).stack@.last()->Obj_0,
                    )->List_0@[i] == old(self).stack@[old(self).stack@.len() - 1 - i]
            },
            old(self).heap.wf() ==> final(self).heap.wf(),
            old(self).wf() ==> final(self).wf(),
            r is Ok ==> !old(self).heap.is_live(final(self).stack@.last()->Obj_0),
    {
        let len = self.stack.len();
        if len < n as usize {
            return Err(VmError::StackUnderflow);
        }
        if len - n as usize >= STACK_SIZE {
            return Err(VmError::StackOverflow);
        }
        let mut content: Vec<Value> = Vec::new();
        let mut i: u8 = 0;
        while i < n
            invariant
                i <= n,
                n <= len,
                len == old(self).stack@.len(),
                self.stack@ == old(self).stack@.subrange(0, len - i),
                content@.len() == i,
                forall|k: int| 0 <= k < i ==> content@[k] == old(self).stack@[len - 1 - k],
                self.globals@ == old(self).globals@,
                self.frames@ == old(self).frames@,
                self.heap == old(self).heap,
                self.cells@ == old(self).cells@,
                self.open_upvalues@ == old(self).open_upvalues@,
            decreases n - i,
        {
            let v = self.stack.pop().unwrap();
            assert(self.stack@ =~= old(self).stack@.subrange(0, len - i - 1));
            content.push(v);
            i = i + 1;
        }
        let h = self.allocate(Object::List(content));
        self.stack.push(Value::Obj(h));
        assert(self.stack@.subrange(0, len - n) =~= old(self).stack@.subrange(0, len - n));
        Ok(())
    }

    /// The list object that `v` refers to.
    pub open spec fn list_of(&self, v: Value) -> Option<Seq<Value>> {
        match v {
            Value::Obj(h) => if self.heap.is_live(h) && self.heap.object(h) is List {
                Some(self.heap.object(h)->List_0@)
            } else {
                None
            },
            _ => None,
        }
    }

    /// `GetElement`: pops an index and a list and pushes the element there,
    /// or nil when the index is past the end.
    fn get_element(&mut self) -> (r: Result<(), VmError>)
        ensures
            final(self).frames@ == old(self).frames@,
            final(self).heap == old(self).heap,
            final(self).globals@ == old(self).globals@,
            old(self).stack@.len() < 2 ==> r == Err::<(), VmError>(VmError::StackUnderflow),
            old(self).stack@.len() >= 2 ==> {
                let idx = old(self).stack@.last();
                let list = old(self).stack@[old(self).stack@.len() - 2];
                let base = old(self).stack@.subrange(0, old(self).stack@.len() - 2);
                if !(idx is Num) {
                    r == Err::<(), VmError>(VmError::NonNumericIndex)
                } else if old(self).list_of(list) is None {
                    r == Err::<(), VmError>(VmError::IndexIntoNonList)
                } else {
                    let l = old(self).list_of(list).unwrap();
                    let i = index_of_bits(idx->Num_0);
                    r is Ok && final(self).stack@ == base.push(
                        if i is Some && i->Some_0 < l.len() {
                            l[i->Some_0 as int]
                        } else {
                            Value::Nil
                        },
                    )
                }
            },
            old(self).wf() ==> final(self).wf(),
    {
        let idx = self.pop()?;
        let list = self.pop()?;
        let bits = match idx {
            Value::Num(b) => b,
            _ => return Err(VmError::NonNumericIndex),
        };
        let i = index_from_bits(bits);
        let element = match list {
            Value::Obj(h) => match self.heap.get(h) {
                Some(Object::List(l)) => match i {
                    Some(i) => {
                        if i < l.len() as u64 {
                            l[i as usize]
                        } else {
                            Value::Nil
                        }
                    },
                    None => Value::Nil,
                },
                _ => return Err(VmError::IndexIntoNonList),
            },
            _ => return Err(VmError::IndexIntoNonList),
        };
        self.stack.push(element);
        assert(self.stack@.drop_last() =~= old(self).stack@.subrange(0, old(self).stack@.len() - 2));
        Ok(())
    }

    /// `SetElement`: pops an index, a list and a value, and stores the value
    /// in the list: at an index inside it, or appended at the index one past
    /// its end.
    fn set_element(&mut self) -> (r: Result<(), VmError>)
        ensures
            final(self).frames@ == old(self).frames@,
            final(self).globals@ == old(self).globals@,
            old(self).stack@.len() < 3 ==> r is Err,
            old(self).stack@.len() >= 3 ==> {
                let idx = old(self).stack@.last();
                let list = old(self).stack@[old(self).stack@.len() - 2];
                let value = old(self).stack@[old(self).stack@.len() - 3];
                if !(idx is Num) {
                    r == Err::<(), VmError>(VmError::NonNumericIndex)
                } else if old(self).list_of(list) is None {
                    r == Err::<(), VmError>(VmError::IndexIntoNonList)
                } else {
                    let l = old(self).list_of(list).unwrap();
                    let i = index_of_bits(idx->Num_0);
                    if i is None || i->Some_0 > l.len() {
                        r == Err::<(), VmError>(VmError::IndexOutOfRange)
                    } else {
                        &&& r is Ok
                        &&& final(self).stack@ == old(self).stack@.subrange(
                            0,
                            old(self).stack@.len() - 3,
                        )
                        &&& final(self).list_of(list) == Some(
                            if i->Some_0 < l.len() {
                                l.update(i->Some_0 as int, value)
                            } else {
                                l.push(value)
                            },
                        )
                        &&& forall|p: Handle|
                            p != list->Obj_0 && old(self).heap.is_live(p) ==> final(self).heap.is_live(p)
                                && final(self).heap.object(p) == old(self).heap.object(p)
                    }
                }
            },
            old(self).heap.wf() ==> final(self).heap.wf(),
            old(self).wf() ==> final(self).wf(),
            r is Err ==> final(self).stack@ == old(self).stack@ && final(self).heap == old(self).heap,
    {
        let n = self.stack.len();
        if n < 3 {
            return Err(VmError::StackUnderflow);
        }
        let idx = self.stack[n - 1];
        let list = self.stack[n - 2];
        let value = self.stack[n - 3];
        let bits = match idx {
            Value::Num(b) => b,
            _ => return Err(VmError::NonNumericIndex),
        };
        let i = index_from_bits(bits);
        let h = match list {
            Value::Obj(h) => h,
            _ => return Err(VmError::IndexIntoNonList),
        };
        let len = match self.heap.get(h) {
            Some(Object::List(l)) => l.len(),
            _ => return Err(VmError::IndexIntoNonList),
        };
        let i = match i {
            Some(i) => i,
            None => return Err(VmError::IndexOutOfRange),
        };
        if i > len as u64 {
            return Err(VmError::IndexOutOfRange);
        }
        self.stack.truncate(n - 3);
        let ghost hb = self.heap;
        self.heap.list_set(h, i as usize, value);
        proof {
            if old(self).wf() {
                assert forall|q: Handle| #[trigger] self.heap.is_live(q) && self.heap.object(q) is Function implies jumps_land(
                    self.heap.object(q)->Function_0.chunk,
                ) by {
                    if q != h {
                        assert(hb.is_live(q));
                    }
                }
            }
        }
        Ok(())
    }

    /// `Jmp target`: continues at `target`.
    pub fn jmp(&mut self, target: u16) -> (r: Result<(), VmError>)
        ensures
            final(self).unchanged_but_frames(old(self)),
            old(self).frames@.len() > 0 ==> r is Ok && final(self).frames@ == jumped(
                old(self).frames@,
                target as int,
            ),
            old(self).frames@.len() == 0 ==> r is Err,
    {
        self.jmp_to(target as usize)
    }

    /// `Jze target`: continues at `target` when the top of the stack is
    /// falsy; the value stays on the stack.
    pub fn jze(&mut self, target: u16) -> (r: Result<(), VmError>)
        ensures
            final(self).unchanged_but_frames(old(self)),
            old(self).frames@.len() > 0 && old(self).stack@.len() > 0 ==> r is Ok && final(self).frames@ == if is_truthy(old(self).stack@.last()) {
                old(self).frames@
            } else {
                jumped(old(self).frames@, target as int)
            },
            !(old(self).frames@.len() > 0 && old(self).stack@.len() > 0) ==> r is Err,
    {
        let v = self.peek()?;
        if self.frames.len() == 0 {
            return Err(VmError::MalformedCode);
        }
        if !v.truthy() {
            self.jmp(target)
        } else {
            Ok(())
        }
    }

    /// `Loop delta`: moves the instruction pointer back by `delta`.
    fn op_loop(&mut self, delta: u16) -> (r: Result<(), VmError>)
        ensures
            final(self).unchanged_but_frames(old(self)),
            old(self).frames@.len() > 0 && delta <= old(self).cur_ip() ==> r is Ok && final(self).frames@ == jumped(old(self).frames@, old(self).cur_ip() - delta),
            !(old(self).frames@.len() > 0 && delta <= old(self).cur_ip()) ==> r is Err,
    {
        let n = self.frames.len();
        if n == 0 {
            return Err(VmError::MalformedCode);
        }
        let ip = self.frames[n - 1].ip;
        if (delta as usize) > ip {
            return Err(VmError::MalformedCode);
        }
        self.jmp_to(ip - delta as usize)
    }

    fn jmp_to(&mut self, target: usize) -> (r: Result<(), VmError>)
        ensures
            final(self).unchanged_but_frames(old(self)),
            old(self).frames@.len() > 0 ==> r is Ok && final(self).frames@ == jumped(
                old(self).frames@,
                target as int,
            ),
            old(self).frames@.len() == 0 ==> r is Err,
    {
        let n = self.frames.len();
        if n == 0 {
            return Err(VmError::MalformedCode);
        }
        let mut f = self.frames[n - 1];
        f.ip = target;
        self.frames.set(n - 1, f);
        assert(self.frames@ =~= jumped(old(self).frames@, target as int));
        Ok(())
    }

    /// Carries out the instruction `op`, reading its operands from the code.
    fn dispatch(&mut self, op: u8) -> (r: Result<Step, VmError>)
        ensures
            op > OP_PRINT ==> r == Err::<Step, VmError>(VmError::MalformedCode),
            op == OP_CALL && old(self).has_bytes(1) && closure_arity_mismatch(
                old(self).heap,
                old(self).stack@,
                old(self).code_at(0),
            ) is Some ==> r == Err::<Step, VmError>(
                VmError::ArityMismatch {
                    expected: closure_arity_mismatch(
                        old(self).heap,
                        old(self).stack@,
                        old(self).code_at(0),
                    ).unwrap(),
                    got: old(self).code_at(0),
                },
            ) && final(self).frames@ == advanced(old(self).frames@, 1) && final(self).stack@ == old(self).stack@
                && final(self).globals@ == old(self).globals@,
            simple_effect(
                op,
                old(self).stack@,
                old(self).frames@,
                old(self).heap,
                old(self).globals@,
                *final(self),
                r,
            ),
            operand_effect(op, *old(self), *final(self), r, 0),
            r is Ok && old(self).stack@.len() <= STACK_SIZE ==> final(self).stack@.len() <= STACK_SIZE,
            r is Ok && old(self).frames@.len() <= FRAMES_MAX ==> final(self).frames@.len() <= FRAMES_MAX,
            old(self).heap.wf() ==> final(self).heap.wf(),
            old(self).wf() ==> final(self).wf(),
    {
        if op == OP_CONSTANT {
            let v = self.read_constant()?;
            self.push(v)?;
        } else if op == OP_IMMEDIATE {
            let bits = self.read_u64()?;
            self.push(Value::from_raw(bits))?;
        } else if op == OP_NIL {
            self.push(Value::nil())?;
        } else if op == OP_TRUE {
            self.push(Value::truelit())?;
        } else if op == OP_FALSE {
            self.push(Value::falselit())?;
        } else if op == OP_POP {
            self.pop()?;
        } else if op == OP_GET_LOCAL {
            let idx = self.read_byte()?;
            self.get_local(idx)?;
        } else if op == OP_SET_LOCAL {
            let idx = self.read_byte()?;
            self.set_local(idx)?;
        } else if op == OP_GET_GLOBAL {
            let name = self.read_constant()?;
            self.get_global(name)?;
        } else if op == OP_DEFINE_GLOBAL {
            let name = self.read_constant()?;
            self.define_global(name)?;
        } else if op == OP_SET_GLOBAL {
            let name = self.read_constant()?;
            self.set_global(name)?;
        } else if op == OP_GET_UPVALUE {
            let idx = self.read_byte()?;
            self.get_upvalue(idx)?;
        } else if op == OP_SET_UPVALUE {
            let idx = self.read_byte()?;
            self.set_upvalue(idx)?;
        } else if op == OP_ADD {
            return self.binary(ArithOp::Add);
        } else if op == OP_SUB {
            return self.binary(ArithOp::Sub);
        } else if op == OP_MUL {
            return self.binary(ArithOp::Mul);
        } else if op == OP_DIV {
            return self.binary(ArithOp::Div);
        } else if op == OP_REM {
            return self.binary(ArithOp::Rem);
        } else if op == OP_NEG {
            return self.negate();
        } else if op == OP_EQ {
            self.op_eq()?;
        } else if op == OP_LT {
            return self.binary(ArithOp::Lt);
        } else if op == OP_GT {
            return self.binary(ArithOp::Gt);
        } else if op == OP_NOT {
            self.op_not()?;
        } else if op == OP_JMP {
            let target = self.read_u16()?;
            proof {
                lemma_jumped_advanced(old(self).frames@, 2, target as int);
            }
            self.jmp(target)?;
        } else if op == OP_JZE {
            let target = self.read_u16()?;
            proof {
                lemma_jumped_advanced(old(self).frames@, 2, target as int);
            }
            self.jze(target)?;
        } else if op == OP_LOOP {
            let delta = self.read_u16()?;
            proof {
                let ch = old(self).cur_chunk().unwrap();
                if old(self).has_bytes(2) {
                    assert(ch.code.len() == ch.code@.len());
                    assert(self.cur_ip() == old(self).cur_ip() + 2);
                }
                lemma_jumped_advanced(old(self).frames@, 2, self.cur_ip() - delta);
            }
            self.op_loop(delta)?;
        } else if op == OP_CALL {
            let arity = self.read_byte()?;
            return self.call(arity);
        } else if op == OP_CLOSURE {
            let f = self.read_constant()?;
            proof {
                if old(self).has_bytes(1) {
                    let ch = old(self).cur_chunk().unwrap();
                    assert(ch.code.len() == ch.code@.len());
                    assert(self.cur_chunk() == old(self).cur_chunk());
                    assert(self.cur_ip() == old(self).cur_ip() + 1);
                    assert forall|j: int| #[trigger] self.code_at(j) == old(self).code_at(j + 1) by {
                        assert(self.cur_ip() + j == old(self).cur_ip() + (j + 1));
                    }
                    assert(self.cur_closure() == old(self).cur_closure());
                    assert forall|i: int| #[trigger] self.pair_ok_at(0, i) == old(self).pair_ok_at(1, i) by {
                        assert(self.code_at(2 * i) == old(self).code_at(1 + 2 * i));
                        assert(self.code_at(2 * i + 1) == old(self).code_at(1 + 2 * i + 1));
                    }
                    assert forall|i: int, after: VM, u: usize| #[trigger] self.pair_built_at(0, after, i, u) == old(self).pair_built_at(1, after, i, u) by {
                        assert(self.code_at(2 * i) == old(self).code_at(1 + 2 * i));
                        assert(self.code_at(2 * i + 1) == old(self).code_at(1 + 2 * i + 1));
                    }
                    assert forall|k: int| 0 <= k implies #[trigger] advanced(self.frames@, k) == advanced(
                        old(self).frames@,
                        1 + k,
                    ) by {
                        lemma_advanced_twice(old(self).frames@, 1, k);
                    }
                    assert(advanced(old(self).frames@, 1) == self.frames@);
                    assert forall|fv: Value| #[trigger] self.function_of(fv) == old(self).function_of(fv) by {}
                    assert forall|cnt: int| #[trigger] old(self).pairs_ok_at(1, cnt) implies self.pairs_ok(cnt) by {
                        assert forall|i: int| 0 <= i < cnt implies #[trigger] self.pair_ok(i) by {
                            assert(old(self).pair_ok_at(1, i));
                            assert(self.pair_ok_at(0, i) == old(self).pair_ok_at(1, i));
                        }
                    }
                }
            }
            self.make_closure(f)?;
        } else if op == OP_CLOSE_UPVALUE {
            self.close_upvalue()?;
        } else if op == OP_RETURN {
            return self.ret();
        } else if op == OP_LIST {
            let n = self.read_byte()?;
            self.list(n)?;
        } else if op == OP_GET_ELEMENT {
            self.get_element()?;
        } else if op == OP_SET_ELEMENT {
            self.set_element()?;
        } else if op == OP_PRINT {
            let v = self.pop()?;
            return Ok(Step::Print(v));
        } else {
            return Err(VmError::MalformedCode);
        }
        Ok(Step::Continue)
    }

    /// Runs one instruction of the newest frame and says what is left for
    /// the embedder to do. With no frame left, execution is over.
    pub fn step(&mut self) -> (r: Step)
        ensures
            old(self).frames@.len() == 0 ==> r == Step::Halted && final(self).stack@ == old(self).stack@,
            old(self).frames@.len() > 0 && !old(self).has_bytes(1) ==> r is Fault,
            old(self).has_bytes(1) && old(self).code_at(0) > OP_PRINT ==> r == Step::Fault(
                VmError::MalformedCode,
            ),
            old(self).has_bytes(2) && old(self).code_at(0) == OP_CALL && closure_arity_mismatch(
                old(self).heap,
                old(self).stack@,
                old(self).code_at(1),
            ) is Some ==> r == Step::Fault(
                VmError::ArityMismatch {
                    expected: closure_arity_mismatch(
                        old(self).heap,
                        old(self).stack@,
                        old(self).code_at(1),
                    ).unwrap(),
                    got: old(self).code_at(1),
                },
            ) && final(self).frames@ == advanced(old(self).frames@, 2) && final(self).stack@ == old(self).stack@
                && final(self).globals@ == old(self).globals@,
            old(self).has_bytes(1) ==> simple_effect(
                old(self).code_at(0),
                old(self).stack@,
                advanced(old(self).frames@, 1),
                old(self).heap,
                old(self).globals@,
                *final(self),
                match r {
                    Step::Fault(e) => Err::<Step, VmError>(e),
                    other => Ok::<Step, VmError>(other),
                },
            ),
            old(self).has_bytes(1) ==> operand_effect(
                old(self).code_at(0),
                *old(self),
                *final(self),
                match r {
                    Step::Fault(e) => Err::<Step, VmError>(e),
                    other => Ok::<Step, VmError>(other),
                },
                1,
            ),
            !(r is Fault) && old(self).stack@.len() <= STACK_SIZE ==> final(self).stack@.len() <= STACK_SIZE,
            !(r is Fault) && old(self).frames@.len() <= FRAMES_MAX ==> final(self).frames@.len() <= FRAMES_MAX,
            old(self).heap.wf() ==> final(self).heap.wf(),
            old(self).wf() ==> final(self).wf(),
    {
        if self.frames.len() == 0 {
            return Step::Halted;
        }
        let op = match self.read_byte() {
            Ok(op) => op,
            Err(e) => return Step::Fault(e),
        };
        proof {
            assert(self.cur_chunk() == old(self).cur_chunk());
            if old(self).has_bytes(2) {
                assert(self.cur_ip() == old(self).cur_ip() + 1);
                assert(self.has_bytes(1));
                assert(self.code_at(0) == old(self).code_at(1));
            }
            assert(advanced(self.frames@, 1) =~= advanced(old(self).frames@, 2));
            if old(self).has_bytes(1) {
                let ch = old(self).cur_chunk().unwrap();
                assert(ch.code.len() == ch.code@.len());
                assert(self.frames@.last().ip == old(self).cur_ip() + 1);
                lemma_jumped_advanced(old(self).frames@, 1, 0);
                assert forall|t: int| jumped(self.frames@, t) == jumped(old(self).frames@, t) by {
                    lemma_jumped_advanced(old(self).frames@, 1, t);
                }
                assert forall|k: int| 0 <= k implies #[trigger] advanced(self.frames@, k) == advanced(
                    old(self).frames@,
                    1 + k,
                ) by {
                    lemma_advanced_twice(old(self).frames@, 1, k);
                }
                assert forall|j: int| #[trigger] self.code_at(j) == old(self).code_at(j + 1) by {
                    assert(self.cur_ip() + j == old(self).cur_ip() + (j + 1));
                }
                assert forall|fv: Value| #[trigger] self.function_of(fv) == old(self).function_of(fv) by {}
                assert forall|o: int, i: int| #[trigger] self.pair_ok_at(o, i) == old(self).pair_ok_at(o + 1, i) by {
                    assert(self.code_at(o + 2 * i) == old(self).code_at(o + 1 + 2 * i));
                    assert(self.code_at(o + 2 * i + 1) == old(self).code_at(o + 1 + 2 * i + 1));
                }
                assert forall|o: int, cnt: int| #[trigger] old(self).pairs_ok_at(o + 1, cnt) implies self.pairs_ok_at(o, cnt) by {
                    assert(self.cur_ip() + o + 2 * cnt == old(self).cur_ip() + (o + 1 + 2 * cnt));
                    assert forall|i: int| 0 <= i < cnt implies #[trigger] self.pair_ok_at(o, i) by {
                        assert(old(self).pair_ok_at(o + 1, i));
                        assert(self.code_at(o + 2 * i) == old(self).code_at(o + 1 + 2 * i));
                        assert(self.code_at(o + 2 * i + 1) == old(self).code_at(o + 1 + 2 * i + 1));
                    }
                }
                assert forall|o: int, after: VM, i: int, u: usize| #[trigger] self.pair_built_at(o, after, i, u)
                    == old(self).pair_built_at(o + 1, after, i, u) by {
                    assert(self.code_at(o + 2 * i) == old(self).code_at(o + 1 + 2 * i));
                    assert(self.code_at(o + 2 * i + 1) == old(self).code_at(o + 1 + 2 * i + 1));
                }
                assert forall|k: int| old(self).has_bytes(k + 1) implies #[trigger] self.has_bytes(k) && (k >= 1
                    ==> self.code_at(0) == old(self).code_at(1)) by {
                }
                assert(self.cur_closure() == old(self).cur_closure());
                assert forall|x: u8| #[trigger] self.upvalue_read(x) == old(self).upvalue_read(x)
                    && self.local_slot(x) == old(self).local_slot(x) by {
                }
            }
        }
        match self.dispatch(op) {
            Ok(s) => s,
            Err(e) => Step::Fault(e),
        }
    }

    /// Compiles `program` into a top-level function whose objects live in
    /// this machine's heap; every object already there stays as it was.
    pub fn compile(&mut self, program: &Vec<Expr>) -> (r: Result<Function, CompileError>)
        ensures
            heap_grows(old(self).heap, final(self).heap),
            final(self).stack@ == old(self).stack@,
            final(self).frames@ == old(self).frames@,
            final(self).globals@ == old(self).globals@,
            r is Ok ==> r->Ok_0.arity == 0 && r->Ok_0.upvalue_count == 0 && r->Ok_0.chunk.code@.len() > 0
                && r->Ok_0.chunk.code@.last() == OP_RETURN,
            r is Ok ==> jumps_land(r->Ok_0.chunk),
            functions_land(old(self).heap) ==> functions_land(final(self).heap),
            program@.len() == 0 ==> r is Ok && r->Ok_0.chunk.code@ == seq![OP_NIL, OP_RETURN],
            r is Ok ==> r->Ok_0.chunk.code@.len() >= program@.len() + 2,
            old(self).heap.wf() ==> final(self).heap.wf(),
            old(self).wf() ==> final(self).wf(),
    {
        compile(&mut self.heap, program)
    }

    /// Starts running `function`, which takes no arguments: a closure over it
    /// goes to the bottom of its frame and a frame is pushed for it.
    pub fn start(&mut self, function: Function) -> (r: Result<(), VmError>)
        ensures
            function.arity != 0 ==> r == Err::<(), VmError>(
                VmError::ArityMismatch { expected: function.arity, got: 0 },
            ),
            function.arity == 0 && old(self).stack@.len() >= STACK_SIZE ==> r == Err::<(), VmError>(
                VmError::StackOverflow,
            ),
            function.arity == 0 && old(self).stack@.len() < STACK_SIZE && old(self).frames@.len()
                >= FRAMES_MAX ==> r == Err::<(), VmError>(VmError::FrameOverflow),
            r is Ok ==> {
                &&& final(self).frames@.len() == old(self).frames@.len() + 1
                &&& final(self).frames@.last().ip == 0
                &&& final(self).frames@.last().stack_start == old(self).stack@.len()
                &&& final(self).stack@.len() == old(self).stack@.len() + 1
                &&& final(self).stack@.last() == Value::Obj(final(self).frames@.last().closure)
                &&& chunk_of_spec(final(self).heap, final(self).frames@.last().closure) == Some(
                    function.chunk,
                )
            },
            function.arity == 0 && old(self).stack@.len() < STACK_SIZE && old(self).frames@.len()
                < FRAMES_MAX ==> r is Ok,
            final(self).globals@ == old(self).globals@,
            old(self).heap.wf() ==> final(self).heap.wf(),
            old(self).wf() && jumps_land(function.chunk) ==> final(self).wf(),
    {
        let arity = function.arity;
        if arity != 0 {
            return Err(VmError::ArityMismatch { expected: arity, got: 0 });
        }
        if self.stack.len() >= STACK_SIZE {
            return Err(VmError::StackOverflow);
        }
        if self.frames.len() >= FRAMES_MAX {
            return Err(VmError::FrameOverflow);
        }
        let ghost chunk = function.chunk;
        let fh = self.allocate(Object::Function(function));
        let obj = Object::Closure(Closure::new(fh, arity, Vec::new()));
        assert(refers_to(self.cells@, obj, fh)) by {
            assert(crate::object::child_values(self.cells@, obj)[0] == Value::Obj(fh));
        }
        let ch = self.allocate(obj);
        self.stack.push(Value::Obj(ch));
        self.frames.push(CallFrame::new(ch, self.stack.len() - 1));
        Ok(())
    }

    /// Compiles `atoms` and starts running them: a closure over the
    /// compiled top level goes on the stack and gets the first frame. The
    /// embedder then calls `step` until execution is over.
    pub fn exec(&mut self, atoms: &Vec<Expr>) -> (r: Result<(), VmError>)
        ensures
            final(self).globals@ == old(self).globals@,
            r is Ok ==> {
                &&& final(self).frames@.len() == old(self).frames@.len() + 1
                &&& final(self).frames@.last().ip == 0
                &&& final(self).frames@.last().stack_start == old(self).stack@.len()
                &&& final(self).stack@.len() == old(self).stack@.len() + 1
                &&& final(self).stack@.last() == Value::Obj(final(self).frames@.last().closure)
                &&& chunk_of_spec(final(self).heap, final(self).frames@.last().closure) is Some
                &&& chunk_of_spec(final(self).heap, final(self).frames@.last().closure).unwrap().code@.last()
                    == OP_RETURN
            },
            r is Err && !(r->Err_0 is Compile) ==> old(self).stack@.len() >= STACK_SIZE || old(self).frames@.len() >= FRAMES_MAX,
            atoms@.len() == 0 && old(self).stack@.len() < STACK_SIZE && old(self).frames@.len() < FRAMES_MAX ==> r is Ok,
            old(self).heap.wf() ==> final(self).heap.wf(),
            old(self).wf() ==> final(self).wf(),
    {
        let function = match self.compile(atoms) {
            Ok(f) => f,
            Err(e) => return Err(VmError::Compile(e)),
        };
        self.start(function)
    }

    /// Binds global `name` to a new native function of `arity` arguments and
    /// returns the id that `Step::Native` will carry for it.
    pub fn add_native(&mut self, name: Vec<u8>, arity: u8) -> (r: usize)
        ensures
            r == old(self).natives,
            final(self).lookup_global(name@) is Some,
            final(self).lookup_global(name@).unwrap() is Obj,
            final(self).heap.is_live(final(self).lookup_global(name@).unwrap()->Obj_0),
            final(self).heap.object(final(self).lookup_global(name@).unwrap()->Obj_0) is Native,
            final(self).heap.object(final(self).lookup_global(name@).unwrap()->Obj_0)->Native_0.id == r,
            final(self).heap.object(final(self).lookup_global(name@).unwrap()->Obj_0)->Native_0.arity
                == arity,
            forall|n: Seq<u8>| n != name@ ==> final(self).lookup_global(n) == old(self).lookup_global(n),
            final(self).stack@ == old(self).stack@,
            final(self).frames@ == old(self).frames@,
            old(self).heap.wf() ==> final(self).heap.wf(),
            old(self).wf() ==> final(self).wf(),
            final(self).heap.object(final(self).lookup_global(name@).unwrap()->Obj_0)->Native_0.name@ == name@,
            final(self).cells@ == old(self).cells@,
            final(self).open_upvalues@ == old(self).open_upvalues@,
    {
        let id = self.natives;
        if self.natives < usize::MAX {
            self.natives = self.natives + 1;
        }
        let key = copy_bytes(&name);
        let h = self.allocate(Object::Native(NativeFunction { name, arity, id }));
        define_global(&mut self.globals, key, Value::Obj(h));
        id
    }

    /// The call stack, newest frame first: each frame's chunk name and the
    /// source line of its instruction pointer.
    pub fn trace(&self) -> (r: Vec<(Vec<u8>, usize)>)
        ensures
            r@.len() == self.frames@.len(),
            forall|i: int|
                0 <= i < r@.len() ==> trace_entry(
                    self.heap,
                    self.frames@[self.frames@.len() - 1 - i],
                    #[trigger] r@[i],
                ),
    {
        let mut r: Vec<(Vec<u8>, usize)> = Vec::new();
        let n = self.frames.len();
        let mut i: usize = 0;
        while i < n
            invariant
                n == self.frames@.len(),
                i <= n,
                r@.len() == i,
                forall|k: int|
                    0 <= k < i ==> trace_entry(self.heap, self.frames@[n - 1 - k], #[trigger] r@[k]),
            decreases n - i,
        {
            let f = self.frames[n - 1 - i];
            let entry = match Self::chunk_of(&self.heap, f.closure) {
                Some(c) => (copy_bytes(c.name()), c.line(f.ip)),
                None => (Vec::new(), 0),
            };
            r.push(entry);
            i = i + 1;
        }
        r
    }
}

} // verus!
