use vstd::prelude::*;

use crate::chunk::{apart, be_u16_at, be_u64_at, Chunk, MAX_CONSTANTS};
use vstd::arithmetic::div_mod::{lemma_div_denominator, lemma_fundamental_div_mod};
use crate::heap::Heap;
use crate::object::{Function, Object};
use crate::value::{Handle, Value};
use crate::vm::{
    OP_ADD, OP_CALL, OP_CLOSE_UPVALUE, OP_CLOSURE, OP_CONSTANT, OP_DEFINE_GLOBAL, OP_DIV, OP_EQ,
    OP_FALSE, OP_GET_ELEMENT, OP_GET_GLOBAL, OP_GET_LOCAL, OP_GET_UPVALUE, OP_GT, OP_IMMEDIATE,
    OP_JMP, OP_JZE, OP_LIST, OP_LOOP, OP_LT, OP_MUL, OP_NEG, OP_NIL, OP_NOT, OP_POP, OP_REM,
    OP_RETURN, OP_SET_ELEMENT, OP_SET_GLOBAL, OP_SET_LOCAL, OP_SET_UPVALUE, OP_SUB, OP_TRUE,
};

verus! {

/// Where a name lives, as the resolver decided.
#[derive(Clone, Copy, PartialEq, Eq, Debug, Structural)]
pub enum BindingKind {
    Global,
    Local,
}

/// A resolved name: a global, or the local in slot `depth` of the function
/// at nesting level `function_depth` (the top level is level 0).
pub struct Binding {
    pub name: Vec<u8>,
    pub kind: BindingKind,
    pub depth: u8,
    pub function_depth: usize,
}

#[derive(Clone, Copy, PartialEq, Eq, Debug, Structural)]
pub enum BinOp {
    Add,
    Sub,
    Mul,
    Div,
    Rem,
    Eq,
    Lt,
    Gt,
}

#[derive(Clone, Copy, PartialEq, Eq, Debug, Structural)]
pub enum UnOp {
    Neg,
    Not,
}

/// The tree the compiler takes. Numbers are the raw bits of a double.
pub enum Expr {
    Number(u64),
    Bool(bool),
    Nil,
    Str(Vec<u8>),
    Var(Binding),
    Bind(Binding, Box<Expr>),
    Assign(Binding, Box<Expr>),
    Binary(BinOp, Box<Expr>, Box<Expr>),
    Unary(UnOp, Box<Expr>),
    Call(Box<Expr>, Vec<Expr>),
    If(Box<Expr>, Vec<Expr>, Vec<Expr>),
    While(Box<Expr>, Vec<Expr>),
    Return(Option<Box<Expr>>),
    Function(Binding, Vec<Binding>, Vec<Expr>),
    List(Vec<Expr>),
    GetElement(Box<Expr>, Box<Expr>),
    SetElement(Box<Expr>, Box<Expr>, Box<Expr>),
}

#[derive(Clone, Copy, PartialEq, Eq, Debug, Structural)]
pub enum CompileError {
    UnresolvedName,
    TooManyConstants,
    TooManyUpvalues,
    TooManyOperands,
    JumpOutOfRange,
}

/// The largest jump target or loop distance a two-byte operand holds.
pub const MAX_JUMP: usize = 65535;

/// Upvalue descriptors of each function being compiled, outermost first.
pub struct Compiler {
    pub upvalues: Vec<Vec<(bool, u8)>>,
}

/// How an instruction with opcode `op` and first operand `x` changes the
/// stack depth when it falls through to the next instruction.
pub open spec fn op_effect(op: u8, x: u8) -> int {
    if op == OP_CONSTANT || op == OP_IMMEDIATE || op == OP_NIL || op == OP_TRUE || op == OP_FALSE || op
        == OP_GET_LOCAL || op == OP_GET_GLOBAL || op == OP_GET_UPVALUE || op == OP_CLOSURE {
        1
    } else if op == OP_POP || op == OP_DEFINE_GLOBAL || op == OP_CLOSE_UPVALUE || op == OP_RETURN || op
        == OP_ADD || op == OP_SUB || op == OP_MUL || op == OP_DIV || op == OP_REM || op == OP_EQ || op
        == OP_LT || op == OP_GT || op == OP_GET_ELEMENT {
        -1
    } else if op == OP_CALL {
        -(x as int)
    } else if op == OP_LIST {
        1 - x
    } else if op == OP_SET_ELEMENT {
        -3
    } else {
        0
    }
}

/// The net stack effect the code compiled from `e` has: as a statement,
/// nothing but the slot of a local it declares; as an expression, its one
/// value. A `Return` in expression position is followed by an unreachable
/// `Nil`, so that it too counts as one value.
pub open spec fn expr_effect(e: Expr, stmt: bool) -> int {
    match e {
        Expr::Bind(b, _) => if !stmt || b.kind == BindingKind::Local {
            1
        } else {
            0
        },
        Expr::Function(b, _, _) => if !stmt || b.kind == BindingKind::Local {
            1
        } else {
            0
        },
        _ => if stmt {
            0
        } else {
            1
        },
    }
}

/// Code that only grew keeps every two-byte operand it had.
proof fn lemma_operand_kept(before: Seq<u8>, after: Seq<u8>, j: int)
    requires
        after.len() >= before.len(),
        after.subrange(0, before.len() as int) == before,
        0 <= j,
        j + 2 <= before.len(),
    ensures
        be_u16_at(after, j) == be_u16_at(before, j),
{
    assert(after.subrange(0, before.len() as int)[j] == before[j]);
    assert(after.subrange(0, before.len() as int)[j + 1] == before[j + 1]);
}

/// Appending to the code keeps the jump bookkeeping: set jumps keep their
/// targets, and one that landed on the old end lands on an instruction start
/// when `starts` gains that offset.
proof fn lemma_appended_ok(before: Chunk, after: Chunk)
    requires
        before.jumps_ok(),
        after.code@.len() > before.code@.len(),
        after.code@.subrange(0, before.code@.len() as int) == before.code@,
        after.jumps == before.jumps,
        after.holes == before.holes,
        before.starts@.subset_of(after.starts@),
        forall|p: int| #[trigger] after.starts@.contains(p) ==> 0 <= p < after.code@.len(),
        before.no_target_at_end() || after.starts@.contains(before.code@.len() as int),
        forall|p: int|
            #[trigger] after.starts@.contains(p) ==> before.starts@.contains(p) || (p == before.code@.len()
                && after.code@[p] != OP_JMP && after.code@[p] != OP_JZE),
    ensures
        after.jumps_ok(),
        after.no_target_at_end(),
{
    assert forall|p: int| #[trigger] after.starts@.contains(p) && before.starts@.contains(p) implies after.code@[p]
        == before.code@[p] by {
        assert(after.code@.subrange(0, before.code@.len() as int)[p] == before.code@[p]);
    }
    assert forall|j: int| #[trigger] after.jumps@.contains(j) implies after.target(j) == before.target(j) by {
        lemma_operand_kept(before.code@, after.code@, j);
    }
    assert forall|j: int| #[trigger] after.jumps@.contains(j) implies after.starts@.contains(after.target(j)) by {
        assert(after.target(j) == before.target(j));
        if before.starts@.contains(before.target(j)) {
            assert(before.starts@.subset_of(after.starts@));
        }
    }
}

impl Compiler {
    /// Emits the first byte of an instruction other than a forward jump.
    fn emit(c: &mut Chunk, op: u8)
        requires
            old(c).jumps_ok(),
            op != OP_JMP,
            op != OP_JZE,
        ensures
            final(c).code@ == old(c).code@.push(op),
            final(c).constants@ == old(c).constants@,
            final(c).jumps_ok(),
            final(c).no_target_at_end(),
            final(c).holes == old(c).holes,
            final(c).depth@ == old(c).depth@ + op_effect(op, 0),
    {
        c.write_op(op, 0);
        c.depth = Ghost(old(c).depth@ + op_effect(op, 0));
        proof {
            assert(c.code@.subrange(0, old(c).code@.len() as int) =~= old(c).code@);
            lemma_appended_ok(*old(c), *c);
        }
    }

    /// Emits an operand byte of the instruction just begun.
    fn emit_operand(c: &mut Chunk, byte: u8)
        requires
            old(c).jumps_ok(),
            old(c).no_target_at_end(),
        ensures
            final(c).code@ == old(c).code@.push(byte),
            final(c).constants@ == old(c).constants@,
            final(c).jumps_ok(),
            final(c).no_target_at_end(),
            final(c).holes == old(c).holes,
            final(c).depth == old(c).depth,
    {
        c.write(byte, 0);
        proof {
            assert(c.code@.subrange(0, old(c).code@.len() as int) =~= old(c).code@);
            lemma_appended_ok(*old(c), *c);
        }
    }

    /// Emits an instruction with a one-byte operand.
    fn emit2(c: &mut Chunk, op: u8, operand: u8)
        requires
            old(c).jumps_ok(),
            op != OP_JMP,
            op != OP_JZE,
        ensures
            final(c).code@ == old(c).code@.push(op).push(operand),
            final(c).constants@ == old(c).constants@,
            final(c).jumps_ok(),
            final(c).no_target_at_end(),
            final(c).holes == old(c).holes,
            final(c).depth@ == old(c).depth@ + op_effect(op, operand),
    {
        Self::emit(c, op);
        Self::emit_operand(c, operand);
        c.depth = Ghost(old(c).depth@ + op_effect(op, operand));
    }

    /// Adds a constant, failing once the pool is full.
    fn constant(c: &mut Chunk, v: Value) -> (r: Result<u8, CompileError>)
        ensures
            final(c).code@ == old(c).code@,
            final(c).starts == old(c).starts,
            final(c).jumps == old(c).jumps,
            final(c).holes == old(c).holes,
            final(c).depth == old(c).depth,
            r is Ok ==> (r->Ok_0 as int) < final(c).constants@.len() && final(c).constants@[r->Ok_0 as int] == v,
            old(c).constants@.len() >= MAX_CONSTANTS <==> r == Err::<u8, CompileError>(CompileError::TooManyConstants),
    {
        match c.add_constant(v) {
            Some(k) => Ok(k),
            None => Err(CompileError::TooManyConstants),
        }
    }

    /// Emits `op` with a two-byte placeholder and returns the placeholder's
    /// position, which becomes a hole to fill.
    fn emit_jump(c: &mut Chunk, op: u8) -> (r: usize)
        requires
            old(c).jumps_ok(),
        ensures
            r == old(c).code@.len() + 1,
            final(c).code@.len() == old(c).code@.len() + 3,
            final(c).code@[old(c).code@.len() as int] == op,
            final(c).constants@ == old(c).constants@,
            final(c).jumps_ok(),
            final(c).no_target_at_end(),
            !old(c).holes@.contains(r as int),
            final(c).holes@ == old(c).holes@.insert(r as int),
            final(c).depth == old(c).depth,
    {
        c.write_op(op, 0);
        let at = c.len();
        let ghost mid = *c;
        c.write_u16(0, 0);
        c.holes = Ghost(c.holes@.insert(at as int));
        proof {
            let before = *old(c);
            let n = before.code@.len() as int;
            assert(c.code@.subrange(0, mid.code@.len() as int)[n] == op);
            assert forall|i: int| 0 <= i < n implies c.code@[i] == before.code@[i] by {
                assert(c.code@.subrange(0, mid.code@.len() as int)[i] == mid.code@[i]);
            }
            assert forall|j: int| #[trigger] c.jumps@.contains(j) implies c.target(j) == before.target(j) by {
                assert(c.code@.subrange(0, n) =~= before.code@);
                lemma_operand_kept(before.code@, c.code@, j);
            }
            assert forall|j: int| #[trigger] c.jumps@.contains(j) implies c.starts@.contains(c.target(j)) || c.target(j)
                == c.code@.len() by {
                assert(before.jumps@.contains(j));
            }
            assert forall|p: int|
                #[trigger] c.starts@.contains(p) && (c.code@[p] == OP_JMP || c.code@[p] == OP_JZE) implies c.jumps@.contains(p + 1)
                    || c.holes@.contains(p + 1) by {
                if p != n {
                    assert(before.starts@.contains(p));
                    assert(c.code@[p] == before.code@[p]);
                }
            }
            assert forall|p: int, j: int|
                #[trigger] c.starts@.contains(p) && (#[trigger] c.jumps@.contains(j) || c.holes@.contains(j)) implies p
                    != j && p != j + 1 by {
                if p != n && j != at {
                    assert(before.starts@.contains(p));
                }
                if j != at && (c.jumps@.contains(j) || c.holes@.contains(j)) {
                    assert(before.jumps@.contains(j) || before.holes@.contains(j));
                }
            }
            assert forall|p: int, j: int|
                #[trigger] c.starts@.contains(p) && #[trigger] c.holes@.contains(j) implies p != j && p != j + 1 by {
                if j != at {
                    assert(before.holes@.contains(j));
                }
            }
            assert forall|p: int| #[trigger] c.starts@.contains(p) implies 0 <= p < c.code@.len() by {
                if p != n {
                    assert(before.starts@.contains(p));
                }
            }
            assert forall|j: int| #[trigger] c.holes@.contains(j) implies 0 <= j && j + 2 <= c.code@.len() by {
                if j != at {
                    assert(before.holes@.contains(j));
                }
            }
            assert forall|j: int| #[trigger] c.jumps@.contains(j) implies c.target(j) != c.code@.len() by {
                assert(before.jumps@.contains(j));
            }
            assert forall|j: int, k: int|
                #[trigger] c.jumps@.contains(j) && #[trigger] c.holes@.contains(k) implies apart(j, k) by {
                if k != at {
                    assert(mid.holes@.contains(k));
                }
            }
            assert forall|j: int, k: int|
                #[trigger] c.holes@.contains(j) && #[trigger] c.holes@.contains(k) && j != k implies apart(j, k) by {
                if j != at && k != at {
                    assert(mid.holes@.contains(j) && mid.holes@.contains(k));
                }
            }
        }
        at
    }

    /// Points the placeholder at `at` to the current end of the code, where
    /// the next instruction goes.
    fn patch_jump(c: &mut Chunk, at: usize) -> (r: Result<(), CompileError>)
        requires
            old(c).jumps_ok(),
            old(c).holes@.contains(at as int),
        ensures
            final(c).code@.len() == old(c).code@.len(),
            final(c).constants@ == old(c).constants@,
            old(c).code@.len() <= MAX_JUMP ==> r is Ok && be_u16_at(final(c).code@, at as int)
                == old(c).code@.len(),
            old(c).code@.len() > MAX_JUMP ==> r == Err::<(), CompileError>(CompileError::JumpOutOfRange),
            r is Ok ==> final(c).jumps_ok() && final(c).holes@ == old(c).holes@.remove(at as int),
            final(c).depth == old(c).depth,
    {
        let target = c.len();
        if target > MAX_JUMP {
            return Err(CompileError::JumpOutOfRange);
        }
        let ghost before = *c;
        c.patch_u16(at, target as u16);
        c.jumps = Ghost(c.jumps@.insert(at as int));
        c.holes = Ghost(c.holes@.remove(at as int));
        proof {
            assert forall|j: int| #[trigger] c.jumps@.contains(j) && j != at implies c.target(j) == before.target(j) by {
                assert(before.jumps@.contains(j));
                assert(apart(j, at as int));
            }
            assert forall|j: int| #[trigger] c.jumps@.contains(j) implies c.starts@.contains(c.target(j)) || c.target(j)
                == c.code@.len() by {
                if j != at {
                    assert(before.jumps@.contains(j));
                }
            }
            assert forall|j: int, k: int|
                #[trigger] c.jumps@.contains(j) && #[trigger] c.holes@.contains(k) implies apart(j, k) by {
                assert(before.holes@.contains(k));
                if j != at {
                    assert(before.jumps@.contains(j));
                }
            }
            assert forall|j: int| #[trigger] c.jumps@.contains(j) implies 0 <= j && j + 2 <= c.code@.len() by {
                if j != at {
                    assert(before.jumps@.contains(j));
                }
            }
        }
        Ok(())
    }

    /// Emits a backward jump to `start`.
    fn emit_loop(c: &mut Chunk, start: usize) -> (r: Result<(), CompileError>)
        requires
            start <= old(c).code@.len(),
            old(c).jumps_ok(),
        ensures
            final(c).constants@ == old(c).constants@,
            r is Ok ==> final(c).jumps_ok() && final(c).no_target_at_end() && final(c).holes == old(c).holes
                && final(c).depth == old(c).depth,
            r is Ok ==> final(c).code@.len() == old(c).code@.len() + 3 && final(c).code@[old(c).code@.len() as int] == OP_LOOP
                && be_u16_at(final(c).code@, (old(c).code@.len() + 1) as int) == old(c).code@.len() + 3 - start,
    {
        let n = c.len();
        if n - start > MAX_JUMP - 3 {
            return Err(CompileError::JumpOutOfRange);
        }
        Self::emit(c, OP_LOOP);
        let ghost mid = *c;
        c.write_u16((n - start + 3) as u16, 0);
        proof {
            assert(c.code@.subrange(0, mid.code@.len() as int)[n as int] == OP_LOOP);
            lemma_appended_ok(mid, *c);
        }
        Ok(())
    }

    /// Adds an upvalue descriptor to the function at `level`, sharing an
    /// equal one, and returns its index.
    fn add_upvalue(&mut self, level: usize, is_local: bool, index: u8) -> (r: Result<u8, CompileError>)
        requires
            level < old(self).upvalues@.len(),
        ensures
            final(self).upvalues@.len() == old(self).upvalues@.len(),
            r is Ok ==> (r->Ok_0 as int) < final(self).upvalues@[level as int]@.len()
                && final(self).upvalues@[level as int]@[r->Ok_0 as int] == (is_local, index),
    {
        self.upvalues.push(Vec::new());
        let mut list = self.upvalues.swap_remove(level);
        let mut i: usize = 0;
        while i < list.len()
            invariant
                i <= list@.len(),
                level < self.upvalues@.len(),
                self.upvalues@.len() == old(self).upvalues@.len(),
            decreases list@.len() - i,
        {
            if list[i].0 == is_local && list[i].1 == index {
                if i < 255 {
                    assert(list@[i as int] == (is_local, index));
                    self.upvalues.set(level, list);
                    return Ok(i as u8);
                }
            }
            i = i + 1;
        }
        if list.len() >= 255 {
            self.upvalues.set(level, list);
            return Err(CompileError::TooManyUpvalues);
        }
        let k = list.len() as u8;
        list.push((is_local, index));
        self.upvalues.set(level, list);
        Ok(k)
    }
}


/// Every object live in `before` is live in `after` and unchanged.
pub open spec fn heap_grows(before: Heap, after: Heap) -> bool {
    forall|h: Handle| #[trigger] before.is_live(h) ==> after.is_live(h) && after.object(h) == before.object(h)
}

/// Growing is transitive.
proof fn lemma_heap_grows_trans(a: Heap, b: Heap, c: Heap)
    requires
        heap_grows(a, b),
        heap_grows(b, c),
    ensures
        heap_grows(a, c),
{
}

/// Every function object in the heap has finished code whose jumps land
/// on instruction starts.
pub open spec fn functions_land(heap: Heap) -> bool {
    forall|h: Handle|
        #[trigger] heap.is_live(h) && heap.object(h) is Function ==> jumps_land(heap.object(h)->Function_0.chunk)
}

/// Stores a new object, leaving every live one as it was.
fn insert_object(heap: &mut Heap, obj: Object) -> (r: Handle)
    ensures
        heap_grows(*old(heap), *final(heap)),
        functions_land(*old(heap)) && (obj is Function ==> jumps_land(obj->Function_0.chunk))
            ==> functions_land(*final(heap)),
        final(heap).is_live(r),
        final(heap).object(r) == obj,
        old(heap).wf() ==> final(heap).wf(),
{
    let r = heap.insert(obj);
    proof {
        assert forall|h: Handle| #[trigger] heap.is_live(h) && h != r implies old(heap).is_live(h)
            && heap.object(h) == old(heap).object(h) by {
            assert(heap.slots@[h as int] is Some);
        }
    }
    r
}

impl Compiler {
    /// Adds a new string object holding `s` to the pool.
    fn string_constant(heap: &mut Heap, c: &mut Chunk, s: &Vec<u8>) -> (r: Result<u8, CompileError>)
        ensures
            functions_land(*old(heap)) ==> functions_land(*final(heap)),
            heap_grows(*old(heap), *final(heap)),
            final(c).code@ == old(c).code@,
            final(c).starts == old(c).starts,
            final(c).jumps == old(c).jumps,
            final(c).holes == old(c).holes,
            final(c).depth == old(c).depth,
            old(heap).wf() ==> final(heap).wf(),
    {
        let h = insert_object(heap, Object::Str(crate::globals::copy_bytes(s)));
        Self::constant(c, Value::Obj(h))
    }

    /// Emits the eight big-endian bytes of `bits`.
    fn emit_u64(c: &mut Chunk, bits: u64)
        requires
            old(c).jumps_ok(),
            old(c).no_target_at_end(),
        ensures
            final(c).code@.len() == old(c).code@.len() + 8,
            final(c).code@.subrange(0, old(c).code@.len() as int) == old(c).code@,
            be_u64_at(final(c).code@, old(c).code@.len() as int) == bits,
            final(c).constants@ == old(c).constants@,
            final(c).jumps_ok(),
            final(c).holes == old(c).holes,
            final(c).depth == old(c).depth,
    {
        let ghost n = c.code@.len() as int;
        Self::emit_operand(c, ((bits / 0x100000000000000u64) % 256) as u8);
        Self::emit_operand(c, ((bits / 0x1000000000000u64) % 256) as u8);
        Self::emit_operand(c, ((bits / 0x10000000000u64) % 256) as u8);
        Self::emit_operand(c, ((bits / 0x100000000u64) % 256) as u8);
        Self::emit_operand(c, ((bits / 0x1000000u64) % 256) as u8);
        Self::emit_operand(c, ((bits / 0x10000u64) % 256) as u8);
        Self::emit_operand(c, ((bits / 0x100u64) % 256) as u8);
        Self::emit_operand(c, ((bits / 0x1u64) % 256) as u8);
        proof {
            let x = bits as int;
            lemma_div_denominator(x, 0x1, 256);
            lemma_fundamental_div_mod(x / 0x1, 256);
            lemma_div_denominator(x, 0x100, 256);
            lemma_fundamental_div_mod(x / 0x100, 256);
            lemma_div_denominator(x, 0x10000, 256);
            lemma_fundamental_div_mod(x / 0x10000, 256);
            lemma_div_denominator(x, 0x1000000, 256);
            lemma_fundamental_div_mod(x / 0x1000000, 256);
            lemma_div_denominator(x, 0x100000000, 256);
            lemma_fundamental_div_mod(x / 0x100000000, 256);
            lemma_div_denominator(x, 0x10000000000, 256);
            lemma_fundamental_div_mod(x / 0x10000000000, 256);
            lemma_div_denominator(x, 0x1000000000000, 256);
            lemma_fundamental_div_mod(x / 0x1000000000000, 256);
            assert(x / 0x100000000000000 < 256);
            assert(c.code@.subrange(0, n) =~= old(c).code@);
        }
    }

    /// Reads or writes a name: `get` picks the read, else the write.
    fn access(&mut self, c: &mut Chunk, heap: &mut Heap, b: &Binding, get: bool) -> (r: Result<(), CompileError>)
        requires
            old(c).jumps_ok(),
            old(self).upvalues@.len() > 0,
        ensures
            r is Ok ==> final(c).code@.len() > old(c).code@.len(),
            r is Ok ==> final(c).depth@ == old(c).depth@ + if get {
                1int
            } else {
                0int
            },
            functions_land(*old(heap)) ==> functions_land(*final(heap)),
            r is Ok ==> final(c).jumps_ok() && final(c).holes == old(c).holes,
            r is Ok ==> final(self).upvalues@.len() == old(self).upvalues@.len(),
            r is Ok ==> final(c).code@.len() >= old(c).code@.len(),
            heap_grows(*old(heap), *final(heap)),
            old(heap).wf() ==> final(heap).wf(),
    {
        match b.kind {
            BindingKind::Global => {
                let k = Self::string_constant(heap, c, &b.name)?;
                Self::emit2(c, if get { OP_GET_GLOBAL } else { OP_SET_GLOBAL }, k);
            },
            BindingKind::Local => {
                let cur = self.upvalues.len() - 1;
                if b.function_depth == cur {
                    Self::emit2(c, if get { OP_GET_LOCAL } else { OP_SET_LOCAL }, b.depth);
                } else if b.function_depth < cur {
                    let idx = self.resolve_upvalue(b)?;
                    Self::emit2(c, if get { OP_GET_UPVALUE } else { OP_SET_UPVALUE }, idx);
                } else {
                    return Err(CompileError::UnresolvedName);
                }
            },
        }
        Ok(())
    }

    /// Threads local `b` of an enclosing function through every function
    /// between it and the current one, and returns the current function's
    /// upvalue index for it.
    fn resolve_upvalue(&mut self, b: &Binding) -> (r: Result<u8, CompileError>)
        requires
            b.function_depth < old(self).upvalues@.len() - 1,
        ensures
            final(self).upvalues@.len() == old(self).upvalues@.len(),
    {
        let cur = self.upvalues.len() - 1;
        let mut idx = b.depth;
        let mut is_local = true;
        let mut lvl = b.function_depth + 1;
        while lvl <= cur
            invariant
                self.upvalues@.len() == old(self).upvalues@.len(),
                cur == self.upvalues@.len() - 1,
                lvl >= 1,
                lvl <= cur + 1,
                cur < usize::MAX,
            decreases cur + 1 - lvl,
        {
            idx = self.add_upvalue(lvl, is_local, idx)?;
            is_local = false;
            lvl = lvl + 1;
        }
        Ok(idx)
    }

    /// Compiles a block of statements, then drops the locals it declared.
    pub fn block(&mut self, c: &mut Chunk, heap: &mut Heap, body: &Vec<Expr>) -> (r: Result<(), CompileError>)
        requires
            old(c).jumps_ok(),
            old(self).upvalues@.len() > 0,
        ensures
            r is Ok ==> final(c).code@.len() >= old(c).code@.len() + body@.len(),
            r is Ok ==> final(c).depth@ == old(c).depth@,
            body@.len() == 0 ==> r is Ok && final(c).code@ == old(c).code@ && final(self).upvalues@ == old(self).upvalues@,
            functions_land(*old(heap)) ==> functions_land(*final(heap)),
            r is Ok ==> final(c).jumps_ok() && final(c).holes == old(c).holes,
            r is Ok ==> final(self).upvalues@.len() == old(self).upvalues@.len(),
            r is Ok ==> final(c).code@.len() >= old(c).code@.len(),
            heap_grows(*old(heap), *final(heap)),
            old(heap).wf() ==> final(heap).wf(),
        decreases body,
    {
        let mut locals: usize = 0;
        let mut i: usize = 0;
        while i < body.len()
            invariant
                i <= body@.len(),
                locals <= i,
                self.upvalues@.len() == old(self).upvalues@.len(),
                self.upvalues@.len() > 0,
                c.code@.len() >= old(c).code@.len(),
                heap_grows(*old(heap), *heap),
                old(heap).wf() ==> heap.wf(),
                functions_land(*old(heap)) ==> functions_land(*heap),
                c.jumps_ok(),
                c.holes == old(c).holes,
                c.code@.len() >= old(c).code@.len() + i,
                c.depth@ == old(c).depth@ + locals,
                i == 0 ==> c.code@ == old(c).code@ && self.upvalues@ == old(self).upvalues@,
            decreases body@.len() - i,
        {
            proof {
                vstd::std_specs::vec::axiom_vec_index_decreases(*body, i as int);
            }
            self.expr(c, heap, &body[i], true)?;
            match &body[i] {
                Expr::Bind(b, _) | Expr::Function(b, _, _) => {
                    if b.kind == BindingKind::Local {
                        locals = locals + 1;
                    }
                },
                _ => {},
            }
            i = i + 1;
        }
        let ghost code0 = c.code@;
        let mut k: usize = 0;
        while k < locals
            invariant
                k <= locals,
                c.code@.len() >= old(c).code@.len(),
                c.jumps_ok(),
                c.holes == old(c).holes,
                c.code@.len() >= old(c).code@.len() + body@.len(),
                c.depth@ == old(c).depth@ + locals - k,
                k == 0 ==> c.code@ == code0,
            decreases locals - k,
        {
            Self::emit(c, OP_CLOSE_UPVALUE);
            k = k + 1;
        }
        Ok(())
    }

    /// Compiles `e`. In statement position (`stmt`) a value that nothing
    /// keeps is followed by `Pop`, and a local declaration leaves its value
    /// as the local's slot; in expression position the code leaves one
    /// value. The contract states this as the net static stack effect of the
    /// emitted code (`expr_effect`), with `If` and `While` branches joining
    /// at equal depth.
    pub fn expr(&mut self, c: &mut Chunk, heap: &mut Heap, e: &Expr, stmt: bool) -> (r: Result<(), CompileError>)
        requires
            old(c).jumps_ok(),
            old(self).upvalues@.len() > 0,
        ensures
            r is Ok ==> final(c).code@.len() > old(c).code@.len(),
            r is Ok ==> final(c).depth@ == old(c).depth@ + expr_effect(*e, stmt),
            !stmt && (*e is Nil || *e is Bool) ==> r is Ok && final(c).code@ == old(c).code@.push(
                if *e is Nil {
                    OP_NIL
                } else if e->Bool_0 {
                    OP_TRUE
                } else {
                    OP_FALSE
                },
            ),
            !stmt && *e is Number ==> r is Ok && final(c).code@.len() == old(c).code@.len() + 9
                && final(c).code@.subrange(0, old(c).code@.len() as int) == old(c).code@
                && final(c).code@[old(c).code@.len() as int] == OP_IMMEDIATE && be_u64_at(
                final(c).code@,
                (old(c).code@.len() + 1) as int,
            ) == e->Number_0,
            functions_land(*old(heap)) ==> functions_land(*final(heap)),
            r is Ok ==> final(c).jumps_ok() && final(c).holes == old(c).holes,
            r is Ok ==> final(self).upvalues@.len() == old(self).upvalues@.len(),
            r is Ok ==> final(c).code@.len() >= old(c).code@.len(),
            heap_grows(*old(heap), *final(heap)),
            old(heap).wf() ==> final(heap).wf(),
        decreases e,
    {
        let mut pop_after = stmt;
        match e {
            Expr::Number(bits) => {
                Self::emit(c, OP_IMMEDIATE);
                let ghost mid = c.code@;
                Self::emit_u64(c, *bits);
                proof {
                    assert(c.code@.subrange(0, mid.len() as int)[old(c).code@.len() as int] == OP_IMMEDIATE);
                    assert(c.code@.subrange(0, old(c).code@.len() as int) =~= old(c).code@) by {
                        assert forall|j: int| 0 <= j < old(c).code@.len() implies c.code@[j] == old(c).code@[j] by {
                            assert(c.code@.subrange(0, mid.len() as int)[j] == mid[j]);
                        }
                    }
                }
            },
            Expr::Bool(b) => Self::emit(c, if *b { OP_TRUE } else { OP_FALSE }),
            Expr::Nil => Self::emit(c, OP_NIL),
            Expr::Str(s) => {
                let k = Self::string_constant(heap, c, s)?;
                Self::emit2(c, OP_CONSTANT, k);
            },
            Expr::Var(b) => self.access(c, heap, b, true)?,
            Expr::Assign(b, v) => {
                self.expr(c, heap, v, false)?;
                self.access(c, heap, b, false)?;
            },
            Expr::Bind(b, v) => {
                self.expr(c, heap, v, false)?;
                pop_after = false;
                if b.kind == BindingKind::Global {
                    let k = Self::string_constant(heap, c, &b.name)?;
                    Self::emit2(c, OP_DEFINE_GLOBAL, k);
                    if !stmt {
                        Self::emit2(c, OP_GET_GLOBAL, k);
                    }
                }
            },
            Expr::Binary(op, l, r) => {
                self.expr(c, heap, l, false)?;
                self.expr(c, heap, r, false)?;
                Self::emit(
                    c,
                    match op {
                        BinOp::Add => OP_ADD,
                        BinOp::Sub => OP_SUB,
                        BinOp::Mul => OP_MUL,
                        BinOp::Div => OP_DIV,
                        BinOp::Rem => OP_REM,
                        BinOp::Eq => OP_EQ,
                        BinOp::Lt => OP_LT,
                        BinOp::Gt => OP_GT,
                    },
                );
            },
            Expr::Unary(op, v) => {
                self.expr(c, heap, v, false)?;
                Self::emit(
                    c,
                    match op {
                        UnOp::Neg => OP_NEG,
                        UnOp::Not => OP_NOT,
                    },
                );
            },
            Expr::Call(callee, args) => {
                if args.len() > 255 {
                    return Err(CompileError::TooManyOperands);
                }
                self.expr(c, heap, callee, false)?;
                let mut i: usize = 0;
                while i < args.len()
                    invariant
                        i <= args@.len(),
                        *e == Expr::Call(*callee, *args),
                        c.depth@ == old(c).depth@ + 1 + i,
                        self.upvalues@.len() == old(self).upvalues@.len(),
                        self.upvalues@.len() > 0,
                        c.code@.len() >= old(c).code@.len(),
                        heap_grows(*old(heap), *heap),
                        old(heap).wf() ==> heap.wf(),
                        functions_land(*old(heap)) ==> functions_land(*heap),
                        c.jumps_ok(),
                        c.holes == old(c).holes,
                    decreases args@.len() - i,
                {
                    proof {
                        assert(decreases_to!(*e => (*e)->Call_1));
                        vstd::std_specs::vec::axiom_vec_index_decreases(*args, i as int);
                    }
                    self.expr(c, heap, &args[i], false)?;
                    i = i + 1;
                }
                Self::emit2(c, OP_CALL, args.len() as u8);
            },
            Expr::If(cond, then, other) => {
                self.expr(c, heap, cond, false)?;
                let ghost holes0 = c.holes@;
                let ghost branch = c.depth@;
                let skip = Self::emit_jump(c, OP_JZE);
                Self::emit(c, OP_POP);
                self.block(c, heap, then)?;
                let over = Self::emit_jump(c, OP_JMP);
                Self::patch_jump(c, skip)?;
                c.depth = Ghost(branch);
                Self::emit(c, OP_POP);
                self.block(c, heap, other)?;
                Self::patch_jump(c, over)?;
                assert(c.holes@ =~= holes0);
                pop_after = false;
                if !stmt {
                    Self::emit(c, OP_NIL);
                }
            },
            Expr::While(cond, body) => {
                let start = c.len();
                self.expr(c, heap, cond, false)?;
                let ghost holes0 = c.holes@;
                let ghost branch = c.depth@;
                let exit = Self::emit_jump(c, OP_JZE);
                Self::emit(c, OP_POP);
                self.block(c, heap, body)?;
                Self::emit_loop(c, start)?;
                Self::patch_jump(c, exit)?;
                c.depth = Ghost(branch);
                assert(c.holes@ =~= holes0);
                Self::emit(c, OP_POP);
                pop_after = false;
                if !stmt {
                    Self::emit(c, OP_NIL);
                }
            },
            Expr::Return(v) => {
                match v {
                    Some(v) => {
                        proof {
                            assert(decreases_to!(*e => (*e)->Return_0));
                        }
                        self.expr(c, heap, v, false)?
                    },
                    None => Self::emit(c, OP_NIL),
                }
                Self::emit(c, OP_RETURN);
                pop_after = false;
                if !stmt {
                    Self::emit(c, OP_NIL);
                }
            },
            Expr::Function(b, params, body) => {
                if params.len() > 255 {
                    return Err(CompileError::TooManyOperands);
                }
                self.upvalues.push(Vec::new());
                let mut fc = Chunk::new(crate::globals::copy_bytes(&b.name));
                self.block(&mut fc, heap, body)?;
                Self::emit(&mut fc, OP_NIL);
                Self::emit(&mut fc, OP_RETURN);
                proof {
                    assert(fc.holes@ =~= Set::<int>::empty());
                    lemma_finished(fc);
                }
                let ups = self.upvalues.pop().unwrap();
                if ups.len() > 255 {
                    return Err(CompileError::TooManyUpvalues);
                }
                let f = Function {
                    name: crate::globals::copy_bytes(&b.name),
                    arity: params.len() as u8,
                    upvalue_count: ups.len() as u8,
                    chunk: fc,
                };
                let ghost before = *heap;
                let h = insert_object(heap, Object::Function(f));
                proof {
                    lemma_heap_grows_trans(*old(heap), before, *heap);
                }
                let k = Self::constant(c, Value::Obj(h))?;
                Self::emit2(c, OP_CLOSURE, k);
                let mut i: usize = 0;
                while i < ups.len()
                    invariant
                        i <= ups@.len(),
                        c.code@.len() > old(c).code@.len(),
                        c.jumps_ok(),
                        c.no_target_at_end(),
                        c.holes == old(c).holes,
                        c.depth@ == old(c).depth@ + 1,
                    decreases ups@.len() - i,
                {
                    let (is_local, idx) = ups[i];
                    Self::emit_operand(c, if is_local { 1 } else { 0 });
                    Self::emit_operand(c, idx);
                    i = i + 1;
                }
                pop_after = false;
                if b.kind == BindingKind::Global {
                    let ghost before = *heap;
                    let k = Self::string_constant(heap, c, &b.name);
                    proof {
                        lemma_heap_grows_trans(*old(heap), before, *heap);
                    }
                    let k = k?;
                    Self::emit2(c, OP_DEFINE_GLOBAL, k);
                    if !stmt {
                        Self::emit2(c, OP_GET_GLOBAL, k);
                    }
                }
            },
            Expr::List(items) => {
                if items.len() > 255 {
                    return Err(CompileError::TooManyOperands);
                }
                let mut i: usize = items.len();
                while i > 0
                    invariant
                        i <= items@.len(),
                        *e == Expr::List(*items),
                        c.depth@ == old(c).depth@ + (items@.len() - i),
                        self.upvalues@.len() == old(self).upvalues@.len(),
                        self.upvalues@.len() > 0,
                        c.code@.len() >= old(c).code@.len(),
                        heap_grows(*old(heap), *heap),
                        old(heap).wf() ==> heap.wf(),
                        functions_land(*old(heap)) ==> functions_land(*heap),
                        c.jumps_ok(),
                        c.holes == old(c).holes,
                    decreases i,
                {
                    proof {
                        assert(decreases_to!(*e => (*e)->List_0));
                        vstd::std_specs::vec::axiom_vec_index_decreases(*items, i - 1);
                    }
                    self.expr(c, heap, &items[i - 1], false)?;
                    i = i - 1;
                }
                Self::emit2(c, OP_LIST, items.len() as u8);
            },
            Expr::GetElement(list, idx) => {
                self.expr(c, heap, list, false)?;
                self.expr(c, heap, idx, false)?;
                Self::emit(c, OP_GET_ELEMENT);
            },
            Expr::SetElement(list, idx, v) => {
                self.expr(c, heap, v, false)?;
                self.expr(c, heap, list, false)?;
                self.expr(c, heap, idx, false)?;
                Self::emit(c, OP_SET_ELEMENT);
                pop_after = false;
                if !stmt {
                    Self::emit(c, OP_NIL);
                }
            },
        }
        if pop_after {
            Self::emit(c, OP_POP);
        }
        Ok(())
    }
}

/// Jump correctness of finished code: no jump is left unset, and every
/// forward jump lands inside the code on the first byte of an instruction.
pub open spec fn jumps_land(ch: Chunk) -> bool {
    &&& ch.holes@ == Set::<int>::empty()
    &&& forall|p: int| #[trigger] ch.starts@.contains(p) ==> 0 <= p < ch.code@.len()
    &&& forall|j: int|
        #[trigger] ch.jumps@.contains(j) ==> 0 <= j && j + 2 <= ch.code@.len() && ch.starts@.contains(ch.target(j))
            && 0 <= ch.target(j) < ch.code@.len()
    &&& forall|p: int|
        #[trigger] ch.starts@.contains(p) && (ch.code@[p] == OP_JMP || ch.code@[p] == OP_JZE) ==> ch.jumps@.contains(p + 1)
}

/// A chunk whose code ends with a whole instruction keeps every set jump on
/// an instruction start.
proof fn lemma_finished(ch: Chunk)
    requires
        ch.jumps_ok(),
        ch.no_target_at_end(),
        ch.holes@ == Set::<int>::empty(),
    ensures
        jumps_land(ch),
{
}

/// The name of the top-level function, `<main>`.
fn top_level_name() -> Vec<u8> {
    vec![60u8, 109u8, 97u8, 105u8, 110u8, 62u8]
}

/// Compiles a program into the top-level function: no parameters, no
/// upvalues, and code that ends in `Return`. Nested functions and string
/// constants go into `heap`, next to what it already holds.
pub fn compile(heap: &mut Heap, program: &Vec<Expr>) -> (r: Result<Function, CompileError>)
    ensures
        heap_grows(*old(heap), *final(heap)),
        r is Ok ==> r->Ok_0.arity == 0 && r->Ok_0.upvalue_count == 0 && r->Ok_0.chunk.code@.len() > 0
            && r->Ok_0.chunk.code@.last() == OP_RETURN,
        r is Ok ==> jumps_land(r->Ok_0.chunk),
        functions_land(*old(heap)) ==> functions_land(*final(heap)),
        program@.len() == 0 ==> r is Ok && r->Ok_0.chunk.code@ == seq![OP_NIL, OP_RETURN],
        r is Ok ==> r->Ok_0.chunk.code@.len() >= program@.len() + 2,
        r is Ok ==> r->Ok_0.chunk.depth@ == 0,
        old(heap).wf() ==> final(heap).wf(),
{
    let mut compiler = Compiler { upvalues: Vec::new() };
    compiler.upvalues.push(Vec::new());
    let mut c = Chunk::new(top_level_name());
    compiler.block(&mut c, heap, program)?;
    Compiler::emit(&mut c, OP_NIL);
    Compiler::emit(&mut c, OP_RETURN);
    proof {
        assert(c.holes@ =~= Set::<int>::empty());
        lemma_finished(c);
        if program@.len() == 0 {
            assert(c.code@ =~= seq![OP_NIL, OP_RETURN]);
        }
    }
    Ok(Function { name: top_level_name(), arity: 0, upvalue_count: 0, chunk: c })
}

} // verus!
