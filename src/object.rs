use vstd::prelude::*;

use crate::chunk::Chunk;
use crate::value::{Handle, Value};

verus! {

/// A compiled function: immutable once built.
pub struct Function {
    pub name: Vec<u8>,
    pub arity: u8,
    pub upvalue_count: u8,
    pub chunk: Chunk,
}

/// A function together with the upvalue cells it captured. The cells are
/// indices into the machine's cell table, so two closures that captured the
/// same variable share one cell.
pub struct Closure {
    pub function: Handle,
    pub arity: u8,
    pub upvalues: Vec<usize>,
}

/// A function supplied by the embedder; `id` tells the embedder which one.
pub struct NativeFunction {
    pub name: Vec<u8>,
    pub arity: u8,
    pub id: usize,
}

/// A captured variable: still on the stack, or moved into its own storage.
#[derive(Clone, Copy, PartialEq, Eq, Debug, Structural)]
pub enum UpValue {
    Open(usize),
    Closed(Value),
}

pub enum Object {
    Str(Vec<u8>),
    Function(Function),
    Closure(Closure),
    Native(NativeFunction),
    List(Vec<Value>),
}

/// The value a closed upvalue cell holds; nil for an open or missing cell.
pub open spec fn cell_value(cells: Seq<UpValue>, c: usize) -> Value {
    if c < cells.len() && cells[c as int] is Closed {
        cells[c as int]->Closed_0
    } else {
        Value::Nil
    }
}

/// The values an object holds that the collector must follow: a list's
/// elements, a function's constants, and a closure's function together with
/// the values of its closed upvalue cells.
pub open spec fn child_values(cells: Seq<UpValue>, o: Object) -> Seq<Value> {
    match o {
        Object::List(l) => l@,
        Object::Function(f) => f.chunk.constants@,
        Object::Closure(c) => seq![Value::Obj(c.function)] + c.upvalues@.map_values(
            |u: usize| cell_value(cells, u),
        ),
        _ => Seq::empty(),
    }
}

/// Whether object `o` holds a reference to the object at handle `h`.
pub open spec fn refers_to(cells: Seq<UpValue>, o: Object, h: Handle) -> bool {
    exists|i: int| 0 <= i < child_values(cells, o).len() && child_values(cells, o)[i] == Value::Obj(h)
}

impl Closure {
    pub fn new(function: Handle, arity: u8, upvalues: Vec<usize>) -> (r: Closure)
        ensures
            r.function == function,
            r.arity == arity,
            r.upvalues@ == upvalues@,
    {
        Closure { function, arity, upvalues }
    }

    pub fn arity(&self) -> (r: u8)
        ensures
            r == self.arity,
    {
        self.arity
    }
}

impl Object {
    pub fn as_string(&self) -> (r: Option<&Vec<u8>>)
        ensures
            r.is_some() == (self is Str),
            r.is_some() ==> r.unwrap()@ == self->Str_0@,
    {
        match self {
            Object::Str(s) => Some(s),
            _ => None,
        }
    }

    pub fn as_list(&self) -> (r: Option<&Vec<Value>>)
        ensures
            r.is_some() == (self is List),
            r.is_some() ==> r.unwrap()@ == self->List_0@,
    {
        match self {
            Object::List(l) => Some(l),
            _ => None,
        }
    }
}

} // verus!
