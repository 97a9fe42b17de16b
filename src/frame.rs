use vstd::prelude::*;

use crate::chunk::{be_u16_at, be_u64_at, Chunk};
use crate::value::{Handle, Value};

verus! {

/// An activation record: the closure being run, its instruction pointer and
/// the stack slot that holds the callee.
#[derive(Clone, Copy)]
pub struct CallFrame {
    pub closure: Handle,
    pub ip: usize,
    pub stack_start: usize,
}

impl CallFrame {
    pub fn new(closure: Handle, stack_start: usize) -> (r: CallFrame)
        ensures
            r.closure == closure,
            r.ip == 0,
            r.stack_start == stack_start,
    {
        CallFrame { closure, ip: 0, stack_start }
    }

    /// Reads the byte at the instruction pointer and steps past it.
    pub fn read_byte(&mut self, chunk: &Chunk) -> (r: u8)
        requires
            old(self).ip < chunk.code@.len(),
        ensures
            r == chunk.code@[old(self).ip as int],
            final(self).ip == old(self).ip + 1,
            final(self).closure == old(self).closure,
            final(self).stack_start == old(self).stack_start,
    {
        assert(chunk.code.len() == chunk.code@.len());
        let ip = self.ip;
        self.ip = ip + 1;
        chunk.read_byte(ip)
    }

    /// Reads a big-endian two-byte operand and steps past it.
    pub fn read_u16(&mut self, chunk: &Chunk) -> (r: u16)
        requires
            old(self).ip + 2 <= chunk.code@.len(),
        ensures
            r as int == be_u16_at(chunk.code@, old(self).ip as int),
            final(self).ip == old(self).ip + 2,
            final(self).closure == old(self).closure,
            final(self).stack_start == old(self).stack_start,
    {
        assert(chunk.code.len() == chunk.code@.len());
        let ip = self.ip;
        self.ip = ip + 2;
        chunk.read_u16(ip)
    }

    /// Reads a big-endian eight-byte operand and steps past it.
    pub fn read_u64(&mut self, chunk: &Chunk) -> (r: u64)
        requires
            old(self).ip + 8 <= chunk.code@.len(),
        ensures
            r as int == be_u64_at(chunk.code@, old(self).ip as int),
            final(self).ip == old(self).ip + 8,
            final(self).closure == old(self).closure,
            final(self).stack_start == old(self).stack_start,
    {
        assert(chunk.code.len() == chunk.code@.len());
        let ip = self.ip;
        self.ip = ip + 8;
        chunk.read_u64(ip)
    }

    pub fn read_constant_at(&self, chunk: &Chunk, idx: u8) -> (r: Value)
        requires
            (idx as int) < chunk.constants@.len(),
        ensures
            r == chunk.constants@[idx as int],
    {
        chunk.constants[idx as usize]
    }

    /// Reads a one-byte constant index and returns that constant.
    pub fn read_constant(&mut self, chunk: &Chunk) -> (r: Value)
        requires
            old(self).ip < chunk.code@.len(),
            (chunk.code@[old(self).ip as int] as int) < chunk.constants@.len(),
        ensures
            r == chunk.constants@[chunk.code@[old(self).ip as int] as int],
            final(self).ip == old(self).ip + 1,
            final(self).closure == old(self).closure,
            final(self).stack_start == old(self).stack_start,
    {
        let idx = self.read_byte(chunk);
        self.read_constant_at(chunk, idx)
    }
}

} // verus!
