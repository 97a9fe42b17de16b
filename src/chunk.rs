use vstd::prelude::*;

use crate::value::Value;
use crate::vm::{OP_JMP, OP_JZE};

verus! {

/// The big-endian two-byte number that starts at `at`.
pub open spec fn be_u16_at(code: Seq<u8>, at: int) -> int {
    code[at] * 0x100 + code[at + 1]
}

/// The big-endian eight-byte number that starts at `at`.
pub open spec fn be_u64_at(code: Seq<u8>, at: int) -> int {
    code[at] * 0x100000000000000 + code[at + 1] * 0x1000000000000 + code[at + 2] * 0x10000000000
        + code[at + 3] * 0x100000000 + code[at + 4] * 0x1000000 + code[at + 5] * 0x10000
        + code[at + 6] * 0x100 + code[at + 7]
}

/// The source line of the byte at `ip`: the line of the last run of the line
/// table that starts at or before `ip`, or zero when there is none.
pub open spec fn line_at(lines: Seq<(usize, usize)>, ip: int) -> usize
    decreases lines.len(),
{
    if lines.len() == 0 {
        0
    } else if lines.last().0 <= ip {
        lines.last().1
    } else {
        line_at(lines.drop_last(), ip)
    }
}

/// The most constants one chunk can index with a one-byte operand.
pub const MAX_CONSTANTS: usize = 256;

/// A compiled block of bytecode with its constant pool and line table. The
/// line table holds `(offset, line)` runs in increasing offset order.
///
/// While code is written, three ghost sets keep its shape: the offsets
/// where an instruction starts, the offsets of forward-jump operands whose
/// target is set, and those of forward-jump operands still to be set.
pub struct Chunk {
    pub name: Vec<u8>,
    pub code: Vec<u8>,
    pub constants: Vec<Value>,
    pub lines: Vec<(usize, usize)>,
    pub starts: Ghost<Set<int>>,
    pub jumps: Ghost<Set<int>>,
    pub holes: Ghost<Set<int>>,
    /// The stack depth the code written so far leaves, counted from the
    /// depth at which the chunk starts, by each instruction's static effect.
    pub depth: Ghost<int>,
}

/// Two two-byte operands at `j` and `k` do not overlap.
pub open spec fn apart(j: int, k: int) -> bool {
    j + 2 <= k || k + 2 <= j
}

impl Chunk {
    /// The target of the forward jump whose operand is at `j`.
    pub open spec fn target(&self, j: int) -> int {
        be_u16_at(self.code@, j)
    }

    /// Instruction starts lie in the code, jump operands lie in it without
    /// overlapping, and every set jump lands on an instruction start or on
    /// the end of the code, where the next instruction will go.
    pub open spec fn jumps_ok(&self) -> bool {
        &&& forall|p: int| #[trigger] self.starts@.contains(p) ==> 0 <= p < self.code@.len()
        &&& forall|j: int|
            #[trigger] self.jumps@.contains(j) ==> 0 <= j && j + 2 <= self.code@.len()
        &&& forall|j: int|
            #[trigger] self.holes@.contains(j) ==> 0 <= j && j + 2 <= self.code@.len()
        &&& forall|j: int, k: int|
            #[trigger] self.jumps@.contains(j) && #[trigger] self.holes@.contains(k) ==> apart(j, k)
        &&& forall|j: int, k: int|
            #[trigger] self.holes@.contains(j) && #[trigger] self.holes@.contains(k) && j != k ==> apart(j, k)
        &&& forall|j: int|
            #[trigger] self.jumps@.contains(j) ==> self.starts@.contains(self.target(j)) || self.target(j)
                == self.code@.len()
        &&& forall|p: int, j: int|
            #[trigger] self.starts@.contains(p) && (#[trigger] self.jumps@.contains(j) || self.holes@.contains(j))
                ==> p != j && p != j + 1
        &&& forall|p: int, j: int|
            #[trigger] self.starts@.contains(p) && #[trigger] self.holes@.contains(j) ==> p != j && p != j + 1
        &&& forall|p: int|
            #[trigger] self.starts@.contains(p) && (self.code@[p] == OP_JMP || self.code@[p] == OP_JZE)
                ==> self.jumps@.contains(p + 1) || self.holes@.contains(p + 1)
    }

    /// No set jump lands on the end of the code.
    pub open spec fn no_target_at_end(&self) -> bool {
        forall|j: int| #[trigger] self.jumps@.contains(j) ==> self.target(j) != self.code@.len()
    }

    pub fn new(name: Vec<u8>) -> (r: Chunk)
        ensures
            r.name@ == name@,
            r.code@.len() == 0,
            r.constants@.len() == 0,
            r.lines@.len() == 0,
            r.starts@ == Set::<int>::empty(),
            r.jumps@ == Set::<int>::empty(),
            r.holes@ == Set::<int>::empty(),
            r.depth@ == 0,
            r.jumps_ok(),
    {
        Chunk {
            name,
            code: Vec::new(),
            constants: Vec::new(),
            lines: Vec::new(),
            starts: Ghost(Set::empty()),
            jumps: Ghost(Set::empty()),
            holes: Ghost(Set::empty()),
            depth: Ghost(0),
        }
    }

    pub fn name(&self) -> (r: &Vec<u8>)
        ensures
            r@ == self.name@,
    {
        &self.name
    }

    pub fn len(&self) -> (r: usize)
        ensures
            r == self.code@.len(),
    {
        self.code.len()
    }

    /// Appends one byte, recording `line` for it.
    pub fn write(&mut self, byte: u8, line: usize)
        ensures
            final(self).code@ == old(self).code@.push(byte),
            final(self).constants@ == old(self).constants@,
            final(self).name@ == old(self).name@,
            final(self).starts == old(self).starts,
            final(self).jumps == old(self).jumps,
            final(self).holes == old(self).holes,
            final(self).depth == old(self).depth,
            final(self).lines@ == (if old(self).lines@.len() == 0 || old(self).lines@.last().1
                != line {
                old(self).lines@.push((old(self).code@.len() as usize, line))
            } else {
                old(self).lines@
            }),
    {
        let offset = self.code.len();
        let n = self.lines.len();
        if n == 0 || self.lines[n - 1].1 != line {
            self.lines.push((offset, line));
        }
        self.code.push(byte);
    }

    /// Appends the first byte of an instruction, recording where it starts.
    pub fn write_op(&mut self, op: u8, line: usize)
        ensures
            final(self).code@ == old(self).code@.push(op),
            final(self).constants@ == old(self).constants@,
            final(self).name@ == old(self).name@,
            final(self).starts@ == old(self).starts@.insert(old(self).code@.len() as int),
            final(self).jumps == old(self).jumps,
            final(self).holes == old(self).holes,
            final(self).depth == old(self).depth,
    {
        let ghost at = self.code@.len() as int;
        self.write(op, line);
        self.starts = Ghost(self.starts@.insert(at));
    }

    /// Appends a big-endian two-byte operand.
    pub fn write_u16(&mut self, v: u16, line: usize)
        ensures
            final(self).code@.len() == old(self).code@.len() + 2,
            final(self).code@.subrange(0, old(self).code@.len() as int) == old(self).code@,
            be_u16_at(final(self).code@, old(self).code@.len() as int) == v,
            final(self).constants@ == old(self).constants@,
            final(self).name@ == old(self).name@,
            final(self).starts == old(self).starts,
            final(self).jumps == old(self).jumps,
            final(self).holes == old(self).holes,
            final(self).depth == old(self).depth,
    {
        self.write((v / 256) as u8, line);
        self.write((v % 256) as u8, line);
        assert(final(self).code@.subrange(0, old(self).code@.len() as int) =~= old(self).code@);
    }

    /// Adds a constant and returns its index, or `None` once the pool is full.
    pub fn add_constant(&mut self, v: Value) -> (r: Option<u8>)
        ensures
            old(self).constants@.len() < MAX_CONSTANTS ==> r == Some(
                old(self).constants@.len() as u8,
            ) && final(self).constants@ == old(self).constants@.push(v),
            old(self).constants@.len() >= MAX_CONSTANTS ==> r.is_none() && final(self).constants@
                == old(self).constants@,
            final(self).code@ == old(self).code@,
            final(self).name@ == old(self).name@,
            final(self).starts == old(self).starts,
            final(self).jumps == old(self).jumps,
            final(self).holes == old(self).holes,
            final(self).depth == old(self).depth,
    {
        let n = self.constants.len();
        if n < MAX_CONSTANTS {
            self.constants.push(v);
            Some(n as u8)
        } else {
            None
        }
    }

    /// Overwrites the two bytes at `at` with a big-endian operand.
    pub fn patch_u16(&mut self, at: usize, v: u16)
        requires
            at + 2 <= old(self).code@.len(),
        ensures
            final(self).code@.len() == old(self).code@.len(),
            be_u16_at(final(self).code@, at as int) == v,
            forall|i: int|
                0 <= i < old(self).code@.len() && i != at && i != at + 1 ==> final(self).code@[i]
                    == old(self).code@[i],
            final(self).constants@ == old(self).constants@,
            final(self).lines@ == old(self).lines@,
            final(self).name@ == old(self).name@,
            final(self).starts == old(self).starts,
            final(self).jumps == old(self).jumps,
            final(self).holes == old(self).holes,
            final(self).depth == old(self).depth,
    {
        assert(self.code.len() == self.code@.len());
        self.code.set(at, (v / 256) as u8);
        self.code.set(at + 1, (v % 256) as u8);
    }

    pub fn read_byte(&self, ip: usize) -> (r: u8)
        requires
            ip < self.code@.len(),
        ensures
            r == self.code@[ip as int],
    {
        self.code[ip]
    }

    pub fn read_u16(&self, ip: usize) -> (r: u16)
        requires
            ip + 2 <= self.code@.len(),
        ensures
            r as int == be_u16_at(self.code@, ip as int),
    {
        assert(self.code.len() == self.code@.len());
        (self.code[ip] as u16) * 256 + (self.code[ip + 1] as u16)
    }

    pub fn read_u64(&self, ip: usize) -> (r: u64)
        requires
            ip + 8 <= self.code@.len(),
        ensures
            r as int == be_u64_at(self.code@, ip as int),
    {
        assert(self.code.len() == self.code@.len());
        (self.code[ip] as u64) * 0x100000000000000 + (self.code[ip + 1] as u64) * 0x1000000000000
            + (self.code[ip + 2] as u64) * 0x10000000000 + (self.code[ip + 3] as u64) * 0x100000000
            + (self.code[ip + 4] as u64) * 0x1000000 + (self.code[ip + 5] as u64) * 0x10000
            + (self.code[ip + 6] as u64) * 0x100 + (self.code[ip + 7] as u64)
    }

    pub fn get_constant(&self, idx: u8) -> (r: Option<Value>)
        ensures
            (idx as int) < self.constants@.len() ==> r == Some(self.constants@[idx as int]),
            (idx as int) >= self.constants@.len() ==> r.is_none(),
    {
        if (idx as usize) < self.constants.len() {
            Some(self.constants[idx as usize])
        } else {
            None
        }
    }

    /// The source line recorded for the byte at `ip`.
    pub fn line(&self, ip: usize) -> (r: usize)
        ensures
            r == line_at(self.lines@, ip as int),
    {
        let mut i = self.lines.len();
        assert(self.lines@.subrange(0, i as int) =~= self.lines@);
        while i > 0
            invariant
                i <= self.lines@.len(),
                line_at(self.lines@, ip as int) == line_at(self.lines@.subrange(0, i as int), ip as int),
            decreases i,
        {
            let (offset, line) = self.lines[i - 1];
            if offset <= ip {
                return line;
            }
            assert(self.lines@.subrange(0, i as int).drop_last() =~= self.lines@.subrange(0, i - 1));
            i = i - 1;
        }
        0
    }
}

} // verus!
