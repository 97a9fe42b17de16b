use vstd::prelude::*;

use crate::object::{cell_value, child_values, refers_to, Closure, Object, UpValue};
use crate::value::{Handle, Value};

verus! {

/// Number of `true` entries.
pub open spec fn count_true(s: Seq<bool>) -> nat
    decreases s.len(),
{
    if s.len() == 0 {
        0
    } else {
        count_true(s.drop_last()) + if s.last() {
            1nat
        } else {
            0nat
        }
    }
}

proof fn lemma_count_true_bound(s: Seq<bool>)
    ensures
        count_true(s) <= s.len(),
    decreases s.len(),
{
    if s.len() > 0 {
        lemma_count_true_bound(s.drop_last());
    }
}

proof fn lemma_count_true_set(s: Seq<bool>, i: int)
    requires
        0 <= i < s.len(),
        !s[i],
    ensures
        count_true(s.update(i, true)) == count_true(s) + 1,
    decreases s.len(),
{
    let t = s.update(i, true);
    if i < s.len() - 1 {
        assert(t.drop_last() =~= s.drop_last().update(i, true));
        lemma_count_true_set(s.drop_last(), i);
    } else {
        assert(t.drop_last() =~= s.drop_last());
    }
}

/// Number of occupied slots.
pub open spec fn count_live(slots: Seq<Option<Object>>) -> nat
    decreases slots.len(),
{
    if slots.len() == 0 {
        0
    } else {
        count_live(slots.drop_last()) + if slots.last() is Some {
            1nat
        } else {
            0nat
        }
    }
}

proof fn lemma_count_live_bound(s: Seq<Option<Object>>)
    ensures
        count_live(s) <= s.len(),
    decreases s.len(),
{
    if s.len() > 0 {
        lemma_count_live_bound(s.drop_last());
    }
}

/// Filling an empty slot adds one; emptying a full one takes one away.
proof fn lemma_count_live_update(s: Seq<Option<Object>>, i: int, v: Option<Object>)
    requires
        0 <= i < s.len(),
    ensures
        count_live(s.update(i, v)) + (if s[i] is Some {
            1int
        } else {
            0int
        }) == count_live(s) + (if v is Some {
            1int
        } else {
            0int
        }),
    decreases s.len(),
{
    let t = s.update(i, v);
    if i < s.len() - 1 {
        assert(t.drop_last() =~= s.drop_last().update(i, v));
        lemma_count_live_update(s.drop_last(), i, v);
    } else {
        assert(t.drop_last() =~= s.drop_last());
    }
}

proof fn lemma_count_live_push(s: Seq<Option<Object>>, v: Option<Object>)
    ensures
        count_live(s.push(v)) == count_live(s) + if v is Some {
            1nat
        } else {
            0nat
        },
{
    assert(s.push(v).drop_last() =~= s);
}

/// Whether `live` and `dead` heaps stand in the relation a collection from
/// `roots` must establish: the slot count is kept, every live root keeps its
/// object, and every object that survives is unchanged and still finds each
/// object it refers to where it was.
pub open spec fn collected_from(cells: Seq<UpValue>, 
    before: Seq<Option<Object>>,
    after: Seq<Option<Object>>,
    roots: Seq<Handle>,
) -> bool {
    &&& after.len() == before.len()
    &&& forall|j: int|
        0 <= j < roots.len() && roots[j] < before.len() && before[roots[j] as int] is Some
            ==> #[trigger] after[roots[j] as int] == before[roots[j] as int]
    &&& forall|p: int|
        0 <= p < after.len() && #[trigger] after[p] is Some ==> {
            &&& after[p] == before[p]
            &&& forall|q: Handle|
                q < before.len() && before[q as int] is Some && #[trigger] refers_to(cells, 
                    before[p].unwrap(),
                    q,
                ) ==> after[q as int] == before[q as int]
        }
}

/// A root that was live before a collection still holds its object after it.
pub proof fn lemma_root_kept(cells: Seq<UpValue>, 
    before: Seq<Option<Object>>,
    after: Seq<Option<Object>>,
    roots: Seq<Handle>,
    h: Handle,
)
    requires
        collected_from(cells, before, after, roots),
        roots.contains(h),
        h < before.len(),
        before[h as int] is Some,
    ensures
        after[h as int] == before[h as int],
{
    let j = choose|j: int| 0 <= j < roots.len() && roots[j] == h;
    assert(after[roots[j] as int] == before[roots[j] as int]);
}

/// Whatever a sequence holds, a sequence that extends it holds too.
pub proof fn lemma_contains_extended(short: Seq<Handle>, long: Seq<Handle>, h: Handle)
    requires
        long.len() >= short.len(),
        long.subrange(0, short.len() as int) == short,
        short.contains(h),
    ensures
        long.contains(h),
{
    let w = choose|w: int| 0 <= w < short.len() && short[w] == h;
    assert(long.subrange(0, short.len() as int)[w] == h);
}

/// A chain of live objects, each referring to the next.
pub open spec fn is_path(cells: Seq<UpValue>, slots: Seq<Option<Object>>, path: Seq<Handle>) -> bool {
    &&& forall|i: int| 0 <= i < path.len() ==> #[trigger] path[i] < slots.len() && slots[path[i] as int] is Some
    &&& forall|i: int|
        0 <= i < path.len() - 1 ==> refers_to(cells, #[trigger] slots[path[i] as int].unwrap(), path[i + 1])
}

/// Whether `vals` holds a reference to `h`.
pub open spec fn holds_handle(vals: Seq<Value>, h: Handle) -> bool {
    exists|i: int| 0 <= i < vals.len() && vals[i] == Value::Obj(h)
}

/// Whether `h` can be reached from `roots` through a chain of live objects.
pub open spec fn reachable(cells: Seq<UpValue>, slots: Seq<Option<Object>>, roots: Seq<Handle>, h: Handle) -> bool {
    exists|path: Seq<Handle>|
        path.len() > 0 && roots.contains(path[0]) && is_path(cells, slots, path) && #[trigger] path.last() == h
}

proof fn lemma_root_reachable(cells: Seq<UpValue>, slots: Seq<Option<Object>>, roots: Seq<Handle>, r: Handle)
    requires
        roots.contains(r),
        r < slots.len(),
        slots[r as int] is Some,
    ensures
        reachable(cells, slots, roots, r),
{
    let path = seq![r];
    assert(is_path(cells, slots, path));
    assert(path.last() == r);
}

proof fn lemma_reachable_step(cells: Seq<UpValue>, slots: Seq<Option<Object>>, roots: Seq<Handle>, h: Handle, q: Handle)
    requires
        reachable(cells, slots, roots, h),
        q < slots.len(),
        slots[q as int] is Some,
        refers_to(cells, slots[h as int].unwrap(), q),
    ensures
        reachable(cells, slots, roots, q),
{
    let path = choose|path: Seq<Handle>|
        path.len() > 0 && roots.contains(path[0]) && is_path(cells, slots, path) && #[trigger] path.last() == h;
    let longer = path.push(q);
    assert(longer[0] == path[0]);
    assert forall|i: int| 0 <= i < longer.len() implies #[trigger] longer[i] < slots.len()
        && slots[longer[i] as int] is Some by {
        if i < path.len() {
            assert(longer[i] == path[i]);
        }
    }
    assert forall|i: int| 0 <= i < longer.len() - 1 implies refers_to(cells, 
        #[trigger] slots[longer[i] as int].unwrap(),
        longer[i + 1],
    ) by {
        if i < path.len() - 1 {
            assert(longer[i] == path[i] && longer[i + 1] == path[i + 1]);
            assert(refers_to(cells, slots[path[i] as int].unwrap(), path[i + 1]));
        } else {
            assert(longer[i] == h);
        }
    }
    assert(is_path(cells, slots, longer));
    assert(longer.last() == q);
}

/// Garbage-collection safety: every object reachable from a root before a
/// collection is still there, unchanged, after it.
pub proof fn lemma_collection_keeps_reachable(cells: Seq<UpValue>, 
    before: Seq<Option<Object>>,
    after: Seq<Option<Object>>,
    roots: Seq<Handle>,
    path: Seq<Handle>,
)
    requires
        collected_from(cells, before, after, roots),
        path.len() > 0,
        roots.contains(path[0]),
        is_path(cells, before, path),
    ensures
        forall|i: int| 0 <= i < path.len() ==> after[#[trigger] path[i] as int] == before[path[i] as int],
    decreases path.len(),
{
    if path.len() == 1 {
        assert(path[0] < before.len());
        lemma_root_kept(cells, before, after, roots, path[0]);
    } else {
        let prefix = path.drop_last();
        assert forall|i: int| 0 <= i < prefix.len() - 1 implies refers_to(cells, 
            #[trigger] before[prefix[i] as int].unwrap(),
            prefix[i + 1],
        ) by {
            assert(refers_to(cells, before[path[i] as int].unwrap(), path[i + 1]));
        }
        assert forall|i: int| 0 <= i < prefix.len() implies #[trigger] prefix[i] < before.len()
            && before[prefix[i] as int] is Some by {
            assert(path[i] < before.len());
        }
        lemma_collection_keeps_reachable(cells, before, after, roots, prefix);
        let n = path.len() - 1;
        let p = path[n - 1];
        assert(p == prefix[n - 1]);
        assert(after[p as int] == before[p as int]);
        assert(path[n] < before.len());
        assert(refers_to(cells, before[path[n - 1] as int].unwrap(), path[n]));
        assert(after[path[n] as int] == before[path[n] as int]);
        assert forall|i: int| 0 <= i < path.len() implies after[#[trigger] path[i] as int]
            == before[path[i] as int] by {
            if i < n {
                assert(prefix[i] == path[i]);
            }
        }
    }
}

/// The object store: a slot per handle, with freed slots reused.
pub struct Heap {
    pub slots: Vec<Option<Object>>,
    pub free: Vec<Handle>,
    pub live: usize,
}

impl Heap {
    /// The object counter matches the occupied slots.
    pub open spec fn wf(&self) -> bool {
        self.live == count_live(self.slots@)
    }

    pub open spec fn is_live(&self, h: Handle) -> bool {
        h < self.slots@.len() && self.slots@[h as int] is Some
    }

    pub open spec fn object(&self, h: Handle) -> Object {
        self.slots@[h as int].unwrap()
    }

    pub fn new() -> (r: Heap)
        ensures
            r.slots@.len() == 0,
            r.wf(),
    {
        Heap { slots: Vec::new(), free: Vec::new(), live: 0 }
    }

    /// Number of objects currently held.
    pub fn len(&self) -> (r: usize)
        ensures
            r == self.live,
            self.wf() ==> r == count_live(self.slots@),
    {
        self.live
    }

    /// Stores `obj` in a free slot, or a new one, and returns its handle.
    pub fn insert(&mut self, obj: Object) -> (r: Handle)
        ensures
            r < final(self).slots@.len(),
            final(self).slots@[r as int] == Some(obj),
            r < old(self).slots@.len() ==> old(self).slots@[r as int] is None,
            final(self).slots@.len() == old(self).slots@.len() || (final(self).slots@.len()
                == old(self).slots@.len() + 1 && r == old(self).slots@.len()),
            forall|h: int|
                0 <= h < old(self).slots@.len() && h != r ==> final(self).slots@[h]
                    == old(self).slots@[h],
            old(self).wf() ==> final(self).wf(),
            final(self).live == if old(self).live < usize::MAX {
                (old(self).live + 1) as usize
            } else {
                old(self).live
            },
    {
        while self.free.len() > 0
            invariant
                self.slots@ == old(self).slots@,
                self.live == old(self).live,
            decreases self.free@.len(),
        {
            let i = self.free.pop().unwrap();
            if i < self.slots.len() && self.slots[i].is_none() {
                proof {
                    lemma_count_live_update(self.slots@, i as int, Some(obj));
                    lemma_count_live_bound(self.slots@.update(i as int, Some(obj)));
                }
                self.slots.set(i, Some(obj));
                assert(self.slots.len() == self.slots@.len());
                if self.live < usize::MAX {
                    self.live = self.live + 1;
                }
                return i;
            }
        }
        let n = self.slots.len();
        proof {
            lemma_count_live_push(self.slots@, Some(obj));
        }
        self.slots.push(Some(obj));
        proof {
            lemma_count_live_bound(self.slots@);
        }
        assert(self.slots.len() == self.slots@.len());
        if self.live < usize::MAX {
            self.live = self.live + 1;
        }
        n
    }

    /// The object at `h`, if that slot holds one.
    pub fn get(&self, h: Handle) -> (r: Option<&Object>)
        ensures
            r.is_some() == self.is_live(h),
            r.is_some() ==> *r.unwrap() == self.object(h),
    {
        if h < self.slots.len() {
            match &self.slots[h] {
                Some(o) => Some(o),
                None => None,
            }
        } else {
            None
        }
    }

    /// The values of a closure's upvalue cells that the collector follows.
    fn closure_children(c: &Closure, cells: &Vec<UpValue>) -> (r: Vec<Value>)
        ensures
            r@ == child_values(cells@, Object::Closure(*c)),
    {
        let mut r: Vec<Value> = Vec::new();
        r.push(Value::Obj(c.function));
        let ghost head = seq![Value::Obj(c.function)];
        let mut i: usize = 0;
        while i < c.upvalues.len()
            invariant
                i <= c.upvalues@.len(),
                r@ == head + c.upvalues@.subrange(0, i as int).map_values(|u: usize| cell_value(cells@, u)),
            decreases c.upvalues@.len() - i,
        {
            let u = c.upvalues[i];
            let v = if u < cells.len() {
                match cells[u] {
                    UpValue::Closed(v) => v,
                    UpValue::Open(_) => Value::Nil,
                }
            } else {
                Value::Nil
            };
            r.push(v);
            assert(c.upvalues@.subrange(0, i + 1) =~= c.upvalues@.subrange(0, i as int).push(u));
            assert(r@ =~= head + c.upvalues@.subrange(0, i + 1).map_values(|u: usize| cell_value(cells@, u)));
            i = i + 1;
        }
        assert(c.upvalues@.subrange(0, i as int) =~= c.upvalues@);
        r
    }

    /// Appends the handles among `o`'s children to `work`.
    fn push_children(o: &Object, cells: &Vec<UpValue>, work: &mut Vec<Handle>)
        ensures
            final(work)@.len() >= old(work)@.len(),
            final(work)@.subrange(0, old(work)@.len() as int) == old(work)@,
            forall|q: Handle| #[trigger] refers_to(cells@, *o, q) ==> final(work)@.contains(q),
            forall|k: int|
                old(work)@.len() <= k < final(work)@.len() ==> refers_to(cells@, *o, #[trigger] final(work)@[k]),
    {
        let ghost start = work@;
        match o {
            Object::Closure(c) => {
                let vals = Self::closure_children(c, cells);
                Self::push_handles(&vals, work);
            },
            Object::List(l) => {
                Self::push_handles(l, work);
            },
            Object::Function(f) => {
                Self::push_handles(&f.chunk.constants, work);
            },
            _ => {},
        }
        assert(work@.subrange(0, start.len() as int) =~= start);
        assert forall|q: Handle| #[trigger] refers_to(cells@, *o, q) implies work@.contains(q) by {
            let i = choose|i: int| 0 <= i < child_values(cells@, *o).len() && child_values(cells@, *o)[i] == Value::Obj(q);
        }
        assert forall|k: int| start.len() <= k < work@.len() implies refers_to(cells@, *o, #[trigger] work@[k]) by {
            assert(holds_handle(child_values(cells@, *o), work@[k]));
        }
    }

    /// Appends every handle held in `vals` to `work`.
    pub(crate) fn push_handles(vals: &Vec<Value>, work: &mut Vec<Handle>)
        ensures
            final(work)@.len() >= old(work)@.len(),
            final(work)@.subrange(0, old(work)@.len() as int) == old(work)@,
            forall|k: int, q: Handle|
                0 <= k < vals@.len() && vals@[k] == Value::Obj(q) ==> final(work)@.contains(q),
            forall|k: int|
                old(work)@.len() <= k < final(work)@.len() ==> holds_handle(vals@, #[trigger] final(work)@[k]),
    {
        let ghost start = work@;
        let mut i: usize = 0;
        while i < vals.len()
            invariant
                i <= vals@.len(),
                work@.len() >= start.len(),
                work@.subrange(0, start.len() as int) == start,
                forall|k: int, q: Handle|
                    0 <= k < i && vals@[k] == Value::Obj(q) ==> work@.contains(q),
                forall|k: int|
                    start.len() <= k < work@.len() ==> holds_handle(vals@, #[trigger] work@[k]),
            decreases vals@.len() - i,
        {
            let ghost prev = work@;
            if let Value::Obj(h) = vals[i] {
                work.push(h);
                assert(work@[prev.len() as int] == h);
            }
            assert(match vals@[i as int] {
                Value::Obj(h) => work@ == prev.push(h),
                _ => work@ == prev,
            });
            assert forall|k: int| start.len() <= k < work@.len() implies holds_handle(vals@, #[trigger] work@[k]) by {
                if k < prev.len() {
                    assert(work@[k] == prev[k]);
                } else {
                    assert(vals@[i as int] == Value::Obj(work@[k]));
                }
            }
            assert(work@.subrange(0, start.len() as int) =~= prev.subrange(0, start.len() as int));
            assert forall|k: int, q: Handle|
                0 <= k < i + 1 && vals@[k] == Value::Obj(q) implies work@.contains(q) by {
                if k < i {
                    assert(prev.contains(q));
                    let w = choose|w: int| 0 <= w < prev.len() && prev[w] == q;
                    assert(work@[w] == q);
                } else {
                    assert(work@[prev.len() as int] == q);
                }
            }
            i = i + 1;
        }
    }

    /// Marks every object reachable from `roots`.
    fn mark(&self, roots: &Vec<Handle>, cells: &Vec<UpValue>) -> (marks: Vec<bool>)
        ensures
            marks@.len() == self.slots@.len(),
            forall|j: int|
                0 <= j < roots@.len() && self.is_live(#[trigger] roots@[j]) ==> marks@[roots@[j] as int],
            forall|p: int|
                0 <= p < marks@.len() && #[trigger] marks@[p] ==> {
                    &&& self.slots@[p] is Some
                    &&& forall|q: Handle|
                        self.is_live(q) && #[trigger] refers_to(cells@, self.slots@[p].unwrap(), q)
                            ==> marks@[q as int]
                },
            forall|p: int| 0 <= p < marks@.len() && #[trigger] marks@[p] ==> reachable(cells@, self.slots@, roots@, p as Handle),
    {
        let n = self.slots.len();
        let mut marks: Vec<bool> = Vec::new();
        while marks.len() < n
            invariant
                marks@.len() <= n,
                forall|p: int| 0 <= p < marks@.len() ==> !marks@[p],
                count_true(marks@) == 0,
            decreases n - marks@.len(),
        {
            let ghost m0 = marks@;
            marks.push(false);
            assert(marks@.drop_last() =~= m0);
        }
        let mut work: Vec<Handle> = Vec::new();
        let mut j: usize = 0;
        while j < roots.len()
            invariant
                j <= roots@.len(),
                work@ == roots@.subrange(0, j as int),
            decreases roots@.len() - j,
        {
            work.push(roots[j]);
            assert(work@ =~= roots@.subrange(0, j + 1));
            j = j + 1;
        }
        assert(work@ =~= roots@);
        proof {
            assert forall|k: int| 0 <= k < work@.len() && self.is_live(#[trigger] work@[k]) implies reachable(cells@, 
                self.slots@,
                roots@,
                work@[k],
            ) by {
                assert(roots@.contains(roots@[k]));
                lemma_root_reachable(cells@, self.slots@, roots@, work@[k]);
            }
        }
        let mut count: usize = 0;
        while work.len() > 0
            invariant
                n == self.slots@.len(),
                marks@.len() == n,
                count == count_true(marks@),
                forall|k: int|
                    0 <= k < roots@.len() && self.is_live(#[trigger] roots@[k]) ==> marks@[roots@[k] as int]
                        || work@.contains(roots@[k]),
                forall|p: int|
                    0 <= p < n && #[trigger] marks@[p] ==> {
                        &&& self.slots@[p] is Some
                        &&& forall|q: Handle|
                            self.is_live(q) && #[trigger] refers_to(cells@, self.slots@[p].unwrap(), q)
                                ==> marks@[q as int] || work@.contains(q)
                    },
                forall|p: int| 0 <= p < n && #[trigger] marks@[p] ==> reachable(cells@, self.slots@, roots@, p as Handle),
                forall|k: int|
                    0 <= k < work@.len() && self.is_live(#[trigger] work@[k]) ==> reachable(cells@, self.slots@, roots@, work@[k]),
            decreases n - count, work@.len(),
        {
            proof {
                lemma_count_true_bound(marks@);
            }
            let ghost before = work@;
            let h = work.pop().unwrap();
            assert(before == work@.push(h));
            assert forall|q: Handle| before.contains(q) implies q == h || work@.contains(q) by {
                let w = choose|w: int| 0 <= w < before.len() && before[w] == q;
                if w < work@.len() {
                    assert(work@[w] == q);
                }
            }
            if h < n && !marks[h] {
                if let Some(o) = &self.slots[h] {
                    let ghost mid = work@;
                    assert(self.is_live(before[before.len() - 1]));
                    Self::push_children(o, cells, &mut work);
                    proof {
                        assert forall|k: int| 0 <= k < work@.len() && self.is_live(#[trigger] work@[k]) implies reachable(cells@, 
                            self.slots@,
                            roots@,
                            work@[k],
                        ) by {
                            if k < mid.len() {
                                assert(work@.subrange(0, mid.len() as int)[k] == mid[k]);
                                assert(before[k] == mid[k]);
                            } else {
                                lemma_reachable_step(cells@, self.slots@, roots@, h, work@[k]);
                            }
                        }
                    }
                    assert forall|q: Handle| mid.contains(q) implies work@.contains(q) by {
                        let w = choose|w: int| 0 <= w < mid.len() && mid[w] == q;
                        assert(work@.subrange(0, mid.len() as int)[w] == q);
                    }
                    proof {
                        lemma_count_true_set(marks@, h as int);
                        lemma_count_true_bound(marks@.update(h as int, true));
                    }
                    marks.set(h, true);
                    count = count + 1;
                }
            }
        }
        marks
    }

    /// Frees every slot whose mark is clear.
    fn sweep(&mut self, marks: &Vec<bool>)
        requires
            marks@.len() == old(self).slots@.len(),
        ensures
            final(self).slots@.len() == old(self).slots@.len(),
            forall|p: int| 0 <= p < marks@.len() && marks@[p] ==> final(self).slots@[p] == old(self).slots@[p],
            forall|p: int| 0 <= p < marks@.len() && !marks@[p] ==> final(self).slots@[p] is None,
            old(self).wf() ==> final(self).wf(),
    {
        let n = self.slots.len();
        let mut p: usize = 0;
        while p < n
            invariant
                n == old(self).slots@.len(),
                marks@.len() == n,
                p <= n,
                self.slots@.len() == n,
                forall|k: int| p <= k < n ==> self.slots@[k] == old(self).slots@[k],
                forall|k: int| 0 <= k < n && marks@[k] ==> self.slots@[k] == old(self).slots@[k],
                forall|k: int| 0 <= k < p && !marks@[k] ==> self.slots@[k] is None,
                old(self).wf() ==> self.wf(),
            decreases n - p,
        {
            let ghost slots0 = self.slots@;
            if !marks[p] && self.slots[p].is_some() {
                proof {
                    lemma_count_live_update(self.slots@, p as int, None);
                }
                self.slots.set(p, None);
                assert(self.slots@ == slots0.update(p as int, None));
                self.free.push(p);
                if self.live > 0 {
                    self.live = self.live - 1;
                }
            }
            p = p + 1;
        }
    }

    /// Frees every object that cannot be reached from `roots`.
    pub fn collect(&mut self, roots: &Vec<Handle>, cells: &Vec<UpValue>)
        ensures
            collected_from(cells@, old(self).slots@, final(self).slots@, roots@),
            forall|p: Handle|
                p < old(self).slots@.len() && !reachable(cells@, old(self).slots@, roots@, p) ==> #[trigger] final(self).slots@[p as int] is None,
            old(self).wf() ==> final(self).wf(),
    {
        let ghost before = self.slots@;
        let marks = self.mark(roots, cells);
        self.sweep(&marks);
        proof {
            let after = self.slots@;
            assert forall|j: int|
                0 <= j < roots@.len() && roots@[j] < before.len() && before[roots@[j] as int] is Some
                    implies #[trigger] after[roots@[j] as int] == before[roots@[j] as int] by {
                assert(marks@[roots@[j] as int]);
            }
            assert forall|p: Handle|
                p < before.len() && !reachable(cells@, before, roots@, p) implies #[trigger] after[p as int] is None by {
                if marks@[p as int] {
                    assert(reachable(cells@, before, roots@, (p as int) as Handle));
                    assert((p as int) as Handle == p);
                } else {
                    assert(!marks@[p as int]);
                }
            }
            assert forall|p: int| 0 <= p < after.len() && #[trigger] after[p] is Some implies {
                &&& after[p] == before[p]
                &&& forall|q: Handle|
                    q < before.len() && before[q as int] is Some && #[trigger] refers_to(cells@, 
                        before[p].unwrap(),
                        q,
                    ) ==> after[q as int] == before[q as int]
            } by {
                assert(marks@[p]);
                assert forall|q: Handle|
                    q < before.len() && before[q as int] is Some && #[trigger] refers_to(cells@, 
                        before[p].unwrap(),
                        q,
                    ) implies after[q as int] == before[q as int] by {
                    assert(marks@[q as int]);
                }
            }
        }
    }

    /// Stores `v` at index `i` of the list at `h`: an index inside the list
    /// replaces, the index one past its end appends, any other is refused.
    pub fn list_set(&mut self, h: Handle, i: usize, v: Value) -> (r: bool)
        requires
            old(self).is_live(h),
            old(self).object(h) is List,
        ensures
            r == (i <= old(self).object(h)->List_0@.len()),
            final(self).slots@.len() == old(self).slots@.len(),
            forall|p: int| 0 <= p < old(self).slots@.len() && p != h ==> final(self).slots@[p] == old(self).slots@[p],
            final(self).is_live(h),
            final(self).object(h) is List,
            final(self).object(h)->List_0@ == if i < old(self).object(h)->List_0@.len() {
                old(self).object(h)->List_0@.update(i as int, v)
            } else if i == old(self).object(h)->List_0@.len() {
                old(self).object(h)->List_0@.push(v)
            } else {
                old(self).object(h)->List_0@
            },
            old(self).wf() ==> final(self).wf(),
    {
        self.slots.push(None);
        let taken = self.slots.swap_remove(h);
        assert(self.slots@ =~= old(self).slots@.update(h as int, None));
        proof {
            lemma_count_live_update(old(self).slots@, h as int, None);
        }
        match taken {
            Some(Object::List(mut l)) => {
                let ok = if i < l.len() {
                    l.set(i, v);
                    true
                } else if i == l.len() {
                    l.push(v);
                    true
                } else {
                    false
                };
                proof {
                    lemma_count_live_update(self.slots@, h as int, Some(Object::List(l)));
                }
                self.slots.set(h, Some(Object::List(l)));
                ok
            },
            _ => {
                assert(false);
                false
            },
        }
    }
}

} // verus!
