use vstd::prelude::*;

use crate::value::Value;

verus! {

/// One entry of the global table.
///
/// The table is a list searched from its latest entry. A hashed map keyed by
/// byte strings with a custom hasher has no model that proofs can use, so
/// this representation keeps lookups and updates provable; its contents are
/// the `lookup` map.
pub struct Global {
    pub name: Vec<u8>,
    pub value: Value,
}

/// The value bound to `name`: the latest entry with that name wins.
pub open spec fn lookup(gs: Seq<Global>, name: Seq<u8>) -> Option<Value>
    decreases gs.len(),
{
    if gs.len() == 0 {
        None
    } else if gs.last().name@ == name {
        Some(gs.last().value)
    } else {
        lookup(gs.drop_last(), name)
    }
}

proof fn lemma_lookup_push(gs: Seq<Global>, g: Global, name: Seq<u8>)
    ensures
        lookup(gs.push(g), name) == (if g.name@ == name {
            Some(g.value)
        } else {
            lookup(gs, name)
        }),
{
    assert(gs.push(g).drop_last() =~= gs);
}

proof fn lemma_lookup_update(gs: Seq<Global>, i: int, g: Global, name: Seq<u8>)
    requires
        0 <= i < gs.len(),
        g.name@ == gs[i].name@,
        forall|k: int| i < k < gs.len() ==> gs[k].name@ != gs[i].name@,
    ensures
        lookup(gs.update(i, g), name) == (if g.name@ == name {
            Some(g.value)
        } else {
            lookup(gs, name)
        }),
    decreases gs.len(),
{
    let t = gs.update(i, g);
    if i == gs.len() - 1 {
        assert(t.drop_last() =~= gs.drop_last());
    } else {
        assert(t.drop_last() =~= gs.drop_last().update(i, g));
        lemma_lookup_update(gs.drop_last(), i, g, name);
    }
}

/// Byte-wise equality of two names.
pub fn bytes_eq(a: &Vec<u8>, b: &Vec<u8>) -> (r: bool)
    ensures
        r == (a@ == b@),
{
    if a.len() != b.len() {
        return false;
    }
    let mut i: usize = 0;
    while i < a.len()
        invariant
            a@.len() == b@.len(),
            i <= a@.len(),
            forall|k: int| 0 <= k < i ==> a@[k] == b@[k],
        decreases a@.len() - i,
    {
        if a[i] != b[i] {
            return false;
        }
        i = i + 1;
    }
    assert(a@ =~= b@);
    true
}

/// A fresh copy of a byte string.
pub fn copy_bytes(a: &Vec<u8>) -> (r: Vec<u8>)
    ensures
        r@ == a@,
{
    let mut r: Vec<u8> = Vec::new();
    let mut i: usize = 0;
    while i < a.len()
        invariant
            i <= a@.len(),
            r@ == a@.subrange(0, i as int),
        decreases a@.len() - i,
    {
        r.push(a[i]);
        assert(r@ =~= a@.subrange(0, i + 1));
        i = i + 1;
    }
    assert(r@ =~= a@);
    r
}

/// Index of the latest entry named `name`.
pub fn find_global(gs: &Vec<Global>, name: &Vec<u8>) -> (r: Option<usize>)
    ensures
        r.is_none() ==> lookup(gs@, name@).is_none(),
        r.is_some() ==> r.unwrap() < gs@.len() && gs@[r.unwrap() as int].name@ == name@
            && lookup(gs@, name@) == Some(gs@[r.unwrap() as int].value)
            && forall|k: int| r.unwrap() < k < gs@.len() ==> gs@[k].name@ != name@,
{
    let mut i = gs.len();
    assert(gs@.subrange(0, i as int) =~= gs@);
    while i > 0
        invariant
            i <= gs@.len(),
            lookup(gs@, name@) == lookup(gs@.subrange(0, i as int), name@),
            forall|k: int| i <= k < gs@.len() ==> gs@[k].name@ != name@,
        decreases i,
    {
        assert(gs@.subrange(0, i as int).drop_last() =~= gs@.subrange(0, i - 1));
        if bytes_eq(&gs[i - 1].name, name) {
            return Some(i - 1);
        }
        i = i - 1;
    }
    None
}

/// The value of global `name`, if it is bound.
pub fn get_global(gs: &Vec<Global>, name: &Vec<u8>) -> (r: Option<Value>)
    ensures
        r == lookup(gs@, name@),
{
    match find_global(gs, name) {
        Some(i) => Some(gs[i].value),
        None => None,
    }
}

/// Binds `name` to `value`, replacing any earlier binding.
pub fn define_global(gs: &mut Vec<Global>, name: Vec<u8>, value: Value)
    ensures
        lookup(final(gs)@, name@) == Some(value),
        forall|n: Seq<u8>| n != name@ ==> lookup(final(gs)@, n) == lookup(old(gs)@, n),
{
    let ghost key = name@;
    match find_global(gs, &name) {
        Some(i) => {
            let ghost g0 = gs@;
            gs.set(i, Global { name, value });
            proof {
                assert forall|n: Seq<u8>| true implies lookup(gs@, n) == (if key == n {
                    Some(value)
                } else {
                    lookup(g0, n)
                }) by {
                    lemma_lookup_update(g0, i as int, gs@[i as int], n);
                }
            }
        },
        None => {
            let ghost g0 = gs@;
            gs.push(Global { name, value });
            proof {
                assert forall|n: Seq<u8>| true implies lookup(gs@, n) == (if key == n {
                    Some(value)
                } else {
                    lookup(g0, n)
                }) by {
                    lemma_lookup_push(g0, gs@.last(), n);
                    assert(gs@ == g0.push(gs@.last()));
                }
            }
        },
    }
}

} // verus!
