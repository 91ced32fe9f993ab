use vstd::prelude::*;

use crate::complete::{HeadState, ModeState};
use crate::layout::{first_index, lemma_first_index};
use crate::partial::{PartialHeadState, PartialModeState};

verus! {

/// A record that carries the protocol id of its object.
pub trait Keyed {
    spec fn key(&self) -> u32;

    fn id(&self) -> (r: u32)
        ensures
            r == self.key(),
    ;
}

impl Keyed for HeadState {
    open spec fn key(&self) -> u32 {
        self.id
    }

    fn id(&self) -> (r: u32) {
        self.id
    }
}

impl Keyed for ModeState {
    open spec fn key(&self) -> u32 {
        self.id
    }

    fn id(&self) -> (r: u32) {
        self.id
    }
}

impl Keyed for PartialHeadState {
    open spec fn key(&self) -> u32 {
        self.id
    }

    fn id(&self) -> (r: u32) {
        self.id
    }
}

impl Keyed for PartialModeState {
    open spec fn key(&self) -> u32 {
        self.id
    }

    fn id(&self) -> (r: u32) {
        self.id
    }
}

/// Whether a record has the id `id`.
pub open spec fn has_key<T: Keyed>(id: u32) -> spec_fn(T) -> bool {
    |x: T| x.key() == id
}

/// The position of the first record with id `id`, or -1.
pub open spec fn key_index<T: Keyed>(s: Seq<T>, id: u32) -> int {
    first_index(s, has_key::<T>(id))
}

/// The first record with id `id`.
pub open spec fn lookup<T: Keyed>(s: Seq<T>, id: u32) -> Option<T> {
    if key_index(s, id) >= 0 {
        Some(s[key_index(s, id)])
    } else {
        None
    }
}

/// The records of `s` without those with id `id`, in order.
pub open spec fn without_key<T: Keyed>(s: Seq<T>, id: u32) -> Seq<T>
    decreases s.len(),
{
    if s.len() == 0 {
        s
    } else {
        let rest = without_key(s.drop_last(), id);
        if s.last().key() == id {
            rest
        } else {
            rest.push(s.last())
        }
    }
}

pub proof fn lemma_key_index<T: Keyed>(s: Seq<T>, id: u32)
    ensures
        -1 <= key_index(s, id) < s.len(),
        key_index(s, id) >= 0 ==> s[key_index(s, id)].key() == id,
        forall|j: int| 0 <= j < key_index(s, id) ==> (#[trigger] s[j]).key() != id,
        key_index(s, id) == -1 ==> forall|j: int| 0 <= j < s.len() ==> (#[trigger] s[j]).key() != id,
{
    lemma_first_index(s, has_key::<T>(id));
    assert forall|j: int| 0 <= j < key_index(s, id) implies (#[trigger] s[j]).key() != id by {
        assert(!has_key::<T>(id)(s[j]));
    }
    if key_index(s, id) == -1 {
        assert forall|j: int| 0 <= j < s.len() implies (#[trigger] s[j]).key() != id by {
            assert(!has_key::<T>(id)(s[j]));
        }
    }
}

proof fn lemma_same_key_positions<T: Keyed>(s: Seq<T>, t: Seq<T>, id: u32)
    requires
        s.len() == t.len(),
        forall|j: int| 0 <= j < s.len() ==> ((#[trigger] s[j]).key() == id <==> t[j].key() == id),
    ensures
        key_index(s, id) == key_index(t, id),
{
    lemma_key_index(s, id);
    lemma_key_index(t, id);
    let a = key_index(s, id);
    let b = key_index(t, id);
    if a >= 0 {
        assert(t[a].key() == id);
    }
    if b >= 0 {
        assert(s[b].key() == id);
    }
}

/// Setting the first record of an id to another record of that id changes the
/// lookup of that id alone.
pub proof fn lemma_lookup_after_set<T: Keyed>(s: Seq<T>, k: int, x: T, id: u32)
    requires
        0 <= k < s.len(),
        s[k].key() == x.key(),
        key_index(s, x.key()) == k,
    ensures
        lookup(s.update(k, x), id) == (if id == x.key() {
            Some(x)
        } else {
            lookup(s, id)
        }),
{
    let t = s.update(k, x);
    assert forall|j: int| 0 <= j < s.len() implies ((#[trigger] s[j]).key() == id <==> t[j].key()
        == id) by {
        if j == k {
            assert(t[j] == x);
        } else {
            assert(t[j] == s[j]);
        }
    }
    lemma_same_key_positions(s, t, id);
    lemma_key_index(s, id);
    if key_index(s, id) >= 0 && key_index(s, id) != k {
        assert(t[key_index(s, id)] == s[key_index(s, id)]);
    }
}

/// Appending a record of an id that no record has changes the lookup of that id alone.
pub proof fn lemma_lookup_after_push<T: Keyed>(s: Seq<T>, x: T, id: u32)
    requires
        key_index(s, x.key()) == -1,
    ensures
        lookup(s.push(x), id) == (if id == x.key() {
            Some(x)
        } else {
            lookup(s, id)
        }),
{
    let t = s.push(x);
    lemma_key_index(s, id);
    lemma_key_index(t, id);
    lemma_key_index(s, x.key());
    assert forall|j: int| 0 <= j < s.len() implies #[trigger] t[j] == s[j] by {}
    if id == x.key() {
        assert(t[s.len() as int] == x);
        if key_index(t, id) < s.len() && key_index(t, id) >= 0 {
            assert(s[key_index(t, id)].key() == id);
        }
    } else {
        assert(t.drop_last() =~= s);
        assert(key_index(t, id) == key_index(s, id)) by {
            let a = key_index(s, id);
            let b = key_index(t, id);
            if a >= 0 {
                assert(t[a].key() == id);
            }
            if b >= 0 {
                assert(b < s.len());
                assert(s[b].key() == id);
            }
        }
    }
}

/// Whether every two records at different positions are related by `r`.
pub open spec fn pairwise<T>(s: Seq<T>, r: spec_fn(T, T) -> bool) -> bool {
    forall|i: int, j: int| 0 <= i < s.len() && 0 <= j < s.len() && i != j ==> r(#[trigger] s[i], #[trigger] s[j])
}

/// Whether two records have different ids.
pub open spec fn distinct_keys<T: Keyed>() -> spec_fn(T, T) -> bool {
    |a: T, b: T| a.key() != b.key()
}

pub proof fn lemma_without_key_members<T: Keyed>(s: Seq<T>, id: u32)
    ensures
        forall|x: T| #[trigger] without_key(s, id).contains(x) ==> s.contains(x) && x.key() != id,
    decreases s.len(),
{
    if s.len() > 0 {
        lemma_without_key_members(s.drop_last(), id);
        let rest = without_key(s.drop_last(), id);
        assert forall|x: T| #[trigger] without_key(s, id).contains(x) implies s.contains(x) && x.key()
            != id by {
            if rest.contains(x) {
                let k = choose|k: int| 0 <= k < s.drop_last().len() && s.drop_last()[k] == x;
                assert(s[k] == x);
            } else {
                let w = without_key(s, id);
                let k = choose|k: int| 0 <= k < w.len() && w[k] == x;
                assert(w == rest.push(s.last()));
                if k < rest.len() {
                    assert(rest[k] == x);
                }
                assert(s[s.len() - 1] == x);
            }
        }
    }
}

/// Removing the records of an id keeps any pairwise relation among the others.
pub proof fn lemma_without_key_pairwise<T: Keyed>(s: Seq<T>, id: u32, r: spec_fn(T, T) -> bool)
    requires
        pairwise(s, r),
    ensures
        pairwise(without_key(s, id), r),
    decreases s.len(),
{
    if s.len() > 0 {
        let init = s.drop_last();
        assert(pairwise(init, r)) by {
            assert forall|i: int, j: int| 0 <= i < init.len() && 0 <= j < init.len() && i != j implies r(
                #[trigger] init[i],
                #[trigger] init[j],
            ) by {
                assert(init[i] == s[i] && init[j] == s[j]);
            }
        }
        lemma_without_key_pairwise(init, id, r);
        lemma_without_key_members(init, id);
        let rest = without_key(init, id);
        if s.last().key() != id {
            let w = rest.push(s.last());
            assert forall|i: int, j: int| 0 <= i < w.len() && 0 <= j < w.len() && i != j implies r(
                #[trigger] w[i],
                #[trigger] w[j],
            ) by {
                if i < rest.len() && j < rest.len() {
                    assert(w[i] == rest[i] && w[j] == rest[j]);
                } else if i < rest.len() {
                    assert(w[i] == rest[i]);
                    assert(rest.contains(rest[i]));
                    let k = choose|k: int| 0 <= k < init.len() && init[k] == rest[i];
                    assert(s[k] == rest[i]);
                    assert(r(s[k], s[s.len() - 1]));
                } else {
                    assert(w[j] == rest[j]);
                    assert(rest.contains(rest[j]));
                    let k = choose|k: int| 0 <= k < init.len() && init[k] == rest[j];
                    assert(s[k] == rest[j]);
                    assert(r(s[s.len() - 1], s[k]));
                }
            }
        }
    }
}

/// The position of the first record with id `id`.
pub fn index_of<T: Keyed>(v: &Vec<T>, id: u32) -> (r: Option<usize>)
    ensures
        match r {
            Some(k) => k as int == key_index(v@, id) && k < v@.len(),
            None => key_index(v@, id) == -1,
        },
{
    let mut i: usize = 0;
    while i < v.len()
        invariant
            i <= v@.len(),
            forall|j: int| 0 <= j < i ==> (#[trigger] v@[j]).key() != id,
        decreases v@.len() - i,
    {
        if v[i].id() == id {
            proof {
                lemma_key_index(v@, id);
            }
            return Some(i);
        }
        i += 1;
    }
    proof {
        lemma_key_index(v@, id);
    }
    None
}

/// Removes every record with id `id`, keeping the order of the others.
pub fn remove_key<T: Keyed>(v: &mut Vec<T>, id: u32)
    ensures
        final(v)@ == without_key(old(v)@, id),
{
    let ghost initial = v@;
    let ghost mut j: int = 0;
    let mut i: usize = 0;
    while i < v.len()
        invariant
            0 <= i <= v@.len(),
            0 <= j <= initial.len(),
            v@.len() - i == initial.len() - j,
            v@.subrange(0, i as int) == without_key(initial.subrange(0, j), id),
            v@.subrange(i as int, v@.len() as int) == initial.subrange(j, initial.len() as int),
        decreases v@.len() - i,
    {
        assert(initial.subrange(0, j + 1).drop_last() =~= initial.subrange(0, j));
        assert(v@[i as int] == initial[j]) by {
            assert(v@.subrange(i as int, v@.len() as int)[0] == initial.subrange(
                j,
                initial.len() as int,
            )[0]);
        }
        let ghost before = v@;
        let ghost tail = initial.subrange(j, initial.len() as int);
        assert(before.subrange(i as int, before.len() as int) == tail);
        assert(tail.subrange(1, tail.len() as int) =~= initial.subrange(j + 1, initial.len() as int));
        if v[i].id() == id {
            v.remove(i);
            assert(v@.subrange(0, i as int) =~= before.subrange(0, i as int));
            assert(v@.subrange(i as int, v@.len() as int) =~= before.subrange(
                i as int,
                before.len() as int,
            ).subrange(1, tail.len() as int));
        } else {
            assert(v@.subrange(0, i as int + 1) =~= v@.subrange(0, i as int).push(v@[i as int]));
            assert(v@.subrange(i as int + 1, v@.len() as int) =~= before.subrange(
                i as int,
                before.len() as int,
            ).subrange(1, tail.len() as int));
            i += 1;
        }
        proof {
            j = j + 1;
        }
    }
    assert(initial.subrange(0, j) =~= initial);
    assert(v@.subrange(0, i as int) =~= v@);
}

} // verus!
