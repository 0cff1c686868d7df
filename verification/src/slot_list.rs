//! Unordered slot lists with constant-time removal: every list keeps, for each
//! of its slots, the position plus one in a shared position table.

use vstd::prelude::*;

verus! {

/// `v` grown to at least `n` entries of `fill`.
pub open spec fn resized<T>(v: Seq<T>, n: int, fill: T) -> Seq<T> {
    if v.len() >= n {
        v
    } else {
        v + Seq::new((n - v.len()) as nat, |i: int| fill)
    }
}

pub fn grow_to<T: Copy>(v: &mut Vec<T>, n: usize, fill: T)
    ensures
        final(v)@ == resized(old(v)@, n as int, fill),
{
    let ghost orig = v@;
    proof {
        assert(orig + Seq::new(0nat, |i: int| fill) =~= orig);
    }
    while v.len() < n
        invariant
            orig.len() <= v.len(),
            orig.len() <= n ==> v.len() <= n,
            orig.len() > n ==> v@ == orig,
            v@ == orig + Seq::new((v.len() - orig.len()) as nat, |i: int| fill),
        decreases n - v.len(),
    {
        v.push(fill);
        proof {
            assert(v@ =~= orig + Seq::new((v.len() - orig.len()) as nat, |i: int| fill));
        }
    }
    proof {
        assert(v@ =~= resized(orig, n as int, fill));
    }
}

/// Position plus one of slot `s`; 0 when it is in no list.
pub open spec fn pos_at(pos: Seq<u32>, s: int) -> u32 {
    if 0 <= s < pos.len() {
        pos[s]
    } else {
        0
    }
}

/// `list` holds exactly the slots of `set`, once each, and `pos` finds them.
pub open spec fn list_ok(list: Seq<u32>, pos: Seq<u32>, set: Set<u32>) -> bool {
    &&& forall|k: int|
        0 <= k < list.len() ==> set.contains(#[trigger] list[k]) && pos_at(pos, list[k] as int)
            == k + 1
    &&& forall|s: u32| #[trigger]
        set.contains(s) ==> {
            &&& 0 < pos_at(pos, s as int) <= list.len()
            &&& list[pos_at(pos, s as int) - 1] == s
        }
}

/// A list over slots below `n` that lacks one of them has fewer than `n`
/// entries.
pub proof fn lemma_list_len_without(
    list: Seq<u32>,
    pos: Seq<u32>,
    set: Set<u32>,
    n: int,
    slot: u32,
)
    requires
        list_ok(list, pos, set),
        forall|s: u32| #[trigger] set.contains(s) ==> s < n,
        !set.contains(slot),
        slot < n,
    ensures
        list.len() < n,
{
    let ints = list.map(|i: int, x: u32| x as int);
    assert forall|i: int, j: int| 0 <= i < ints.len() && 0 <= j < ints.len() && i != j implies ints[i]
        != ints[j] by {
        assert(set.contains(list[i]) && set.contains(list[j]));
    }
    assert(ints.no_duplicates());
    ints.unique_seq_to_set();
    vstd::set_lib::lemma_int_range(0, n);
    let others = vstd::set_lib::set_int_range(0, n).remove(slot as int);
    assert forall|x: int| ints.to_set().contains(x) implies others.contains(x) by {
        let k = choose|k: int| 0 <= k < ints.len() && ints[k] == x;
        assert(set.contains(list[k]));
    }
    vstd::set_lib::lemma_len_subset(ints.to_set(), others);
}

/// Adds `slot` to the list; `pos` changes at `slot` alone.
pub fn list_insert(list: &mut Vec<u32>, pos: &mut Vec<u32>, slot: u32, Ghost(set): Ghost<Set<u32>>)
    requires
        list_ok(old(list)@, old(pos)@, set),
        !set.contains(slot),
        old(list).len() < u32::MAX,
        slot < old(pos).len(),
    ensures
        list_ok(final(list)@, final(pos)@, set.insert(slot)),
        final(list)@ == old(list)@.push(slot),
        final(pos).len() == old(pos).len(),
        forall|s: int| 0 <= s < old(pos).len() && s != slot ==> #[trigger] final(pos)[s] == old(pos)[s],
{
    list.push(slot);
    pos.set(slot as usize, list.len() as u32);
    proof {
        let l = list@;
        let p = pos@;
        assert forall|k: int| 0 <= k < l.len() implies set.insert(slot).contains(#[trigger] l[k])
            && pos_at(p, l[k] as int) == k + 1 by {
            if k < old(list)@.len() {
                assert(set.contains(old(list)@[k]));
                assert(l[k] == old(list)@[k]);
            }
        }
        assert forall|s: u32| #[trigger] set.insert(slot).contains(s) implies {
            &&& 0 < pos_at(p, s as int) <= l.len()
            &&& l[pos_at(p, s as int) - 1] == s
        } by {
            if s != slot {
                assert(set.contains(s));
            }
        }
    }
}

/// Takes `slot` out of the list by moving the last entry into its place; `pos`
/// changes at `slot` and at the entry that moved.
pub fn list_remove(list: &mut Vec<u32>, pos: &mut Vec<u32>, slot: u32, Ghost(set): Ghost<Set<u32>>)
    requires
        list_ok(old(list)@, old(pos)@, set),
        set.contains(slot),
    ensures
        list_ok(final(list)@, final(pos)@, set.remove(slot)),
        final(list).len() == old(list).len() - 1,
        final(pos).len() == old(pos).len(),
        pos_at(final(pos)@, slot as int) == 0,
        forall|s: int|
            0 <= s < old(pos).len() && s != slot && !set.contains(s as u32)
                ==> #[trigger] final(pos)[s] == old(pos)[s],
{
    let ghost l0 = list@;
    let ghost p0 = pos@;
    let at: usize = (pos[slot as usize] - 1) as usize;
    list.swap_remove(at);
    pos.set(slot as usize, 0);
    if at < list.len() {
        let moved: u32 = list[at];
        proof {
            assert(moved == l0[l0.len() - 1]);
            assert(set.contains(l0[l0.len() - 1]));
            assert(pos_at(p0, moved as int) == l0.len());
        }
        pos.set(moved as usize, (at + 1) as u32);
    }
    proof {
        let l = list@;
        let p = pos@;
        let last = l0[l0.len() - 1];
        assert(set.contains(l0[at as int]));
        assert forall|k: int| 0 <= k < l.len() implies set.remove(slot).contains(#[trigger] l[k])
            && pos_at(p, l[k] as int) == k + 1 by {
            if k == at {
                assert(l[k] == last);
                assert(set.contains(l0[l0.len() - 1]));
            } else {
                assert(l[k] == l0[k]);
                assert(set.contains(l0[k]));
            }
        }
        assert forall|s: u32| #[trigger] set.remove(slot).contains(s) implies {
            &&& 0 < pos_at(p, s as int) <= l.len()
            &&& l[pos_at(p, s as int) - 1] == s
        } by {
            assert(set.contains(s));
            let q = pos_at(p0, s as int) - 1;
            assert(l0[q] == s);
            if q == l0.len() - 1 {
                assert(s == last);
            } else {
                assert(l[q] == l0[q]);
                assert(s != last) by {
                    assert(set.contains(l0[l0.len() - 1]));
                    assert(pos_at(p0, last as int) == l0.len());
                }
            }
        }
    }
}

/// A list that holds neither of the slots whose position changed is as it was.
pub proof fn lemma_list_frame(list: Seq<u32>, p0: Seq<u32>, p1: Seq<u32>, set: Set<u32>)
    requires
        list_ok(list, p0, set),
        forall|s: u32| #[trigger] set.contains(s) ==> pos_at(p1, s as int) == pos_at(p0, s as int),
    ensures
        list_ok(list, p1, set),
{
}

/// Growing a table keeps what it holds, fills what is new, and never makes it shorter.
pub proof fn law_growing_keeps_what_is_there<T>(v: Seq<T>, n: int, fill: T, i: int)
    requires
        0 <= i < resized(v, n, fill).len(),
    ensures
        resized(v, n, fill).len() >= n,
        resized(v, n, fill).len() == v.len() || resized(v, n, fill).len() == n,
        resized(v, n, fill).len() >= v.len(),
        i < v.len() ==> resized(v, n, fill)[i] == v[i],
        i >= v.len() ==> resized(v, n, fill)[i] == fill,
{
}

} // verus!
