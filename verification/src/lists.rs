use vstd::prelude::*;
use crate::account_map::AccountMap;
use crate::types::AccountId;

verus! {

/// The contents of a map of lists, each list taken as a sequence.
pub open spec fn list_view(m: Map<u64, Vec<AccountId>>) -> Map<u64, Seq<AccountId>> {
    m.map_values(|v: Vec<AccountId>| v@)
}

/// `x` appended to the list under `k`, which is created if missing.
pub open spec fn pushed(m: Map<u64, Seq<AccountId>>, k: u64, x: AccountId) -> Map<u64, Seq<AccountId>> {
    m.insert(k, if m.dom().contains(k) { m[k].push(x) } else { seq![x] })
}

/// `i` is the first position of `x` in `s`.
pub open spec fn is_first_index(s: Seq<AccountId>, x: AccountId, i: int) -> bool {
    &&& 0 <= i < s.len()
    &&& s[i] == x
    &&& forall|j: int| 0 <= j < i ==> s[j] != x
}

/// The first position of `x` in `s` (meaningful when `s` contains `x`).
pub open spec fn first_index(s: Seq<AccountId>, x: AccountId) -> int {
    choose|i: int| is_first_index(s, x, i)
}

/// `s` with its element at `i` replaced by its last element, then
/// shortened by one.
pub open spec fn swap_removed(s: Seq<AccountId>, i: int) -> Seq<AccountId> {
    s.update(i, s.last()).drop_last()
}

/// One more element of a prefix: the prefix of length `i + 1` holds what
/// the prefix of length `i` holds and `s[i]`.
pub proof fn lemma_take_one_more<T>(s: Seq<T>, i: int)
    requires
        0 <= i < s.len(),
    ensures
        forall|k: T| #[trigger] s.take(i + 1).contains(k) <==> s.take(i).contains(k) || k == s[i],
{
    let t0 = s.take(i);
    let t1 = s.take(i + 1);
    assert forall|k: T| #[trigger] t1.contains(k) <==> t0.contains(k) || k == s[i] by {
        if t1.contains(k) && k != s[i] {
            let j = choose|j: int| 0 <= j < t1.len() && t1[j] == k;
            assert(t0[j] == k);
        }
        if t0.contains(k) {
            let j = choose|j: int| 0 <= j < t0.len() && t0[j] == k;
            assert(t1[j] == k);
        }
        if k == s[i] {
            assert(t1[i] == k);
        }
    }
}

/// Removing the element at `i` keeps every other element and adds none.
pub proof fn lemma_swap_removed_keeps(s: Seq<AccountId>, i: int)
    requires
        0 <= i < s.len(),
    ensures
        forall|x: AccountId| s.contains(x) && x != s[i] ==> #[trigger] swap_removed(s, i).contains(x),
        forall|x: AccountId| #[trigger] swap_removed(s, i).contains(x) ==> s.contains(x),
{
    let t = swap_removed(s, i);
    let n = s.len() - 1;
    assert forall|x: AccountId| s.contains(x) && x != s[i] implies #[trigger] t.contains(x) by {
        let a = choose|a: int| 0 <= a < s.len() && s[a] == x;
        if a == n {
            assert(t[i] == x);
        } else {
            assert(t[a] == x);
        }
    }
    assert forall|x: AccountId| #[trigger] t.contains(x) implies s.contains(x) by {
        let a = choose|a: int| 0 <= a < t.len() && t[a] == x;
        if a == i {
            assert(s[n] == x);
        } else {
            assert(s[a] == x);
        }
    }
}

/// Appending to a list keeps what every list holds and adds `x` to the
/// list under `k`.
pub proof fn lemma_pushed_keeps(m: Map<u64, Seq<AccountId>>, k: u64, x: AccountId)
    ensures
        pushed(m, k, x).dom().contains(k),
        pushed(m, k, x)[k].contains(x),
        forall|o: u64, y: AccountId|
            m.dom().contains(o) && #[trigger] m[o].contains(y) ==> pushed(m, k, x).dom().contains(o)
                && #[trigger] pushed(m, k, x)[o].contains(y),
        forall|o: u64, y: AccountId|
            #[trigger] pushed(m, k, x).dom().contains(o) && #[trigger] pushed(m, k, x)[o].contains(y) ==> (o == k
                && y == x) || (m.dom().contains(o) && m[o].contains(y)),
{
    let p = pushed(m, k, x);
    if m.dom().contains(k) {
        assert(p[k][m[k].len() as int] == x);
    } else {
        assert(p[k][0] == x);
    }
    assert forall|o: u64, y: AccountId|
        m.dom().contains(o) && #[trigger] m[o].contains(y) implies p.dom().contains(o) && #[trigger] p[o].contains(y) by {
        if o == k {
            let j = choose|j: int| 0 <= j < m[o].len() && m[o][j] == y;
            assert(p[o][j] == y);
        }
    }
    assert forall|o: u64, y: AccountId|
        #[trigger] p.dom().contains(o) && #[trigger] p[o].contains(y) implies (o == k && y == x) || (m.dom().contains(o)
            && m[o].contains(y)) by {
        if o == k && y != x {
            let j = choose|j: int| 0 <= j < p[o].len() && p[o][j] == y;
            if m.dom().contains(k) {
                assert(m[k][j] == y);
            }
        }
    }
}

/// Removing the element at `i` from a list without repeats leaves a list
/// without repeats that holds every other element.
pub proof fn lemma_swap_removed(s: Seq<AccountId>, i: int)
    requires
        0 <= i < s.len(),
        s.no_duplicates(),
    ensures
        swap_removed(s, i).len() == s.len() - 1,
        swap_removed(s, i).no_duplicates(),
        forall|x: AccountId| #[trigger] swap_removed(s, i).contains(x) <==> s.contains(x) && x != s[i],
{
    let t = swap_removed(s, i);
    let n = s.len() - 1;
    assert forall|a: int, b: int| 0 <= a < t.len() && 0 <= b < t.len() && a != b implies t[a] != t[b] by {
        let sa = if a == i { n } else { a };
        let sb = if b == i { n } else { b };
        assert(t[a] == s[sa]);
        assert(t[b] == s[sb]);
    }
    assert forall|x: AccountId| #[trigger] t.contains(x) <==> s.contains(x) && x != s[i] by {
        if t.contains(x) {
            let a = choose|a: int| 0 <= a < t.len() && t[a] == x;
            let sa = if a == i { n } else { a };
            assert(s[sa] == x);
        }
        if s.contains(x) && x != s[i] {
            let a = choose|a: int| 0 <= a < s.len() && s[a] == x;
            if a == n {
                assert(t[i] == x);
            } else {
                assert(t[a] == x);
            }
        }
    }
}

/// The first position of `x` in `v`, if any.
pub fn position(v: &Vec<AccountId>, x: AccountId) -> (r: Option<usize>)
    ensures
        match r {
            Some(i) => is_first_index(v@, x, i as int) && first_index(v@, x) == i,
            None => !v@.contains(x),
        },
{
    let mut i: usize = 0;
    while i < v.len()
        invariant
            i <= v@.len(),
            forall|j: int| 0 <= j < i ==> v@[j] != x,
        decreases v@.len() - i,
    {
        if v[i] == x {
            proof {
                assert(is_first_index(v@, x, i as int));
                let c = first_index(v@, x);
                assert(is_first_index(v@, x, c));
                if c < i {
                } else if c > i {
                    assert(v@[i as int] != x);
                }
            }
            return Some(i);
        }
        i = i + 1;
    }
    None
}

/// Appends `x` to the list under `k`, creating the list if missing.
pub fn push_to_list(map: &mut AccountMap<Vec<AccountId>>, k: u64, x: AccountId)
    requires
        old(map).wf(),
    ensures
        final(map).wf(),
        list_view(final(map)@) == pushed(list_view(old(map)@), k, x),
{
    match map.remove(k) {
        Some(mut v) => {
            v.push(x);
            map.insert(k, v);
        },
        None => {
            let mut v: Vec<AccountId> = Vec::new();
            v.push(x);
            map.insert(k, v);
            assert(v@ =~= seq![x]);
        },
    }
    assert(list_view(map@) =~= pushed(list_view(old(map)@), k, x));
}

/// Removes the first `x` from the list under `k` by moving the list's last
/// element into its place. Requires the list to hold `x`.
pub fn swap_remove_from_list(map: &mut AccountMap<Vec<AccountId>>, k: u64, x: AccountId, i: usize)
    requires
        old(map).wf(),
        old(map)@.dom().contains(k),
        is_first_index(old(map)@[k]@, x, i as int),
    ensures
        final(map).wf(),
        list_view(final(map)@) == list_view(old(map)@).insert(k, swap_removed(old(map)@[k]@, first_index(old(map)@[k]@, x))),
{
    let ghost s = old(map)@[k]@;
    proof {
        let c = first_index(s, x);
        assert(is_first_index(s, x, c));
        if c < i {
        } else if c > i {
            assert(s[i as int] != x);
        }
    }
    match map.remove(k) {
        Some(mut v) => {
            v.swap_remove(i);
            map.insert(k, v);
        },
        None => {},
    }
    assert(list_view(map@) =~= list_view(old(map)@).insert(k, swap_removed(s, i as int)));
}

} // verus!
