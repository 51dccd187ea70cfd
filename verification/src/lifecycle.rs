//! The bookkeeping of a tick, on plain sequences: which entries leave, in
//! what order the rest is left, where the newly born go, and which pairs the
//! collision pass visits.

use crate::entity::State;
use vstd::prelude::*;

verus! {

/// `s` after the entry at `i` has given way to the last entry, and the
/// sequence has lost its last place.
pub open spec fn swap_removed<T>(s: Seq<T>, i: int) -> Seq<T>
    recommends
        0 <= i < s.len(),
{
    s.update(i, s.last()).drop_last()
}

/// The places at which `states` reports a death, in ascending order.
pub open spec fn dead_of(states: Seq<State>) -> Seq<usize>
    decreases states.len(),
{
    if states.len() == 0 {
        Seq::empty()
    } else {
        let rest = dead_of(states.drop_last());
        if states.last() == State::Dead {
            rest.push((states.len() - 1) as usize)
        } else {
            rest
        }
    }
}

/// Each place is larger than the one before it.
pub open spec fn ascending(dead: Seq<usize>) -> bool {
    forall|i: int, j: int| 0 <= i < j < dead.len() ==> dead[i] < dead[j]
}

/// `dead` is a list of places that can be swept from a sequence of `len`
/// entries: ascending, and each of them a place of the sequence.
pub open spec fn sweepable(dead: Seq<usize>, len: nat) -> bool {
    &&& ascending(dead)
    &&& forall|k: int| 0 <= k < dead.len() ==> dead[k] < len
}

/// Whether `place` is listed in `dead`.
pub open spec fn listed(dead: Seq<usize>, place: int) -> bool {
    exists|k: int| 0 <= k < dead.len() && #[trigger] dead[k] == place
}

/// What is left of `s` when the entries at the places in `dead` have been
/// removed, the last place first, each by `swap_removed`.
pub open spec fn swept<T>(s: Seq<T>, dead: Seq<usize>) -> Seq<T>
    decreases dead.len(),
{
    if dead.len() == 0 {
        s
    } else {
        swept(swap_removed(s, dead.last() as int), dead.drop_last())
    }
}

/// The places `0, 1, .., n - 1`.
pub open spec fn places(n: nat) -> Seq<int> {
    Seq::new(n, |i: int| i)
}

/// For each place of a swept sequence of `n` entries, the place that its
/// entry had before the sweep.
pub open spec fn origins(n: nat, dead: Seq<usize>) -> Seq<int> {
    swept(places(n), dead)
}

/// The entries of `s` at the places `t`.
pub open spec fn picked<T>(s: Seq<T>, t: Seq<int>) -> Seq<T> {
    Seq::new(t.len(), |k: int| s[t[k]])
}

/// `s` with the newly born behind it, the last born first.
pub open spec fn adopted<T>(s: Seq<T>, born: Seq<T>) -> Seq<T> {
    s + born.reverse()
}

/// The pairs that the entry at `i` forms with the entries before `upto`.
pub open spec fn row(i: int, upto: int) -> Seq<(int, int)> {
    Seq::new(upto as nat, |j: int| (i, j))
}

/// The pairs that a collision pass over `n` entries visits, in the order in
/// which it visits them: each entry with every entry before it.
pub open spec fn pairs(n: nat) -> Seq<(int, int)>
    decreases n,
{
    if n == 0 {
        Seq::empty()
    } else {
        pairs((n - 1) as nat) + row(n - 1, n - 1)
    }
}

/// The deaths that `dead_of` lists are the deaths that `states` reports, and
/// the list can be swept from a sequence as long as `states`.
pub proof fn lemma_dead_of(states: Seq<State>)
    requires
        states.len() <= usize::MAX,
    ensures
        sweepable(dead_of(states), states.len()),
        dead_of(states).len() <= states.len(),
        forall|i: int|
            0 <= i < states.len() ==> (listed(dead_of(states), i) <==> states[i] == State::Dead),
    decreases states.len(),
{
    if states.len() > 0 {
        let front = states.drop_last();
        let rest = dead_of(front);
        let last = states.len() - 1;
        lemma_dead_of(front);
        let dead = dead_of(states);
        if states.last() == State::Dead {
            assert(dead == rest.push(last as usize));
            assert(dead[rest.len() as int] == last);
            assert forall|i: int| 0 <= i < states.len() implies (listed(dead, i) <==> states[i]
                == State::Dead) by {
                if i < last {
                    assert(states[i] == front[i]);
                    if listed(rest, i) {
                        let k = choose|k: int| 0 <= k < rest.len() && #[trigger] rest[k] == i;
                        assert(dead[k] == i);
                    }
                    if listed(dead, i) {
                        let k = choose|k: int| 0 <= k < dead.len() && #[trigger] dead[k] == i;
                        assert(rest[k] == i);
                    }
                }
            }
        } else {
            assert(dead == rest);
            assert forall|i: int| 0 <= i < states.len() implies (listed(dead, i) <==> states[i]
                == State::Dead) by {
                if i < last {
                    assert(states[i] == front[i]);
                }
            }
        }
    }
}

/// A sweep shortens the sequence by one entry for each place that it removes.
pub proof fn lemma_swept_len<T>(s: Seq<T>, dead: Seq<usize>)
    requires
        sweepable(dead, s.len()),
    ensures
        swept(s, dead).len() == s.len() - dead.len(),
    decreases dead.len(),
{
    if dead.len() > 0 {
        let d = dead.last() as int;
        let rest = dead.drop_last();
        assert forall|k: int| 0 <= k < rest.len() implies rest[k] < s.len() - 1 by {
            assert(dead[k] < dead[dead.len() - 1]);
        }
        lemma_swept_len(swap_removed(s, d), rest);
    }
}

/// A sweep of places whose front still holds each place at itself leaves no
/// place twice, and leaves exactly the places that `dead` does not list.
proof fn lemma_swept_places(t: Seq<int>, dead: Seq<usize>, bound: int)
    requires
        ascending(dead),
        forall|k: int| 0 <= k < dead.len() ==> dead[k] < bound,
        0 <= bound <= t.len(),
        t.no_duplicates(),
        forall|k: int| 0 <= k < bound ==> t[k] == k,
    ensures
        swept(t, dead).no_duplicates(),
        forall|x: int| swept(t, dead).contains(x) <==> (t.contains(x) && !listed(dead, x)),
    decreases dead.len(),
{
    if dead.len() > 0 {
        let d = dead.last() as int;
        let rest = dead.drop_last();
        let u = swap_removed(t, d);
        assert(dead[dead.len() - 1] < bound);
        assert forall|k: int| 0 <= k < rest.len() implies rest[k] < d by {
            assert(dead[k] < dead[dead.len() - 1]);
        }
        assert(u.no_duplicates());
        lemma_swept_places(u, rest, d);
        assert forall|x: int| swept(t, dead).contains(x) <==> (t.contains(x) && !listed(
            dead,
            x,
        )) by {
            assert(t[d] == d);
            if u.contains(x) {
                let k = choose|k: int| 0 <= k < u.len() && u[k] == x;
                if k == d {
                    assert(t[t.len() - 1] == x);
                } else {
                    assert(t[k] == x);
                }
                assert(x != d);
            }
            if t.contains(x) && x != d {
                let k = choose|k: int| 0 <= k < t.len() && t[k] == x;
                if k == t.len() - 1 {
                    assert(u[d] == x);
                } else {
                    assert(u[k] == x);
                }
            }
            if listed(rest, x) {
                let k = choose|k: int| 0 <= k < rest.len() && #[trigger] rest[k] == x;
                assert(dead[k] == x);
            }
            if listed(dead, x) && x != d {
                let k = choose|k: int| 0 <= k < dead.len() && #[trigger] dead[k] == x;
                assert(rest[k] == x);
            }
            if x == d {
                assert(dead[dead.len() - 1] == x);
            }
        }
    }
}

/// To sweep the entries of `s` at the places `t` is to sweep the places and
/// then take the entries.
proof fn lemma_swept_picked<T>(s: Seq<T>, t: Seq<int>, dead: Seq<usize>)
    requires
        sweepable(dead, t.len()),
    ensures
        swept(picked(s, t), dead) == picked(s, swept(t, dead)),
    decreases dead.len(),
{
    if dead.len() > 0 {
        let d = dead.last() as int;
        let rest = dead.drop_last();
        assert forall|k: int| 0 <= k < rest.len() implies rest[k] < t.len() - 1 by {
            assert(dead[k] < dead[dead.len() - 1]);
        }
        assert(swap_removed(picked(s, t), d) =~= picked(s, swap_removed(t, d)));
        lemma_swept_picked(s, swap_removed(t, d), rest);
    }
}

/// After the sweep that follows the think phase, the collection holds the
/// entities that reported `Alive`, each of them once, and none that reported
/// `Dead`: `origins` names, for each place of the collection, the place at
/// which its entity stood while it thought.
pub proof fn lemma_sweep_keeps_the_living<T>(s: Seq<T>, states: Seq<State>)
    requires
        s.len() == states.len(),
        states.len() <= usize::MAX,
    ensures
        ({
            let kept = swept(s, dead_of(states));
            let from = origins(s.len(), dead_of(states));
            &&& kept.len() == from.len()
            &&& kept.len() == s.len() - dead_of(states).len()
            &&& from.no_duplicates()
            &&& forall|p: int|
                0 <= p < kept.len() ==> {
                    &&& 0 <= #[trigger] from[p] < s.len()
                    &&& states[from[p]] == State::Alive
                    &&& kept[p] == s[from[p]]
                }
            &&& forall|i: int|
                0 <= i < s.len() && states[i] == State::Alive ==> from.contains(i)
        }),
{
    let dead = dead_of(states);
    let kept = swept(s, dead);
    let from = origins(s.len(), dead);
    let all = places(s.len());
    lemma_dead_of(states);
    lemma_swept_len(s, dead);
    lemma_swept_len(all, dead);
    lemma_swept_places(all, dead, s.len() as int);
    lemma_swept_picked(s, all, dead);
    assert(picked(s, all) =~= s);
    assert forall|p: int| 0 <= p < kept.len() implies {
        &&& 0 <= #[trigger] from[p] < s.len()
        &&& states[from[p]] == State::Alive
        &&& kept[p] == s[from[p]]
    } by {
        assert(from.contains(from[p]));
        assert(all.contains(from[p]));
        let k = choose|k: int| 0 <= k < all.len() && all[k] == from[p];
        assert(!listed(dead, from[p]));
    }
    assert forall|i: int| 0 <= i < s.len() && states[i] == State::Alive implies from.contains(
        i,
    ) by {
        assert(all[i] == i);
        assert(all.contains(i));
        assert(!listed(dead, i));
    }
}

/// A collision pass over `n` entries visits the pair `(i, j)` if and only if
/// `j` stands before `i`, and it visits no pair twice. So of two entries it
/// visits one of `(i, j)` and `(j, i)`, never both, and that one once.
pub proof fn lemma_each_pair_meets_once(n: nat)
    ensures
        pairs(n).no_duplicates(),
        forall|i: int, j: int| pairs(n).contains((i, j)) <==> 0 <= j < i < n,
        forall|i: int, j: int| !(pairs(n).contains((i, j)) && pairs(n).contains((j, i))),
    decreases n,
{
    if n > 0 {
        let m = (n - 1) as nat;
        let before = pairs(m);
        let last = row(n - 1, n - 1);
        lemma_each_pair_meets_once(m);
        let all = pairs(n);
        assert(all == before + last);
        assert forall|i: int, j: int| all.contains((i, j)) <==> 0 <= j < i < n by {
            if all.contains((i, j)) {
                let k = choose|k: int| 0 <= k < all.len() && all[k] == (i, j);
                if k < before.len() {
                    assert(before[k] == (i, j));
                    assert(before.contains((i, j)));
                } else {
                    assert(last[k - before.len()] == (i, j));
                }
            }
            if 0 <= j < i < n {
                if i < n - 1 {
                    assert(before.contains((i, j)));
                    let k = choose|k: int| 0 <= k < before.len() && before[k] == (i, j);
                    assert(all[k] == (i, j));
                } else {
                    assert(last[j] == (i, j));
                    assert(all[before.len() + j] == (i, j));
                }
            }
        }
        assert forall|a: int, b: int| 0 <= a < all.len() && 0 <= b < all.len() && a != b implies all[a]
            != all[b] by {
            if a < before.len() && b < before.len() {
                assert(before[a] != before[b]);
            } else if a >= before.len() && b >= before.len() {
                assert(last[a - before.len()] != last[b - before.len()]);
            } else {
                let (lo, hi) = if a < b {
                    (a, b)
                } else {
                    (b, a)
                };
                let pair = before[lo];
                assert(before.contains((pair.0, pair.1)));
                assert(all[hi] == last[hi - before.len()]);
                assert(all[hi].0 == n - 1);
                assert(before[lo].0 < n - 1);
            }
        }
    }
}

/// Removes from `entities` the entries at the places in `dead`, the last
/// place first, each by a swap with the last entry. `dead` is left empty.
pub fn sweep<T>(entities: &mut Vec<T>, dead: &mut Vec<usize>)
    requires
        sweepable(old(dead)@, old(entities)@.len()),
    ensures
        final(entities)@ == swept(old(entities)@, old(dead)@),
        final(dead)@.len() == 0,
{
    while dead.len() > 0
        invariant
            sweepable(dead@, entities@.len()),
            swept(entities@, dead@) == swept(old(entities)@, old(dead)@),
        decreases dead.len(),
    {
        let ghost before = dead@;
        let ghost held = entities@;
        let place = dead.pop();
        match place {
            Some(i) => {
                assert(before[before.len() - 1] == i);
                entities.swap_remove(i);
                assert(entities@ == swap_removed(held, i as int));
                assert(dead@ == before.drop_last());
                assert forall|k: int| 0 <= k < dead@.len() implies dead@[k] < entities@.len() by {
                    assert(before[k] < before[before.len() - 1]);
                }
            },
            None => {},
        }
    }
}

/// Moves the newly born into `entities`, the last born first. `born` is left
/// empty.
pub fn adopt<T>(entities: &mut Vec<T>, born: &mut Vec<T>)
    ensures
        final(entities)@ == adopted(old(entities)@, old(born)@),
        final(born)@.len() == 0,
{
    let ghost count = born@.len();
    while born.len() > 0
        invariant
            born@.len() <= count,
            count == old(born)@.len(),
            born@ == old(born)@.take(born@.len() as int),
            entities@ == old(entities)@ + old(born)@.skip(born@.len() as int).reverse(),
        decreases born.len(),
    {
        let ghost held = entities@;
        let ghost left = born@;
        let newborn = born.pop();
        match newborn {
            Some(e) => {
                entities.push(e);
                assert(e == old(born)@[left.len() - 1]);
                assert(born@ =~= old(born)@.take(born@.len() as int));
                assert(entities@ =~= old(entities)@ + old(born)@.skip(
                    born@.len() as int,
                ).reverse());
            },
            None => {},
        }
    }
    assert(old(born)@.skip(0) =~= old(born)@);
}

} // verus!
