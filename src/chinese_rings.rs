//! The move sequence that solves the Chinese Rings puzzle.

use vstd::prelude::*;
use vstd::arithmetic::power2::{pow2, lemma_pow2_unfold, lemma2_to64};

verus! {

/// What is emitted for a ring state: every position but the sentinel at index 0.
pub open spec fn snapshot(rings: Seq<bool>) -> Seq<bool> {
    rings.subrange(1, rings.len() as int)
}

/// `rings` with positions `1..=i` set to `v`.
pub open spec fn with_range(rings: Seq<bool>, i: int, v: bool) -> Seq<bool> {
    Seq::new(rings.len(), |k: int| if 1 <= k <= i { v } else { rings[k] })
}

/// The snapshots emitted while placing ring `i` on the bar from state `rings`.
pub open spec fn set_moves(rings: Seq<bool>, i: int) -> Seq<Seq<bool>>
    decreases i,
{
    if i <= 0 {
        seq![]
    } else if i == 1 {
        seq![snapshot(rings.update(1, true))]
    } else {
        let r1 = with_range(rings, i - 1, true);
        let r2 = with_range(r1, i - 2, false);
        let r3 = r2.update(i, true);
        set_moves(rings, i - 1) + unset_moves(r1, i - 2) + seq![snapshot(r3)] + set_moves(r3, i - 2)
    }
}

/// The snapshots emitted while removing ring `i` from the bar from state `rings`.
pub open spec fn unset_moves(rings: Seq<bool>, i: int) -> Seq<Seq<bool>>
    decreases i,
{
    if i <= 0 {
        seq![]
    } else if i == 1 {
        seq![snapshot(rings.update(1, false))]
    } else {
        let r1 = with_range(rings, i - 2, false);
        let r2 = r1.update(i, false);
        let r3 = with_range(r2, i - 2, true);
        unset_moves(rings, i - 2) + seq![snapshot(r2)] + set_moves(r2, i - 2) + unset_moves(r3, i - 1)
    }
}

/// The list of snapshots as sequences.
pub open spec fn moves_view(v: Seq<Vec<bool>>) -> Seq<Seq<bool>> {
    v.map_values(|m: Vec<bool>| m@)
}

/// Number of moves that place (or remove) rings `1..=i`.
pub open spec fn ring_moves(i: int) -> nat
    decreases i,
{
    if i <= 0 {
        0
    } else if i == 1 {
        1
    } else {
        ring_moves(i - 1) + 2 * ring_moves(i - 2) + 1
    }
}

proof fn lemma_moves_view_push(v: Seq<Vec<bool>>, m: Vec<bool>)
    ensures
        moves_view(v.push(m)) == moves_view(v) + seq![m@],
{
    assert(moves_view(v.push(m)) =~= moves_view(v) + seq![m@]);
}

fn snapshot_of(rings: &Vec<bool>) -> (r: Vec<bool>)
    requires
        rings@.len() >= 1,
    ensures
        r@ == snapshot(rings@),
{
    let mut r: Vec<bool> = Vec::new();
    let mut k: usize = 1;
    while k < rings.len()
        invariant
            1 <= k <= rings@.len(),
            r@ == rings@.subrange(1, k as int),
        decreases rings@.len() - k,
    {
        r.push(rings[k]);
        k += 1;
        assert(r@ =~= rings@.subrange(1, k as int));
    }
    r
}

/// Places ring `index` on the bar and records the new state.
pub fn give_ring(rings: &mut Vec<bool>, index: usize, mouvement_list: &mut Vec<Vec<bool>>)
    requires
        index < old(rings)@.len(),
    ensures
        final(rings)@ == old(rings)@.update(index as int, true),
        moves_view(final(mouvement_list)@) == moves_view(old(mouvement_list)@).push(snapshot(final(rings)@)),
{
    rings.set(index, true);
    let s = snapshot_of(rings);
    proof {
        lemma_moves_view_push(mouvement_list@, s);
    }
    mouvement_list.push(s);
}

/// Removes ring `index` from the bar and records the new state.
pub fn take_ring(rings: &mut Vec<bool>, index: usize, mouvement_list: &mut Vec<Vec<bool>>)
    requires
        index < old(rings)@.len(),
    ensures
        final(rings)@ == old(rings)@.update(index as int, false),
        moves_view(final(mouvement_list)@) == moves_view(old(mouvement_list)@).push(snapshot(final(rings)@)),
{
    rings.set(index, false);
    let s = snapshot_of(rings);
    proof {
        lemma_moves_view_push(mouvement_list@, s);
    }
    mouvement_list.push(s);
}

/// Places rings `1..=index` on the bar: `set(i - 1)`, `unset(i - 2)`, give ring
/// `i`, `set(i - 2)`; each move is recorded.
pub fn set_rings(rings: &mut Vec<bool>, index: usize, mouvement_list: &mut Vec<Vec<bool>>)
    requires
        index < old(rings)@.len(),
    ensures
        final(rings)@ == with_range(old(rings)@, index as int, true),
        moves_view(final(mouvement_list)@) == moves_view(old(mouvement_list)@) + set_moves(old(rings)@, index as int),
    decreases index, 1nat,
{
    let ghost r0 = rings@;
    let ghost l0 = moves_view(mouvement_list@);
    if index == 0 {
        assert(rings@ =~= with_range(r0, 0, true));
        assert(moves_view(mouvement_list@) =~= l0 + set_moves(r0, 0));
        return;
    }
    if index == 1 {
        give_ring(rings, index, mouvement_list);
        assert(rings@ =~= with_range(r0, 1, true));
        assert(moves_view(mouvement_list@) =~= l0 + set_moves(r0, 1));
    } else {
        set_rings(rings, index - 1, mouvement_list);
        unset_rings(rings, index - 2, mouvement_list);
        give_ring(rings, index, mouvement_list);
        let ghost r3 = rings@;
        set_rings(rings, index - 2, mouvement_list);
        proof {
            let r1 = with_range(r0, index - 1, true);
            let r2 = with_range(r1, index - 2, false);
            assert(r3 =~= r2.update(index as int, true));
            assert(rings@ =~= with_range(r0, index as int, true));
            assert(moves_view(mouvement_list@) =~= l0 + set_moves(r0, index as int));
        }
    }
}

/// Removes rings `1..=index` from the bar: `unset(i - 2)`, take ring `i`,
/// `set(i - 2)`, `unset(i - 1)`; each move is recorded.
pub fn unset_rings(rings: &mut Vec<bool>, index: usize, mouvement_list: &mut Vec<Vec<bool>>)
    requires
        index < old(rings)@.len(),
    ensures
        final(rings)@ == with_range(old(rings)@, index as int, false),
        moves_view(final(mouvement_list)@) == moves_view(old(mouvement_list)@) + unset_moves(old(rings)@, index as int),
    decreases index, 0nat,
{
    let ghost r0 = rings@;
    let ghost l0 = moves_view(mouvement_list@);
    if index == 0 {
        assert(rings@ =~= with_range(r0, 0, false));
        assert(moves_view(mouvement_list@) =~= l0 + unset_moves(r0, 0));
        return;
    }
    if index == 1 {
        take_ring(rings, index, mouvement_list);
        assert(rings@ =~= with_range(r0, 1, false));
        assert(moves_view(mouvement_list@) =~= l0 + unset_moves(r0, 1));
    } else {
        unset_rings(rings, index - 2, mouvement_list);
        take_ring(rings, index, mouvement_list);
        let ghost r2 = rings@;
        set_rings(rings, index - 2, mouvement_list);
        let ghost r3 = rings@;
        unset_rings(rings, index - 1, mouvement_list);
        proof {
            let r1 = with_range(r0, index - 2, false);
            assert(r2 =~= r1.update(index as int, false));
            assert(r3 =~= with_range(r2, index - 2, true));
            assert(rings@ =~= with_range(r0, index as int, false));
            assert(moves_view(mouvement_list@) =~= l0 + unset_moves(r0, index as int));
        }
    }
}

/// The snapshots that solve the Chinese Rings puzzle for `rings_number` rings:
/// the initial all-absent state, then the state after each move of `set(K)`.
pub fn chinese_rings_resolver(rings_number: usize) -> (r: Vec<Vec<bool>>)
    requires
        rings_number < usize::MAX,
    ensures
        moves_view(r@) == seq![Seq::new(rings_number as nat, |k: int| false)] + set_moves(
            Seq::new((rings_number + 1) as nat, |k: int| false),
            rings_number as int,
        ),
        r@.len() == 1 + ring_moves(rings_number as int),
{
    let mut chinese_rings: Vec<bool> = Vec::new();
    let mut k: usize = 0;
    while k < rings_number + 1
        invariant
            k <= rings_number + 1,
            rings_number < usize::MAX,
            chinese_rings@ == Seq::new(k as nat, |j: int| false),
        decreases rings_number + 1 - k,
    {
        chinese_rings.push(false);
        k += 1;
        assert(chinese_rings@ =~= Seq::new(k as nat, |j: int| false));
    }
    let ghost r0 = chinese_rings@;
    let first = snapshot_of(&chinese_rings);
    let mut mouvement_list: Vec<Vec<bool>> = Vec::new();
    proof {
        lemma_moves_view_push(mouvement_list@, first);
        assert(moves_view(mouvement_list@) =~= Seq::<Seq<bool>>::empty());
        assert(first@ =~= Seq::new(rings_number as nat, |k: int| false));
    }
    mouvement_list.push(first);
    set_rings(&mut chinese_rings, rings_number, &mut mouvement_list);
    proof {
        lemma_set_moves_len(r0, rings_number as int);
        assert(mouvement_list@.len() == moves_view(mouvement_list@).len());
    }
    mouvement_list
}

/// Placing or removing rings `1..=i` takes `ring_moves(i)` moves, whatever the state.
pub proof fn lemma_set_moves_len(rings: Seq<bool>, i: int)
    ensures
        set_moves(rings, i).len() == ring_moves(i),
        unset_moves(rings, i).len() == ring_moves(i),
    decreases i,
{
    if i >= 2 {
        let r1 = with_range(rings, i - 1, true);
        let r2 = with_range(r1, i - 2, false);
        lemma_set_moves_len(rings, i - 1);
        lemma_set_moves_len(r1, i - 2);
        lemma_set_moves_len(r2.update(i, true), i - 2);
        let u1 = with_range(rings, i - 2, false);
        let u2 = u1.update(i, false);
        lemma_set_moves_len(rings, i - 2);
        lemma_set_moves_len(u2, i - 2);
        lemma_set_moves_len(with_range(u2, i - 2, true), i - 1);
    }
}

/// The number of moves for `i` rings: `3 * moves + 2 == 2^(i+1)` for even `i`,
/// `3 * moves + 1 == 2^(i+1)` for odd `i`.
pub proof fn lemma_ring_moves_closed_form(i: nat)
    ensures
        3 * ring_moves(i as int) + (if i % 2 == 0 { 2nat } else { 1nat }) == pow2(i + 1),
    decreases i,
{
    lemma2_to64();
    if i >= 2 {
        lemma_pow2_unfold(i + 1);
        lemma_pow2_unfold(i);
        lemma_ring_moves_closed_form((i - 1) as nat);
        lemma_ring_moves_closed_form((i - 2) as nat);
        if i % 2 == 0 {
            assert((i - 1) as nat % 2 == 1 && (i - 2) as nat % 2 == 0);
        } else {
            assert((i - 1) as nat % 2 == 0 && (i - 2) as nat % 2 == 1);
        }
    }
}

/// The resolver emits `2^K` snapshots for `K` rings, for `K <= 1`; beyond that
/// the count is the one of the closed form above.
pub proof fn lemma_snapshot_count_small(k: nat)
    requires
        k <= 1,
    ensures
        1 + ring_moves(k as int) == pow2(k),
{
    lemma2_to64();
}


/// `b` is `a` with exactly one ring moved.
pub open spec fn one_move(a: Seq<bool>, b: Seq<bool>) -> bool {
    exists|k: int| 0 <= k < a.len() && b == a.update(k, !a[k])
}

/// Each snapshot of `moves` is one move away from the one before it, the first
/// one move away from `from`.
pub open spec fn one_at_a_time(from: Seq<bool>, moves: Seq<Seq<bool>>) -> bool {
    forall|k: int| 0 <= k < moves.len() ==> one_move(if k == 0 { from } else { moves[k - 1] }, #[trigger] moves[k])
}

/// The last snapshot of `moves`, or `from` when there is none.
pub open spec fn last_or(from: Seq<bool>, moves: Seq<Seq<bool>>) -> Seq<bool> {
    if moves.len() == 0 { from } else { moves.last() }
}

proof fn lemma_one_at_a_time_concat(from: Seq<bool>, a: Seq<Seq<bool>>, b: Seq<Seq<bool>>)
    requires
        one_at_a_time(from, a),
        one_at_a_time(last_or(from, a), b),
    ensures
        one_at_a_time(from, a + b),
        last_or(from, a + b) == last_or(last_or(from, a), b),
{
    assert forall|k: int| 0 <= k < (a + b).len() implies one_move(
        if k == 0 { from } else { (a + b)[k - 1] },
        #[trigger] (a + b)[k],
    ) by {
        if k < a.len() {
            assert((a + b)[k] == a[k]);
            if k > 0 {
                assert((a + b)[k - 1] == a[k - 1]);
            }
        } else {
            let j = k - a.len();
            assert((a + b)[k] == b[j]);
            assert(one_move(if j == 0 { last_or(from, a) } else { b[j - 1] }, b[j]));
            if j > 0 {
                assert((a + b)[k - 1] == b[j - 1]);
            } else if k > 0 {
                assert((a + b)[k - 1] == a.last());
            }
        }
    }
    if b.len() > 0 {
        assert((a + b).last() == b.last());
    } else {
        assert(a + b =~= a);
    }
}

proof fn lemma_single_move(r: Seq<bool>, i: int, v: bool)
    requires
        1 <= i < r.len(),
        r[i] != v,
    ensures
        one_at_a_time(snapshot(r), seq![snapshot(r.update(i, v))]),
        last_or(snapshot(r), seq![snapshot(r.update(i, v))]) == snapshot(r.update(i, v)),
{
    let s = snapshot(r);
    assert(snapshot(r.update(i, v)) =~= s.update(i - 1, !s[i - 1]));
    assert(one_move(s, snapshot(r.update(i, v))));
    let m = seq![snapshot(r.update(i, v))];
    assert(m[0] == snapshot(r.update(i, v)));
}

/// From a state with rings `1..=i` off the bar, placing them moves one ring at a
/// time; from a state with them on the bar, removing them does too.
pub proof fn lemma_moves_one_at_a_time(r: Seq<bool>, i: int)
    requires
        0 <= i < r.len(),
    ensures
        with_range(r, i, false) == r ==> one_at_a_time(snapshot(r), set_moves(r, i)) && last_or(
            snapshot(r),
            set_moves(r, i),
        ) == snapshot(with_range(r, i, true)),
        with_range(r, i, true) == r ==> one_at_a_time(snapshot(r), unset_moves(r, i)) && last_or(
            snapshot(r),
            unset_moves(r, i),
        ) == snapshot(with_range(r, i, false)),
    decreases i,
{
    if i == 0 {
        assert(with_range(r, 0, true) =~= r);
        assert(with_range(r, 0, false) =~= r);
    } else if i == 1 {
        assert(with_range(r, 1, true) =~= r.update(1, true));
        assert(with_range(r, 1, false) =~= r.update(1, false));
        if with_range(r, i, false) == r {
            assert(r[1] == with_range(r, 1, false)[1]);
            lemma_single_move(r, 1, true);
        }
        if with_range(r, i, true) == r {
            assert(r[1] == with_range(r, 1, true)[1]);
            lemma_single_move(r, 1, false);
        }
    } else {
        if with_range(r, i, false) == r {
            let r1 = with_range(r, i - 1, true);
            let r2 = with_range(r1, i - 2, false);
            let r3 = r2.update(i, true);
            assert(with_range(r, i - 1, false) =~= r);
            lemma_moves_one_at_a_time(r, i - 1);
            assert(with_range(r1, i - 2, true) =~= r1);
            lemma_moves_one_at_a_time(r1, i - 2);
            assert(r2[i] == r[i]);
            assert(r[i] == with_range(r, i, false)[i]);
            lemma_single_move(r2, i, true);
            assert(with_range(r3, i - 2, false) =~= r3);
            lemma_moves_one_at_a_time(r3, i - 2);
            let m1 = set_moves(r, i - 1);
            let m2 = unset_moves(r1, i - 2);
            let m3 = seq![snapshot(r3)];
            let m4 = set_moves(r3, i - 2);
            lemma_one_at_a_time_concat(snapshot(r), m1, m2);
            lemma_one_at_a_time_concat(snapshot(r), m1 + m2, m3);
            lemma_one_at_a_time_concat(snapshot(r), m1 + m2 + m3, m4);
            assert(with_range(r3, i - 2, true) =~= with_range(r, i, true));
        }
        if with_range(r, i, true) == r {
            let r1 = with_range(r, i - 2, false);
            let r2 = r1.update(i, false);
            let r3 = with_range(r2, i - 2, true);
            assert(with_range(r, i - 2, true) =~= r);
            lemma_moves_one_at_a_time(r, i - 2);
            assert(r1[i] == r[i]);
            assert(r[i] == with_range(r, i, true)[i]);
            lemma_single_move(r1, i, false);
            assert(with_range(r2, i - 2, false) =~= r2);
            lemma_moves_one_at_a_time(r2, i - 2);
            assert(with_range(r3, i - 1, true) =~= r3);
            lemma_moves_one_at_a_time(r3, i - 1);
            let m1 = unset_moves(r, i - 2);
            let m2 = seq![snapshot(r2)];
            let m3 = set_moves(r2, i - 2);
            let m4 = unset_moves(r3, i - 1);
            lemma_one_at_a_time_concat(snapshot(r), m1, m2);
            lemma_one_at_a_time_concat(snapshot(r), m1 + m2, m3);
            lemma_one_at_a_time_concat(snapshot(r), m1 + m2 + m3, m4);
            assert(with_range(r3, i - 1, false) =~= with_range(r, i, false));
        }
    }
}


/// The solution for `k` rings starts with every ring off the bar, moves one ring
/// per snapshot, and ends with every ring on the bar.
pub proof fn lemma_solution_moves_one_ring_at_a_time(k: nat)
    ensures
        one_at_a_time(Seq::new(k, |j: int| false), set_moves(Seq::new(k + 1, |j: int| false), k as int)),
        last_or(Seq::new(k, |j: int| false), set_moves(Seq::new(k + 1, |j: int| false), k as int)) == Seq::new(
            k,
            |j: int| true,
        ),
{
    let r = Seq::new(k + 1, |j: int| false);
    assert(with_range(r, k as int, false) =~= r);
    assert(snapshot(r) =~= Seq::new(k, |j: int| false));
    assert(snapshot(with_range(r, k as int, true)) =~= Seq::new(k, |j: int| true));
    lemma_moves_one_at_a_time(r, k as int);
}

} // verus!
