//! The two enumerations that drive the search: every on/off assignment of
//! the delivery zones, and every joint move of the cars.

use vstd::prelude::*;
use crate::elem::Dir;

verus! {

/// `base` to the power `n`.
pub open spec fn power(base: nat, n: nat) -> nat
    decreases n,
{
    if n == 0 {
        1
    } else {
        base * power(base, (n - 1) as nat)
    }
}

/// The `k`-th assignment of `n` zones: the binary digits of `k`, the most
/// significant first, a one meaning on.
pub open spec fn target_vector(n: nat, k: nat) -> Seq<bool>
    decreases n,
{
    if n == 0 {
        Seq::empty()
    } else {
        target_vector((n - 1) as nat, k / 2).push(k % 2 == 1)
    }
}

/// The move that a base-five digit stands for.
pub open spec fn move_of_digit(d: nat) -> Option<Dir> {
    if d == 0 {
        Some(Dir::Left)
    } else if d == 1 {
        Some(Dir::Up)
    } else if d == 2 {
        Some(Dir::Right)
    } else if d == 3 {
        Some(Dir::Down)
    } else {
        None
    }
}

/// The base-five digit that stands for a move.
pub open spec fn digit_of_move(m: Option<Dir>) -> nat {
    match m {
        Some(Dir::Left) => 0,
        Some(Dir::Up) => 1,
        Some(Dir::Right) => 2,
        Some(Dir::Down) => 3,
        None => 4,
    }
}

/// The `k`-th joint move of `n` cars: the base-five digits of `k`, the most
/// significant first, each read by [`move_of_digit`].
pub open spec fn move_vector(n: nat, k: nat) -> Seq<Option<Dir>>
    decreases n,
{
    if n == 0 {
        Seq::empty()
    } else {
        move_vector((n - 1) as nat, k / 5).push(move_of_digit(k % 5))
    }
}

/// Whether every car waits.
pub open spec fn all_idle(moves: Seq<Option<Dir>>) -> bool {
    forall|i: int| 0 <= i < moves.len() ==> (#[trigger] moves[i]) is None
}

/// The number that a joint move is the digits of.
pub open spec fn rank_of_moves(moves: Seq<Option<Dir>>) -> nat
    decreases moves.len(),
{
    if moves.len() == 0 {
        0
    } else {
        rank_of_moves(moves.drop_last()) * 5 + digit_of_move(moves.last())
    }
}

/// The number that an assignment is the digits of.
pub open spec fn rank_of_targets(targets: Seq<bool>) -> nat
    decreases targets.len(),
{
    if targets.len() == 0 {
        0
    } else {
        rank_of_targets(targets.drop_last()) * 2 + if targets.last() { 1nat } else { 0nat }
    }
}

/// Powers of a positive base are positive.
pub proof fn lemma_power_positive(base: nat, n: nat)
    requires
        base > 0,
    ensures
        power(base, n) > 0,
    decreases n,
{
    if n > 0 {
        lemma_power_positive(base, (n - 1) as nat);
        assert(base * power(base, (n - 1) as nat) > 0) by (nonlinear_arith)
            requires
                base > 0,
                power(base, (n - 1) as nat) > 0,
        ;
    }
}

/// Every assignment has one entry per zone.
pub proof fn lemma_target_vector_len(n: nat, k: nat)
    ensures
        target_vector(n, k).len() == n,
    decreases n,
{
    if n > 0 {
        lemma_target_vector_len((n - 1) as nat, k / 2);
    }
}

/// Every joint move has one entry per car.
pub proof fn lemma_move_vector_len(n: nat, k: nat)
    ensures
        move_vector(n, k).len() == n,
    decreases n,
{
    if n > 0 {
        lemma_move_vector_len((n - 1) as nat, k / 5);
    }
}

/// An assignment numbered below `2^n` has its own number as rank: the
/// enumeration repeats nothing.
pub proof fn lemma_rank_of_target_vector(n: nat, k: nat)
    requires
        k < power(2, n),
    ensures
        rank_of_targets(target_vector(n, k)) == k,
    decreases n,
{
    if n > 0 {
        let m = (n - 1) as nat;
        assert(k / 2 < power(2, m)) by {
            assert(power(2, n) == 2 * power(2, m));
        }
        lemma_rank_of_target_vector(m, k / 2);
        let v = target_vector(n, k);
        assert(v.drop_last() =~= target_vector(m, k / 2));
        assert(v.last() == (k % 2 == 1));
    }
}

/// A joint move numbered below `5^n` has its own number as rank: the
/// enumeration repeats nothing.
pub proof fn lemma_rank_of_move_vector(n: nat, k: nat)
    requires
        k < power(5, n),
    ensures
        rank_of_moves(move_vector(n, k)) == k,
    decreases n,
{
    if n > 0 {
        let m = (n - 1) as nat;
        assert(k / 5 < power(5, m)) by {
            assert(power(5, n) == 5 * power(5, m));
        }
        lemma_rank_of_move_vector(m, k / 5);
        let v = move_vector(n, k);
        assert(v.drop_last() =~= move_vector(m, k / 5));
        assert(v.last() == move_of_digit(k % 5));
    }
}

/// Every assignment of `n` zones is in the enumeration, at the place its
/// rank gives.
pub proof fn lemma_target_vector_of_rank(v: Seq<bool>)
    ensures
        rank_of_targets(v) < power(2, v.len()),
        target_vector(v.len(), rank_of_targets(v)) == v,
    decreases v.len(),
{
    if v.len() > 0 {
        let p = v.drop_last();
        lemma_target_vector_of_rank(p);
        let r = rank_of_targets(p);
        let b = if v.last() { 1nat } else { 0nat };
        assert(rank_of_targets(v) == r * 2 + b);
        assert((r * 2 + b) / 2 == r);
        assert((r * 2 + b) % 2 == b);
        assert(power(2, v.len()) == 2 * power(2, p.len()));
        assert(target_vector(v.len(), rank_of_targets(v)) =~= v);
    } else {
        assert(target_vector(0, 0) =~= v);
    }
}

/// Every joint move of `n` cars is the digits of its rank, which is below
/// `5^n`.
pub proof fn lemma_move_vector_of_rank(v: Seq<Option<Dir>>)
    ensures
        rank_of_moves(v) < power(5, v.len()),
        move_vector(v.len(), rank_of_moves(v)) == v,
    decreases v.len(),
{
    if v.len() > 0 {
        let p = v.drop_last();
        lemma_move_vector_of_rank(p);
        let r = rank_of_moves(p);
        let b = digit_of_move(v.last());
        assert(rank_of_moves(v) == r * 5 + b);
        assert((r * 5 + b) / 5 == r);
        assert((r * 5 + b) % 5 == b);
        assert(power(5, v.len()) == 5 * power(5, p.len()));
        assert(move_of_digit(b) == v.last());
        assert(move_vector(v.len(), rank_of_moves(v)) =~= v);
    } else {
        assert(move_vector(0, 0) =~= v);
    }
}

/// Among the joint moves numbered below `5^n`, the one in which every car
/// waits is the last.
pub proof fn lemma_all_idle_is_last(n: nat, k: nat)
    requires
        k < power(5, n),
    ensures
        all_idle(move_vector(n, k)) <==> k == power(5, n) - 1,
    decreases n,
{
    lemma_move_vector_len(n, k);
    if n > 0 {
        let m = (n - 1) as nat;
        assert(power(5, n) == 5 * power(5, m));
        lemma_all_idle_is_last(m, k / 5);
        lemma_move_vector_len(m, k / 5);
        let v = move_vector(n, k);
        let p = move_vector(m, k / 5);
        assert(v == p.push(move_of_digit(k % 5)));
        if all_idle(v) {
            assert(v[n - 1] is None);
            assert forall|i: int| 0 <= i < p.len() implies (#[trigger] p[i]) is None by {
                assert(v[i] == p[i]);
            }
        }
        if k == power(5, n) - 1 {
            assert(k % 5 == 4 && k / 5 == power(5, m) - 1);
            assert forall|i: int| 0 <= i < v.len() implies (#[trigger] v[i]) is None by {
                if i < p.len() {
                    assert(v[i] == p[i]);
                }
            }
        }
    }
}

/// Two places below `2^n` that hold the same assignment are the same place.
pub proof fn lemma_target_vectors_distinct(n: nat, i: nat, j: nat)
    requires
        i < power(2, n),
        j < power(2, n),
        target_vector(n, i) == target_vector(n, j),
    ensures
        i == j,
{
    lemma_rank_of_target_vector(n, i);
    lemma_rank_of_target_vector(n, j);
}

/// Two places below `5^n` that hold the same joint move are the same place.
pub proof fn lemma_move_vectors_distinct(n: nat, i: nat, j: nat)
    requires
        i < power(5, n),
        j < power(5, n),
        move_vector(n, i) == move_vector(n, j),
    ensures
        i == j,
{
    lemma_rank_of_move_vector(n, i);
    lemma_rank_of_move_vector(n, j);
}

/// A copy of `v`.
pub fn copy_moves(v: &Vec<Option<Dir>>) -> (r: Vec<Option<Dir>>)
    ensures
        r@ == v@,
{
    let mut r: Vec<Option<Dir>> = Vec::new();
    let mut i: usize = 0;
    while i < v.len()
        invariant
            i <= v.len(),
            r@ == v@.subrange(0, i as int),
        decreases v.len() - i,
    {
        r.push(v[i]);
        i += 1;
        assert(r@ =~= v@.subrange(0, i as int));
    }
    assert(r@ =~= v@);
    r
}

/// A copy of `v`.
pub fn copy_targets(v: &Vec<bool>) -> (r: Vec<bool>)
    ensures
        r@ == v@,
{
    let mut r: Vec<bool> = Vec::new();
    let mut i: usize = 0;
    while i < v.len()
        invariant
            i <= v.len(),
            r@ == v@.subrange(0, i as int),
        decreases v.len() - i,
    {
        r.push(v[i]);
        i += 1;
        assert(r@ =~= v@.subrange(0, i as int));
    }
    assert(r@ =~= v@);
    r
}

/// A list that holds the assignments in the order of their numbers holds
/// vectors of length `n` only, and none of them twice.
pub proof fn lemma_targets_listed(list: Seq<Seq<bool>>, n: nat)
    requires
        list.len() == power(2, n),
        forall|k: int| 0 <= k < list.len() ==> #[trigger] list[k] == target_vector(n, k as nat),
    ensures
        forall|k: int| 0 <= k < list.len() ==> (#[trigger] list[k]).len() == n,
        forall|i: int, j: int| 0 <= i < j < list.len() ==> #[trigger] list[i] != #[trigger] list[j],
{
    assert forall|k: int| 0 <= k < list.len() implies (#[trigger] list[k]).len() == n by {
        lemma_target_vector_len(n, k as nat);
    }
    assert forall|i: int, j: int| 0 <= i < j < list.len() implies #[trigger] list[i]
        != #[trigger] list[j] by {
        if list[i] == list[j] {
            lemma_target_vectors_distinct(n, i as nat, j as nat);
        }
    }
}

/// A list that holds the first joint moves in the order of their numbers
/// holds vectors of length `n` only, and none of them twice. If it stops
/// before the last, it holds none in which every car waits.
pub proof fn lemma_moves_listed(list: Seq<Seq<Option<Dir>>>, n: nat)
    requires
        list.len() <= power(5, n),
        forall|k: int| 0 <= k < list.len() ==> #[trigger] list[k] == move_vector(n, k as nat),
    ensures
        forall|k: int| 0 <= k < list.len() ==> (#[trigger] list[k]).len() == n,
        forall|i: int, j: int| 0 <= i < j < list.len() ==> #[trigger] list[i] != #[trigger] list[j],
        list.len() < power(5, n) ==> forall|k: int|
            0 <= k < list.len() ==> !all_idle(#[trigger] list[k]),
{
    assert forall|k: int| 0 <= k < list.len() implies (#[trigger] list[k]).len() == n by {
        lemma_move_vector_len(n, k as nat);
    }
    assert forall|i: int, j: int| 0 <= i < j < list.len() implies #[trigger] list[i]
        != #[trigger] list[j] by {
        if list[i] == list[j] {
            lemma_move_vectors_distinct(n, i as nat, j as nat);
        }
    }
    if list.len() < power(5, n) {
        assert forall|k: int| 0 <= k < list.len() implies !all_idle(#[trigger] list[k]) by {
            lemma_all_idle_is_last(n, k as nat);
        }
    }
}

/// The vectors that a list holds.
pub open spec fn listed<T>(v: Seq<Vec<T>>) -> Seq<Seq<T>> {
    Seq::new(v.len(), |i: int| v[i]@)
}

/// Every on/off assignment of `n` delivery zones: `2^n` vectors of length
/// `n`, no two of them equal, the `k`-th being
/// [`target_vector`]`(n, k)`.
pub fn gen_onoff(n: usize) -> (r: Vec<Vec<bool>>)
    ensures
        r@.len() == power(2, n as nat),
        forall|k: int| 0 <= k < r@.len() ==> (#[trigger] r@[k])@ == target_vector(n as nat, k as nat),
        forall|k: int| 0 <= k < r@.len() ==> (#[trigger] r@[k])@.len() == n,
        forall|i: int, j: int|
            0 <= i < j < r@.len() ==> (#[trigger] r@[i])@ != (#[trigger] r@[j])@,
    decreases n,
{
    let mut v: Vec<Vec<bool>> = Vec::new();
    if n == 0 {
        v.push(Vec::new());
        assert(v@[0]@ =~= target_vector(0, 0));
        proof {
            lemma_targets_listed(listed(v@), 0);
            assert forall|i: int, j: int| 0 <= i < j < v@.len() implies (#[trigger] v@[i])@ != (
            #[trigger] v@[j])@ by {
                assert(listed(v@)[i] != listed(v@)[j]);
            }
        }
        return v;
    }
    let prev = gen_onoff(n - 1);
    let mut j: usize = 0;
    while j < prev.len()
        invariant
            n > 0,
            j <= prev.len(),
            prev@.len() == power(2, (n - 1) as nat),
            forall|k: int| 0 <= k < prev@.len() ==> (#[trigger] prev@[k])@ == target_vector((n - 1) as nat, k as nat),
            v@.len() == 2 * j,
            forall|k: int| 0 <= k < v@.len() ==> (#[trigger] v@[k])@ == target_vector(n as nat, k as nat),
        decreases prev.len() - j,
    {
        let mut off = copy_targets(&prev[j]);
        off.push(false);
        let mut on = copy_targets(&prev[j]);
        on.push(true);
        proof {
            let a = (2 * j) as nat;
            let b = (2 * j + 1) as nat;
            assert(a / 2 == j && a % 2 == 0);
            assert(b / 2 == j && b % 2 == 1);
            assert(off@ == target_vector(n as nat, a));
            assert(on@ == target_vector(n as nat, b));
        }
        v.push(off);
        v.push(on);
        j += 1;
    }
    proof {
        assert(power(2, n as nat) == 2 * power(2, (n - 1) as nat));
        lemma_targets_listed(listed(v@), n as nat);
        assert forall|k: int| 0 <= k < v@.len() implies (#[trigger] v@[k])@.len() == n by {
            assert(listed(v@)[k].len() == n);
        }
        assert forall|i: int, j: int| 0 <= i < j < v@.len() implies (#[trigger] v@[i])@ != (
        #[trigger] v@[j])@ by {
            assert(listed(v@)[i] != listed(v@)[j]);
        }
    }
    v
}

/// Every joint move of `n` cars, the one in which all wait included:
/// `5^n` vectors of length `n`, no two of them equal, the `k`-th being
/// [`move_vector`]`(n, k)`.
pub fn gen_dirs_inner(n: usize) -> (r: Vec<Vec<Option<Dir>>>)
    ensures
        r@.len() == power(5, n as nat),
        forall|k: int| 0 <= k < r@.len() ==> (#[trigger] r@[k])@ == move_vector(n as nat, k as nat),
        forall|k: int| 0 <= k < r@.len() ==> (#[trigger] r@[k])@.len() == n,
        forall|i: int, j: int|
            0 <= i < j < r@.len() ==> (#[trigger] r@[i])@ != (#[trigger] r@[j])@,
    decreases n,
{
    let mut v: Vec<Vec<Option<Dir>>> = Vec::new();
    if n == 0 {
        v.push(Vec::new());
        assert(v@[0]@ =~= move_vector(0, 0));
        proof {
            lemma_moves_listed(listed(v@), 0);
            assert forall|i: int, j: int| 0 <= i < j < v@.len() implies (#[trigger] v@[i])@ != (
            #[trigger] v@[j])@ by {
                assert(listed(v@)[i] != listed(v@)[j]);
            }
        }
        return v;
    }
    let dirs: [Option<Dir>; 5] = [
        Some(Dir::Left),
        Some(Dir::Up),
        Some(Dir::Right),
        Some(Dir::Down),
        None,
    ];
    let prev = gen_dirs_inner(n - 1);
    let mut j: usize = 0;
    while j < prev.len()
        invariant
            n > 0,
            j <= prev.len(),
            prev@.len() == power(5, (n - 1) as nat),
            forall|k: int| 0 <= k < prev@.len() ==> (#[trigger] prev@[k])@ == move_vector((n - 1) as nat, k as nat),
            forall|d: int| 0 <= d < 5 ==> #[trigger] dirs@[d] == move_of_digit(d as nat),
            v@.len() == 5 * j,
            forall|k: int| 0 <= k < v@.len() ==> (#[trigger] v@[k])@ == move_vector(n as nat, k as nat),
        decreases prev.len() - j,
    {
        let mut d: usize = 0;
        while d < 5
            invariant
                n > 0,
                d <= 5,
                j < prev.len(),
                forall|k: int| 0 <= k < prev@.len() ==> (#[trigger] prev@[k])@ == move_vector((n - 1) as nat, k as nat),
                forall|e: int| 0 <= e < 5 ==> #[trigger] dirs@[e] == move_of_digit(e as nat),
                v@.len() == 5 * j + d,
                forall|k: int| 0 <= k < v@.len() ==> (#[trigger] v@[k])@ == move_vector(n as nat, k as nat),
            decreases 5 - d,
        {
            let mut c = copy_moves(&prev[j]);
            c.push(dirs[d]);
            proof {
                let a = (5 * j + d) as nat;
                assert(a / 5 == j && a % 5 == d);
                assert(c@ == move_vector(n as nat, a));
            }
            v.push(c);
            d += 1;
        }
        j += 1;
    }
    proof {
        assert(power(5, n as nat) == 5 * power(5, (n - 1) as nat));
        lemma_moves_listed(listed(v@), n as nat);
        assert forall|k: int| 0 <= k < v@.len() implies (#[trigger] v@[k])@.len() == n by {
            assert(listed(v@)[k].len() == n);
        }
        assert forall|i: int, j: int| 0 <= i < j < v@.len() implies (#[trigger] v@[i])@ != (
        #[trigger] v@[j])@ by {
            assert(listed(v@)[i] != listed(v@)[j]);
        }
    }
    v
}

/// Whether every car waits in `moves`.
pub fn is_all_idle(moves: &Vec<Option<Dir>>) -> (r: bool)
    ensures
        r == all_idle(moves@),
{
    let mut i: usize = 0;
    while i < moves.len()
        invariant
            i <= moves.len(),
            forall|k: int| 0 <= k < i ==> (#[trigger] moves@[k]) is None,
        decreases moves.len() - i,
    {
        if moves[i].is_some() {
            return false;
        }
        i += 1;
    }
    true
}

/// Every joint move of `n` cars in which at least one car moves: `5^n - 1`
/// vectors of length `n`, the `k`-th being [`move_vector`]`(n, k)`. No two
/// are equal ([`lemma_move_vectors_distinct`]), and none lets every car
/// wait ([`lemma_all_idle_is_last`]). This order is the order in which the
/// search tries them.
pub fn gen_dirs(n: usize) -> (r: Vec<Vec<Option<Dir>>>)
    ensures
        r@.len() == power(5, n as nat) - 1,
        forall|k: int| 0 <= k < r@.len() ==> (#[trigger] r@[k])@ == move_vector(n as nat, k as nat),
        forall|k: int| 0 <= k < r@.len() ==> (#[trigger] r@[k])@.len() == n,
        forall|k: int| 0 <= k < r@.len() ==> !all_idle((#[trigger] r@[k])@),
        forall|i: int, j: int|
            0 <= i < j < r@.len() ==> (#[trigger] r@[i])@ != (#[trigger] r@[j])@,
{
    let all = gen_dirs_inner(n);
    let mut v: Vec<Vec<Option<Dir>>> = Vec::new();
    let mut j: usize = 0;
    proof {
        lemma_power_positive(5, n as nat);
    }
    while j < all.len()
        invariant
            j <= all.len(),
            all@.len() == power(5, n as nat),
            all@.len() > 0,
            forall|k: int| 0 <= k < all@.len() ==> (#[trigger] all@[k])@ == move_vector(n as nat, k as nat),
            v@.len() == if j == all@.len() { j - 1 } else { j as int },
            forall|k: int| 0 <= k < v@.len() ==> (#[trigger] v@[k])@ == move_vector(n as nat, k as nat),
        decreases all.len() - j,
    {
        proof {
            lemma_all_idle_is_last(n as nat, j as nat);
        }
        if !is_all_idle(&all[j]) {
            let c = copy_moves(&all[j]);
            v.push(c);
        }
        j += 1;
    }
    proof {
        lemma_moves_listed(listed(v@), n as nat);
        assert forall|k: int| 0 <= k < v@.len() implies (#[trigger] v@[k])@.len() == n && !all_idle(
            v@[k]@,
        ) by {
            assert(listed(v@)[k].len() == n);
            assert(!all_idle(listed(v@)[k]));
        }
        assert forall|i: int, j: int| 0 <= i < j < v@.len() implies (#[trigger] v@[i])@ != (
        #[trigger] v@[j])@ by {
            assert(listed(v@)[i] != listed(v@)[j]);
        }
    }
    v
}

} // verus!
