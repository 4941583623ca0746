//! There are only so many boards: a bound on the number of different boards
//! of one size, and counting the boards of a list that are among others.
use vstd::prelude::*;

verus! {

/// `base` multiplied with itself `n` times.
pub open spec fn power(base: int, n: int) -> int
    decreases n,
{
    if n <= 0 {
        1
    } else {
        base * power(base, n - 1)
    }
}

/// A power of a base from one on is one or more.
pub proof fn lemma_power_positive(base: int, n: int)
    requires
        base >= 1,
    ensures
        power(base, n) >= 1,
    decreases n,
{
    if n > 0 {
        lemma_power_positive(base, n - 1);
        let p = power(base, n - 1);
        assert(base * p >= 1) by (nonlinear_arith)
            requires
                base >= 1,
                p >= 1,
        ;
    }
}

/// The number that the tiles write as digits to the base `base`.
pub open spec fn code(s: Seq<u32>, base: int) -> int
    decreases s.len(),
{
    if s.len() == 0 {
        0
    } else {
        code(s.drop_last(), base) * base + s.last()
    }
}

/// Every tile is below `base`.
pub open spec fn digits(s: Seq<u32>, base: int) -> bool {
    forall|i: int| 0 <= i < s.len() ==> (#[trigger] s[i]) < base
}

/// The code of tiles below the base is below the base's power.
pub proof fn lemma_code_bound(s: Seq<u32>, base: int)
    requires
        base >= 1,
        digits(s, base),
    ensures
        0 <= code(s, base) < power(base, s.len() as int),
    decreases s.len(),
{
    if s.len() > 0 {
        let head = s.drop_last();
        assert(digits(head, base)) by {
            assert forall|i: int| 0 <= i < head.len() implies (#[trigger] head[i]) < base by {
                assert(head[i] == s[i]);
            }
        }
        lemma_code_bound(head, base);
        let c = code(head, base);
        let p = power(base, head.len() as int);
        let d = s.last() as int;
        assert(power(base, s.len() as int) == base * p);
        assert(0 <= c * base + d < base * p) by (nonlinear_arith)
            requires
                0 <= c < p,
                0 <= d < base,
                base >= 1,
        ;
    }
}

/// Different runs of tiles of one length, all below the base, have
/// different codes.
pub proof fn lemma_code_injective(s: Seq<u32>, t: Seq<u32>, base: int)
    requires
        base >= 1,
        s.len() == t.len(),
        digits(s, base),
        digits(t, base),
        code(s, base) == code(t, base),
    ensures
        s == t,
    decreases s.len(),
{
    if s.len() > 0 {
        let a = code(s.drop_last(), base);
        let b = code(t.drop_last(), base);
        let x = s.last() as int;
        let y = t.last() as int;
        assert(a == b) by (nonlinear_arith)
            requires
                0 <= x < base,
                0 <= y < base,
                a * base + x == b * base + y,
        ;
        assert(digits(s.drop_last(), base)) by {
            assert forall|i: int| 0 <= i < s.len() - 1 implies (#[trigger] s.drop_last()[i])
                < base by {
                assert(s.drop_last()[i] == s[i]);
            }
        }
        assert(digits(t.drop_last(), base)) by {
            assert forall|i: int| 0 <= i < t.len() - 1 implies (#[trigger] t.drop_last()[i])
                < base by {
                assert(t.drop_last()[i] == t[i]);
            }
        }
        lemma_code_injective(s.drop_last(), t.drop_last(), base);
        assert(s =~= s.drop_last().push(s.last()));
        assert(t =~= t.drop_last().push(t.last()));
    } else {
        assert(s =~= t);
    }
}

/// The boards are different from one another, of `len` tiles each, all
/// below `base`.
pub open spec fn different_boards(fam: Seq<Seq<u32>>, len: int, base: int) -> bool {
    &&& forall|i: int| 0 <= i < fam.len() ==> (#[trigger] fam[i]).len() == len && digits(fam[i], base)
    &&& forall|i: int, j: int| 0 <= i < j < fam.len() ==> fam[i] != fam[j]
}

/// There are at most `base` to the power `len` different boards.
pub proof fn lemma_boards_bounded(fam: Seq<Seq<u32>>, len: int, base: int)
    requires
        base >= 1,
        len >= 0,
        different_boards(fam, len, base),
    ensures
        fam.len() <= power(base, len),
{
    let limit = power(base, len);
    let codes = Seq::new(fam.len(), |i: int| code(fam[i], base));
    assert(codes.no_duplicates()) by {
        assert forall|i: int, j: int|
            0 <= i < codes.len() && 0 <= j < codes.len() && i != j implies codes[i] != codes[j] by {
            if codes[i] == codes[j] {
                lemma_code_injective(fam[i], fam[j], base);
                if i < j {
                    assert(fam[i] != fam[j]);
                } else {
                    assert(fam[j] != fam[i]);
                }
            }
        }
    }
    codes.unique_seq_to_set();
    vstd::seq_lib::seq_to_set_is_finite(codes);
    lemma_power_positive(base, len);
    if limit >= 0 {
        vstd::set_lib::lemma_int_range(0, limit);
        let all = vstd::set_lib::set_int_range(0, limit);
        assert(codes.to_set().subset_of(all)) by {
            assert forall|v: int| codes.to_set().contains(v) implies all.contains(v) by {
                let i = choose|i: int| 0 <= i < codes.len() && codes[i] == v;
                lemma_code_bound(fam[i], base);
            }
        }
        vstd::set_lib::lemma_len_subset(codes.to_set(), all);
    }
}

/// How many of the first `k` boards of `list` are among `others`.
pub open spec fn count_in(list: Seq<Seq<u32>>, others: Seq<Seq<u32>>, k: int) -> int
    decreases k,
{
    if k <= 0 {
        0
    } else {
        count_in(list, others, k - 1) + if others.contains(list[k - 1]) {
            1int
        } else {
            0int
        }
    }
}

/// Between none and `k` of the first `k` boards are among the others.
pub proof fn lemma_count_bounds(list: Seq<Seq<u32>>, others: Seq<Seq<u32>>, k: int)
    requires
        0 <= k,
    ensures
        0 <= count_in(list, others, k) <= k,
    decreases k,
{
    if k > 0 {
        lemma_count_bounds(list, others, k - 1);
    }
}

/// Two lists that agree on their first `k` boards, counted against others
/// that hold the same boards, have the same count.
pub proof fn lemma_count_same(
    a: Seq<Seq<u32>>,
    b: Seq<Seq<u32>>,
    others: Seq<Seq<u32>>,
    k: int,
)
    requires
        0 <= k <= a.len(),
        k <= b.len(),
        forall|i: int| 0 <= i < k ==> a[i] == b[i],
    ensures
        count_in(a, others, k) == count_in(b, others, k),
    decreases k,
{
    if k > 0 {
        lemma_count_same(a, b, others, k - 1);
    }
}

/// Boards that are not among the others add nothing to the count.
pub proof fn lemma_count_more(list: Seq<Seq<u32>>, others: Seq<Seq<u32>>, from: int, to: int)
    requires
        0 <= from <= to <= list.len(),
        forall|i: int| from <= i < to ==> !others.contains(#[trigger] list[i]),
    ensures
        count_in(list, others, to) == count_in(list, others, from),
    decreases to - from,
{
    if from < to {
        lemma_count_more(list, others, from, to - 1);
    }
}

/// Putting board `v` on place `i` changes the count by what the place
/// counted for before and counts for after, if it is among the first `k`.
pub proof fn lemma_count_update(
    list: Seq<Seq<u32>>,
    others: Seq<Seq<u32>>,
    k: int,
    i: int,
    v: Seq<u32>,
)
    requires
        0 <= i < list.len(),
        0 <= k <= list.len(),
    ensures
        count_in(list.update(i, v), others, k) == count_in(list, others, k) + if i < k {
            (if others.contains(v) {
                1int
            } else {
                0int
            }) - (if others.contains(list[i]) {
                1int
            } else {
                0int
            })
        } else {
            0int
        },
    decreases k,
{
    if k > 0 {
        lemma_count_update(list, others, k - 1, i, v);
    }
}

/// Taking the board at `k` out of a list, by putting the last board in its
/// place, lowers the count by what that board counted for.
pub proof fn lemma_count_taken(list: Seq<Seq<u32>>, others: Seq<Seq<u32>>, k: int)
    requires
        0 <= k < list.len(),
    ensures
        count_in(list.update(k, list.last()).drop_last(), others, list.len() - 1) == count_in(
            list,
            others,
            list.len() as int,
        ) - if others.contains(list[k]) {
            1int
        } else {
            0int
        },
{
    let n = list.len() as int;
    let moved = list.update(k, list.last());
    let rest = moved.drop_last();
    lemma_count_same(rest, moved, others, n - 1);
    lemma_count_update(list, others, n, k, list.last());
    assert(count_in(moved, others, n) == count_in(moved, others, n - 1) + if others.contains(
        moved[n - 1],
    ) {
        1int
    } else {
        0int
    });
}

} // verus!
