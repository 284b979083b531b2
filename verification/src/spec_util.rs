use vstd::prelude::*;

verus! {

/// The positions are strictly increasing.
pub open spec fn strictly_increasing(s: Seq<u64>) -> bool {
    forall|a: int, b: int| 0 <= a < b < s.len() ==> s[a] < s[b]
}

/// Number of entries of `s` that are strictly below `i`.
pub open spec fn count_below(s: Seq<u64>, i: u64) -> nat {
    s.filter(|x: u64| x < i).len()
}

/// Unfolding step of `count_below` on a non-empty sequence.
pub proof fn lemma_count_below_step(s: Seq<u64>, i: u64)
    requires
        s.len() > 0,
    ensures
        count_below(s, i) == count_below(s.drop_last(), i) + if s.last() < i {
            1nat
        } else {
            0nat
        },
{
    reveal(Seq::filter);
}

/// In a strictly increasing sequence, the entries below `s[r]` are
/// exactly the first `r` entries.
pub proof fn lemma_count_below_at_index(s: Seq<u64>, r: int)
    requires
        strictly_increasing(s),
        0 <= r < s.len(),
    ensures
        count_below(s, s[r]) == r,
    decreases s.len(),
{
    let prefix = s.drop_last();
    lemma_count_below_step(s, s[r]);
    if r == s.len() - 1 {
        lemma_count_below_all(prefix, s[r]);
    } else {
        assert(prefix[r] == s[r]);
        lemma_count_below_at_index(prefix, r);
    }
}

/// In a strictly increasing sequence all of whose entries lie below `i`,
/// the count below `i` is the whole length.
pub proof fn lemma_count_below_all(s: Seq<u64>, i: u64)
    requires
        forall|a: int| 0 <= a < s.len() ==> s[a] < i,
    ensures
        count_below(s, i) == s.len(),
    decreases s.len(),
{
    reveal(Seq::filter);
    if s.len() > 0 {
        lemma_count_below_step(s, i);
        lemma_count_below_all(s.drop_last(), i);
    }
}

/// The count below `i` never exceeds the sequence length.
pub proof fn lemma_count_below_le_len(s: Seq<u64>, i: u64)
    ensures
        count_below(s, i) <= s.len(),
    decreases s.len(),
{
    reveal(Seq::filter);
    if s.len() > 0 {
        lemma_count_below_step(s, i);
        lemma_count_below_le_len(s.drop_last(), i);
    }
}

/// The positions, in ascending order, at which `kinds` holds `k`.
pub open spec fn positions_of(kinds: Seq<u64>, k: u64) -> Seq<u64>
    decreases kinds.len(),
{
    if kinds.len() == 0 {
        Seq::empty()
    } else {
        let pre = positions_of(kinds.drop_last(), k);
        if kinds.last() == k {
            pre.push((kinds.len() - 1) as u64)
        } else {
            pre
        }
    }
}

/// Appending one kind appends its position to that kind's list and
/// leaves every other list unchanged.
pub proof fn lemma_positions_of_push(kinds: Seq<u64>, id: u64, k: u64)
    requires
        kinds.len() < u64::MAX,
    ensures
        id == k ==> positions_of(kinds.push(id), k) == positions_of(kinds, k).push(
            kinds.len() as u64,
        ),
        id != k ==> positions_of(kinds.push(id), k) == positions_of(kinds, k),
{
    assert(kinds.push(id).drop_last() =~= kinds);
}

/// A position is on the list for `k` exactly when it is in range and
/// holds `k`.
pub proof fn lemma_positions_of_contains(kinds: Seq<u64>, k: u64, i: u64)
    requires
        kinds.len() <= u64::MAX,
    ensures
        positions_of(kinds, k).contains(i) <==> (i < kinds.len() && kinds[i as int] == k),
    decreases kinds.len(),
{
    if kinds.len() > 0 {
        let pre = kinds.drop_last();
        lemma_positions_of_contains(pre, k, i);
        if kinds.last() == k {
            let p = positions_of(pre, k);
            let whole = positions_of(kinds, k);
            assert(whole == p.push((kinds.len() - 1) as u64));
            if i < kinds.len() && kinds[i as int] == k {
                if i < kinds.len() - 1 {
                    assert(pre[i as int] == kinds[i as int]);
                    assert(p.contains(i));
                    let w = choose|w: int| 0 <= w < p.len() && p[w] == i;
                    assert(whole[w] == i);
                } else {
                    assert(whole[whole.len() - 1] == i);
                }
            }
            if whole.contains(i) {
                let w = choose|w: int| 0 <= w < whole.len() && whole[w] == i;
                if w < whole.len() - 1 {
                    assert(p.contains(i));
                    assert(pre[i as int] == kinds[i as int]);
                } else {
                    assert(i == kinds.len() - 1);
                }
            }
        } else {
            if i < kinds.len() && kinds[i as int] == k {
                assert(i < kinds.len() - 1);
                assert(pre[i as int] == kinds[i as int]);
            }
            if positions_of(kinds, k).contains(i) {
                assert(pre[i as int] == kinds[i as int]);
            }
        }
    }
}

/// Every listed position lies below the length of `kinds`, and the list
/// is strictly increasing.
pub proof fn lemma_positions_of_sorted(kinds: Seq<u64>, k: u64)
    requires
        kinds.len() <= u64::MAX,
    ensures
        strictly_increasing(positions_of(kinds, k)),
        forall|a: int|
            0 <= a < positions_of(kinds, k).len() ==> #[trigger] positions_of(kinds, k)[a]
                < kinds.len(),
        positions_of(kinds, k).len() <= kinds.len(),
    decreases kinds.len(),
{
    if kinds.len() > 0 {
        let pre = kinds.drop_last();
        lemma_positions_of_sorted(pre, k);
        if kinds.last() == k {
            let p = positions_of(pre, k);
            let whole = positions_of(kinds, k);
            assert forall|a: int, b: int| 0 <= a < b < whole.len() implies whole[a]
                < whole[b] by {
                if b < whole.len() - 1 {
                    assert(whole[a] == p[a] && whole[b] == p[b]);
                } else {
                    assert(whole[b] == (kinds.len() - 1) as u64);
                    assert(whole[a] == p[a]);
                    assert(p[a] < pre.len());
                }
            }
        }
    }
}

} // verus!
