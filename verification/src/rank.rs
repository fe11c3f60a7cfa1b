use crate::record::{models, sorted_non_increasing, ProcessRecord, RecordModel};
use vstd::math::min;
use vstd::prelude::*;

verus! {

/// Position `a` of `s` is ranked no later than position `b`: strictly
/// more CPU, or equal CPU and a position in `s` no later than `b`'s.
pub open spec fn ranked_before(s: Seq<RecordModel>, a: int, b: int) -> bool {
    ||| s[a].cpu_centi_percent > s[b].cpu_centi_percent
    ||| (s[a].cpu_centi_percent == s[b].cpu_centi_percent && a <= b)
}

/// The index sequence is sorted for the ranking order on `s`.
pub open spec fn idx_sorted(s: Seq<RecordModel>, idx: Seq<int>) -> bool {
    forall|p: int, q: int| 0 <= p < q < idx.len() ==> ranked_before(s, idx[p], idx[q])
}

/// Stable insertion of position `i` into a ranked index sequence: `i`
/// goes after every position ranked no later than itself, so a new
/// position with equal CPU lands after the old ones.
pub open spec fn insert_ranked(s: Seq<RecordModel>, idx: Seq<int>, i: int) -> Seq<int>
    decreases idx.len(),
{
    if idx.len() == 0 {
        seq![i]
    } else if ranked_before(s, idx[0], i) {
        seq![idx[0]] + insert_ranked(s, idx.drop_first(), i)
    } else {
        seq![i] + idx
    }
}

/// Positions `0..k` of `s`, in ranking order.
pub open spec fn ranked_indices(s: Seq<RecordModel>, k: nat) -> Seq<int>
    decreases k,
{
    if k == 0 {
        Seq::empty()
    } else {
        insert_ranked(s, ranked_indices(s, (k - 1) as nat), k - 1)
    }
}

/// The ranking of `s` cut to `n` entries: the records of `s` in ranking
/// order, truncated.
pub open spec fn rank_spec(s: Seq<RecordModel>, n: int) -> Seq<RecordModel> {
    ranked_indices(s, s.len()).take(min(n, s.len() as int)).map_values(|i: int| s[i])
}

proof fn lemma_insert_ranked_props(s: Seq<RecordModel>, idx: Seq<int>, i: int)
    requires
        idx_sorted(s, idx),
    ensures
        insert_ranked(s, idx, i).len() == idx.len() + 1,
        forall|p: int|
            0 <= p < insert_ranked(s, idx, i).len() ==> (#[trigger] insert_ranked(s, idx, i)[p]
                == i || idx.contains(insert_ranked(s, idx, i)[p])),
        idx_sorted(s, insert_ranked(s, idx, i)),
        insert_ranked(s, idx, i).contains(i),
        forall|x: int| idx.contains(x) ==> insert_ranked(s, idx, i).contains(x),
    decreases idx.len(),
{
    let r = insert_ranked(s, idx, i);
    if idx.len() == 0 {
        assert(r[0] == i);
    } else if ranked_before(s, idx[0], i) {
        let rest = idx.drop_first();
        assert(idx_sorted(s, rest)) by {
            assert forall|p: int, q: int| 0 <= p < q < rest.len() implies ranked_before(
                s,
                rest[p],
                rest[q],
            ) by {
                assert(rest[p] == idx[p + 1]);
                assert(rest[q] == idx[q + 1]);
            }
        }
        lemma_insert_ranked_props(s, rest, i);
        let r2 = insert_ranked(s, rest, i);
        assert(r.len() == r2.len() + 1);
        // elements
        assert forall|p: int| 0 <= p < r.len() implies (#[trigger] r[p] == i || idx.contains(
            r[p],
        )) by {
            if p == 0 {
                assert(r[0] == idx[0]);
                assert(idx.contains(idx[0]));
            } else {
                assert(r[p] == r2[p - 1]);
                if r2[p - 1] != i {
                    assert(rest.contains(r2[p - 1]));
                    let k = choose|k: int| 0 <= k < rest.len() && rest[k] == r2[p - 1];
                    assert(idx[k + 1] == r2[p - 1]);
                    assert(idx.contains(r2[p - 1]));
                }
            }
        }
        // sortedness
        assert forall|p: int, q: int| 0 <= p < q < r.len() implies ranked_before(
            s,
            r[p],
            r[q],
        ) by {
            if p == 0 {
                assert(r[q] == r2[q - 1]);
                if r2[q - 1] == i {
                    assert(ranked_before(s, idx[0], i));
                } else {
                    assert(rest.contains(r2[q - 1]));
                    let k = choose|k: int| 0 <= k < rest.len() && rest[k] == r2[q - 1];
                    assert(idx[k + 1] == r2[q - 1]);
                    assert(ranked_before(s, idx[0], idx[k + 1]));
                }
            } else {
                assert(r[p] == r2[p - 1]);
                assert(r[q] == r2[q - 1]);
                assert(ranked_before(s, r2[p - 1], r2[q - 1]));
            }
        }
        // contains i
        let k = choose|k: int| 0 <= k < r2.len() && r2[k] == i;
        assert(r[k + 1] == i);
        assert(r.contains(i));
        // keeps every old position
        assert forall|x: int| idx.contains(x) implies r.contains(x) by {
            let k2 = choose|k2: int| 0 <= k2 < idx.len() && idx[k2] == x;
            if k2 == 0 {
                assert(r[0] == x);
            } else {
                assert(rest[k2 - 1] == x);
                assert(rest.contains(x));
                assert(r2.contains(x));
                let m = choose|m: int| 0 <= m < r2.len() && r2[m] == x;
                assert(r[m + 1] == x);
            }
        }
    } else {
        // i is ranked strictly before idx[0]
        assert(ranked_before(s, i, idx[0]));
        assert(r[0] == i);
        assert forall|p: int| 0 <= p < r.len() implies (#[trigger] r[p] == i || idx.contains(
            r[p],
        )) by {
            if p > 0 {
                assert(r[p] == idx[p - 1]);
                assert(idx.contains(idx[p - 1]));
            }
        }
        assert forall|p: int, q: int| 0 <= p < q < r.len() implies ranked_before(
            s,
            r[p],
            r[q],
        ) by {
            if p == 0 {
                assert(r[q] == idx[q - 1]);
                if q - 1 > 0 {
                    assert(ranked_before(s, idx[0], idx[q - 1]));
                }
            } else {
                assert(r[p] == idx[p - 1]);
                assert(r[q] == idx[q - 1]);
                assert(ranked_before(s, idx[p - 1], idx[q - 1]));
            }
        }
        assert forall|x: int| idx.contains(x) implies r.contains(x) by {
            let k2 = choose|k2: int| 0 <= k2 < idx.len() && idx[k2] == x;
            assert(r[k2 + 1] == x);
        }
    }
}

proof fn lemma_insert_ranked_no_dup(s: Seq<RecordModel>, idx: Seq<int>, i: int)
    requires
        idx_sorted(s, idx),
        idx.no_duplicates(),
        !idx.contains(i),
    ensures
        insert_ranked(s, idx, i).no_duplicates(),
    decreases idx.len(),
{
    let r = insert_ranked(s, idx, i);
    if idx.len() == 0 {
    } else if ranked_before(s, idx[0], i) {
        let rest = idx.drop_first();
        assert(idx_sorted(s, rest)) by {
            assert forall|p: int, q: int| 0 <= p < q < rest.len() implies ranked_before(
                s,
                rest[p],
                rest[q],
            ) by {
                assert(rest[p] == idx[p + 1]);
                assert(rest[q] == idx[q + 1]);
            }
        }
        assert(rest.no_duplicates()) by {
            assert forall|p: int, q: int|
                0 <= p < rest.len() && 0 <= q < rest.len() && p != q implies rest[p] != rest[q] by {
                assert(rest[p] == idx[p + 1]);
                assert(rest[q] == idx[q + 1]);
            }
        }
        assert(!rest.contains(i)) by {
            if rest.contains(i) {
                let k = choose|k: int| 0 <= k < rest.len() && rest[k] == i;
                assert(idx[k + 1] == i);
                assert(idx.contains(i));
            }
        }
        lemma_insert_ranked_no_dup(s, rest, i);
        lemma_insert_ranked_props(s, rest, i);
        let r2 = insert_ranked(s, rest, i);
        assert forall|p: int, q: int|
            0 <= p < r.len() && 0 <= q < r.len() && p != q implies r[p] != r[q] by {
            if p == 0 || q == 0 {
                let m = if p == 0 { q } else { p };
                assert(r[0] == idx[0]);
                assert(r[m] == r2[m - 1]);
                if r2[m - 1] == i {
                    assert(idx[0] != i) by {
                        if idx[0] == i {
                            assert(idx.contains(i));
                        }
                    }
                } else {
                    assert(rest.contains(r2[m - 1]));
                    let k = choose|k: int| 0 <= k < rest.len() && rest[k] == r2[m - 1];
                    assert(idx[k + 1] == r2[m - 1]);
                }
            } else {
                assert(r[p] == r2[p - 1]);
                assert(r[q] == r2[q - 1]);
            }
        }
    } else {
        assert(r[0] == i);
        assert forall|p: int, q: int|
            0 <= p < r.len() && 0 <= q < r.len() && p != q implies r[p] != r[q] by {
            if p == 0 || q == 0 {
                let m = if p == 0 { q } else { p };
                assert(r[m] == idx[m - 1]);
                assert(idx.contains(idx[m - 1]));
            } else {
                assert(r[p] == idx[p - 1]);
                assert(r[q] == idx[q - 1]);
            }
        }
    }
}

proof fn lemma_ranked_indices_props(s: Seq<RecordModel>, k: nat)
    ensures
        ranked_indices(s, k).len() == k,
        forall|p: int| 0 <= p < k ==> 0 <= #[trigger] ranked_indices(s, k)[p] < k,
        ranked_indices(s, k).no_duplicates(),
        idx_sorted(s, ranked_indices(s, k)),
        forall|x: int| 0 <= x < k ==> #[trigger] ranked_indices(s, k).contains(x),
    decreases k,
{
    if k > 0 {
        let prev = ranked_indices(s, (k - 1) as nat);
        lemma_ranked_indices_props(s, (k - 1) as nat);
        assert(!prev.contains(k - 1)) by {
            if prev.contains(k - 1) {
                let p = choose|p: int| 0 <= p < prev.len() && prev[p] == k - 1;
                assert(0 <= prev[p] < k - 1);
            }
        }
        lemma_insert_ranked_props(s, prev, k - 1);
        lemma_insert_ranked_no_dup(s, prev, k - 1);
        let r = ranked_indices(s, k);
        assert forall|p: int| 0 <= p < k implies 0 <= #[trigger] r[p] < k by {
            if r[p] != k - 1 {
                assert(prev.contains(r[p]));
                let m = choose|m: int| 0 <= m < prev.len() && prev[m] == r[p];
                assert(0 <= prev[m] < k - 1);
            }
        }
        assert forall|x: int| 0 <= x < k implies #[trigger] r.contains(x) by {
            if x < k - 1 {
                assert(prev.contains(x));
            }
        }
    }
}

/// The cut keeps the top of the ranking: an input position that the
/// first `min(n, s.len())` ranking entries do not list has no more CPU
/// than any position they do list.
pub proof fn lemma_rank_top_n(s: Seq<RecordModel>, n: int)
    requires
        0 <= n,
    ensures
        forall|x: int, p: int|
            0 <= x < s.len() && 0 <= p < rank_spec(s, n).len() && !ranked_indices(
                s,
                s.len(),
            ).take(min(n, s.len() as int)).contains(x) ==> s[x].cpu_centi_percent <= rank_spec(
                s,
                n,
            )[p].cpu_centi_percent,
{
    lemma_ranked_indices_props(s, s.len());
    lemma_rank_sorted_stable(s, n);
    let idx = ranked_indices(s, s.len());
    let m = min(n, s.len() as int);
    assert forall|x: int, p: int|
        0 <= x < s.len() && 0 <= p < rank_spec(s, n).len() && !idx.take(m).contains(
            x,
        ) implies s[x].cpu_centi_percent <= rank_spec(s, n)[p].cpu_centi_percent by {
        assert(idx.contains(x));
        let q = choose|q: int| 0 <= q < idx.len() && idx[q] == x;
        assert(q >= m) by {
            if q < m {
                assert(idx.take(m)[q] == x);
                assert(idx.take(m).contains(x));
            }
        }
        assert(ranked_before(s, idx[p], idx[q]));
        assert(rank_spec(s, n)[p] == s[idx[p]]);
    }
}

/// The ranking of `s` cut to `n` entries has exactly `min(n, s.len())`
/// of them.
pub proof fn lemma_rank_len(s: Seq<RecordModel>, n: int)
    requires
        0 <= n,
    ensures
        rank_spec(s, n).len() == min(n, s.len() as int),
{
    lemma_ranked_indices_props(s, s.len());
}

/// The ranking is sorted non-increasing by CPU and is stable: it maps
/// each of the input positions `0..s.len()` at most once, in an order
/// that keeps equal-CPU positions as the input had them.
pub proof fn lemma_rank_sorted_stable(s: Seq<RecordModel>, n: int)
    requires
        0 <= n,
    ensures
        sorted_non_increasing(rank_spec(s, n)),
        ranked_indices(s, s.len()).len() == s.len(),
        ranked_indices(s, s.len()).no_duplicates(),
        forall|p: int| 0 <= p < s.len() ==> 0 <= #[trigger] ranked_indices(s, s.len())[p]
            < s.len(),
        forall|p: int| 0 <= p < rank_spec(s, n).len() ==> rank_spec(s, n)[p] == s[ranked_indices(
            s,
            s.len(),
        )[p]],
        forall|p: int, q: int|
            0 <= p < q < rank_spec(s, n).len() && rank_spec(s, n)[p].cpu_centi_percent == rank_spec(
                s,
                n,
            )[q].cpu_centi_percent ==> ranked_indices(s, s.len())[p] < ranked_indices(
                s,
                s.len(),
            )[q],
{
    lemma_ranked_indices_props(s, s.len());
    let idx = ranked_indices(s, s.len());
    let m = min(n, s.len() as int);
    let r = rank_spec(s, n);
    assert(r.len() == m);
    assert forall|p: int| 0 <= p < r.len() implies r[p] == s[idx[p]] by {
        assert(idx.take(m)[p] == idx[p]);
    }
    assert forall|p: int, q: int| 0 <= p <= q < r.len() implies r[p].cpu_centi_percent
        >= r[q].cpu_centi_percent by {
        if p < q {
            assert(ranked_before(s, idx[p], idx[q]));
        }
    }
    assert forall|p: int, q: int|
        0 <= p < q < r.len() && r[p].cpu_centi_percent == r[q].cpu_centi_percent implies idx[p]
        < idx[q] by {
        assert(ranked_before(s, idx[p], idx[q]));
        assert(idx[p] != idx[q]);
    }
}

proof fn lemma_insert_ranked_at(s: Seq<RecordModel>, idx: Seq<int>, i: int, pos: int)
    requires
        0 <= pos <= idx.len(),
        forall|p: int| 0 <= p < pos ==> ranked_before(s, #[trigger] idx[p], i),
        pos < idx.len() ==> !ranked_before(s, idx[pos], i),
    ensures
        insert_ranked(s, idx, i) == idx.insert(pos, i),
    decreases idx.len(),
{
    if idx.len() == 0 {
        assert(insert_ranked(s, idx, i) =~= idx.insert(0, i));
    } else if pos == 0 {
        assert(!ranked_before(s, idx[0], i));
        assert(insert_ranked(s, idx, i) =~= idx.insert(0, i));
    } else {
        assert(ranked_before(s, idx[0], i));
        let rest = idx.drop_first();
        assert forall|p: int| 0 <= p < pos - 1 implies ranked_before(s, #[trigger] rest[p], i) by {
            assert(rest[p] == idx[p + 1]);
        }
        assert(pos - 1 < rest.len() ==> !ranked_before(s, rest[pos - 1], i)) by {
            if pos - 1 < rest.len() {
                assert(rest[pos - 1] == idx[pos]);
            }
        }
        lemma_insert_ranked_at(s, rest, i, pos - 1);
        assert(insert_ranked(s, idx, i) =~= idx.insert(pos, i)) by {
            assert(insert_ranked(s, idx, i) == seq![idx[0]] + rest.insert(pos - 1, i));
        }
    }
}

/// The index positions as mathematical integers.
pub open spec fn idx_model(v: Seq<usize>) -> Seq<int> {
    v.map_values(|u: usize| u as int)
}

/// The `n` records of `records` with the highest CPU usage, in
/// non-increasing CPU order; equal-CPU records keep their input order.
pub fn rank(records: &Vec<ProcessRecord>, n: usize) -> (r: Vec<ProcessRecord>)
    ensures
        models(r@) == rank_spec(models(records@), n as int),
        r@.len() == min(n as int, records@.len() as int),
        sorted_non_increasing(models(r@)),
{
    let ghost s = models(records@);
    proof {
        assert(s.len() == records@.len());
    }
    let mut idx: Vec<usize> = Vec::new();
    let mut k: usize = 0;
    proof {
        assert(idx_model(idx@) =~= ranked_indices(s, 0));
    }
    while k < records.len()
        invariant
            k <= records@.len(),
            s == models(records@),
            s.len() == records@.len(),
            idx@.len() == k,
            idx_model(idx@) == ranked_indices(s, k as nat),
            forall|p: int| 0 <= p < k ==> #[trigger] idx@[p] < k,
        decreases records@.len() - k,
    {
        proof {
            lemma_ranked_indices_props(s, k as nat);
        }
        let mut pos: usize = 0;
        while pos < idx.len() && records[idx[pos]].cpu_centi_percent
            >= records[k].cpu_centi_percent
            invariant
                pos <= idx@.len(),
                idx@.len() == k,
                k < records@.len(),
                s == models(records@),
                s.len() == records@.len(),
                idx_model(idx@) == ranked_indices(s, k as nat),
                forall|p: int| 0 <= p < k ==> #[trigger] idx@[p] < k,
                forall|p: int| 0 <= p < pos ==> ranked_before(
                    s,
                    #[trigger] idx_model(idx@)[p],
                    k as int,
                ),
            decreases idx@.len() - pos,
        {
            proof {
                let a = idx@[pos as int];
                assert(idx_model(idx@)[pos as int] == a as int);
                assert(s[a as int] == records@[a as int]@);
                assert(s[k as int] == records@[k as int]@);
                assert(ranked_before(s, a as int, k as int));
            }
            pos = pos + 1;
        }
        proof {
            if pos < idx@.len() {
                let a = idx@[pos as int];
                assert(idx_model(idx@)[pos as int] == a as int);
                assert(s[a as int] == records@[a as int]@);
                assert(s[k as int] == records@[k as int]@);
                assert(!ranked_before(s, a as int, k as int));
            }
            lemma_insert_ranked_at(s, idx_model(idx@), k as int, pos as int);
        }
        let ghost old_idx = idx@;
        idx.insert(pos, k);
        proof {
            assert(idx_model(idx@) =~= idx_model(old_idx).insert(pos as int, k as int)) by {
                old_idx.insert_ensures(pos as int, k);
                idx_model(old_idx).insert_ensures(pos as int, k as int);
            }
            assert(idx_model(idx@) == ranked_indices(s, (k + 1) as nat));
            assert forall|p: int| 0 <= p < k + 1 implies #[trigger] idx@[p] < k + 1 by {
                lemma_ranked_indices_props(s, (k + 1) as nat);
                assert(idx_model(idx@)[p] == idx@[p] as int);
                assert(0 <= idx_model(idx@)[p] < k + 1);
            }
        }
        k = k + 1;
    }
    proof {
        lemma_ranked_indices_props(s, s.len());
        lemma_rank_len(s, n as int);
        lemma_rank_sorted_stable(s, n as int);
    }
    let m: usize = if n <= records.len() {
        n
    } else {
        records.len()
    };
    let ghost full = ranked_indices(s, s.len());
    let mut out: Vec<ProcessRecord> = Vec::new();
    let mut t: usize = 0;
    while t < m
        invariant
            t <= m,
            m == min(n as int, records@.len() as int),
            s == models(records@),
            s.len() == records@.len(),
            idx@.len() == records@.len(),
            idx_model(idx@) == full,
            full == ranked_indices(s, s.len()),
            forall|p: int| 0 <= p < full.len() ==> 0 <= #[trigger] full[p] < s.len(),
            out@.len() == t,
            forall|p: int| 0 <= p < t ==> #[trigger] out@[p]@ == s[full[p]],
        decreases m - t,
    {
        let a = idx[t];
        proof {
            assert(idx_model(idx@)[t as int] == a as int);
            assert(0 <= full[t as int] < s.len());
        }
        out.push(records[a].duplicate());
        t = t + 1;
    }
    proof {
        assert(models(out@) =~= rank_spec(s, n as int)) by {
            assert forall|p: int| 0 <= p < out@.len() implies models(out@)[p] == rank_spec(
                s,
                n as int,
            )[p] by {
                assert(models(out@)[p] == out@[p]@);
                assert(full.take(min(n as int, s.len() as int))[p] == full[p]);
            }
        }
    }
    out
}

} // verus!
