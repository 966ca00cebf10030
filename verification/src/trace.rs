//! Following the rounds of a traceroute.
use vstd::prelude::*;

verus! {

/// The largest round of `rounds`, skipping the probes that have none.
pub open spec fn max_round(rounds: Seq<Option<usize>>) -> Option<usize>
    decreases rounds.len(),
{
    if rounds.len() == 0 {
        None
    } else {
        let rest = max_round(rounds.drop_last());
        match (rounds.last(), rest) {
            (None, _) => rest,
            (Some(r), None) => Some(r),
            (Some(r), Some(m)) => Some(if r > m {
                r
            } else {
                m
            }),
        }
    }
}

/// The round that a traceroute has reached: the largest round of its probes
/// that are awaited or complete (given as `Some(round)`; the others as
/// `None`), or `None` when there is none.
pub fn latest_round(rounds: &[Option<usize>]) -> (r: Option<usize>)
    ensures
        r == max_round(rounds@),
        r.is_some() ==> exists|j: int| 0 <= j < rounds@.len() && rounds@[j] == r,
        r.is_some() ==> forall|j: int| 0 <= j < rounds@.len() && (#[trigger] rounds@[j]).is_some() ==> rounds@[j].unwrap() <= r.unwrap(),
        r.is_none() ==> forall|j: int| 0 <= j < rounds@.len() ==> (#[trigger] rounds@[j]).is_none(),
{
    let mut best: Option<usize> = None;
    let mut i: usize = 0;
    while i < rounds.len()
        invariant
            i <= rounds@.len(),
            best == max_round(rounds@.take(i as int)),
            best.is_some() ==> exists|j: int| 0 <= j < i && rounds@[j] == best,
            best.is_some() ==> forall|j: int| 0 <= j < i && (#[trigger] rounds@[j]).is_some() ==> rounds@[j].unwrap() <= best.unwrap(),
            best.is_none() ==> forall|j: int| 0 <= j < i ==> (#[trigger] rounds@[j]).is_none(),
        decreases rounds@.len() - i,
    {
        proof {
            assert(rounds@.take(i + 1).drop_last() =~= rounds@.take(i as int));
        }
        best = match (rounds[i], best) {
            (None, b) => b,
            (Some(x), None) => Some(x),
            (Some(x), Some(m)) => Some(if x > m {
                x
            } else {
                m
            }),
        };
        i = i + 1;
    }
    proof {
        assert(rounds@.take(rounds@.len() as int) =~= rounds@);
    }
    best
}

/// The hops of a traceroute as (addresses, location key) pairs of
/// sequences.
pub open spec fn hops_view(hops: Seq<(Vec<u128>, Option<u32>)>) -> Seq<(Seq<u128>, Option<u32>)> {
    hops.map_values(|h: (Vec<u128>, Option<u32>)| (h.0@, h.1))
}

/// Hops with each run of neighbours at the same location folded into one
/// hop, which holds the run's addresses in order.
pub open spec fn merged(hops: Seq<(Seq<u128>, Option<u32>)>) -> Seq<(Seq<u128>, Option<u32>)>
    decreases hops.len(),
{
    if hops.len() == 0 {
        seq![]
    } else {
        let acc = merged(hops.drop_last());
        let h = hops.last();
        if acc.len() > 0 && acc.last().1 == h.1 {
            acc.update(acc.len() - 1, (acc.last().0 + h.0, h.1))
        } else {
            acc.push(h)
        }
    }
}

/// The addresses of all `hops`, one hop after the other.
pub open spec fn all_addresses(hops: Seq<(Seq<u128>, Option<u32>)>) -> Seq<u128>
    decreases hops.len(),
{
    if hops.len() == 0 {
        seq![]
    } else {
        all_addresses(hops.drop_last()) + hops.last().0
    }
}

/// Fold each run of neighbouring hops with the same location (`None` for
/// an unknown one) into a single hop that holds their addresses, in order.
pub fn merge_hops(hops: Vec<(Vec<u128>, Option<u32>)>) -> (r: Vec<(Vec<u128>, Option<u32>)>)
    ensures
        hops_view(r@) == merged(hops_view(hops@)),
{
    let mut hops = hops;
    let ghost input = hops_view(hops@);
    let mut r: Vec<(Vec<u128>, Option<u32>)> = Vec::new();
    let mut cur: Vec<u128> = Vec::new();
    let mut cur_key: Option<u32> = None;
    let n = hops.len();
    let mut i: usize = 0;
    while i < n
        invariant
            n == hops@.len(),
            i <= n,
            forall|j: int| i <= j < n ==> (#[trigger] hops_view(hops@)[j]) == input[j],
            input.len() == n,
            i == 0 ==> hops_view(r@).len() == 0,
            i > 0 ==> merged(input.take(i as int)) == hops_view(r@).push((cur@, cur_key)),
        decreases n - i,
    {
        proof {
            assert(input.take(i + 1).drop_last() =~= input.take(i as int));
            assert(input.take(i + 1).last() == input[i as int]);
            assert(hops_view(hops@)[i as int] == input[i as int]);
        }
        let key = hops[i].1;
        let ghost before = hops@;
        let mut ips: Vec<u128> = Vec::new();
        std::mem::swap(&mut ips, &mut hops[i].0);
        proof {
            assert(ips@ == input[i as int].0 && key == input[i as int].1);
            assert forall|j: int| i + 1 <= j < n implies (#[trigger] hops_view(hops@)[j]) == input[j] by {
                assert(hops@[j] == before[j]);
                assert(hops_view(before)[j] == input[j]);
            }
        }
        let ghost old_r = r@;
        let ghost old_cur = cur@;
        let ghost old_key = cur_key;
        if i > 0 && key == cur_key {
            cur.append(&mut ips);
        } else {
            if i > 0 {
                r.push((cur, cur_key));
            }
            cur = ips;
            cur_key = key;
        }
        proof {
            if i > 0 {
                let acc = merged(input.take(i as int));
                assert(acc.len() > 0 && acc.last() == (old_cur, old_key));
                if key == old_key {
                    assert(hops_view(r@).push((cur@, cur_key)) =~= acc.update(acc.len() - 1, (acc.last().0 + input[i as int].0, key)));
                } else {
                    assert(hops_view(r@) =~= hops_view(old_r).push((old_cur, old_key)));
                }
            } else {
                assert(input.take(1).drop_last() =~= Seq::<(Seq<u128>, Option<u32>)>::empty());
                assert(merged(input.take(1).drop_last()) =~= Seq::<(Seq<u128>, Option<u32>)>::empty());
                assert(merged(input.take(1)) =~= seq![input[0]]);
                assert(hops_view(r@).push((cur@, cur_key)) =~= seq![input[0]]);
            }
        }
        i = i + 1;
    }
    if n > 0 {
        r.push((cur, cur_key));
    }
    proof {
        assert(input.take(n as int) =~= input);
    }
    r
}

/// The index in `hops` of the first hop of each hop of `merged(hops)`.
pub open spec fn run_starts(hops: Seq<(Seq<u128>, Option<u32>)>) -> Seq<int>
    decreases hops.len(),
{
    if hops.len() == 0 {
        seq![]
    } else {
        let acc = merged(hops.drop_last());
        if acc.len() > 0 && acc.last().1 == hops.last().1 {
            run_starts(hops.drop_last())
        } else {
            run_starts(hops.drop_last()).push(hops.len() - 1)
        }
    }
}

/// Where the run that starts at `starts[k]` ends (exclusive): at the next
/// start, or at `n` for the last run.
pub open spec fn run_end(starts: Seq<int>, k: int, n: int) -> int {
    if k + 1 < starts.len() {
        starts[k + 1]
    } else {
        n
    }
}

/// Merging keeps every address, in order, and leaves no two neighbouring
/// hops at one location; the run starts are one per merged hop, in
/// increasing order from the first hop.
proof fn lemma_merged_shape(hops: Seq<(Seq<u128>, Option<u32>)>)
    ensures
        all_addresses(merged(hops)) == all_addresses(hops),
        forall|k: int| 0 <= k < merged(hops).len() - 1 ==> (#[trigger] merged(hops)[k]).1 != merged(hops)[k + 1].1,
        run_starts(hops).len() == merged(hops).len(),
        (merged(hops).len() == 0) == (hops.len() == 0),
        hops.len() > 0 ==> run_starts(hops)[0] == 0,
        forall|k: int| 0 <= k < run_starts(hops).len() ==> 0 <= #[trigger] run_starts(hops)[k] < hops.len(),
        forall|k: int| 0 <= k < run_starts(hops).len() - 1 ==> #[trigger] run_starts(hops)[k] < run_starts(hops)[k + 1],
    decreases hops.len(),
{
    if hops.len() > 0 {
        let p = hops.drop_last();
        let x = hops.last();
        let n = hops.len() as int;
        lemma_merged_shape(p);
        let acc = merged(p);
        let sp = run_starts(p);
        let m = merged(hops);
        let s = run_starts(hops);
        if acc.len() > 0 && acc.last().1 == x.1 {
            assert(m == acc.update(acc.len() - 1, (acc.last().0 + x.0, x.1)));
            assert(m.drop_last() =~= acc.drop_last());
            assert(all_addresses(m) =~= all_addresses(hops));
        } else {
            assert(m.drop_last() =~= acc);
            assert(all_addresses(m) =~= all_addresses(hops));
            assert forall|k: int| 0 <= k < s.len() - 1 implies #[trigger] s[k] < s[k + 1] by {
                if k < sp.len() - 1 {
                    assert(sp[k] < sp[k + 1]);
                } else {
                    assert(sp[k] < p.len());
                }
            }
            assert forall|k: int| 0 <= k < s.len() implies 0 <= #[trigger] s[k] < n by {
                if k < sp.len() {
                    assert(0 <= sp[k] < p.len());
                }
            }
        }
    }
}

/// The hops of each run are all at the location of its merged hop.
proof fn lemma_merged_run_keys(hops: Seq<(Seq<u128>, Option<u32>)>)
    ensures
        forall|k: int, j: int| 0 <= k < run_starts(hops).len() && run_starts(hops)[k] <= j < run_end(run_starts(hops), k, hops.len() as int)
            ==> (#[trigger] hops[j]).1 == (#[trigger] merged(hops)[k]).1,
    decreases hops.len(),
{
    if hops.len() > 0 {
        let p = hops.drop_last();
        let x = hops.last();
        let n = hops.len() as int;
        lemma_merged_run_keys(p);
        lemma_merged_shape(p);
        let acc = merged(p);
        let sp = run_starts(p);
        let m = merged(hops);
        let s = run_starts(hops);
        if acc.len() > 0 && acc.last().1 == x.1 {
            let l = acc.len() - 1;
            assert(m == acc.update(l, (acc.last().0 + x.0, x.1)));
            assert forall|k: int, j: int| 0 <= k < s.len() && s[k] <= j < run_end(s, k, n)
                implies (#[trigger] hops[j]).1 == (#[trigger] m[k]).1 by {
                assert(0 <= sp[k] < p.len());
                if j < n - 1 {
                    assert(hops[j] == p[j]);
                }
            }
        } else {
            assert(m == acc.push(x));
            assert(s == sp.push(n - 1));
            assert forall|k: int, j: int| 0 <= k < s.len() && s[k] <= j < run_end(s, k, n)
                implies (#[trigger] hops[j]).1 == (#[trigger] m[k]).1 by {
                if k < sp.len() {
                    assert(run_end(s, k, n) == run_end(sp, k, p.len() as int));
                    assert(hops[j] == p[j]);
                }
            }
        }
    }
}

/// Each merged hop holds the addresses of its run of hops.
proof fn lemma_merged_run_addresses(hops: Seq<(Seq<u128>, Option<u32>)>)
    ensures
        forall|k: int| 0 <= k < run_starts(hops).len() ==> (#[trigger] merged(hops)[k]).0 == all_addresses(
            hops.subrange(run_starts(hops)[k], run_end(run_starts(hops), k, hops.len() as int)),
        ),
    decreases hops.len(),
{
    if hops.len() > 0 {
        let p = hops.drop_last();
        let x = hops.last();
        let n = hops.len() as int;
        lemma_merged_run_addresses(p);
        lemma_merged_shape(p);
        let acc = merged(p);
        let sp = run_starts(p);
        let m = merged(hops);
        let s = run_starts(hops);
        if acc.len() > 0 && acc.last().1 == x.1 {
            let l = acc.len() - 1;
            assert(m == acc.update(l, (acc.last().0 + x.0, x.1)));
            let e = sp[l];
            assert(0 <= e < p.len());
            assert(hops.subrange(e, n).drop_last() =~= p.subrange(e, n - 1));
            assert(hops.subrange(e, n).last() == x);
            assert forall|k: int| 0 <= k < s.len() implies (#[trigger] m[k]).0 == all_addresses(
                hops.subrange(s[k], run_end(s, k, n)),
            ) by {
                if k < l {
                    assert(0 <= sp[k] < sp[k + 1]);
                    assert(hops.subrange(s[k], run_end(s, k, n)) =~= p.subrange(sp[k], run_end(sp, k, p.len() as int)));
                }
            }
        } else {
            assert(m == acc.push(x));
            assert(s == sp.push(n - 1));
            assert(hops.subrange(n - 1, n).drop_last() =~= Seq::<(Seq<u128>, Option<u32>)>::empty());
            assert(hops.subrange(n - 1, n).last() == x);
            assert(all_addresses(Seq::<(Seq<u128>, Option<u32>)>::empty()) =~= Seq::<u128>::empty());
            assert(all_addresses(hops.subrange(n - 1, n)) =~= Seq::<u128>::empty() + x.0);
            assert(all_addresses(hops.subrange(n - 1, n)) =~= x.0);
            assert forall|k: int| 0 <= k < s.len() implies (#[trigger] m[k]).0 == all_addresses(
                hops.subrange(s[k], run_end(s, k, n)),
            ) by {
                if k < sp.len() {
                    assert(0 <= sp[k] < p.len());
                    if k + 1 < sp.len() {
                        assert(sp[k] < sp[k + 1]);
                    }
                    assert(run_end(s, k, n) == run_end(sp, k, p.len() as int));
                    assert(hops.subrange(s[k], run_end(s, k, n)) =~= p.subrange(sp[k], run_end(sp, k, p.len() as int)));
                }
            }
        }
    }
}

/// Merging hops keeps every address, in order; no two neighbouring merged
/// hops share a location; and each merged hop is one run of neighbouring
/// hops at its location, holding their addresses: the runs, from
/// `run_starts`, follow one another from the first hop to the last.
pub proof fn law_merge_hops(hops: Seq<(Seq<u128>, Option<u32>)>)
    ensures
        all_addresses(merged(hops)) == all_addresses(hops),
        forall|k: int| 0 <= k < merged(hops).len() - 1 ==> (#[trigger] merged(hops)[k]).1 != merged(hops)[k + 1].1,
        run_starts(hops).len() == merged(hops).len(),
        (merged(hops).len() == 0) == (hops.len() == 0),
        hops.len() > 0 ==> run_starts(hops)[0] == 0,
        forall|k: int| 0 <= k < run_starts(hops).len() ==> 0 <= #[trigger] run_starts(hops)[k] < hops.len(),
        forall|k: int| 0 <= k < run_starts(hops).len() - 1 ==> #[trigger] run_starts(hops)[k] < run_starts(hops)[k + 1],
        forall|k: int, j: int| 0 <= k < run_starts(hops).len() && run_starts(hops)[k] <= j < run_end(run_starts(hops), k, hops.len() as int)
            ==> (#[trigger] hops[j]).1 == (#[trigger] merged(hops)[k]).1,
        forall|k: int| 0 <= k < run_starts(hops).len() ==> (#[trigger] merged(hops)[k]).0 == all_addresses(
            hops.subrange(run_starts(hops)[k], run_end(run_starts(hops), k, hops.len() as int)),
        ),
{
    lemma_merged_shape(hops);
    lemma_merged_run_keys(hops);
    lemma_merged_run_addresses(hops);
}

} // verus!
