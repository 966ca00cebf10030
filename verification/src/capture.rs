//! Grouping the connections of a capture by where their addresses are.
use vstd::prelude::*;

use crate::database::PackedCoordinate;

verus! {

/// The addresses among the first `n` of `ips` whose coordinate in `coords`
/// is `key`, in order.
pub open spec fn select(ips: Seq<u128>, coords: Seq<Option<PackedCoordinate>>, key: Option<PackedCoordinate>, n: nat) -> Seq<
    u128,
>
    decreases n,
{
    if n == 0 {
        seq![]
    } else {
        let rest = select(ips, coords, key, (n - 1) as nat);
        if coords[n - 1] == key {
            rest.push(ips[n - 1])
        } else {
            rest
        }
    }
}

/// Group the addresses `ips` by their coordinates `coords` (one for each
/// address; `None` where it is not known): one group for each coordinate
/// that occurs, holding its addresses in order, and the addresses without a
/// coordinate apart.
pub fn group_by_coordinate(ips: &Vec<u128>, coords: &Vec<Option<PackedCoordinate>>) -> (r: (
    Vec<(PackedCoordinate, Vec<u128>)>,
    Vec<u128>,
))
    requires
        ips@.len() == coords@.len(),
    ensures
        forall|g: int|
            0 <= g < r.0@.len() ==> (#[trigger] r.0@[g]).1@ == select(
                ips@,
                coords@,
                Some(r.0@[g].0),
                ips@.len(),
            ),
        r.1@ == select(ips@, coords@, None, ips@.len()),
        forall|g: int| 0 <= g < r.0@.len() ==> (#[trigger] r.0@[g]).1@.len() > 0,
        forall|g: int, h: int| 0 <= g < h < r.0@.len() ==> (#[trigger] r.0@[g]).0 != (#[trigger] r.0@[h]).0,
        forall|j: int|
            0 <= j < ips@.len() && (#[trigger] coords@[j]).is_some() ==> exists|g: int|
                0 <= g < r.0@.len() && (#[trigger] r.0@[g]).0 == coords@[j].unwrap(),
{
    let mut groups: Vec<(PackedCoordinate, Vec<u128>)> = Vec::new();
    let mut not_found: Vec<u128> = Vec::new();
    let n = ips.len();
    let mut i: usize = 0;
    while i < n
        invariant
            n == ips@.len(),
            n == coords@.len(),
            i <= n,
            forall|g: int|
                0 <= g < groups@.len() ==> (#[trigger] groups@[g]).1@ == select(
                    ips@,
                    coords@,
                    Some(groups@[g].0),
                    i as nat,
                ),
            not_found@ == select(ips@, coords@, None, i as nat),
            forall|g: int| 0 <= g < groups@.len() ==> (#[trigger] groups@[g]).1@.len() > 0,
            forall|g: int, h: int| 0 <= g < h < groups@.len() ==> (#[trigger] groups@[g]).0 != (#[trigger] groups@[h]).0,
            forall|c: PackedCoordinate|
                (forall|g: int| 0 <= g < groups@.len() ==> (#[trigger] groups@[g]).0 != c) ==> select(
                    ips@,
                    coords@,
                    Some(c),
                    i as nat,
                ) == Seq::<u128>::empty(),
            forall|j: int|
                0 <= j < i && (#[trigger] coords@[j]).is_some() ==> exists|g: int|
                    0 <= g < groups@.len() && (#[trigger] groups@[g]).0 == coords@[j].unwrap(),
        decreases n - i,
    {
        let x = ips[i];
        let ghost before = groups@;
        let ghost mut at: int = 0;
        match coords[i] {
            None => {
                not_found.push(x);
            },
            Some(c) => {
                let mut g: usize = 0;
                while g < groups.len()
                    invariant
                        g <= groups@.len(),
                        forall|h: int| 0 <= h < g ==> (#[trigger] groups@[h]).0 != c,
                    ensures
                        g <= groups@.len(),
                        forall|h: int| 0 <= h < g ==> (#[trigger] groups@[h]).0 != c,
                        g < groups@.len() ==> groups@[g as int].0 == c,
                    decreases groups@.len() - g,
                {
                    if groups[g].0 == c {
                        break;
                    }
                    g = g + 1;
                }
                if g < groups.len() {
                    groups[g].1.push(x);
                } else {
                    let mut v: Vec<u128> = Vec::new();
                    v.push(x);
                    groups.push((c, v));
                }
                proof {
                    at = g as int;
                }
            },
        }
        proof {
            let k = coords@[i as int];
            assert forall|g: int|
                0 <= g < groups@.len() implies (#[trigger] groups@[g]).1@ == select(
                ips@,
                coords@,
                Some(groups@[g].0),
                (i + 1) as nat,
            ) by {
                if g < before.len() {
                    assert(select(ips@, coords@, Some(before[g].0), i as nat) == before[g].1@);
                } else {
                    assert(select(ips@, coords@, Some(groups@[g].0), i as nat) == Seq::<u128>::empty());
                    assert(groups@[g].1@ =~= seq![x]);
                    assert(seq![x] =~= Seq::<u128>::empty().push(x));
                }
            }
            assert forall|c: PackedCoordinate|
                (forall|g: int| 0 <= g < groups@.len() ==> (#[trigger] groups@[g]).0 != c) implies select(
                ips@,
                coords@,
                Some(c),
                (i + 1) as nat,
            ) == Seq::<u128>::empty() by {
                assert forall|g: int| 0 <= g < before.len() implies (#[trigger] before[g]).0 != c by {
                    assert(groups@[g].0 == before[g].0);
                }
                assert(select(ips@, coords@, Some(c), i as nat) == Seq::<u128>::empty());
                if k == Some(c) {
                    assert(groups@[at].0 == c);
                }
            }
            assert forall|j: int|
                0 <= j < i + 1 && (#[trigger] coords@[j]).is_some() implies exists|g: int|
                0 <= g < groups@.len() && (#[trigger] groups@[g]).0 == coords@[j].unwrap() by {
                if j < i {
                    let g0 = choose|g: int| 0 <= g < before.len() && (#[trigger] before[g]).0 == coords@[j].unwrap();
                    assert(groups@[g0].0 == before[g0].0);
                } else {
                    assert(groups@[at].0 == k.unwrap());
                }
            }
        }
        i = i + 1;
    }
    let r = (groups, not_found);
    proof {
        assert forall|j: int|
            0 <= j < ips@.len() && (#[trigger] coords@[j]).is_some() implies exists|g: int|
            0 <= g < r.0@.len() && (#[trigger] r.0@[g]).0 == coords@[j].unwrap() by {
            let g0 = choose|g: int| 0 <= g < groups@.len() && (#[trigger] groups@[g]).0 == coords@[j].unwrap();
            assert(r.0@[g0] == groups@[g0]);
        }
    }
    r
}

/// The coordinates among `coords` (one for each started or ended
/// connection; `None` where it is not known), each once.
pub fn changed_coordinates(coords: &Vec<Option<PackedCoordinate>>) -> (r: Vec<PackedCoordinate>)
    ensures
        r@.no_duplicates(),
        forall|c: PackedCoordinate| r@.contains(c) <==> coords@.contains(Some(c)),
{
    let mut out: Vec<PackedCoordinate> = Vec::new();
    let mut i: usize = 0;
    while i < coords.len()
        invariant
            i <= coords@.len(),
            out@.no_duplicates(),
            forall|c: PackedCoordinate| out@.contains(c) <==> coords@.take(i as int).contains(Some(c)),
        decreases coords@.len() - i,
    {
        let ghost before = out@;
        proof {
            assert(forall|c: PackedCoordinate| before.contains(c) <==> coords@.take(i as int).contains(Some(c)));
        }
        if let Some(c) = coords[i] {
            let mut g: usize = 0;
            while g < out.len()
                invariant
                    g <= out@.len(),
                    forall|h: int| 0 <= h < g ==> out@[h] != c,
                ensures
                    g <= out@.len(),
                    forall|h: int| 0 <= h < g ==> out@[h] != c,
                    g < out@.len() ==> out@[g as int] == c,
                decreases out@.len() - g,
            {
                if out[g] == c {
                    break;
                }
                g = g + 1;
            }
            if g == out.len() {
                out.push(c);
                proof {
                    assert forall|x: int, y: int| 0 <= x < y < out@.len() implies out@[x] != out@[y] by {
                        if y == out@.len() - 1 {
                            assert(out@[x] == before[x]);
                        }
                    }
                }
            }
        }
        proof {
            assert(out@.len() >= before.len());
            assert(forall|h: int| 0 <= h < before.len() ==> out@[h] == before[h]);
            assert(out@.len() > before.len() ==> out@.len() == before.len() + 1 && Some(out@.last()) == coords@[i as int]);
            let t = coords@.take(i + 1);
            assert(t.drop_last() =~= coords@.take(i as int));
            assert forall|c: PackedCoordinate| out@.contains(c) <==> t.contains(Some(c)) by {
                if t.contains(Some(c)) {
                    let j = choose|j: int| 0 <= j < t.len() && t[j] == Some(c);
                    if j < i {
                        assert(coords@.take(i as int)[j] == Some(c));
                        assert(coords@.take(i as int).contains(Some(c)));
                        assert(before.contains(c));
                        let h = choose|h: int| 0 <= h < before.len() && before[h] == c;
                        assert(out@[h] == c);
                    } else {
                        assert(coords@[i as int] == Some(c));
                        if out@.len() == before.len() {
                            assert(out@ =~= before);
                        }
                    }
                }
                if out@.contains(c) {
                    let h = choose|h: int| 0 <= h < out@.len() && out@[h] == c;
                    if h < before.len() {
                        assert(before[h] == c);
                        assert(before.contains(c));
                        let j = choose|j: int| 0 <= j < i && coords@.take(i as int)[j] == Some(c);
                        assert(t[j] == Some(c));
                    } else {
                        assert(t[i as int] == Some(c));
                    }
                }
            }
        }
        i = i + 1;
    }
    proof {
        assert(coords@.take(coords@.len() as int) =~= coords@);
    }
    out
}

} // verus!
