use vstd::prelude::*;
use crate::netsim::ConfigModifier;

verus! {

/// One change of a zone's ordering merged in: a change already in the merged order moves the
/// insertion point just after it; a new one is inserted at the insertion point, which moves past it.
pub open spec fn merge_step(st: (Seq<ConfigModifier>, int), x: ConfigModifier) -> (Seq<ConfigModifier>, int) {
    if st.0.contains(x) {
        (st.0, st.0.index_of(x) + 1)
    } else {
        (st.0.insert(st.1, x), st.1 + 1)
    }
}

/// The first `k` changes of `sub` merged into `fin`, starting at its front.
pub open spec fn merge_sub(fin: Seq<ConfigModifier>, sub: Seq<ConfigModifier>, k: int) -> (Seq<ConfigModifier>, int)
    decreases k,
{
    if k <= 0 {
        (fin, 0)
    } else {
        merge_step(merge_sub(fin, sub, k - 1), sub[k - 1])
    }
}

/// The first `n` zone orderings merged into one order.
pub open spec fn merge_all(subs: Seq<Seq<ConfigModifier>>, n: int) -> Seq<ConfigModifier>
    decreases n,
{
    if n <= 0 {
        Seq::empty()
    } else {
        let prev = merge_all(subs, n - 1);
        merge_sub(prev, subs[n - 1], subs[n - 1].len() as int).0
    }
}

pub open spec fn orders_of(order_results: Seq<Option<Vec<ConfigModifier>>>) -> Seq<Seq<ConfigModifier>> {
    order_results.map_values(|o: Option<Vec<ConfigModifier>>| o.unwrap()@)
}

fn first_position(v: &Vec<ConfigModifier>, x: ConfigModifier) -> (r: Option<usize>)
    requires
        v@.no_duplicates(),
    ensures
        r.is_none() <==> !v@.contains(x),
        r.is_some() ==> r.unwrap() < v@.len() && v@[r.unwrap() as int] == x && r.unwrap() == v@.index_of(x),
{
    let mut i: usize = 0;
    while i < v.len()
        invariant
            v@.no_duplicates(),
            0 <= i <= v.len(),
            forall|j: int| 0 <= j < i ==> v@[j] != x,
        decreases v.len() - i,
    {
        if v[i] == x {
            proof {
                assert(v@.contains(x));
                let k = v@.index_of(x);
                assert(v@[k] == v@[i as int]);
            }
            return Some(i);
        }
        i = i + 1;
    }
    None
}

/// Merges the orderings found for overlapping zones into one order: the changes of each
/// ordering are taken in turn, a change already placed fixes where the next new ones go, and a
/// new change is placed right after the previous change of its ordering.
pub fn merge_zone_order(order_results: Vec<Option<Vec<ConfigModifier>>>) -> (r: Vec<ConfigModifier>)
    requires
        forall|k: int| 0 <= k < order_results@.len() ==> (#[trigger] order_results@[k]).is_some(),
    ensures
        r@ == merge_all(orders_of(order_results@), order_results@.len() as int),
        r@.no_duplicates(),
        forall|x: ConfigModifier| #[trigger] r@.contains(x) <==> exists|k: int|
            0 <= k < order_results@.len() && (#[trigger] orders_of(order_results@)[k]).contains(x),
{
    let ghost subs = orders_of(order_results@);
    let mut fin: Vec<ConfigModifier> = Vec::new();
    let mut n: usize = 0;
    while n < order_results.len()
        invariant
            subs == orders_of(order_results@),
            forall|k: int| 0 <= k < order_results@.len() ==> (#[trigger] order_results@[k]).is_some(),
            0 <= n <= order_results@.len(),
            fin@ == merge_all(subs, n as int),
            fin@.no_duplicates(),
            forall|x: ConfigModifier| #[trigger] fin@.contains(x) <==> exists|k: int| 0 <= k < n && (#[trigger] subs[k]).contains(x),
        decreases order_results@.len() - n,
    {
        let sub = match &order_results[n] {
            Some(s) => s,
            None => {
                proof {
                    assert(order_results@[n as int].is_some());
                }
                return fin;
            },
        };
        assert(subs[n as int] == sub@);
        let ghost base = fin@;
        let mut pos: usize = 0;
        let mut k: usize = 0;
        while k < sub.len()
            invariant
                subs == orders_of(order_results@),
                0 <= n < order_results@.len(),
                subs[n as int] == sub@,
                0 <= k <= sub@.len(),
                (fin@, pos as int) == merge_sub(base, sub@, k as int),
                fin@.no_duplicates(),
                pos <= fin@.len(),
                forall|x: ConfigModifier| #[trigger] fin@.contains(x) <==> base.contains(x) || sub@.take(k as int).contains(x),
            decreases sub@.len() - k,
        {
            let x = sub[k];
            let ghost before = fin@;
            match first_position(&fin, x) {
                Some(i) => {
                    assert(i < fin.len());
                    pos = i + 1;
                },
                None => {
                    fin.insert(pos, x);
                    assert(pos < fin.len());
                    pos = pos + 1;
                    proof {
                        assert(fin@ == before.insert(pos - 1, x));
                        assert forall|a: int, b: int| 0 <= a < b < fin@.len() implies #[trigger] fin@[a] != #[trigger] fin@[b] by {
                            if a == pos - 1 {
                                assert(before.contains(fin@[b]));
                            } else if b == pos - 1 {
                                assert(before.contains(fin@[a]));
                            } else {
                                let a2 = if a < pos - 1 { a } else { a - 1 };
                                let b2 = if b < pos - 1 { b } else { b - 1 };
                                assert(fin@[a] == before[a2]);
                                assert(fin@[b] == before[b2]);
                            }
                        }
                    }
                },
            }
            proof {
                assert(sub@.take(k + 1) == sub@.take(k as int).push(x));
                assert forall|y: ConfigModifier| #[trigger] fin@.contains(y) <==> base.contains(y) || sub@.take(k + 1).contains(y) by {
                    assert(sub@.take(k + 1).contains(y) <==> sub@.take(k as int).contains(y) || y == x) by {
                        if sub@.take(k + 1).contains(y) {
                            let j = choose|j: int| 0 <= j < k + 1 && #[trigger] sub@.take(k + 1)[j] == y;
                            if j < k {
                                assert(sub@.take(k as int)[j] == y);
                            }
                        }
                        if sub@.take(k as int).contains(y) {
                            let j = choose|j: int| 0 <= j < k && #[trigger] sub@.take(k as int)[j] == y;
                            assert(sub@.take(k + 1)[j] == y);
                        }
                        if y == x {
                            assert(sub@.take(k + 1)[k as int] == y);
                        }
                    }
                    if !before.contains(x) {
                        let ins = pos - 1;
                        if fin@.contains(y) && y != x {
                            let j = choose|j: int| 0 <= j < fin@.len() && fin@[j] == y;
                            let j2 = if j < ins { j } else { j - 1 };
                            assert(before[j2] == y);
                        }
                        if before.contains(y) {
                            let j = choose|j: int| 0 <= j < before.len() && before[j] == y;
                            let j2 = if j < ins { j } else { j + 1 };
                            assert(fin@[j2] == y);
                        }
                        if y == x {
                            assert(fin@[ins] == x);
                        }
                    }
                }
            }
            k = k + 1;
        }
        proof {
            assert(sub@.take(sub@.len() as int) =~= sub@);
            assert forall|x: ConfigModifier| #[trigger] fin@.contains(x) <==> exists|j: int| 0 <= j < n + 1 && (#[trigger] subs[j]).contains(x) by {
                if exists|j: int| 0 <= j < n + 1 && (#[trigger] subs[j]).contains(x) {
                    let j = choose|j: int| 0 <= j < n + 1 && (#[trigger] subs[j]).contains(x);
                    if j < n {
                        assert(base.contains(x));
                    }
                }
                if base.contains(x) {
                    let j = choose|j: int| 0 <= j < n && (#[trigger] subs[j]).contains(x);
                }
            }
        }
        n = n + 1;
    }
    fin
}

} // verus!
