use vstd::prelude::*;
use crate::dag::{copy_ids, vec_contains, lemma_unique_subseq_len};
use crate::netsim::{AclMode, Destination, Network, NetworkError, Prefix};
use crate::types::RouterId;

verus! {

/// How a walk along next hops ended.
#[derive(Debug, Clone, Copy, PartialEq, Eq, Structural)]
pub enum CacheResult {
    /// An external router that knows a route was reached.
    ValidPath,
    /// A router without next hop was reached.
    BlackHole,
    /// A router was reached a second time.
    ForwardingLoop,
    /// A router refused the flow.
    AccessDenied,
}

/// The next-hop table of one network state, with a cache of the walks computed so far.
///
/// Entry `r * num_prefixes + p` of `state` is the next hop of router `r` for the `p`-th
/// prefix; the cache has the same layout.
pub struct ForwardingState {
    num_prefixes: usize,
    num_devices: usize,
    state: Vec<Option<RouterId>>,
    prefixes: Vec<Prefix>,
    external_routers: Vec<bool>,
    cache: Vec<Option<(CacheResult, Vec<RouterId>)>>,
    igp_state: Vec<Option<RouterId>>,
    acl: Vec<Option<(AclMode, Vec<RouterId>)>>,
}

proof fn lemma_idx(r: int, p: int, nr: int, np: int)
    requires
        0 <= r < nr,
        0 <= p < np,
    ensures
        0 <= r * np + p < nr * np,
{
    assert(r * np + p < nr * np) by (nonlinear_arith)
        requires
            0 <= r < nr,
            0 <= p < np,
    ;
    assert(0 <= r * np) by (nonlinear_arith)
        requires
            0 <= r,
            0 <= p < np,
    ;
}

proof fn lemma_walks_agree(fs: &ForwardingState, p: int, q1: Seq<RouterId>, r1: CacheResult, q2: Seq<RouterId>, r2: CacheResult, k: int)
    requires
        fs.is_walk(p, q1, r1),
        fs.is_walk(p, q2, r2),
        q1[0] == q2[0],
        0 <= k <= q1.len(),
        k <= q2.len(),
    ensures
        forall|i: int| 0 <= i < k ==> q1[i] == q2[i],
    decreases k,
{
    if k > 1 {
        lemma_walks_agree(fs, p, q1, r1, q2, r2, k - 1);
        assert(q1[k - 2] == q2[k - 2]);
        assert(fs.next_of(q1[k - 2] as int, p) == Some(q1[k - 1]));
        assert(fs.next_of(q2[k - 2] as int, p) == Some(q2[k - 1]));
    }
}

proof fn lemma_walk_not_shorter(fs: &ForwardingState, p: int, q1: Seq<RouterId>, r1: CacheResult, q2: Seq<RouterId>, r2: CacheResult)
    requires
        fs.is_walk(p, q1, r1),
        fs.is_walk(p, q2, r2),
        q1[0] == q2[0],
    ensures
        q1.len() >= q2.len(),
{
    if q1.len() < q2.len() {
        let n1 = q1.len() as int;
        let n2 = q2.len() as int;
        lemma_walks_agree(fs, p, q1, r1, q2, r2, n1);
        assert(q2[n1 - 1] == q1[n1 - 1]);
        assert(!fs.is_external(q2[n1 - 1] as int) && fs.next_of(q2[n1 - 1] as int, p) == Some(q2[n1]));
        if r1 == CacheResult::ForwardingLoop {
            let j = choose|j: int| 0 <= j < n1 - 1 && #[trigger] q1.take(n1 - 1)[j] == q1[n1 - 1];
            assert(q2[j] == q2[n1 - 1]);
            if r2 == CacheResult::ForwardingLoop {
                assert(q2.take(n2 - 1)[j] == q2.take(n2 - 1)[n1 - 1]);
            }
        }
    }
}

/// From one router, for one prefix, there is one walk along next hops, and it ends in one way.
pub proof fn lemma_walk_unique(fs: &ForwardingState, p: int, q1: Seq<RouterId>, r1: CacheResult, q2: Seq<RouterId>, r2: CacheResult)
    requires
        fs.is_walk(p, q1, r1),
        fs.is_walk(p, q2, r2),
        q1[0] == q2[0],
    ensures
        q1 == q2,
        r1 == r2,
{
    lemma_walk_not_shorter(fs, p, q1, r1, q2, r2);
    lemma_walk_not_shorter(fs, p, q2, r2, q1, r1);
    lemma_walks_agree(fs, p, q1, r1, q2, r2, q1.len() as int);
    assert(q1 =~= q2);
    let n = q1.len() as int;
    if r1 != r2 {
        if r1 == CacheResult::ForwardingLoop || r2 == CacheResult::ForwardingLoop {
            let j = choose|j: int| 0 <= j < n - 1 && #[trigger] q1.take(n - 1)[j] == q1[n - 1];
            assert(q1[j] == q1[n - 1]);
        }
    }
}

/// A walk that reaches a router whose walk is known continues as that walk.
proof fn lemma_walk_prepend(fs: &ForwardingState, p: int, a: Seq<RouterId>, c: Seq<RouterId>, res: CacheResult)
    requires
        fs.is_walk(p, c, res),
        a.no_duplicates(),
        forall|i: int| 0 <= i < a.len() ==> #[trigger] a[i] < fs.spec_num_devices(),
        forall|i: int, k: int| 0 <= i < a.len() && 0 <= k < c.len() ==> #[trigger] a[i] != #[trigger] c[k],
        forall|i: int|
            0 <= i < a.len() ==> !fs.is_external(#[trigger] a[i] as int) && fs.next_of(a[i] as int, p) == Some(
                if i + 1 < a.len() {
                    a[i + 1]
                } else {
                    c[0]
                },
            ),
    ensures
        fs.is_walk(p, a + c, res),
{
    let q = a + c;
    let n = q.len() as int;
    assert forall|i: int| 0 <= i < n implies #[trigger] q[i] < fs.spec_num_devices() by {
        if i >= a.len() {
            assert(q[i] == c[i - a.len()]);
        }
    }
    assert forall|i: int| 0 <= i < n - 1 implies !fs.is_external(#[trigger] q[i] as int) && fs.next_of(q[i] as int, p)
        == Some(q[i + 1]) by {
        if i >= a.len() {
            assert(q[i] == c[i - a.len()]);
            assert(q[i + 1] == c[i + 1 - a.len()]);
        } else if i + 1 == a.len() {
            assert(q[i + 1] == c[0]);
        }
    }
    assert(q[n - 1] == c[c.len() - 1]);
    if res == CacheResult::ForwardingLoop {
        let m = c.len() as int;
        assert(q.take(n - 1) =~= a + c.take(m - 1));
        let j = choose|j: int| 0 <= j < m - 1 && #[trigger] c.take(m - 1)[j] == c[m - 1];
        assert(q.take(n - 1)[a.len() + j] == q[n - 1]);
        assert forall|x: int, y: int| 0 <= x < y < n - 1 implies #[trigger] q.take(n - 1)[x] != #[trigger] q.take(n - 1)[y] by {
            if y < a.len() {
            } else if x < a.len() {
                assert(c[y - a.len()] == q[y]);
            } else {
                assert(c.take(m - 1)[x - a.len()] == q[x]);
                assert(c.take(m - 1)[y - a.len()] == q[y]);
            }
        }
    } else if res != CacheResult::AccessDenied {
        assert forall|x: int, y: int| 0 <= x < y < n implies #[trigger] q[x] != #[trigger] q[y] by {
            if y < a.len() {
            } else if x < a.len() {
                assert(c[y - a.len()] == q[y]);
            } else {
                assert(c[x - a.len()] == q[x]);
                assert(c[y - a.len()] == q[y]);
            }
        }
    }
}

/// Up to `bound`, no more distinct values than there are numbers below it.
pub(crate) proof fn lemma_distinct_below(s: Seq<RouterId>, bound: nat)
    requires
        s.no_duplicates(),
        bound <= usize::MAX,
        forall|i: int| 0 <= i < s.len() ==> #[trigger] s[i] < bound,
    ensures
        s.len() <= bound,
{
    let all = Seq::new(bound, |i: int| i as usize);
    assert forall|x: int, y: int| 0 <= x < y < all.len() implies #[trigger] all[x] != #[trigger] all[y] by {}
    assert forall|x: usize| s.contains(x) implies all.contains(x) by {
        let i = choose|i: int| 0 <= i < s.len() && s[i] == x;
        assert(all[x as int] == x);
    }
    lemma_unique_subseq_len(s, all);
}

proof fn lemma_idx_inj(a: int, b: int, c: int, d: int, np: int)
    requires
        0 <= a,
        0 <= c,
        0 <= b < np,
        0 <= d < np,
        a * np + b == c * np + d,
    ensures
        a == c,
        b == d,
{
    if a < c {
        assert(a * np + b < c * np + d) by (nonlinear_arith)
            requires
                0 <= a < c,
                0 <= b < np,
                0 <= d,
        ;
    } else if c < a {
        assert(c * np + d < a * np + b) by (nonlinear_arith)
            requires
                0 <= c < a,
                0 <= d < np,
                0 <= b,
        ;
    }
}

/// A walk from one of its routers on is again a walk; for a loop, as long as the repeated router
/// is still ahead.
proof fn lemma_walk_suffix(fs: &ForwardingState, p: int, q: Seq<RouterId>, res: CacheResult, u: int)
    requires
        fs.is_walk(p, q, res),
        0 <= u < q.len(),
        res == CacheResult::ForwardingLoop ==> exists|j: int| u <= j < q.len() - 1 && #[trigger] q[j] == q[q.len() - 1],
    ensures
        fs.is_walk(p, q.skip(u), res),
{
    let s = q.skip(u);
    let n = q.len() as int;
    assert forall|i: int| 0 <= i < s.len() implies #[trigger] s[i] < fs.spec_num_devices() by {
        assert(s[i] == q[u + i]);
    }
    assert forall|i: int| 0 <= i < s.len() - 1 implies !fs.is_external(#[trigger] s[i] as int) && fs.next_of(s[i] as int, p)
        == Some(s[i + 1]) by {
        assert(s[i] == q[u + i]);
        assert(s[i + 1] == q[u + i + 1]);
    }
    if res == CacheResult::ForwardingLoop {
        let j = choose|j: int| u <= j < q.len() - 1 && #[trigger] q[j] == q[q.len() - 1];
        assert(s.take(s.len() - 1)[j - u] == s[s.len() - 1]);
        assert forall|x: int, y: int| 0 <= x < y < s.len() - 1 implies #[trigger] s.take(s.len() - 1)[x] != #[trigger] s.take(s.len() - 1)[y] by {
            assert(q.take(n - 1)[u + x] == s[x]);
            assert(q.take(n - 1)[u + y] == s[y]);
        }
    } else if res != CacheResult::AccessDenied {
        assert forall|x: int, y: int| 0 <= x < y < s.len() implies #[trigger] s[x] != #[trigger] s[y] by {
            assert(q[u + x] == s[x]);
            assert(q[u + y] == s[y]);
        }
    }
}

/// The loop of a walk `q`, whose repeated router first stands at `lp`, read from position `u`
/// round to the same router again.
pub open spec fn rotation(q: Seq<RouterId>, lp: int, u: int) -> Seq<RouterId> {
    let m = q.len() - 1 - lp;
    let k = u - lp;
    Seq::new(
        (m + 1) as nat,
        |i: int|
            if k + i < m {
                q[lp + k + i]
            } else {
                q[lp + k + i - m]
            },
    )
}

/// Each router of a loop sees the loop starting at itself.
proof fn lemma_walk_rotation(fs: &ForwardingState, p: int, q: Seq<RouterId>, lp: int, u: int)
    requires
        fs.is_walk(p, q, CacheResult::ForwardingLoop),
        0 <= lp <= u < q.len() - 1,
        q[lp] == q[q.len() - 1],
    ensures
        fs.is_walk(p, rotation(q, lp, u), CacheResult::ForwardingLoop),
        rotation(q, lp, u)[0] == q[u],
{
    let n = q.len() as int;
    let m = n - 1 - lp;
    let k = u - lp;
    let r = rotation(q, lp, u);
    let t = q.take(n - 1);
    assert forall|i: int| 0 <= i < r.len() implies #[trigger] r[i] < fs.spec_num_devices() by {}
    assert forall|i: int| 0 <= i < r.len() - 1 implies !fs.is_external(#[trigger] r[i] as int) && fs.next_of(r[i] as int, p)
        == Some(r[i + 1]) by {
        if k + i < m {
            assert(r[i] == q[lp + k + i]);
            if k + i + 1 < m {
                assert(r[i + 1] == q[lp + k + i + 1]);
            } else {
                assert(r[i + 1] == q[lp]);
            }
        } else {
            assert(r[i] == q[lp + k + i - m]);
            assert(r[i + 1] == q[lp + k + i + 1 - m]);
        }
    }
    assert(r.take(m)[0] == r[m]);
    assert forall|x: int, y: int| 0 <= x < y < m implies #[trigger] r.take(m)[x] != #[trigger] r.take(m)[y] by {
        let px = if k + x < m { lp + k + x } else { lp + k + x - m };
        let py = if k + y < m { lp + k + y } else { lp + k + y - m };
        assert(r[x] == t[px]);
        assert(r[y] == t[py]);
    }
}

fn concat(a: &Vec<RouterId>, b: &Vec<RouterId>) -> (r: Vec<RouterId>)
    ensures
        r@ == a@ + b@,
{
    let mut r = copy_ids(a);
    let mut i: usize = 0;
    while i < b.len()
        invariant
            0 <= i <= b.len(),
            r@ == a@ + b@.take(i as int),
        decreases b.len() - i,
    {
        r.push(b[i]);
        proof {
            assert(r@ =~= a@ + b@.take(i + 1));
        }
        i = i + 1;
    }
    assert(b@.take(b@.len() as int) =~= b@);
    r
}

fn suffix_from(q: &Vec<RouterId>, u: usize) -> (r: Vec<RouterId>)
    requires
        u <= q.len(),
    ensures
        r@ == q@.skip(u as int),
{
    let mut r: Vec<RouterId> = Vec::new();
    let mut i: usize = u;
    while i < q.len()
        invariant
            u <= i <= q.len(),
            r@ == q@.subrange(u as int, i as int),
        decreases q.len() - i,
    {
        r.push(q[i]);
        proof {
            assert(r@ =~= q@.subrange(u as int, i + 1));
        }
        i = i + 1;
    }
    assert(r@ =~= q@.skip(u as int));
    r
}

fn rotate(q: &Vec<RouterId>, lp: usize, u: usize) -> (r: Vec<RouterId>)
    requires
        lp <= u < q.len(),
    ensures
        r@ == rotation(q@, lp as int, u as int),
{
    let m = q.len() - 1 - lp;
    let k = u - lp;
    let mut r: Vec<RouterId> = Vec::new();
    let mut i: usize = 0;
    while i <= m
        invariant
            m == q.len() - 1 - lp,
            k == u - lp,
            lp <= u < q.len(),
            0 <= i <= m + 1,
            r@ == rotation(q@, lp as int, u as int).take(i as int),
        decreases m + 1 - i,
    {
        if i < m - k {
            r.push(q[u + i]);
        } else {
            r.push(q[lp + (i - (m - k))]);
        }
        proof {
            assert(r@ =~= rotation(q@, lp as int, u as int).take(i + 1));
        }
        i = i + 1;
    }
    assert(r@ =~= rotation(q@, lp as int, u as int));
    r
}

/// The first position of `x` in `q`.
fn first_index(q: &Vec<RouterId>, x: RouterId) -> (r: usize)
    requires
        q@.contains(x),
    ensures
        r < q.len(),
        q@[r as int] == x,
        forall|j: int| 0 <= j < r ==> q@[j] != x,
{
    let mut i: usize = 0;
    while i < q.len()
        invariant
            0 <= i <= q.len(),
            q@.contains(x),
            forall|j: int| 0 <= j < i ==> q@[j] != x,
        decreases q.len() - i,
    {
        if q[i] == x {
            return i;
        }
        i = i + 1;
    }
    proof {
        let j = choose|j: int| 0 <= j < q@.len() && q@[j] == x;
    }
    0
}

/// Writing one correct entry for prefix `p` keeps the cache consistent but for `p`.
proof fn lemma_set_keeps(
    before: ForwardingState,
    after: ForwardingState,
    r: int,
    p: int,
    e: (CacheResult, Vec<RouterId>),
    g: Seq<RouterId>,
)
    requires
        before.partial_wf(p, g),
        after.same_shape(&before),
        0 <= r < before.spec_num_devices(),
        forall|a: int, b: int|
            0 <= a < before.spec_num_devices() && 0 <= b < before.spec_prefixes().len() ==> #[trigger] after.cache_at(a, b)
                == if a == r && b == p {
                Some(e)
            } else {
                before.cache_at(a, b)
            },
        e.1@.len() >= 1,
        e.1@[0] == r,
        before.is_walk(p, e.1@, e.0),
        forall|k: int| 0 <= k < e.1@.len() ==> g.contains(#[trigger] e.1@[k]),
    ensures
        after.partial_wf(p, g),
        after.is_cached(r, p),
        forall|x: int| 0 <= x < before.spec_num_devices() && before.is_cached(x, p) ==> #[trigger] after.is_cached(x, p),
{
    let nd = before.spec_num_devices() as int;
    let np = before.spec_prefixes().len() as int;
    assert(after.is_cached(r, p));
    assert forall|a: int, d: int| 0 <= a < nd && 0 <= d < nd && (#[trigger] after.igp_next_of(a, d)).is_some()
        implies after.igp_next_of(a, d).unwrap() < nd by {
        assert(after.igp_next_of(a, d) == before.igp_next_of(a, d));
    }
    assert(after.igp_wf());
    assert forall|x: int| 0 <= x < nd && before.is_cached(x, p) implies #[trigger] after.is_cached(x, p) by {
        assert(after.cache_at(x, p) == if x == r { Some(e) } else { before.cache_at(x, p) });
    }
    assert forall|a: int, b: int| 0 <= a < nd && 0 <= b < np implies #[trigger] after.next_of(a, b) == before.next_of(a, b) by {}
    assert forall|a: int, b: int| 0 <= a < nd && 0 <= b < np implies #[trigger] after.entry_ok(a, b) by {
        assert(before.entry_ok(a, b));
        assert(after.cache_at(a, b) == if a == r && b == p { Some(e) } else { before.cache_at(a, b) });
    }
    assert forall|a: int, b: int| 0 <= a < nd && 0 <= b < np && b != p implies #[trigger] after.entry_closed(a, b) by {
        assert(before.entry_closed(a, b));
        assert(before.entry_ok(a, b));
        assert(after.cache_at(a, b) == before.cache_at(a, b));
        if after.cache_at(a, b).is_some() {
            let c = after.cache_at(a, b).unwrap();
            assert forall|k: int| 0 <= k < c.1@.len() implies after.is_cached(#[trigger] c.1@[k] as int, b) by {
                assert(before.is_cached(c.1@[k] as int, b));
                assert(c.1@[k] < nd);
                assert(after.cache_at(c.1@[k] as int, b) == before.cache_at(c.1@[k] as int, b));
            }
        }
    }
    assert forall|a: int| 0 <= a < nd implies #[trigger] after.entry_closed_but(a, p, g) by {
        assert(before.entry_closed_but(a, p, g));
        assert(before.entry_ok(a, p));
        assert(after.cache_at(a, p) == if a == r { Some(e) } else { before.cache_at(a, p) });
        if a != r && after.cache_at(a, p).is_some() {
            let c = after.cache_at(a, p).unwrap();
            assert forall|k: int| 0 <= k < c.1@.len() implies after.is_cached(#[trigger] c.1@[k] as int, p) || g.contains(c.1@[k]) by {
                if !g.contains(c.1@[k]) {
                    assert(before.is_cached(c.1@[k] as int, p));
                    assert(c.1@[k] < nd);
                }
            }
        }
    }
}

proof fn lemma_acl_walks_agree(
    fs: &ForwardingState,
    src: RouterId,
    dest: Destination,
    q1: Seq<RouterId>,
    r1: CacheResult,
    q2: Seq<RouterId>,
    r2: CacheResult,
    k: int,
)
    requires
        fs.is_acl_walk(src, dest, q1, r1),
        fs.is_acl_walk(src, dest, q2, r2),
        0 <= k <= q1.len(),
        k <= q2.len(),
    ensures
        forall|i: int| 0 <= i < k ==> q1[i] == q2[i],
    decreases k,
{
    if k > 1 {
        lemma_acl_walks_agree(fs, src, dest, q1, r1, q2, r2, k - 1);
        assert(q1[k - 2] == q2[k - 2]);
        assert(fs.dest_hop(q1[k - 2] as int, dest) == Some(q1[k - 1]));
        assert(fs.dest_hop(q2[k - 2] as int, dest) == Some(q2[k - 1]));
    }
}

proof fn lemma_acl_walk_not_shorter(
    fs: &ForwardingState,
    src: RouterId,
    dest: Destination,
    q1: Seq<RouterId>,
    r1: CacheResult,
    q2: Seq<RouterId>,
    r2: CacheResult,
)
    requires
        fs.is_acl_walk(src, dest, q1, r1),
        fs.is_acl_walk(src, dest, q2, r2),
    ensures
        q1.len() >= q2.len(),
{
    if q1.len() < q2.len() {
        let n1 = q1.len() as int;
        let n2 = q2.len() as int;
        lemma_acl_walks_agree(fs, src, dest, q1, r1, q2, r2, n1);
        assert(q2[n1 - 1] == q1[n1 - 1]);
        assert(fs.dest_hop(q2[n1 - 1] as int, dest) == Some(q2[n1]) && q2[n1] != q2[n1 - 1] && fs.allowed(src, q2[n1 - 1] as int));
        if r1 == CacheResult::ForwardingLoop {
            let j = choose|j: int| 0 <= j < n1 - 1 && #[trigger] q1.take(n1 - 1)[j] == q1[n1 - 1];
            assert(q2[j] == q2[n1 - 1]);
            if r2 == CacheResult::ForwardingLoop {
                assert(q2.take(n2 - 1)[j] == q2.take(n2 - 1)[n1 - 1]);
            }
        }
    }
}

/// From one router toward one destination there is one walk of a flow, and it ends in one way.
pub proof fn lemma_acl_walk_unique(
    fs: &ForwardingState,
    src: RouterId,
    dest: Destination,
    q1: Seq<RouterId>,
    r1: CacheResult,
    q2: Seq<RouterId>,
    r2: CacheResult,
)
    requires
        fs.is_acl_walk(src, dest, q1, r1),
        fs.is_acl_walk(src, dest, q2, r2),
    ensures
        q1 == q2,
        r1 == r2,
{
    lemma_acl_walk_not_shorter(fs, src, dest, q1, r1, q2, r2);
    lemma_acl_walk_not_shorter(fs, src, dest, q2, r2, q1, r1);
    lemma_acl_walks_agree(fs, src, dest, q1, r1, q2, r2, q1.len() as int);
    assert(q1 =~= q2);
    let n = q1.len() as int;
    if r1 != r2 {
        if r1 == CacheResult::ForwardingLoop || r2 == CacheResult::ForwardingLoop {
            let j = choose|j: int| 0 <= j < n - 1 && #[trigger] q1.take(n - 1)[j] == q1[n - 1];
            assert(q1[j] == q1[n - 1]);
        }
    }
}

/// What `get_next_hop` answers, with `None` standing for an unknown router.
pub open spec fn next_hop_answer(fs: &ForwardingState, router: RouterId, prefix: Prefix) -> Option<Option<RouterId>> {
    if router >= fs.spec_num_devices() {
        None
    } else if !fs.spec_prefixes().contains(prefix) {
        Some(None)
    } else {
        Some(fs.next_of(router as int, fs.prefix_pos(prefix)))
    }
}

/// A route query answers with a path exactly when the router reaches the prefix.
pub proof fn lemma_route_ok_iff_reaches(fs: &ForwardingState, src: RouterId, prefix: Prefix, r: Result<Vec<RouterId>, NetworkError>)
    requires
        src < fs.spec_num_devices(),
        fs.spec_prefixes().contains(prefix),
        fs.route_matches(src, fs.prefix_pos(prefix), r),
    ensures
        r.is_ok() <==> fs.reaches(src, prefix),
{
    let p = fs.prefix_pos(prefix);
    if fs.reaches(src, prefix) && !r.is_ok() {
        let q = choose|q: Seq<RouterId>| q[0] == src && fs.is_walk(p, q, CacheResult::ValidPath);
        match r {
            Err(NetworkError::ForwardingBlackHole(q2)) => {
                lemma_walk_unique(fs, p, q, CacheResult::ValidPath, q2@, CacheResult::BlackHole);
            },
            Err(NetworkError::ForwardingLoop(q2)) => {
                lemma_walk_unique(fs, p, q, CacheResult::ValidPath, q2@, CacheResult::ForwardingLoop);
            },
            _ => {},
        }
    }
    if r.is_ok() {
        assert(r.unwrap()@[0] == src && fs.is_walk(p, r.unwrap()@, CacheResult::ValidPath));
    }
}

/// The routers that an answer of `get_route` names: the path, or the routers walked before
/// the failure.
pub open spec fn route_seq(r: Result<Vec<RouterId>, NetworkError>) -> Seq<RouterId> {
    match r {
        Ok(q) => q@,
        Err(NetworkError::ForwardingBlackHole(q)) => q@,
        Err(NetworkError::ForwardingLoop(q)) => q@,
        _ => Seq::empty(),
    }
}

/// Two answers of `get_route` are the same: both a path, or both the same error, with the same
/// routers.
pub open spec fn same_answer(r1: Result<Vec<RouterId>, NetworkError>, r2: Result<Vec<RouterId>, NetworkError>) -> bool {
    match (r1, r2) {
        (Ok(q1), Ok(q2)) => q1@ == q2@,
        (Err(NetworkError::ForwardingBlackHole(q1)), Err(NetworkError::ForwardingBlackHole(q2))) => q1@ == q2@,
        (Err(NetworkError::ForwardingLoop(q1)), Err(NetworkError::ForwardingLoop(q2))) => q1@ == q2@,
        (Err(NetworkError::DeviceNotFound(x1)), Err(NetworkError::DeviceNotFound(x2))) => x1 == x2,
        (Err(NetworkError::AccessDenied(x1)), Err(NetworkError::AccessDenied(x2))) => x1 == x2,
        _ => false,
    }
}

pub(crate) proof fn lemma_walk_transfer(a: &ForwardingState, b: &ForwardingState, p: int, q: Seq<RouterId>, res: CacheResult)
    requires
        a.same_tables(b),
        0 <= p < a.spec_prefixes().len(),
        a.is_walk(p, q, res),
    ensures
        b.is_walk(p, q, res),
{
    assert forall|i: int| 0 <= i < q.len() implies #[trigger] b.next_of(q[i] as int, p) == a.next_of(q[i] as int, p) by {}
}

/// `get_route` does not depend on its cache: on states with the same forwarding tables, as
/// before and after a call fills the cache, the same query gets the same answer.
pub proof fn lemma_get_route_transparent(
    a: &ForwardingState,
    b: &ForwardingState,
    src: RouterId,
    p: int,
    r1: Result<Vec<RouterId>, NetworkError>,
    r2: Result<Vec<RouterId>, NetworkError>,
)
    requires
        a.same_tables(b),
        0 <= p < a.spec_prefixes().len(),
        a.route_matches(src, p, r1),
        b.route_matches(src, p, r2),
    ensures
        same_answer(r1, r2),
{
    let (q1, k1) = match r1 {
        Ok(q) => (q@, CacheResult::ValidPath),
        Err(NetworkError::ForwardingBlackHole(q)) => (q@, CacheResult::BlackHole),
        Err(NetworkError::ForwardingLoop(q)) => (q@, CacheResult::ForwardingLoop),
        _ => (Seq::empty(), CacheResult::AccessDenied),
    };
    let (q2, k2) = match r2 {
        Ok(q) => (q@, CacheResult::ValidPath),
        Err(NetworkError::ForwardingBlackHole(q)) => (q@, CacheResult::BlackHole),
        Err(NetworkError::ForwardingLoop(q)) => (q@, CacheResult::ForwardingLoop),
        _ => (Seq::empty(), CacheResult::AccessDenied),
    };
    lemma_walk_transfer(a, b, p, q1, k1);
    lemma_walk_unique(b, p, q1, k1, q2, k2);
}

/// An IGP table without any route and no access-control lists.
fn empty_igp(nd: usize) -> (r: (Vec<Option<RouterId>>, Vec<Option<(AclMode, Vec<RouterId>)>>))
    requires
        nd * nd <= usize::MAX,
    ensures
        r.0@.len() == nd * nd,
        forall|k: int| 0 <= k < r.0@.len() ==> (#[trigger] r.0@[k]).is_none(),
        r.1@.len() == nd,
        forall|k: int| 0 <= k < r.1@.len() ==> (#[trigger] r.1@[k]).is_none(),
{
    let mut igp: Vec<Option<RouterId>> = Vec::new();
    let total = nd * nd;
    let mut i: usize = 0;
    while i < total
        invariant
            0 <= i <= total,
            igp@.len() == i,
            forall|k: int| 0 <= k < igp@.len() ==> (#[trigger] igp@[k]).is_none(),
        decreases total - i,
    {
        igp.push(None);
        i = i + 1;
    }
    let mut acl: Vec<Option<(AclMode, Vec<RouterId>)>> = Vec::new();
    let mut i: usize = 0;
    while i < nd
        invariant
            0 <= i <= nd,
            acl@.len() == i,
            forall|k: int| 0 <= k < acl@.len() ==> (#[trigger] acl@[k]).is_none(),
        decreases nd - i,
    {
        acl.push(None);
        i = i + 1;
    }
    (igp, acl)
}

/// An access-control entry lets flows from `src` pass.
pub open spec fn acl_entry_allows(e: Option<(AclMode, Vec<RouterId>)>, src: RouterId) -> bool {
    match e {
        None => true,
        Some(a) => match a.0 {
            AclMode::Accept => a.1@.contains(src),
            AclMode::Deny => !a.1@.contains(src),
        },
    }
}

/// The IGP table of `net`: entry `a * n + d` is the next hop of `a` toward `d`.
fn build_igp(net: &Network) -> (igp: Vec<Option<RouterId>>)
    requires
        net.wf(),
    ensures
        igp@.len() == net.devices@.len() * net.devices@.len(),
        forall|x: int, y: int|
            0 <= x < net.devices@.len() && 0 <= y < net.devices@.len() ==> #[trigger] igp@[x * net.devices@.len() + y]
                == net.igp_hop_of(x, y),
{
        let nd = net.devices.len();
        let mut igp: Vec<Option<RouterId>> = Vec::new();
        let mut a: usize = 0;
        while a < nd
            invariant
                net.wf(),
                nd == net.devices@.len(),
                0 <= a <= nd,
                igp@.len() == a * nd,
                forall|x: int, y: int| 0 <= x < a && 0 <= y < nd ==> #[trigger] igp@[x * nd + y] == net.igp_hop_of(x, y),
            decreases nd - a,
        {
            proof {
                assert(a * nd + nd <= nd * nd) by (nonlinear_arith)
                    requires a < nd;
            }
            let dev = &net.devices[a];
            let mut d: usize = 0;
            while d < nd
                invariant
                    net.wf(),
                    nd == net.devices@.len(),
                    0 <= a < nd,
                    0 <= d <= nd,
                    a * nd + nd <= nd * nd,
                    *dev == net.devices@[a as int],
                    igp@.len() == a * nd + d,
                    forall|x: int, y: int| 0 <= x < a && 0 <= y < nd ==> #[trigger] igp@[x * nd + y] == net.igp_hop_of(x, y),
                    forall|y: int| 0 <= y < d ==> #[trigger] igp@[a * nd + y] == net.igp_hop_of(a as int, y),
                decreases nd - d,
            {
                let hop: Option<RouterId> = if dev.external {
                    None
                } else if a == d {
                    Some(a)
                } else if d < dev.igp_next_hops.len() {
                    dev.igp_next_hops[d]
                } else {
                    None
                };
                let ghost before = igp@;
                igp.push(hop);
                proof {
                    assert forall|x: int, y: int| 0 <= x < a && 0 <= y < nd implies #[trigger] igp@[x * nd + y] == net.igp_hop_of(x, y) by {
                        lemma_idx(x, y, a as int, nd as int);
                        assert(igp@[x * nd + y] == before[x * nd + y]);
                    }
                    assert forall|y: int| 0 <= y < d + 1 implies #[trigger] igp@[a * nd + y] == net.igp_hop_of(a as int, y) by {
                        if y < d {
                            assert(igp@[a * nd + y] == before[a * nd + y]);
                        }
                    }
                }
                d = d + 1;
            }
            proof {
                assert((a + 1) * nd == a * nd + nd) by (nonlinear_arith);
                assert forall|x: int, y: int| 0 <= x < a + 1 && 0 <= y < nd implies #[trigger] igp@[x * nd + y] == net.igp_hop_of(x, y) by {
                    if x == a {
                        assert(igp@[a * nd + y] == net.igp_hop_of(a as int, y));
                    }
                }
            }
            a = a + 1;
        }
        igp
}

/// The access-control entries of `net`, one per device.
fn build_acl(net: &Network) -> (acl: Vec<Option<(AclMode, Vec<RouterId>)>>)
    ensures
        acl@.len() == net.devices@.len(),
        forall|src: RouterId, x: int| 0 <= x < net.devices@.len() ==> #[trigger] acl_entry_allows(acl@[x], src) == net.acl_allows(src, x),
{
        let nd = net.devices.len();
        let mut acl: Vec<Option<(AclMode, Vec<RouterId>)>> = Vec::new();
        let mut a: usize = 0;
        while a < nd
            invariant
                nd == net.devices@.len(),
                0 <= a <= nd,
                acl@.len() == a,
                forall|src: RouterId, x: int| 0 <= x < a ==> #[trigger] acl_entry_allows(acl@[x], src) == net.acl_allows(src, x),
            decreases nd - a,
        {
            let dev = &net.devices[a];
            let entry: Option<(AclMode, Vec<RouterId>)> = if dev.external {
                None
            } else {
                match &dev.acl {
                    None => None,
                    Some(e) => Some((e.0, copy_ids(&e.1))),
                }
            };
            acl.push(entry);
            proof {
                assert forall|src: RouterId, x: int| 0 <= x < a + 1 implies #[trigger] acl_entry_allows(acl@[x], src) == net.acl_allows(src, x) by {
                    if x < a {
                        assert(acl@[x] == acl@.drop_last()[x]);
                    }
                }
            }
            a = a + 1;
        }
        acl
}

fn prefix_listed(v: &Vec<Prefix>, x: Prefix) -> (r: bool)
    ensures
        r == v@.contains(x),
{
    let mut i: usize = 0;
    while i < v.len()
        invariant
            0 <= i <= v.len(),
            forall|j: int| 0 <= j < i ==> v@[j] != x,
        decreases v.len() - i,
    {
        if v[i] == x {
            return true;
        }
        i = i + 1;
    }
    false
}

impl ForwardingState {
    pub closed spec fn spec_num_devices(&self) -> nat {
        self.num_devices as nat
    }

    pub closed spec fn spec_prefixes(&self) -> Seq<Prefix> {
        self.prefixes@
    }

    /// Next hop of router `r` for the `p`-th prefix.
    pub closed spec fn next_of(&self, r: int, p: int) -> Option<RouterId> {
        self.state@[r * self.num_prefixes + p]
    }

    pub closed spec fn is_external(&self, r: int) -> bool {
        self.external_routers@[r]
    }

    pub closed spec fn cache_at(&self, r: int, p: int) -> Option<(CacheResult, Vec<RouterId>)> {
        self.cache@[r * self.num_prefixes + p]
    }

    /// The forwarding tables of two states agree; caches may differ.
    pub open spec fn same_tables(&self, other: &ForwardingState) -> bool {
        &&& self.spec_num_devices() == other.spec_num_devices()
        &&& self.spec_prefixes() == other.spec_prefixes()
        &&& forall|r: int| 0 <= r < self.spec_num_devices() ==> self.is_external(r) == other.is_external(r)
        &&& forall|r: int, p: int|
            0 <= r < self.spec_num_devices() && 0 <= p < self.spec_prefixes().len()
                ==> #[trigger] self.next_of(r, p) == other.next_of(r, p)
    }

    /// The position of `prefix` among the known prefixes.
    pub open spec fn prefix_pos(&self, prefix: Prefix) -> int {
        self.spec_prefixes().index_of(prefix)
    }

    /// `q` is the walk along next hops for the `p`-th prefix from `q[0]`, ending as `res` says:
    /// every router before the last is internal and forwards to the one after it; the routers
    /// are distinct, but for a loop, whose last router is one seen before.
    pub open spec fn is_walk(&self, p: int, q: Seq<RouterId>, res: CacheResult) -> bool {
        let n = q.len() as int;
        &&& n >= 1
        &&& forall|i: int| 0 <= i < n ==> #[trigger] q[i] < self.spec_num_devices()
        &&& forall|i: int|
            0 <= i < n - 1 ==> !self.is_external(#[trigger] q[i] as int) && self.next_of(q[i] as int, p)
                == Some(q[i + 1])
        &&& match res {
            CacheResult::ValidPath => q.no_duplicates() && self.is_external(q[n - 1] as int)
                && self.next_of(q[n - 1] as int, p).is_some(),
            CacheResult::BlackHole => q.no_duplicates() && self.next_of(q[n - 1] as int, p).is_none(),
            CacheResult::ForwardingLoop => n >= 2 && q.take(n - 1).no_duplicates() && q.take(n - 1).contains(
                q[n - 1],
            ),
            CacheResult::AccessDenied => false,
        }
    }

    /// What `get_route` answers for a known prefix: the walk from `src`, as a path or as an error.
    pub open spec fn route_matches(&self, src: RouterId, p: int, r: Result<Vec<RouterId>, NetworkError>) -> bool {
        match r {
            Ok(q) => q@[0] == src && self.is_walk(p, q@, CacheResult::ValidPath),
            Err(NetworkError::ForwardingBlackHole(q)) => q@[0] == src && self.is_walk(p, q@, CacheResult::BlackHole),
            Err(NetworkError::ForwardingLoop(q)) => q@[0] == src && self.is_walk(p, q@, CacheResult::ForwardingLoop),
            _ => false,
        }
    }

    pub closed spec fn wf(&self) -> bool {
        &&& self.num_prefixes == self.prefixes@.len()
        &&& self.prefixes@.no_duplicates()
        &&& self.num_devices * self.num_prefixes <= usize::MAX
        &&& self.state@.len() == self.num_devices * self.num_prefixes
        &&& self.cache@.len() == self.num_devices * self.num_prefixes
        &&& self.external_routers@.len() == self.num_devices
        &&& forall|r: int, p: int|
            0 <= r < self.num_devices && 0 <= p < self.num_prefixes && (#[trigger] self.next_of(r, p)).is_some()
                ==> self.next_of(r, p).unwrap() < self.num_devices
        &&& self.igp_wf()
        &&& forall|r: int, p: int|
            0 <= r < self.num_devices && 0 <= p < self.num_prefixes ==> #[trigger] self.entry_ok(r, p)
        &&& forall|r: int, p: int|
            0 <= r < self.num_devices && 0 <= p < self.num_prefixes ==> #[trigger] self.entry_closed(r, p)
    }

    /// The IGP table has an entry for each pair of routers, naming a router, and each router has
    /// an access-control entry.
    pub closed spec fn igp_wf(&self) -> bool {
        &&& self.num_devices * self.num_devices <= usize::MAX
        &&& self.igp_state@.len() == self.num_devices * self.num_devices
        &&& self.acl@.len() == self.num_devices
        &&& forall|r: int, d: int|
            0 <= r < self.num_devices && 0 <= d < self.num_devices && (#[trigger] self.igp_next_of(r, d)).is_some()
                ==> self.igp_next_of(r, d).unwrap() < self.num_devices
    }

    /// IGP next hop of router `r` toward router `d`.
    pub closed spec fn igp_next_of(&self, r: int, d: int) -> Option<RouterId> {
        self.igp_state@[r * self.num_devices + d]
    }

    /// The access-control list of router `r` lets flows from `src` pass.
    pub closed spec fn allowed(&self, src: RouterId, r: int) -> bool {
        acl_entry_allows(self.acl@[r], src)
    }

    /// A cached walk starts at its router and is the walk from there.
    pub closed spec fn entry_ok(&self, r: int, p: int) -> bool {
        match self.cache_at(r, p) {
            None => true,
            Some(e) => e.1@.len() >= 1 && e.1@[0] == r && self.is_walk(p, e.1@, e.0),
        }
    }

    /// Every router on a cached walk has a cached walk too.
    pub closed spec fn entry_closed(&self, r: int, p: int) -> bool {
        match self.cache_at(r, p) {
            None => true,
            Some(e) => forall|k: int| 0 <= k < e.1@.len() ==> self.is_cached(#[trigger] e.1@[k] as int, p),
        }
    }

    pub closed spec fn is_cached(&self, r: int, p: int) -> bool {
        self.cache_at(r, p).is_some()
    }

    fn prefix_index(&self, prefix: Prefix) -> (r: Option<usize>)
        requires
            self.wf(),
        ensures
            r.is_none() <==> !self.spec_prefixes().contains(prefix),
            r.is_some() ==> r.unwrap() < self.spec_prefixes().len() && self.spec_prefixes()[r.unwrap() as int]
                == prefix && r.unwrap() == self.prefix_pos(prefix),
    {
        let mut i: usize = 0;
        while i < self.prefixes.len()
            invariant
                self.wf(),
                0 <= i <= self.prefixes.len(),
                forall|j: int| 0 <= j < i ==> self.prefixes@[j] != prefix,
            decreases self.prefixes.len() - i,
        {
            if self.prefixes[i] == prefix {
                proof {
                    assert(self.prefixes@.contains(prefix));
                    let k = self.prefixes@.index_of(prefix);
                    assert(0 <= k < self.prefixes@.len() && self.prefixes@[k] == prefix);
                    assert(self.prefixes@.no_duplicates());
                    assert(self.prefixes@[k] == self.prefixes@[i as int]);
                    assert(k == i);
                }
                return Some(i);
            }
            i = i + 1;
        }
        None
    }

    /// Walks along next hops from `source` until the walk ends or reaches a cached router.
    /// Returns how the walk ends, the routers walked without cache, and the cached walk taken
    /// over, if any.
    fn walk(&self, source: RouterId, pid: usize) -> (r: (CacheResult, Vec<RouterId>, Option<Vec<RouterId>>))
        requires
            self.wf(),
            source < self.spec_num_devices(),
            pid < self.spec_prefixes().len(),
        ensures
            r.2.is_none() ==> r.1@.len() >= 1 && r.1@[0] == source && self.is_walk(pid as int, r.1@, r.0),
            r.2.is_some() ==> (r.1@ + r.2.unwrap()@)[0] == source && self.is_walk(pid as int, r.1@ + r.2.unwrap()@, r.0)
                && r.2.unwrap()@.len() >= 1
                && forall|k: int| 0 <= k < r.2.unwrap()@.len() ==> self.is_cached(#[trigger] r.2.unwrap()@[k] as int, pid as int),
            forall|i: int| 0 <= i < r.1@.len() ==> !self.is_cached(#[trigger] r.1@[i] as int, pid as int),
    {
        let np = self.num_prefixes;
        let nd = self.num_devices;
        let mut path: Vec<RouterId> = Vec::new();
        let mut cur: RouterId = source;
        loop
            invariant
                self.wf(),
                np == self.num_prefixes,
                nd == self.num_devices,
                pid < np,
                cur < nd,
                path@.no_duplicates(),
                path@.len() <= nd,
                forall|i: int| 0 <= i < path@.len() ==> #[trigger] path@[i] < nd,
                forall|i: int| 0 <= i < path@.len() ==> !self.is_cached(#[trigger] path@[i] as int, pid as int),
                forall|i: int|
                    0 <= i < path@.len() ==> !self.is_external(#[trigger] path@[i] as int) && self.next_of(
                        path@[i] as int,
                        pid as int,
                    ) == Some(
                        if i + 1 < path@.len() {
                            path@[i + 1]
                        } else {
                            cur
                        },
                    ),
                path@.len() == 0 ==> cur == source,
                path@.len() > 0 ==> path@[0] == source,
            decreases nd - path@.len(),
        {
            proof {
                lemma_idx(cur as int, pid as int, nd as int, np as int);
            }
            let idx = cur * np + pid;
            match &self.cache[idx] {
                Some(e) => {
                    let tail = copy_ids(&e.1);
                    proof {
                        assert(self.entry_ok(cur as int, pid as int));
                        assert(self.entry_closed(cur as int, pid as int));
                        assert forall|i: int, k: int| 0 <= i < path@.len() && 0 <= k < tail@.len() implies #[trigger] path@[i] != #[trigger] tail@[k] by {
                            assert(self.is_cached(tail@[k] as int, pid as int));
                        }
                        lemma_walk_prepend(self, pid as int, path@, tail@, e.0);
                        if path@.len() == 0 {
                            assert(path@ + tail@ =~= tail@);
                        }
                    }
                    return (e.0, path, Some(tail));
                },
                None => {},
            }
            if vec_contains(&path, cur) {
                let ghost before = path@;
                path.push(cur);
                proof {
                    assert(path@.take(path@.len() - 1) =~= before);
                }
                return (CacheResult::ForwardingLoop, path, None);
            }
            let ghost before = path@;
            path.push(cur);
            proof {
                assert(self.is_cached(cur as int, pid as int) == false);
                assert(path@.no_duplicates()) by {
                    assert forall|x: int, y: int| 0 <= x < y < path@.len() implies #[trigger] path@[x] != #[trigger] path@[y] by {
                        if y == before.len() {
                            assert(before.contains(path@[x]));
                        }
                    }
                }
                lemma_distinct_below(path@, nd as nat);
            }
            let is_ext = self.external_routers[cur];
            match self.state[idx] {
                None => {
                    return (CacheResult::BlackHole, path, None);
                },
                Some(nh) => {
                    if is_ext {
                        return (CacheResult::ValidPath, path, None);
                    }
                    proof {
                        assert(self.next_of(cur as int, pid as int) == Some(nh));
                    }
                    cur = nh;
                },
            }
        }
    }

    pub closed spec fn same_shape(&self, other: &ForwardingState) -> bool {
        &&& self.igp_state == other.igp_state
        &&& self.acl == other.acl
        &&& self.num_prefixes == other.num_prefixes
        &&& self.num_devices == other.num_devices
        &&& self.state == other.state
        &&& self.prefixes == other.prefixes
        &&& self.external_routers == other.external_routers
        &&& self.cache@.len() == other.cache@.len()
    }

    fn set_entry(&mut self, r: RouterId, pid: usize, e: (CacheResult, Vec<RouterId>))
        requires
            r < old(self).num_devices,
            pid < old(self).num_prefixes,
            old(self).num_devices * old(self).num_prefixes <= usize::MAX,
            old(self).state@.len() == old(self).num_devices * old(self).num_prefixes,
            old(self).cache@.len() == old(self).num_devices * old(self).num_prefixes,
        ensures
            final(self).same_shape(old(self)),
            forall|a: int, b: int|
                0 <= a < old(self).num_devices && 0 <= b < old(self).num_prefixes ==> #[trigger] final(self).cache_at(a, b)
                    == if a == r && b == pid {
                    Some(e)
                } else {
                    old(self).cache_at(a, b)
                },
    {
        proof {
            lemma_idx(r as int, pid as int, self.num_devices as int, self.num_prefixes as int);
        }
        let i = r * self.num_prefixes + pid;
        self.cache[i] = Some(e);
        proof {
            assert forall|a: int, b: int|
                0 <= a < old(self).num_devices && 0 <= b < old(self).num_prefixes implies #[trigger] self.cache_at(a, b)
                    == if a == r && b == pid {
                    Some(e)
                } else {
                    old(self).cache_at(a, b)
                } by {
                lemma_idx(a, b, self.num_devices as int, self.num_prefixes as int);
                if a * self.num_prefixes + b == i {
                    lemma_idx_inj(a, b, r as int, pid as int, self.num_prefixes as int);
                }
            }
        }
    }

    /// The route from `source` to `prefix`: the routers walked along next hops, up to an external
    /// router that knows a route. A router without next hop gives `ForwardingBlackHole`, a router
    /// met twice `ForwardingLoop`, each with the routers walked; an unknown router gives
    /// `DeviceNotFound`, and an unknown prefix `ForwardingBlackHole` with `source` alone.
    /// Cached walks are reused, and every walk found is cached for each router on it, a loop
    /// rotated to start at each of its routers. The forwarding tables are not changed.
    pub fn get_route(&mut self, source: RouterId, prefix: Prefix) -> (r: Result<Vec<RouterId>, NetworkError>)
        requires
            old(self).wf(),
        ensures
            final(self).wf(),
            final(self).same_tables(old(self)),
            source >= old(self).spec_num_devices() ==> r == Err::<Vec<RouterId>, NetworkError>(NetworkError::DeviceNotFound(source)),
            source < old(self).spec_num_devices() && !old(self).spec_prefixes().contains(prefix) ==> match r {
                Err(NetworkError::ForwardingBlackHole(q)) => q@ == seq![source],
                _ => false,
            },
            source < old(self).spec_num_devices() && old(self).spec_prefixes().contains(prefix) ==> old(self).route_matches(
                source,
                old(self).prefix_pos(prefix),
                r,
            ),
            !(source < old(self).spec_num_devices() && old(self).spec_prefixes().contains(prefix)) ==> *final(self) == *old(self),
            source < old(self).spec_num_devices() && old(self).spec_prefixes().contains(prefix) ==> {
                let q = route_seq(r);
                let pos = old(self).prefix_pos(prefix);
                &&& forall|k: int| 0 <= k < q.len() ==> final(self).is_cached(#[trigger] q[k] as int, pos)
                &&& forall|a: int, b: int|
                    0 <= a < old(self).spec_num_devices() && 0 <= b < old(self).spec_prefixes().len() && old(self).is_cached(a, b)
                        ==> #[trigger] final(self).cache_at(a, b) == old(self).cache_at(a, b)
                &&& forall|a: int, b: int|
                    0 <= a < old(self).spec_num_devices() && 0 <= b < old(self).spec_prefixes().len() && (b != pos
                        || !q.contains(a as RouterId)) ==> #[trigger] final(self).cache_at(a, b) == old(self).cache_at(a, b)
            },
    {
        if source >= self.num_devices {
            return Err(NetworkError::DeviceNotFound(source));
        }
        let pid = match self.prefix_index(prefix) {
            Some(p) => p,
            None => {
                let mut v: Vec<RouterId> = Vec::new();
                v.push(source);
                return Err(NetworkError::ForwardingBlackHole(v));
            },
        };
        let (res, path, tail) = self.walk(source, pid);
        let fresh = tail.is_none();
        let full = match &tail {
            Some(c) => concat(&path, c),
            None => copy_ids(&path),
        };
        let ghost g = full@;
        let ghost p = pid as int;
        let n = full.len();
        let mut upto = path.len();
        proof {
            if !fresh {
                assert forall|k: int| path@.len() <= k < n implies self.is_cached(#[trigger] g[k] as int, p) by {
                    assert(g[k] == tail.unwrap()@[k - path@.len()]);
                }
            }
            if res == CacheResult::ForwardingLoop && !fresh {
                let j = choose|j: int| 0 <= j < n - 1 && #[trigger] g.take(n - 1)[j] == g[n - 1];
                assert(g[j] == g[n - 1]);
                if j < path@.len() {
                    assert(!self.is_cached(path@[j] as int, p));
                }
            }
            self.lemma_wf_partial(p, g);
        }
        if fresh && res == CacheResult::ForwardingLoop {
            let lp = first_index(&full, full[n - 1]);
            proof {
                let j = choose|j: int| 0 <= j < n - 1 && #[trigger] g.take(n - 1)[j] == g[n - 1];
                assert(g[j] == g[n - 1]);
            }
            let mut u: usize = lp;
            while u < n - 1
                invariant
                    self.partial_wf(p, g),
                    self.same_shape(old(self)),
                    p == pid,
                    pid < self.num_prefixes,
                    full@ == g,
                    n == g.len(),
                    old(self).is_walk(p, g, CacheResult::ForwardingLoop),
                    lp <= u <= n - 1,
                    lp < n - 1,
                    g[lp as int] == g[n - 1],
                    forall|j: int| 0 <= j < lp ==> #[trigger] g[j] != g[n - 1],
                    forall|k: int| 0 <= k < path@.len() ==> g[k] == #[trigger] path@[k],
                    forall|k: int| lp <= k < u ==> self.is_cached(#[trigger] g[k] as int, p),
                    forall|a: int, b: int|
                        0 <= a < old(self).spec_num_devices() && 0 <= b < old(self).spec_prefixes().len() ==> #[trigger] self.cache_at(a, b)
                            == old(self).cache_at(a, b) || (b == p && exists|k: int| lp <= k < u && #[trigger] g[k] == a as RouterId),
                decreases n - 1 - u,
            {
                let rot = rotate(&full, lp, u);
                proof {
                    lemma_walk_rotation(old(self), p, g, lp as int, u as int);
                    assert forall|k: int| 0 <= k < rot@.len() implies g.contains(#[trigger] rot@[k]) by {
                        let m = n - 1 - lp;
                        let kk = u - lp;
                        if kk + k < m {
                            assert(rot@[k] == g[lp + kk + k]);
                        } else {
                            assert(rot@[k] == g[lp + kk + k - m]);
                        }
                    }
                }
                let ghost before = *self;
                self.set_entry(full[u], pid, (CacheResult::ForwardingLoop, rot));
                proof {
                    lemma_set_keeps(before, *self, full[u as int] as int, p, (CacheResult::ForwardingLoop, rot), g);
                    assert forall|k: int| lp <= k < u + 1 implies self.is_cached(#[trigger] g[k] as int, p) by {
                        if k < u {
                            assert(before.is_cached(g[k] as int, p));
                        }
                    }
                    assert forall|a: int, b: int|
                        0 <= a < old(self).spec_num_devices() && 0 <= b < old(self).spec_prefixes().len() implies #[trigger] self.cache_at(a, b)
                            == old(self).cache_at(a, b) || (b == p && exists|k: int| lp <= k < u + 1 && #[trigger] g[k] == a as RouterId) by {
                        assert(before.cache_at(a, b) == old(self).cache_at(a, b) || (b == p && exists|k: int| lp <= k < u && #[trigger] g[k] == a as RouterId));
                        if a == full[u as int] && b == p {
                            assert(g[u as int] == a as RouterId);
                        }
                    }
                }
                u = u + 1;
            }
            upto = lp;
        }
        let ghost mid = *self;
        proof {
            if !(fresh && res == CacheResult::ForwardingLoop) {
                assert(mid == *old(self));
            }
            if res == CacheResult::ForwardingLoop {
                if fresh {
                    assert(g[upto as int] == g[n - 1]);
                    assert(upto < n - 1);
                } else {
                    let j = choose|j: int| 0 <= j < n - 1 && #[trigger] g.take(n - 1)[j] == g[n - 1];
                    assert(g[j] == g[n - 1]);
                    if j < path@.len() {
                        assert(g[j] == path@[j]);
                        assert(!old(self).is_cached(path@[j] as int, p));
                    }
                }
            }
            assert(self.is_walk(p, g, res) == old(self).is_walk(p, g, res));
        }
        self.fill_suffixes(&full, pid, res, upto);
        proof {
            assert forall|k: int| upto <= k < n && mid.is_cached(g[k] as int, p) implies #[trigger] self.is_cached(g[k] as int, p) by {
                assert(g[k] < mid.spec_num_devices()) by {
                    assert(old(self).is_walk(p, g, res));
                }
            }
        }
        proof {
            assert forall|k: int| 0 <= k < n implies self.is_cached(#[trigger] g[k] as int, p) by {
                if fresh && res == CacheResult::ForwardingLoop && k == n - 1 {
                    assert(self.is_cached(g[upto as int] as int, p));
                }
            }
            self.lemma_partial_to_wf(p, g);
            assert forall|a: int, b: int|
                0 <= a < old(self).spec_num_devices() && 0 <= b < old(self).spec_prefixes().len() implies #[trigger] self.cache_at(a, b)
                    == old(self).cache_at(a, b) || (b == p && exists|k: int| 0 <= k < path@.len() && #[trigger] path@[k] == a as RouterId) by {
                assert(self.cache_at(a, b) == mid.cache_at(a, b) || (b == p && exists|k: int| 0 <= k < upto && #[trigger] g[k] == a as RouterId));
                if self.cache_at(a, b) != mid.cache_at(a, b) {
                    let k = choose|k: int| 0 <= k < upto && #[trigger] g[k] == a as RouterId;
                    assert(path@[k] == a as RouterId);
                }
                if mid.cache_at(a, b) != old(self).cache_at(a, b) {
                    if fresh && res == CacheResult::ForwardingLoop {
                        let k = choose|k: int| 0 <= k < n - 1 && #[trigger] g[k] == a as RouterId;
                        assert(path@[k] == a as RouterId);
                    }
                }
            }
            assert forall|a: int, b: int|
                0 <= a < old(self).spec_num_devices() && 0 <= b < old(self).spec_prefixes().len() && old(self).is_cached(a, b)
                    implies #[trigger] self.cache_at(a, b) == old(self).cache_at(a, b) by {
                if self.cache_at(a, b) != old(self).cache_at(a, b) {
                    let k = choose|k: int| 0 <= k < path@.len() && #[trigger] path@[k] == a as RouterId;
                    assert(!old(self).is_cached(path@[k] as int, p));
                }
            }
            assert forall|a: int, b: int|
                0 <= a < old(self).spec_num_devices() && 0 <= b < old(self).spec_prefixes().len() && (b != p
                    || !g.contains(a as RouterId)) implies #[trigger] self.cache_at(a, b) == old(self).cache_at(a, b) by {
                if self.cache_at(a, b) != old(self).cache_at(a, b) {
                    let k = choose|k: int| 0 <= k < path@.len() && #[trigger] path@[k] == a as RouterId;
                    assert(g[k] == a as RouterId);
                }
            }
        }
        match res {
            CacheResult::ValidPath => Ok(full),
            CacheResult::BlackHole => Err(NetworkError::ForwardingBlackHole(full)),
            _ => Err(NetworkError::ForwardingLoop(full)),
        }
    }

    /// Caches, for each of the first `upto` routers of the walk `full`, the rest of the walk from it.
    fn fill_suffixes(&mut self, full: &Vec<RouterId>, pid: usize, res: CacheResult, upto: usize)
        requires
            old(self).partial_wf(pid as int, full@),
            upto <= full@.len(),
            old(self).is_walk(pid as int, full@, res),
            res == CacheResult::ForwardingLoop ==> exists|j: int| upto <= j < full@.len() - 1 && #[trigger] full@[j] == full@[full@.len() - 1],
        ensures
            final(self).partial_wf(pid as int, full@),
            final(self).same_shape(old(self)),
            forall|k: int| 0 <= k < upto ==> final(self).is_cached(#[trigger] full@[k] as int, pid as int),
            forall|x: int| 0 <= x < old(self).spec_num_devices() && old(self).is_cached(x, pid as int) ==> #[trigger] final(self).is_cached(x, pid as int),
            forall|a: int, b: int|
                0 <= a < old(self).spec_num_devices() && 0 <= b < old(self).spec_prefixes().len() ==> #[trigger] final(self).cache_at(a, b)
                    == old(self).cache_at(a, b) || (b == pid && exists|k: int| 0 <= k < upto && #[trigger] full@[k] == a as RouterId),
    {
        let ghost g = full@;
        let ghost p = pid as int;
        let mut u: usize = 0;
        while u < upto
            invariant
                self.partial_wf(p, g),
                self.same_shape(old(self)),
                p == pid,
                full@ == g,
                old(self).is_walk(p, g, res),
                0 <= u <= upto,
                upto <= g.len(),
                res == CacheResult::ForwardingLoop ==> exists|j: int| upto <= j < g.len() - 1 && #[trigger] g[j] == g[g.len() - 1],
                forall|k: int| 0 <= k < u ==> self.is_cached(#[trigger] g[k] as int, p),
                forall|x: int| 0 <= x < old(self).spec_num_devices() && old(self).is_cached(x, p) ==> #[trigger] self.is_cached(x, p),
                forall|a: int, b: int|
                    0 <= a < old(self).spec_num_devices() && 0 <= b < old(self).spec_prefixes().len() ==> #[trigger] self.cache_at(a, b)
                        == old(self).cache_at(a, b) || (b == p && exists|k: int| 0 <= k < u && #[trigger] g[k] == a as RouterId),
            decreases upto - u,
        {
            let suf = suffix_from(full, u);
            proof {
                lemma_walk_suffix(old(self), p, g, res, u as int);
                assert forall|k: int| 0 <= k < suf@.len() implies g.contains(#[trigger] suf@[k]) by {
                    assert(suf@[k] == g[u + k]);
                }
                assert(self.is_walk(p, suf@, res) == old(self).is_walk(p, suf@, res));
            }
            let ghost before = *self;
            self.set_entry(full[u], pid, (res, suf));
            proof {
                lemma_set_keeps(before, *self, full[u as int] as int, p, (res, suf), g);
                assert forall|k: int| 0 <= k < u + 1 implies self.is_cached(#[trigger] g[k] as int, p) by {
                    if k < u {
                        assert(before.is_cached(g[k] as int, p));
                    }
                }
                assert forall|a: int, b: int|
                    0 <= a < old(self).spec_num_devices() && 0 <= b < old(self).spec_prefixes().len() implies #[trigger] self.cache_at(a, b)
                        == old(self).cache_at(a, b) || (b == p && exists|k: int| 0 <= k < u + 1 && #[trigger] g[k] == a as RouterId) by {
                    assert(before.cache_at(a, b) == old(self).cache_at(a, b) || (b == p && exists|k: int| 0 <= k < u && #[trigger] g[k] == a as RouterId));
                    if a == full[u as int] && b == p {
                        assert(g[u as int] == a as RouterId);
                    }
                }
            }
            u = u + 1;
        }
    }

    /// The cache is consistent but for prefix `p`, whose cached walks may still pass routers of
    /// `g` that have no entry yet.
    pub closed spec fn partial_wf(&self, p: int, g: Seq<RouterId>) -> bool {
        &&& self.num_prefixes == self.prefixes@.len()
        &&& self.prefixes@.no_duplicates()
        &&& self.num_devices * self.num_prefixes <= usize::MAX
        &&& self.state@.len() == self.num_devices * self.num_prefixes
        &&& self.cache@.len() == self.num_devices * self.num_prefixes
        &&& self.external_routers@.len() == self.num_devices
        &&& 0 <= p < self.num_prefixes
        &&& self.igp_wf()
        &&& forall|r: int, b: int|
            0 <= r < self.num_devices && 0 <= b < self.num_prefixes && (#[trigger] self.next_of(r, b)).is_some()
                ==> self.next_of(r, b).unwrap() < self.num_devices
        &&& forall|r: int, b: int|
            0 <= r < self.num_devices && 0 <= b < self.num_prefixes ==> #[trigger] self.entry_ok(r, b)
        &&& forall|r: int, b: int|
            0 <= r < self.num_devices && 0 <= b < self.num_prefixes && b != p ==> #[trigger] self.entry_closed(r, b)
        &&& forall|r: int| 0 <= r < self.num_devices ==> #[trigger] self.entry_closed_but(r, p, g)
    }

    pub closed spec fn entry_closed_but(&self, r: int, p: int, g: Seq<RouterId>) -> bool {
        match self.cache_at(r, p) {
            None => true,
            Some(e) => forall|k: int|
                0 <= k < e.1@.len() ==> self.is_cached(#[trigger] e.1@[k] as int, p) || g.contains(e.1@[k]),
        }
    }

    proof fn lemma_wf_partial(&self, p: int, g: Seq<RouterId>)
        requires
            self.wf(),
            0 <= p < self.num_prefixes,
        ensures
            self.partial_wf(p, g),
    {
        assert forall|r: int| 0 <= r < self.num_devices implies #[trigger] self.entry_closed_but(r, p, g) by {
            assert(self.entry_closed(r, p));
        }
    }

    proof fn lemma_partial_to_wf(&self, p: int, g: Seq<RouterId>)
        requires
            self.partial_wf(p, g),
            forall|k: int| 0 <= k < g.len() ==> self.is_cached(#[trigger] g[k] as int, p),
        ensures
            self.wf(),
    {
        assert forall|r: int, b: int| 0 <= r < self.num_devices && 0 <= b < self.num_prefixes implies #[trigger] self.entry_closed(r, b) by {
            if b == p {
                assert(self.entry_closed_but(r, p, g));
                if self.cache_at(r, p).is_some() {
                    let e = self.cache_at(r, p).unwrap();
                    assert forall|k: int| 0 <= k < e.1@.len() implies self.is_cached(#[trigger] e.1@[k] as int, p) by {
                        if g.contains(e.1@[k]) {
                            let j = choose|j: int| 0 <= j < g.len() && g[j] == e.1@[k];
                            assert(self.is_cached(g[j] as int, p));
                        }
                    }
                }
            }
        }
    }

    /// `router` reaches `prefix`: the walk from it ends at an external router with a route.
    pub open spec fn reaches(&self, router: RouterId, prefix: Prefix) -> bool {
        &&& router < self.spec_num_devices()
        &&& self.spec_prefixes().contains(prefix)
        &&& exists|q: Seq<RouterId>| q[0] == router && self.is_walk(self.prefix_pos(prefix), q, CacheResult::ValidPath)
    }

    /// Whether the next hop of `router` for `prefix` differs between `self` and `other`.
    pub fn has_diff_next_hop(&self, router: RouterId, prefix: Prefix, other: &ForwardingState) -> (r: bool)
        requires
            self.wf(),
            other.wf(),
        ensures
            r == !(next_hop_answer(self, router, prefix) == next_hop_answer(other, router, prefix)),
    {
        let a = self.get_next_hop(router, prefix);
        let b = other.get_next_hop(router, prefix);
        match (a, b) {
            (Ok(x), Ok(y)) => x != y,
            (Err(_), Err(_)) => false,
            _ => true,
        }
    }

    /// The next hop of router `r` toward `dest`.
    pub open spec fn dest_hop(&self, r: int, dest: Destination) -> Option<RouterId> {
        match dest {
            Destination::Bgp(p) => self.next_of(r, self.prefix_pos(p)),
            Destination::Igp(d) => self.igp_next_of(r, d as int),
        }
    }

    /// `q` is the walk of a flow from `src` toward `dest`, ending as `res` says: each router
    /// before the last lets the flow pass and forwards it to the next one; the walk arrives
    /// where a router that lets the flow pass is its own next hop.
    pub open spec fn is_acl_walk(&self, src: RouterId, dest: Destination, q: Seq<RouterId>, res: CacheResult) -> bool {
        let n = q.len() as int;
        &&& n >= 1
        &&& q[0] == src
        &&& forall|i: int| 0 <= i < n ==> #[trigger] q[i] < self.spec_num_devices()
        &&& forall|i: int|
            0 <= i < n - 1 ==> self.dest_hop(#[trigger] q[i] as int, dest) == Some(q[i + 1]) && q[i + 1] != q[i]
                && self.allowed(src, q[i] as int)
        &&& match res {
            CacheResult::ValidPath => q.no_duplicates() && self.dest_hop(q[n - 1] as int, dest) == Some(q[n - 1])
                && self.allowed(src, q[n - 1] as int),
            CacheResult::BlackHole => q.no_duplicates() && self.dest_hop(q[n - 1] as int, dest).is_none(),
            CacheResult::ForwardingLoop => n >= 2 && q.take(n - 1).no_duplicates() && q.take(n - 1).contains(q[n - 1]),
            CacheResult::AccessDenied => q.no_duplicates() && self.dest_hop(q[n - 1] as int, dest).is_some()
                && !self.allowed(src, q[n - 1] as int),
        }
    }

    fn hop_toward(&self, r: RouterId, dest: Destination, pid: usize) -> (h: Option<RouterId>)
        requires
            self.wf(),
            r < self.spec_num_devices(),
            dest matches Destination::Bgp(p) ==> pid == self.prefix_pos(p) && pid < self.spec_prefixes().len(),
            dest matches Destination::Igp(d) ==> d < self.spec_num_devices(),
        ensures
            h == self.dest_hop(r as int, dest),
            h.is_some() ==> h.unwrap() < self.spec_num_devices(),
    {
        match dest {
            Destination::Bgp(_) => {
                proof {
                    lemma_idx(r as int, pid as int, self.num_devices as int, self.num_prefixes as int);
                }
                self.state[r * self.num_prefixes + pid]
            },
            Destination::Igp(d) => {
                proof {
                    lemma_idx(r as int, d as int, self.num_devices as int, self.num_devices as int);
                }
                self.igp_state[r * self.num_devices + d]
            },
        }
    }

    fn check_access(&self, src: RouterId, r: RouterId) -> (ok: bool)
        requires
            self.wf(),
            r < self.spec_num_devices(),
        ensures
            ok == self.allowed(src, r as int),
    {
        match &self.acl[r] {
            None => true,
            Some(a) => match a.0 {
                AclMode::Accept => vec_contains(&a.1, src),
                AclMode::Deny => !vec_contains(&a.1, src),
            },
        }
    }

    /// The route of a flow from `src` toward a prefix or, over the IGP, toward a router, with
    /// each router's access-control list applied to the flow's source: `AccessDenied` names the
    /// router that refuses it. Unknown routers give `DeviceNotFound`, an unknown prefix
    /// `ForwardingBlackHole` with `src` alone.
    pub fn get_route_new(&self, src: RouterId, dest: Destination) -> (r: Result<Vec<RouterId>, NetworkError>)
        requires
            self.wf(),
        ensures
            src >= self.spec_num_devices() ==> r == Err::<Vec<RouterId>, NetworkError>(NetworkError::DeviceNotFound(src)),
            src < self.spec_num_devices() ==> match dest {
                Destination::Igp(d) => d >= self.spec_num_devices() ==> r == Err::<Vec<RouterId>, NetworkError>(
                    NetworkError::DeviceNotFound(d),
                ),
                Destination::Bgp(p) => !self.spec_prefixes().contains(p) ==> match r {
                    Err(NetworkError::ForwardingBlackHole(q)) => q@ == seq![src],
                    _ => false,
                },
            },
            src < self.spec_num_devices() && match dest {
                Destination::Igp(d) => d < self.spec_num_devices(),
                Destination::Bgp(p) => self.spec_prefixes().contains(p),
            } ==> match r {
                Ok(q) => self.is_acl_walk(src, dest, q@, CacheResult::ValidPath),
                Err(NetworkError::ForwardingBlackHole(q)) => self.is_acl_walk(src, dest, q@, CacheResult::BlackHole),
                Err(NetworkError::ForwardingLoop(q)) => self.is_acl_walk(src, dest, q@, CacheResult::ForwardingLoop),
                Err(NetworkError::AccessDenied(x)) => exists|q: Seq<RouterId>|
                    self.is_acl_walk(src, dest, q, CacheResult::AccessDenied) && q.last() == x,
                Err(NetworkError::DeviceNotFound(_)) => false,
            },
    {
        if src >= self.num_devices {
            return Err(NetworkError::DeviceNotFound(src));
        }
        let mut pid: usize = 0;
        match dest {
            Destination::Igp(d) => {
                if d >= self.num_devices {
                    return Err(NetworkError::DeviceNotFound(d));
                }
            },
            Destination::Bgp(p) => {
                match self.prefix_index(p) {
                    Some(i) => {
                        pid = i;
                    },
                    None => {
                        let mut v: Vec<RouterId> = Vec::new();
                        v.push(src);
                        return Err(NetworkError::ForwardingBlackHole(v));
                    },
                }
            },
        }
        let nd = self.num_devices;
        let mut path: Vec<RouterId> = Vec::new();
        let mut cur: RouterId = src;
        loop
            invariant
                self.wf(),
                nd == self.spec_num_devices(),
                dest matches Destination::Bgp(p) ==> pid == self.prefix_pos(p) && pid < self.spec_prefixes().len()
                    && self.spec_prefixes().contains(p),
                dest matches Destination::Igp(d) ==> d < self.spec_num_devices(),
                cur < nd,
                path@.no_duplicates(),
                path@.len() <= nd,
                forall|i: int| 0 <= i < path@.len() ==> #[trigger] path@[i] < nd,
                forall|i: int|
                    0 <= i < path@.len() - 1 ==> self.dest_hop(#[trigger] path@[i] as int, dest) == Some(path@[i + 1])
                        && path@[i + 1] != path@[i] && self.allowed(src, path@[i] as int),
                path@.len() > 0 ==> self.dest_hop(path@.last() as int, dest) == Some(cur) && cur != path@.last()
                    && self.allowed(src, path@.last() as int),
                path@.len() == 0 ==> cur == src,
                path@.len() > 0 ==> path@[0] == src,
            decreases nd - path@.len(),
        {
            if vec_contains(&path, cur) {
                let ghost before = path@;
                path.push(cur);
                proof {
                    assert(path@.take(path@.len() - 1) =~= before);
                    assert forall|i: int| 0 <= i < path@.len() - 1 implies self.dest_hop(#[trigger] path@[i] as int, dest) == Some(path@[i + 1])
                        && path@[i + 1] != path@[i] && self.allowed(src, path@[i] as int) by {
                        assert(path@[i] == before[i]);
                        if i + 1 < before.len() {
                            assert(path@[i + 1] == before[i + 1]);
                        }
                    }
                }
                return Err(NetworkError::ForwardingLoop(path));
            }
            let ghost before = path@;
            path.push(cur);
            proof {
                assert forall|x: int, y: int| 0 <= x < y < path@.len() implies #[trigger] path@[x] != #[trigger] path@[y] by {
                    if y == before.len() {
                        assert(before.contains(path@[x]));
                    }
                }
                lemma_distinct_below(path@, nd as nat);
                assert forall|i: int| 0 <= i < path@.len() - 1 implies self.dest_hop(#[trigger] path@[i] as int, dest) == Some(path@[i + 1])
                    && path@[i + 1] != path@[i] && self.allowed(src, path@[i] as int) by {
                    assert(path@[i] == before[i]);
                    if i + 1 < before.len() {
                        assert(path@[i + 1] == before[i + 1]);
                    }
                }
            }
            match self.hop_toward(cur, dest, pid) {
                None => {
                    return Err(NetworkError::ForwardingBlackHole(path));
                },
                Some(h) => {
                    if !self.check_access(src, cur) {
                        proof {
                            assert(self.is_acl_walk(src, dest, path@, CacheResult::AccessDenied));
                            assert(path@.last() == cur);
                        }
                        return Err(NetworkError::AccessDenied(cur));
                    }
                    if h == cur {
                        return Ok(path);
                    }
                    cur = h;
                },
            }
        }
    }

    /// The `pid`-th known prefix.
    pub fn prefix_at(&self, pid: usize) -> (p: Prefix)
        requires
            self.wf(),
            pid < self.spec_prefixes().len(),
        ensures
            p == self.spec_prefixes()[pid as int],
            self.prefix_pos(p) == pid,
    {
        proof {
            assert(self.prefixes@.contains(self.prefixes@[pid as int]));
            let k = self.prefixes@.index_of(self.prefixes@[pid as int]);
            assert(self.prefixes@[k] == self.prefixes@[pid as int]);
        }
        self.prefixes[pid]
    }

    /// Whether `other` has as many routers and prefixes, and every router has the same next hop
    /// in both for each prefix of `self`.
    pub fn same_forwarding(&self, other: &ForwardingState) -> (r: bool)
        requires
            self.wf(),
            other.wf(),
        ensures
            r == (self.spec_num_devices() == other.spec_num_devices() && self.spec_prefixes().len() == other.spec_prefixes().len()
                && forall|x: RouterId, p: int|
                #![trigger next_hop_answer(self, x, self.spec_prefixes()[p])]
                x < self.spec_num_devices() && 0 <= p < self.spec_prefixes().len() ==> next_hop_answer(self, x, self.spec_prefixes()[p])
                    == next_hop_answer(other, x, self.spec_prefixes()[p])),
    {
        if self.num_prefixes != other.num_prefixes || self.num_devices != other.num_devices {
            return false;
        }
        let mut p: usize = 0;
        while p < self.num_prefixes
            invariant
                self.wf(),
                other.wf(),
                self.spec_num_devices() == other.spec_num_devices(),
                self.spec_prefixes().len() == other.spec_prefixes().len(),
                0 <= p <= self.spec_prefixes().len(),
                forall|x: RouterId, q: int|
                    #![trigger next_hop_answer(self, x, self.spec_prefixes()[q])]
                    x < self.spec_num_devices() && 0 <= q < p ==> next_hop_answer(self, x, self.spec_prefixes()[q])
                        == next_hop_answer(other, x, self.spec_prefixes()[q]),
            decreases self.spec_prefixes().len() - p,
        {
            let prefix = self.prefix_at(p);
            let mut x: usize = 0;
            while x < self.num_devices
                invariant
                    self.wf(),
                    other.wf(),
                    self.spec_num_devices() == other.spec_num_devices(),
                    self.spec_prefixes().len() == other.spec_prefixes().len(),
                    0 <= p < self.spec_prefixes().len(),
                    prefix == self.spec_prefixes()[p as int],
                    0 <= x <= self.spec_num_devices(),
                    forall|y: RouterId, q: int|
                        #![trigger next_hop_answer(self, y, self.spec_prefixes()[q])]
                        y < self.spec_num_devices() && 0 <= q < p ==> next_hop_answer(self, y, self.spec_prefixes()[q])
                            == next_hop_answer(other, y, self.spec_prefixes()[q]),
                    forall|y: RouterId| y < x ==> #[trigger] next_hop_answer(self, y, prefix) == next_hop_answer(other, y, prefix),
                decreases self.spec_num_devices() - x,
            {
                let a = self.get_next_hop(x, prefix);
                let b = other.get_next_hop(x, prefix);
                let same = match (a, b) {
                    (Ok(u), Ok(v)) => u == v,
                    (Err(_), Err(_)) => true,
                    _ => false,
                };
                if !same {
                    proof {
                        assert(self.spec_prefixes().contains(prefix));
                        assert(next_hop_answer(self, x, self.spec_prefixes()[p as int]) != next_hop_answer(other, x, self.spec_prefixes()[p as int]));
                    }
                    return false;
                }
                x = x + 1;
            }
            proof {
                assert forall|y: RouterId, q: int|
                    #![trigger next_hop_answer(self, y, self.spec_prefixes()[q])]
                    y < self.spec_num_devices() && 0 <= q < p + 1 implies next_hop_answer(self, y, self.spec_prefixes()[q])
                        == next_hop_answer(other, y, self.spec_prefixes()[q]) by {
                    if q == p {
                        assert(next_hop_answer(self, y, prefix) == next_hop_answer(other, y, prefix));
                    }
                }
            }
            p = p + 1;
        }
        true
    }

    /// The number of known prefixes.
    pub fn num_prefixes(&self) -> (r: usize)
        requires
            self.wf(),
        ensures
            r == self.spec_prefixes().len(),
    {
        self.num_prefixes
    }

    /// The next hop of `router` for the `pid`-th prefix; `None` for an unknown router.
    pub fn next_hop_at(&self, router: RouterId, pid: usize) -> (r: Option<RouterId>)
        requires
            self.wf(),
            pid < self.spec_prefixes().len(),
        ensures
            router < self.spec_num_devices() ==> r == self.next_of(router as int, pid as int),
            router >= self.spec_num_devices() ==> r.is_none(),
    {
        if router >= self.num_devices {
            return None;
        }
        proof {
            lemma_idx(router as int, pid as int, self.num_devices as int, self.num_prefixes as int);
        }
        self.state[router * self.num_prefixes + pid]
    }

    /// Builds the tables of `net` for both kinds of destination, with its access-control lists
    /// and an empty cache.
    pub fn from_net_new(net: &Network) -> (r: ForwardingState)
        requires
            net.wf(),
        ensures
            r.wf(),
            r.spec_num_devices() == net.devices@.len(),
            r.spec_prefixes() == net.prefixes@,
            forall|d: int| 0 <= d < net.devices@.len() ==> r.is_external(d) == net.devices@[d].external,
            forall|d: int, p: int|
                0 <= d < net.devices@.len() && 0 <= p < net.prefixes@.len() ==> #[trigger] r.next_of(d, p)
                    == net.next_hop_of(d, p),
            forall|a: int, d: int|
                0 <= a < net.devices@.len() && 0 <= d < net.devices@.len() ==> #[trigger] r.igp_next_of(a, d)
                    == net.igp_hop_of(a, d),
            forall|src: RouterId, a: int| 0 <= a < net.devices@.len() ==> #[trigger] r.allowed(src, a) == net.acl_allows(src, a),
            forall|d: int, p: int|
                0 <= d < net.devices@.len() && 0 <= p < net.prefixes@.len() ==> #[trigger] r.cache_at(d, p).is_none(),
    {
        let mut r = ForwardingState::from_net(net);
        let nd = net.devices.len();
        let igp = build_igp(net);
        let acl = build_acl(net);
        let ghost r0 = r;
        proof {
            assert(r0.igp_wf());
        }
        r.igp_state = igp;
        r.acl = acl;
        proof {
            assert forall|x: int, b: int| 0 <= x < nd && 0 <= b < r.num_prefixes implies #[trigger] r.next_of(x, b) == r0.next_of(x, b) by {}
            assert forall|x: int| 0 <= x < nd implies r.is_external(x) == r0.is_external(x) by {}
            assert forall|x: int, y: int| 0 <= x < nd && 0 <= y < nd && (#[trigger] r.igp_next_of(x, y)).is_some()
                implies r.igp_next_of(x, y).unwrap() < nd by {
                assert(r.igp_next_of(x, y) == net.igp_hop_of(x, y));
            }
            assert forall|src: RouterId, x: int| 0 <= x < nd implies #[trigger] r.allowed(src, x) == net.acl_allows(src, x) by {
                assert(acl_entry_allows(r.acl@[x], src) == net.acl_allows(src, x));
            }
            let np = r.num_prefixes;
            assert forall|x: int, b: int| 0 <= x < nd && 0 <= b < np implies #[trigger] r.entry_ok(x, b) by {
                assert(r.cache_at(x, b) == r0.cache_at(x, b));
            }
            assert forall|x: int, b: int| 0 <= x < nd && 0 <= b < np implies #[trigger] r.entry_closed(x, b) by {
                assert(r.cache_at(x, b) == r0.cache_at(x, b));
            }
            assert forall|x: int, b: int| 0 <= x < nd && 0 <= b < np implies #[trigger] r.cache_at(x, b).is_none() by {
                assert(r.cache_at(x, b) == r0.cache_at(x, b));
            }
        }
        r
    }

    /// Builds the table of `net`, with an empty cache.
    pub fn from_net(net: &Network) -> (r: ForwardingState)
        requires
            net.wf(),
        ensures
            r.wf(),
            r.spec_num_devices() == net.devices@.len(),
            r.spec_prefixes() == net.prefixes@,
            forall|d: int| 0 <= d < net.devices@.len() ==> r.is_external(d) == net.devices@[d].external,
            forall|d: int, p: int|
                0 <= d < net.devices@.len() && 0 <= p < net.prefixes@.len() ==> #[trigger] r.next_of(d, p)
                    == net.next_hop_of(d, p),
            forall|d: int, p: int|
                0 <= d < net.devices@.len() && 0 <= p < net.prefixes@.len() ==> #[trigger] r.cache_at(d, p).is_none(),
    {
        let nd = net.devices.len();
        let np = net.prefixes.len();
        let mut state: Vec<Option<RouterId>> = Vec::new();
        let mut cache: Vec<Option<(CacheResult, Vec<RouterId>)>> = Vec::new();
        let mut external_routers: Vec<bool> = Vec::new();
        let mut d: usize = 0;
        while d < nd
            invariant
                net.wf(),
                nd == net.devices@.len(),
                np == net.prefixes@.len(),
                0 <= d <= nd,
                state@.len() == d * np,
                cache@.len() == d * np,
                external_routers@.len() == d,
                forall|k: int| 0 <= k < d ==> external_routers@[k] == net.devices@[k].external,
                forall|k: int| 0 <= k < cache@.len() ==> (#[trigger] cache@[k]).is_none(),
                forall|a: int, b: int| 0 <= a < d && 0 <= b < np ==> #[trigger] state@[a * np + b] == net.next_hop_of(a, b),
            decreases nd - d,
        {
            let dev = &net.devices[d];
            let mut p: usize = 0;
            proof {
                assert(d * np + np <= nd * np) by (nonlinear_arith)
                    requires d < nd;
            }
            while p < np
                invariant
                    net.wf(),
                    nd == net.devices@.len(),
                    np == net.prefixes@.len(),
                    0 <= d < nd,
                    0 <= p <= np,
                    d * np + np <= nd * np,
                    *dev == net.devices@[d as int],
                    state@.len() == d * np + p,
                    cache@.len() == d * np + p,
                    forall|k: int| 0 <= k < cache@.len() ==> (#[trigger] cache@[k]).is_none(),
                    forall|a: int, b: int| 0 <= a < d && 0 <= b < np ==> #[trigger] state@[a * np + b] == net.next_hop_of(a, b),
                    forall|b: int| 0 <= b < p ==> #[trigger] state@[d * np + b] == net.next_hop_of(d as int, b),
                decreases np - p,
            {
                let hop: Option<RouterId> = if dev.external {
                    if prefix_listed(&dev.advertised, net.prefixes[p]) {
                        Some(d)
                    } else {
                        None
                    }
                } else if p < dev.next_hops.len() {
                    dev.next_hops[p]
                } else {
                    None
                };
                let ghost before = state@;
                state.push(hop);
                cache.push(None);
                proof {
                    assert forall|a: int, b: int| 0 <= a < d && 0 <= b < np implies #[trigger] state@[a * np + b] == net.next_hop_of(a, b) by {
                        lemma_idx(a, b, d as int, np as int);
                        assert(state@[a * np + b] == before[a * np + b]);
                    }
                    assert forall|b: int| 0 <= b < p + 1 implies #[trigger] state@[d * np + b] == net.next_hop_of(d as int, b) by {
                        if b < p {
                            assert(state@[d * np + b] == before[d * np + b]);
                        }
                    }
                }
                p = p + 1;
            }
            external_routers.push(dev.external);
            proof {
                assert((d + 1) * np == d * np + np) by (nonlinear_arith);
                assert forall|a: int, b: int| 0 <= a < d + 1 && 0 <= b < np implies #[trigger] state@[a * np + b] == net.next_hop_of(a, b) by {
                    if a == d {
                        assert(state@[d * np + b] == net.next_hop_of(d as int, b));
                    }
                }
            }
            d = d + 1;
        }
        let mut prefixes: Vec<Prefix> = Vec::new();
        let mut i: usize = 0;
        while i < np
            invariant
                np == net.prefixes@.len(),
                0 <= i <= np,
                prefixes@ == net.prefixes@.take(i as int),
            decreases np - i,
        {
            prefixes.push(net.prefixes[i]);
            proof {
                assert(prefixes@ =~= net.prefixes@.take(i + 1));
            }
            i = i + 1;
        }
        proof {
            assert(prefixes@ =~= net.prefixes@);
        }
        let (igp_state, acl) = empty_igp(nd);
        let r = ForwardingState { num_prefixes: np, num_devices: nd, state, prefixes, external_routers, cache, igp_state, acl };
        proof {
            assert forall|a: int, d: int| 0 <= a < nd && 0 <= d < nd && (#[trigger] r.igp_next_of(a, d)).is_some()
                implies r.igp_next_of(a, d).unwrap() < nd by {
                lemma_idx(a, d, nd as int, nd as int);
            }
            assert forall|a: int, b: int| 0 <= a < nd && 0 <= b < np && (#[trigger] r.next_of(a, b)).is_some() implies r.next_of(a, b).unwrap() < nd by {
                assert(r.next_of(a, b) == net.next_hop_of(a, b));
            }
            assert forall|a: int, b: int| 0 <= a < nd && 0 <= b < np implies #[trigger] r.cache_at(a, b).is_none() by {
                lemma_idx(a, b, nd as int, np as int);
            }
            assert forall|a: int, b: int| 0 <= a < nd && 0 <= b < np implies #[trigger] r.entry_ok(a, b) by {
                lemma_idx(a, b, nd as int, np as int);
            }
            assert forall|a: int, b: int| 0 <= a < nd && 0 <= b < np implies #[trigger] r.entry_closed(a, b) by {
                lemma_idx(a, b, nd as int, np as int);
            }
        }
        r
    }

    /// The next hop of `router` for `prefix`: `DeviceNotFound` for an unknown router, `Ok(None)`
    /// for an unknown prefix or a router without route.
    pub fn get_next_hop(&self, router: RouterId, prefix: Prefix) -> (r: Result<Option<RouterId>, NetworkError>)
        requires
            self.wf(),
        ensures
            router >= self.spec_num_devices() ==> r == Err::<Option<RouterId>, NetworkError>(NetworkError::DeviceNotFound(router)),
            router < self.spec_num_devices() && !self.spec_prefixes().contains(prefix) ==> r == Ok::<Option<RouterId>, NetworkError>(None),
            router < self.spec_num_devices() && self.spec_prefixes().contains(prefix) ==> r == Ok::<Option<RouterId>, NetworkError>(
                self.next_of(router as int, self.prefix_pos(prefix)),
            ),
    {
        if router >= self.num_devices {
            return Err(NetworkError::DeviceNotFound(router));
        }
        match self.prefix_index(prefix) {
            Some(pid) => {
                proof {
                    lemma_idx(router as int, pid as int, self.num_devices as int, self.num_prefixes as int);
                }
                Ok(self.state[router * self.num_prefixes + pid])
            },
            None => Ok(None),
        }
    }

    /// The cached walk of `src` for `prefix`, if any; a cached walk is the walk from `src`.
    pub fn get_cache(&self, src: RouterId, prefix: Prefix) -> (r: Option<(CacheResult, Vec<RouterId>)>)
        requires
            self.wf(),
        ensures
            r.is_some() ==> src < self.spec_num_devices() && self.spec_prefixes().contains(prefix)
                && r.unwrap().1@[0] == src && self.is_walk(self.prefix_pos(prefix), r.unwrap().1@, r.unwrap().0),
            src < self.spec_num_devices() && self.spec_prefixes().contains(prefix) ==> (r.is_some()
                <==> self.is_cached(src as int, self.prefix_pos(prefix))),
    {
        if src >= self.num_devices {
            return None;
        }
        match self.prefix_index(prefix) {
            Some(pid) => {
                proof {
                    lemma_idx(src as int, pid as int, self.num_devices as int, self.num_prefixes as int);
                    assert(self.entry_ok(src as int, pid as int));
                }
                match &self.cache[src * self.num_prefixes + pid] {
                    Some(e) => Some((e.0, copy_ids(&e.1))),
                    None => None,
                }
            },
            None => None,
        }
    }
}

} // verus!

verus! {

/// Walks through every flow of a forwarding state, router by router and, for each router,
/// prefix by prefix, yielding each route that reaches its prefix.
pub struct ForwardingStateIterator {
    fw_state: ForwardingState,
    router: usize,
    prefix: usize,
}

impl ForwardingState {
    /// An iterator over all flows, starting with the first prefix of router 0.
    pub fn into_iter(self) -> (it: ForwardingStateIterator)
        requires
            self.wf(),
        ensures
            it.wf(),
            it.position() == (0usize, 0usize),
            it.state().same_tables(&self),
    {
        ForwardingStateIterator { fw_state: self, router: 0, prefix: 0 }
    }
}

impl ForwardingStateIterator {
    pub closed spec fn wf(&self) -> bool {
        &&& self.fw_state.wf()
        &&& self.router <= self.fw_state.spec_num_devices()
        &&& self.prefix < self.fw_state.spec_prefixes().len() || (self.prefix == 0 && self.fw_state.spec_prefixes().len() == 0)
    }

    /// The router and the prefix position of the next flow.
    pub closed spec fn position(&self) -> (usize, usize) {
        (self.router, self.prefix)
    }

    pub closed spec fn state(&self) -> ForwardingState {
        self.fw_state
    }

    /// The route of the next flow, with its router and prefix, when it reaches the prefix;
    /// `None` once all flows are visited, or at a flow whose route fails, which ends the walk.
    pub fn next(&mut self) -> (r: Option<(RouterId, Prefix, Vec<RouterId>)>)
        requires
            old(self).wf(),
        ensures
            final(self).wf(),
            final(self).state().same_tables(&old(self).state()),
            old(self).position().0 >= old(self).state().spec_num_devices() || old(self).state().spec_prefixes().len() == 0
                ==> r.is_none(),
            r.is_some() ==> {
                let (x, p, q) = r.unwrap();
                &&& x == old(self).position().0
                &&& p == old(self).state().spec_prefixes()[old(self).position().1 as int]
                &&& q@[0] == x
                &&& old(self).state().is_walk(old(self).position().1 as int, q@, CacheResult::ValidPath)
            },
            r.is_none() ==> final(self).position().0 == final(self).state().spec_num_devices(),
            old(self).position().0 < old(self).state().spec_num_devices() && old(self).state().spec_prefixes().len() > 0 ==> (r.is_some()
                <==> old(self).state().reaches(
                old(self).position().0,
                old(self).state().spec_prefixes()[old(self).position().1 as int],
            )),
            r.is_some() ==> final(self).position() == if old(self).position().1 + 1 < old(self).state().spec_prefixes().len() {
                (old(self).position().0, (old(self).position().1 + 1) as usize)
            } else {
                ((old(self).position().0 + 1) as usize, 0usize)
            },
    {
        let nd = self.fw_state.num_devices;
        let np = self.fw_state.num_prefixes();
        if self.router >= nd || np == 0 {
            self.router = nd;
            self.prefix = 0;
            return None;
        }
        let x = self.router;
        let pid = self.prefix;
        let prefix = self.fw_state.prefix_at(pid);
        let ghost st = self.fw_state;
        let route = self.fw_state.get_route(x, prefix);
        proof {
            assert(st.spec_prefixes().contains(prefix));
            lemma_route_ok_iff_reaches(&st, x, prefix, route);
        }
        if pid + 1 < np {
            self.prefix = pid + 1;
        } else {
            self.router = x + 1;
            self.prefix = 0;
        }
        match route {
            Ok(q) => Some((x, prefix, q)),
            Err(_) => {
                self.router = nd;
                self.prefix = 0;
                None
            },
        }
    }
}

} // verus!
