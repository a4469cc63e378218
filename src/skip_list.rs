use vstd::prelude::*;

verus! {

/// A source of uniform draws over all of `u32`. A draw below a list's
/// promotion threshold raises a new node by one level.
pub trait Sampler {
    fn sample(&mut self) -> u32;
}

/// Draws from the thread-local generator.
pub struct ThreadSampler {}

/// Relies on rand::random::<u32>, a draw from the thread-local generator;
/// nothing is promised of its value.
#[verifier::external_body]
fn random_u32() -> u32 {
    rand::random::<u32>()
}

impl Sampler for ThreadSampler {
    fn sample(&mut self) -> u32 {
        random_u32()
    }
}

/// The promotion threshold that stands for probability one half.
pub const HALF: u32 = 2147483648;

/// The ceiling on node heights that `with_fraction` and `default` use.
pub const MAX_LEVEL: usize = 65535;

#[derive(Debug, Clone, Copy, PartialEq, Eq)]
pub enum SkipListError {
    /// The key is already stored; the stored value is kept.
    KeyExists,
}

struct SkipNode<V> {
    key: usize,
    value: V,
    next: Vec<Option<usize>>,
}

spec fn live<V>(nodes: Seq<Option<SkipNode<V>>>, s: usize) -> bool {
    s < nodes.len() && nodes[s as int] is Some
}

spec fn key_at<V>(nodes: Seq<Option<SkipNode<V>>>, s: usize) -> usize {
    nodes[s as int]->Some_0.key
}

spec fn next_at<V>(nodes: Seq<Option<SkipNode<V>>>, s: usize) -> Seq<Option<usize>> {
    nodes[s as int]->Some_0.next@
}

/// Height of a live node: the highest lane it stands on.
spec fn height_at<V>(nodes: Seq<Option<SkipNode<V>>>, s: usize) -> int {
    next_at(nodes, s).len() - 1
}

/// The link that leaves position `q` of a lane (`-1` is the sentinel).
spec fn link_of<V>(head: Seq<Option<usize>>, nodes: Seq<Option<SkipNode<V>>>, lane: Seq<usize>, l: int, q: int) -> Option<usize> {
    if q == -1 {
        head[l]
    } else {
        next_at(nodes, lane[q])[l]
    }
}

/// Lane `l` lists, in link order, the slots reached from the sentinel along
/// level-`l` links; keys rise strictly along it, and every live node tall
/// enough for the lane is on it, but for slot `skip`.
spec fn lane_ok<V>(head: Seq<Option<usize>>, nodes: Seq<Option<SkipNode<V>>>, lane: Seq<usize>, l: int, skip: int) -> bool {
    &&& forall|p: int| 0 <= p < lane.len() ==> live(nodes, #[trigger] lane[p]) && height_at(nodes, lane[p]) >= l
    &&& lane.len() == 0 ==> head[l] is None
    &&& lane.len() > 0 ==> head[l] == Some(lane[0])
    &&& forall|p: int| 0 <= p < lane.len() - 1 ==> #[trigger] next_at(nodes, lane[p])[l] == Some(lane[p + 1])
    &&& lane.len() > 0 ==> next_at(nodes, lane.last())[l] is None
    &&& forall|p: int, q: int| 0 <= p < q < lane.len() ==> key_at(nodes, #[trigger] lane[p]) < key_at(nodes, #[trigger] lane[q])
    &&& forall|s: usize| live(nodes, s) && height_at(nodes, s) >= l && s != skip ==> #[trigger] lane.contains(s)
}

/// Where the search for `key` stops on a lane: after every key below it.
spec fn stop_ok<V>(nodes: Seq<Option<SkipNode<V>>>, lane: Seq<usize>, q: int, key: usize) -> bool {
    &&& -1 <= q < lane.len()
    &&& forall|p: int| 0 <= p <= q ==> key_at(nodes, #[trigger] lane[p]) < key
    &&& q + 1 < lane.len() ==> key_at(nodes, lane[q + 1]) >= key
}

spec fn slot_of(lane: Seq<usize>, q: int) -> Option<usize> {
    if q == -1 {
        None
    } else {
        Some(lane[q])
    }
}

/// Two arenas that differ at most in the level-`m` link of slot `s`.
spec fn same_but_link<V>(a: Seq<Option<SkipNode<V>>>, b: Seq<Option<SkipNode<V>>>, s: usize, m: int) -> bool {
    &&& a.len() == b.len()
    &&& forall|t: int| 0 <= t < a.len() && t != s ==> #[trigger] b[t] == a[t]
    &&& (a[s as int] is Some <==> b[s as int] is Some)
    &&& a[s as int] is Some ==> {
        &&& key_at(b, s) == key_at(a, s)
        &&& b[s as int]->Some_0.value == a[s as int]->Some_0.value
        &&& next_at(b, s).len() == next_at(a, s).len()
        &&& forall|k: int| 0 <= k < next_at(a, s).len() && k != m ==> #[trigger] next_at(b, s)[k] == next_at(a, s)[k]
    }
}

proof fn lemma_lane_frame<V>(
    head: Seq<Option<usize>>,
    a: Seq<Option<SkipNode<V>>>,
    b: Seq<Option<SkipNode<V>>>,
    lane: Seq<usize>,
    l: int,
    skip: int,
    s: usize,
    m: int,
)
    requires
        lane_ok(head, a, lane, l, skip),
        same_but_link(a, b, s, m),
        m != l,
        0 <= l,
    ensures
        lane_ok(head, b, lane, l, skip),
{
    assert forall|p: int| 0 <= p < lane.len() implies live(b, #[trigger] lane[p]) && height_at(b, lane[p]) >= l by {
        assert(live(a, lane[p]));
        if lane[p] != s {
            assert(b[lane[p] as int] == a[lane[p] as int]);
        }
    }
    assert forall|p: int| 0 <= p < lane.len() - 1 implies #[trigger] next_at(b, lane[p])[l] == Some(lane[p + 1]) by {
        assert(live(a, lane[p]));
        if lane[p] == s {
            assert(next_at(b, s)[l] == next_at(a, s)[l]);
        } else {
            assert(b[lane[p] as int] == a[lane[p] as int]);
        }
    }
    assert forall|p: int, q: int| 0 <= p < q < lane.len() implies key_at(b, #[trigger] lane[p]) < key_at(b, #[trigger] lane[q]) by {
        assert(live(a, lane[p]) && live(a, lane[q]));
        if lane[p] != s {
            assert(b[lane[p] as int] == a[lane[p] as int]);
        }
        if lane[q] != s {
            assert(b[lane[q] as int] == a[lane[q] as int]);
        }
    }
    assert forall|t: usize| live(b, t) && height_at(b, t) >= l && t != skip implies #[trigger] lane.contains(t) by {
        if t != s {
            assert(b[t as int] == a[t as int]);
        }
        assert(live(a, t) && height_at(a, t) >= l);
    }
    if lane.len() > 0 {
        let z = lane[lane.len() - 1];
        assert(live(a, z));
        if z == s {
            assert(next_at(b, s)[l] == next_at(a, s)[l]);
        } else {
            assert(b[z as int] == a[z as int]);
        }
    }
}

/// Linking `slot` into lane `l` right after stopping position `u` gives a
/// well-formed lane that holds it.
proof fn lemma_splice<V>(
    head_a: Seq<Option<usize>>,
    a: Seq<Option<SkipNode<V>>>,
    head_b: Seq<Option<usize>>,
    b: Seq<Option<SkipNode<V>>>,
    lane: Seq<usize>,
    l: int,
    u: int,
    slot: usize,
    key: usize,
)
    requires
        0 <= l < head_a.len(),
        lane_ok(head_a, a, lane, l, slot as int),
        live(a, slot),
        height_at(a, slot) >= l,
        key_at(a, slot) == key,
        forall|p: int| 0 <= p < lane.len() ==> key_at(a, #[trigger] lane[p]) != key,
        stop_ok(a, lane, u, key),
        next_at(a, slot)[l] == link_of(head_a, a, lane, l, u),
        u == -1 ==> head_b == head_a.update(l, Some(slot)) && b == a,
        u != -1 ==> head_b == head_a && same_but_link(a, b, lane[u], l) && next_at(b, lane[u])[l] == Some(slot),
    ensures
        lane_ok(head_b, b, lane.insert(u + 1, slot), l, -1),
{
    let n = lane.insert(u + 1, slot);
    assert(head_b[l] == Some(n[0]));
    assert(!lane.contains(slot)) by {
        if lane.contains(slot) {
            let p = choose|p: int| 0 <= p < lane.len() && lane[p] == slot;
            assert(key_at(a, lane[p]) != key);
        }
    }
    // every node keeps its payload
    assert forall|t: usize| #[trigger] live(a, t) implies live(b, t) && key_at(b, t) == key_at(a, t) && next_at(b, t).len() == next_at(a, t).len() by {
        if u != -1 {
            if t != lane[u] {
                assert(b[t as int] == a[t as int]);
            }
        }
    }
    assert forall|t: usize| #[trigger] live(b, t) implies live(a, t) by {
        if u != -1 {
            if t != lane[u] {
                assert(b[t as int] == a[t as int]);
            }
        }
    }
    assert forall|p: int| 0 <= p < n.len() implies live(b, #[trigger] n[p]) && height_at(b, n[p]) >= l by {
        if p < u + 1 {
            assert(n[p] == lane[p]);
            assert(live(a, lane[p]));
        } else if p > u + 1 {
            assert(n[p] == lane[p - 1]);
            assert(live(a, lane[p - 1]));
        }
    }
    assert forall|p: int| 0 <= p < n.len() - 1 implies #[trigger] next_at(b, n[p])[l] == Some(n[p + 1]) by {
        if p < u {
            assert(lane[p] != lane[u]) by {
                assert(key_at(a, lane[p]) < key_at(a, lane[u]));
            }
            assert(live(a, lane[p]));
            assert(b[lane[p] as int] == a[lane[p] as int]);
        } else if p == u {
        } else if p == u + 1 {
            if u + 1 < lane.len() {
                if u >= 0 {
                    assert(next_at(a, lane[u])[l] == Some(lane[u + 1]));
                }
            } else {
                assert(false);
            }
        } else {
            let t = lane[p - 1];
            assert(live(a, t));
            if u != -1 {
                assert(t != lane[u]) by {
                    assert(key_at(a, lane[u]) < key_at(a, lane[p - 1]));
                }
                assert(b[t as int] == a[t as int]);
            }
        }
    }
    if u + 1 == lane.len() {
        assert(n.last() == slot);
        if u >= 0 {
            assert(lane.last() == lane[u]);
        }
        assert(next_at(b, slot)[l] is None);
    } else {
        assert(n.last() == lane.last());
        let t = lane.last();
        assert(live(a, t));
        if u != -1 {
            assert(t != lane[u]) by {
                assert(key_at(a, lane[u]) < key_at(a, lane[lane.len() - 1]));
            }
            assert(b[t as int] == a[t as int]);
        }
    }
    assert forall|p: int, q: int| 0 <= p < q < n.len() implies key_at(b, #[trigger] n[p]) < key_at(b, #[trigger] n[q]) by {
        if u + 1 < lane.len() {
            assert(key_at(a, lane[u + 1]) >= key);
        }
        if p < u + 1 && q > u + 1 {
            assert(key_at(a, lane[p]) < key);
            assert(key_at(a, lane[q - 1]) >= key_at(a, lane[u + 1])) by {
                if q - 1 > u + 1 {
                    assert(key_at(a, lane[u + 1]) < key_at(a, lane[q - 1]));
                }
            }
            assert(live(a, lane[q - 1]));
        } else if p == u + 1 {
            assert(key_at(a, lane[q - 1]) >= key_at(a, lane[u + 1])) by {
                if q - 1 > u + 1 {
                    assert(key_at(a, lane[u + 1]) < key_at(a, lane[q - 1]));
                }
            }
            assert(key_at(a, lane[q - 1]) != key);
        } else if q == u + 1 {
            assert(key_at(a, lane[p]) < key);
        } else if q < u + 1 {
            assert(live(a, lane[p]) && live(a, lane[q]));
        } else {
            assert(live(a, lane[p - 1]) && live(a, lane[q - 1]));
        }
    }
    assert forall|t: usize| live(b, t) && height_at(b, t) >= l && t != -1 implies #[trigger] n.contains(t) by {
        if t == slot {
            assert(n[u + 1] == slot);
        } else {
            assert(live(a, t));
            assert(lane.contains(t));
            let p = choose|p: int| 0 <= p < lane.len() && lane[p] == t;
            if p < u + 1 {
                assert(n[p] == t);
            } else {
                assert(n[p + 1] == t);
            }
        }
    }
}

/// Unlinking the node after stopping position `u` from lane `l` gives a
/// well-formed lane without it (the node itself still live, so skipped).
proof fn lemma_unsplice<V>(
    head_a: Seq<Option<usize>>,
    a: Seq<Option<SkipNode<V>>>,
    head_b: Seq<Option<usize>>,
    b: Seq<Option<SkipNode<V>>>,
    lane: Seq<usize>,
    l: int,
    u: int,
    key: usize,
)
    requires
        0 <= l < head_a.len(),
        lane_ok(head_a, a, lane, l, -1),
        stop_ok(a, lane, u, key),
        u + 1 < lane.len(),
        u == -1 ==> head_b == head_a.update(l, next_at(a, lane[u + 1])[l]) && b == a,
        u != -1 ==> head_b == head_a && same_but_link(a, b, lane[u], l) && next_at(b, lane[u])[l] == next_at(
            a,
            lane[u + 1],
        )[l],
    ensures
        lane_ok(head_b, b, lane.remove(u + 1), l, lane[u + 1] as int),
        !lane.remove(u + 1).contains(lane[u + 1]),
{
    let c = lane[u + 1];
    let n = lane.remove(u + 1);
    assert forall|t: usize| #[trigger] live(a, t) implies live(b, t) && key_at(b, t) == key_at(a, t) && next_at(b, t).len() == next_at(a, t).len() by {
        if u != -1 {
            if t != lane[u] {
                assert(b[t as int] == a[t as int]);
            }
        }
    }
    assert forall|t: usize| #[trigger] live(b, t) implies live(a, t) by {
        if u != -1 {
            if t != lane[u] {
                assert(b[t as int] == a[t as int]);
            }
        }
    }
    assert(live(a, c));
    if u + 2 < lane.len() {
        assert(next_at(a, c)[l] == Some(lane[u + 2]));
    } else {
        assert(lane.last() == c);
    }
    assert forall|p: int| 0 <= p < n.len() implies live(b, #[trigger] n[p]) && height_at(b, n[p]) >= l by {
        if p < u + 1 {
            assert(live(a, lane[p]));
        } else {
            assert(live(a, lane[p + 1]));
        }
    }
    if n.len() == 0 {
        assert(head_b[l] is None);
    } else {
        assert(head_b[l] == Some(n[0]));
    }
    assert forall|p: int| 0 <= p < n.len() - 1 implies #[trigger] next_at(b, n[p])[l] == Some(n[p + 1]) by {
        if p < u {
            assert(lane[p] != lane[u]) by {
                assert(key_at(a, lane[p]) < key_at(a, lane[u]));
            }
            assert(live(a, lane[p]));
            assert(b[lane[p] as int] == a[lane[p] as int]);
        } else if p == u {
        } else {
            let t = lane[p + 1];
            assert(live(a, t));
            if u != -1 {
                assert(t != lane[u]) by {
                    assert(key_at(a, lane[u]) < key_at(a, lane[p + 1]));
                }
                assert(b[t as int] == a[t as int]);
            }
        }
    }
    if n.len() > 0 {
        if u + 1 == n.len() {
            assert(n.last() == lane[u]);
            assert(next_at(a, c)[l] is None);
        } else {
            let t = lane.last();
            assert(n.last() == t);
            assert(live(a, t));
            if u != -1 {
                assert(t != lane[u]) by {
                    assert(key_at(a, lane[u]) < key_at(a, lane[lane.len() - 1]));
                }
                assert(b[t as int] == a[t as int]);
            }
        }
    }
    assert forall|p: int, q: int| 0 <= p < q < n.len() implies key_at(b, #[trigger] n[p]) < key_at(b, #[trigger] n[q]) by {
        let pp = if p < u + 1 { p } else { p + 1 };
        let qq = if q < u + 1 { q } else { q + 1 };
        assert(n[p] == lane[pp] && n[q] == lane[qq]);
        assert(live(a, lane[pp]) && live(a, lane[qq]));
        assert(key_at(a, lane[pp]) < key_at(a, lane[qq]));
    }
    assert forall|t: usize| live(b, t) && height_at(b, t) >= l && t != c implies #[trigger] n.contains(t) by {
        assert(live(a, t));
        assert(lane.contains(t));
        let p = choose|p: int| 0 <= p < lane.len() && lane[p] == t;
        if p < u + 1 {
            assert(n[p] == t);
        } else {
            assert(n[p - 1] == t);
        }
    }
    assert(!n.contains(c)) by {
        if n.contains(c) {
            let p = choose|p: int| 0 <= p < n.len() && n[p] == c;
            let pp = if p < u + 1 { p } else { p + 1 };
            assert(lane[pp] == c);
            if pp < u + 1 {
                assert(key_at(a, lane[pp]) < key_at(a, lane[u + 1]));
            } else {
                assert(key_at(a, lane[u + 1]) < key_at(a, lane[pp]));
            }
        }
    }
}

/// Changing a slot that is on no lane, and is skipped where it would have
/// to be, leaves a lane well formed.
proof fn lemma_lane_reslot<V>(
    head: Seq<Option<usize>>,
    a: Seq<Option<SkipNode<V>>>,
    b: Seq<Option<SkipNode<V>>>,
    lane: Seq<usize>,
    l: int,
    skip_a: int,
    skip_b: int,
    slot: usize,
)
    requires
        lane_ok(head, a, lane, l, skip_a),
        !lane.contains(slot),
        skip_a == -1 || skip_a == slot,
        forall|t: usize| t != slot ==> (#[trigger] live(a, t) <==> live(b, t)),
        forall|t: usize| t != slot && live(a, t) ==> #[trigger] b[t as int] == a[t as int],
        skip_b != slot ==> !(live(b, slot) && height_at(b, slot) >= l),
    ensures
        lane_ok(head, b, lane, l, skip_b),
        skip_b == slot ==> lane_ok(head, b, lane, l, slot as int),
{
    assert forall|p: int| 0 <= p < lane.len() implies live(b, #[trigger] lane[p]) && height_at(b, lane[p]) >= l && b[lane[p] as int] == a[lane[p] as int] by {
        assert(live(a, lane[p]));
        if lane[p] == slot {
            assert(lane.contains(slot));
        }
    }
    assert forall|p: int| 0 <= p < lane.len() - 1 implies #[trigger] next_at(b, lane[p])[l] == Some(lane[p + 1]) by {
        assert(b[lane[p] as int] == a[lane[p] as int]);
    }
    if lane.len() > 0 {
        assert(b[lane[lane.len() - 1] as int] == a[lane[lane.len() - 1] as int]);
    }
    assert forall|p: int, q: int| 0 <= p < q < lane.len() implies key_at(b, #[trigger] lane[p]) < key_at(b, #[trigger] lane[q]) by {
        assert(b[lane[p] as int] == a[lane[p] as int]);
        assert(b[lane[q] as int] == a[lane[q] as int]);
    }
    assert forall|t: usize| live(b, t) && height_at(b, t) >= l && t != skip_b implies #[trigger] lane.contains(t) by {
        if t != slot {
            assert(live(a, t));
            assert(b[t as int] == a[t as int]);
        }
    }
}

/// Relinking one lane leaves every other lane, every stopping position and
/// every outgoing link on those lanes as they were.
proof fn lemma_other_lane<V>(
    ha: Seq<Option<usize>>,
    a: Seq<Option<SkipNode<V>>>,
    hb: Seq<Option<usize>>,
    b: Seq<Option<SkipNode<V>>>,
    lane: Seq<usize>,
    ll: int,
    skip: int,
    l: int,
    pred: Option<usize>,
)
    requires
        0 <= ll < ha.len(),
        0 <= l,
        ll != l,
        lane_ok(ha, a, lane, ll, skip),
        hb.len() == ha.len(),
        pred is None ==> hb[ll] == ha[ll] && b == a,
        pred is Some ==> hb == ha && same_but_link(a, b, pred->Some_0, l),
    ensures
        lane_ok(hb, b, lane, ll, skip),
        forall|q: int, key: usize| #[trigger] stop_ok(a, lane, q, key) ==> stop_ok(b, lane, q, key),
        forall|q: int| -1 <= q < lane.len() ==> #[trigger] link_of(hb, b, lane, ll, q) == link_of(ha, a, lane, ll, q),
{
    match pred {
        None => {},
        Some(s) => {
            lemma_lane_frame(ha, a, b, lane, ll, skip, s, l);
            assert forall|q: int, key: usize| #[trigger] stop_ok(a, lane, q, key) implies stop_ok(b, lane, q, key) by {
                assert forall|p: int| 0 <= p <= q implies key_at(b, #[trigger] lane[p]) < key by {
                    assert(live(a, lane[p]));
                    if lane[p] != s {
                        assert(b[lane[p] as int] == a[lane[p] as int]);
                    }
                }
                if q + 1 < lane.len() {
                    assert(live(a, lane[q + 1]));
                    if lane[q + 1] != s {
                        assert(b[lane[q + 1] as int] == a[lane[q + 1] as int]);
                    }
                }
            }
            assert forall|q: int| -1 <= q < lane.len() implies #[trigger] link_of(hb, b, lane, ll, q) == link_of(ha, a, lane, ll, q) by {
                if q >= 0 {
                    assert(live(a, lane[q]));
                    if lane[q] != s {
                        assert(b[lane[q] as int] == a[lane[q] as int]);
                    } else {
                        assert(next_at(b, s)[ll] == next_at(a, s)[ll]);
                    }
                }
            }
        },
    }
}

/// Outside slot `except`, the two arenas hold the same nodes but for their links.
spec fn same_payload<V>(a: Seq<Option<SkipNode<V>>>, b: Seq<Option<SkipNode<V>>>, except: int) -> bool {
    forall|s: usize| s != except ==> {
        &&& (#[trigger] live(a, s) <==> live(b, s))
        &&& live(a, s) ==> key_at(b, s) == key_at(a, s) && b[s as int]->Some_0.value == a[s as int]->Some_0.value
            && next_at(b, s).len() == next_at(a, s).len()
    }
}

/// An ordered map from `usize` keys to values, kept as a skip list: every
/// node stands on lanes `0..=height`, and each lane links its nodes in
/// increasing key order from a sentinel.
pub struct SkipList<V> {
    head: Vec<Option<usize>>,
    nodes: Vec<Option<SkipNode<V>>>,
    free: Vec<usize>,
    fraction: u32,
    max_level: usize,
    cur_level: usize,
    len: usize,
    lanes: Ghost<Seq<Seq<usize>>>,
}

impl<V> SkipList<V> {
    pub closed spec fn wf(&self) -> bool {
        &&& self.max_level < usize::MAX
        &&& self.head@.len() == self.max_level + 1
        &&& self.lanes@.len() == self.max_level + 1
        &&& self.cur_level <= self.max_level
        &&& forall|l: int| 0 <= l <= self.max_level ==> lane_ok(self.head@, self.nodes@, #[trigger] self.lanes@[l], l, -1)
        &&& forall|l: int| self.cur_level < l <= self.max_level ==> (#[trigger] self.lanes@[l]).len() == 0
        &&& self.cur_level > 0 ==> self.lanes@[self.cur_level as int].len() > 0
        &&& self.len == self.lanes@[0].len()
        &&& forall|s: usize| #[trigger] live(self.nodes@, s) ==> 0 <= height_at(self.nodes@, s) <= self.max_level
        &&& self.free@.no_duplicates()
        &&& forall|i: int| 0 <= i < self.free@.len() ==> (#[trigger] self.free@[i]) < self.nodes@.len()
            && self.nodes@[self.free@[i] as int] is None
    }

    /// The stored (key, value) pairs in lane-0 order, which is increasing key order.
    pub closed spec fn entries(&self) -> Seq<(usize, V)> {
        self.lanes@[0].map_values(|s: usize| (key_at(self.nodes@, s), self.nodes@[s as int]->Some_0.value))
    }

    /// The height of each stored node, aligned with `entries()`.
    pub closed spec fn heights(&self) -> Seq<int> {
        self.lanes@[0].map_values(|s: usize| height_at(self.nodes@, s))
    }

    /// The keys met when walking level `l` from the sentinel.
    pub closed spec fn lane_keys(&self, l: int) -> Seq<usize> {
        self.lanes@[l].map_values(|s: usize| key_at(self.nodes@, s))
    }

    /// The highest occupied level.
    pub closed spec fn level(&self) -> nat {
        self.cur_level as nat
    }

    /// The ceiling on node heights.
    pub closed spec fn ceiling(&self) -> nat {
        self.max_level as nat
    }

    /// The promotion threshold: a draw below it raises a new node one level.
    pub closed spec fn threshold(&self) -> u32 {
        self.fraction
    }

    /// An empty list whose nodes rise no higher than `max_level`, promoted
    /// on draws below `fraction`.
    pub fn new(fraction: u32, max_level: usize) -> (r: Self)
        requires
            max_level < usize::MAX,
        ensures
            r.wf(),
            r.entries() == Seq::<(usize, V)>::empty(),
            r.heights() == Seq::<int>::empty(),
            r.level() == 0,
            r.ceiling() == max_level,
            r.threshold() == fraction,
    {
        let mut head: Vec<Option<usize>> = Vec::new();
        let mut i: usize = 0;
        while i <= max_level
            invariant
                max_level < usize::MAX,
                i <= max_level + 1,
                head@.len() == i,
                forall|m: int| 0 <= m < i ==> (#[trigger] head@[m]) is None,
            decreases max_level + 1 - i,
        {
            head.push(None);
            i = i + 1;
        }
        let r = SkipList {
            head,
            nodes: Vec::new(),
            free: Vec::new(),
            fraction,
            max_level,
            cur_level: 0,
            len: 0,
            lanes: Ghost(Seq::new((max_level + 1) as nat, |l: int| Seq::<usize>::empty())),
        };
        assert(r.entries() =~= Seq::<(usize, V)>::empty());
        assert(r.heights() =~= Seq::<int>::empty());
        r
    }

    /// An empty list with the default ceiling.
    pub fn with_fraction(fraction: u32) -> (r: Self)
        ensures
            r.wf(),
            r.entries() == Seq::<(usize, V)>::empty(),
            r.level() == 0,
            r.ceiling() == MAX_LEVEL,
            r.threshold() == fraction,
    {
        Self::new(fraction, MAX_LEVEL)
    }

    /// Drops every entry; the threshold and ceiling stay.
    pub fn clear(&mut self)
        requires
            old(self).wf(),
        ensures
            final(self).wf(),
            final(self).entries() == Seq::<(usize, V)>::empty(),
            final(self).level() == 0,
            final(self).ceiling() == old(self).ceiling(),
            final(self).threshold() == old(self).threshold(),
    {
        *self = Self::new(self.fraction, self.max_level);
    }

    pub fn is_empty(&self) -> (r: bool)
        requires
            self.wf(),
        ensures
            r == (self.entries().len() == 0),
    {
        self.len == 0
    }

    pub fn len(&self) -> (r: usize)
        requires
            self.wf(),
        ensures
            r == self.entries().len(),
    {
        self.len
    }

    /// The highest level on which some node stands, or 0 when empty.
    pub fn cur_level(&self) -> (r: usize)
        requires
            self.wf(),
        ensures
            r == self.level(),
            forall|p: int| 0 <= p < self.heights().len() ==> #[trigger] self.heights()[p] <= r,
            r > 0 ==> exists|p: int| 0 <= p < self.heights().len() && #[trigger] self.heights()[p] == r,
    {
        proof {
            self.lemma_level_is_max();
        }
        self.cur_level
    }

    pub fn max_level(&self) -> (r: usize)
        ensures
            r == self.ceiling(),
    {
        self.max_level
    }

    /// `level()` is the largest height, or 0 when there is none.
    proof fn lemma_level_is_max(&self)
        requires
            self.wf(),
        ensures
            forall|p: int| 0 <= p < self.heights().len() ==> #[trigger] self.heights()[p] <= self.level(),
            self.level() > 0 ==> exists|p: int| 0 <= p < self.heights().len() && #[trigger] self.heights()[p] == self.level(),
    {
        let lane0 = self.lanes@[0];
        assert(lane_ok(self.head@, self.nodes@, lane0, 0, -1));
        assert forall|p: int| 0 <= p < self.heights().len() implies #[trigger] self.heights()[p] <= self.level() by {
            let s = lane0[p];
            assert(live(self.nodes@, s));
            let h = height_at(self.nodes@, s);
            if h > self.cur_level {
                assert(lane_ok(self.head@, self.nodes@, self.lanes@[h], h, -1));
                assert(self.lanes@[h].contains(s));
            }
        }
        if self.cur_level > 0 {
            let top = self.cur_level as int;
            let lane = self.lanes@[top];
            assert(lane_ok(self.head@, self.nodes@, lane, top, -1));
            let s = lane[0];
            assert(live(self.nodes@, s));
            assert(lane0.contains(s));
            let p = choose|p: int| 0 <= p < lane0.len() && lane0[p] == s;
            let h = height_at(self.nodes@, s);
            if h > top {
                assert(lane_ok(self.head@, self.nodes@, self.lanes@[h], h, -1));
                assert(self.lanes@[h].contains(s));
            }
            assert(self.heights()[p] == self.level());
        }
    }

    fn set_link(&mut self, from: Option<usize>, l: usize, to: Option<usize>)
        requires
            l < old(self).head@.len(),
            from is Some ==> live(old(self).nodes@, from->Some_0) && l < next_at(old(self).nodes@, from->Some_0).len(),
        ensures
            final(self).lanes == old(self).lanes,
            final(self).max_level == old(self).max_level,
            final(self).cur_level == old(self).cur_level,
            final(self).len == old(self).len,
            final(self).free == old(self).free,
            final(self).fraction == old(self).fraction,
            from is None ==> final(self).head@ == old(self).head@.update(l as int, to) && final(self).nodes@ == old(self).nodes@,
            from is Some ==> final(self).head@ == old(self).head@ && same_but_link(old(self).nodes@, final(self).nodes@, from->Some_0, l as int)
                && next_at(final(self).nodes@, from->Some_0)[l as int] == to,
    {
        match from {
            None => {
                self.head.set(l, to);
            },
            Some(s) => {
                let mut taken: Option<SkipNode<V>> = None;
                core::mem::swap(&mut self.nodes[s], &mut taken);
                match taken {
                    Some(mut n) => {
                        n.next.set(l, to);
                        self.nodes.set(s, Some(n));
                    },
                    None => {},
                }
            },
        }
    }

    /// Stores `key` with `value` on a new node of height `level`, unless the
    /// key is already stored, in which case nothing changes.
    #[verifier::rlimit(100)]
    #[verifier::spinoff_prover]
    pub fn insert_at_level(&mut self, key: usize, value: V, level: usize) -> (r: Result<(), SkipListError>)
        requires
            old(self).wf(),
            level <= old(self).ceiling(),
            old(self).entries().len() < usize::MAX,
        ensures
            final(self).wf(),
            final(self).ceiling() == old(self).ceiling(),
            final(self).threshold() == old(self).threshold(),
            (exists|p: int| 0 <= p < old(self).entries().len() && old(self).entries()[p].0 == key) ==> r == Err::<(), SkipListError>(
                SkipListError::KeyExists,
            ) && *final(self) == *old(self),
            !(exists|p: int| 0 <= p < old(self).entries().len() && old(self).entries()[p].0 == key) ==> r is Ok
                && (exists|p: int| 0 <= p <= old(self).entries().len()
                    && final(self).entries() == old(self).entries().insert(p, (key, value))
                    && final(self).heights() == old(self).heights().insert(p, level as int))
                && final(self).level() == if level > old(self).level() { level as nat } else { old(self).level() },
    {
        let ghost o = *self;
        let ghost big = self.lanes@;
        let ghost top_m = self.max_level as int;
        let (mut update, Ghost(upos0)) = self.find_path(key);
        let ghost mut upos = upos0;
        proof {
            assert(stop_ok(self.nodes@, big[0], upos[0], key));
            assert(lane_ok(self.head@, self.nodes@, big[0], 0, -1));
            if upos[0] >= 0 {
                assert(live(self.nodes@, big[0][upos[0]]));
            }
        }
        let first = self.link(update[0], 0);
        let found = match first {
            Some(c) => {
                proof {
                    let lane = big[0];
                    if upos[0] >= 0 && upos[0] + 1 >= lane.len() {
                        assert(lane.last() == lane[upos[0]]);
                    }
                    assert(upos[0] + 1 < lane.len() && c == lane[upos[0] + 1]);
                    assert(live(self.nodes@, c));
                }
                self.key_of(c) == key
            },
            None => false,
        };
        if found {
            proof {
                let p = upos[0] + 1;
                assert(o.entries()[p].0 == key);
            }
            return Err(SkipListError::KeyExists);
        }
        proof {
            let lane = big[0];
            let q = upos[0];
            if q + 1 < lane.len() {
                if q >= 0 {
                    assert(next_at(self.nodes@, lane[q])[0] == Some(lane[q + 1]));
                }
                assert(key_at(self.nodes@, lane[q + 1]) > key);
            }
            assert forall|p: int| 0 <= p < lane.len() implies key_at(self.nodes@, #[trigger] lane[p]) != key by {
                if p > q + 1 {
                    assert(key_at(self.nodes@, lane[q + 1]) < key_at(self.nodes@, lane[p]));
                }
            }
            assert forall|t: usize| #[trigger] live(self.nodes@, t) implies key_at(self.nodes@, t) != key by {
                assert(lane.contains(t));
            }
            assert(!(exists|p: int| 0 <= p < o.entries().len() && o.entries()[p].0 == key)) by {
                if exists|p: int| 0 <= p < o.entries().len() && o.entries()[p].0 == key {
                    let p = choose|p: int| 0 <= p < o.entries().len() && o.entries()[p].0 == key;
                    assert(key_at(self.nodes@, lane[p]) == key);
                }
            }
        }
        let old_top = self.cur_level;
        let mut l: usize = old_top + 1;
        while l <= level
            invariant
                old_top == o.cur_level,
                o.wf(),
                big == o.lanes@,
                level <= o.max_level,
                old_top + 1 <= l <= level + 1 || (l == old_top + 1 && level < l),
                update@.len() == l,
                upos.len() == l,
                forall|ll: int| 0 <= ll < l ==> stop_ok(o.nodes@, big[ll], #[trigger] upos[ll], key) && update@[ll] == slot_of(big[ll], upos[ll]),
            decreases level + 1 - l,
        {
            assert(big[l as int].len() == 0);
            update.push(None);
            proof {
                upos = upos.push(-1);
            }
            l = l + 1;
        }
        let mut next: Vec<Option<usize>> = Vec::new();
        let mut l: usize = 0;
        while l <= level
            invariant
                *self == o,
                o.wf(),
                big == o.lanes@,
                level <= o.max_level,
                l <= level + 1,
                update@.len() > level,
                upos.len() == update@.len(),
                forall|ll: int| 0 <= ll < update@.len() ==> stop_ok(o.nodes@, big[ll], #[trigger] upos[ll], key) && update@[ll] == slot_of(big[ll], upos[ll]),
                next@.len() == l,
                forall|ll: int| 0 <= ll < l ==> #[trigger] next@[ll] == link_of(o.head@, o.nodes@, big[ll], ll, upos[ll]),
            decreases level + 1 - l,
        {
            proof {
                assert(stop_ok(o.nodes@, big[l as int], upos[l as int], key));
                assert(lane_ok(o.head@, o.nodes@, big[l as int], l as int, -1));
                if upos[l as int] >= 0 {
                    assert(live(o.nodes@, big[l as int][upos[l as int]]));
                }
            }
            let x = self.link(update[l], l);
            next.push(x);
            l = l + 1;
        }
        let node = SkipNode { key, value, next };
        let slot: usize;
        if self.free.len() > 0 {
            let f = self.free.pop().unwrap();
            proof {
                assert(o.free@.last() == f);
                assert(o.nodes@[f as int] is None);
            }
            self.nodes.set(f, Some(node));
            slot = f;
            proof {
                assert forall|i: int| 0 <= i < self.free@.len() implies (#[trigger] self.free@[i]) < self.nodes@.len()
                    && self.nodes@[self.free@[i] as int] is None by {
                    assert(o.free@[i] == self.free@[i]);
                    assert(o.free@[i] != o.free@[o.free@.len() - 1]);
                }
            }
        } else {
            slot = self.nodes.len();
            self.nodes.push(Some(node));
            proof {
                assert forall|i: int| 0 <= i < self.free@.len() implies (#[trigger] self.free@[i]) < self.nodes@.len()
                    && self.nodes@[self.free@[i] as int] is None by {}
            }
        }
        let ghost alloc = self.nodes@;
        proof {
            assert(!live(o.nodes@, slot));
            assert forall|t: usize| t != slot implies (#[trigger] live(o.nodes@, t) <==> live(alloc, t)) by {}
            assert forall|t: usize| t != slot && live(o.nodes@, t) implies #[trigger] alloc[t as int] == o.nodes@[t as int] by {}
            assert forall|ll: int| 0 <= ll <= top_m implies !(#[trigger] big[ll]).contains(slot) by {
                assert(lane_ok(o.head@, o.nodes@, big[ll], ll, -1));
                if big[ll].contains(slot) {
                    let p = choose|p: int| 0 <= p < big[ll].len() && big[ll][p] == slot;
                    assert(live(o.nodes@, big[ll][p]));
                }
            }
            assert forall|ll: int| 0 <= ll <= top_m implies lane_ok(o.head@, alloc, #[trigger] big[ll], ll, if ll <= level { slot as int } else { -1 }) by {
                assert(lane_ok(o.head@, o.nodes@, big[ll], ll, -1));
                lemma_lane_reslot(o.head@, o.nodes@, alloc, big[ll], ll, -1, if ll <= level { slot as int } else { -1 }, slot);
            }
            assert forall|ll: int| 0 <= ll <= level implies stop_ok(alloc, big[ll], #[trigger] upos[ll], key)
                && next_at(alloc, slot)[ll] == link_of(o.head@, alloc, big[ll], ll, upos[ll]) by {
                assert(stop_ok(o.nodes@, big[ll], upos[ll], key));
                assert(lane_ok(o.head@, o.nodes@, big[ll], ll, -1));
                assert forall|p: int| 0 <= p < big[ll].len() implies alloc[big[ll][p] as int] == o.nodes@[big[ll][p] as int] by {
                    assert(live(o.nodes@, big[ll][p]));
                }
                assert(next@[ll] == link_of(o.head@, o.nodes@, big[ll], ll, upos[ll]));
            }
            assert forall|t: usize| t != slot && #[trigger] live(alloc, t) implies key_at(alloc, t) != key by {
                assert(live(o.nodes@, t));
            }
            assert forall|t: usize| #[trigger] live(alloc, t) implies height_at(alloc, t) <= top_m by {
                if t != slot {
                    assert(live(o.nodes@, t));
                }
            }
        }
        let mut l: usize = 0;
        while l <= level
            invariant
                o.wf(),
                level <= o.max_level,
                top_m == o.max_level,
                l <= level + 1,
                self.max_level == o.max_level,
                self.cur_level == o.cur_level,
                self.len == o.len,
                self.fraction == o.fraction,
                self.free@.no_duplicates(),
                forall|i: int| 0 <= i < self.free@.len() ==> (#[trigger] self.free@[i]) < self.nodes@.len()
                    && self.nodes@[self.free@[i] as int] is None,
                self.head@.len() == top_m + 1,
                self.lanes@.len() == top_m + 1,
                update@.len() > level,
                upos.len() == update@.len(),
                forall|ll: int| 0 <= ll < update@.len() ==> update@[ll] == slot_of(big[ll], #[trigger] upos[ll]),
                live(self.nodes@, slot),
                key_at(self.nodes@, slot) == key,
                height_at(self.nodes@, slot) == level,
                self.nodes@[slot as int]->Some_0.value == value,
                forall|t: usize| t != slot && #[trigger] live(self.nodes@, t) ==> key_at(self.nodes@, t) != key,
                same_payload(alloc, self.nodes@, -1),
                forall|t: usize| #[trigger] live(alloc, t) ==> height_at(alloc, t) <= top_m,
                forall|ll: int| 0 <= ll <= top_m ==> !(#[trigger] big[ll]).contains(slot),
                forall|ll: int| 0 <= ll < l ==> #[trigger] self.lanes@[ll] == big[ll].insert(upos[ll] + 1, slot)
                    && lane_ok(self.head@, self.nodes@, self.lanes@[ll], ll, -1),
                forall|ll: int| l <= ll <= level ==> #[trigger] self.lanes@[ll] == big[ll]
                    && lane_ok(self.head@, self.nodes@, big[ll], ll, slot as int)
                    && stop_ok(self.nodes@, big[ll], upos[ll], key)
                    && next_at(self.nodes@, slot)[ll] == link_of(self.head@, self.nodes@, big[ll], ll, upos[ll]),
                forall|ll: int| level < ll <= top_m ==> #[trigger] self.lanes@[ll] == big[ll]
                    && lane_ok(self.head@, self.nodes@, big[ll], ll, -1),
            decreases level + 1 - l,
        {
            let ghost a = self.nodes@;
            let ghost ha = self.head@;
            let ghost li = l as int;
            let u = update[l];
            proof {
                assert(self.lanes@[li] == big[li]);
                if upos[li] >= 0 {
                    assert(lane_ok(ha, a, big[li], li, slot as int));
                    assert(live(a, big[li][upos[li]]));
                }
            }
            self.set_link(u, l, Some(slot));
            proof {
                let hb = self.head@;
                let b = self.nodes@;
                assert forall|p: int| 0 <= p < big[li].len() implies key_at(a, #[trigger] big[li][p]) != key by {
                    assert(live(a, big[li][p]));
                    assert(big[li][p] != slot) by {
                        if big[li][p] == slot {
                            assert(big[li].contains(slot));
                        }
                    }
                }
                lemma_splice(ha, a, hb, b, big[li], li, upos[li], slot, key);
                let pred: Option<usize> = u;
                assert forall|ll: int| li < ll <= top_m implies lane_ok(hb, b, #[trigger] big[ll], ll,
                    if ll <= level { slot as int } else { -1 }) && (ll <= level ==> stop_ok(b, big[ll], upos[ll], key)
                        && next_at(b, slot)[ll] == link_of(hb, b, big[ll], ll, upos[ll])) by {
                    assert(self.lanes@[ll] == big[ll]);
                    lemma_other_lane(ha, a, hb, b, big[ll], ll, if ll <= level { slot as int } else { -1 }, li, pred);
                    if ll <= level {
                        assert(stop_ok(a, big[ll], upos[ll], key));
                        if u is Some {
                            assert(u->Some_0 != slot) by {
                                assert(big[li].contains(big[li][upos[li]]));
                            }
                            assert(next_at(b, slot)[ll] == next_at(a, slot)[ll]);
                        }
                    }
                }
                assert forall|ll: int| 0 <= ll < li implies lane_ok(hb, b, #[trigger] self.lanes@[ll], ll, -1) by {
                    lemma_other_lane(ha, a, hb, b, self.lanes@[ll], ll, -1, li, pred);
                }
                assert forall|t: usize| t != slot && #[trigger] live(b, t) implies key_at(b, t) != key by {
                    if u is Some && t == u->Some_0 {
                        assert(live(a, t));
                    } else if u is Some {
                        assert(b[t as int] == a[t as int]);
                        assert(live(a, t));
                    }
                }
                assert(same_payload(alloc, b, -1)) by {
                    assert forall|t: usize| t != -1 implies {
                        &&& (#[trigger] live(alloc, t) <==> live(b, t))
                        &&& live(alloc, t) ==> key_at(b, t) == key_at(alloc, t) && b[t as int]->Some_0.value == alloc[t as int]->Some_0.value
                            && next_at(b, t).len() == next_at(alloc, t).len()
                    } by {
                        if u is Some && t != u->Some_0 && t < a.len() {
                            assert(b[t as int] == a[t as int]);
                        }
                    }
                }
                if u is Some {
                    assert(u->Some_0 != slot) by {
                        assert(big[li].contains(big[li][upos[li]]));
                    }
                    assert(b[slot as int] == a[slot as int]);
                    assert forall|i: int| 0 <= i < self.free@.len() implies (#[trigger] self.free@[i]) < b.len()
                        && b[self.free@[i] as int] is None by {
                        assert(a[self.free@[i] as int] is None);
                    }
                }
            }
            let ghost prev = self.lanes@;
            self.lanes = Ghost(self.lanes@.update(li, big[li].insert(upos[li] + 1, slot)));
            proof {
                assert forall|ll: int| li < ll <= level implies #[trigger] self.lanes@[ll] == big[ll]
                    && lane_ok(self.head@, self.nodes@, big[ll], ll, slot as int)
                    && stop_ok(self.nodes@, big[ll], upos[ll], key)
                    && next_at(self.nodes@, slot)[ll] == link_of(self.head@, self.nodes@, big[ll], ll, upos[ll]) by {
                    assert(self.lanes@[ll] == prev[ll]);
                    assert(lane_ok(self.head@, self.nodes@, big[ll], ll, slot as int));
                }
                assert forall|ll: int| level < ll <= top_m implies #[trigger] self.lanes@[ll] == big[ll]
                    && lane_ok(self.head@, self.nodes@, big[ll], ll, -1) by {
                    assert(self.lanes@[ll] == prev[ll]);
                    assert(lane_ok(self.head@, self.nodes@, big[ll], ll, -1));
                }
                assert forall|ll: int| 0 <= ll < li + 1 implies #[trigger] self.lanes@[ll] == big[ll].insert(upos[ll] + 1, slot)
                    && lane_ok(self.head@, self.nodes@, self.lanes@[ll], ll, -1) by {
                    if ll < li {
                        assert(self.lanes@[ll] == prev[ll]);
                        assert(lane_ok(self.head@, self.nodes@, prev[ll], ll, -1));
                    }
                }
            }
            l = l + 1;
        }
        if level > self.cur_level {
            self.cur_level = level;
        }
        proof {
            let n = self.nodes@;
            assert(self.lanes@[0].len() == o.len + 1);
            assert(forall|t: usize| #[trigger] live(n, t) ==> 0 <= height_at(n, t) <= top_m) by {
                assert forall|t: usize| #[trigger] live(n, t) implies 0 <= height_at(n, t) <= top_m by {
                    if t != slot {
                        assert(live(o.nodes@, t));
                    }
                }
            }
            if self.cur_level > 0 {
                let c = self.cur_level as int;
                if c <= level {
                    assert(self.lanes@[c] == big[c].insert(upos[c] + 1, slot));
                }
            }
            assert forall|ll: int| self.cur_level < ll <= top_m implies (#[trigger] self.lanes@[ll]).len() == 0 by {}
            let p = upos[0] + 1;
            assert(self.entries() =~= o.entries().insert(p, (key, value))) by {
                assert forall|i: int| 0 <= i < self.entries().len() implies self.entries()[i] == o.entries().insert(p, (key, value))[i] by {
                    if i != p {
                        let t = self.lanes@[0][i];
                        let ii = if i < p { i } else { i - 1 };
                        assert(t == big[0][ii]);
                        assert(live(o.nodes@, t));
                        assert(alloc[t as int] == o.nodes@[t as int]);
                    }
                }
            }
            assert(self.heights() =~= o.heights().insert(p, level as int)) by {
                assert forall|i: int| 0 <= i < self.heights().len() implies self.heights()[i] == o.heights().insert(p, level as int)[i] by {
                    if i != p {
                        let t = self.lanes@[0][i];
                        let ii = if i < p { i } else { i - 1 };
                        assert(t == big[0][ii]);
                        assert(live(o.nodes@, t));
                        assert(alloc[t as int] == o.nodes@[t as int]);
                    }
                }
            }
        }
        self.len = self.len + 1;
        Ok(())
    }

    fn height_of(&self, s: usize) -> (r: usize)
        requires
            self.wf(),
            live(self.nodes@, s),
        ensures
            r == height_at(self.nodes@, s),
    {
        match &self.nodes[s] {
            Some(n) => n.next.len() - 1,
            None => 0,
        }
    }

    /// Removes `key` and returns its value; a missing key changes nothing.
    #[verifier::rlimit(100)]
    #[verifier::spinoff_prover]
    pub fn pop(&mut self, key: usize) -> (r: Option<V>)
        requires
            old(self).wf(),
        ensures
            final(self).wf(),
            final(self).ceiling() == old(self).ceiling(),
            final(self).threshold() == old(self).threshold(),
            (exists|p: int| 0 <= p < old(self).entries().len() && old(self).entries()[p].0 == key) ==> exists|p: int|
                0 <= p < old(self).entries().len() && old(self).entries()[p].0 == key && r == Some(old(self).entries()[p].1)
                    && final(self).entries() == old(self).entries().remove(p)
                    && final(self).heights() == old(self).heights().remove(p),
            !(exists|p: int| 0 <= p < old(self).entries().len() && old(self).entries()[p].0 == key) ==> r is None
                && *final(self) == *old(self),
    {
        let ghost o = *self;
        let ghost big = self.lanes@;
        let ghost top_m = self.max_level as int;
        let (update, Ghost(upos)) = self.find_path(key);
        proof {
            assert(stop_ok(self.nodes@, big[0], upos[0], key));
            assert(lane_ok(self.head@, self.nodes@, big[0], 0, -1));
            if upos[0] >= 0 {
                assert(live(self.nodes@, big[0][upos[0]]));
            }
        }
        let first = self.link(update[0], 0);
        let c = match first {
            Some(c) => c,
            None => {
                proof {
                    let lane = big[0];
                    let q = upos[0];
                    if q + 1 < lane.len() {
                        if q >= 0 {
                            assert(next_at(self.nodes@, lane[q])[0] == Some(lane[q + 1]));
                        }
                    }
                    if exists|p: int| 0 <= p < o.entries().len() && o.entries()[p].0 == key {
                        let p = choose|p: int| 0 <= p < o.entries().len() && o.entries()[p].0 == key;
                        assert(key_at(self.nodes@, lane[p]) == key);
                    }
                }
                return None;
            },
        };
        proof {
            let lane = big[0];
            if upos[0] >= 0 && upos[0] + 1 >= lane.len() {
                assert(lane.last() == lane[upos[0]]);
            }
            assert(upos[0] + 1 < lane.len() && c == lane[upos[0] + 1]);
            assert(live(self.nodes@, c));
        }
        if self.key_of(c) != key {
            proof {
                let lane = big[0];
                let q = upos[0];
                if exists|p: int| 0 <= p < o.entries().len() && o.entries()[p].0 == key {
                    let p = choose|p: int| 0 <= p < o.entries().len() && o.entries()[p].0 == key;
                    assert(key_at(self.nodes@, lane[p]) == key);
                    if p > q + 1 {
                        assert(key_at(self.nodes@, lane[q + 1]) < key_at(self.nodes@, lane[p]));
                    }
                }
            }
            return None;
        }
        let h = self.height_of(c);
        proof {
            assert(lane_ok(self.head@, self.nodes@, big[h as int], h as int, -1));
            assert(big[h as int].contains(c));
            assert(h <= o.cur_level);
            assert forall|ll: int| 0 <= ll <= h implies #[trigger] upos[ll] + 1 < big[ll].len() && big[ll][upos[ll] + 1] == c by {
                let lane = big[ll];
                assert(lane_ok(self.head@, self.nodes@, lane, ll, -1));
                assert(stop_ok(self.nodes@, lane, upos[ll], key));
                assert(lane.contains(c));
                let p = choose|p: int| 0 <= p < lane.len() && lane[p] == c;
                if p <= upos[ll] {
                    assert(key_at(self.nodes@, lane[p]) < key);
                } else if p > upos[ll] + 1 {
                    assert(key_at(self.nodes@, lane[upos[ll] + 1]) < key_at(self.nodes@, lane[p]));
                }
            }
            assert forall|ll: int| h < ll <= top_m implies !(#[trigger] big[ll]).contains(c) by {
                assert(lane_ok(self.head@, self.nodes@, big[ll], ll, -1));
                if big[ll].contains(c) {
                    let p = choose|p: int| 0 <= p < big[ll].len() && big[ll][p] == c;
                    assert(height_at(self.nodes@, big[ll][p]) >= ll);
                }
            }
        }
        let mut l: usize = 0;
        while l <= h
            invariant
                o.wf(),
                top_m == o.max_level,
                h <= o.cur_level,
                l <= h + 1,
                self.max_level == o.max_level,
                self.cur_level == o.cur_level,
                self.len == o.len,
                self.fraction == o.fraction,
                self.free == o.free,
                forall|i: int| 0 <= i < self.free@.len() ==> (#[trigger] self.free@[i]) < self.nodes@.len()
                    && self.nodes@[self.free@[i] as int] is None,
                self.head@.len() == top_m + 1,
                self.lanes@.len() == top_m + 1,
                update@.len() == o.cur_level + 1,
                upos.len() == update@.len(),
                forall|ll: int| 0 <= ll < update@.len() ==> update@[ll] == slot_of(big[ll], #[trigger] upos[ll]),
                live(self.nodes@, c),
                height_at(self.nodes@, c) == h,
                key_at(self.nodes@, c) == key,
                same_payload(o.nodes@, self.nodes@, -1),
                forall|ll: int| 0 <= ll <= h ==> #[trigger] upos[ll] + 1 < big[ll].len() && big[ll][upos[ll] + 1] == c,
                forall|ll: int| 0 <= ll < l ==> #[trigger] self.lanes@[ll] == big[ll].remove(upos[ll] + 1)
                    && lane_ok(self.head@, self.nodes@, self.lanes@[ll], ll, c as int)
                    && !self.lanes@[ll].contains(c),
                forall|ll: int| l <= ll <= h ==> #[trigger] self.lanes@[ll] == big[ll]
                    && lane_ok(self.head@, self.nodes@, big[ll], ll, -1)
                    && stop_ok(self.nodes@, big[ll], upos[ll], key),
                forall|ll: int| h < ll <= top_m ==> #[trigger] self.lanes@[ll] == big[ll]
                    && lane_ok(self.head@, self.nodes@, big[ll], ll, -1)
                    && !big[ll].contains(c),
            decreases h + 1 - l,
        {
            let ghost a = self.nodes@;
            let ghost ha = self.head@;
            let ghost li = l as int;
            proof {
                assert(self.lanes@[li] == big[li]);
                assert(upos[li] + 1 < big[li].len() && big[li][upos[li] + 1] == c);
                if upos[li] >= 0 {
                    assert(live(a, big[li][upos[li]]));
                    assert(height_at(a, big[li][upos[li]]) >= li);
                }
            }
            let nx = self.link(Some(c), l);
            let u = update[l];
            self.set_link(u, l, nx);
            proof {
                let hb = self.head@;
                let b = self.nodes@;
                lemma_unsplice(ha, a, hb, b, big[li], li, upos[li], key);
                let pred: Option<usize> = u;
                if u is Some {
                    assert(u->Some_0 != c) by {
                        assert(key_at(a, big[li][upos[li]]) < key);
                    }
                }
                assert forall|ll: int| li < ll <= top_m implies lane_ok(hb, b, #[trigger] big[ll], ll, -1)
                    && (ll <= h ==> stop_ok(b, big[ll], upos[ll], key)) by {
                    assert(self.lanes@[ll] == big[ll]);
                    lemma_other_lane(ha, a, hb, b, big[ll], ll, -1, li, pred);
                    if ll <= h {
                        assert(stop_ok(a, big[ll], upos[ll], key));
                    }
                }
                assert forall|ll: int| 0 <= ll < li implies lane_ok(hb, b, #[trigger] self.lanes@[ll], ll, c as int) by {
                    lemma_other_lane(ha, a, hb, b, self.lanes@[ll], ll, c as int, li, pred);
                }
                assert(same_payload(o.nodes@, b, -1)) by {
                    assert forall|t: usize| t != -1 implies {
                        &&& (#[trigger] live(o.nodes@, t) <==> live(b, t))
                        &&& live(o.nodes@, t) ==> key_at(b, t) == key_at(o.nodes@, t) && b[t as int]->Some_0.value
                            == o.nodes@[t as int]->Some_0.value && next_at(b, t).len() == next_at(o.nodes@, t).len()
                    } by {
                        if u is Some && t != u->Some_0 && t < a.len() {
                            assert(b[t as int] == a[t as int]);
                        }
                    }
                }
                if u is Some {
                    assert(b[c as int] == a[c as int]);
                    assert forall|i: int| 0 <= i < self.free@.len() implies (#[trigger] self.free@[i]) < b.len()
                        && b[self.free@[i] as int] is None by {
                        assert(a[self.free@[i] as int] is None);
                    }
                }
            }
            let ghost prev = self.lanes@;
            self.lanes = Ghost(self.lanes@.update(li, big[li].remove(upos[li] + 1)));
            proof {
                assert forall|ll: int| li < ll <= h implies #[trigger] self.lanes@[ll] == big[ll]
                    && lane_ok(self.head@, self.nodes@, big[ll], ll, -1)
                    && stop_ok(self.nodes@, big[ll], upos[ll], key) by {
                    assert(self.lanes@[ll] == prev[ll]);
                    assert(lane_ok(self.head@, self.nodes@, big[ll], ll, -1));
                }
                assert forall|ll: int| h < ll <= top_m implies #[trigger] self.lanes@[ll] == big[ll]
                    && lane_ok(self.head@, self.nodes@, big[ll], ll, -1)
                    && !big[ll].contains(c) by {
                    assert(self.lanes@[ll] == prev[ll]);
                    assert(lane_ok(self.head@, self.nodes@, big[ll], ll, -1));
                }
                assert forall|ll: int| 0 <= ll < li + 1 implies #[trigger] self.lanes@[ll] == big[ll].remove(upos[ll] + 1)
                    && lane_ok(self.head@, self.nodes@, self.lanes@[ll], ll, c as int)
                    && !self.lanes@[ll].contains(c) by {
                    if ll < li {
                        assert(self.lanes@[ll] == prev[ll]);
                        assert(lane_ok(self.head@, self.nodes@, prev[ll], ll, c as int));
                    }
                }
            }
            l = l + 1;
        }
        let ghost a = self.nodes@;
        let mut taken: Option<SkipNode<V>> = None;
        core::mem::swap(&mut self.nodes[c], &mut taken);
        proof {
            let b = self.nodes@;
            assert(b == a.update(c as int, None::<SkipNode<V>>));
            assert(!live(b, c));
            assert forall|t: usize| t != c implies (#[trigger] live(a, t) <==> live(b, t)) by {}
            assert forall|t: usize| t != c && live(a, t) implies #[trigger] b[t as int] == a[t as int] by {}
            assert forall|ll: int| 0 <= ll <= top_m implies lane_ok(self.head@, b, #[trigger] self.lanes@[ll], ll, -1) by {
                if ll <= h {
                    lemma_lane_reslot(self.head@, a, b, self.lanes@[ll], ll, c as int, -1, c);
                } else {
                    lemma_lane_reslot(self.head@, a, b, self.lanes@[ll], ll, -1, -1, c);
                }
            }
            assert(!self.free@.contains(c)) by {
                if self.free@.contains(c) {
                    let i = choose|i: int| 0 <= i < self.free@.len() && self.free@[i] == c;
                    assert(a[self.free@[i] as int] is None);
                }
            }
        }
        self.free.push(c);
        proof {
            assert forall|i: int| 0 <= i < self.free@.len() implies (#[trigger] self.free@[i]) < self.nodes@.len()
                && self.nodes@[self.free@[i] as int] is None by {
                if i < self.free@.len() - 1 {
                    assert(self.free@[i] == o.free@[i]);
                    assert(a[o.free@[i] as int] is None);
                }
            }
        }
        let ghost fin = *self;
        while self.cur_level > 0 && self.head[self.cur_level].is_none()
            invariant
                self.lanes == fin.lanes,
                self.nodes == fin.nodes,
                self.head == fin.head,
                self.free == fin.free,
                self.len == fin.len,
                self.len == o.len,
                self.max_level == fin.max_level,
                self.fraction == fin.fraction,
                self.cur_level <= o.cur_level <= top_m,
                self.head@.len() == top_m + 1,
                self.lanes@.len() == top_m + 1,
                forall|ll: int| 0 <= ll <= top_m ==> lane_ok(self.head@, self.nodes@, #[trigger] self.lanes@[ll], ll, -1),
                forall|ll: int| self.cur_level < ll <= top_m ==> (#[trigger] self.lanes@[ll]).len() == 0,
            decreases self.cur_level,
        {
            proof {
                let cl = self.cur_level as int;
                assert(lane_ok(self.head@, self.nodes@, self.lanes@[cl], cl, -1));
            }
            self.cur_level = self.cur_level - 1;
        }
        proof {
            let cl = self.cur_level as int;
            assert(lane_ok(self.head@, self.nodes@, self.lanes@[cl], cl, -1));
            assert(self.lanes@[0] == big[0].remove(upos[0] + 1));
            assert(big[0].len() == o.len);
        }
        self.len = self.len - 1;
        proof {
            let n = self.nodes@;
            assert forall|t: usize| #[trigger] live(n, t) implies 0 <= height_at(n, t) <= top_m by {
                assert(live(a, t));
                assert(live(o.nodes@, t));
            }
            let p = upos[0] + 1;
            assert(self.entries() =~= o.entries().remove(p)) by {
                assert forall|i: int| 0 <= i < self.entries().len() implies self.entries()[i] == o.entries().remove(p)[i] by {
                    let t = self.lanes@[0][i];
                    let ii = if i < p { i } else { i + 1 };
                    assert(t == big[0][ii]);
                    assert(live(o.nodes@, t));
                    assert(t != c) by {
                        assert(!self.lanes@[0].contains(c));
                    }
                }
            }
            assert(self.heights() =~= o.heights().remove(p)) by {
                assert forall|i: int| 0 <= i < self.heights().len() implies self.heights()[i] == o.heights().remove(p)[i] by {
                    let t = self.lanes@[0][i];
                    let ii = if i < p { i } else { i + 1 };
                    assert(t == big[0][ii]);
                    assert(live(o.nodes@, t));
                    assert(t != c) by {
                        assert(!self.lanes@[0].contains(c));
                    }
                }
            }
            assert(o.entries()[p].0 == key);
        }
        match taken {
            Some(n) => Some(n.value),
            None => None,
        }
    }

    /// On every level the keys met from the sentinel rise strictly; a key
    /// stands on level `l` exactly when its node's height reaches `l`, so a
    /// key on a level above 0 is on every level below it; the highest
    /// occupied level is the greatest height; and no key is stored twice.
    pub proof fn lemma_levels_ordered(&self)
        requires
            self.wf(),
        ensures
            self.entries().len() == self.heights().len(),
            self.level() <= self.ceiling(),
            forall|l: int, a: int, b: int|
                0 <= l <= self.ceiling() && 0 <= a < b < self.lane_keys(l).len() ==> #[trigger] self.lane_keys(l)[a]
                    < #[trigger] self.lane_keys(l)[b],
            forall|l: int, k: usize|
                0 <= l <= self.ceiling() ==> (#[trigger] self.lane_keys(l).contains(k) <==> exists|p: int|
                    0 <= p < self.entries().len() && self.entries()[p].0 == k && self.heights()[p] >= l),
            forall|l: int, k: usize|
                0 < l <= self.ceiling() && #[trigger] self.lane_keys(l).contains(k) ==> self.lane_keys(l - 1).contains(k),
            forall|p: int| 0 <= p < self.heights().len() ==> 0 <= #[trigger] self.heights()[p] <= self.level(),
            self.level() > 0 ==> exists|p: int| 0 <= p < self.heights().len() && #[trigger] self.heights()[p] == self.level(),
            forall|a: int, b: int| 0 <= a < b < self.entries().len() ==> #[trigger] self.entries()[a].0 < #[trigger] self.entries()[b].0,
    {
        self.lemma_level_is_max();
        let n = self.nodes@;
        let lane0 = self.lanes@[0];
        assert(lane_ok(self.head@, n, lane0, 0, -1));
        assert forall|l: int, a: int, b: int|
            0 <= l <= self.ceiling() && 0 <= a < b < self.lane_keys(l).len() implies #[trigger] self.lane_keys(l)[a]
                < #[trigger] self.lane_keys(l)[b] by {
            assert(lane_ok(self.head@, n, self.lanes@[l], l, -1));
        }
        assert forall|l: int, k: usize| 0 <= l <= self.ceiling() implies (#[trigger] self.lane_keys(l).contains(k) <==> exists|p: int|
            0 <= p < self.entries().len() && self.entries()[p].0 == k && self.heights()[p] >= l) by {
            let lane = self.lanes@[l];
            assert(lane_ok(self.head@, n, lane, l, -1));
            if self.lane_keys(l).contains(k) {
                let i = choose|i: int| 0 <= i < self.lane_keys(l).len() && self.lane_keys(l)[i] == k;
                let s = lane[i];
                assert(live(n, s));
                assert(lane0.contains(s));
                let p = choose|p: int| 0 <= p < lane0.len() && lane0[p] == s;
                assert(self.entries()[p].0 == k && self.heights()[p] >= l);
            }
            if exists|p: int| 0 <= p < self.entries().len() && self.entries()[p].0 == k && self.heights()[p] >= l {
                let p = choose|p: int| 0 <= p < self.entries().len() && self.entries()[p].0 == k && self.heights()[p] >= l;
                let s = lane0[p];
                assert(live(n, s));
                assert(lane.contains(s));
                let i = choose|i: int| 0 <= i < lane.len() && lane[i] == s;
                assert(self.lane_keys(l)[i] == k);
            }
        }
        assert forall|l: int, k: usize|
            0 < l <= self.ceiling() && #[trigger] self.lane_keys(l).contains(k) implies self.lane_keys(l - 1).contains(k) by {
            assert(self.lane_keys(l).contains(k) <==> exists|p: int|
                0 <= p < self.entries().len() && self.entries()[p].0 == k && self.heights()[p] >= l);
            assert(self.lane_keys(l - 1).contains(k) <==> exists|p: int|
                0 <= p < self.entries().len() && self.entries()[p].0 == k && self.heights()[p] >= l - 1);
        }
        assert forall|p: int| 0 <= p < self.heights().len() implies 0 <= #[trigger] self.heights()[p] <= self.level() by {
            assert(live(n, lane0[p]));
        }
        assert forall|a: int, b: int| 0 <= a < b < self.entries().len() implies #[trigger] self.entries()[a].0 < #[trigger] self.entries()[b].0 by {
            assert(key_at(n, lane0[a]) < key_at(n, lane0[b]));
        }
    }

    /// The value stored under `key`, if any.
    pub fn find(&self, key: usize) -> (r: Option<&V>)
        requires
            self.wf(),
        ensures
            r is Some ==> exists|p: int| 0 <= p < self.entries().len() && self.entries()[p] == (key, *r->Some_0),
            r is None ==> forall|p: int| 0 <= p < self.entries().len() ==> self.entries()[p].0 != key,
    {
        let (update, Ghost(upos)) = self.find_path(key);
        let ghost lane = self.lanes@[0];
        proof {
            assert(stop_ok(self.nodes@, lane, upos[0], key));
            assert(lane_ok(self.head@, self.nodes@, lane, 0, -1));
            if upos[0] >= 0 {
                assert(live(self.nodes@, lane[upos[0]]));
            }
        }
        let first = self.link(update[0], 0);
        proof {
            let q = upos[0];
            if q + 1 < lane.len() {
                if q >= 0 {
                    assert(next_at(self.nodes@, lane[q])[0] == Some(lane[q + 1]));
                }
            } else if q >= 0 {
                assert(lane.last() == lane[q]);
            }
        }
        match first {
            Some(c) => {
                proof {
                    assert(live(self.nodes@, c));
                }
                if self.key_of(c) == key {
                    match &self.nodes[c] {
                        Some(n) => {
                            proof {
                                assert(self.entries()[upos[0] + 1] == (key, n.value));
                            }
                            Some(&n.value)
                        },
                        None => None,
                    }
                } else {
                    proof {
                        let q = upos[0];
                        assert forall|p: int| 0 <= p < self.entries().len() implies self.entries()[p].0 != key by {
                            if p > q + 1 {
                                assert(key_at(self.nodes@, lane[q + 1]) < key_at(self.nodes@, lane[p]));
                            }
                        }
                    }
                    None
                }
            },
            None => None,
        }
    }

    /// Draws a height: one level more for every draw below the threshold,
    /// stopping at the first draw that is not or at the ceiling.
    pub fn random_level<S: Sampler>(&self, sampler: &mut S) -> (r: usize)
        ensures
            r <= self.ceiling(),
            self.threshold() == 0 || self.ceiling() == 0 ==> r == 0,
    {
        let mut level: usize = 0;
        loop
            invariant
                level <= self.max_level,
                self.fraction == 0 || self.max_level == 0 ==> level == 0,
            decreases self.max_level - level,
        {
            let draw = sampler.sample();
            match self.next_level(level, draw) {
                Some(n) => {
                    level = n;
                },
                None => {
                    break;
                },
            }
        }
        level
    }

    /// One step of drawing a height: a draw below the threshold raises the
    /// node from `level` to `level + 1`, unless it already stands at the
    /// ceiling; otherwise the drawing stops (`None`).
    pub fn next_level(&self, level: usize, draw: u32) -> (r: Option<usize>)
        ensures
            r == if draw < self.threshold() && level < self.ceiling() { Some((level + 1) as usize) } else { None::<usize> },
    {
        if draw < self.fraction && level < self.max_level {
            Some(level + 1)
        } else {
            None
        }
    }

    /// The height that a run of draws gives a new node: one level for each
    /// leading draw below the threshold, capped at the ceiling.
    pub fn level_for_draws(&self, draws: &Vec<u32>) -> (r: usize)
        ensures
            r == drawn_height(draws@, self.threshold(), self.ceiling()),
    {
        let mut level: usize = 0;
        let mut i: usize = 0;
        proof {
            assert(draws@.skip(0) =~= draws@);
        }
        while i < draws.len()
            invariant
                i <= draws@.len(),
                level == i,
                level <= self.max_level,
                forall|k: int| 0 <= k < i ==> draws@[k] < self.fraction,
                drawn_height(draws@, self.fraction, self.max_level as nat) == level + drawn_height(
                    draws@.skip(i as int),
                    self.fraction,
                    (self.max_level - level) as nat,
                ),
            decreases draws@.len() - i,
        {
            match self.next_level(level, draws[i]) {
                Some(n) => {
                    proof {
                        assert(draws@.skip(i as int).drop_first() =~= draws@.skip(i + 1));
                    }
                    level = n;
                    i = i + 1;
                },
                None => {
                    proof {
                        assert(draws@.skip(i as int)[0] == draws@[i as int]);
                    }
                    return level;
                },
            }
        }
        proof {
            assert(draws@.skip(i as int).len() == 0);
        }
        level
    }

    /// Stores `key` with `value` on a node whose height the sampler draws;
    /// nothing is drawn and nothing changes when the key is already stored.
    pub fn insert_with<S: Sampler>(&mut self, key: usize, value: V, sampler: &mut S) -> (r: Result<(), SkipListError>)
        requires
            old(self).wf(),
            old(self).entries().len() < usize::MAX,
        ensures
            final(self).wf(),
            final(self).ceiling() == old(self).ceiling(),
            final(self).threshold() == old(self).threshold(),
            (exists|p: int| 0 <= p < old(self).entries().len() && old(self).entries()[p].0 == key) ==> r == Err::<(), SkipListError>(
                SkipListError::KeyExists,
            ) && *final(self) == *old(self),
            !(exists|p: int| 0 <= p < old(self).entries().len() && old(self).entries()[p].0 == key) ==> r is Ok
                && exists|p: int, h: int| 0 <= p <= old(self).entries().len() && 0 <= h <= old(self).ceiling()
                    && final(self).entries() == old(self).entries().insert(p, (key, value))
                    && final(self).heights() == old(self).heights().insert(p, h)
                    && final(self).level() == if h > old(self).level() { h as nat } else { old(self).level() },
    {
        if self.find(key).is_some() {
            return Err(SkipListError::KeyExists);
        }
        let level = self.random_level(sampler);
        self.insert_at_level(key, value, level)
    }

    /// Stores `key` with `value` on a node of random height drawn from the
    /// thread-local generator; an existing key is kept and reported.
    pub fn insert(&mut self, key: usize, value: V) -> (r: Result<(), SkipListError>)
        requires
            old(self).wf(),
            old(self).entries().len() < usize::MAX,
        ensures
            final(self).wf(),
            final(self).ceiling() == old(self).ceiling(),
            final(self).threshold() == old(self).threshold(),
            (exists|p: int| 0 <= p < old(self).entries().len() && old(self).entries()[p].0 == key) ==> r == Err::<(), SkipListError>(
                SkipListError::KeyExists,
            ) && *final(self) == *old(self),
            !(exists|p: int| 0 <= p < old(self).entries().len() && old(self).entries()[p].0 == key) ==> r is Ok
                && exists|p: int, h: int| 0 <= p <= old(self).entries().len() && 0 <= h <= old(self).ceiling()
                    && final(self).entries() == old(self).entries().insert(p, (key, value))
                    && final(self).heights() == old(self).heights().insert(p, h)
                    && final(self).level() == if h > old(self).level() { h as nat } else { old(self).level() },
    {
        let mut sampler = ThreadSampler {};
        self.insert_with(key, value, &mut sampler)
    }

    /// The keys met walking level `l` from the sentinel.
    pub fn level_keys(&self, l: usize) -> (r: Vec<usize>)
        requires
            self.wf(),
            l <= self.ceiling(),
        ensures
            r@ == self.lane_keys(l as int),
    {
        let ghost lane = self.lanes@[l as int];
        proof {
            assert(lane_ok(self.head@, self.nodes@, lane, l as int, -1));
        }
        let mut out: Vec<usize> = Vec::new();
        let mut cur = self.head[l];
        let ghost mut i: int = 0;
        while cur.is_some()
            invariant
                self.wf(),
                l <= self.max_level,
                lane == self.lanes@[l as int],
                lane_ok(self.head@, self.nodes@, lane, l as int, -1),
                0 <= i <= lane.len(),
                cur == if i < lane.len() { Some(lane[i]) } else { None::<usize> },
                out@ == self.lane_keys(l as int).take(i),
            decreases lane.len() - i,
        {
            let s = cur.unwrap();
            proof {
                assert(live(self.nodes@, lane[i]));
                if i + 1 >= lane.len() {
                    assert(lane.last() == lane[i]);
                }
            }
            out.push(self.key_of(s));
            cur = self.link(Some(s), l);
            proof {
                assert(self.lane_keys(l as int).take(i + 1) =~= self.lane_keys(l as int).take(i).push(key_at(self.nodes@, lane[i])));
                i = i + 1;
            }
        }
        assert(self.lane_keys(l as int).take(i) =~= self.lane_keys(l as int));
        out
    }

    /// The number of non-null forward links, the sentinel's included: one
    /// per node on each lane it stands on, capped at `usize::MAX`.
    pub fn node_ptrs(&self) -> (r: usize)
        requires
            self.wf(),
        ensures
            r == if links_total(self, self.level() as int + 1) <= usize::MAX { links_total(self, self.level() as int + 1) } else { usize::MAX as nat },
    {
        let mut total: usize = 0;
        let mut l: usize = 0;
        while l <= self.cur_level
            invariant
                self.wf(),
                l <= self.cur_level + 1,
                total == if links_total(self, l as int) <= usize::MAX { links_total(self, l as int) } else { usize::MAX as nat },
            decreases self.cur_level + 1 - l,
        {
            let c = self.level_keys(l).len();
            proof {
                assert(links_total(self, l + 1) == links_total(self, l as int) + self.lane_keys(l as int).len());
            }
            total = total.saturating_add(c);
            l = l + 1;
        }
        total
    }

    /// A cursor over the stored pairs in increasing key order.
    pub fn iter(&self) -> (r: Iter<'_, V>)
        requires
            self.wf(),
        ensures
            r.wf(),
            r.items() == self.entries(),
            r.position() == 0,
    {
        proof {
            assert(lane_ok(self.head@, self.nodes@, self.lanes@[0], 0, -1));
        }
        Iter { list: self, cur: self.head[0], pos: Ghost(0) }
    }

    fn link(&self, from: Option<usize>, l: usize) -> (r: Option<usize>)
        requires
            l < self.head@.len(),
            from is Some ==> live(self.nodes@, from->Some_0) && height_at(self.nodes@, from->Some_0) >= l,
        ensures
            from is None ==> r == self.head@[l as int],
            from is Some ==> r == next_at(self.nodes@, from->Some_0)[l as int],
    {
        match from {
            None => self.head[l],
            Some(s) => match &self.nodes[s] {
                Some(n) => n.next[l],
                None => None,
            },
        }
    }

    fn key_of(&self, s: usize) -> (r: usize)
        requires
            live(self.nodes@, s),
        ensures
            r == key_at(self.nodes@, s),
    {
        match &self.nodes[s] {
            Some(n) => n.key,
            None => 0,
        }
    }

    /// Walks from the highest occupied lane down to lane 0, stopping on each
    /// lane after the last key below `key`; returns each lane's stopping node
    /// (`None` for the sentinel).
    fn find_path(&self, key: usize) -> (r: (Vec<Option<usize>>, Ghost<Seq<int>>))
        requires
            self.wf(),
        ensures
            r.0@.len() == self.cur_level + 1,
            r.1@.len() == self.cur_level + 1,
            forall|l: int| 0 <= l <= self.cur_level ==> stop_ok(self.nodes@, self.lanes@[l], #[trigger] r.1@[l], key)
                && r.0@[l] == slot_of(self.lanes@[l], r.1@[l]),
    {
        let top = self.cur_level;
        let mut update: Vec<Option<usize>> = Vec::new();
        let mut i: usize = 0;
        while i <= top
            invariant
                top == self.cur_level <= self.max_level < usize::MAX,
                update@.len() == i,
                i <= top + 1,
            decreases top + 1 - i,
        {
            update.push(None);
            i = i + 1;
        }
        let ghost mut upos: Seq<int> = Seq::new((top + 1) as nat, |l: int| -1int);
        let mut cur: Option<usize> = None;
        let ghost mut q: int = -1;
        let mut lvl: usize = top;
        loop
            invariant
                self.wf(),
                top == self.cur_level,
                lvl <= top,
                update@.len() == top + 1,
                upos.len() == top + 1,
                -1 <= q < self.lanes@[lvl as int].len(),
                cur == slot_of(self.lanes@[lvl as int], q),
                forall|p: int| 0 <= p <= q ==> key_at(self.nodes@, #[trigger] self.lanes@[lvl as int][p]) < key,
                forall|l: int| lvl < l <= top ==> stop_ok(self.nodes@, self.lanes@[l], #[trigger] upos[l], key)
                    && update@[l] == slot_of(self.lanes@[l], upos[l]),
            ensures
                update@.len() == top + 1,
                upos.len() == top + 1,
                forall|l: int| 0 <= l <= top ==> stop_ok(self.nodes@, self.lanes@[l], #[trigger] upos[l], key)
                    && update@[l] == slot_of(self.lanes@[l], upos[l]),
            decreases lvl,
        {
            let ghost lane = self.lanes@[lvl as int];
            assert(lane_ok(self.head@, self.nodes@, lane, lvl as int, -1));
            loop
                invariant
                    self.wf(),
                    top == self.cur_level,
                    lvl <= top,
                    lane == self.lanes@[lvl as int],
                    lane_ok(self.head@, self.nodes@, lane, lvl as int, -1),
                    -1 <= q < lane.len(),
                    cur == slot_of(lane, q),
                    forall|p: int| 0 <= p <= q ==> key_at(self.nodes@, #[trigger] lane[p]) < key,
                ensures
                    -1 <= q < lane.len(),
                    cur == slot_of(lane, q),
                    forall|p: int| 0 <= p <= q ==> key_at(self.nodes@, #[trigger] lane[p]) < key,
                    q + 1 < lane.len() ==> key_at(self.nodes@, lane[q + 1]) >= key,
                decreases lane.len() - q,
            {
                proof {
                    if q >= 0 {
                        assert(live(self.nodes@, lane[q]));
                    }
                }
                let nxt = self.link(cur, lvl);
                match nxt {
                    Some(n) => {
                        proof {
                            if q >= 0 && q + 1 >= lane.len() {
                                assert(lane.last() == lane[q]);
                            }
                        }
                        assert(q + 1 < lane.len() && n == lane[q + 1]);
                        assert(live(self.nodes@, lane[q + 1]));
                        if self.key_of(n) < key {
                            cur = Some(n);
                            proof {
                                q = q + 1;
                            }
                        } else {
                            break;
                        }
                    },
                    None => {
                        proof {
                            if q + 1 < lane.len() {
                                if q >= 0 {
                                    assert(next_at(self.nodes@, lane[q])[lvl as int] == Some(lane[q + 1]));
                                }
                            }
                        }
                        break;
                    },
                }
            }
            update.set(lvl, cur);
            proof {
                upos = upos.update(lvl as int, q);
            }
            if lvl == 0 {
                break;
            }
            proof {
                let nl = lvl - 1;
                let lower = self.lanes@[nl];
                assert(lane_ok(self.head@, self.nodes@, lower, nl, -1));
                if q >= 0 {
                    let s = lane[q];
                    assert(live(self.nodes@, s) && height_at(self.nodes@, s) >= lvl);
                    assert(lower.contains(s));
                    let q2 = choose|p: int| 0 <= p < lower.len() && lower[p] == s;
                    assert forall|p: int| 0 <= p <= q2 implies key_at(self.nodes@, #[trigger] lower[p]) < key by {
                        if p < q2 {
                            assert(key_at(self.nodes@, lower[p]) < key_at(self.nodes@, lower[q2]));
                        }
                    }
                    q = q2;
                }
            }
            lvl = lvl - 1;
        }
        (update, Ghost(upos))
    }
}

/// Inserting after every smaller key into a strictly increasing sequence can
/// only append.
proof fn lemma_append_only<V>(s: Seq<(usize, V)>, e: (usize, V), p: int)
    requires
        0 <= p <= s.len(),
        forall|i: int| 0 <= i < s.len() ==> #[trigger] s[i].0 < e.0,
        forall|a: int, b: int| 0 <= a < b < s.len() + 1 ==> #[trigger] s.insert(p, e)[a].0 < #[trigger] s.insert(p, e)[b].0,
    ensures
        p == s.len(),
{
    if p < s.len() {
        let n = s.insert(p, e);
        assert(n[p] == e && n[p + 1] == s[p]);
        assert(n[p].0 < n[p + 1].0);
    }
}

/// Two lists with the same heights have the same highest occupied level.
proof fn lemma_same_level<V>(a: &SkipList<V>, b: &SkipList<V>)
    requires
        a.wf(),
        b.wf(),
        a.heights() == b.heights(),
    ensures
        a.level() == b.level(),
{
    a.lemma_level_is_max();
    b.lemma_level_is_max();
    if a.level() > 0 {
        let p = choose|p: int| 0 <= p < a.heights().len() && a.heights()[p] == a.level();
        assert(b.heights()[p] <= b.level());
    }
    if b.level() > 0 {
        let p = choose|p: int| 0 <= p < b.heights().len() && b.heights()[p] == b.level();
        assert(a.heights()[p] <= a.level());
    }
}

impl<V: Copy> SkipList<V> {
    /// An independent copy: same pairs, same node heights, same threshold and ceiling.
    pub fn clone(&self) -> (r: Self)
        requires
            self.wf(),
        ensures
            r.wf(),
            r.entries() == self.entries(),
            r.heights() == self.heights(),
            r.level() == self.level(),
            r.ceiling() == self.ceiling(),
            r.threshold() == self.threshold(),
    {
        let mut r = Self::new(self.fraction, self.max_level);
        let ghost lane = self.lanes@[0];
        proof {
            assert(lane_ok(self.head@, self.nodes@, lane, 0, -1));
            self.lemma_levels_ordered();
        }
        let mut cur = self.head[0];
        let ghost mut i: int = 0;
        while cur.is_some()
            invariant
                self.wf(),
                lane == self.lanes@[0],
                lane_ok(self.head@, self.nodes@, lane, 0, -1),
                forall|a: int, b: int| 0 <= a < b < self.entries().len() ==> #[trigger] self.entries()[a].0 < #[trigger] self.entries()[b].0,
                0 <= i <= lane.len(),
                cur == if i < lane.len() { Some(lane[i]) } else { None::<usize> },
                r.wf(),
                r.ceiling() == self.ceiling(),
                r.threshold() == self.threshold(),
                r.entries() == self.entries().take(i),
                r.heights() == self.heights().take(i),
            decreases lane.len() - i,
        {
            let s = cur.unwrap();
            proof {
                assert(live(self.nodes@, lane[i]));
                if i + 1 >= lane.len() {
                    assert(lane.last() == lane[i]);
                }
            }
            let n: &SkipNode<V> = self.nodes[s].as_ref().unwrap();
            let (key, value, h, nx) = (n.key, n.value, n.next.len() - 1, n.next[0]);
            let ghost before = r;
            proof {
                assert(self.entries()[i] == (key, value));
                assert(self.heights()[i] == h);
                assert(!(exists|p: int| 0 <= p < before.entries().len() && before.entries()[p].0 == key)) by {
                    if exists|p: int| 0 <= p < before.entries().len() && before.entries()[p].0 == key {
                        let p = choose|p: int| 0 <= p < before.entries().len() && before.entries()[p].0 == key;
                        assert(self.entries()[p].0 < self.entries()[i].0);
                    }
                }
            }
            let _ = r.insert_at_level(key, value, h);
            proof {
                r.lemma_levels_ordered();
                let p = choose|p: int| 0 <= p <= before.entries().len()
                    && r.entries() == before.entries().insert(p, (key, value))
                    && r.heights() == before.heights().insert(p, h as int);
                assert forall|j: int| 0 <= j < before.entries().len() implies #[trigger] before.entries()[j].0 < key by {
                    assert(self.entries()[j].0 < self.entries()[i].0);
                }
                lemma_append_only(before.entries(), (key, value), p);
                assert(r.entries() =~= self.entries().take(i + 1));
                assert(r.heights() =~= self.heights().take(i + 1));
                i = i + 1;
            }
            cur = nx;
        }
        proof {
            assert(self.entries().take(i) =~= self.entries());
            assert(self.heights().take(i) =~= self.heights());
            lemma_same_level(&r, self);
        }
        r
    }
}

/// A copy of a copy shows the same pairs, heights, level, threshold and
/// ceiling as the first copy.
pub proof fn lemma_clone_twice<V>(m: &SkipList<V>, c: &SkipList<V>, cc: &SkipList<V>)
    requires
        c.entries() == m.entries() && c.heights() == m.heights() && c.level() == m.level()
            && c.ceiling() == m.ceiling() && c.threshold() == m.threshold(),
        cc.entries() == c.entries() && cc.heights() == c.heights() && cc.level() == c.level()
            && cc.ceiling() == c.ceiling() && cc.threshold() == c.threshold(),
    ensures
        cc.entries() == c.entries(),
        cc.heights() == c.heights(),
        cc.level() == c.level(),
        cc.ceiling() == c.ceiling(),
        cc.threshold() == c.threshold(),
{
}

impl<V> Default for SkipList<V> {
    fn default() -> (r: Self)
        ensures
            r.wf(),
            r.entries() == Seq::<(usize, V)>::empty(),
            r.level() == 0,
            r.ceiling() == MAX_LEVEL,
            r.threshold() == HALF,
    {
        Self::new(HALF, MAX_LEVEL)
    }
}

/// The height a run of draws gives a new node: one level for each leading
/// draw below `threshold`, never more than `ceiling`.
pub open spec fn drawn_height(draws: Seq<u32>, threshold: u32, ceiling: nat) -> nat
    decreases draws.len(),
{
    if ceiling == 0 || draws.len() == 0 || draws[0] >= threshold {
        0
    } else {
        1 + drawn_height(draws.drop_first(), threshold, (ceiling - 1) as nat)
    }
}

/// Number of nodes over lanes `0..n`.
pub open spec fn links_total<V>(l: &SkipList<V>, n: int) -> nat
    decreases n,
{
    if n <= 0 {
        0
    } else {
        links_total(l, n - 1) + l.lane_keys(n - 1).len()
    }
}

/// A cursor along level 0 that lends out each stored pair in key order.
pub struct Iter<'a, V> {
    list: &'a SkipList<V>,
    cur: Option<usize>,
    pos: Ghost<int>,
}

impl<'a, V> Iter<'a, V> {
    pub closed spec fn wf(&self) -> bool {
        &&& self.list.wf()
        &&& 0 <= self.pos@ <= self.list.lanes@[0].len()
        &&& self.cur == if self.pos@ < self.list.lanes@[0].len() { Some(self.list.lanes@[0][self.pos@]) } else { None::<usize> }
    }

    /// Every pair the cursor walks over, in order.
    pub closed spec fn items(&self) -> Seq<(usize, V)> {
        self.list.entries()
    }

    /// How many pairs have been handed out.
    pub closed spec fn position(&self) -> int {
        self.pos@
    }

    pub fn next(&mut self) -> (r: Option<(usize, &'a V)>)
        requires
            old(self).wf(),
        ensures
            final(self).wf(),
            final(self).items() == old(self).items(),
            old(self).position() < old(self).items().len() ==> r is Some && r->Some_0.0 == old(self).items()[old(self).position()].0
                && *r->Some_0.1 == old(self).items()[old(self).position()].1 && final(self).position() == old(self).position() + 1,
            old(self).position() >= old(self).items().len() ==> r is None && final(self).position() == old(self).position(),
    {
        let list: &'a SkipList<V> = self.list;
        let ghost lane = list.lanes@[0];
        proof {
            assert(lane_ok(list.head@, list.nodes@, lane, 0, -1));
        }
        match self.cur {
            None => None,
            Some(s) => {
                proof {
                    assert(live(list.nodes@, lane[self.pos@]));
                    if self.pos@ + 1 >= lane.len() {
                        assert(lane.last() == lane[self.pos@]);
                    }
                }
                match &list.nodes[s] {
                    Some(n) => {
                        self.cur = n.next[0];
                        self.pos = Ghost(self.pos@ + 1);
                        Some((n.key, &n.value))
                    },
                    None => None,
                }
            },
        }
    }
}

} // verus!
