use vstd::prelude::*;

use crate::name_type::NameType;
use crate::node_interface::Interface;

verus! {

/// How a repeated refresh payload for one key is recognised.
#[derive(Clone, Copy, Debug, PartialEq, Eq, Structural)]
pub enum DedupPolicy {
    /// A second payload from a sender already seen is ignored.
    BySender,
    /// A payload equal to one already held is ignored.
    ByPayload,
}

/// A refresh key: type tag and originating group.
pub type RefreshKey = (u64, Seq<u8>);

/// What a bucket holds: one sender and one payload per accepted message, in
/// order of arrival, and the time of the last accepted message.
pub struct BucketModel {
    pub senders: Seq<Seq<u8>>,
    pub payloads: Seq<Seq<u8>>,
    pub last_update: u64,
}

pub open spec fn is_duplicate(
    b: BucketModel,
    policy: DedupPolicy,
    sender: Seq<u8>,
    payload: Seq<u8>,
) -> bool {
    match policy {
        DedupPolicy::BySender => b.senders.contains(sender),
        DedupPolicy::ByPayload => b.payloads.contains(payload),
    }
}

/// The bucket after a message arrives: a new bucket for a new key, the same
/// bucket for a duplicate, else the message appended.
pub open spec fn accept(
    prev: Option<BucketModel>,
    policy: DedupPolicy,
    sender: Seq<u8>,
    payload: Seq<u8>,
    now: u64,
) -> BucketModel {
    match prev {
        None => BucketModel { senders: seq![sender], payloads: seq![payload], last_update: now },
        Some(b) => if is_duplicate(b, policy, sender, payload) {
            b
        } else {
            BucketModel {
                senders: b.senders.push(sender),
                payloads: b.payloads.push(payload),
                last_update: now,
            }
        },
    }
}

pub open spec fn lookup(
    m: Map<RefreshKey, BucketModel>,
    key: RefreshKey,
) -> Option<BucketModel> {
    if m.contains_key(key) {
        Some(m[key])
    } else {
        None
    }
}

/// The buckets and the delivered payloads after one message arrives: once a
/// bucket counts `quorum` accepted messages its payloads are delivered and the
/// bucket is removed.
pub open spec fn after_add(
    m: Map<RefreshKey, BucketModel>,
    quorum: usize,
    policy: DedupPolicy,
    key: RefreshKey,
    sender: Seq<u8>,
    payload: Seq<u8>,
    now: u64,
) -> (Map<RefreshKey, BucketModel>, Option<Seq<Seq<u8>>>) {
    let b = accept(lookup(m, key), policy, sender, payload, now);
    if b.senders.len() >= quorum {
        (m.remove(key), Some(b.payloads))
    } else {
        (m.insert(key, b), None)
    }
}

/// A bucket is stale when more than `window` time units passed since its last
/// accepted message.
pub open spec fn is_stale(b: BucketModel, now: u64, window: u64) -> bool {
    now > b.last_update && now - b.last_update > window
}

/// The buckets that are not stale at `now`.
pub open spec fn fresh_part(
    m: Map<RefreshKey, BucketModel>,
    now: u64,
    window: u64,
) -> Map<RefreshKey, BucketModel> {
    Map::new(|k: RefreshKey| m.contains_key(k) && !is_stale(m[k], now, window), |k: RefreshKey| m[k])
}

pub open spec fn delivered(r: Option<Vec<Vec<u8>>>) -> Option<Seq<Seq<u8>>> {
    match r {
        Some(v) => Some(v@.map_values(|p: Vec<u8>| p@)),
        None => None,
    }
}

pub fn bytes_equal(a: &Vec<u8>, b: &Vec<u8>) -> (r: bool)
    ensures
        r == (a@ == b@),
{
    if a.len() != b.len() {
        return false;
    }
    let mut i: usize = 0;
    while i < a.len()
        invariant
            a@.len() == b@.len(),
            0 <= i <= a@.len(),
            forall|j: int| 0 <= j < i ==> a@[j] == b@[j],
        decreases a@.len() - i,
    {
        if a[i] != b[i] {
            return false;
        }
        i = i + 1;
    }
    assert(a@ =~= b@);
    true
}

struct RefreshBucket {
    type_tag: u64,
    from_group: NameType,
    senders: Vec<NameType>,
    payloads: Vec<Vec<u8>>,
    last_update: u64,
}

impl RefreshBucket {
    spec fn key(&self) -> RefreshKey {
        (self.type_tag, self.from_group@)
    }

    spec fn model(&self) -> BucketModel {
        BucketModel {
            senders: self.senders@.map_values(|n: NameType| n@),
            payloads: self.payloads@.map_values(|p: Vec<u8>| p@),
            last_update: self.last_update,
        }
    }

    spec fn sized_below(&self, quorum: usize) -> bool {
        &&& self.senders@.len() == self.payloads@.len()
        &&& self.senders@.len() < quorum
    }

    fn holds_duplicate(&self, policy: DedupPolicy, sender: &NameType, payload: &Vec<u8>) -> (r:
        bool)
        ensures
            r == is_duplicate(self.model(), policy, sender@, payload@),
    {
        let ghost m = self.model();
        match policy {
            DedupPolicy::BySender => {
                let mut j: usize = 0;
                while j < self.senders.len()
                    invariant
                        0 <= j <= self.senders@.len(),
                        m == self.model(),
                        policy == DedupPolicy::BySender,
                        forall|i: int| 0 <= i < j ==> m.senders[i] != sender@,
                    decreases self.senders@.len() - j,
                {
                    if self.senders[j].same_as(sender) {
                        assert(m.senders[j as int] == sender@);
                        assert(m.senders.contains(sender@));
                        return true;
                    }
                    j = j + 1;
                }
                assert(!m.senders.contains(sender@));
                false
            },
            DedupPolicy::ByPayload => {
                let mut j: usize = 0;
                while j < self.payloads.len()
                    invariant
                        0 <= j <= self.payloads@.len(),
                        m == self.model(),
                        policy == DedupPolicy::ByPayload,
                        forall|i: int| 0 <= i < j ==> m.payloads[i] != payload@,
                    decreases self.payloads@.len() - j,
                {
                    if bytes_equal(&self.payloads[j], payload) {
                        assert(m.payloads[j as int] == payload@);
                        assert(m.payloads.contains(payload@));
                        return true;
                    }
                    j = j + 1;
                }
                assert(!m.payloads.contains(payload@));
                false
            },
        }
    }
}

spec fn unique_keys(s: Seq<RefreshBucket>) -> bool {
    forall|i: int, j: int|
        0 <= i < s.len() && 0 <= j < s.len() && #[trigger] s[i].key() == #[trigger] s[j].key()
            ==> i == j
}

spec fn has_key(s: Seq<RefreshBucket>, k: RefreshKey) -> bool {
    exists|i: int| 0 <= i < s.len() && #[trigger] s[i].key() == k
}

spec fn bucket_map(s: Seq<RefreshBucket>) -> Map<RefreshKey, BucketModel> {
    Map::new(
        |k: RefreshKey| has_key(s, k),
        |k: RefreshKey| s[choose|i: int| 0 <= i < s.len() && #[trigger] s[i].key() == k].model(),
    )
}

proof fn lemma_lookup(s: Seq<RefreshBucket>, i: int)
    requires
        unique_keys(s),
        0 <= i < s.len(),
    ensures
        bucket_map(s).contains_key(s[i].key()),
        bucket_map(s)[s[i].key()] == s[i].model(),
{
    let k = s[i].key();
    assert(has_key(s, k));
    let j = choose|j: int| 0 <= j < s.len() && #[trigger] s[j].key() == k;
    assert(s[j].key() == s[i].key());
}

proof fn lemma_push_unique(s: Seq<RefreshBucket>, b: RefreshBucket)
    requires
        unique_keys(s),
        !has_key(s, b.key()),
    ensures
        unique_keys(s.push(b)),
{
    let t = s.push(b);
    assert forall|i: int, j: int|
        0 <= i < t.len() && 0 <= j < t.len() && #[trigger] t[i].key() == #[trigger] t[j].key()
        implies i == j by {
        if i < s.len() && j < s.len() {
            assert(s[i].key() == s[j].key());
        } else if i < s.len() {
            assert(s[i].key() == b.key());
        } else if j < s.len() {
            assert(s[j].key() == b.key());
        }
    }
}

proof fn lemma_push(s: Seq<RefreshBucket>, b: RefreshBucket)
    requires
        unique_keys(s),
        !has_key(s, b.key()),
    ensures
        unique_keys(s.push(b)),
        bucket_map(s.push(b)) == bucket_map(s).insert(b.key(), b.model()),
{
    let t = s.push(b);
    lemma_push_unique(s, b);
    assert forall|k: RefreshKey| #[trigger] has_key(t, k) == (has_key(s, k) || k == b.key()) by {
        if has_key(s, k) {
            let i = choose|i: int| 0 <= i < s.len() && #[trigger] s[i].key() == k;
            assert(t[i].key() == k);
        }
        if k == b.key() {
            assert(t[s.len() as int].key() == k);
        }
        if has_key(t, k) {
            let i = choose|i: int| 0 <= i < t.len() && #[trigger] t[i].key() == k;
            if i < s.len() {
                assert(s[i].key() == k);
            }
        }
    }
    let m1 = bucket_map(t);
    let m2 = bucket_map(s).insert(b.key(), b.model());
    assert forall|k: RefreshKey| m1.contains_key(k) implies m1[k] == m2[k] by {
        if k == b.key() {
            lemma_lookup(t, s.len() as int);
        } else {
            let i = choose|i: int| 0 <= i < s.len() && #[trigger] s[i].key() == k;
            lemma_lookup(s, i);
            lemma_lookup(t, i);
        }
    }
    assert(m1 =~= m2);
}

proof fn lemma_remove(s: Seq<RefreshBucket>, i: int)
    requires
        unique_keys(s),
        0 <= i < s.len(),
    ensures
        unique_keys(s.remove(i)),
        !has_key(s.remove(i), s[i].key()),
        bucket_map(s.remove(i)) == bucket_map(s).remove(s[i].key()),
{
    let t = s.remove(i);
    let key = s[i].key();
    assert forall|a: int| 0 <= a < t.len() implies #[trigger] t[a] == s[if a < i {
        a
    } else {
        a + 1
    }] by {}
    assert forall|a: int, c: int|
        0 <= a < t.len() && 0 <= c < t.len() && #[trigger] t[a].key() == #[trigger] t[c].key()
        implies a == c by {
        let a1 = if a < i {
            a
        } else {
            a + 1
        };
        let c1 = if c < i {
            c
        } else {
            c + 1
        };
        assert(t[a] == s[a1]);
        assert(t[c] == s[c1]);
        assert(s[a1].key() == s[c1].key());
    }
    assert forall|k: RefreshKey| #[trigger] has_key(t, k) == (has_key(s, k) && k != key) by {
        if has_key(t, k) {
            let a = choose|a: int| 0 <= a < t.len() && #[trigger] t[a].key() == k;
            let a1 = if a < i {
                a
            } else {
                a + 1
            };
            assert(t[a] == s[a1]);
            assert(s[a1].key() == k);
            if k == key {
                assert(s[i].key() == s[a1].key());
            }
        }
        if has_key(s, k) && k != key {
            let a = choose|a: int| 0 <= a < s.len() && #[trigger] s[a].key() == k;
            assert(a != i);
            let a0 = if a < i {
                a
            } else {
                a - 1
            };
            assert(t[a0] == s[a]);
            assert(t[a0].key() == k);
        }
    }
    let m1 = bucket_map(t);
    let m2 = bucket_map(s).remove(key);
    assert forall|k: RefreshKey| m1.contains_key(k) implies m1[k] == m2[k] by {
        let a = choose|a: int| 0 <= a < t.len() && #[trigger] t[a].key() == k;
        let a1 = if a < i {
            a
        } else {
            a + 1
        };
        assert(t[a] == s[a1]);
        lemma_lookup(t, a);
        lemma_lookup(s, a1);
    }
    assert(m1 =~= m2);
}

/// `b` is a bucket of `orig`, at index `r` or later, that is not stale.
spec fn fresh_from(orig: Seq<RefreshBucket>, r: int, b: RefreshBucket, now: u64, w: u64) -> bool {
    exists|a: int| r <= a < orig.len() && #[trigger] orig[a] == b && !is_stale(b.model(), now, w)
}

spec fn holds_bucket(kept: Seq<RefreshBucket>, b: RefreshBucket) -> bool {
    exists|j: int| 0 <= j < kept.len() && #[trigger] kept[j] == b
}

/// `kept` holds exactly the buckets of `orig` from index `r` on that are not
/// stale.
spec fn tracks(
    orig: Seq<RefreshBucket>,
    r: int,
    kept: Seq<RefreshBucket>,
    now: u64,
    w: u64,
) -> bool {
    &&& forall|j: int| 0 <= j < kept.len() ==> fresh_from(orig, r, #[trigger] kept[j], now, w)
    &&& forall|a: int|
        r <= a < orig.len() && !is_stale(orig[a].model(), now, w) ==> holds_bucket(
            kept,
            #[trigger] orig[a],
        )
}

proof fn lemma_keep_step(orig: Seq<RefreshBucket>, n: int, k0: Seq<RefreshBucket>, now: u64, w: u64)
    requires
        unique_keys(orig),
        unique_keys(k0),
        1 <= n <= orig.len(),
        tracks(orig, n, k0, now, w),
        !is_stale(orig[n - 1].model(), now, w),
    ensures
        unique_keys(k0.push(orig[n - 1])),
        tracks(orig, n - 1, k0.push(orig[n - 1]), now, w),
{
    let b = orig[n - 1];
    let kept = k0.push(b);
    assert forall|j: int| 0 <= j < k0.len() implies #[trigger] k0[j].key() != b.key() by {
        assert(fresh_from(orig, n, k0[j], now, w));
        let a = choose|a: int|
            n <= a < orig.len() && #[trigger] orig[a] == k0[j] && !is_stale(k0[j].model(), now, w);
        if orig[a].key() == orig[n - 1].key() {
            assert(a == n - 1);
        }
    }
    if has_key(k0, b.key()) {
        let j = choose|j: int| 0 <= j < k0.len() && #[trigger] k0[j].key() == b.key();
        assert(k0[j].key() != b.key());
    }
    lemma_push_unique(k0, b);
    assert forall|j: int| 0 <= j < kept.len() implies fresh_from(
        orig,
        n - 1,
        #[trigger] kept[j],
        now,
        w,
    ) by {
        if j == k0.len() {
            assert(orig[n - 1] == kept[j]);
        } else {
            assert(kept[j] == k0[j]);
            assert(fresh_from(orig, n, k0[j], now, w));
            let a = choose|a: int|
                n <= a < orig.len() && #[trigger] orig[a] == k0[j] && !is_stale(
                    k0[j].model(),
                    now,
                    w,
                );
            assert(orig[a] == kept[j]);
        }
    }
    assert forall|a: int|
        n - 1 <= a < orig.len() && !is_stale(orig[a].model(), now, w) implies holds_bucket(
        kept,
        #[trigger] orig[a],
    ) by {
        if a == n - 1 {
            assert(kept[k0.len() as int] == orig[a]);
        } else {
            assert(holds_bucket(k0, orig[a]));
            let j = choose|j: int| 0 <= j < k0.len() && #[trigger] k0[j] == orig[a];
            assert(kept[j] == orig[a]);
        }
    }
}

proof fn lemma_skip_step(orig: Seq<RefreshBucket>, n: int, k0: Seq<RefreshBucket>, now: u64, w: u64)
    requires
        1 <= n <= orig.len(),
        tracks(orig, n, k0, now, w),
        is_stale(orig[n - 1].model(), now, w),
    ensures
        tracks(orig, n - 1, k0, now, w),
{
    assert forall|j: int| 0 <= j < k0.len() implies fresh_from(
        orig,
        n - 1,
        #[trigger] k0[j],
        now,
        w,
    ) by {
        assert(fresh_from(orig, n, k0[j], now, w));
        let a = choose|a: int|
            n <= a < orig.len() && #[trigger] orig[a] == k0[j] && !is_stale(k0[j].model(), now, w);
        assert(orig[a] == k0[j]);
    }
}

proof fn lemma_tracked_map(orig: Seq<RefreshBucket>, kept: Seq<RefreshBucket>, now: u64, w: u64)
    requires
        unique_keys(orig),
        unique_keys(kept),
        tracks(orig, 0, kept, now, w),
    ensures
        bucket_map(kept) == fresh_part(bucket_map(orig), now, w),
{
    let m0 = bucket_map(orig);
    let m1 = bucket_map(kept);
    let f = fresh_part(m0, now, w);
    assert forall|k: RefreshKey| m1.contains_key(k) implies f.contains_key(k) && m1[k] == f[k] by {
        let j = choose|j: int| 0 <= j < kept.len() && #[trigger] kept[j].key() == k;
        assert(fresh_from(orig, 0, kept[j], now, w));
        let a = choose|a: int|
            0 <= a < orig.len() && #[trigger] orig[a] == kept[j] && !is_stale(
                kept[j].model(),
                now,
                w,
            );
        lemma_lookup(orig, a);
        lemma_lookup(kept, j);
    }
    assert forall|k: RefreshKey| f.contains_key(k) implies m1.contains_key(k) by {
        let a = choose|a: int| 0 <= a < orig.len() && #[trigger] orig[a].key() == k;
        lemma_lookup(orig, a);
        assert(!is_stale(orig[a].model(), now, w));
        assert(holds_bucket(kept, orig[a]));
        let j = choose|j: int| 0 <= j < kept.len() && #[trigger] kept[j] == orig[a];
        assert(kept[j].key() == k);
    }
    assert(m1 =~= f);
}

/// Collects refresh payloads per (type tag, originating group) until a quorum
/// of distinct messages is seen, then hands them out once.
pub struct RefreshAggregator {
    quorum: usize,
    staleness: u64,
    policy: DedupPolicy,
    buckets: Vec<RefreshBucket>,
}

impl View for RefreshAggregator {
    type V = Map<RefreshKey, BucketModel>;

    closed spec fn view(&self) -> Map<RefreshKey, BucketModel> {
        bucket_map(self.buckets@)
    }
}

impl RefreshAggregator {
    pub closed spec fn spec_quorum(&self) -> usize {
        self.quorum
    }

    pub closed spec fn spec_staleness(&self) -> u64 {
        self.staleness
    }

    pub closed spec fn spec_policy(&self) -> DedupPolicy {
        self.policy
    }

    /// Every key has one bucket, and every bucket holds fewer messages than
    /// the quorum.
    pub closed spec fn wf(&self) -> bool {
        &&& unique_keys(self.buckets@)
        &&& forall|i: int|
            0 <= i < self.buckets@.len() ==> #[trigger] self.buckets@[i].sized_below(self.quorum)
    }

    /// An aggregator with no buckets.
    pub fn new(quorum: usize, staleness: u64, policy: DedupPolicy) -> (r: RefreshAggregator)
        ensures
            r.wf(),
            r@ == Map::<RefreshKey, BucketModel>::empty(),
            r.spec_quorum() == quorum,
            r.spec_staleness() == staleness,
            r.spec_policy() == policy,
    {
        let r = RefreshAggregator { quorum, staleness, policy, buckets: Vec::new() };
        assert(bucket_map(r.buckets@) =~= Map::<RefreshKey, BucketModel>::empty());
        r
    }

    fn find(&self, type_tag: u64, from_group: &NameType) -> (r: Option<usize>)
        ensures
            match r {
                Some(i) => i < self.buckets@.len() && self.buckets@[i as int].key() == (
                type_tag,
                from_group@,
                ),
                None => !has_key(self.buckets@, (type_tag, from_group@)),
            },
    {
        let mut i: usize = 0;
        while i < self.buckets.len()
            invariant
                0 <= i <= self.buckets@.len(),
                forall|j: int|
                    0 <= j < i ==> #[trigger] self.buckets@[j].key() != (type_tag, from_group@),
            decreases self.buckets@.len() - i,
        {
            let b = &self.buckets[i];
            if b.type_tag == type_tag && b.from_group.same_as(from_group) {
                return Some(i);
            }
            i = i + 1;
        }
        None
    }

    /// Records one refresh message for the key (`type_tag`, `from_group`).
    /// When the message completes a quorum, the bucket's payloads are returned
    /// and the bucket is removed.
    pub fn add(
        &mut self,
        type_tag: u64,
        from_group: NameType,
        sender: NameType,
        payload: Vec<u8>,
        now: u64,
    ) -> (r: Option<Vec<Vec<u8>>>)
        requires
            old(self).wf(),
        ensures
            final(self).wf(),
            final(self).spec_quorum() == old(self).spec_quorum(),
            final(self).spec_staleness() == old(self).spec_staleness(),
            final(self).spec_policy() == old(self).spec_policy(),
            (final(self)@, delivered(r)) == after_add(
                old(self)@,
                old(self).spec_quorum(),
                old(self).spec_policy(),
                (type_tag, from_group@),
                sender@,
                payload@,
                now,
            ),
    {
        let ghost s0 = self.buckets@;
        let ghost key = (type_tag, from_group@);
        match self.find(type_tag, &from_group) {
            None => {
                assert(!bucket_map(s0).contains_key(key));
                if self.quorum <= 1 {
                    let mut out: Vec<Vec<u8>> = Vec::new();
                    out.push(payload);
                    assert(out@.map_values(|p: Vec<u8>| p@) =~= seq![payload@]);
                    assert(bucket_map(s0).remove(key) =~= bucket_map(s0));
                    return Some(out);
                }
                let mut senders: Vec<NameType> = Vec::new();
                senders.push(sender);
                let mut payloads: Vec<Vec<u8>> = Vec::new();
                payloads.push(payload);
                let b = RefreshBucket { type_tag, from_group, senders, payloads, last_update: now };
                assert(b.model().senders =~= seq![sender@]);
                assert(b.model().payloads =~= seq![payload@]);
                proof {
                    lemma_push(s0, b);
                }
                self.buckets.push(b);
                assert(self.buckets@ == s0.push(b));
                assert forall|j: int| 0 <= j < self.buckets@.len() implies #[trigger] self.buckets@[
                    j
                ].sized_below(self.quorum) by {
                    if j < s0.len() {
                        assert(self.buckets@[j] == s0[j]);
                    }
                }
                None
            },
            Some(i) => {
                proof {
                    lemma_lookup(s0, i as int);
                    assert(s0[i as int].sized_below(self.quorum));
                }
                if self.buckets[i].holds_duplicate(self.policy, &sender, &payload) {
                    assert(bucket_map(s0).insert(key, bucket_map(s0)[key]) =~= bucket_map(s0));
                    return None;
                }
                proof {
                    lemma_remove(s0, i as int);
                }
                let mut b = self.buckets.remove(i);
                let ghost bm = b.model();
                b.senders.push(sender);
                b.payloads.push(payload);
                b.last_update = now;
                assert(b.model().senders =~= bm.senders.push(sender@));
                assert(b.model().payloads =~= bm.payloads.push(payload@));
                if b.senders.len() >= self.quorum {
                    return Some(b.payloads);
                }
                proof {
                    lemma_push(self.buckets@, b);
                    assert(bucket_map(s0).remove(key).insert(key, b.model()) =~= bucket_map(
                        s0,
                    ).insert(key, b.model()));
                }
                let ghost s1 = self.buckets@;
                self.buckets.push(b);
                assert(self.buckets@ == s1.push(b));
                assert forall|j: int| 0 <= j < self.buckets@.len() implies #[trigger] self.buckets@[
                    j
                ].sized_below(self.quorum) by {
                    if j < s1.len() {
                        assert(self.buckets@[j] == s1[j]);
                        let a = if j < i {
                            j
                        } else {
                            j + 1
                        };
                        assert(s1[j] == s0[a]);
                    }
                }
                None
            },
        }
    }

    /// Records one refresh message and, when it completes a quorum, hands the
    /// bucket's payloads to `node` in one `handle_refresh` call. Returns
    /// whether that call was made.
    pub fn receive<F: Interface>(
        &mut self,
        node: &mut F,
        type_tag: u64,
        from_group: NameType,
        sender: NameType,
        payload: Vec<u8>,
        now: u64,
    ) -> (r: bool)
        requires
            old(self).wf(),
        ensures
            final(self).wf(),
            final(self).spec_quorum() == old(self).spec_quorum(),
            final(self).spec_staleness() == old(self).spec_staleness(),
            final(self).spec_policy() == old(self).spec_policy(),
            ({
                let step = after_add(
                    old(self)@,
                    old(self).spec_quorum(),
                    old(self).spec_policy(),
                    (type_tag, from_group@),
                    sender@,
                    payload@,
                    now,
                );
                &&& final(self)@ == step.0
                &&& r == step.1 is Some
            }),
    {
        match self.add(type_tag, from_group, sender, payload, now) {
            Some(payloads) => {
                node.handle_refresh(type_tag, from_group, payloads);
                true
            },
            None => false,
        }
    }

    /// Drops every bucket that is stale at `now`, without delivering it.
    pub fn expire(&mut self, now: u64)
        requires
            old(self).wf(),
        ensures
            final(self).wf(),
            final(self).spec_quorum() == old(self).spec_quorum(),
            final(self).spec_staleness() == old(self).spec_staleness(),
            final(self).spec_policy() == old(self).spec_policy(),
            final(self)@ == fresh_part(old(self)@, now, old(self).spec_staleness()),
    {
        let ghost orig = self.buckets@;
        let ghost q = self.quorum;
        let ghost p = self.policy;
        let w = self.staleness;
        let mut kept: Vec<RefreshBucket> = Vec::new();
        while self.buckets.len() > 0
            invariant
                unique_keys(orig),
                self.quorum == q,
                self.policy == p,
                self.staleness == w,
                self.buckets@ == orig.subrange(0, self.buckets@.len() as int),
                self.buckets@.len() <= orig.len(),
                forall|a: int| 0 <= a < orig.len() ==> #[trigger] orig[a].sized_below(q),
                forall|j: int| 0 <= j < kept@.len() ==> #[trigger] kept@[j].sized_below(q),
                unique_keys(kept@),
                tracks(orig, self.buckets@.len() as int, kept@, now, w),
            decreases self.buckets@.len(),
        {
            let ghost n = self.buckets@.len() as int;
            let ghost k0 = kept@;
            let b = self.buckets.pop().unwrap();
            assert(b == orig[n - 1]);
            assert(self.buckets@ =~= orig.subrange(0, n - 1));
            let stale = now > b.last_update && now - b.last_update > w;
            if !stale {
                proof {
                    lemma_keep_step(orig, n, k0, now, w);
                }
                kept.push(b);
                assert(kept@ == k0.push(b));
            } else {
                proof {
                    lemma_skip_step(orig, n, k0, now, w);
                }
            }
        }
        proof {
            lemma_tracked_map(orig, kept@, now, w);
        }
        self.buckets = kept;
    }

    pub fn quorum(&self) -> (r: usize)
        ensures
            r == self.spec_quorum(),
    {
        self.quorum
    }

    pub fn staleness(&self) -> (r: u64)
        ensures
            r == self.spec_staleness(),
    {
        self.staleness
    }

    pub fn policy(&self) -> (r: DedupPolicy)
        ensures
            r == self.spec_policy(),
    {
        self.policy
    }

    /// Whether a bucket is pending for the key.
    pub fn contains(&self, type_tag: u64, from_group: &NameType) -> (r: bool)
        requires
            self.wf(),
        ensures
            r == self@.contains_key((type_tag, from_group@)),
    {
        self.find(type_tag, from_group).is_some()
    }
}

/// The buckets after the first `n` of a series of messages for one key arrive
/// (message `i` from `senders[i]`, with `payloads[i]`, at `times[i]`), and what
/// each of them delivered.
pub open spec fn run_adds(
    m: Map<RefreshKey, BucketModel>,
    quorum: usize,
    policy: DedupPolicy,
    key: RefreshKey,
    senders: Seq<Seq<u8>>,
    payloads: Seq<Seq<u8>>,
    times: Seq<u64>,
    n: nat,
) -> (Map<RefreshKey, BucketModel>, Seq<Option<Seq<Seq<u8>>>>)
    decreases n,
{
    if n == 0 {
        (m, Seq::empty())
    } else {
        let prev = run_adds(m, quorum, policy, key, senders, payloads, times, (n - 1) as nat);
        let step = after_add(
            prev.0,
            quorum,
            policy,
            key,
            senders[n - 1],
            payloads[n - 1],
            times[n - 1],
        );
        (step.0, prev.1.push(step.1))
    }
}

/// No two messages of the series are duplicates of each other under `policy`.
pub open spec fn distinct_under(
    policy: DedupPolicy,
    senders: Seq<Seq<u8>>,
    payloads: Seq<Seq<u8>>,
    n: int,
) -> bool {
    forall|i: int, j: int|
        0 <= i < j < n ==> match policy {
            DedupPolicy::BySender => senders[i] != senders[j],
            DedupPolicy::ByPayload => payloads[i] != payloads[j],
        }
}

/// Fewer than `quorum` distinct messages for a new key deliver nothing and
/// leave one bucket holding all of them, stamped with the last arrival.
pub proof fn lemma_below_quorum(
    m: Map<RefreshKey, BucketModel>,
    quorum: usize,
    policy: DedupPolicy,
    key: RefreshKey,
    senders: Seq<Seq<u8>>,
    payloads: Seq<Seq<u8>>,
    times: Seq<u64>,
    n: nat,
)
    requires
        !m.contains_key(key),
        1 <= n < quorum,
        n <= senders.len(),
        n <= payloads.len(),
        n <= times.len(),
        distinct_under(policy, senders, payloads, n as int),
    ensures
        run_adds(m, quorum, policy, key, senders, payloads, times, n).0 == m.insert(
            key,
            BucketModel {
                senders: senders.take(n as int),
                payloads: payloads.take(n as int),
                last_update: times[n - 1],
            },
        ),
        run_adds(m, quorum, policy, key, senders, payloads, times, n).1.len() == n,
        forall|i: int|
            0 <= i < n ==> #[trigger] run_adds(
                m,
                quorum,
                policy,
                key,
                senders,
                payloads,
                times,
                n,
            ).1[i] is None,
    decreases n,
{
    let r = run_adds(m, quorum, policy, key, senders, payloads, times, n);
    if n == 1 {
        let r0 = run_adds(m, quorum, policy, key, senders, payloads, times, 0);
        assert(r0.0 == m && r0.1 == Seq::<Option<Seq<Seq<u8>>>>::empty());
        assert(senders.take(1) =~= seq![senders[0]]);
        assert(payloads.take(1) =~= seq![payloads[0]]);
        assert(r.1 =~= seq![None]);
    } else {
        let k = (n - 1) as nat;
        lemma_below_quorum(m, quorum, policy, key, senders, payloads, times, k);
        let prev = run_adds(m, quorum, policy, key, senders, payloads, times, k);
        let b = BucketModel {
            senders: senders.take(k as int),
            payloads: payloads.take(k as int),
            last_update: times[k - 1],
        };
        assert(lookup(prev.0, key) == Some(b));
        match policy {
            DedupPolicy::BySender => {
                if b.senders.contains(senders[k as int]) {
                    let i = choose|i: int| 0 <= i < b.senders.len() && b.senders[i] == senders[k as int];
                    assert(senders[i] != senders[k as int]);
                }
            },
            DedupPolicy::ByPayload => {
                if b.payloads.contains(payloads[k as int]) {
                    let i = choose|i: int|
                        0 <= i < b.payloads.len() && b.payloads[i] == payloads[k as int];
                    assert(payloads[i] != payloads[k as int]);
                }
            },
        }
        assert(b.senders.push(senders[k as int]) =~= senders.take(n as int));
        assert(b.payloads.push(payloads[k as int]) =~= payloads.take(n as int));
        let nb = BucketModel {
            senders: senders.take(n as int),
            payloads: payloads.take(n as int),
            last_update: times[n - 1],
        };
        assert(prev.0.insert(key, nb) =~= m.insert(key, nb));
        assert forall|i: int| 0 <= i < n implies #[trigger] r.1[i] is None by {
            if i < k {
                assert(r.1[i] == prev.1[i]);
            }
        }
    }
}

/// Given quorum `Q`, `Q` distinct messages for a new key deliver exactly once,
/// on the last of them, all `Q` payloads in order of arrival, and leave no
/// bucket for the key.
pub proof fn lemma_quorum_delivers_once(
    m: Map<RefreshKey, BucketModel>,
    quorum: usize,
    policy: DedupPolicy,
    key: RefreshKey,
    senders: Seq<Seq<u8>>,
    payloads: Seq<Seq<u8>>,
    times: Seq<u64>,
)
    requires
        !m.contains_key(key),
        1 <= quorum,
        senders.len() == quorum,
        payloads.len() == quorum,
        times.len() == quorum,
        distinct_under(policy, senders, payloads, quorum as int),
    ensures
        ({
            let r = run_adds(m, quorum, policy, key, senders, payloads, times, quorum as nat);
            &&& r.0 == m
            &&& r.1.len() == quorum
            &&& r.1[quorum - 1] == Some(payloads)
            &&& forall|i: int| 0 <= i < quorum - 1 ==> #[trigger] r.1[i] is None
        }),
{
    let n = quorum as nat;
    let r = run_adds(m, quorum, policy, key, senders, payloads, times, n);
    if quorum == 1 {
        let r0 = run_adds(m, quorum, policy, key, senders, payloads, times, 0);
        assert(r0.0 == m && r0.1 == Seq::<Option<Seq<Seq<u8>>>>::empty());
        assert(payloads =~= seq![payloads[0]]);
        assert(m.remove(key) =~= m);
    } else {
        let k = (n - 1) as nat;
        lemma_below_quorum(m, quorum, policy, key, senders, payloads, times, k);
        let prev = run_adds(m, quorum, policy, key, senders, payloads, times, k);
        let b = BucketModel {
            senders: senders.take(k as int),
            payloads: payloads.take(k as int),
            last_update: times[k - 1],
        };
        assert(lookup(prev.0, key) == Some(b));
        match policy {
            DedupPolicy::BySender => {
                if b.senders.contains(senders[k as int]) {
                    let i = choose|i: int| 0 <= i < b.senders.len() && b.senders[i] == senders[k as int];
                    assert(senders[i] != senders[k as int]);
                }
            },
            DedupPolicy::ByPayload => {
                if b.payloads.contains(payloads[k as int]) {
                    let i = choose|i: int|
                        0 <= i < b.payloads.len() && b.payloads[i] == payloads[k as int];
                    assert(payloads[i] != payloads[k as int]);
                }
            },
        }
        assert(b.senders.push(senders[k as int]) =~= senders);
        assert(b.payloads.push(payloads[k as int]) =~= payloads);
        assert(prev.0.remove(key) =~= m);
        assert forall|i: int| 0 <= i < quorum - 1 implies #[trigger] r.1[i] is None by {
            assert(r.1[i] == prev.1[i]);
        }
    }
}

/// Given quorum `Q`, a bucket of `Q - 1` distinct messages that goes stale is
/// dropped by expiry, and none of those messages delivered anything.
pub proof fn lemma_stale_bucket_dropped(
    m: Map<RefreshKey, BucketModel>,
    quorum: usize,
    policy: DedupPolicy,
    key: RefreshKey,
    senders: Seq<Seq<u8>>,
    payloads: Seq<Seq<u8>>,
    times: Seq<u64>,
    now: u64,
    window: u64,
)
    requires
        !m.contains_key(key),
        2 <= quorum,
        senders.len() == quorum - 1,
        payloads.len() == quorum - 1,
        times.len() == quorum - 1,
        distinct_under(policy, senders, payloads, quorum - 1),
        now > times[quorum - 2] && now - times[quorum - 2] > window,
    ensures
        ({
            let r = run_adds(m, quorum, policy, key, senders, payloads, times, (quorum - 1) as nat);
            &&& forall|i: int| 0 <= i < quorum - 1 ==> #[trigger] r.1[i] is None
            &&& !fresh_part(r.0, now, window).contains_key(key)
        }),
{
    lemma_below_quorum(m, quorum, policy, key, senders, payloads, times, (quorum - 1) as nat);
}

/// A second message from a sender already counted in a pending bucket changes
/// nothing and delivers nothing.
pub proof fn lemma_repeat_sender_ignored(
    m: Map<RefreshKey, BucketModel>,
    quorum: usize,
    key: RefreshKey,
    sender: Seq<u8>,
    payload: Seq<u8>,
    now: u64,
)
    requires
        m.contains_key(key),
        m[key].senders.len() < quorum,
        m[key].senders.contains(sender),
    ensures
        after_add(m, quorum, DedupPolicy::BySender, key, sender, payload, now) == (
            m,
            None::<Seq<Seq<u8>>>,
        ),
{
    assert(m.insert(key, m[key]) =~= m);
}

} // verus!
