//! Posting-list assembly.
//!
//! During build, every normalized key maps to the list of record ids it was
//! seen with.  The map keeps its keys strictly ascending in byte-wise
//! lexicographic order — the order the FST builder demands — and keeps every
//! posting list strictly ascending and duplicate-free, which is the shape
//! the database serializes.

use vstd::prelude::*;

verus! {

use crate::codec::strictly_ascending;

/// Byte-wise lexicographic "less than" on keys.
pub open spec fn lex_lt(a: Seq<u8>, b: Seq<u8>) -> bool
    decreases a.len(),
{
    if b.len() == 0 {
        false
    } else if a.len() == 0 {
        true
    } else if a[0] < b[0] {
        true
    } else if a[0] > b[0] {
        false
    } else {
        lex_lt(a.skip(1), b.skip(1))
    }
}

/// Of two keys, exactly one of `a < b`, `a == b`, `b < a` holds.
pub proof fn lemma_lex_trichotomy(a: Seq<u8>, b: Seq<u8>)
    ensures
        lex_lt(a, b) || a == b || lex_lt(b, a),
        lex_lt(a, b) ==> a != b && !lex_lt(b, a),
        a == b ==> !lex_lt(a, b) && !lex_lt(b, a),
    decreases a.len(),
{
    if a.len() == 0 && b.len() == 0 {
        assert(a =~= b);
    } else if a.len() > 0 && b.len() > 0 {
        if a[0] == b[0] {
            lemma_lex_trichotomy(a.skip(1), b.skip(1));
            if a.skip(1) == b.skip(1) {
                assert forall|i: int| 0 <= i < a.len() implies a[i] == b[i] by {
                    if i >= 1 {
                        assert(a.skip(1)[i - 1] == b.skip(1)[i - 1]);
                    }
                }
                assert(a =~= b);
            }
            if a == b {
                assert(a.skip(1) =~= b.skip(1));
            }
        }
    }
}

/// Lexicographic order is transitive.
pub proof fn lemma_lex_trans(a: Seq<u8>, b: Seq<u8>, c: Seq<u8>)
    requires
        lex_lt(a, b),
        lex_lt(b, c),
    ensures
        lex_lt(a, c),
    decreases a.len(),
{
    if a.len() > 0 && b.len() > 0 && c.len() > 0 {
        if a[0] == b[0] && b[0] == c[0] {
            lemma_lex_trans(a.skip(1), b.skip(1), c.skip(1));
        }
    }
}

/// How two keys compare, byte-wise lexicographically.
pub enum KeyCmp {
    Below,
    Same,
    Above,
}

/// Compares two keys in byte-wise lexicographic order.
pub fn lex_cmp(a: &[u8], b: &[u8]) -> (r: KeyCmp)
    ensures
        (r is Below) == lex_lt(a@, b@),
        (r is Same) == (a@ == b@),
        (r is Above) == lex_lt(b@, a@),
{
    proof {
        lemma_lex_trichotomy(a@, b@);
        assert(a@.skip(0) =~= a@);
        assert(b@.skip(0) =~= b@);
    }
    let mut i: usize = 0;
    let alen = a.len();
    let blen = b.len();
    let lim: usize = if alen < blen {
        alen
    } else {
        blen
    };
    while i < lim
        invariant
            0 <= i <= lim,
            lim <= a@.len(),
            lim <= b@.len(),
            alen == a@.len(),
            blen == b@.len(),
            (alen < blen ==> lim == alen) && (alen >= blen ==> lim == blen),
            forall|k: int| 0 <= k < i ==> a@[k] == b@[k],
            lex_lt(a@, b@) == lex_lt(a@.skip(i as int), b@.skip(i as int)),
            lex_lt(b@, a@) == lex_lt(b@.skip(i as int), a@.skip(i as int)),
        decreases lim - i,
    {
        let x = a[i];
        let y = b[i];
        if x < y {
            proof {
                assert(a@.skip(i as int)[0] == x && b@.skip(i as int)[0] == y);
            }
            return KeyCmp::Below;
        }
        if x > y {
            proof {
                assert(a@.skip(i as int)[0] == x && b@.skip(i as int)[0] == y);
            }
            return KeyCmp::Above;
        }
        proof {
            assert(a@.skip(i as int)[0] == b@.skip(i as int)[0]);
            assert(a@.skip(i as int).skip(1) =~= a@.skip(i + 1));
            assert(b@.skip(i as int).skip(1) =~= b@.skip(i + 1));
        }
        i += 1;
    }
    if alen == blen {
        proof {
            assert(a@ =~= b@);
            lemma_lex_trichotomy(a@, b@);
        }
        KeyCmp::Same
    } else if alen < blen {
        proof {
            assert(a@.skip(i as int).len() == 0 && b@.skip(i as int).len() > 0);
            lemma_lex_trichotomy(a@, b@);
        }
        KeyCmp::Below
    } else {
        proof {
            assert(b@.skip(i as int).len() == 0 && a@.skip(i as int).len() > 0);
            lemma_lex_trichotomy(a@, b@);
        }
        KeyCmp::Above
    }
}

/// First position of `v` whose id is at least `x`.
pub fn lower_bound_u32(v: &[u32], x: u32) -> (r: usize)
    requires
        strictly_ascending(v@),
    ensures
        0 <= r <= v@.len(),
        forall|i: int| 0 <= i < r ==> v@[i] < x,
        forall|i: int| r <= i < v@.len() ==> v@[i] >= x,
{
    let mut lo: usize = 0;
    let mut hi: usize = v.len();
    while lo < hi
        invariant
            0 <= lo <= hi <= v@.len(),
            forall|i: int| 0 <= i < lo ==> v@[i] < x,
            forall|i: int| hi <= i < v@.len() ==> v@[i] >= x,
            strictly_ascending(v@),
        decreases hi - lo,
    {
        let mid = lo + (hi - lo) / 2;
        if v[mid] < x {
            lo = mid + 1;
        } else {
            hi = mid;
        }
    }
    lo
}

/// Inserts `x` into a strictly ascending id list, keeping it strictly
/// ascending and duplicate-free; ids already present stay, nothing else
/// enters.
pub fn insert_sorted_u32(v: &mut Vec<u32>, x: u32)
    requires
        strictly_ascending(old(v)@),
    ensures
        strictly_ascending(final(v)@),
        forall|y: u32| final(v)@.contains(y) == (old(v)@.contains(y) || y == x),
        old(v)@.len() <= final(v)@.len() <= old(v)@.len() + 1,
{
    let idx = lower_bound_u32(v.as_slice(), x);
    if idx < v.len() && v[idx] == x {
        proof {
            assert(old(v)@.contains(x));
        }
        return ;
    }
    let ghost pre = v@;
    v.insert(idx, x);
    proof {
        let post = v@;
        assert(post == pre.insert(idx as int, x));
        assert(forall|j: int| 0 <= j < idx ==> post[j] == pre[j]);
        assert(post[idx as int] == x);
        assert(forall|j: int| idx < j < post.len() ==> post[j] == pre[j - 1]);
        assert forall|i: int, j: int| 0 <= i < j < post.len() implies post[i] < post[j] by {
            if i < idx && j == idx {
                assert(pre[i] < x);
            } else if i == idx && j > idx {
                assert(pre[j - 1] >= x && pre[j - 1] != x);
            } else if i < idx && j > idx {
                assert(pre[i] < x && pre[j - 1] >= x);
            }
        }
        assert forall|y: u32| post.contains(y) == (pre.contains(y) || y == x) by {
            if post.contains(y) {
                let w = choose|w: int| 0 <= w < post.len() && post[w] == y;
                if w < idx {
                    assert(pre[w] == y);
                } else if w > idx {
                    assert(pre[w - 1] == y);
                }
            }
            if pre.contains(y) {
                let w = choose|w: int| 0 <= w < pre.len() && pre[w] == y;
                if w < idx {
                    assert(post[w] == y);
                } else {
                    assert(post[w + 1] == y);
                }
            }
            if y == x {
                assert(post[idx as int] == y);
            }
        }
    }
}

/// The set of ids admitted by the population filter, held strictly
/// ascending for binary search.
pub struct IdSet {
    pub ids: Vec<u32>,
}

impl IdSet {
    /// The list backing the set stays strictly ascending.
    pub open spec fn wf(self) -> bool {
        strictly_ascending(self.ids@)
    }

    /// Whether `id` is in the set.
    pub open spec fn spec_has(self, id: u32) -> bool {
        self.ids@.contains(id)
    }

    /// An empty set.
    pub fn new() -> (r: IdSet)
        ensures
            r.wf(),
            forall|id: u32| !r.spec_has(id),
    {
        let r = IdSet { ids: Vec::new() };
        proof {
            assert(forall|id: u32| !r.ids@.contains(id));
        }
        r
    }

    /// Adds `id` to the set.
    pub fn insert(&mut self, id: u32)
        requires
            old(self).wf(),
        ensures
            final(self).wf(),
            forall|y: u32| final(self).spec_has(y) == (old(self).spec_has(y) || y == id),
    {
        insert_sorted_u32(&mut self.ids, id);
    }

    /// Tests whether `id` is in the set.
    pub fn contains(&self, id: u32) -> (r: bool)
        requires
            self.wf(),
        ensures
            r == self.spec_has(id),
    {
        let idx = lower_bound_u32(self.ids.as_slice(), id);
        if idx < self.ids.len() && self.ids[idx] == id {
            proof {
                assert(self.ids@.contains(id));
            }
            true
        } else {
            proof {
                assert(forall|i: int| 0 <= i < self.ids@.len() ==> self.ids@[i] != id);
            }
            false
        }
    }
}

/// The key → posting-list map assembled during build: keys strictly
/// ascending lexicographically, lists strictly ascending and non-empty.
pub struct PostingMap {
    pub keys: Vec<Vec<u8>>,
    pub lists: Vec<Vec<u32>>,
}

impl PostingMap {
    /// Keys sorted and unique, lists parallel, sorted, unique and non-empty.
    pub open spec fn wf(self) -> bool {
        &&& self.keys@.len() == self.lists@.len()
        &&& forall|i: int, j: int|
            0 <= i < j < self.keys@.len() ==> lex_lt(self.keys@[i]@, self.keys@[j]@)
        &&& forall|i: int| 0 <= i < self.lists@.len() ==> strictly_ascending(self.lists@[i]@)
        &&& forall|i: int| 0 <= i < self.lists@.len() ==> self.lists@[i]@.len() > 0
    }

    /// Whether some entry holds the key `k`.
    pub open spec fn spec_has_key(self, k: Seq<u8>) -> bool {
        exists|i: int| 0 <= i < self.keys@.len() && self.keys@[i]@ == k
    }

    /// Whether the posting list of `k` holds `id`.
    pub open spec fn spec_has(self, k: Seq<u8>, id: u32) -> bool {
        exists|i: int|
            0 <= i < self.keys@.len() && self.keys@[i]@ == k && self.lists@[i]@.contains(id)
    }

    /// Every posting list holds at most `c` ids.
    pub open spec fn bounded_lists(self, c: nat) -> bool {
        forall|i: int| 0 <= i < self.lists@.len() ==> (#[trigger] self.lists@[i])@.len() <= c
    }

    /// An empty map.
    pub fn new() -> (r: PostingMap)
        ensures
            r.wf(),
            r.keys@.len() == 0,
            forall|k: Seq<u8>| !r.spec_has_key(k),
            forall|k: Seq<u8>, id: u32| !r.spec_has(k, id),
    {
        PostingMap { keys: Vec::new(), lists: Vec::new() }
    }

    /// How many distinct keys the map holds.
    pub fn len(&self) -> (r: usize)
        ensures
            r == self.keys@.len(),
    {
        self.keys.len()
    }

    /// The `i`-th key in ascending order.
    pub fn key_at(&self, i: usize) -> (r: &Vec<u8>)
        requires
            i < self.keys@.len(),
        ensures
            r@ == self.keys@[i as int]@,
    {
        &self.keys[i]
    }

    /// The posting list of the `i`-th key.
    pub fn list_at(&self, i: usize) -> (r: &Vec<u32>)
        requires
            self.wf(),
            i < self.keys@.len(),
        ensures
            r@ == self.lists@[i as int]@,
    {
        &self.lists[i]
    }

    /// First position whose key is at least `k`, and whether it equals `k`.
    fn lower_bound_key(&self, k: &Vec<u8>) -> (r: (usize, bool))
        requires
            self.wf(),
        ensures
            0 <= r.0 <= self.keys@.len(),
            forall|i: int| 0 <= i < r.0 ==> lex_lt(self.keys@[i]@, k@),
            r.1 == (r.0 < self.keys@.len() && self.keys@[r.0 as int]@ == k@),
            forall|i: int|
                r.0 <= i < self.keys@.len() ==> (self.keys@[i]@ == k@ || lex_lt(
                    k@,
                    self.keys@[i]@,
                )),
    {
        let mut lo: usize = 0;
        let mut hi: usize = self.keys.len();
        while lo < hi
            invariant
                0 <= lo <= hi <= self.keys@.len(),
                self.wf(),
                forall|i: int| 0 <= i < lo ==> lex_lt(self.keys@[i]@, k@),
                forall|i: int|
                    hi <= i < self.keys@.len() ==> (self.keys@[i]@ == k@ || lex_lt(
                        k@,
                        self.keys@[i]@,
                    )),
            decreases hi - lo,
        {
            let mid = lo + (hi - lo) / 2;
            match lex_cmp(self.keys[mid].as_slice(), k.as_slice()) {
                KeyCmp::Below => {
                    proof {
                        assert forall|i: int| 0 <= i < mid + 1 implies lex_lt(
                            self.keys@[i]@,
                            k@,
                        ) by {
                            if i < mid {
                                lemma_lex_trans(self.keys@[i]@, self.keys@[mid as int]@, k@);
                            }
                        }
                    }
                    lo = mid + 1;
                },
                KeyCmp::Same => {
                    proof {
                        assert forall|i: int| mid <= i < self.keys@.len() implies (
                        self.keys@[i]@ == k@ || lex_lt(k@, self.keys@[i]@)) by {
                            if i > mid {
                                assert(lex_lt(self.keys@[mid as int]@, self.keys@[i]@));
                            }
                        }
                    }
                    hi = mid;
                },
                KeyCmp::Above => {
                    proof {
                        assert forall|i: int| mid <= i < self.keys@.len() implies (
                        self.keys@[i]@ == k@ || lex_lt(k@, self.keys@[i]@)) by {
                            if i > mid {
                                lemma_lex_trans(k@, self.keys@[mid as int]@, self.keys@[i]@);
                            }
                        }
                    }
                    hi = mid;
                },
            }
        }
        if lo < self.keys.len() {
            match lex_cmp(self.keys[lo].as_slice(), k.as_slice()) {
                KeyCmp::Same => (lo, true),
                _ => (lo, false),
            }
        } else {
            (lo, false)
        }
    }

    /// Records that `id` was seen under the key `k`: the posting list of `k`
    /// gains `id`, every other association stays as it was.
    pub fn add(&mut self, k: Vec<u8>, id: u32)
        requires
            old(self).wf(),
        ensures
            final(self).wf(),
            forall|k2: Seq<u8>|
                final(self).spec_has_key(k2) == (old(self).spec_has_key(k2) || k2 == k@),
            forall|k2: Seq<u8>, id2: u32|
                final(self).spec_has(k2, id2) == (old(self).spec_has(k2, id2) || (k2 == k@ && id2
                    == id)),
            forall|c: nat|
                old(self).bounded_lists(c) ==> #[trigger] final(self).bounded_lists(c + 1),
    {
        let (idx, found) = self.lower_bound_key(&k);
        let ghost pre = *self;
        if found {
            let mut l = self.lists.remove(idx);
            insert_sorted_u32(&mut l, id);
            self.lists.insert(idx, l);
            proof {
                assert(self.keys@ == pre.keys@);
                assert(forall|j: int|
                    0 <= j < self.lists@.len() && j != idx ==> self.lists@[j] == pre.lists@[j]);
                assert(forall|y: u32|
                    self.lists@[idx as int]@.contains(y) == (pre.lists@[idx as int]@.contains(y)
                        || y == id));
                assert(self.lists@[idx as int]@.len() > 0);
                assert forall|k2: Seq<u8>|
                    final(self).spec_has_key(k2) == (pre.spec_has_key(k2) || k2 == k@) by {
                    assert(pre.keys@[idx as int]@ == k@);
                }
                assert forall|k2: Seq<u8>, id2: u32|
                    final(self).spec_has(k2, id2) == (pre.spec_has(k2, id2) || (k2 == k@ && id2
                        == id)) by {
                    lemma_distinct_keys(pre, idx as int, k2);
                    if pre.spec_has(k2, id2) {
                        let w = choose|w: int|
                            0 <= w < pre.keys@.len() && pre.keys@[w]@ == k2
                                && pre.lists@[w]@.contains(id2);
                        assert(self.keys@[w]@ == k2 && self.lists@[w]@.contains(id2));
                    }
                    if final(self).spec_has(k2, id2) {
                        let w = choose|w: int|
                            0 <= w < self.keys@.len() && self.keys@[w]@ == k2
                                && self.lists@[w]@.contains(id2);
                        if w != idx {
                            assert(pre.keys@[w]@ == k2 && pre.lists@[w]@.contains(id2));
                        }
                    }
                    if k2 == k@ && id2 == id {
                        assert(self.keys@[idx as int]@ == k2
                            && self.lists@[idx as int]@.contains(id2));
                    }
                }
            }
        } else {
            let mut l: Vec<u32> = Vec::new();
            l.push(id);
            self.keys.insert(idx, k);
            self.lists.insert(idx, l);
            proof {
                assert(l@ =~= seq![id]);
                assert(strictly_ascending(l@));
                assert(l@[0] == id);
                assert(l@.contains(id));
                assert(forall|j: int| 0 <= j < idx ==> self.keys@[j] == pre.keys@[j]
                    && self.lists@[j] == pre.lists@[j]);
                assert(forall|j: int|
                    idx < j < self.keys@.len() ==> self.keys@[j] == pre.keys@[j - 1]
                        && self.lists@[j] == pre.lists@[j - 1]);
                assert(self.keys@[idx as int]@ == k@ && self.lists@[idx as int] == l);
                assert forall|i: int, j: int|
                    0 <= i < j < self.keys@.len() implies lex_lt(
                    self.keys@[i]@,
                    self.keys@[j]@,
                ) by {
                    lemma_lex_trichotomy(self.keys@[i]@, self.keys@[j]@);
                    if i < idx && j == idx {
                        assert(lex_lt(pre.keys@[i]@, k@));
                    } else if i == idx && j > idx {
                        let kj = pre.keys@[j - 1]@;
                        assert(kj == k@ || lex_lt(k@, kj));
                        if kj == k@ {
                            assert(j - 1 != idx);
                            assert(lex_lt(k@, pre.keys@[idx as int]@));
                            assert(lex_lt(pre.keys@[idx as int]@, kj));
                            lemma_lex_trans(k@, pre.keys@[idx as int]@, kj);
                            lemma_lex_trichotomy(k@, k@);
                        }
                        assert(lex_lt(k@, kj));
                    }
                }
                assert forall|k2: Seq<u8>|
                    final(self).spec_has_key(k2) == (pre.spec_has_key(k2) || k2 == k@) by {
                    if pre.spec_has_key(k2) {
                        let w = choose|w: int| 0 <= w < pre.keys@.len() && pre.keys@[w]@ == k2;
                        if w < idx {
                            assert(self.keys@[w]@ == k2);
                        } else {
                            assert(self.keys@[w + 1]@ == k2);
                        }
                    }
                    if final(self).spec_has_key(k2) {
                        let w = choose|w: int| 0 <= w < self.keys@.len() && self.keys@[w]@ == k2;
                        if w < idx {
                            assert(pre.keys@[w]@ == k2);
                        } else if w > idx {
                            assert(pre.keys@[w - 1]@ == k2);
                        }
                    }
                }
                assert forall|k2: Seq<u8>, id2: u32|
                    final(self).spec_has(k2, id2) == (pre.spec_has(k2, id2) || (k2 == k@ && id2
                        == id)) by {
                    if pre.spec_has(k2, id2) {
                        let w = choose|w: int|
                            0 <= w < pre.keys@.len() && pre.keys@[w]@ == k2
                                && pre.lists@[w]@.contains(id2);
                        if w < idx {
                            assert(self.keys@[w]@ == k2 && self.lists@[w]@.contains(id2));
                        } else {
                            assert(self.keys@[w + 1]@ == k2 && self.lists@[w + 1]@.contains(id2));
                        }
                    }
                    if final(self).spec_has(k2, id2) {
                        let w = choose|w: int|
                            0 <= w < self.keys@.len() && self.keys@[w]@ == k2
                                && self.lists@[w]@.contains(id2);
                        if w < idx {
                            assert(pre.keys@[w]@ == k2 && pre.lists@[w]@.contains(id2));
                        } else if w > idx {
                            assert(pre.keys@[w - 1]@ == k2 && pre.lists@[w - 1]@.contains(id2));
                        } else {
                            assert(k2 == k@);
                            assert(self.lists@[idx as int]@ =~= seq![id]);
                        }
                    }
                    if k2 == k@ && id2 == id {
                        assert(self.keys@[idx as int]@ == k2
                            && self.lists@[idx as int]@.contains(id2));
                    }
                }
            }
        }
    }
}

/// In a well-formed map at most one entry holds any key, so an entry other
/// than `idx` holding `k2` forces `k2` to differ from the key at `idx`.
proof fn lemma_distinct_keys(m: PostingMap, idx: int, k2: Seq<u8>)
    requires
        m.wf(),
        0 <= idx < m.keys@.len(),
    ensures
        forall|w: int|
            0 <= w < m.keys@.len() && w != idx && m.keys@[w]@ == k2 ==> m.keys@[idx]@ != k2,
{
    assert forall|w: int|
        0 <= w < m.keys@.len() && w != idx && m.keys@[w]@ == k2 implies m.keys@[idx]@ != k2 by {
        if w < idx {
            lemma_lex_trichotomy(m.keys@[w]@, m.keys@[idx]@);
        } else {
            lemma_lex_trichotomy(m.keys@[idx]@, m.keys@[w]@);
        }
    }
}

} // verus!
