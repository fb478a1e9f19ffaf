//! A column: a keyed collection of byte strings, iterated in the
//! lexicographic order of its keys.

use crate::bytes::{
    bytes_eq, bytes_lt, lemma_lex_asymmetric, lemma_lex_irreflexive, lemma_lex_total,
    lemma_lex_transitive, lex_le, lex_lt,
};
use vstd::prelude::*;

verus! {

/// A key with its value, both as the bytes that are stored.
pub type Pair = (Seq<u8>, Seq<u8>);

/// The keys of `s` strictly increase in lexicographic order.
pub open spec fn keys_increase(s: Seq<Pair>) -> bool {
    forall|i: int, j: int| 0 <= i < j < s.len() ==> lex_lt(#[trigger] s[i].0, #[trigger] s[j].0)
}

/// Some pair of `s` has the key `k`.
pub open spec fn has_key(s: Seq<Pair>, k: Seq<u8>) -> bool {
    exists|i: int| 0 <= i < s.len() && #[trigger] s[i].0 == k
}

/// The rank of a pair of `s` with the key `k`.
pub open spec fn rank_of(s: Seq<Pair>, k: Seq<u8>) -> int {
    choose|i: int| 0 <= i < s.len() && #[trigger] s[i].0 == k
}

/// The mapping from key to value that a sequence of pairs stands for.
pub open spec fn map_of(s: Seq<Pair>) -> Map<Seq<u8>, Seq<u8>> {
    Map::new(|k: Seq<u8>| has_key(s, k), |k: Seq<u8>| s[rank_of(s, k)].1)
}

/// In an increasing sequence every key occurs at one rank only.
pub proof fn lemma_rank_unique(s: Seq<Pair>, i: int, j: int)
    requires
        keys_increase(s),
        0 <= i < s.len(),
        0 <= j < s.len(),
        s[i].0 == s[j].0,
    ensures
        i == j,
{
    lemma_lex_irreflexive(s[i].0);
    if i < j {
        assert(lex_lt(s[i].0, s[j].0));
    } else if j < i {
        assert(lex_lt(s[j].0, s[i].0));
    }
}

/// Each pair of an increasing sequence is an entry of its mapping.
pub proof fn lemma_map_of_rank(s: Seq<Pair>, i: int)
    requires
        keys_increase(s),
        0 <= i < s.len(),
    ensures
        has_key(s, s[i].0),
        map_of(s).contains_key(s[i].0),
        map_of(s)[s[i].0] == s[i].1,
        rank_of(s, s[i].0) == i,
{
    assert(has_key(s, s[i].0));
    lemma_rank_unique(s, i, rank_of(s, s[i].0));
}

/// Writing a pair at the rank where its key belongs adds it to the mapping.
pub proof fn lemma_map_of_insert(s: Seq<Pair>, i: int, k: Seq<u8>, v: Seq<u8>)
    requires
        keys_increase(s),
        0 <= i <= s.len(),
        forall|j: int| 0 <= j < i ==> lex_lt(#[trigger] s[j].0, k),
        forall|j: int| i <= j < s.len() ==> lex_lt(k, #[trigger] s[j].0),
    ensures
        keys_increase(s.insert(i, (k, v))),
        map_of(s.insert(i, (k, v))) == map_of(s).insert(k, v),
{
    let t = s.insert(i, (k, v));
    assert forall|a: int, b: int| 0 <= a < b < t.len() implies lex_lt(
        #[trigger] t[a].0,
        #[trigger] t[b].0,
    ) by {
        if b < i {
            assert(t[a] == s[a] && t[b] == s[b]);
        } else if b == i {
            assert(t[a] == s[a]);
        } else if a < i {
            assert(t[a] == s[a] && t[b] == s[b - 1]);
            if b - 1 == a {
            }
            lemma_lex_transitive(s[a].0, k, s[b - 1].0);
        } else if a == i {
            assert(t[b] == s[b - 1]);
        } else {
            assert(t[a] == s[a - 1] && t[b] == s[b - 1]);
        }
    }
    assert forall|q: Seq<u8>| has_key(t, q) == (q == k || has_key(s, q)) by {
        if has_key(t, q) {
            let r = rank_of(t, q);
            if r < i {
                assert(s[r].0 == q);
            } else if r > i {
                assert(s[r - 1].0 == q);
            }
        }
        if has_key(s, q) {
            let r = rank_of(s, q);
            if r < i {
                assert(t[r].0 == q);
            } else {
                assert(t[r + 1].0 == q);
            }
        }
        if q == k {
            assert(t[i].0 == q);
        }
    }
    assert forall|q: Seq<u8>| has_key(t, q) implies #[trigger] map_of(t)[q] == map_of(s).insert(
        k,
        v,
    )[q] by {
        let r = rank_of(t, q);
        if r == i {
        } else if r < i {
            lemma_lex_irreflexive(k);
            lemma_map_of_rank(s, r);
        } else {
            lemma_lex_irreflexive(k);
            lemma_map_of_rank(s, r - 1);
        }
    }
    assert(map_of(t) =~= map_of(s).insert(k, v));
}

/// Replacing the value at a rank replaces it in the mapping.
pub proof fn lemma_map_of_update(s: Seq<Pair>, i: int, v: Seq<u8>)
    requires
        keys_increase(s),
        0 <= i < s.len(),
    ensures
        keys_increase(s.update(i, (s[i].0, v))),
        map_of(s.update(i, (s[i].0, v))) == map_of(s).insert(s[i].0, v),
{
    let k = s[i].0;
    let t = s.update(i, (k, v));
    assert forall|a: int, b: int| 0 <= a < b < t.len() implies lex_lt(
        #[trigger] t[a].0,
        #[trigger] t[b].0,
    ) by {
        assert(t[a].0 == s[a].0 && t[b].0 == s[b].0);
    }
    assert forall|q: Seq<u8>| has_key(t, q) == has_key(s, q) by {
        if has_key(t, q) {
            assert(s[rank_of(t, q)].0 == q);
        }
        if has_key(s, q) {
            assert(t[rank_of(s, q)].0 == q);
        }
    }
    assert(has_key(s, k));
    assert forall|q: Seq<u8>| has_key(t, q) implies #[trigger] map_of(t)[q] == map_of(s).insert(
        k,
        v,
    )[q] by {
        let r = rank_of(t, q);
        assert(s[r].0 == q);
        lemma_map_of_rank(s, r);
        if q == k {
            lemma_rank_unique(s, r, i);
        }
    }
    assert(map_of(t) =~= map_of(s).insert(k, v));
}

/// Taking a pair out takes its key out of the mapping.
pub proof fn lemma_map_of_remove(s: Seq<Pair>, i: int)
    requires
        keys_increase(s),
        0 <= i < s.len(),
    ensures
        keys_increase(s.remove(i)),
        map_of(s.remove(i)) == map_of(s).remove(s[i].0),
{
    let k = s[i].0;
    let t = s.remove(i);
    assert forall|a: int, b: int| 0 <= a < b < t.len() implies lex_lt(
        #[trigger] t[a].0,
        #[trigger] t[b].0,
    ) by {
        let a0 = if a < i { a } else { a + 1 };
        let b0 = if b < i { b } else { b + 1 };
        assert(t[a] == s[a0] && t[b] == s[b0]);
    }
    assert forall|q: Seq<u8>| has_key(t, q) == (q != k && has_key(s, q)) by {
        if has_key(t, q) {
            let r = rank_of(t, q);
            let r0 = if r < i { r } else { r + 1 };
            assert(s[r0].0 == q);
            if q == k {
                lemma_rank_unique(s, r0, i);
            }
        }
        if has_key(s, q) && q != k {
            let r = rank_of(s, q);
            if r < i {
                assert(t[r].0 == q);
            } else {
                assert(t[r - 1].0 == q);
            }
        }
    }
    assert forall|q: Seq<u8>| has_key(t, q) implies #[trigger] map_of(t)[q] == map_of(s)[q] by {
        let r = rank_of(t, q);
        let r0 = if r < i { r } else { r + 1 };
        assert(s[r0].0 == q);
        lemma_map_of_rank(s, r0);
    }
    assert(map_of(t) =~= map_of(s).remove(k));
}

/// A key that lies between two neighbours, or outside both ends, is absent.
pub proof fn lemma_absent_at_gap(s: Seq<Pair>, i: int, k: Seq<u8>)
    requires
        keys_increase(s),
        0 <= i <= s.len(),
        forall|j: int| 0 <= j < i ==> lex_lt(#[trigger] s[j].0, k),
        forall|j: int| i <= j < s.len() ==> lex_lt(k, #[trigger] s[j].0),
    ensures
        !has_key(s, k),
        !map_of(s).contains_key(k),
{
    lemma_lex_irreflexive(k);
    if has_key(s, k) {
        let r = rank_of(s, k);
        if r < i {
            assert(lex_lt(s[r].0, k));
        } else {
            assert(lex_lt(k, s[r].0));
        }
    }
}

/// The mapping of an increasing sequence has as many keys as the sequence has pairs.
pub proof fn lemma_map_of_len(s: Seq<Pair>)
    requires
        keys_increase(s),
    ensures
        map_of(s).dom().finite(),
        map_of(s).dom().len() == s.len(),
    decreases s.len(),
{
    if s.len() == 0 {
        assert(map_of(s).dom() =~= Set::<Seq<u8>>::empty());
    } else {
        let n = s.len() - 1;
        let t = s.remove(n);
        lemma_map_of_remove(s, n);
        lemma_map_of_len(t);
        lemma_map_of_rank(s, n);
        assert(map_of(s).dom() =~= map_of(t).dom().insert(s[n].0));
    }
}

/// `k` is the greatest key of `m` that lies strictly below `bound`.
pub open spec fn is_greatest_below(m: Map<Seq<u8>, Seq<u8>>, bound: Seq<u8>, k: Seq<u8>) -> bool {
    &&& m.contains_key(k)
    &&& lex_lt(k, bound)
    &&& forall|q: Seq<u8>| #[trigger] m.contains_key(q) && lex_lt(q, bound) ==> lex_le(q, k)
}

/// `k` is the greatest key of `m`.
pub open spec fn is_greatest(m: Map<Seq<u8>, Seq<u8>>, k: Seq<u8>) -> bool {
    &&& m.contains_key(k)
    &&& forall|q: Seq<u8>| #[trigger] m.contains_key(q) ==> lex_le(q, k)
}

/// Two increasing sequences that stand for the same mapping are the same sequence:
/// what a column holds decides every byte of it.
pub proof fn lemma_mapping_decides_pairs(a: Seq<Pair>, b: Seq<Pair>)
    requires
        keys_increase(a),
        keys_increase(b),
        map_of(a) == map_of(b),
    ensures
        a == b,
    decreases a.len(),
{
    lemma_map_of_len(a);
    lemma_map_of_len(b);
    if a.len() > 0 {
        let n = a.len() - 1;
        lemma_map_of_rank(a, n);
        lemma_map_of_rank(b, n);
        let r = rank_of(b, a[n].0);
        let q = rank_of(a, b[n].0);
        lemma_map_of_rank(b, r);
        lemma_map_of_rank(a, q);
        if r < n {
            assert(lex_lt(b[r].0, b[n].0));
            if q < n {
                assert(lex_lt(a[q].0, a[n].0));
                lemma_lex_asymmetric(a[n].0, b[n].0);
            } else {
                lemma_lex_irreflexive(a[n].0);
            }
        }
        assert(a[n] == b[n]);
        lemma_map_of_remove(a, n);
        lemma_map_of_remove(b, n);
        lemma_mapping_decides_pairs(a.remove(n), b.remove(n));
        assert(a =~= a.remove(n).push(a[n]));
        assert(b =~= b.remove(n).push(b[n]));
    } else {
        assert(a =~= b);
    }
}

/// One stored key with its value.
pub struct Entry {
    key: Vec<u8>,
    value: Vec<u8>,
}

/// A keyed collection of byte strings, held in the lexicographic order of its keys.
pub struct Column {
    entries: Vec<Entry>,
}

impl View for Column {
    type V = Map<Seq<u8>, Seq<u8>>;

    /// The mapping from key to value that the column holds.
    open spec fn view(&self) -> Map<Seq<u8>, Seq<u8>> {
        map_of(self.pairs())
    }
}

impl Column {
    /// The pairs of the column in the order of iteration.
    pub closed spec fn pairs(&self) -> Seq<Pair> {
        self.entries@.map_values(|e: Entry| (e.key@, e.value@))
    }

    /// The column's invariant: its keys strictly increase, so none occurs twice.
    pub open spec fn wf(&self) -> bool {
        keys_increase(self.pairs())
    }

    /// An empty column.
    pub fn new() -> (r: Column)
        ensures
            r.wf(),
            r.pairs() == Seq::<Pair>::empty(),
            r@ == Map::<Seq<u8>, Seq<u8>>::empty(),
    {
        let r = Column { entries: Vec::new() };
        assert(r.pairs() =~= Seq::<Pair>::empty());
        assert(r@ =~= Map::<Seq<u8>, Seq<u8>>::empty());
        r
    }

    /// The number of entries.
    pub fn len(&self) -> (n: usize)
        requires
            self.wf(),
        ensures
            n == self.pairs().len(),
            n == self@.dom().len(),
    {
        proof {
            lemma_map_of_len(self.pairs());
        }
        self.entries.len()
    }

    /// Whether the column holds no entry.
    pub fn is_empty(&self) -> (r: bool)
        requires
            self.wf(),
        ensures
            r == (self.pairs().len() == 0),
            r == (self@ == Map::<Seq<u8>, Seq<u8>>::empty()),
    {
        proof {
            lemma_map_of_len(self.pairs());
            if self.pairs().len() == 0 {
                assert(self@ =~= Map::<Seq<u8>, Seq<u8>>::empty());
            }
        }
        self.entries.len() == 0
    }

    /// The entry of rank `i` in the order of iteration, if the column has that many.
    pub fn entry(&self, i: usize) -> (r: Option<(&Vec<u8>, &Vec<u8>)>)
        ensures
            r is Some == (i < self.pairs().len()),
            r is Some ==> r->Some_0.0@ == self.pairs()[i as int].0 && r->Some_0.1@
                == self.pairs()[i as int].1,
    {
        if i < self.entries.len() {
            Some((&self.entries[i].key, &self.entries[i].value))
        } else {
            None
        }
    }

    /// The rank of the first key that is not below `key`: where a forward
    /// iteration from `key` starts, and a reverse iteration below it ends.
    pub fn lower_bound(&self, key: &[u8]) -> (i: usize)
        requires
            self.wf(),
        ensures
            i <= self.pairs().len(),
            forall|j: int| 0 <= j < i ==> lex_lt(#[trigger] self.pairs()[j].0, key@),
            forall|j: int| i <= j < self.pairs().len() ==> lex_le(key@, #[trigger] self.pairs()[j].0),
    {
        let mut lo: usize = 0;
        let mut hi: usize = self.entries.len();
        while lo < hi
            invariant
                self.wf(),
                lo <= hi <= self.pairs().len(),
                self.pairs().len() == self.entries@.len(),
                forall|j: int| 0 <= j < lo ==> lex_lt(#[trigger] self.pairs()[j].0, key@),
                forall|j: int|
                    hi <= j < self.pairs().len() ==> lex_le(key@, #[trigger] self.pairs()[j].0),
            decreases hi - lo,
        {
            let mid: usize = lo + (hi - lo) / 2;
            let ghost mid_key = self.pairs()[mid as int].0;
            if bytes_lt(&self.entries[mid].key, key) {
                proof {
                    assert forall|j: int| 0 <= j < mid + 1 implies lex_lt(
                        #[trigger] self.pairs()[j].0,
                        key@,
                    ) by {
                        if j < mid {
                            assert(lex_lt(self.pairs()[j].0, self.pairs()[mid as int].0));
                            lemma_lex_transitive(self.pairs()[j].0, mid_key, key@);
                        }
                    }
                }
                lo = mid + 1;
            } else {
                proof {
                    lemma_lex_total(mid_key, key@);
                    assert forall|j: int| mid <= j < self.pairs().len() implies lex_le(
                        key@,
                        #[trigger] self.pairs()[j].0,
                    ) by {
                        if j > mid {
                            assert(lex_lt(self.pairs()[mid as int].0, self.pairs()[j].0));
                            if key@ != mid_key {
                                lemma_lex_transitive(key@, mid_key, self.pairs()[j].0);
                            }
                        }
                    }
                }
                hi = mid;
            }
        }
        lo
    }

    /// The ranks of the entries whose keys lie from `start` on and below `end`: a
    /// forward iteration over that range visits the ranks from the first up to the
    /// second, which it leaves out, and a reverse iteration visits them downwards.
    pub fn range(&self, start: &[u8], end: &[u8]) -> (r: (usize, usize))
        requires
            self.wf(),
        ensures
            r.0 <= r.1 <= self.pairs().len(),
            forall|j: int|
                0 <= j < self.pairs().len() ==> ((r.0 <= j < r.1) == (lex_le(
                    start@,
                    #[trigger] self.pairs()[j].0,
                ) && lex_lt(self.pairs()[j].0, end@))),
    {
        let from: usize = self.lower_bound(start);
        let below: usize = self.lower_bound(end);
        let to: usize = if below < from {
            from
        } else {
            below
        };
        proof {
            let s = self.pairs();
            assert forall|j: int| 0 <= j < s.len() implies ((from <= j < to) == (lex_le(
                start@,
                #[trigger] s[j].0,
            ) && lex_lt(s[j].0, end@))) by {
                let k = s[j].0;
                lemma_lex_irreflexive(k);
                if j < from {
                    assert(lex_lt(k, start@));
                    lemma_lex_asymmetric(k, start@);
                } else {
                    assert(lex_le(start@, k));
                }
                if j < below {
                    assert(lex_lt(k, end@));
                } else {
                    assert(lex_le(end@, k));
                    if end@ != k {
                        lemma_lex_asymmetric(end@, k);
                    }
                }
            }
        }
        (from, to)
    }

    /// The value stored under `key`, if there is one.
    pub fn get(&self, key: &[u8]) -> (r: Option<&Vec<u8>>)
        requires
            self.wf(),
        ensures
            r is Some == self@.contains_key(key@),
            r is Some ==> r->Some_0@ == self@[key@],
    {
        let i: usize = self.lower_bound(key);
        if i < self.entries.len() && bytes_eq(&self.entries[i].key, key) {
            proof {
                lemma_map_of_rank(self.pairs(), i as int);
            }
            Some(&self.entries[i].value)
        } else {
            proof {
                self.lemma_absent(i as int, key@);
            }
            None
        }
    }

    /// Whether a value is stored under `key`.
    pub fn contains_key(&self, key: &[u8]) -> (r: bool)
        requires
            self.wf(),
        ensures
            r == self@.contains_key(key@),
    {
        self.get(key).is_some()
    }

    /// The entry with the greatest key, if the column is not empty.
    pub fn last(&self) -> (r: Option<(&Vec<u8>, &Vec<u8>)>)
        requires
            self.wf(),
        ensures
            r is None ==> self@ == Map::<Seq<u8>, Seq<u8>>::empty(),
            r is Some ==> is_greatest(self@, r->Some_0.0@) && self@[r->Some_0.0@] == r->Some_0.1@,
    {
        let n: usize = self.entries.len();
        if n == 0 {
            assert(self@ =~= Map::<Seq<u8>, Seq<u8>>::empty());
            None
        } else {
            proof {
                let s = self.pairs();
                lemma_map_of_rank(s, n - 1);
                assert forall|q: Seq<u8>| #[trigger] self@.contains_key(q) implies lex_le(
                    q,
                    s[n - 1].0,
                ) by {
                    let r = rank_of(s, q);
                    if r < n - 1 {
                        assert(lex_lt(s[r].0, s[n - 1].0));
                    }
                }
            }
            Some((&self.entries[n - 1].key, &self.entries[n - 1].value))
        }
    }

    /// The entry with the greatest key strictly below `bound`, if there is one:
    /// the first step of a reverse iteration over the keys below `bound`.
    pub fn last_below(&self, bound: &[u8]) -> (r: Option<(&Vec<u8>, &Vec<u8>)>)
        requires
            self.wf(),
        ensures
            r is None ==> forall|q: Seq<u8>| #[trigger] self@.contains_key(q) ==> !lex_lt(q, bound@),
            r is Some ==> is_greatest_below(self@, bound@, r->Some_0.0@) && self@[r->Some_0.0@]
                == r->Some_0.1@,
    {
        let i: usize = self.lower_bound(bound);
        let ghost s = self.pairs();
        if i == 0 {
            proof {
                assert forall|q: Seq<u8>| #[trigger] self@.contains_key(q) implies !lex_lt(
                    q,
                    bound@,
                ) by {
                    let r = rank_of(s, q);
                    assert(lex_le(bound@, s[r].0));
                    if lex_lt(q, bound@) {
                        lemma_lex_irreflexive(q);
                        lemma_lex_asymmetric(q, bound@);
                    }
                }
            }
            None
        } else {
            proof {
                lemma_map_of_rank(s, i - 1);
                assert forall|q: Seq<u8>| #[trigger]
                    self@.contains_key(q) && lex_lt(q, bound@) implies lex_le(q, s[i - 1].0) by {
                    let r = rank_of(s, q);
                    if r >= i {
                        assert(lex_le(bound@, s[r].0));
                        lemma_lex_irreflexive(q);
                        lemma_lex_asymmetric(q, bound@);
                    } else if r < i - 1 {
                        assert(lex_lt(s[r].0, s[i - 1].0));
                    }
                }
            }
            Some((&self.entries[i - 1].key, &self.entries[i - 1].value))
        }
    }

    /// Stores `value` under `key`, in place of the value that was there, if any.
    pub fn upsert(&mut self, key: Vec<u8>, value: Vec<u8>)
        requires
            old(self).wf(),
        ensures
            final(self).wf(),
            final(self)@ == old(self)@.insert(key@, value@),
    {
        let i: usize = self.lower_bound(&key);
        let ghost s = self.pairs();
        if i < self.entries.len() && bytes_eq(&self.entries[i].key, &key) {
            proof {
                lemma_map_of_update(s, i as int, value@);
            }
            self.entries.set(i, Entry { key, value });
            assert(self.pairs() =~= s.update(i as int, (key@, value@)));
        } else {
            proof {
                assert forall|j: int| i <= j < s.len() implies lex_lt(key@, #[trigger] s[j].0) by {
                    assert(lex_le(key@, s[j].0));
                    if j > i {
                        assert(lex_lt(s[i as int].0, s[j].0));
                        if key@ != s[i as int].0 {
                            lemma_lex_transitive(key@, s[i as int].0, s[j].0);
                        }
                    }
                }
                lemma_map_of_insert(s, i as int, key@, value@);
            }
            self.entries.insert(i, Entry { key, value });
            assert(self.pairs() =~= s.insert(i as int, (key@, value@)));
        }
    }

    /// Takes out the entry stored under `key`, if there is one.
    pub fn remove(&mut self, key: &[u8])
        requires
            old(self).wf(),
        ensures
            final(self).wf(),
            final(self)@ == old(self)@.remove(key@),
    {
        let i: usize = self.lower_bound(key);
        let ghost s = self.pairs();
        if i < self.entries.len() && bytes_eq(&self.entries[i].key, key) {
            proof {
                lemma_map_of_remove(s, i as int);
            }
            self.entries.remove(i);
            assert(self.pairs() =~= s.remove(i as int));
        } else {
            proof {
                self.lemma_absent(i as int, key@);
                assert(self@ =~= self@.remove(key@));
            }
        }
    }

    /// A copy of the column as it stands.
    pub fn snapshot(&self) -> (r: Column)
        requires
            self.wf(),
        ensures
            r.wf(),
            r.pairs() == self.pairs(),
            r@ == self@,
    {
        let mut entries: Vec<Entry> = Vec::new();
        let mut i: usize = 0;
        while i < self.entries.len()
            invariant
                i <= self.entries@.len(),
                entries@.len() == i,
                forall|j: int|
                    0 <= j < i ==> (#[trigger] entries@[j]).key@ == self.entries@[j].key@
                        && entries@[j].value@ == self.entries@[j].value@,
            decreases self.entries@.len() - i,
        {
            let key = vstd::slice::slice_to_vec(self.entries[i].key.as_slice());
            let value = vstd::slice::slice_to_vec(self.entries[i].value.as_slice());
            entries.push(Entry { key, value });
            i += 1;
        }
        let r = Column { entries };
        assert(r.pairs() =~= self.pairs());
        r
    }

    /// What the column holds is the mapping of its pairs, and the last of its
    /// pairs, if it has any, has its greatest key.
    pub proof fn lemma_last_is_greatest(&self)
        requires
            self.wf(),
        ensures
            self@.dom().finite(),
            self.pairs().len() == 0 <==> self@ == Map::<Seq<u8>, Seq<u8>>::empty(),
            self.pairs().len() > 0 ==> is_greatest(self@, self.pairs().last().0),
    {
        let s = self.pairs();
        lemma_map_of_len(s);
        if s.len() == 0 {
            assert(self@ =~= Map::<Seq<u8>, Seq<u8>>::empty());
        } else {
            let n = s.len() - 1;
            lemma_map_of_rank(s, n);
            assert forall|q: Seq<u8>| #[trigger] self@.contains_key(q) implies lex_le(q, s[n].0) by {
                let r = rank_of(s, q);
                if r < n {
                    assert(lex_lt(s[r].0, s[n].0));
                }
            }
        }
    }

    /// Two columns that hold the same mapping hold the same pairs in the same order.
    pub proof fn lemma_same_view_same_pairs(&self, other: &Column)
        requires
            self.wf(),
            other.wf(),
            self@ == other@,
        ensures
            self.pairs() == other.pairs(),
    {
        lemma_mapping_decides_pairs(self.pairs(), other.pairs());
    }

    /// A key that is not at the rank where it would stand is not in the column.
    proof fn lemma_absent(&self, i: int, key: Seq<u8>)
        requires
            self.wf(),
            0 <= i <= self.pairs().len(),
            forall|j: int| 0 <= j < i ==> lex_lt(#[trigger] self.pairs()[j].0, key),
            forall|j: int| i <= j < self.pairs().len() ==> lex_le(key, #[trigger] self.pairs()[j].0),
            i < self.pairs().len() ==> self.pairs()[i].0 != key,
        ensures
            !self@.contains_key(key),
    {
        let s = self.pairs();
        assert forall|j: int| i <= j < s.len() implies lex_lt(key, #[trigger] s[j].0) by {
            assert(lex_le(key, s[j].0));
            if j > i {
                assert(lex_lt(s[i].0, s[j].0));
                if key != s[i].0 {
                    lemma_lex_transitive(key, s[i].0, s[j].0);
                }
            }
        }
        lemma_absent_at_gap(s, i, key);
    }
}

} // verus!
