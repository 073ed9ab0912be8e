use vstd::prelude::*;
use crate::lex::{lex_less, lex_lt, lemma_lex_irreflexive, lemma_lex_total, lemma_lex_transitive, lemma_prefix_contiguous, lemma_prefix_not_less};
use crate::text::{chars_of, find_char, first_index_of, lemma_first_index_of, parse_entry, parse_entry_at, split_lines, strip_cr};

verus! {

/// Word ids above this value are too rare for the sentence model; they can only be
/// entered through the dictionary's exact matches.
pub const FREQ_THRESHOLD: usize = 4095;

/// `s` is sorted in strictly increasing order (hence holds no duplicates).
pub open spec fn strictly_increasing(s: Seq<u16>) -> bool {
    forall|i: int, j: int| 0 <= i < j < s.len() ==> s[i] < s[j]
}

/// Equality of two byte strings.
pub fn bytes_eq(a: &[u8], b: &[u8]) -> (r: bool)
    ensures
        r == (a@ == b@),
{
    if a.len() != b.len() {
        return false;
    }
    let mut i: usize = 0;
    while i < a.len()
        invariant
            a.len() == b.len(),
            i <= a.len(),
            forall|k: int| 0 <= k < i ==> a@[k] == b@[k],
        decreases a.len() - i,
    {
        if a[i] != b[i] {
            return false;
        }
        i = i + 1;
    }
    assert(a@ =~= b@);
    true
}

/// Whether `x` is a prefix of `k`.
pub fn is_prefix(x: &[u8], k: &[u8]) -> (r: bool)
    ensures
        r == x@.is_prefix_of(k@),
{
    if x.len() > k.len() {
        return false;
    }
    let mut i: usize = 0;
    while i < x.len()
        invariant
            x.len() <= k.len(),
            i <= x.len(),
            forall|j: int| 0 <= j < i ==> x@[j] == k@[j],
        decreases x.len() - i,
    {
        if x[i] != k[i] {
            assert(x@[i as int] != k@.subrange(0, x.len() as int)[i as int]);
            return false;
        }
        i = i + 1;
    }
    assert(x@ =~= k@.subrange(0, x.len() as int));
    true
}

/// Sort a list of word ids and remove duplicates.
pub fn sort_and_dedup(x: Vec<u16>) -> (r: Vec<u16>)
    ensures
        strictly_increasing(r@),
        r@.to_set() == x@.to_set(),
{
    sorted_set_of(x.as_slice())
}

/// The ids of `x`, in strictly increasing order (a merge sort that drops duplicates).
fn sorted_set_of(x: &[u16]) -> (r: Vec<u16>)
    ensures
        strictly_increasing(r@),
        r@.to_set() == x@.to_set(),
    decreases x@.len(),
{
    let n = x.len();
    if n == 0 {
        assert(x@.to_set() =~= Set::<u16>::empty());
        assert(Seq::<u16>::empty().to_set() =~= Set::<u16>::empty());
        return Vec::new();
    }
    if n == 1 {
        let mut r: Vec<u16> = Vec::new();
        r.push(x[0]);
        assert(r@ =~= x@);
        return r;
    }
    let mid = n / 2;
    let left = sorted_set_of(&x[0..mid]);
    let right = sorted_set_of(&x[mid..n]);
    proof {
        vstd::seq_lib::seq_to_set_distributes_over_add(x@.subrange(0, mid as int), x@.subrange(mid as int, n as int));
        assert(x@ =~= x@.subrange(0, mid as int) + x@.subrange(mid as int, n as int));
    }
    merge_union(left.as_slice(), right.as_slice())
}

/// The union, in strictly increasing order, of two strictly increasing lists.
fn merge_union(a: &[u16], b: &[u16]) -> (r: Vec<u16>)
    requires
        strictly_increasing(a@),
        strictly_increasing(b@),
    ensures
        strictly_increasing(r@),
        r@.to_set() == a@.to_set() + b@.to_set(),
{
    let mut r: Vec<u16> = Vec::new();
    let mut i: usize = 0;
    let mut j: usize = 0;
    assert(a@.take(0).to_set() + b@.take(0).to_set() =~= r@.to_set());
    while i < a.len() || j < b.len()
        invariant
            i <= a@.len(),
            j <= b@.len(),
            strictly_increasing(a@),
            strictly_increasing(b@),
            strictly_increasing(r@),
            r@.to_set() == a@.take(i as int).to_set() + b@.take(j as int).to_set(),
            forall|k: int|
                0 <= k < r@.len() ==> (i < a@.len() ==> #[trigger] r@[k] < a@[i as int]) && (j < b@.len() ==> r@[k]
                    < b@[j as int]),
        decreases a@.len() + b@.len() - i - j,
    {
        let ghost r0 = r@;
        let ghost ta = a@.take(i as int);
        let ghost tb = b@.take(j as int);
        if j == b.len() || (i < a.len() && a[i] < b[j]) {
            let v = a[i];
            r.push(v);
            proof {
                r0.lemma_push_to_set_commute(v);
                ta.lemma_push_to_set_commute(v);
                assert(a@.take(i + 1) =~= ta.push(v));
                assert(r@.to_set() =~= a@.take(i + 1).to_set() + tb.to_set());
            }
            i = i + 1;
        } else if i == a.len() || b[j] < a[i] {
            let v = b[j];
            r.push(v);
            proof {
                r0.lemma_push_to_set_commute(v);
                tb.lemma_push_to_set_commute(v);
                assert(b@.take(j + 1) =~= tb.push(v));
                assert(r@.to_set() =~= ta.to_set() + b@.take(j + 1).to_set());
            }
            j = j + 1;
        } else {
            let v = a[i];
            r.push(v);
            proof {
                r0.lemma_push_to_set_commute(v);
                ta.lemma_push_to_set_commute(v);
                tb.lemma_push_to_set_commute(v);
                assert(a@.take(i + 1) =~= ta.push(v));
                assert(b@.take(j + 1) =~= tb.push(v));
                assert(r@.to_set() =~= a@.take(i + 1).to_set() + b@.take(j + 1).to_set());
            }
            i = i + 1;
            j = j + 1;
        }
    }
    assert(a@.take(a@.len() as int) =~= a@);
    assert(b@.take(b@.len() as int) =~= b@);
    r
}

/// The map that the entry list `e` stands for: each key maps to the value stored beside it.
pub open spec fn entries_map(e: Seq<(Vec<u8>, Vec<u16>)>) -> Map<Seq<u8>, Seq<u16>> {
    Map::new(
        |k: Seq<u8>| exists|i: int| 0 <= i < e.len() && #[trigger] e[i].0@ == k,
        |k: Seq<u8>| e[choose|i: int| 0 <= i < e.len() && #[trigger] e[i].0@ == k].1@,
    )
}

/// No key occurs twice in the entry list.
pub open spec fn keys_unique(e: Seq<(Vec<u8>, Vec<u16>)>) -> bool {
    forall|i: int, j: int| 0 <= i < e.len() && 0 <= j < e.len() && i != j ==> e[i].0@ != e[j].0@
}

proof fn lemma_entries_map_at(e: Seq<(Vec<u8>, Vec<u16>)>, i: int)
    requires
        keys_unique(e),
        0 <= i < e.len(),
    ensures
        entries_map(e).dom().contains(e[i].0@),
        entries_map(e)[e[i].0@] == e[i].1@,
{
    let k = e[i].0@;
    assert(e[i].0@ == k);
    let j = choose|j: int| 0 <= j < e.len() && #[trigger] e[j].0@ == k;
    assert(j == i);
}

/// The keys of the entry list are in strictly increasing lexicographic order.
pub open spec fn keys_sorted(e: Seq<(Vec<u8>, Vec<u16>)>) -> bool {
    forall|i: int, j: int| 0 <= i < j < e.len() ==> lex_lt(#[trigger] e[i].0@, #[trigger] e[j].0@)
}

proof fn lemma_sorted_unique(e: Seq<(Vec<u8>, Vec<u16>)>)
    requires
        keys_sorted(e),
    ensures
        keys_unique(e),
{
    assert forall|i: int, j: int| 0 <= i < e.len() && 0 <= j < e.len() && i != j implies e[i].0@ != e[j].0@ by {
        if i < j {
            assert(lex_lt(e[i].0@, e[j].0@));
        } else {
            assert(lex_lt(e[j].0@, e[i].0@));
        }
        lemma_lex_irreflexive(e[i].0@);
    }
}

/// A map from token sequences (the typed letters) to the ids of the words they spell,
/// kept in lexicographic order of the token sequences, each at most once.
pub struct CodeMap {
    entries: Vec<(Vec<u8>, Vec<u16>)>,
}

impl View for CodeMap {
    type V = Map<Seq<u8>, Seq<u16>>;

    closed spec fn view(&self) -> Map<Seq<u8>, Seq<u16>> {
        entries_map(self.entries@)
    }
}

impl CodeMap {
    #[verifier::type_invariant]
    spec fn sorted(self) -> bool {
        keys_sorted(self.entries@)
    }

    /// The empty map.
    pub fn new() -> (m: CodeMap)
        ensures
            m@ == Map::<Seq<u8>, Seq<u16>>::empty(),
    {
        let m = CodeMap { entries: Vec::new() };
        assert(m@ =~= Map::<Seq<u8>, Seq<u16>>::empty());
        m
    }

    /// Add `k`, which sorts after every key of the map.
    fn push_last(&mut self, k: Vec<u8>, v: Vec<u16>)
        requires
            forall|kk: Seq<u8>| old(self)@.dom().contains(kk) ==> lex_lt(kk, k@),
        ensures
            final(self)@ == old(self)@.insert(k@, v@),
    {
        proof {
            use_type_invariant(&*self);
            lemma_sorted_unique(self.entries@);
        }
        let ghost old_e = self.entries@;
        let ghost n = old_e.len();
        let ghost kv = k@;
        proof {
            if n > 0 {
                lemma_entries_map_at(old_e, n - 1);
            }
        }
        let mut e: Vec<(Vec<u8>, Vec<u16>)> = Vec::new();
        std::mem::swap(&mut e, &mut self.entries);
        e.push((k, v));
        proof {
            let new_e = e@;
            assert(new_e[n as int].0@ == kv);
            assert forall|a: int, b: int| 0 <= a < b < new_e.len() implies lex_lt(#[trigger] new_e[a].0@, #[trigger] new_e[b].0@) by {
                if b == n {
                    assert(new_e[a] == old_e[a]);
                    if a < n - 1 {
                        assert(lex_lt(old_e[a].0@, old_e[n - 1].0@));
                        lemma_lex_transitive(old_e[a].0@, old_e[n - 1].0@, kv);
                    }
                } else {
                    assert(new_e[a] == old_e[a] && new_e[b] == old_e[b]);
                }
            }
            lemma_sorted_unique(new_e);
            lemma_map_after_insert(old_e, new_e, n as int);
        }
        self.entries = e;
    }

    /// The map of `a` and `b` together; where both hold a key, `b`'s ids are kept.
    fn merge(a: &CodeMap, b: &CodeMap) -> (r: CodeMap)
        ensures
            r@ == a@.union_prefer_right(b@),
    {
        proof {
            use_type_invariant(a);
            use_type_invariant(b);
        }
        let ae = &a.entries;
        let be = &b.entries;
        let ghost xa = ae@;
        let ghost xb = be@;
        let mut r = CodeMap::new();
        let mut i: usize = 0;
        let mut j: usize = 0;
        assert(r@ =~= entries_map(xa.take(0)).union_prefer_right(entries_map(xb.take(0))));
        while i < ae.len() || j < be.len()
            invariant
                xa == ae@,
                xb == be@,
                keys_sorted(xa),
                keys_sorted(xb),
                i <= xa.len(),
                j <= xb.len(),
                r@ == entries_map(xa.take(i as int)).union_prefer_right(entries_map(xb.take(j as int))),
                forall|kk: Seq<u8>|
                    #[trigger] r@.dom().contains(kk) ==> (i < xa.len() ==> lex_lt(kk, xa[i as int].0@)) && (j < xb.len()
                        ==> lex_lt(kk, xb[j as int].0@)),
            decreases xa.len() + xb.len() - i - j,
        {
            let ghost ma = entries_map(xa.take(i as int));
            let ghost mb = entries_map(xb.take(j as int));
            let ghost r0 = r@;
            if j < be.len() && (i == ae.len() || lex_less(be[j].0.as_slice(), ae[i].0.as_slice())) {
                let k = copy_key(be[j].0.as_slice());
                let v = copy_ids(be[j].1.as_slice());
                proof {
                    lemma_prefix_map(xb, j as int);
                    assert(r0.insert(k@, v@) =~= ma.union_prefer_right(entries_map(xb.take(j + 1))));
                }
                r.push_last(k, v);
                proof {
                    assert forall|kk: Seq<u8>| #[trigger] r@.dom().contains(kk) implies (i < xa.len() ==> lex_lt(kk, xa[i as int].0@))
                        && (j + 1 < xb.len() ==> lex_lt(kk, xb[j + 1].0@)) by {
                        if j + 1 < xb.len() {
                            assert(lex_lt(xb[j as int].0@, xb[j + 1].0@));
                            if kk != xb[j as int].0@ {
                                lemma_lex_transitive(kk, xb[j as int].0@, xb[j + 1].0@);
                            }
                        }
                    }
                }
                j = j + 1;
            } else if i < ae.len() && (j == be.len() || lex_less(ae[i].0.as_slice(), be[j].0.as_slice())) {
                let k = copy_key(ae[i].0.as_slice());
                let v = copy_ids(ae[i].1.as_slice());
                proof {
                    lemma_prefix_map(xa, i as int);
                    assert(!mb.dom().contains(k@)) by {
                        if mb.dom().contains(k@) {
                            assert(r0.dom().contains(k@));
                            lemma_lex_irreflexive(k@);
                        }
                    }
                    assert(r0.insert(k@, v@) =~= entries_map(xa.take(i + 1)).union_prefer_right(mb));
                }
                r.push_last(k, v);
                proof {
                    assert forall|kk: Seq<u8>| #[trigger] r@.dom().contains(kk) implies (i + 1 < xa.len() ==> lex_lt(kk, xa[i + 1].0@))
                        && (j < xb.len() ==> lex_lt(kk, xb[j as int].0@)) by {
                        if i + 1 < xa.len() {
                            assert(lex_lt(xa[i as int].0@, xa[i + 1].0@));
                            if kk != xa[i as int].0@ {
                                lemma_lex_transitive(kk, xa[i as int].0@, xa[i + 1].0@);
                            }
                        }
                    }
                }
                i = i + 1;
            } else {
                proof {
                    if xa[i as int].0@ != xb[j as int].0@ {
                        lemma_lex_total(xa[i as int].0@, xb[j as int].0@);
                    }
                }
                let k = copy_key(be[j].0.as_slice());
                let v = copy_ids(be[j].1.as_slice());
                proof {
                    lemma_prefix_map(xa, i as int);
                    lemma_prefix_map(xb, j as int);
                    assert(r0.insert(k@, v@) =~= entries_map(xa.take(i + 1)).union_prefer_right(entries_map(xb.take(j + 1))));
                }
                r.push_last(k, v);
                proof {
                    assert forall|kk: Seq<u8>| #[trigger] r@.dom().contains(kk) implies (i + 1 < xa.len() ==> lex_lt(kk, xa[i + 1].0@))
                        && (j + 1 < xb.len() ==> lex_lt(kk, xb[j + 1].0@)) by {
                        if i + 1 < xa.len() {
                            assert(lex_lt(xa[i as int].0@, xa[i + 1].0@));
                            if kk != xa[i as int].0@ {
                                lemma_lex_transitive(kk, xa[i as int].0@, xa[i + 1].0@);
                            }
                        }
                        if j + 1 < xb.len() {
                            assert(lex_lt(xb[j as int].0@, xb[j + 1].0@));
                            if kk != xb[j as int].0@ {
                                lemma_lex_transitive(kk, xb[j as int].0@, xb[j + 1].0@);
                            }
                        }
                    }
                }
                i = i + 1;
                j = j + 1;
            }
        }
        proof {
            assert(xa.take(xa.len() as int) =~= xa);
            assert(xb.take(xb.len() as int) =~= xb);
        }
        r
    }

    /// Number of token sequences in the map.
    pub fn len(&self) -> (n: usize)
        ensures
            n == self@.dom().len(),
    {
        proof {
            use_type_invariant(self);
            lemma_sorted_unique(self.entries@);
            self.lemma_dom_len();
        }
        self.entries.len()
    }

    proof fn lemma_dom_len(&self)
        requires
            keys_unique(self.entries@),
        ensures
            self@.dom().finite(),
            self@.dom().len() == self.entries@.len(),
    {
        let e = self.entries@;
        let keys = e.map_values(|p: (Vec<u8>, Vec<u16>)| p.0@);
        assert(keys.no_duplicates());
        assert(self@.dom() =~= keys.to_set()) by {
            assert forall|k: Seq<u8>| self@.dom().contains(k) implies keys.contains(k) by {
                let i = choose|i: int| 0 <= i < e.len() && #[trigger] e[i].0@ == k;
                assert(keys[i] == k);
            }
            assert forall|k: Seq<u8>| keys.contains(k) implies self@.dom().contains(k) by {
                let i = choose|i: int| 0 <= i < keys.len() && keys[i] == k;
                assert(e[i].0@ == k);
            }
        }
        keys.unique_seq_to_set();
    }

    /// The first position whose key does not come before `k` (binary search): the keys
    /// before it come before `k`, the others do not.
    fn lower_bound(&self, k: &[u8]) -> (p: usize)
        ensures
            p <= self.entries@.len(),
            forall|i: int| 0 <= i < p ==> lex_lt(#[trigger] self.entries@[i].0@, k@),
            forall|i: int| p <= i < self.entries@.len() ==> !lex_lt(#[trigger] self.entries@[i].0@, k@),
    {
        proof {
            use_type_invariant(self);
        }
        let ghost e = self.entries@;
        let mut lo: usize = 0;
        let mut hi: usize = self.entries.len();
        while lo < hi
            invariant
                e == self.entries@,
                keys_sorted(e),
                lo <= hi <= e.len(),
                forall|i: int| 0 <= i < lo ==> lex_lt(#[trigger] e[i].0@, k@),
                forall|i: int| hi <= i < e.len() ==> !lex_lt(#[trigger] e[i].0@, k@),
            decreases hi - lo,
        {
            let mid = lo + (hi - lo) / 2;
            if lex_less(self.entries[mid].0.as_slice(), k) {
                assert forall|i: int| 0 <= i < mid + 1 implies lex_lt(#[trigger] e[i].0@, k@) by {
                    if i < mid {
                        assert(lex_lt(e[i].0@, e[mid as int].0@));
                        lemma_lex_transitive(e[i].0@, e[mid as int].0@, k@);
                    }
                }
                lo = mid + 1;
            } else {
                assert forall|i: int| mid <= i < e.len() implies !lex_lt(#[trigger] e[i].0@, k@) by {
                    if i > mid && lex_lt(e[i].0@, k@) {
                        assert(lex_lt(e[mid as int].0@, e[i].0@));
                        lemma_lex_transitive(e[mid as int].0@, e[i].0@, k@);
                    }
                }
                hi = mid;
            }
        }
        lo
    }

    /// Where `k` is or would go: whether it is present, and the first position whose key
    /// does not come before it.
    fn locate(&self, k: &[u8]) -> (r: (bool, usize))
        ensures
            r.1 <= self.entries@.len(),
            forall|i: int| 0 <= i < r.1 ==> lex_lt(#[trigger] self.entries@[i].0@, k@),
            forall|i: int| r.1 <= i < self.entries@.len() ==> !lex_lt(#[trigger] self.entries@[i].0@, k@),
            r.0 <==> r.1 < self.entries@.len() && self.entries@[r.1 as int].0@ == k@,
            r.0 ==> self@.dom().contains(k@) && self@[k@] == self.entries@[r.1 as int].1@,
            !r.0 ==> !self@.dom().contains(k@),
    {
        proof {
            use_type_invariant(self);
            lemma_sorted_unique(self.entries@);
        }
        let ghost e = self.entries@;
        let p = self.lower_bound(k);
        let found = p < self.entries.len() && bytes_eq(self.entries[p].0.as_slice(), k);
        proof {
            if found {
                lemma_entries_map_at(e, p as int);
            } else {
                assert forall|i: int| 0 <= i < e.len() implies e[i].0@ != k@ by {
                    if i < p {
                        lemma_lex_irreflexive(k@);
                    } else if i > p {
                        assert(lex_lt(e[p as int].0@, e[i].0@));
                    }
                }
            }
        }
        (found, p)
    }

    /// The word ids stored for `k`.
    pub fn get(&self, k: &[u8]) -> (r: Option<&Vec<u16>>)
        ensures
            r is Some <==> self@.dom().contains(k@),
            r matches Some(v) ==> v@ == self@[k@],
    {
        let (found, p) = self.locate(k);
        if found {
            Some(&self.entries[p].1)
        } else {
            None
        }
    }

    /// Store `v` for `k`, replacing what was stored for `k` before.
    pub fn insert(&mut self, k: Vec<u8>, v: Vec<u16>)
        ensures
            final(self)@ == old(self)@.insert(k@, v@),
    {
        proof {
            use_type_invariant(&*self);
            lemma_sorted_unique(self.entries@);
        }
        let ghost old_e = self.entries@;
        let ghost kv = k@;
        let ghost vv = v@;
        let (found, p) = self.locate(k.as_slice());
        let mut e: Vec<(Vec<u8>, Vec<u16>)> = Vec::new();
        std::mem::swap(&mut e, &mut self.entries);
        if found {
            e.set(p, (k, v));
            let ghost new_e = e@;
            assert(new_e == old_e.update(p as int, new_e[p as int]));
            assert(keys_sorted(new_e)) by {
                assert forall|a: int, b: int| 0 <= a < b < new_e.len() implies lex_lt(#[trigger] new_e[a].0@, #[trigger] new_e[b].0@) by {
                    assert(old_e[a].0@ == new_e[a].0@);
                    assert(old_e[b].0@ == new_e[b].0@);
                }
            }
            proof {
                lemma_sorted_unique(new_e);
                lemma_map_after_update(old_e, new_e, p as int);
            }
            self.entries = e;
        } else {
            e.insert(p, (k, v));
            let ghost new_e = e@;
            assert(keys_sorted(new_e)) by {
                assert forall|q: int| p <= q < old_e.len() implies lex_lt(kv, #[trigger] old_e[q].0@) by {
                    assert(old_e[q].0@ != kv) by {
                        if q > p {
                            assert(lex_lt(old_e[p as int].0@, old_e[q].0@));
                        }
                    }
                    lemma_lex_total(kv, old_e[q].0@);
                }
                assert forall|a: int, b: int| 0 <= a < b < new_e.len() implies lex_lt(#[trigger] new_e[a].0@, #[trigger] new_e[b].0@) by {
                    if b < p {
                        assert(new_e[a] == old_e[a] && new_e[b] == old_e[b]);
                    } else if b == p {
                        assert(new_e[a] == old_e[a]);
                    } else if a < p {
                        assert(new_e[a] == old_e[a] && new_e[b] == old_e[b - 1]);
                        lemma_lex_transitive(old_e[a].0@, kv, old_e[b - 1].0@);
                    } else if a == p {
                        assert(new_e[b] == old_e[b - 1]);
                    } else {
                        assert(new_e[a] == old_e[a - 1] && new_e[b] == old_e[b - 1]);
                    }
                }
            }
            proof {
                lemma_sorted_unique(new_e);
                lemma_map_after_insert(old_e, new_e, p as int);
            }
            self.entries = e;
        }
    }
}

proof fn lemma_map_after_update(old_e: Seq<(Vec<u8>, Vec<u16>)>, new_e: Seq<(Vec<u8>, Vec<u16>)>, p: int)
    requires
        keys_unique(old_e),
        keys_unique(new_e),
        0 <= p < old_e.len(),
        new_e.len() == old_e.len(),
        new_e[p].0@ == old_e[p].0@,
        forall|i: int| 0 <= i < old_e.len() && i != p ==> new_e[i] == old_e[i],
    ensures
        entries_map(new_e) == entries_map(old_e).insert(new_e[p].0@, new_e[p].1@),
{
    let kv = new_e[p].0@;
    let vv = new_e[p].1@;
    lemma_entries_map_at(new_e, p);
    assert forall|key: Seq<u8>| #[trigger] entries_map(new_e).dom().contains(key) == entries_map(old_e).insert(kv, vv).dom().contains(key) by {
        if key != kv {
            if entries_map(new_e).dom().contains(key) {
                let j = choose|j: int| 0 <= j < new_e.len() && #[trigger] new_e[j].0@ == key;
                assert(old_e[j].0@ == key);
            }
            if entries_map(old_e).dom().contains(key) {
                let j = choose|j: int| 0 <= j < old_e.len() && #[trigger] old_e[j].0@ == key;
                assert(new_e[j].0@ == key);
            }
        }
    }
    assert forall|key: Seq<u8>| entries_map(new_e).dom().contains(key) implies #[trigger] entries_map(new_e)[key] == entries_map(old_e).insert(kv, vv)[key] by {
        if key != kv {
            let j = choose|j: int| 0 <= j < new_e.len() && #[trigger] new_e[j].0@ == key;
            assert(old_e[j].0@ == key);
            lemma_entries_map_at(new_e, j);
            lemma_entries_map_at(old_e, j);
        }
    }
    assert(entries_map(new_e) =~= entries_map(old_e).insert(kv, vv));
}

proof fn lemma_map_after_insert(old_e: Seq<(Vec<u8>, Vec<u16>)>, new_e: Seq<(Vec<u8>, Vec<u16>)>, p: int)
    requires
        keys_unique(old_e),
        keys_unique(new_e),
        0 <= p <= old_e.len(),
        new_e.len() == old_e.len() + 1,
        forall|i: int| 0 <= i < p ==> new_e[i] == old_e[i],
        forall|i: int| p < i < new_e.len() ==> new_e[i] == old_e[i - 1],
    ensures
        entries_map(new_e) == entries_map(old_e).insert(new_e[p].0@, new_e[p].1@),
{
    let kv = new_e[p].0@;
    let vv = new_e[p].1@;
    lemma_entries_map_at(new_e, p);
    assert forall|key: Seq<u8>| #[trigger] entries_map(new_e).dom().contains(key) == entries_map(old_e).insert(kv, vv).dom().contains(key) by {
        if key != kv {
            if entries_map(new_e).dom().contains(key) {
                let j = choose|j: int| 0 <= j < new_e.len() && #[trigger] new_e[j].0@ == key;
                if j < p {
                    assert(old_e[j].0@ == key);
                } else {
                    assert(old_e[j - 1].0@ == key);
                }
            }
            if entries_map(old_e).dom().contains(key) {
                let j = choose|j: int| 0 <= j < old_e.len() && #[trigger] old_e[j].0@ == key;
                if j < p {
                    assert(new_e[j].0@ == key);
                } else {
                    assert(new_e[j + 1].0@ == key);
                }
            }
        }
    }
    assert forall|key: Seq<u8>| entries_map(new_e).dom().contains(key) implies #[trigger] entries_map(new_e)[key] == entries_map(old_e).insert(kv, vv)[key] by {
        if key != kv {
            let j = choose|j: int| 0 <= j < new_e.len() && #[trigger] new_e[j].0@ == key;
            lemma_entries_map_at(new_e, j);
            if j < p {
                lemma_entries_map_at(old_e, j);
            } else {
                lemma_entries_map_at(old_e, j - 1);
            }
        }
    }
    assert(entries_map(new_e) =~= entries_map(old_e).insert(kv, vv));
}

/// Adding the next entry of a sorted entry list to its prefix adds that entry to the map.
proof fn lemma_prefix_map(e: Seq<(Vec<u8>, Vec<u16>)>, i: int)
    requires
        keys_sorted(e),
        0 <= i < e.len(),
    ensures
        entries_map(e.take(i + 1)) == entries_map(e.take(i)).insert(e[i].0@, e[i].1@),
{
    let a = e.take(i);
    let b = e.take(i + 1);
    assert(keys_sorted(a)) by {
        assert forall|x: int, y: int| 0 <= x < y < a.len() implies lex_lt(#[trigger] a[x].0@, #[trigger] a[y].0@) by {
            assert(a[x] == e[x] && a[y] == e[y]);
        }
    }
    assert(keys_sorted(b)) by {
        assert forall|x: int, y: int| 0 <= x < y < b.len() implies lex_lt(#[trigger] b[x].0@, #[trigger] b[y].0@) by {
            assert(b[x] == e[x] && b[y] == e[y]);
        }
    }
    lemma_sorted_unique(a);
    lemma_sorted_unique(b);
    lemma_map_after_insert(a, b, i);
}

/// Append every id of `v` to `r`.
fn append_ids(r: &mut Vec<u16>, v: &[u16])
    ensures
        final(r)@ == old(r)@ + v@,
{
    let mut i: usize = 0;
    while i < v.len()
        invariant
            i <= v.len(),
            r@ == old(r)@ + v@.subrange(0, i as int),
        decreases v.len() - i,
    {
        r.push(v[i]);
        assert(v@.subrange(0, i + 1) =~= v@.subrange(0, i as int).push(v@[i as int]));
        i = i + 1;
    }
    assert(v@.subrange(0, v.len() as int) =~= v@);
}

/// The ids stored under every key of `m` that starts with `x`.
pub open spec fn prefix_id_set(m: Map<Seq<u8>, Seq<u16>>, x: Seq<u8>) -> Set<u16> {
    Set::new(|id: u16| exists|k: Seq<u8>| #[trigger] m.dom().contains(k) && x.is_prefix_of(k) && m[k].contains(id))
}

/// The ids stored under the keys `x[..1]`, `x[..2]`, ..., `x[..n]` of `m`.
pub open spec fn prefixes_id_set(m: Map<Seq<u8>, Seq<u16>>, x: Seq<u8>, n: int) -> Set<u16> {
    Set::new(|id: u16| exists|i: int| 1 <= i <= n && #[trigger] m.dom().contains(x.take(i)) && m[x.take(i)].contains(id))
}

/// The smaller of `a` and `b`.
pub open spec fn min_len(a: int, b: int) -> int {
    if a < b { a } else { b }
}

/// The sorted, repetition-free list of the ids in `s` (for a finite `s`).
pub open spec fn sorted_ids(s: Set<u16>) -> Seq<u16> {
    choose|q: Seq<u16>| strictly_increasing(q) && q.to_set() == s
}

/// What `prefix_perfect` returns for `x` on a dictionary with map `m` and longest
/// token sequence `max_len`.
pub open spec fn prefix_perfect_spec(m: Map<Seq<u8>, Seq<u16>>, max_len: int, x: Seq<u8>) -> Seq<u16> {
    if x.len() == 0 || x.len() > max_len {
        Seq::empty()
    } else {
        sorted_ids(prefix_id_set(m, x))
    }
}

/// A sorted, repetition-free `q` is the one `sorted_ids` names for its set.
pub proof fn lemma_sorted_ids(q: Seq<u16>)
    requires
        strictly_increasing(q),
    ensures
        sorted_ids(q.to_set()) == q,
{
    let c = sorted_ids(q.to_set());
    assert(strictly_increasing(q) && q.to_set() == q.to_set());
    law_sorted_set_determines(c, q);
}

/// What the map holds for `x`, or nothing.
pub open spec fn lookup_ids(m: Map<Seq<u8>, Seq<u16>>, x: Seq<u8>) -> Seq<u16> {
    if m.dom().contains(x) { m[x] } else { Seq::empty() }
}

impl CodeMap {
    /// All ids stored under keys that start with `x`, in key order, possibly repeated:
    /// those keys follow one another from the first key that does not come before `x`.
    pub(crate) fn prefix_values(&self, x: &[u8]) -> (r: Vec<u16>)
        ensures
            r@.to_set() == prefix_id_set(self@, x@),
    {
        proof {
            use_type_invariant(self);
            lemma_sorted_unique(self.entries@);
        }
        let ghost e = self.entries@;
        let p = self.lower_bound(x);
        proof {
            assert forall|j: int| 0 <= j < p implies !x@.is_prefix_of(#[trigger] e[j].0@) by {
                if x@.is_prefix_of(e[j].0@) {
                    lemma_prefix_not_less(x@, e[j].0@);
                }
            }
        }
        let mut r: Vec<u16> = Vec::new();
        let mut i: usize = p;
        while i < self.entries.len() && is_prefix(x, self.entries[i].0.as_slice())
            invariant
                e == self.entries@,
                keys_sorted(e),
                keys_unique(e),
                p <= i <= e.len(),
                forall|j: int| 0 <= j < p ==> !x@.is_prefix_of(#[trigger] e[j].0@),
                forall|j: int| p <= j < e.len() ==> !lex_lt(#[trigger] e[j].0@, x@),
                forall|j: int| p <= j < i ==> x@.is_prefix_of(#[trigger] e[j].0@),
                forall|id: u16| #[trigger] r@.contains(id) <==> exists|j: int|
                    p <= j < i && #[trigger] e[j].1@.contains(id),
            decreases e.len() - i,
        {
            let ghost before = r@;
            append_ids(&mut r, self.entries[i].1.as_slice());
            assert forall|id: u16| #[trigger] r@.contains(id) <==> exists|j: int|
                p <= j < i + 1 && #[trigger] e[j].1@.contains(id) by {
                if r@.contains(id) {
                    let k = choose|k: int| 0 <= k < r@.len() && r@[k] == id;
                    if k < before.len() {
                        assert(before[k] == id);
                        assert(before.contains(id));
                    } else {
                        assert(e[i as int].1@[k - before.len()] == id);
                        assert(e[i as int].1@.contains(id));
                    }
                }
                if exists|j: int| p <= j < i + 1 && #[trigger] e[j].1@.contains(id) {
                    let j = choose|j: int| p <= j < i + 1 && #[trigger] e[j].1@.contains(id);
                    if j < i {
                        assert(before.contains(id));
                        let k = choose|k: int| 0 <= k < before.len() && before[k] == id;
                        assert(r@[k] == id);
                    } else {
                        let k = choose|k: int| 0 <= k < e[j].1@.len() && e[j].1@[k] == id;
                        assert(r@[before.len() + k] == id);
                    }
                }
            }
            i = i + 1;
        }
        proof {
            assert forall|j: int| i <= j < e.len() implies !x@.is_prefix_of(#[trigger] e[j].0@) by {
                if j > i {
                    assert(lex_lt(e[i as int].0@, e[j].0@));
                    lemma_prefix_contiguous(x@, e[i as int].0@, e[j].0@);
                }
            }
        }
        assert(r@.to_set() =~= prefix_id_set(self@, x@)) by {
            assert forall|id: u16| r@.to_set().contains(id) implies prefix_id_set(self@, x@).contains(id) by {
                assert(r@.contains(id));
                let j = choose|j: int| p <= j < i && #[trigger] e[j].1@.contains(id);
                lemma_entries_map_at(e, j);
                assert(self@.dom().contains(e[j].0@));
            }
            assert forall|id: u16| prefix_id_set(self@, x@).contains(id) implies r@.to_set().contains(id) by {
                let k = choose|k: Seq<u8>| #[trigger] self@.dom().contains(k) && x@.is_prefix_of(k) && self@[k].contains(id);
                let j = choose|j: int| 0 <= j < e.len() && #[trigger] e[j].0@ == k;
                lemma_entries_map_at(e, j);
                assert(e[j].1@.contains(id));
                assert(p <= j < i);
                assert(r@.contains(id));
            }
        }
        r
    }
}

/// The dictionary of an input method: which typed token sequences spell which words.
/// Word ids start at 1; `id[w - 1]` is the character of word `w`.
pub struct Encoding {
    /// Length of the longest token sequence in `map`.
    pub max_len: usize,
    /// Token sequence to word ids.
    pub map: CodeMap,
    /// The character of each word id, shifted by one.
    pub id: Vec<char>,
}

impl Encoding {
    /// The ids of the words spelled exactly by `x`.
    pub fn perfect_perfect(&self, x: &[u8]) -> (r: Vec<u16>)
        ensures
            r@ == lookup_ids(self.map@, x@),
    {
        let mut r: Vec<u16> = Vec::new();
        match self.map.get(x) {
            Some(v) => {
                append_ids(&mut r, v.as_slice());
                assert(r@ =~= v@);
            },
            None => {
                assert(r@ =~= Seq::<u16>::empty());
            },
        }
        r
    }

    /// The ids, sorted and without repetition, of every word whose token sequence starts
    /// with `x`; nothing for an empty `x` or one longer than any token sequence.
    /// The search covers the token sequences from `x` up to, not including, `x` with its
    /// last token raised by one; for a last token of 255 that bound does not exist, so such
    /// an `x` (of a length within range) is outside the domain.
    pub fn prefix_perfect(&self, x: &[u8]) -> (r: Vec<u16>)
        requires
            0 < x@.len() <= self.max_len ==> x@.last() < 255,
        ensures
            x@.len() == 0 || x@.len() > self.max_len ==> r@ == Seq::<u16>::empty(),
            0 < x@.len() <= self.max_len ==> strictly_increasing(r@) && r@.to_set() == prefix_id_set(
                self.map@,
                x@,
            ),
            r@ == prefix_perfect_spec(self.map@, self.max_len as int, x@),
    {
        if x.len() == 0 || x.len() > self.max_len {
            let r = Vec::new();
            assert(r@ =~= Seq::<u16>::empty());
            return r;
        }
        let all = self.map.prefix_values(x);
        let r = sort_and_dedup(all);
        proof {
            lemma_sorted_ids(r@);
        }
        r
    }

    /// The ids, sorted and without repetition, of every word spelled exactly by one of
    /// `x[..1]`, ..., `x[..n]`: the codes that are prefixes of `x`, where `n` is the
    /// longest spelling or the length of `x` if that is shorter.
    pub fn perfect_prefix(&self, x: &[u8]) -> (r: Vec<u16>)
        ensures
            strictly_increasing(r@),
            r@.to_set() == prefixes_id_set(self.map@, x@, min_len(self.max_len as int, x@.len() as int)),
            r@ == sorted_ids(prefixes_id_set(self.map@, x@, min_len(self.max_len as int, x@.len() as int))),
    {
        let n = if x.len() < self.max_len {
            x.len()
        } else {
            self.max_len
        };
        let mut all: Vec<u16> = Vec::new();
        let mut i: usize = 0;
        while i < n
            invariant
                n == min_len(self.max_len as int, x@.len() as int),
                i <= n <= x@.len(),
                forall|id: u16| #[trigger] all@.contains(id) <==> exists|j: int|
                    1 <= j <= i && #[trigger] self.map@.dom().contains(x@.take(j)) && self.map@[x@.take(j)].contains(id),
            decreases n - i,
        {
            let ghost before = all@;
            let part = self.perfect_perfect(&x[0..i + 1]);
            assert(x@.subrange(0, i + 1) == x@.take(i + 1));
            append_ids(&mut all, part.as_slice());
            assert forall|id: u16| #[trigger] all@.contains(id) <==> exists|j: int|
                1 <= j <= i + 1 && #[trigger] self.map@.dom().contains(x@.take(j)) && self.map@[x@.take(j)].contains(id) by {
                if all@.contains(id) {
                    let k = choose|k: int| 0 <= k < all@.len() && all@[k] == id;
                    if k < before.len() {
                        assert(before[k] == id);
                        assert(before.contains(id));
                    } else {
                        assert(part@[k - before.len()] == id);
                        assert(self.map@.dom().contains(x@.take(i + 1)));
                        assert(self.map@[x@.take(i + 1)].contains(id));
                    }
                }
                if exists|j: int| 1 <= j <= i + 1 && #[trigger] self.map@.dom().contains(x@.take(j)) && self.map@[x@.take(j)].contains(id) {
                    let j = choose|j: int| 1 <= j <= i + 1 && #[trigger] self.map@.dom().contains(x@.take(j)) && self.map@[x@.take(j)].contains(id);
                    if j <= i {
                        assert(before.contains(id));
                        let k = choose|k: int| 0 <= k < before.len() && before[k] == id;
                        assert(all@[k] == id);
                    } else {
                        let k = choose|k: int| 0 <= k < part@.len() && part@[k] == id;
                        assert(all@[before.len() + k] == id);
                    }
                }
            }
            i = i + 1;
        }
        let r = sort_and_dedup(all);
        assert(r@.to_set() =~= prefixes_id_set(self.map@, x@, n as int)) by {
            assert forall|id: u16| r@.to_set().contains(id) == prefixes_id_set(self.map@, x@, n as int).contains(id) by {
                assert(r@.to_set().contains(id) == all@.to_set().contains(id));
                assert(all@.to_set().contains(id) == all@.contains(id));
            }
        }
        proof {
            lemma_sorted_ids(r@);
        }
        r
    }
}

/// The longest token sequence and the map that a dictionary text's lines make, each
/// line overriding what an earlier line with the same token sequence stored; `None`
/// when a line does not read.
pub open spec fn build_map(lines: Seq<Seq<char>>) -> Option<(nat, Map<Seq<u8>, Seq<u16>>)>
    decreases lines.len(),
{
    if lines.len() == 0 {
        Some((0nat, Map::empty()))
    } else {
        match build_map(lines.drop_last()) {
            Some((ml, m)) => match parse_entry(lines.last()) {
                Some((k, v)) => Some((if k.len() > ml { k.len() } else { ml }, m.insert(k, v))),
                None => None,
            },
            None => None,
        }
    }
}

proof fn lemma_build_map_none(a: Seq<Seq<char>>, b: Seq<Seq<char>>)
    requires
        build_map(a) is None,
    ensures
        build_map(a + b) is None,
    decreases b.len(),
{
    if b.len() > 0 {
        lemma_build_map_none(a, b.drop_last());
        assert((a + b).drop_last() =~= a + b.drop_last());
    } else {
        assert(a + b =~= a);
    }
}

/// The characters of each line of a text, first character only; `None` when a line is empty.
pub open spec fn build_ids(lines: Seq<Seq<char>>) -> Option<Seq<char>>
    decreases lines.len(),
{
    if lines.len() == 0 {
        Some(Seq::empty())
    } else {
        match build_ids(lines.drop_last()) {
            Some(ids) => if lines.last().len() > 0 {
                Some(ids.push(lines.last()[0]))
            } else {
                None
            },
            None => None,
        }
    }
}

proof fn lemma_build_ids_none(a: Seq<Seq<char>>, b: Seq<Seq<char>>)
    requires
        build_ids(a) is None,
    ensures
        build_ids(a + b) is None,
    decreases b.len(),
{
    if b.len() > 0 {
        lemma_build_ids_none(a, b.drop_last());
        assert((a + b).drop_last() =~= a + b.drop_last());
    } else {
        assert(a + b =~= a);
    }
}

/// Where the line that starts at `p` ends (`e`, the newline or the end of the text), and
/// where its content ends once a carriage return before the newline is dropped.
pub(crate) fn line_bounds(t: &[char], p: usize) -> (r: (usize, usize))
    requires
        p < t@.len(),
    ensures
        p <= r.1 <= r.0 <= t@.len(),
        split_lines(t@.skip(p as int)) == if r.0 < t@.len() {
            seq![t@.subrange(p as int, r.1 as int)] + split_lines(t@.skip(r.0 + 1))
        } else {
            seq![t@.subrange(p as int, r.1 as int)]
        },
{
    let n = t.len();
    let e = find_char(t, p, n, '\n');
    let ghost s = t@.skip(p as int);
    assert(s =~= t@.subrange(p as int, n as int));
    let mut hi = e;
    if e < n && e > p && t[e - 1] == '\r' {
        hi = e - 1;
    }
    proof {
        if e < n {
            assert(s.take(e - p) =~= t@.subrange(p as int, e as int));
            assert(s.skip(e - p + 1) =~= t@.skip(e + 1));
            assert(strip_cr(s.take(e - p)) =~= t@.subrange(p as int, hi as int));
        } else {
            assert(s =~= t@.subrange(p as int, hi as int));
        }
    }
    (e, hi)
}

/// The map that inserting the entries of `e` one after the other makes: a later entry
/// replaces an earlier one with the same key.
pub open spec fn inserted(e: Seq<(Vec<u8>, Vec<u16>)>) -> Map<Seq<u8>, Seq<u16>>
    decreases e.len(),
{
    if e.len() == 0 {
        Map::empty()
    } else {
        inserted(e.drop_last()).insert(e.last().0@, e.last().1@)
    }
}

proof fn lemma_inserted_concat(x: Seq<(Vec<u8>, Vec<u16>)>, y: Seq<(Vec<u8>, Vec<u16>)>)
    ensures
        inserted(x + y) == inserted(x).union_prefer_right(inserted(y)),
    decreases y.len(),
{
    if y.len() == 0 {
        assert(x + y =~= x);
        assert(inserted(x).union_prefer_right(inserted(y)) =~= inserted(x));
    } else {
        lemma_inserted_concat(x, y.drop_last());
        assert((x + y).drop_last() =~= x + y.drop_last());
        assert((x + y).last() == y.last());
        assert(inserted(x + y) =~= inserted(x).union_prefer_right(inserted(y)));
    }
}

/// A copy of the token sequence `x`.
fn copy_key(x: &[u8]) -> (r: Vec<u8>)
    ensures
        r@ == x@,
{
    let mut r: Vec<u8> = Vec::new();
    let mut i: usize = 0;
    while i < x.len()
        invariant
            i <= x@.len(),
            r@ == x@.take(i as int),
        decreases x@.len() - i,
    {
        r.push(x[i]);
        assert(x@.take(i + 1) =~= x@.take(i as int).push(x@[i as int]));
        i = i + 1;
    }
    assert(x@.take(x@.len() as int) =~= x@);
    r
}

/// A copy of the id list `x`.
fn copy_ids(x: &[u16]) -> (r: Vec<u16>)
    ensures
        r@ == x@,
{
    let mut r: Vec<u16> = Vec::new();
    let mut i: usize = 0;
    while i < x.len()
        invariant
            i <= x@.len(),
            r@ == x@.take(i as int),
        decreases x@.len() - i,
    {
        r.push(x[i]);
        assert(x@.take(i + 1) =~= x@.take(i as int).push(x@[i as int]));
        i = i + 1;
    }
    assert(x@.take(x@.len() as int) =~= x@);
    r
}

/// The map of the entries `e[lo..hi]` inserted in order, built by sorting them: each
/// half is built, then the two are merged (a merge sort).
fn build_sorted(e: &Vec<(Vec<u8>, Vec<u16>)>, lo: usize, hi: usize) -> (r: CodeMap)
    requires
        lo < hi <= e@.len(),
    ensures
        r@ == inserted(e@.subrange(lo as int, hi as int)),
    decreases hi - lo,
{
    if hi - lo == 1 {
        let mut m = CodeMap::new();
        let k = copy_key(e[lo].0.as_slice());
        let v = copy_ids(e[lo].1.as_slice());
        m.insert(k, v);
        proof {
            let s = e@.subrange(lo as int, hi as int);
            assert(s.drop_last() =~= Seq::<(Vec<u8>, Vec<u16>)>::empty());
            assert(inserted(s.drop_last()) == Map::<Seq<u8>, Seq<u16>>::empty());
            assert(s.last() == e@[lo as int]);
            assert(m@ =~= inserted(s));
        }
        m
    } else {
        let mid = lo + (hi - lo) / 2;
        let a = build_sorted(e, lo, mid);
        let b = build_sorted(e, mid, hi);
        proof {
            lemma_inserted_concat(e@.subrange(lo as int, mid as int), e@.subrange(mid as int, hi as int));
            assert(e@.subrange(lo as int, hi as int) =~= e@.subrange(lo as int, mid as int) + e@.subrange(mid as int, hi as int));
        }
        CodeMap::merge(&a, &b)
    }
}

/// Read a dictionary text: one line per token sequence, as `parse_entry` reads it.
/// Returns the length of the longest token sequence and the map; `None` when a line
/// does not read.
pub fn load_map(text: &str) -> (r: Option<(usize, CodeMap)>)
    ensures
        r is Some <==> build_map(split_lines(text@)) is Some,
        r matches Some((ml, m)) ==> build_map(split_lines(text@)) == Some((ml as nat, m@)),
{
    let t = chars_of(text);
    let n = t.len();
    let mut entries: Vec<(Vec<u8>, Vec<u16>)> = Vec::new();
    let mut max_len: usize = 0;
    let mut p: usize = 0;
    let ghost mut done: Seq<Seq<char>> = Seq::empty();
    assert(t@.skip(0) =~= t@);
    while p < n
        invariant
            n == t@.len(),
            t@ == text@,
            p <= n,
            max_len <= p,
            split_lines(t@) == done + split_lines(t@.skip(p as int)),
            build_map(done) == Some((max_len as nat, inserted(entries@))),
        decreases n - p,
    {
        let (e, hi) = line_bounds(t.as_slice(), p);
        let ghost line = t@.subrange(p as int, hi as int);
        proof {
            if e < n {
                assert(done + split_lines(t@.skip(p as int)) =~= done.push(line) + split_lines(t@.skip(e + 1)));
            } else {
                assert(done + split_lines(t@.skip(p as int)) =~= done.push(line));
            }
            assert(done.push(line).drop_last() =~= done);
        }
        match parse_entry_at(t.as_slice(), p, hi) {
            None => {
                proof {
                    if e < n {
                        lemma_build_map_none(done.push(line), split_lines(t@.skip(e + 1)));
                    }
                }
                return None;
            },
            Some((k, v)) => {
                if k.len() > max_len {
                    max_len = k.len();
                }
                let ghost before = entries@;
                entries.push((k, v));
                proof {
                    assert(entries@.drop_last() =~= before);
                    done = done.push(line);
                }
                if e < n {
                    p = e + 1;
                } else {
                    p = n;
                    assert(t@.skip(n as int) =~= Seq::<char>::empty());
                    assert(done + split_lines(t@.skip(n as int)) =~= done);
                }
            },
        }
    }
    assert(t@.skip(p as int) =~= Seq::<char>::empty());
    assert(done + split_lines(t@.skip(p as int)) =~= done);
    let map = if entries.len() == 0 {
        CodeMap::new()
    } else {
        assert(entries@.subrange(0, entries@.len() as int) =~= entries@);
        build_sorted(&entries, 0, entries.len())
    };
    Some((max_len, map))
}

/// Read a word list: the character of word `i + 1` is the first character of line `i`.
/// `None` when a line is empty.
pub fn load_id(text: &str) -> (r: Option<Vec<char>>)
    ensures
        r is Some <==> build_ids(split_lines(text@)) is Some,
        r matches Some(ids) ==> build_ids(split_lines(text@)) == Some(ids@),
{
    let t = chars_of(text);
    let n = t.len();
    let mut ids: Vec<char> = Vec::new();
    let mut p: usize = 0;
    let ghost mut done: Seq<Seq<char>> = Seq::empty();
    assert(t@.skip(0) =~= t@);
    while p < n
        invariant
            n == t@.len(),
            t@ == text@,
            p <= n,
            split_lines(t@) == done + split_lines(t@.skip(p as int)),
            build_ids(done) == Some(ids@),
        decreases n - p,
    {
        let (e, hi) = line_bounds(t.as_slice(), p);
        let ghost line = t@.subrange(p as int, hi as int);
        proof {
            if e < n {
                assert(done + split_lines(t@.skip(p as int)) =~= done.push(line) + split_lines(t@.skip(e + 1)));
            } else {
                assert(done + split_lines(t@.skip(p as int)) =~= done.push(line));
            }
            assert(done.push(line).drop_last() =~= done);
        }
        if hi == p {
            proof {
                if e < n {
                    lemma_build_ids_none(done.push(line), split_lines(t@.skip(e + 1)));
                }
            }
            return None;
        }
        ids.push(t[p]);
        proof {
            done = done.push(line);
        }
        if e < n {
            p = e + 1;
        } else {
            p = n;
            assert(t@.skip(n as int) =~= Seq::<char>::empty());
            assert(done + split_lines(t@.skip(n as int)) =~= done);
        }
    }
    assert(t@.skip(p as int) =~= Seq::<char>::empty());
    assert(done + split_lines(t@.skip(p as int)) =~= done);
    Some(ids)
}

impl Encoding {
    /// Build the dictionary from the text of its token map and of its word list.
    /// `None` when either text does not read.
    pub fn load(map_text: &str, id_text: &str) -> (r: Option<Encoding>)
        ensures
            r is Some <==> build_map(split_lines(map_text@)) is Some && build_ids(split_lines(id_text@)) is Some,
            r matches Some(enc) ==> build_map(split_lines(map_text@)) == Some((enc.max_len as nat, enc.map@))
                && build_ids(split_lines(id_text@)) == Some(enc.id@),
    {
        let (max_len, map) = match load_map(map_text) {
            Some(m) => m,
            None => return None,
        };
        let id = match load_id(id_text) {
            Some(i) => i,
            None => return None,
        };
        Some(Encoding { max_len, map, id })
    }
}

/// In a dictionary read from text, every token sequence is at most the recorded longest
/// length; so no word's spelling starts with an `x` longer than that, and the length
/// cut-off of `prefix_perfect` leaves nothing out.
pub proof fn law_loaded_spellings_within_max_len(lines: Seq<Seq<char>>, x: Seq<u8>)
    requires
        build_map(lines) is Some,
    ensures
        match build_map(lines) {
            Some((ml, m)) => {
                &&& forall|k: Seq<u8>| #[trigger] m.dom().contains(k) ==> k.len() <= ml
                &&& x.len() > ml ==> prefix_id_set(m, x) == Set::<u16>::empty()
            },
            None => true,
        },
    decreases lines.len(),
{
    if lines.len() > 0 {
        law_loaded_spellings_within_max_len(lines.drop_last(), x);
    }
    let (ml, m) = match build_map(lines) {
        Some(p) => p,
        None => (0nat, Map::empty()),
    };
    if x.len() > ml {
        assert(prefix_id_set(m, x) =~= Set::<u16>::empty()) by {
            assert forall|id: u16| !prefix_id_set(m, x).contains(id) by {
                if prefix_id_set(m, x).contains(id) {
                    let k = choose|k: Seq<u8>| #[trigger] m.dom().contains(k) && x.is_prefix_of(k) && m[k].contains(id);
                }
            }
        }
    }
}

/// A word spelled exactly by `x` is among the words whose spelling starts with `x`:
/// what `perfect_perfect` finds for a non-empty `x`, `prefix_perfect` finds too.
pub proof fn law_exact_within_prefix(m: Map<Seq<u8>, Seq<u16>>, x: Seq<u8>)
    ensures
        lookup_ids(m, x).to_set().subset_of(prefix_id_set(m, x)),
{
    assert forall|id: u16| lookup_ids(m, x).to_set().contains(id) implies prefix_id_set(m, x).contains(id) by {
        assert(m.dom().contains(x));
        assert(x.is_prefix_of(x)) by {
            assert(x =~= x.subrange(0, x.len() as int));
        }
    }
}

/// What `perfect_perfect` finds for any of `x[..1]`, ..., `x[..n]`, `perfect_prefix`
/// finds for `x`.
pub proof fn law_exact_within_prefixes(m: Map<Seq<u8>, Seq<u16>>, x: Seq<u8>, n: int, i: int)
    requires
        1 <= i <= n,
    ensures
        lookup_ids(m, x.take(i)).to_set().subset_of(prefixes_id_set(m, x, n)),
{
    assert forall|id: u16| lookup_ids(m, x.take(i)).to_set().contains(id) implies prefixes_id_set(m, x, n).contains(id) by {
        assert(m.dom().contains(x.take(i)));
    }
}

/// Typing more tokens only narrows the words whose spelling starts with what was typed.
pub proof fn law_prefix_narrowing(m: Map<Seq<u8>, Seq<u16>>, x: Seq<u8>, y: Seq<u8>)
    requires
        y.is_prefix_of(x),
    ensures
        prefix_id_set(m, x).subset_of(prefix_id_set(m, y)),
{
    assert forall|id: u16| prefix_id_set(m, x).contains(id) implies prefix_id_set(m, y).contains(id) by {
        let k = choose|k: Seq<u8>| #[trigger] m.dom().contains(k) && x.is_prefix_of(k) && m[k].contains(id);
        assert(y.is_prefix_of(k)) by {
            assert forall|j: int| 0 <= j < y.len() implies y[j] == k[j] by {
                assert(y[j] == x.subrange(0, y.len() as int)[j]);
                assert(x[j] == k.subrange(0, x.len() as int)[j]);
            }
            assert(y =~= k.subrange(0, y.len() as int));
        }
    }
}

/// A sorted, repetition-free list is fixed by the set of its elements; so what
/// `sort_and_dedup` returns depends only on the set of ids it is given, and applying it
/// twice gives what applying it once gave.
pub proof fn law_sorted_set_determines(a: Seq<u16>, b: Seq<u16>)
    requires
        strictly_increasing(a),
        strictly_increasing(b),
        a.to_set() == b.to_set(),
    ensures
        a == b,
    decreases a.len() + b.len(),
{
    if a.len() == 0 || b.len() == 0 {
        if a.len() > 0 {
            assert(a.to_set().contains(a[0]));
        }
        if b.len() > 0 {
            assert(b.to_set().contains(b[0]));
        }
        assert(a =~= b);
    } else {
        // both minima agree
        assert(a.to_set().contains(a[0]));
        assert(b.to_set().contains(b[0]));
        let ia = choose|i: int| 0 <= i < a.len() && a[i] == b[0];
        let ib = choose|i: int| 0 <= i < b.len() && b[i] == a[0];
        assert(a[0] <= a[ia]);
        assert(b[0] <= b[ib]);
        assert(a[0] == b[0]);
        let a1 = a.drop_first();
        let b1 = b.drop_first();
        assert(a1.to_set() =~= b1.to_set()) by {
            assert forall|v: u16| a1.to_set().contains(v) implies b1.to_set().contains(v) by {
                let i = choose|i: int| 0 <= i < a1.len() && a1[i] == v;
                assert(a[i + 1] == v);
                assert(a.to_set().contains(v));
                let j = choose|j: int| 0 <= j < b.len() && b[j] == v;
                assert(j != 0);
                assert(b1[j - 1] == v);
            }
            assert forall|v: u16| b1.to_set().contains(v) implies a1.to_set().contains(v) by {
                let i = choose|i: int| 0 <= i < b1.len() && b1[i] == v;
                assert(b[i + 1] == v);
                assert(b.to_set().contains(v));
                let j = choose|j: int| 0 <= j < a.len() && a[j] == v;
                assert(j != 0);
                assert(a1[j - 1] == v);
            }
        }
        law_sorted_set_determines(a1, b1);
        assert(a =~= b) by {
            assert forall|i: int| 0 <= i < a.len() implies a[i] == b[i] by {
                if i > 0 {
                    assert(a[i] == a1[i - 1]);
                    assert(b[i] == b1[i - 1]);
                }
            }
        }
    }
}

/// A read after a write gives back what was written, and leaves every other token
/// sequence as it was (`CodeMap::insert` then `CodeMap::get`).
pub proof fn law_get_after_insert(m: Map<Seq<u8>, Seq<u16>>, k: Seq<u8>, v: Seq<u16>, other: Seq<u8>)
    requires
        other != k,
    ensures
        m.insert(k, v).dom().contains(k),
        m.insert(k, v)[k] == v,
        m.insert(k, v).dom().contains(other) == m.dom().contains(other),
        m.dom().contains(other) ==> m.insert(k, v)[other] == m[other],
{
}


/// Every (length, id) pair such that word `id` is spelled starting with the first
/// `length` tokens of `x`, for the lengths 1 to `n`, shortest first, ids increasing.
pub open spec fn prefix_prefix_spec(m: Map<Seq<u8>, Seq<u16>>, max_len: int, x: Seq<u8>, n: int) -> Seq<(usize, u16)>
    decreases n,
{
    if n <= 0 {
        Seq::empty()
    } else {
        prefix_prefix_spec(m, max_len, x, n - 1) + prefix_perfect_spec(m, max_len, x.take(n)).map_values(
            |id: u16| (n as usize, id),
        )
    }
}

/// The ids of `s` below `n`, in increasing order.
spec fn sorted_below(s: Set<u16>, n: nat) -> Seq<u16>
    decreases n,
{
    if n == 0 {
        Seq::empty()
    } else if s.contains((n - 1) as u16) {
        sorted_below(s, (n - 1) as nat).push((n - 1) as u16)
    } else {
        sorted_below(s, (n - 1) as nat)
    }
}

proof fn lemma_sorted_below(s: Set<u16>, n: nat)
    requires
        n <= 65536,
    ensures
        strictly_increasing(sorted_below(s, n)),
        forall|k: int| 0 <= k < sorted_below(s, n).len() ==> (#[trigger] sorted_below(s, n)[k]) < n,
        forall|v: u16| #[trigger] sorted_below(s, n).contains(v) <==> (s.contains(v) && v < n),
    decreases n,
{
    if n > 0 {
        lemma_sorted_below(s, (n - 1) as nat);
        let p = sorted_below(s, (n - 1) as nat);
        let v = (n - 1) as u16;
        if s.contains(v) {
            let q = p.push(v);
            assert forall|w: u16| q.contains(w) <==> (s.contains(w) && w < n) by {
                if q.contains(w) {
                    let k = choose|k: int| 0 <= k < q.len() && q[k] == w;
                    if k < p.len() {
                        assert(p.contains(w));
                    }
                }
                if s.contains(w) && w < n {
                    if w < n - 1 {
                        assert(p.contains(w));
                        let k = choose|k: int| 0 <= k < p.len() && p[k] == w;
                        assert(q[k] == w);
                    } else {
                        assert(q[p.len() as int] == w);
                    }
                }
            }
        }
    }
}

/// Every set of ids has its sorted, repetition-free list.
pub proof fn lemma_sorted_ids_exist(s: Set<u16>)
    ensures
        strictly_increasing(sorted_ids(s)),
        sorted_ids(s).to_set() == s,
{
    lemma_sorted_below(s, 65536);
    let q = sorted_below(s, 65536);
    assert(q.to_set() =~= s) by {
        assert forall|v: u16| q.to_set().contains(v) <==> s.contains(v) by {
            assert(v < 65536);
        }
    }
    assert(strictly_increasing(q) && q.to_set() == s);
}

/// The raw matches miss no word: for each length `l` from 1 to `n` (at most the length
/// of `x` and the longest spelling), every word spelled starting with the first `l`
/// tokens of `x` is listed with length `l`.
pub proof fn law_prefix_prefix_complete(m: Map<Seq<u8>, Seq<u16>>, max_len: int, x: Seq<u8>, n: int, l: int, id: u16)
    requires
        1 <= l <= n,
        n <= x.len(),
        n <= max_len,
        prefix_id_set(m, x.take(l)).contains(id),
    ensures
        prefix_prefix_spec(m, max_len, x, n).contains((l as usize, id)),
    decreases n,
{
    let prev = prefix_prefix_spec(m, max_len, x, n - 1);
    let here = prefix_perfect_spec(m, max_len, x.take(n)).map_values(|v: u16| (n as usize, v));
    assert(prefix_prefix_spec(m, max_len, x, n) == prev + here);
    if l < n {
        law_prefix_prefix_complete(m, max_len, x, n - 1, l, id);
        let k = choose|k: int| 0 <= k < prev.len() && prev[k] == (l as usize, id);
        assert((prev + here)[k] == (l as usize, id));
    } else {
        let w = x.take(n);
        assert(w.len() == n);
        lemma_sorted_ids_exist(prefix_id_set(m, w));
        let ids = sorted_ids(prefix_id_set(m, w));
        assert(prefix_perfect_spec(m, max_len, w) == ids);
        assert(ids.to_set().contains(id));
        let k = choose|k: int| 0 <= k < ids.len() && ids[k] == id;
        assert(here[k] == (l as usize, id));
        assert((prev + here)[prev.len() + k] == (l as usize, id));
    }
}

/// The word id of character `c`: one more than its first position in the word list;
/// `None` when `c` is not listed, or is listed beyond the range of ids.
pub open spec fn code_spec(ids: Seq<char>, c: char) -> Option<u16> {
    let p = first_index_of(ids, c);
    if p < ids.len() && p + 1 <= u16::MAX {
        Some((p + 1) as u16)
    } else {
        None
    }
}

/// The word of id `x` is listed: ids start at 1.
pub open spec fn known_word(ids: Seq<char>, x: u16) -> bool {
    1 <= x <= ids.len()
}

impl Encoding {
    /// For each length `l` from 1 to the shorter of `x` and the longest spelling, the
    /// words spelled starting with `x[..l]`, each paired with `l`.
    pub fn prefix_prefix(&self, x: &[u8]) -> (r: Vec<(usize, u16)>)
        requires
            forall|l: int| 0 <= l < x@.len() && l < self.max_len ==> #[trigger] x@[l] < 255,
        ensures
            r@ == prefix_prefix_spec(
                self.map@,
                self.max_len as int,
                x@,
                if x@.len() < self.max_len { x@.len() as int } else { self.max_len as int },
            ),
            forall|q: int|
                0 <= q < r@.len() ==> 1 <= (#[trigger] r@[q]).0 <= x@.len() && prefix_id_set(
                    self.map@,
                    x@.take(r@[q].0 as int),
                ).contains(r@[q].1),
            forall|l: int, id: u16|
                1 <= l <= x@.len() && l <= self.max_len && #[trigger] prefix_id_set(self.map@, x@.take(l)).contains(id)
                    ==> r@.contains((l as usize, id)),
    {
        let n = if x.len() < self.max_len { x.len() } else { self.max_len };
        let mut r: Vec<(usize, u16)> = Vec::new();
        let mut done: usize = 0;
        while done < n
            invariant
                done <= n,
                n <= x@.len(),
                n <= self.max_len,
                forall|q: int| 0 <= q < x@.len() && q < self.max_len ==> #[trigger] x@[q] < 255,
                r@ == prefix_prefix_spec(self.map@, self.max_len as int, x@, done as int),
                forall|q: int|
                    0 <= q < r@.len() ==> 1 <= (#[trigger] r@[q]).0 <= done && prefix_id_set(
                        self.map@,
                        x@.take(r@[q].0 as int),
                    ).contains(r@[q].1),
            decreases n - done,
        {
            let l = done + 1;
            let w = &x[0..l];
            assert(w@ == x@.take(l as int));
            assert(w@.last() == x@[l - 1]);
            let ids = self.prefix_perfect(w);
            let ghost before = r@;
            let mut k: usize = 0;
            while k < ids.len()
                invariant
                    k <= ids@.len(),
                    ids@ == prefix_perfect_spec(self.map@, self.max_len as int, x@.take(l as int)),
                    r@ == before + ids@.take(k as int).map_values(|id: u16| (l, id)),
                    ids@.to_set() == prefix_id_set(self.map@, x@.take(l as int)),
                    1 <= l <= n,
                    forall|q: int|
                        0 <= q < r@.len() ==> 1 <= (#[trigger] r@[q]).0 <= l && prefix_id_set(
                            self.map@,
                            x@.take(r@[q].0 as int),
                        ).contains(r@[q].1),
                decreases ids@.len() - k,
            {
                assert(ids@.to_set().contains(ids@[k as int]));
                r.push((l, ids[k]));
                assert(ids@.take(k + 1).map_values(|id: u16| (l, id)) =~= ids@.take(k as int).map_values(
                    |id: u16| (l, id),
                ).push((l, ids@[k as int])));
                k = k + 1;
            }
            assert(ids@.take(ids@.len() as int) =~= ids@);
            assert(r@ =~= prefix_prefix_spec(self.map@, self.max_len as int, x@, l as int));
            done = l;
        }
        assert forall|l: int, id: u16|
            1 <= l <= x@.len() && l <= self.max_len && #[trigger] prefix_id_set(self.map@, x@.take(l)).contains(id)
                implies r@.contains((l as usize, id)) by {
            law_prefix_prefix_complete(self.map@, self.max_len as int, x@, n as int, l, id);
        }
        r
    }

    /// The word id of character `c` in the word list.
    pub fn code_of(&self, c: char) -> (r: Option<u16>)
        ensures
            r == code_spec(self.id@, c),
    {
        let mut p: usize = 0;
        while p < self.id.len() && self.id[p] != c
            invariant
                p <= self.id@.len(),
                forall|k: int| 0 <= k < p ==> self.id@[k] != c,
            decreases self.id@.len() - p,
        {
            p = p + 1;
        }
        proof {
            lemma_first_index_of(self.id@, c, p as int);
        }
        if p < self.id.len() && p < 65535 {
            Some((p + 1) as u16)
        } else {
            None
        }
    }

    /// The characters of the words `ids`; `Err(x)` names the first id that the word list
    /// does not hold.
    pub fn words_of(&self, ids: &[u16]) -> (r: Result<Vec<char>, u16>)
        ensures
            r is Ok <==> forall|k: int| 0 <= k < ids@.len() ==> known_word(self.id@, #[trigger] ids@[k]),
            r matches Ok(cs) ==> cs@.len() == ids@.len() && forall|k: int|
                0 <= k < ids@.len() ==> #[trigger] cs@[k] == self.id@[ids@[k] - 1],
            r matches Err(x) ==> exists|k: int|
                0 <= k < ids@.len() && ids@[k] == x && !known_word(self.id@, x) && forall|q: int|
                    0 <= q < k ==> known_word(self.id@, #[trigger] ids@[q]),
    {
        let mut cs: Vec<char> = Vec::new();
        let mut k: usize = 0;
        while k < ids.len()
            invariant
                k <= ids@.len(),
                cs@.len() == k,
                forall|q: int| 0 <= q < k ==> known_word(self.id@, #[trigger] ids@[q]),
                forall|q: int| 0 <= q < k ==> #[trigger] cs@[q] == self.id@[ids@[q] - 1],
            decreases ids@.len() - k,
        {
            let x = ids[k];
            if x == 0 || x as usize > self.id.len() {
                return Err(x);
            }
            cs.push(self.id[(x - 1) as usize]);
            k = k + 1;
        }
        Ok(cs)
    }
}

} // verus!
