//! The ordered index store: a set of `(bytes, id)` keys kept in the total
//! key order, with point insert and remove and bounded range scans.
use vstd::prelude::*;

use crate::codec::{copy_bytes, same_opt_value, IndexValue};
use crate::keys::{
    compare_keys, key_lt, lemma_key_lt_asymmetric, lemma_key_lt_irreflexive, lemma_key_lt_total, lemma_key_lt_transitive, KeyView,
};

verus! {

/// A bound of a range: the bounding value itself included or not.
pub enum RangeQueryBound<T> {
    Exclusive(T),
    Inclusive(T),
}

/// A key of an index: encoded attribute bytes and a record id.
pub struct IndexKey {
    pub bytes: Vec<u8>,
    pub id: u32,
}

impl View for IndexKey {
    type V = KeyView;

    open spec fn view(&self) -> KeyView {
        (self.bytes@, self.id)
    }
}

impl IndexKey {
    pub fn new(bytes: Vec<u8>, id: u32) -> (r: IndexKey)
        ensures
            r@ == (bytes@, id),
    {
        IndexKey { bytes, id }
    }

    pub fn copy(&self) -> (r: IndexKey)
        ensures
            r@ == self@,
    {
        IndexKey { bytes: copy_bytes(self.bytes.as_slice()), id: self.id }
    }
}

/// A bound on keys: the bounding key and whether it is included.
pub type KeyBound = Option<(KeyView, bool)>;

pub open spec fn bound_view(b: Option<RangeQueryBound<IndexKey>>) -> KeyBound {
    match b {
        None => None,
        Some(RangeQueryBound::Exclusive(k)) => Some((k@, false)),
        Some(RangeQueryBound::Inclusive(k)) => Some((k@, true)),
    }
}

pub open spec fn above(k: KeyView, lo: KeyBound) -> bool {
    match lo {
        None => true,
        Some((b, incl)) => key_lt(b, k) || (incl && k == b),
    }
}

pub open spec fn below(k: KeyView, hi: KeyBound) -> bool {
    match hi {
        None => true,
        Some((b, incl)) => key_lt(k, b) || (incl && k == b),
    }
}

/// A key lies in a range when its bytes start with the prefix and it lies
/// between the two bounds.
pub open spec fn in_scope(k: KeyView, prefix: Seq<u8>, lo: KeyBound, hi: KeyBound) -> bool {
    prefix.is_prefix_of(k.0) && above(k, lo) && below(k, hi)
}

/// The keys of `s` in range, in the order of `s`.
pub open spec fn sel_fwd(s: Seq<KeyView>, prefix: Seq<u8>, lo: KeyBound, hi: KeyBound) -> Seq<
    KeyView,
>
    decreases s.len(),
{
    if s.len() == 0 {
        Seq::empty()
    } else if in_scope(s[0], prefix, lo, hi) {
        seq![s[0]] + sel_fwd(s.drop_first(), prefix, lo, hi)
    } else {
        sel_fwd(s.drop_first(), prefix, lo, hi)
    }
}

/// The keys of `s` in range, in the reverse order of `s`.
pub open spec fn sel_back(s: Seq<KeyView>, prefix: Seq<u8>, lo: KeyBound, hi: KeyBound) -> Seq<
    KeyView,
>
    decreases s.len(),
{
    if s.len() == 0 {
        Seq::empty()
    } else if in_scope(s.last(), prefix, lo, hi) {
        seq![s.last()] + sel_back(s.drop_last(), prefix, lo, hi)
    } else {
        sel_back(s.drop_last(), prefix, lo, hi)
    }
}

/// At most the first `n` items of `s`.
pub open spec fn first_n<A>(s: Seq<A>, n: nat) -> Seq<A> {
    if n >= s.len() {
        s
    } else {
        s.take(n as int)
    }
}

/// A range scan: the keys in range, ascending or descending, at most `limit`.
pub open spec fn scan_spec(
    s: Seq<KeyView>,
    prefix: Seq<u8>,
    lo: KeyBound,
    hi: KeyBound,
    desc: bool,
    limit: nat,
) -> Seq<KeyView> {
    if desc {
        first_n(sel_back(s, prefix, lo, hi), limit)
    } else {
        first_n(sel_fwd(s, prefix, lo, hi), limit)
    }
}

pub open spec fn sorted(s: Seq<KeyView>) -> bool {
    forall|i: int, j: int| 0 <= i < j < s.len() ==> key_lt(#[trigger] s[i], #[trigger] s[j])
}

pub open spec fn keys_view(v: Seq<IndexKey>) -> Seq<KeyView> {
    v.map_values(|k: IndexKey| k@)
}

/// Whether `bytes` starts with `prefix`.
pub fn starts_with(bytes: &[u8], prefix: &[u8]) -> (r: bool)
    ensures
        r == prefix@.is_prefix_of(bytes@),
{
    if prefix.len() > bytes.len() {
        return false;
    }
    let mut i: usize = 0;
    while i < prefix.len()
        invariant
            prefix@.len() <= bytes@.len(),
            i <= prefix@.len(),
            forall|j: int| 0 <= j < i ==> prefix@[j] == bytes@[j],
        decreases prefix@.len() - i,
    {
        if prefix[i] != bytes[i] {
            return false;
        }
        i = i + 1;
    }
    true
}

fn is_above(k: &IndexKey, lo: &Option<RangeQueryBound<IndexKey>>) -> (r: bool)
    ensures
        r == above(k@, bound_view(*lo)),
{
    match lo {
        None => true,
        Some(RangeQueryBound::Exclusive(b)) => compare_keys(
            b.bytes.as_slice(),
            b.id,
            k.bytes.as_slice(),
            k.id,
        ) < 0,
        Some(RangeQueryBound::Inclusive(b)) => compare_keys(
            b.bytes.as_slice(),
            b.id,
            k.bytes.as_slice(),
            k.id,
        ) <= 0,
    }
}

fn is_below(k: &IndexKey, hi: &Option<RangeQueryBound<IndexKey>>) -> (r: bool)
    ensures
        r == below(k@, bound_view(*hi)),
{
    match hi {
        None => true,
        Some(RangeQueryBound::Exclusive(b)) => compare_keys(
            k.bytes.as_slice(),
            k.id,
            b.bytes.as_slice(),
            b.id,
        ) < 0,
        Some(RangeQueryBound::Inclusive(b)) => compare_keys(
            k.bytes.as_slice(),
            k.id,
            b.bytes.as_slice(),
            b.id,
        ) <= 0,
    }
}

/// Whether a key lies in the range given by a prefix and two bounds.
pub fn key_in_scope(
    k: &IndexKey,
    prefix: &[u8],
    lo: &Option<RangeQueryBound<IndexKey>>,
    hi: &Option<RangeQueryBound<IndexKey>>,
) -> (r: bool)
    ensures
        r == in_scope(k@, prefix@, bound_view(*lo), bound_view(*hi)),
{
    starts_with(k.bytes.as_slice(), prefix) && is_above(k, lo) && is_below(k, hi)
}

/// An ordered set of index keys, each carrying an optional attached value.
pub struct OrderedIndex {
    entries: Vec<IndexKey>,
    payloads: Vec<Option<IndexValue>>,
    values: Ghost<Map<KeyView, Option<IndexValue>>>,
}

impl View for OrderedIndex {
    type V = Seq<KeyView>;

    /// The keys in ascending order.
    closed spec fn view(&self) -> Seq<KeyView> {
        keys_view(self.entries@)
    }
}

impl OrderedIndex {
    /// The value attached to each key held.
    pub closed spec fn values(&self) -> Map<KeyView, Option<IndexValue>> {
        self.values@
    }

    pub closed spec fn payloads_match(&self) -> bool {
        &&& self.payloads@.len() == self.entries@.len()
        &&& self.values@.dom() == self@.to_set()
        &&& forall|i: int|
            0 <= i < self@.len() ==> self.values@[#[trigger] self@[i]] == self.payloads@[i]
    }

    pub open spec fn wf(&self) -> bool {
        sorted(self@) && self.payloads_match()
    }

    /// The set of keys held.
    pub open spec fn keys(&self) -> Set<KeyView> {
        self@.to_set()
    }

    pub fn new() -> (r: OrderedIndex)
        ensures
            r.wf(),
            r@ == Seq::<KeyView>::empty(),
    {
        let r = OrderedIndex { entries: Vec::new(), payloads: Vec::new(), values: Ghost(Map::empty()) };
        assert(r@ =~= Seq::<KeyView>::empty());
        assert(r.values@.dom() =~= r@.to_set());
        r
    }

    /// The position of the first key not below `(bytes, id)`.
    fn lower_position(&self, bytes: &[u8], id: u32) -> (pos: usize)
        requires
            self.wf(),
        ensures
            pos <= self@.len(),
            forall|j: int| 0 <= j < pos ==> key_lt(#[trigger] self@[j], (bytes@, id)),
            pos < self@.len() ==> !key_lt(self@[pos as int], (bytes@, id)),
    {
        let mut i: usize = 0;
        while i < self.entries.len()
            invariant
                i <= self@.len(),
                self@.len() == self.entries@.len(),
                forall|j: int| 0 <= j < i ==> key_lt(#[trigger] self@[j], (bytes@, id)),
            decreases self@.len() - i,
        {
            let e = &self.entries[i];
            let c = compare_keys(e.bytes.as_slice(), e.id, bytes, id);
            if c >= 0 {
                return i;
            }
            i = i + 1;
        }
        i
    }

    /// Whether the key `(bytes, id)` is held.
    pub fn contains(&self, bytes: &[u8], id: u32) -> (r: bool)
        requires
            self.wf(),
        ensures
            r == self.keys().contains((bytes@, id)),
    {
        let pos = self.lower_position(bytes, id);
        let found = pos < self.entries.len() && {
            let e = &self.entries[pos];
            compare_keys(e.bytes.as_slice(), e.id, bytes, id) == 0
        };
        proof {
            if !found {
                assert forall|j: int| 0 <= j < self@.len() implies self@[j] != (bytes@, id) by {
                    if j >= pos {
                        if j > pos {
                            assert(key_lt(self@[pos as int], self@[j]));
                            lemma_key_lt_total(self@[pos as int], (bytes@, id));
                            if key_lt((bytes@, id), self@[pos as int]) {
                                lemma_key_lt_transitive((bytes@, id), self@[pos as int], self@[j]);
                                lemma_key_lt_irreflexive((bytes@, id));
                            }
                        }
                    } else {
                        lemma_key_lt_irreflexive((bytes@, id));
                    }
                }
            } else {
                assert(self@[pos as int] == (bytes@, id));
            }
        }
        found
    }

    /// Adds a key with its attached value; a key already held stays once,
    /// with the new value.
    pub fn insert(&mut self, key: IndexKey, value: Option<IndexValue>)
        requires
            old(self).wf(),
        ensures
            final(self).wf(),
            final(self).keys() == old(self).keys().insert(key@),
            final(self).values() == old(self).values().insert(key@, value),
    {
        let pos = self.lower_position(key.bytes.as_slice(), key.id);
        let ghost vals = self.values@;
        if pos < self.entries.len() {
            let e = &self.entries[pos];
            if compare_keys(e.bytes.as_slice(), e.id, key.bytes.as_slice(), key.id) == 0 {
                let ghost s = self@;
                proof {
                    assert(self@.contains(key@));
                    assert(self.keys() =~= self.keys().insert(key@));
                }
                self.payloads.set(pos, value);
                self.values = Ghost(vals.insert(key@, value));
                proof {
                    assert(self@ == s);
                    assert forall|i: int| 0 <= i < self@.len() implies self.values@[
                        #[trigger] self@[i]] == self.payloads@[i] by {
                        if i != pos {
                            if i < pos {
                                assert(key_lt(s[i], s[pos as int]));
                            } else {
                                assert(key_lt(s[pos as int], s[i]));
                            }
                            lemma_key_lt_irreflexive(s[i]);
                        }
                    }
                    assert(self.values@.dom() =~= self@.to_set());
                }
                return ;
            }
        }
        let ghost k = key@;
        let ghost s = self@;
        self.entries.insert(pos, key);
        self.payloads.insert(pos, value);
        self.values = Ghost(vals.insert(k, value));
        proof {
            assert(self@ =~= s.insert(pos as int, k));
            assert forall|i: int, j: int| 0 <= i < j < self@.len() implies key_lt(
                #[trigger] self@[i],
                #[trigger] self@[j],
            ) by {
                if j == pos {
                } else if i == pos {
                    if pos < s.len() {
                        lemma_key_lt_total(s[pos as int], k);
                        if j - 1 > pos {
                            lemma_key_lt_transitive(k, s[pos as int], s[j - 1]);
                        }
                    }
                } else if i < pos && j > pos {
                    assert(key_lt(s[i], k));
                    lemma_key_lt_total(s[pos as int], k);
                    if j - 1 > pos {
                        lemma_key_lt_transitive(k, s[pos as int], s[j - 1]);
                    }
                    lemma_key_lt_transitive(s[i], k, s[j - 1]);
                } else if i > pos {
                    assert(key_lt(s[i - 1], s[j - 1]));
                }
            }
            assert forall|x: KeyView| #[trigger] self@.contains(x) <==> (x == k || s.contains(x)) by {
                if self@.contains(x) {
                    let i = choose|i: int| 0 <= i < self@.len() && self@[i] == x;
                    if i < pos {
                        assert(s[i] == x);
                    } else if i > pos {
                        assert(s[i - 1] == x);
                    }
                }
                if s.contains(x) {
                    let i = choose|i: int| 0 <= i < s.len() && s[i] == x;
                    if i < pos {
                        assert(self@[i] == x);
                    } else {
                        assert(self@[i + 1] == x);
                    }
                }
                if x == k {
                    assert(self@[pos as int] == x);
                }
            }
            assert(self.keys() =~= s.to_set().insert(k));
            assert(self.values@.dom() =~= self@.to_set());
            assert forall|i: int| 0 <= i < self@.len() implies self.values@[
                #[trigger] self@[i]] == self.payloads@[i] by {
                if i != pos {
                    if i < pos {
                        assert(key_lt(self@[i], self@[pos as int]));
                        assert(self@[i] == s[i]);
                    } else {
                        assert(key_lt(self@[pos as int], self@[i]));
                        assert(self@[i] == s[i - 1]);
                    }
                    lemma_key_lt_irreflexive(k);
                }
            }
        }
    }

    /// Removes a key if it is held.
    pub fn remove(&mut self, bytes: &[u8], id: u32)
        requires
            old(self).wf(),
        ensures
            final(self).wf(),
            final(self).keys() == old(self).keys().remove((bytes@, id)),
            final(self).values() == old(self).values().remove((bytes@, id)),
    {
        let ghost k = (bytes@, id);
        let ghost s = self@;
        let ghost vals = self.values@;
        let pos = self.lower_position(bytes, id);
        if pos < self.entries.len() {
            let e = &self.entries[pos];
            if compare_keys(e.bytes.as_slice(), e.id, bytes, id) == 0 {
                self.entries.remove(pos);
                self.payloads.remove(pos);
                self.values = Ghost(vals.remove(k));
                proof {
                    assert(self@ =~= s.remove(pos as int));
                    assert forall|i: int, j: int| 0 <= i < j < self@.len() implies key_lt(
                        #[trigger] self@[i],
                        #[trigger] self@[j],
                    ) by {
                        if i >= pos {
                            assert(key_lt(s[i + 1], s[j + 1]));
                        } else if j >= pos {
                            assert(key_lt(s[i], s[j + 1]));
                        } else {
                            assert(key_lt(s[i], s[j]));
                        }
                    }
                    assert forall|x: KeyView| #[trigger] self@.contains(x) <==> (x != k
                        && s.contains(x)) by {
                        if self@.contains(x) {
                            let i = choose|i: int| 0 <= i < self@.len() && self@[i] == x;
                            if i < pos {
                                assert(s[i] == x);
                                assert(key_lt(s[i], s[pos as int]));
                                lemma_key_lt_irreflexive(x);
                            } else {
                                assert(s[i + 1] == x);
                                assert(key_lt(s[pos as int], s[i + 1]));
                                lemma_key_lt_irreflexive(x);
                            }
                        }
                        if s.contains(x) && x != k {
                            let i = choose|i: int| 0 <= i < s.len() && s[i] == x;
                            if i < pos {
                                assert(self@[i] == x);
                            } else {
                                assert(i != pos);
                                assert(self@[i - 1] == x);
                            }
                        }
                    }
                    assert(self.keys() =~= s.to_set().remove(k));
                    assert(self.values@.dom() =~= self@.to_set());
                    assert forall|i: int| 0 <= i < self@.len() implies self.values@[
                        #[trigger] self@[i]] == self.payloads@[i] by {
                        if i < pos {
                            assert(key_lt(s[i], s[pos as int]));
                            assert(self@[i] == s[i]);
                        } else {
                            assert(key_lt(s[pos as int], s[i + 1]));
                            assert(self@[i] == s[i + 1]);
                        }
                        lemma_key_lt_irreflexive(k);
                    }
                }
                return ;
            }
        }
        proof {
            assert forall|j: int| 0 <= j < s.len() implies s[j] != k by {
                if j >= pos {
                    if j > pos {
                        assert(key_lt(s[pos as int], s[j]));
                        lemma_key_lt_total(s[pos as int], k);
                        if key_lt(k, s[pos as int]) {
                            lemma_key_lt_transitive(k, s[pos as int], s[j]);
                            lemma_key_lt_irreflexive(k);
                        }
                    }
                } else {
                    lemma_key_lt_irreflexive(k);
                }
            }
            assert(self.keys() =~= self.keys().remove(k));
            assert(self.values@ =~= self.values@.remove(k));
        }
    }

    /// The value attached to a key that is held.
    pub fn value_of(&self, bytes: &[u8], id: u32) -> (r: Option<IndexValue>)
        requires
            self.wf(),
            self.keys().contains((bytes@, id)),
        ensures
            same_opt_value(r, self.values()[(bytes@, id)]),
    {
        let pos = self.lower_position(bytes, id);
        proof {
            let k = (bytes@, id);
            let j = choose|j: int| 0 <= j < self@.len() && self@[j] == k;
            if j < pos {
                lemma_key_lt_irreflexive(k);
            } else if j > pos {
                assert(key_lt(self@[pos as int], self@[j]));
                lemma_key_lt_total(self@[pos as int], k);
                if key_lt(k, self@[pos as int]) {
                    lemma_key_lt_transitive(k, self@[pos as int], self@[j]);
                }
                lemma_key_lt_irreflexive(k);
            }
            assert(self@[pos as int] == k);
        }
        match &self.payloads[pos] {
            None => None,
            Some(v) => Some(v.copy()),
        }
    }
    /// The number of keys held.
    pub fn len(&self) -> (r: usize)
        ensures
            r == self@.len(),
    {
        self.entries.len()
    }

    /// All keys, ascending.
    pub fn all_keys(&self) -> (r: Vec<IndexKey>)
        ensures
            keys_view(r@) == self@,
    {
        let mut out: Vec<IndexKey> = Vec::new();
        let mut i: usize = 0;
        while i < self.entries.len()
            invariant
                i <= self.entries@.len(),
                keys_view(out@) == keys_view(self.entries@).take(i as int),
            decreases self.entries@.len() - i,
        {
            let e = self.entries[i].copy();
            assert(e@ == keys_view(self.entries@)[i as int]);
            let ghost before = out@;
            out.push(e);
            assert(keys_view(out@) =~= keys_view(before).push(e@));
            assert(keys_view(self.entries@).take(i + 1) =~= keys_view(self.entries@).take(
                i as int,
            ).push(e@));
            i = i + 1;
        }
        assert(keys_view(self.entries@).take(i as int) =~= keys_view(self.entries@));
        out
    }

    /// The first key whose bytes start with `prefix`, if any.
    pub fn first_with_prefix(&self, prefix: &[u8]) -> (r: Option<IndexKey>)
        requires
            self.wf(),
        ensures
            r is None ==> forall|k: KeyView| #[trigger]
                self.keys().contains(k) ==> !prefix@.is_prefix_of(k.0),
            r matches Some(k) ==> self.keys().contains(k@) && prefix@.is_prefix_of(k@.0),
    {
        let mut i: usize = 0;
        while i < self.entries.len()
            invariant
                i <= self@.len(),
                self@.len() == self.entries@.len(),
                forall|j: int| 0 <= j < i ==> !prefix@.is_prefix_of((#[trigger] self@[j]).0),
            decreases self@.len() - i,
        {
            let e = &self.entries[i];
            if starts_with(e.bytes.as_slice(), prefix) {
                assert(self@[i as int] == e@);
                return Some(e.copy());
            }
            i = i + 1;
        }
        proof {
            assert forall|k: KeyView| #[trigger] self.keys().contains(k) implies !prefix@.is_prefix_of(
                k.0,
            ) by {
                let j = choose|j: int| 0 <= j < self@.len() && self@[j] == k;
            }
        }
        None
    }

    /// The keys in range, ascending or (with `desc`) descending, at most
    /// `limit` of them.
    pub fn scan(
        &self,
        prefix: &[u8],
        lo: &Option<RangeQueryBound<IndexKey>>,
        hi: &Option<RangeQueryBound<IndexKey>>,
        desc: bool,
        limit: usize,
    ) -> (r: Vec<IndexKey>)
        ensures
            keys_view(r@) == scan_spec(
                self@,
                prefix@,
                bound_view(*lo),
                bound_view(*hi),
                desc,
                limit as nat,
            ),
    {
        let ghost s = self@;
        let ghost p = prefix@;
        let ghost l = bound_view(*lo);
        let ghost h = bound_view(*hi);
        let mut out: Vec<IndexKey> = Vec::new();
        let n = self.entries.len();
        if !desc {
            let mut i: usize = 0;
            assert(s.skip(0) =~= s);
            assert(keys_view(out@) =~= Seq::<KeyView>::empty());
            assert(sel_fwd(s, p, l, h) =~= keys_view(out@) + sel_fwd(s.skip(0), p, l, h));
            while i < n && out.len() < limit
                invariant
                    n == s.len(),
                    s == self@,
                    p == prefix@,
                    l == bound_view(*lo),
                    h == bound_view(*hi),
                    i <= n,
                    out@.len() <= limit,
                    sel_fwd(s, p, l, h) == keys_view(out@) + sel_fwd(s.skip(i as int), p, l, h),
                decreases n - i,
            {
                let e = &self.entries[i];
                assert(s.skip(i as int).drop_first() =~= s.skip(i + 1));
                assert(s.skip(i as int)[0] == e@);
                let ghost before = keys_view(out@);
                let inside = key_in_scope(e, prefix, lo, hi);
                assert(sel_fwd(s.skip(i as int), p, l, h) == if inside {
                    seq![e@] + sel_fwd(s.skip(i + 1), p, l, h)
                } else {
                    sel_fwd(s.skip(i + 1), p, l, h)
                });
                if inside {
                    out.push(e.copy());
                    assert(keys_view(out@) =~= before + seq![e@]);
                    assert(keys_view(out@) + sel_fwd(s.skip(i + 1), p, l, h) =~= before + (seq![
                        e@,
                    ] + sel_fwd(s.skip(i + 1), p, l, h)));
                }
                i = i + 1;
            }
            if i == n {
                assert(s.skip(i as int) =~= Seq::<KeyView>::empty());
                assert(sel_fwd(s, p, l, h) =~= keys_view(out@));
            } else {
                assert(sel_fwd(s, p, l, h).take(limit as int) =~= keys_view(out@));
            }
        } else {
            let mut i: usize = n;
            assert(s.take(n as int) =~= s);
            assert(keys_view(out@) =~= Seq::<KeyView>::empty());
            assert(sel_back(s, p, l, h) =~= keys_view(out@) + sel_back(s.take(n as int), p, l, h));
            while i > 0 && out.len() < limit
                invariant
                    n == s.len(),
                    s == self@,
                    p == prefix@,
                    l == bound_view(*lo),
                    h == bound_view(*hi),
                    i <= n,
                    out@.len() <= limit,
                    sel_back(s, p, l, h) == keys_view(out@) + sel_back(s.take(i as int), p, l, h),
                decreases i,
            {
                let e = &self.entries[i - 1];
                assert(s.take(i as int).drop_last() =~= s.take(i - 1));
                assert(s.take(i as int).last() == e@);
                let ghost before = keys_view(out@);
                let inside = key_in_scope(e, prefix, lo, hi);
                assert(sel_back(s.take(i as int), p, l, h) == if inside {
                    seq![e@] + sel_back(s.take(i - 1), p, l, h)
                } else {
                    sel_back(s.take(i - 1), p, l, h)
                });
                if inside {
                    out.push(e.copy());
                    assert(keys_view(out@) =~= before + seq![e@]);
                    assert(keys_view(out@) + sel_back(s.take(i - 1), p, l, h) =~= before + (seq![
                        e@,
                    ] + sel_back(s.take(i - 1), p, l, h)));
                }
                i = i - 1;
            }
            if i == 0 {
                assert(s.take(0) =~= Seq::<KeyView>::empty());
                assert(sel_back(s, p, l, h) =~= keys_view(out@));
            } else {
                assert(sel_back(s, p, l, h).take(limit as int) =~= keys_view(out@));
            }
        }
        out
    }
}

proof fn lemma_sel_fwd_push(s: Seq<KeyView>, p: Seq<u8>, lo: KeyBound, hi: KeyBound)
    requires
        s.len() > 0,
    ensures
        sel_fwd(s, p, lo, hi) == sel_fwd(s.drop_last(), p, lo, hi) + if in_scope(
            s.last(),
            p,
            lo,
            hi,
        ) {
            seq![s.last()]
        } else {
            Seq::<KeyView>::empty()
        },
    decreases s.len(),
{
    if s.len() == 1 {
        assert(s.drop_last() =~= Seq::<KeyView>::empty());
        assert(s.drop_first() =~= Seq::<KeyView>::empty());
        assert(sel_fwd(s, p, lo, hi) =~= sel_fwd(s.drop_last(), p, lo, hi) + if in_scope(
            s.last(),
            p,
            lo,
            hi,
        ) {
            seq![s.last()]
        } else {
            Seq::<KeyView>::empty()
        });
    } else {
        let t = s.drop_first();
        lemma_sel_fwd_push(t, p, lo, hi);
        assert(t.drop_last() =~= s.drop_last().drop_first());
        assert(t.last() == s.last());
        assert(s.drop_last()[0] == s[0]);
        let tail = if in_scope(s.last(), p, lo, hi) {
            seq![s.last()]
        } else {
            Seq::<KeyView>::empty()
        };
        if in_scope(s[0], p, lo, hi) {
            assert(sel_fwd(s, p, lo, hi) =~= seq![s[0]] + (sel_fwd(t.drop_last(), p, lo, hi)
                + tail));
            assert(sel_fwd(s, p, lo, hi) =~= (seq![s[0]] + sel_fwd(t.drop_last(), p, lo, hi))
                + tail);
        }
    }
}

proof fn lemma_sel_back_is_reverse(s: Seq<KeyView>, p: Seq<u8>, lo: KeyBound, hi: KeyBound)
    ensures
        sel_back(s, p, lo, hi) == sel_fwd(s, p, lo, hi).reverse(),
    decreases s.len(),
{
    if s.len() == 0 {
        assert(sel_fwd(s, p, lo, hi).reverse() =~= Seq::<KeyView>::empty());
    } else {
        lemma_sel_fwd_push(s, p, lo, hi);
        lemma_sel_back_is_reverse(s.drop_last(), p, lo, hi);
        let a = sel_fwd(s.drop_last(), p, lo, hi);
        if in_scope(s.last(), p, lo, hi) {
            assert((a + seq![s.last()]).reverse() =~= seq![s.last()] + a.reverse());
        } else {
            assert(a + Seq::<KeyView>::empty() =~= a);
        }
    }
}

/// Scanning a range in descending order gives exactly the reverse of
/// scanning the same range in ascending order, when the limit does not cut
/// the result short.
pub proof fn lemma_desc_scan_reverses_asc(
    s: Seq<KeyView>,
    prefix: Seq<u8>,
    lo: KeyBound,
    hi: KeyBound,
    limit: nat,
)
    requires
        limit >= sel_fwd(s, prefix, lo, hi).len(),
    ensures
        scan_spec(s, prefix, lo, hi, true, limit) == scan_spec(
            s,
            prefix,
            lo,
            hi,
            false,
            limit,
        ).reverse(),
{
    lemma_sel_back_is_reverse(s, prefix, lo, hi);
}

pub proof fn lemma_sel_fwd_member(s: Seq<KeyView>, p: Seq<u8>, lo: KeyBound, hi: KeyBound, j: int)
    requires
        0 <= j < sel_fwd(s, p, lo, hi).len(),
    ensures
        s.contains(sel_fwd(s, p, lo, hi)[j]),
    decreases s.len(),
{
    let t = s.drop_first();
    let c = sel_fwd(s, p, lo, hi)[j];
    if in_scope(s[0], p, lo, hi) {
        if j == 0 {
            assert(s[0] == c);
        } else {
            lemma_sel_fwd_member(t, p, lo, hi, j - 1);
            let i = choose|i: int| 0 <= i < t.len() && t[i] == c;
            assert(s[i + 1] == c);
        }
    } else {
        lemma_sel_fwd_member(t, p, lo, hi, j);
        let i = choose|i: int| 0 <= i < t.len() && t[i] == c;
        assert(s[i + 1] == c);
    }
}

proof fn lemma_sel_back_member(s: Seq<KeyView>, p: Seq<u8>, lo: KeyBound, hi: KeyBound, j: int)
    requires
        0 <= j < sel_back(s, p, lo, hi).len(),
    ensures
        s.contains(sel_back(s, p, lo, hi)[j]) && in_scope(sel_back(s, p, lo, hi)[j], p, lo, hi),
    decreases s.len(),
{
    let t = s.drop_last();
    let c = sel_back(s, p, lo, hi)[j];
    if in_scope(s.last(), p, lo, hi) && j == 0 {
        assert(s[s.len() - 1] == c);
    } else {
        let jt = if in_scope(s.last(), p, lo, hi) {
            j - 1
        } else {
            j
        };
        assert(sel_back(t, p, lo, hi)[jt] == c);
        lemma_sel_back_member(t, p, lo, hi, jt);
        let i = choose|i: int| 0 <= i < t.len() && t[i] == c;
        assert(s[i] == c);
    }
}

proof fn lemma_sel_fwd_in_scope(s: Seq<KeyView>, p: Seq<u8>, lo: KeyBound, hi: KeyBound, j: int)
    requires
        0 <= j < sel_fwd(s, p, lo, hi).len(),
    ensures
        in_scope(sel_fwd(s, p, lo, hi)[j], p, lo, hi),
    decreases s.len(),
{
    if !(in_scope(s[0], p, lo, hi) && j == 0) {
        let jt = if in_scope(s[0], p, lo, hi) {
            j - 1
        } else {
            j
        };
        lemma_sel_fwd_in_scope(s.drop_first(), p, lo, hi, jt);
    }
}

/// Every key a scan returns is held and lies in the range scanned.
pub proof fn lemma_scan_member(
    s: Seq<KeyView>,
    prefix: Seq<u8>,
    lo: KeyBound,
    hi: KeyBound,
    desc: bool,
    limit: nat,
    j: int,
)
    requires
        0 <= j < scan_spec(s, prefix, lo, hi, desc, limit).len(),
    ensures
        s.contains(scan_spec(s, prefix, lo, hi, desc, limit)[j]),
        in_scope(scan_spec(s, prefix, lo, hi, desc, limit)[j], prefix, lo, hi),
{
    if desc {
        lemma_sel_back_member(s, prefix, lo, hi, j);
    } else {
        lemma_sel_fwd_member(s, prefix, lo, hi, j);
        lemma_sel_fwd_in_scope(s, prefix, lo, hi, j);
    }
}

/// A range holds no more keys than the sequence it is taken from.
pub proof fn lemma_sel_fwd_len(s: Seq<KeyView>, p: Seq<u8>, lo: KeyBound, hi: KeyBound)
    ensures
        sel_fwd(s, p, lo, hi).len() <= s.len(),
    decreases s.len(),
{
    if s.len() > 0 {
        lemma_sel_fwd_len(s.drop_first(), p, lo, hi);
    }
}

/// The keys in range of a sorted sequence are sorted.
pub proof fn lemma_sel_fwd_sorted(s: Seq<KeyView>, p: Seq<u8>, lo: KeyBound, hi: KeyBound)
    requires
        sorted(s),
    ensures
        sorted(sel_fwd(s, p, lo, hi)),
    decreases s.len(),
{
    if s.len() > 0 {
        let t = s.drop_first();
        assert(sorted(t)) by {
            assert forall|a: int, b: int| 0 <= a < b < t.len() implies key_lt(
                #[trigger] t[a],
                #[trigger] t[b],
            ) by {
                assert(t[a] == s[a + 1] && t[b] == s[b + 1]);
            }
        }
        lemma_sel_fwd_sorted(t, p, lo, hi);
        let rest = sel_fwd(t, p, lo, hi);
        if in_scope(s[0], p, lo, hi) {
            let sel = sel_fwd(s, p, lo, hi);
            assert forall|a: int, b: int| 0 <= a < b < sel.len() implies key_lt(
                #[trigger] sel[a],
                #[trigger] sel[b],
            ) by {
                if a == 0 {
                    lemma_sel_fwd_member(t, p, lo, hi, b - 1);
                    let i = choose|i: int| 0 <= i < t.len() && t[i] == rest[b - 1];
                    assert(t[i] == s[i + 1]);
                } else {
                    assert(sel[a] == rest[a - 1] && sel[b] == rest[b - 1]);
                }
            }
        }
    }
}

proof fn lemma_sel_fwd_after(s: Seq<KeyView>, p: Seq<u8>, lo: KeyBound, hi: KeyBound, c: KeyView)
    requires
        forall|i: int| 0 <= i < s.len() ==> key_lt(c, #[trigger] s[i]),
        above(c, lo),
    ensures
        sel_fwd(s, p, Some((c, false)), hi) == sel_fwd(s, p, lo, hi),
    decreases s.len(),
{
    if s.len() > 0 {
        let t = s.drop_first();
        assert forall|i: int| 0 <= i < t.len() implies key_lt(c, #[trigger] t[i]) by {
            assert(t[i] == s[i + 1]);
        }
        lemma_sel_fwd_after(t, p, lo, hi, c);
        assert(key_lt(c, s[0]));
        match lo {
            None => {},
            Some((b, incl)) => {
                if key_lt(b, c) {
                    lemma_key_lt_transitive(b, c, s[0]);
                }
            },
        }
    }
}

pub proof fn lemma_sel_fwd_resume(s: Seq<KeyView>, p: Seq<u8>, lo: KeyBound, hi: KeyBound, j: int)
    requires
        sorted(s),
        0 <= j < sel_fwd(s, p, lo, hi).len(),
    ensures
        sel_fwd(s, p, Some((sel_fwd(s, p, lo, hi)[j], false)), hi) == sel_fwd(
            s,
            p,
            lo,
            hi,
        ).skip(j + 1),
    decreases s.len(),
{
    let t = s.drop_first();
    let sel = sel_fwd(s, p, lo, hi);
    let c = sel[j];
    assert(sorted(t)) by {
        assert forall|a: int, b: int| 0 <= a < b < t.len() implies key_lt(
            #[trigger] t[a],
            #[trigger] t[b],
        ) by {
            assert(t[a] == s[a + 1] && t[b] == s[b + 1]);
        }
    }
    assert forall|i: int| 0 <= i < t.len() implies key_lt(s[0], #[trigger] t[i]) by {
        assert(t[i] == s[i + 1]);
    }
    if in_scope(s[0], p, lo, hi) && j == 0 {
        lemma_key_lt_irreflexive(c);
        lemma_sel_fwd_after(t, p, lo, hi, c);
        assert(sel.skip(1) =~= sel_fwd(t, p, lo, hi));
    } else {
        let jt = if in_scope(s[0], p, lo, hi) {
            j - 1
        } else {
            j
        };
        assert(sel_fwd(t, p, lo, hi)[jt] == c);
        lemma_sel_fwd_resume(t, p, lo, hi, jt);
        lemma_sel_fwd_member(t, p, lo, hi, jt);
        let i = choose|i: int| 0 <= i < t.len() && t[i] == c;
        assert(key_lt(s[0], c));
        lemma_key_lt_asymmetric(s[0], c);
        if in_scope(s[0], p, lo, hi) {
            assert(sel.skip(j + 1) =~= sel_fwd(t, p, lo, hi).skip(jt + 1));
        }
    }
}

/// Paging through a range is the same as one longer scan: a first page of
/// `n` keys followed by the page of `n` keys resumed strictly after its last
/// key equals the first `2 * n` keys of the range.
pub proof fn lemma_paging_concatenates(
    s: Seq<KeyView>,
    prefix: Seq<u8>,
    lo: KeyBound,
    hi: KeyBound,
    n: nat,
)
    requires
        sorted(s),
        n > 0,
        scan_spec(s, prefix, lo, hi, false, n).len() == n,
    ensures
        scan_spec(s, prefix, lo, hi, false, n) + scan_spec(
            s,
            prefix,
            Some((scan_spec(s, prefix, lo, hi, false, n)[n - 1], false)),
            hi,
            false,
            n,
        ) == scan_spec(s, prefix, lo, hi, false, 2 * n),
{
    let sel = sel_fwd(s, prefix, lo, hi);
    let page = scan_spec(s, prefix, lo, hi, false, n);
    assert(page[n - 1] == sel[n - 1]);
    lemma_sel_fwd_resume(s, prefix, lo, hi, n - 1);
    let rest = sel.skip(n as int);
    assert(page =~= sel.take(n as int));
    assert(page + first_n(rest, n) =~= first_n(sel, 2 * n));
}

proof fn lemma_sel_back_before(s: Seq<KeyView>, p: Seq<u8>, lo: KeyBound, hi: KeyBound, c: KeyView)
    requires
        forall|i: int| 0 <= i < s.len() ==> key_lt(#[trigger] s[i], c),
        below(c, hi),
    ensures
        sel_back(s, p, lo, Some((c, false))) == sel_back(s, p, lo, hi),
    decreases s.len(),
{
    if s.len() > 0 {
        let t = s.drop_last();
        assert forall|i: int| 0 <= i < t.len() implies key_lt(#[trigger] t[i], c) by {
            assert(t[i] == s[i]);
        }
        lemma_sel_back_before(t, p, lo, hi, c);
        assert(key_lt(s[s.len() - 1], c));
        match hi {
            None => {},
            Some((b, incl)) => {
                if key_lt(c, b) {
                    lemma_key_lt_transitive(s[s.len() - 1], c, b);
                }
            },
        }
    }
}

proof fn lemma_sel_back_resume(s: Seq<KeyView>, p: Seq<u8>, lo: KeyBound, hi: KeyBound, j: int)
    requires
        sorted(s),
        0 <= j < sel_back(s, p, lo, hi).len(),
    ensures
        sel_back(s, p, lo, Some((sel_back(s, p, lo, hi)[j], false))) == sel_back(
            s,
            p,
            lo,
            hi,
        ).skip(j + 1),
    decreases s.len(),
{
    let t = s.drop_last();
    let x = s[s.len() - 1];
    let sel = sel_back(s, p, lo, hi);
    let c = sel[j];
    assert(sorted(t)) by {
        assert forall|a: int, b: int| 0 <= a < b < t.len() implies key_lt(
            #[trigger] t[a],
            #[trigger] t[b],
        ) by {
            assert(t[a] == s[a] && t[b] == s[b]);
        }
    }
    assert forall|i: int| 0 <= i < t.len() implies key_lt(#[trigger] t[i], x) by {
        assert(t[i] == s[i]);
    }
    if in_scope(x, p, lo, hi) && j == 0 {
        lemma_key_lt_irreflexive(c);
        lemma_sel_back_before(t, p, lo, hi, c);
        assert(sel.skip(1) =~= sel_back(t, p, lo, hi));
    } else {
        let jt = if in_scope(x, p, lo, hi) {
            j - 1
        } else {
            j
        };
        assert(sel_back(t, p, lo, hi)[jt] == c);
        lemma_sel_back_resume(t, p, lo, hi, jt);
        lemma_sel_back_member(t, p, lo, hi, jt);
        let i = choose|i: int| 0 <= i < t.len() && t[i] == c;
        assert(key_lt(c, x));
        lemma_key_lt_asymmetric(c, x);
        if in_scope(x, p, lo, hi) {
            assert(sel.skip(j + 1) =~= sel_back(t, p, lo, hi).skip(jt + 1));
        }
    }
}

/// Paging through a range in descending order is the same as one longer
/// descending scan: a first page of `n` keys followed by the page of `n`
/// keys resumed strictly below its last key equals the first `2 * n` keys.
pub proof fn lemma_desc_paging_concatenates(
    s: Seq<KeyView>,
    prefix: Seq<u8>,
    lo: KeyBound,
    hi: KeyBound,
    n: nat,
)
    requires
        sorted(s),
        n > 0,
        scan_spec(s, prefix, lo, hi, true, n).len() == n,
    ensures
        scan_spec(s, prefix, lo, hi, true, n) + scan_spec(
            s,
            prefix,
            lo,
            Some((scan_spec(s, prefix, lo, hi, true, n)[n - 1], false)),
            true,
            n,
        ) == scan_spec(s, prefix, lo, hi, true, 2 * n),
{
    let sel = sel_back(s, prefix, lo, hi);
    let page = scan_spec(s, prefix, lo, hi, true, n);
    assert(page[n - 1] == sel[n - 1]);
    lemma_sel_back_resume(s, prefix, lo, hi, n - 1);
    let rest = sel.skip(n as int);
    assert(page =~= sel.take(n as int));
    assert(page + first_n(rest, n) =~= first_n(sel, 2 * n));
}

} // verus!
