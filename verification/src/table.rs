//! An ordered table: rows under byte-string keys, kept in ascending order.
use vstd::prelude::*;

verus! {

/// Byte strings in dictionary order.
pub open spec fn before(a: Seq<u8>, b: Seq<u8>) -> bool
    decreases b.len(),
{
    if b.len() == 0 {
        false
    } else if a.len() == 0 {
        true
    } else if a[0] != b[0] {
        a[0] < b[0]
    } else {
        before(a.drop_first(), b.drop_first())
    }
}

/// No key comes before itself, and of two keys one comes first.
pub proof fn lemma_before_total(a: Seq<u8>, b: Seq<u8>)
    ensures
        before(a, b) ==> !before(b, a),
        before(a, b) ==> a != b,
        a != b ==> before(a, b) || before(b, a),
    decreases b.len(),
{
    if a.len() == 0 && b.len() == 0 {
        assert(a =~= b);
    } else if a.len() > 0 && b.len() > 0 && a[0] == b[0] {
        lemma_before_total(a.drop_first(), b.drop_first());
        assert(a =~= seq![a[0]] + a.drop_first());
        assert(b =~= seq![b[0]] + b.drop_first());
    }
}

pub proof fn lemma_before_transitive(a: Seq<u8>, b: Seq<u8>, c: Seq<u8>)
    requires
        before(a, b),
        before(b, c),
    ensures
        before(a, c),
    decreases c.len(),
{
    if a.len() > 0 && a[0] == b[0] && b[0] == c[0] {
        lemma_before_transitive(a.drop_first(), b.drop_first(), c.drop_first());
    }
}

/// How one key stands to another.
#[derive(Clone, Copy, PartialEq, Eq, Structural, Debug)]
pub enum Order {
    Before,
    Same,
    After,
}

/// Orders two byte strings.
pub fn order(a: &[u8], b: &[u8]) -> (r: Order)
    ensures
        (r is Before) == before(a@, b@),
        (r is Same) == (a@ == b@),
        (r is After) == before(b@, a@),
{
    let mut i: usize = 0;
    assert(a@.skip(0) =~= a@);
    assert(b@.skip(0) =~= b@);
    while i < a.len() && i < b.len() && a[i] == b[i]
        invariant
            i <= a@.len(),
            i <= b@.len(),
            a@.take(i as int) == b@.take(i as int),
            before(a@, b@) == before(a@.skip(i as int), b@.skip(i as int)),
            before(b@, a@) == before(b@.skip(i as int), a@.skip(i as int)),
        decreases a@.len() - i,
    {
        assert(a@.skip(i as int).drop_first() =~= a@.skip(i as int + 1));
        assert(b@.skip(i as int).drop_first() =~= b@.skip(i as int + 1));
        assert(a@.take(i as int + 1) =~= a@.take(i as int).push(a@[i as int]));
        assert(b@.take(i as int + 1) =~= b@.take(i as int).push(b@[i as int]));
        i += 1;
    }
    proof {
        lemma_before_total(a@, b@);
        if i == a@.len() && i == b@.len() {
            assert(a@ =~= a@.take(i as int));
            assert(b@ =~= b@.take(i as int));
        }
    }
    if i == b.len() {
        if i == a.len() {
            Order::Same
        } else {
            Order::After
        }
    } else if i == a.len() {
        Order::Before
    } else if a[i] < b[i] {
        Order::Before
    } else {
        Order::After
    }
}

/// Whether every key comes before the next.
pub open spec fn ascending(keys: Seq<Seq<u8>>) -> bool {
    forall|i: int, j: int| 0 <= i < j < keys.len() ==> before(#[trigger] keys[i], #[trigger] keys[j])
}

/// A table from byte strings to values.
pub struct Table<V> {
    rows: Vec<(Vec<u8>, V)>,
}

impl<V> View for Table<V> {
    type V = Map<Seq<u8>, V>;

    closed spec fn view(&self) -> Map<Seq<u8>, V> {
        Map::new(
            |k: Seq<u8>| self.keys().contains(k),
            |k: Seq<u8>| self.rows@[self.keys().index_of(k)].1,
        )
    }
}

impl<V> Table<V> {
    /// The keys, in order.
    pub closed spec fn keys(&self) -> Seq<Seq<u8>> {
        self.rows@.map_values(|row: (Vec<u8>, V)| row.0@)
    }

    pub open spec fn wf(&self) -> bool {
        ascending(self.keys())
    }

    /// What the order of the keys says of the table as a map.
    pub proof fn lemma_keys(&self)
        requires
            self.wf(),
        ensures
            self.keys().no_duplicates(),
            self@.dom() == self.keys().to_set(),
            self@.dom().finite(),
            self@.len() == self.keys().len(),
            forall|i: int| 0 <= i < self.keys().len() ==> self@.contains_key(#[trigger] self.keys()[i]),
            forall|k: Seq<u8>| #[trigger] self@.contains_key(k) <==> self.keys().contains(k),
    {
        let keys = self.keys();
        assert forall|i: int, j: int| 0 <= i < keys.len() && 0 <= j < keys.len() && i != j implies keys[i]
            != keys[j] by {
            if i < j {
                lemma_before_total(keys[i], keys[j]);
            } else {
                lemma_before_total(keys[j], keys[i]);
            }
        }
        assert(self@.dom() =~= keys.to_set());
        keys.unique_seq_to_set();
        vstd::seq_lib::seq_to_set_is_finite(keys);
        assert forall|i: int| 0 <= i < keys.len() implies self@.contains_key(#[trigger] keys[i]) by {
            assert(keys.contains(keys[i]));
        }
    }

    proof fn lemma_at(&self, i: int)
        requires
            self.wf(),
            0 <= i < self.rows@.len(),
        ensures
            self.keys().len() == self.rows@.len(),
            self.keys()[i] == self.rows@[i].0@,
            self@.contains_key(self.keys()[i]),
            self@[self.keys()[i]] == self.rows@[i].1,
    {
        self.lemma_keys();
        let keys = self.keys();
        assert(keys.contains(keys[i]));
        let at = keys.index_of(keys[i]);
        assert(keys[at] == keys[i]);
        assert(at == i);
    }

    pub fn new() -> (out: Self)
        ensures
            out.wf(),
            out@ == Map::<Seq<u8>, V>::empty(),
            out.keys() == Seq::<Seq<u8>>::empty(),
    {
        let out = Table { rows: Vec::new() };
        assert(out.keys() =~= Seq::<Seq<u8>>::empty());
        assert(out@ =~= Map::<Seq<u8>, V>::empty());
        out
    }

    pub fn len(&self) -> (n: usize)
        requires
            self.wf(),
        ensures
            n == self@.len(),
            n == self.keys().len(),
            self@.dom().finite(),
    {
        proof {
            self.lemma_keys();
        }
        self.rows.len()
    }

    /// Where `key` is, or where it belongs.
    pub fn find(&self, key: &[u8]) -> (out: (usize, bool))
        requires
            self.wf(),
        ensures
            out.0 <= self.keys().len(),
            out.1 == self@.contains_key(key@),
            out.1 ==> out.0 < self.keys().len() && self.keys()[out.0 as int] == key@,
            forall|i: int| 0 <= i < out.0 ==> before(#[trigger] self.keys()[i], key@),
            !out.1 ==> forall|i: int|
                out.0 <= i < self.keys().len() ==> before(key@, #[trigger] self.keys()[i]),
    {
        let ghost keys = self.keys();
        proof {
            self.lemma_keys();
        }
        let mut lo: usize = 0;
        let mut hi: usize = self.rows.len();
        while lo < hi
            invariant
                self.wf(),
                keys == self.keys(),
                keys.len() == self.rows@.len(),
                lo <= hi <= keys.len(),
                forall|i: int| 0 <= i < lo ==> before(#[trigger] keys[i], key@),
                forall|i: int| hi <= i < keys.len() ==> before(key@, #[trigger] keys[i]),
                forall|k: Seq<u8>| #[trigger] self@.contains_key(k) <==> keys.contains(k),
            decreases hi - lo,
        {
            let mid: usize = lo + (hi - lo) / 2;
            assert(keys[mid as int] == self.rows@[mid as int].0@);
            match order(&self.rows[mid].0, key) {
                Order::Same => {
                    assert(keys.contains(keys[mid as int]));
                    return (mid, true);
                },
                Order::Before => {
                    assert forall|i: int| 0 <= i < mid + 1 implies before(#[trigger] keys[i], key@) by {
                        if i < mid {
                            lemma_before_transitive(keys[i], keys[mid as int], key@);
                        }
                    }
                    lo = mid + 1;
                },
                Order::After => {
                    assert forall|i: int| mid <= i < keys.len() implies before(key@, #[trigger] keys[i]) by {
                        if mid < i {
                            lemma_before_transitive(key@, keys[mid as int], keys[i]);
                        }
                    }
                    hi = mid;
                },
            }
        }
        proof {
            if keys.contains(key@) {
                let i = keys.index_of(key@);
                assert(keys[i] == key@);
                lemma_before_total(key@, key@);
            }
        }
        (lo, false)
    }

    pub fn get(&self, key: &[u8]) -> (out: Option<&V>)
        requires
            self.wf(),
        ensures
            match out {
                Some(v) => self@.contains_key(key@) && *v == self@[key@],
                None => !self@.contains_key(key@),
            },
    {
        let (at, found) = self.find(key);
        if found {
            proof {
                self.lemma_keys();
                self.lemma_at(at as int);
            }
            Some(&self.rows[at].1)
        } else {
            None
        }
    }

    pub fn contains_key(&self, key: &[u8]) -> (out: bool)
        requires
            self.wf(),
        ensures
            out == self@.contains_key(key@),
    {
        self.find(key).1
    }

    /// The value of the row at place `i`.
    pub fn value_at(&self, i: usize) -> (out: &V)
        requires
            self.wf(),
            i < self.keys().len(),
        ensures
            *out == self@[self.keys()[i as int]],
    {
        proof {
            self.lemma_at(i as int);
        }
        &self.rows[i].1
    }

    /// Puts `value` under `key`, replacing what was there.
    pub fn put(&mut self, key: Vec<u8>, value: V)
        requires
            old(self).wf(),
        ensures
            final(self).wf(),
            final(self)@ == old(self)@.insert(key@, value),
            old(self)@.contains_key(key@) ==> final(self).keys() == old(self).keys(),
    {
        let (at, found) = self.find(&key);
        let ghost k = key@;
        let ghost keys = self.keys();
        let ghost before_rows = self.rows@;
        proof {
            self.lemma_keys();
        }
        if found {
            self.rows[at] = (key, value);
            proof {
                assert(self.keys() =~= keys);
                self.lemma_keys();
                assert forall|q: Seq<u8>| keys.contains(q) implies self@[q] == (#[trigger] old(self)@.insert(
                    k,
                    value,
                )[q]) by {
                    let i = keys.index_of(q);
                    self.lemma_at(i);
                    old(self).lemma_at(i);
                    if q != k {
                        assert(i != at);
                    } else {
                        assert(keys[i] == keys[at as int]);
                    }
                }
                assert(self@.dom() =~= old(self)@.insert(k, value).dom());
                assert(self@ =~= old(self)@.insert(k, value));
            }
        } else {
            self.rows.insert(at, (key, value));
            proof {
                let now = self.keys();
                assert(now =~= keys.insert(at as int, k));
                assert forall|i: int, j: int| 0 <= i < j < now.len() implies before(
                    #[trigger] now[i],
                    #[trigger] now[j],
                ) by {
                    if j < at {
                        assert(now[i] == keys[i] && now[j] == keys[j]);
                    } else if j == at {
                        assert(now[i] == keys[i]);
                    } else if i < at {
                        assert(now[i] == keys[i] && now[j] == keys[j - 1]);
                    } else if i == at {
                        assert(now[j] == keys[j - 1]);
                    } else {
                        assert(now[i] == keys[i - 1] && now[j] == keys[j - 1]);
                    }
                }
                self.lemma_keys();
                assert forall|q: Seq<u8>|
                    now.contains(q) == (keys.contains(q) || q == k) by {
                    if keys.contains(q) {
                        let i = keys.index_of(q);
                        if i < at {
                            assert(now[i] == q);
                        } else {
                            assert(now[i + 1] == q);
                        }
                    }
                    if now.contains(q) && q != k {
                        let i = now.index_of(q);
                        if i < at {
                            assert(keys[i] == q);
                        } else {
                            assert(keys[i - 1] == q);
                        }
                    }
                    assert(now[at as int] == k);
                }
                assert forall|q: Seq<u8>| now.contains(q) implies self@[q] == (#[trigger] old(self)@.insert(
                    k,
                    value,
                )[q]) by {
                    let i = now.index_of(q);
                    self.lemma_at(i);
                    if i < at {
                        old(self).lemma_at(i);
                    } else if i > at {
                        old(self).lemma_at(i - 1);
                    }
                }
                assert(self@.dom() =~= old(self)@.insert(k, value).dom());
                assert(self@ =~= old(self)@.insert(k, value));
            }
        }
    }

    /// Takes the row at place `i` out.
    pub fn remove_at(&mut self, i: usize) -> (out: (Vec<u8>, V))
        requires
            old(self).wf(),
            i < old(self).keys().len(),
        ensures
            final(self).wf(),
            final(self).keys() == old(self).keys().remove(i as int),
            out.0@ == old(self).keys()[i as int],
            out.1 == old(self)@[out.0@],
            final(self)@ == old(self)@.remove(out.0@),
    {
        let ghost keys = self.keys();
        proof {
            self.lemma_keys();
            self.lemma_at(i as int);
        }
        let out = self.rows.remove(i);
        proof {
            let now = self.keys();
            let k = out.0@;
            assert(now =~= keys.remove(i as int));
            self.lemma_keys();
            assert forall|q: Seq<u8>| now.contains(q) == (keys.contains(q) && q != k) by {
                if keys.contains(q) && q != k {
                    let j = keys.index_of(q);
                    if j < i {
                        assert(now[j] == q);
                    } else {
                        assert(now[j - 1] == q);
                    }
                }
                if now.contains(q) {
                    let j = now.index_of(q);
                    if j < i {
                        assert(keys[j] == q);
                    } else {
                        assert(keys[j + 1] == q);
                    }
                }
            }
            assert forall|q: Seq<u8>| now.contains(q) implies self@[q] == (#[trigger] old(self)@.remove(
                k,
            )[q]) by {
                let j = now.index_of(q);
                self.lemma_at(j);
                if j < i {
                    old(self).lemma_at(j);
                } else {
                    old(self).lemma_at(j + 1);
                }
            }
            assert(self@.dom() =~= old(self)@.remove(k).dom());
            assert(self@ =~= old(self)@.remove(k));
        }
        out
    }

    /// Takes the row under `key` out, if there is one.
    pub fn remove(&mut self, key: &[u8]) -> (out: Option<V>)
        requires
            old(self).wf(),
        ensures
            final(self).wf(),
            final(self)@ == old(self)@.remove(key@),
            match out {
                Some(v) => old(self)@.contains_key(key@) && v == old(self)@[key@],
                None => !old(self)@.contains_key(key@),
            },
    {
        let (at, found) = self.find(key);
        if found {
            Some(self.remove_at(at).1)
        } else {
            assert(self@.remove(key@) =~= self@);
            None
        }
    }
}

/// One byte string comes before another where it is the beginning of it, or is less
/// at the first place where they differ.
pub proof fn law_keys_are_in_dictionary_order(a: Seq<u8>, b: Seq<u8>, k: int)
    requires
        0 <= k <= a.len(),
        k <= b.len(),
        a.take(k) == b.take(k),
    ensures
        k == a.len() && k < b.len() ==> before(a, b),
        k == b.len() ==> !before(a, b),
        k < a.len() && k < b.len() && a[k] < b[k] ==> before(a, b),
        k < a.len() && k < b.len() && a[k] > b[k] ==> !before(a, b),
    decreases k,
{
    if k > 0 {
        assert(a[0] == a.take(k)[0] && b[0] == b.take(k)[0]);
        let x = a.drop_first();
        let y = b.drop_first();
        assert(x.take(k - 1) =~= a.take(k).drop_first());
        assert(y.take(k - 1) =~= b.take(k).drop_first());
        law_keys_are_in_dictionary_order(x, y, k - 1);
    }
}

} // verus!
