//! A map from strings to values, walked in the order of its keys.
use crate::text;
use vstd::prelude::*;

verus! {

/// A map from strings to values. No key occurs twice, and the keys stand in order.
pub struct TextMap<V> {
    keys: Vec<String>,
    values: Vec<V>,
}

/// The place of `key` among `keys`.
pub closed spec fn place_of(keys: Seq<String>, key: Seq<char>) -> int {
    choose|i: int| 0 <= i < keys.len() && (#[trigger] keys[i])@ == key
}

spec fn holds_key(keys: Seq<String>, key: Seq<char>) -> bool {
    exists|i: int| 0 <= i < keys.len() && (#[trigger] keys[i])@ == key
}

spec fn map_of<V>(keys: Seq<String>, values: Seq<V>) -> Map<Seq<char>, V> {
    Map::new(|k: Seq<char>| holds_key(keys, k), |k: Seq<char>| values[place_of(keys, k)])
}

spec fn increasing(keys: Seq<String>) -> bool {
    forall|i: int, j: int|
        0 <= i < j < keys.len() ==> text::text_lt((#[trigger] keys[i])@, (#[trigger] keys[j])@)
}

impl<V> View for TextMap<V> {
    type V = Map<Seq<char>, V>;

    closed spec fn view(&self) -> Map<Seq<char>, V> {
        map_of(self.keys@, self.values@)
    }
}

impl<V> TextMap<V> {
    #[verifier::type_invariant]
    pub closed spec fn wf(self) -> bool {
        &&& self.keys@.len() == self.values@.len()
        &&& increasing(self.keys@)
    }

    /// The keys, in order.
    pub closed spec fn order(self) -> Seq<Seq<char>> {
        text::texts(self.keys@)
    }

    /// A map with no key.
    pub fn new() -> (r: Self)
        ensures
            r@ == Map::<Seq<char>, V>::empty(),
            r.order() == Seq::<Seq<char>>::empty(),
    {
        let r = TextMap { keys: Vec::new(), values: Vec::new() };
        assert(r@ =~= Map::empty());
        assert(r.order() =~= Seq::empty());
        r
    }

    /// How many keys there are.
    pub fn len(&self) -> (n: usize)
        ensures
            n == self.order().len(),
    {
        self.keys.len()
    }

    /// The keys of the map, in order, each once: those that its view holds.
    pub proof fn lemma_order(&self)
        requires
            self.wf(),
        ensures
            forall|i: int, j: int|
                0 <= i < j < self.order().len() ==> text::text_lt(
                    #[trigger] self.order()[i],
                    #[trigger] self.order()[j],
                ),
            forall|k: Seq<char>| #[trigger] self@.contains_key(k) <==> self.order().contains(k),
    {
        assert forall|k: Seq<char>| #[trigger] self@.contains_key(k) <==> self.order().contains(
            k,
        ) by {
            if self@.contains_key(k) {
                let i = choose|i: int| 0 <= i < self.keys@.len() && (#[trigger] self.keys@[i])@ == k;
                assert(self.order()[i] == k);
            }
            if self.order().contains(k) {
                let i = choose|i: int| 0 <= i < self.order().len() && self.order()[i] == k;
                assert(self.keys@[i]@ == k);
            }
        }
    }

    /// The value at `key`, or `None` where there is none.
    pub fn get(&self, key: &str) -> (r: Option<&V>)
        ensures
            r is Some <==> self@.contains_key(key@),
            r matches Some(v) ==> *v == self@[key@],
    {
        proof {
            use_type_invariant(self);
        }
        let mut i: usize = 0;
        while i < self.keys.len()
            invariant
                i <= self.keys@.len() == self.values@.len(),
                increasing(self.keys@),
                forall|j: int| 0 <= j < i ==> (#[trigger] self.keys@[j])@ != key@,
            decreases self.keys@.len() - i,
        {
            if text::same(self.keys[i].as_str(), key) {
                proof {
                    let p = place_of(self.keys@, key@);
                    assert(self.keys@[i as int]@ == key@);
                    assert(0 <= p < self.keys@.len() && self.keys@[p]@ == key@);
                    assert(p == i);
                }
                return Some(&self.values[i]);
            }
            i += 1;
        }
        None
    }

    /// The key at place `i` of the order, and its value.
    pub fn entry(&self, i: usize) -> (r: (&str, &V))
        requires
            i < self.order().len(),
        ensures
            r.0@ == self.order()[i as int],
            self@.contains_key(r.0@),
            *r.1 == self@[r.0@],
    {
        proof {
            use_type_invariant(self);
            let p = place_of(self.keys@, self.keys@[i as int]@);
            assert(0 <= p < self.keys@.len() && self.keys@[p]@ == self.keys@[i as int]@);
            assert(p == i);
        }
        (self.keys[i].as_str(), &self.values[i])
    }

    /// The map with `value` at `key`, and all else as it was.
    pub fn with(self, key: String, value: V) -> (r: Self)
        ensures
            r@ == self@.insert(key@, value),
            self@.contains_key(key@) ==> r.order() == self.order(),
            !self@.contains_key(key@) ==> r.order().len() == self.order().len() + 1,
            self@.contains_key(key@) <==> self.order().contains(key@),
    {
        proof {
            use_type_invariant(&self);
            self.lemma_order();
        }
        let ghost before = self;
        let TextMap { keys, values } = self;
        let mut keys = keys;
        let mut values = values;
        let ghost old_keys = keys@;
        let ghost old_values = values@;
        let mut at: usize = 0;
        while at < keys.len() && !text::not_after(key.as_str(), keys[at].as_str())
            invariant
                keys@ == old_keys,
                at <= keys@.len() == old_values.len(),
                increasing(old_keys),
                forall|j: int| 0 <= j < at ==> text::text_lt((#[trigger] old_keys[j])@, key@),
            decreases keys@.len() - at,
        {
            proof {
                text::lemma_text_le_total(key@, old_keys[at as int]@);
            }
            at += 1;
        }
        if at < keys.len() && text::same(key.as_str(), keys[at].as_str()) {
            values.set(at, value);
            proof {
                assert(keys@[at as int]@ == key@);
                let m = map_of(keys@, values@);
                let o = before@.insert(key@, value);
                assert forall|k: Seq<char>| #[trigger] m.contains_key(k) implies m[k] == o[k] by {
                    let p = place_of(old_keys, k);
                    assert(0 <= p < old_keys.len() && old_keys[p]@ == k);
                    if k == key@ {
                        assert(p == at);
                    }
                }
                assert(m =~= o);
            }
            TextMap { keys, values }
        } else {
            let ghost k = key@;
            keys.insert(at, key);
            values.insert(at, value);
            proof {
                assert forall|j: int| at <= j < old_keys.len() implies text::text_lt(
                    k,
                    (#[trigger] old_keys[j])@,
                ) by {
                    if j > at {
                        assert(text::text_lt(old_keys[at as int]@, old_keys[j]@));
                        text::lemma_text_le_transitive(k, old_keys[at as int]@, old_keys[j]@);
                        text::lemma_text_le_total(k, old_keys[at as int]@);
                    }
                }
                assert forall|i: int, j: int| 0 <= i < j < keys@.len() implies text::text_lt(
                    (#[trigger] keys@[i])@,
                    (#[trigger] keys@[j])@,
                ) by {
                    if i < at && j > at {
                        assert(text::text_lt(old_keys[i]@, old_keys[j - 1]@));
                    } else if i > at {
                        assert(text::text_lt(old_keys[i - 1]@, old_keys[j - 1]@));
                    } else if i == at {
                        assert(keys@[j] == old_keys[j - 1]);
                    }
                }
                let m = map_of(keys@, values@);
                let o = before@.insert(k, value);
                assert forall|x: Seq<char>| #[trigger] m.contains_key(x) <==> o.contains_key(x) by {
                    if m.contains_key(x) {
                        let p = choose|p: int| 0 <= p < keys@.len() && (#[trigger] keys@[p])@ == x;
                        if p < at {
                            assert(old_keys[p]@ == x);
                        } else if p > at {
                            assert(old_keys[p - 1]@ == x);
                        }
                    }
                    if o.contains_key(x) {
                        if x == k {
                            assert(keys@[at as int]@ == x);
                        } else {
                            let p = choose|p: int|
                                0 <= p < old_keys.len() && (#[trigger] old_keys[p])@ == x;
                            if p < at {
                                assert(keys@[p]@ == x);
                            } else {
                                assert(keys@[p + 1]@ == x);
                            }
                        }
                    }
                }
                assert forall|x: Seq<char>| #[trigger] m.contains_key(x) implies m[x] == o[x] by {
                    let p = place_of(keys@, x);
                    assert(0 <= p < keys@.len() && keys@[p]@ == x);
                    if x == k {
                        assert(keys@[at as int]@ == k);
                        assert(p == at);
                    } else {
                        let q = place_of(old_keys, x);
                        let e = if p < at { p } else { p - 1 };
                        assert(p != at);
                        assert(old_keys[e]@ == x);
                        assert(0 <= q < old_keys.len() && old_keys[q]@ == x);
                        assert(q == e);
                    }
                }
                assert(m =~= o);
                assert(!before@.contains_key(k)) by {
                    if holds_key(old_keys, k) {
                        let p = choose|p: int|
                            0 <= p < old_keys.len() && (#[trigger] old_keys[p])@ == k;
                        if p < at {
                            assert(text::text_lt(old_keys[p]@, k));
                        } else {
                            assert(text::text_lt(k, old_keys[p]@));
                        }
                    }
                }
            }
            TextMap { keys, values }
        }
    }
}

} // verus!
