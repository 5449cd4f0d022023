use serde_json::Value;
use vstd::prelude::*;

use crate::command::{bytes_lt, name_lt, str_lt};
use crate::text::str_eq;
use crate::trusted::{json_as_bool, json_as_str, json_bool, json_clone, json_str};

verus! {

/// Index of the last entry stored under `key`, or -1.
pub open spec fn find_key<V>(entries: Seq<(Seq<char>, V)>, key: Seq<char>) -> int
    decreases entries.len(),
{
    if entries.len() == 0 {
        -1
    } else if entries.last().0 == key {
        entries.len() - 1
    } else {
        find_key(entries.drop_last(), key)
    }
}

/// Key-value settings, kept sorted by key as a sorted map keeps them; each key occurs once.
#[derive(Debug)]
pub struct Settings {
    values: Vec<(String, Value)>,
}

/// Keys in strictly increasing byte order, as a sorted map keeps them.
pub open spec fn keys_sorted<V>(s: Seq<(Seq<char>, V)>) -> bool {
    forall|i: int, j: int| 0 <= i < j < s.len() ==> name_lt((#[trigger] s[i]).0, (#[trigger] s[j]).0)
}

/// The first index from `i` on whose key does not come before `key`.
pub open spec fn key_position_from<V>(s: Seq<(Seq<char>, V)>, key: Seq<char>, i: int) -> int
    decreases s.len() - i,
{
    if 0 <= i < s.len() && name_lt(s[i].0, key) {
        key_position_from(s, key, i + 1)
    } else {
        i
    }
}

/// Where `key` goes among sorted entries: after every entry whose key comes before it.
pub open spec fn key_position<V>(s: Seq<(Seq<char>, V)>, key: Seq<char>) -> int {
    key_position_from(s, key, 0)
}

pub(crate) proof fn lemma_bytes_lt_irreflexive(a: Seq<u8>)
    ensures
        !bytes_lt(a, a),
    decreases a.len(),
{
    if a.len() > 0 {
        lemma_bytes_lt_irreflexive(a.drop_first());
    }
}

pub(crate) proof fn lemma_bytes_lt_transitive(a: Seq<u8>, b: Seq<u8>, c: Seq<u8>)
    requires
        bytes_lt(a, b),
        bytes_lt(b, c),
    ensures
        bytes_lt(a, c),
    decreases a.len(),
{
    if a.len() > 0 && b.len() > 0 && c.len() > 0 && a[0] == b[0] && b[0] == c[0] {
        lemma_bytes_lt_transitive(a.drop_first(), b.drop_first(), c.drop_first());
    }
}

pub(crate) proof fn lemma_bytes_lt_total(a: Seq<u8>, b: Seq<u8>)
    requires
        a != b,
    ensures
        bytes_lt(a, b) || bytes_lt(b, a),
    decreases a.len(),
{
    if a.len() == 0 && b.len() == 0 {
        assert(a =~= b);
    }
    if a.len() > 0 && b.len() > 0 && a[0] == b[0] {
        if a.drop_first() =~= b.drop_first() {
            assert(a.len() == b.len());
            assert(a =~= b) by {
                assert forall|i: int| 0 <= i < a.len() implies a[i] == b[i] by {
                    if i > 0 {
                        assert(a[i] == a.drop_first()[i - 1]);
                        assert(b[i] == b.drop_first()[i - 1]);
                    }
                }
            }
        }
        lemma_bytes_lt_total(a.drop_first(), b.drop_first());
    }
}

/// The order of keys is a strict total order.
pub proof fn lemma_name_order(a: Seq<char>, b: Seq<char>, c: Seq<char>)
    ensures
        !name_lt(a, a),
        name_lt(a, b) && name_lt(b, c) ==> name_lt(a, c),
        a != b ==> name_lt(a, b) || name_lt(b, a),
{
    lemma_bytes_lt_irreflexive(vstd::utf8::encode_utf8(a));
    if name_lt(a, b) && name_lt(b, c) {
        lemma_bytes_lt_transitive(vstd::utf8::encode_utf8(a), vstd::utf8::encode_utf8(b), vstd::utf8::encode_utf8(c));
    }
    if a != b {
        vstd::utf8::encode_utf8_decode_utf8(a);
        vstd::utf8::encode_utf8_decode_utf8(b);
        lemma_bytes_lt_total(vstd::utf8::encode_utf8(a), vstd::utf8::encode_utf8(b));
    }
}

impl View for Settings {
    type V = Seq<(Seq<char>, Value)>;

    closed spec fn view(&self) -> Seq<(Seq<char>, Value)> {
        self.values@.map_values(|e: (String, Value)| (e.0@, e.1))
    }
}

pub proof fn lemma_find_key<V>(entries: Seq<(Seq<char>, V)>, key: Seq<char>)
    ensures
        -1 <= find_key(entries, key) < entries.len(),
        find_key(entries, key) >= 0 ==> entries[find_key(entries, key)].0 == key,
        find_key(entries, key) < 0 ==> forall|i: int| 0 <= i < entries.len() ==> (#[trigger] entries[i]).0 != key,
    decreases entries.len(),
{
    if entries.len() > 0 && entries.last().0 != key {
        lemma_find_key(entries.drop_last(), key);
        let p = entries.drop_last();
        assert forall|i: int| 0 <= i < entries.len() - 1 implies entries[i] == p[i] by {}
    }
}

impl Settings {
    #[verifier::type_invariant]
    spec fn sorted(&self) -> bool {
        keys_sorted(self@)
    }

    pub fn new() -> (r: Self)
        ensures
            r@ == Seq::<(Seq<char>, Value)>::empty(),
    {
        Settings { values: Vec::new() }
    }

    fn position(&self, key: &str) -> (r: Option<usize>)
        ensures
            r is None <==> find_key(self@, key@) < 0,
            r matches Some(i) ==> i == find_key(self@, key@) && i < self.values@.len(),
            self@.len() == self.values@.len(),
    {
        proof {
            lemma_find_key(self@, key@);
            assert(self@.take(self.values.len() as int) == self@);
        }
        let mut i: usize = self.values.len();
        while i > 0
            invariant
                i <= self.values.len(),
                self@.len() == self.values@.len(),
                forall|k: int| 0 <= k < self.values@.len() ==> (#[trigger] self@[k]) == (self.values@[k].0@, self.values@[k].1),
                find_key(self@, key@) == find_key(self@.take(i as int), key@),
            decreases i,
        {
            proof {
                assert(self@.take(i as int).drop_last() == self@.take(i - 1));
                assert(self@.take(i as int).last() == self@[i - 1]);
            }
            if str_eq(self.values[i - 1].0.as_str(), key) {
                proof {
                    assert(self@[i - 1] == (self.values@[i - 1].0@, self.values@[i - 1].1));
                }
                return Some(i - 1);
            }
            i = i - 1;
        }
        None
    }

    /// The value stored under `key`.
    pub fn get(&self, key: &str) -> (r: Option<&Value>)
        ensures
            r == (if find_key(self@, key@) >= 0 {
                Some(&self@[find_key(self@, key@)].1)
            } else {
                None
            }),
    {
        match self.position(key) {
            Some(i) => Some(&self.values[i].1),
            None => None,
        }
    }

    /// The value under `key` read as a boolean; `None` when the key is absent.
    pub fn get_bool(&self, key: &str) -> (r: Option<bool>)
        ensures
            r == (if find_key(self@, key@) >= 0 {
                json_bool(self@[find_key(self@, key@)].1)
            } else {
                None
            }),
    {
        match self.get(key) {
            Some(v) => json_as_bool(v),
            None => None,
        }
    }

    /// The value under `key` read as a string; `None` when the key is absent.
    pub fn get_str(&self, key: &str) -> (r: Option<&str>)
        ensures
            find_key(self@, key@) < 0 ==> r is None,
            find_key(self@, key@) >= 0 ==> match r {
                Some(s) => json_str(self@[find_key(self@, key@)].1) == Some(s@),
                None => json_str(self@[find_key(self@, key@)].1) is None,
            },
    {
        match self.get(key) {
            Some(v) => json_as_str(v),
            None => None,
        }
    }

    /// Stores `value` under `key`, in place of any earlier value; a new key goes where its order
    /// puts it.
    pub fn set(&mut self, key: String, value: Value)
        ensures
            find_key(old(self)@, key@) >= 0 ==> final(self)@ == old(self)@.update(
                find_key(old(self)@, key@),
                (key@, value),
            ),
            find_key(old(self)@, key@) < 0 ==> final(self)@ == old(self)@.insert(
                key_position(old(self)@, key@),
                (key@, value),
            ),
    {
        proof {
            use_type_invariant(&*self);
            lemma_find_key(self@, key@);
        }
        let ghost s = self@;
        let found = self.position(key.as_str());
        let mut vals: Vec<(String, Value)> = Vec::new();
        std::mem::swap(&mut self.values, &mut vals);
        proof {
            assert(vals@.map_values(|e: (String, Value)| (e.0@, e.1)) == s);
        }
        match found {
            Some(i) => {
                vals.set(i, (key, value));
                proof {
                    let t = vals@.map_values(|e: (String, Value)| (e.0@, e.1));
                    assert(t == s.update(i as int, (key@, value)));
                    assert forall|a: int, b: int| 0 <= a < b < t.len() implies name_lt((#[trigger] t[a]).0, (#[trigger] t[b]).0) by {
                        assert(t[a].0 == s[a].0 && t[b].0 == s[b].0);
                    }
                }
                self.values = vals;
            },
            None => {
                let mut p: usize = 0;
                while p < vals.len() && str_lt(vals[p].0.as_str(), key.as_str())
                    invariant
                        p <= vals@.len(),
                        vals@.map_values(|e: (String, Value)| (e.0@, e.1)) == s,
                        key_position(s, key@) == key_position_from(s, key@, p as int),
                        forall|j: int| 0 <= j < p ==> name_lt((#[trigger] s[j]).0, key@),
                    decreases vals@.len() - p,
                {
                    proof {
                        assert(s[p as int].0 == vals@[p as int].0@);
                    }
                    p = p + 1;
                }
                proof {
                    if p < vals@.len() {
                        assert(s[p as int].0 == vals@[p as int].0@);
                        assert(!name_lt(s[p as int].0, key@));
                    }
                    assert(key_position_from(s, key@, p as int) == p);
                }
                let ghost kv = (key@, value);
                vals.insert(p, (key, value));
                proof {
                    let t = vals@.map_values(|e: (String, Value)| (e.0@, e.1));
                    assert(t == s.insert(p as int, kv));
                    assert forall|a: int, b: int| 0 <= a < b < t.len() implies name_lt((#[trigger] t[a]).0, (#[trigger] t[b]).0) by {
                        if b < p {
                            assert(t[a] == s[a] && t[b] == s[b]);
                        } else if b == p {
                            assert(t[a] == s[a]);
                        } else if a > p {
                            assert(t[a] == s[a - 1] && t[b] == s[b - 1]);
                        } else {
                            assert(t[b] == s[b - 1]);
                            assert(s[p as int].0 != kv.0);
                            lemma_name_order(s[p as int].0, kv.0, s[b - 1].0);
                            lemma_name_order(kv.0, s[p as int].0, s[b - 1].0);
                            if a < p {
                                assert(t[a] == s[a]);
                                lemma_name_order(s[a].0, kv.0, s[b - 1].0);
                            }
                        }
                    }
                }
                self.values = vals;
            },
        }
    }

    /// Removes the entry under `key` and hands back its value.
    pub fn erase(&mut self, key: &str) -> (r: Option<Value>)
        ensures
            find_key(old(self)@, key@) >= 0 ==> r == Some(old(self)@[find_key(old(self)@, key@)].1)
                && final(self)@ == old(self)@.remove(find_key(old(self)@, key@)),
            find_key(old(self)@, key@) < 0 ==> r is None && final(self)@ == old(self)@,
    {
        proof {
            use_type_invariant(&*self);
        }
        let ghost s = self@;
        match self.position(key) {
            Some(i) => {
                let mut vals: Vec<(String, Value)> = Vec::new();
                std::mem::swap(&mut self.values, &mut vals);
                let (_k, v) = vals.remove(i);
                proof {
                    let t = vals@.map_values(|e: (String, Value)| (e.0@, e.1));
                    assert(t == s.remove(i as int));
                    assert forall|a: int, b: int| 0 <= a < b < t.len() implies name_lt((#[trigger] t[a]).0, (#[trigger] t[b]).0) by {
                        let sa = if a < i { a } else { a + 1 };
                        let sb = if b < i { b } else { b + 1 };
                        assert(t[a] == s[sa] && t[b] == s[sb]);
                    }
                }
                self.values = vals;
                Some(v)
            },
            None => None,
        }
    }

    pub fn has(&self, key: &str) -> (r: bool)
        ensures
            r == (find_key(self@, key@) >= 0),
    {
        self.position(key).is_some()
    }

    /// All entries, sorted by key.
    pub fn as_map(&self) -> (r: &[(String, Value)])
        ensures
            r@.map_values(|e: (String, Value)| (e.0@, e.1)) == self@,
            keys_sorted(self@),
    {
        proof {
            use_type_invariant(self);
        }
        self.values.as_slice()
    }
}

impl Clone for Settings {
    /// A copy holding the same entries.
    fn clone(&self) -> (r: Self)
        ensures
            r@ == self@,
    {
        proof {
            use_type_invariant(self);
        }
        let mut values: Vec<(String, Value)> = Vec::new();
        let mut i: usize = 0;
        while i < self.values.len()
            invariant
                i <= self.values@.len(),
                values@.map_values(|e: (String, Value)| (e.0@, e.1)) == self@.take(i as int),
            decreases self.values@.len() - i,
        {
            let key = self.values[i].0.clone();
            let value = json_clone(&self.values[i].1);
            let ghost before = values@;
            values.push((key, value));
            proof {
                assert(values@ == before.push((key, value)));
                assert(self@[i as int] == (self.values@[i as int].0@, self.values@[i as int].1));
                assert(self@.take(i + 1) =~= self@.take(i as int).push(self@[i as int]));
                assert(values@.map_values(|e: (String, Value)| (e.0@, e.1)) =~= self@.take(i + 1));
            }
            i = i + 1;
        }
        proof {
            assert(self@.take(self.values@.len() as int) =~= self@);
        }
        Settings { values }
    }
}

} // verus!
