//! Symbol table of a documentation index: entries kept sorted by name, each
//! name at most once (the order and uniqueness of a `BTreeMap`).
use vstd::prelude::*;
use crate::text::{chars_of, chars_of_string, eq_chars, lemma_seq_lt_irrefl, lemma_seq_lt_total,
    lemma_seq_lt_trans, lt_chars, seq_lt};
use super::{lemma_strs_push, strs, SymbolEntry, SymbolV};

verus! {

/// Keys strictly increasing.
pub open spec fn sorted_keys<V>(s: Seq<(Seq<char>, V)>) -> bool {
    forall|i: int, j: int| 0 <= i < j < s.len() ==> seq_lt(#[trigger] s[i].0, #[trigger] s[j].0)
}

/// Inserting `(k, v)` into a sorted sequence: replaces the value of `k` if
/// present, else places the pair before the first greater key.
pub open spec fn sorted_insert<V>(s: Seq<(Seq<char>, V)>, k: Seq<char>, v: V) -> Seq<(Seq<char>, V)>
    decreases s.len(),
{
    if s.len() == 0 {
        seq![(k, v)]
    } else if s[0].0 == k {
        s.update(0, (k, v))
    } else if seq_lt(k, s[0].0) {
        s.insert(0, (k, v))
    } else {
        seq![s[0]] + sorted_insert(s.drop_first(), k, v)
    }
}

/// Value stored under `k`, if any.
pub open spec fn lookup<V>(s: Seq<(Seq<char>, V)>, k: Seq<char>) -> Option<V>
    decreases s.len(),
{
    if s.len() == 0 {
        None
    } else if s[0].0 == k {
        Some(s[0].1)
    } else {
        lookup(s.drop_first(), k)
    }
}

pub proof fn lemma_sorted_insert<V>(s: Seq<(Seq<char>, V)>, k: Seq<char>, v: V, p: int)
    requires
        sorted_keys(s),
        0 <= p <= s.len(),
        forall|i: int| 0 <= i < p ==> seq_lt(#[trigger] s[i].0, k),
        p < s.len() ==> !seq_lt(s[p].0, k),
    ensures
        p < s.len() && s[p].0 == k ==> sorted_insert(s, k, v) == s.update(p, (k, v)),
        !(p < s.len() && s[p].0 == k) ==> sorted_insert(s, k, v) == s.insert(p, (k, v)),
        sorted_keys(sorted_insert(s, k, v)),
    decreases s.len(),
{
    if s.len() == 0 {
        assert(seq![(k, v)] =~= s.insert(0, (k, v)));
    } else if p == 0 {
        if s[0].0 == k {
            let r = s.update(0, (k, v));
            assert forall|i: int, j: int| 0 <= i < j < r.len() implies seq_lt(
                #[trigger] r[i].0,
                #[trigger] r[j].0,
            ) by {
                assert(seq_lt(s[i].0, s[j].0));
            }
        } else {
            lemma_seq_lt_total(k, s[0].0);
            let r = s.insert(0, (k, v));
            assert forall|i: int, j: int| 0 <= i < j < r.len() implies seq_lt(
                #[trigger] r[i].0,
                #[trigger] r[j].0,
            ) by {
                if i == 0 {
                    if j > 1 {
                        assert(seq_lt(s[0].0, s[j - 1].0));
                        lemma_seq_lt_trans(k, s[0].0, s[j - 1].0);
                    }
                } else {
                    assert(seq_lt(s[i - 1].0, s[j - 1].0));
                }
            }
        }
    } else {
        let t = s.drop_first();
        assert(seq_lt(s[0].0, k));
        lemma_seq_lt_irrefl(k);
        lemma_seq_lt_total(s[0].0, k);
        assert(s[0].0 != k);
        assert(!seq_lt(k, s[0].0));
        assert(sorted_keys(t)) by {
            assert forall|i: int, j: int| 0 <= i < j < t.len() implies seq_lt(
                #[trigger] t[i].0,
                #[trigger] t[j].0,
            ) by {
                assert(seq_lt(s[i + 1].0, s[j + 1].0));
            }
        }
        assert forall|i: int| 0 <= i < p - 1 implies seq_lt(#[trigger] t[i].0, k) by {
            assert(seq_lt(s[i + 1].0, k));
        }
        lemma_sorted_insert(t, k, v, p - 1);
        let rt = sorted_insert(t, k, v);
        let r = seq![s[0]] + rt;
        assert(sorted_insert(s, k, v) == r);
        if p < s.len() && s[p].0 == k {
            assert(r =~= s.update(p, (k, v)));
        } else {
            assert(r =~= s.insert(p, (k, v)));
        }
        assert forall|i: int, j: int| 0 <= i < j < r.len() implies seq_lt(
            #[trigger] r[i].0,
            #[trigger] r[j].0,
        ) by {
            if i == 0 {
                // every key after the first is a key of `s` after the first, or `k`
                if p < s.len() && s[p].0 == k {
                    assert(seq_lt(s[0].0, s[j].0));
                } else if j - 1 < p - 1 {
                    assert(r[j] == s[j]);
                    assert(seq_lt(s[0].0, s[j].0));
                } else if j - 1 == p - 1 {
                    assert(r[j].0 == k);
                } else {
                    assert(r[j] == s[j - 1]);
                    assert(seq_lt(s[0].0, s[j - 1].0));
                }
            } else {
                assert(r[i] == rt[i - 1] && r[j] == rt[j - 1]);
            }
        }
    }
}

/// Reading a key after inserting it gives the inserted value; every other
/// key reads as before.
pub proof fn lemma_lookup_after_insert<V>(s: Seq<(Seq<char>, V)>, k: Seq<char>, v: V, k2: Seq<char>)
    ensures
        lookup(sorted_insert(s, k, v), k2) == (if k2 == k {
            Some(v)
        } else {
            lookup(s, k2)
        }),
    decreases s.len(),
{
    let r = sorted_insert(s, k, v);
    if s.len() == 0 {
        assert(r[0] == (k, v));
        assert(r.drop_first() =~= Seq::<(Seq<char>, V)>::empty());
        assert(lookup(r.drop_first(), k2) is None);
    } else if s[0].0 == k {
        assert(r[0] == (k, v));
        assert(r.drop_first() =~= s.drop_first());
    } else if seq_lt(k, s[0].0) {
        assert(r[0] == (k, v));
        assert(r.drop_first() =~= s);
    } else {
        lemma_lookup_after_insert(s.drop_first(), k, v, k2);
        assert(r[0] == s[0]);
        assert(r.drop_first() =~= sorted_insert(s.drop_first(), k, v));
    }
}

pub open spec fn entry_views(v: Seq<(String, SymbolEntry)>) -> Seq<(Seq<char>, SymbolV)> {
    Seq::new(v.len(), |i: int| (v[i].0@, v[i].1@))
}

/// Symbols by name, in name order.
#[derive(Debug)]
pub struct SymbolMap {
    pub entries: Vec<(String, SymbolEntry)>,
}

impl View for SymbolMap {
    type V = Seq<(Seq<char>, SymbolV)>;

    open spec fn view(&self) -> Seq<(Seq<char>, SymbolV)> {
        entry_views(self.entries@)
    }
}

impl SymbolMap {
    /// Names strictly increasing, so each name occurs once.
    pub open spec fn wf(&self) -> bool {
        sorted_keys(self@)
    }

    pub fn new() -> (r: SymbolMap)
        ensures
            r@ == Seq::<(Seq<char>, SymbolV)>::empty(),
            r.wf(),
    {
        let r = SymbolMap { entries: Vec::new() };
        assert(r@ =~= Seq::<(Seq<char>, SymbolV)>::empty());
        r
    }

    pub fn len(&self) -> (r: usize)
        ensures
            r == self@.len(),
    {
        self.entries.len()
    }

    pub fn is_empty(&self) -> (r: bool)
        ensures
            r == (self@.len() == 0),
    {
        self.entries.len() == 0
    }

    /// Adds or replaces the entry for `key`.
    pub fn insert(&mut self, key: String, value: SymbolEntry)
        requires
            old(self).wf(),
        ensures
            final(self).wf(),
            final(self)@ == sorted_insert(old(self)@, key@, value@),
    {
        let kc = chars_of_string(&key);
        let n = self.entries.len();
        let mut p: usize = 0;
        while p < n && lt_chars(chars_of_string(&self.entries[p].0).as_slice(), kc.as_slice())
            invariant
                p <= n == self.entries@.len(),
                kc@ == key@,
                forall|i: int| 0 <= i < p ==> seq_lt(#[trigger] self@[i].0, key@),
            decreases n - p,
        {
            p += 1;
        }
        proof {
            lemma_sorted_insert(self@, key@, value@, p as int);
        }
        let ghost old_entries = self.entries@;
        let ghost pair = (key@, value@);
        if p < n && eq_chars(chars_of_string(&self.entries[p].0).as_slice(), kc.as_slice()) {
            self.entries.set(p, (key, value));
            assert(self@ =~= entry_views(old_entries).update(p as int, pair));
        } else {
            self.entries.insert(p, (key, value));
            assert(self@ =~= entry_views(old_entries).insert(p as int, pair));
        }
    }

    /// The entry stored under `key`, if any.
    pub fn get(&self, key: &str) -> (r: Option<&SymbolEntry>)
        ensures
            match r {
                Some(e) => lookup(self@, key@) == Some(e@),
                None => lookup(self@, key@) is None,
            },
    {
        let kc = chars_of(key);
        let n = self.entries.len();
        let mut i: usize = 0;
        assert(self@.subrange(0, n as int) =~= self@);
        while i < n
            invariant
                i <= n == self.entries@.len(),
                kc@ == key@,
                lookup(self@, key@) == lookup(self@.subrange(i as int, n as int), key@),
            decreases n - i,
        {
            let ghost rest = self@.subrange(i as int, n as int);
            assert(rest.drop_first() =~= self@.subrange(i + 1, n as int));
            if eq_chars(chars_of_string(&self.entries[i].0).as_slice(), kc.as_slice()) {
                return Some(&self.entries[i].1);
            }
            i += 1;
        }
        None
    }

    pub fn contains_key(&self, key: &str) -> (r: bool)
        ensures
            r == (lookup(self@, key@) is Some),
    {
        self.get(key).is_some()
    }

    /// The names, in order.
    pub fn keys(&self) -> (r: Vec<String>)
        ensures
            strs(r@) == Seq::new(self@.len(), |i: int| self@[i].0),
    {
        let n = self.entries.len();
        let mut out: Vec<String> = Vec::new();
        let mut i: usize = 0;
        while i < n
            invariant
                i <= n == self.entries@.len(),
                strs(out@) == Seq::new(i as nat, |j: int| self@[j].0),
            decreases n - i,
        {
            let k = self.entries[i].0.clone();
            assert(k@ == self@[i as int].0);
            let ghost o = out@;
            let ghost kv = k;
            out.push(k);
            proof {
                lemma_strs_push(o, kv);
            }
            i += 1;
            assert(strs(out@) =~= Seq::new(i as nat, |j: int| self@[j].0));
        }
        out
    }
}

} // verus!
