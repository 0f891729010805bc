use vstd::prelude::*;
use vstd::string::*;
use crate::text::{lex_lt, str_lt, str_eq, lemma_lex_lt_total, lemma_lex_lt_trans,
    lemma_lex_lt_irrefl};
use crate::json::{json_map_of, json_text_of, map_of_pairs, pairs_view, parse_json_pairs,
    pairs_to_json};
use crate::norm::{lower_of, normal_key, normalize, lowercase};

verus! {

/// A single alias entry: an alias name bound to a numeric game id.
pub struct AliasEntry {
    pub name: String,
    pub id: u32,
}

/// The alias mapping of one command invocation, held as a vector of
/// entries kept strictly sorted by name, so that listing is already in
/// lexicographic order and names are unique.
pub struct AliasStore {
    entries: Vec<AliasEntry>,
}

/// Whether every pair of positions in a pair sequence holds distinct keys.
pub open spec fn distinct_keys(s: Seq<(Seq<char>, u32)>) -> bool {
    forall|i: int, j: int| 0 <= i < j < s.len() ==> (#[trigger] s[i]).0 != (#[trigger] s[j]).0
}

/// In a pair sequence with distinct keys, the denoted mapping holds
/// exactly the pairs of the sequence.
pub proof fn lemma_map_of_pairs_distinct(s: Seq<(Seq<char>, u32)>)
    requires
        distinct_keys(s),
    ensures
        forall|i: int| 0 <= i < s.len() ==> map_of_pairs(s).contains_key((#[trigger] s[i]).0)
            && map_of_pairs(s)[s[i].0] == s[i].1,
        forall|k: Seq<char>| #[trigger] map_of_pairs(s).contains_key(k) ==> exists|i: int|
            0 <= i < s.len() && (#[trigger] s[i]).0 == k,
    decreases s.len(),
{
    if s.len() > 0 {
        let t = s.drop_last();
        lemma_map_of_pairs_distinct(t);
        assert forall|i: int| 0 <= i < s.len() implies map_of_pairs(s).contains_key(
            (#[trigger] s[i]).0,
        ) && map_of_pairs(s)[s[i].0] == s[i].1 by {
            if i < s.len() - 1 {
                assert(t[i] == s[i]);
                assert(s[i].0 != s.last().0);
            }
        }
        assert forall|k: Seq<char>| #[trigger] map_of_pairs(s).contains_key(k) implies exists|
            i: int,
        | 0 <= i < s.len() && (#[trigger] s[i]).0 == k by {
            if k == s.last().0 {
                assert(0 <= s.len() - 1 < s.len() && s[s.len() - 1].0 == k);
            } else {
                assert(map_of_pairs(t).contains_key(k));
                let i = choose|i: int| 0 <= i < t.len() && (#[trigger] t[i]).0 == k;
                assert(s[i].0 == k);
            }
        }
    }
}

/// Inserting a pair with a fresh key anywhere in a distinct-key pair
/// sequence inserts it into the denoted mapping.
pub proof fn lemma_map_of_pairs_insert_at(s: Seq<(Seq<char>, u32)>, i: int, k: Seq<char>, v: u32)
    requires
        0 <= i <= s.len(),
        distinct_keys(s),
        forall|j: int| 0 <= j < s.len() ==> (#[trigger] s[j]).0 != k,
    ensures
        map_of_pairs(s.insert(i, (k, v))) == map_of_pairs(s).insert(k, v),
        distinct_keys(s.insert(i, (k, v))),
    decreases s.len(),
{
    let s2 = s.insert(i, (k, v));
    assert forall|a: int, b: int| 0 <= a < b < s2.len() implies (#[trigger] s2[a]).0 != (
    #[trigger] s2[b]).0 by {
        let oa = if a < i { a } else { a - 1 };
        let ob = if b < i { b } else { b - 1 };
        if a != i && b != i {
            assert(s2[a] == s[oa] && s2[b] == s[ob]);
        }
    }
    lemma_map_of_pairs_distinct(s);
    lemma_map_of_pairs_distinct(s2);
    let m1 = map_of_pairs(s2);
    let m2 = map_of_pairs(s).insert(k, v);
    assert forall|key: Seq<char>| m1.contains_key(key) <==> m2.contains_key(key) by {
        if m1.contains_key(key) {
            let a = choose|a: int| 0 <= a < s2.len() && (#[trigger] s2[a]).0 == key;
            if a == i {
            } else {
                let oa = if a < i { a } else { a - 1 };
                assert(s2[a] == s[oa]);
            }
        }
        if m2.contains_key(key) {
            if key == k {
                assert(s2[i].0 == key);
            } else {
                assert(map_of_pairs(s).contains_key(key));
                let oa = choose|oa: int| 0 <= oa < s.len() && (#[trigger] s[oa]).0 == key;
                let a = if oa < i { oa } else { oa + 1 };
                assert(s2[a] == s[oa]);
                assert(s2[a].0 == key);
            }
        }
    }
    assert forall|key: Seq<char>| m1.contains_key(key) && m2.contains_key(key) implies m1[key]
        == m2[key] by {
        let a = choose|a: int| 0 <= a < s2.len() && (#[trigger] s2[a]).0 == key;
        if a == i {
            assert(m1[key] == v);
        } else {
            let oa = if a < i { a } else { a - 1 };
            assert(s2[a] == s[oa]);
            assert(m1[key] == s[oa].1);
            assert(key != k);
            assert(m2[key] == map_of_pairs(s)[key]);
        }
    }
    assert(m1 =~= m2);
}

/// Replacing the value at one position of a distinct-key pair sequence
/// re-inserts that key into the denoted mapping.
pub proof fn lemma_map_of_pairs_update_at(s: Seq<(Seq<char>, u32)>, i: int, v: u32)
    requires
        0 <= i < s.len(),
        distinct_keys(s),
    ensures
        map_of_pairs(s.update(i, (s[i].0, v))) == map_of_pairs(s).insert(s[i].0, v),
        distinct_keys(s.update(i, (s[i].0, v))),
{
    let k = s[i].0;
    let s2 = s.update(i, (k, v));
    assert forall|a: int, b: int| 0 <= a < b < s2.len() implies (#[trigger] s2[a]).0 != (
    #[trigger] s2[b]).0 by {
        assert(s2[a].0 == s[a].0 && s2[b].0 == s[b].0);
    }
    lemma_map_of_pairs_distinct(s);
    lemma_map_of_pairs_distinct(s2);
    let m1 = map_of_pairs(s2);
    let m2 = map_of_pairs(s).insert(k, v);
    assert forall|key: Seq<char>| m1.contains_key(key) <==> m2.contains_key(key) by {
        if m1.contains_key(key) {
            let a = choose|a: int| 0 <= a < s2.len() && (#[trigger] s2[a]).0 == key;
            assert(s[a].0 == key);
        }
        if m2.contains_key(key) {
            if key == k {
                assert(s2[i].0 == key);
            } else {
                assert(map_of_pairs(s).contains_key(key));
                let a = choose|a: int| 0 <= a < s.len() && (#[trigger] s[a]).0 == key;
                assert(s2[a].0 == key);
            }
        }
    }
    assert forall|key: Seq<char>| m1.contains_key(key) && m2.contains_key(key) implies m1[key]
        == m2[key] by {
        let a = choose|a: int| 0 <= a < s2.len() && (#[trigger] s2[a]).0 == key;
        if a == i {
            assert(m1[key] == v);
        } else {
            assert(s2[a] == s[a]);
            assert(m1[key] == s[a].1);
            assert(key != k);
            assert(m2[key] == map_of_pairs(s)[key]);
        }
    }
    assert(m1 =~= m2);
}

/// Removing one position of a distinct-key pair sequence removes that
/// key from the denoted mapping.
pub proof fn lemma_map_of_pairs_remove_at(s: Seq<(Seq<char>, u32)>, i: int)
    requires
        0 <= i < s.len(),
        distinct_keys(s),
    ensures
        map_of_pairs(s.remove(i)) == map_of_pairs(s).remove(s[i].0),
        distinct_keys(s.remove(i)),
{
    let k = s[i].0;
    let s2 = s.remove(i);
    assert forall|a: int, b: int| 0 <= a < b < s2.len() implies (#[trigger] s2[a]).0 != (
    #[trigger] s2[b]).0 by {
        let oa = if a < i { a } else { a + 1 };
        let ob = if b < i { b } else { b + 1 };
        assert(s2[a] == s[oa] && s2[b] == s[ob]);
    }
    lemma_map_of_pairs_distinct(s);
    lemma_map_of_pairs_distinct(s2);
    let m1 = map_of_pairs(s2);
    let m2 = map_of_pairs(s).remove(k);
    assert forall|key: Seq<char>| m1.contains_key(key) <==> m2.contains_key(key) by {
        if m1.contains_key(key) {
            let a = choose|a: int| 0 <= a < s2.len() && (#[trigger] s2[a]).0 == key;
            let oa = if a < i { a } else { a + 1 };
            assert(s2[a] == s[oa]);
            assert(key != k);
        }
        if m2.contains_key(key) {
            assert(map_of_pairs(s).contains_key(key) && key != k);
            let oa = choose|oa: int| 0 <= oa < s.len() && (#[trigger] s[oa]).0 == key;
            assert(oa != i);
            let a = if oa < i { oa } else { oa - 1 };
            assert(s2[a] == s[oa]);
            assert(s2[a].0 == key);
        }
    }
    assert forall|key: Seq<char>| m1.contains_key(key) && m2.contains_key(key) implies m1[key]
        == m2[key] by {
        let a = choose|a: int| 0 <= a < s2.len() && (#[trigger] s2[a]).0 == key;
        let oa = if a < i { a } else { a + 1 };
        assert(s2[a] == s[oa]);
        assert(m1[key] == s[oa].1);
        assert(key != k);
        assert(m2[key] == map_of_pairs(s)[key]);
    }
    assert(m1 =~= m2);
}

/// A distinct-key pair sequence denotes a mapping of exactly its own
/// length.
pub proof fn lemma_map_of_pairs_dom_size(s: Seq<(Seq<char>, u32)>)
    requires
        distinct_keys(s),
    ensures
        map_of_pairs(s).dom().finite(),
        map_of_pairs(s).dom().len() == s.len(),
    decreases s.len(),
{
    if s.len() == 0 {
        assert(map_of_pairs(s).dom() =~= Set::<Seq<char>>::empty());
    } else {
        let t = s.drop_last();
        lemma_map_of_pairs_dom_size(t);
        assert(map_of_pairs(s).dom() =~= map_of_pairs(t).dom().insert(s.last().0));
        if map_of_pairs(t).contains_key(s.last().0) {
            lemma_map_of_pairs_distinct(t);
            let i = choose|i: int| 0 <= i < t.len() && (#[trigger] t[i]).0 == s.last().0;
            assert(s[i].0 == s.last().0);
            assert(false);
        }
    }
}

impl View for AliasStore {
    type V = Map<Seq<char>, u32>;

    open spec fn view(&self) -> Map<Seq<char>, u32> {
        map_of_pairs(self.entry_seq())
    }
}

impl AliasStore {
    /// The entries as a sequence of (name, id) pairs, in storage order.
    pub closed spec fn entry_seq(self) -> Seq<(Seq<char>, u32)> {
        self.entries@.map_values(|e: AliasEntry| (e.name@, e.id))
    }

    /// Entries are strictly sorted by name in lexicographic order.
    pub open spec fn wf(self) -> bool {
        forall|i: int, j: int| 0 <= i < j < self.entry_seq().len() ==> lex_lt(
            (#[trigger] self.entry_seq()[i]).0,
            (#[trigger] self.entry_seq()[j]).0,
        )
    }

    pub proof fn lemma_wf_distinct(self)
        requires
            self.wf(),
        ensures
            distinct_keys(self.entry_seq()),
    {
        let s = self.entry_seq();
        assert forall|i: int, j: int| 0 <= i < j < s.len() implies (#[trigger] s[i]).0 != (
        #[trigger] s[j]).0 by {
            lemma_lex_lt_irrefl(s[i].0);
        }
    }

    /// The entry count a well-formed store reports is the size of the
    /// mapping it denotes.
    pub proof fn lemma_count_is_map_size(self)
        requires
            self.wf(),
        ensures
            self@.dom().finite(),
            self@.dom().len() == self.entry_seq().len(),
    {
        self.lemma_wf_distinct();
        lemma_map_of_pairs_dom_size(self.entry_seq());
    }

    /// An empty store.
    pub fn new() -> (r: AliasStore)
        ensures
            r.wf(),
            r@ == Map::<Seq<char>, u32>::empty(),
            r.entry_seq().len() == 0,
    {
        let r = AliasStore { entries: Vec::new() };
        proof {
            assert(r.entry_seq() =~= Seq::<(Seq<char>, u32)>::empty());
        }
        r
    }

    /// How many aliases the store holds.
    pub fn count(&self) -> (r: usize)
        ensures
            r == self.entry_seq().len(),
    {
        self.entries.len()
    }

    /// Looks an exact key up, without normalization.
    pub fn get_exact(&self, key: &str) -> (r: Option<u32>)
        requires
            self.wf(),
        ensures
            r == (if self@.contains_key(key@) {
                Some(self@[key@])
            } else {
                None::<u32>
            }),
    {
        proof {
            self.lemma_wf_distinct();
            lemma_map_of_pairs_distinct(self.entry_seq());
        }
        let n = self.entries.len();
        let mut i: usize = 0;
        while i < n
            invariant
                self.wf(),
                distinct_keys(self.entry_seq()),
                n == self.entry_seq().len(),
                i <= n,
                forall|j: int| 0 <= j < i ==> (#[trigger] self.entry_seq()[j]).0 != key@,
            decreases n - i,
        {
            if str_eq(self.entries[i].name.as_str(), key) {
                proof {
                    lemma_map_of_pairs_distinct(self.entry_seq());
                    assert(self.entry_seq()[i as int].0 == key@);
                }
                return Some(self.entries[i].id);
            }
            proof {
                assert(self.entry_seq()[i as int].0 == self.entries@[i as int].name@);
            }
            i = i + 1;
        }
        proof {
            if self@.contains_key(key@) {
                lemma_map_of_pairs_distinct(self.entry_seq());
                let j = choose|j: int|
                    0 <= j < self.entry_seq().len() && (#[trigger] self.entry_seq()[j]).0 == key@;
                assert(false);
            }
        }
        None
    }

    /// Inserts or overwrites the entry for an exact key, keeping the
    /// entries sorted by name.
    fn insert_entry(&mut self, name: String, id: u32)
        requires
            old(self).wf(),
        ensures
            final(self).wf(),
            final(self)@ == old(self)@.insert(name@, id),
    {
        proof {
            old(self).lemma_wf_distinct();
        }
        let n = self.entries.len();
        let mut i: usize = 0;
        while i < n && str_lt(self.entries[i].name.as_str(), name.as_str())
            invariant
                *self == *old(self),
                old(self).wf(),
                n == self.entry_seq().len(),
                i <= n,
                forall|j: int| 0 <= j < i ==> lex_lt((#[trigger] self.entry_seq()[j]).0, name@),
            decreases n - i,
        {
            proof {
                assert(self.entry_seq()[i as int].0 == self.entries@[i as int].name@);
            }
            i = i + 1;
        }
        let ghost s = self.entry_seq();
        proof {
            assert(i < n ==> s[i as int].0 == self.entries@[i as int].name@);
        }
        if i < n && str_eq(self.entries[i].name.as_str(), name.as_str()) {
            let e = AliasEntry { name, id };
            self.entries.remove(i);
            self.entries.insert(i, e);
            proof {
                let s2 = s.update(i as int, (s[i as int].0, id));
                assert(self.entry_seq() =~= s2);
                lemma_map_of_pairs_update_at(s, i as int, id);
                assert forall|a: int, b: int| 0 <= a < b < s2.len() implies lex_lt(
                    (#[trigger] s2[a]).0,
                    (#[trigger] s2[b]).0,
                ) by {
                    assert(s2[a].0 == s[a].0 && s2[b].0 == s[b].0);
                }
            }
        } else {
            // The key is not present: everything before position i is
            // strictly below it, everything from i on strictly above.
            proof {
                if i < n && s[i as int].0 != name@ {
                    lemma_lex_lt_total(s[i as int].0, name@);
                }
                assert forall|j: int| 0 <= j < s.len() implies (#[trigger] s[j]).0 != name@ by {
                    if j < i {
                        if s[j].0 == name@ {
                            lemma_lex_lt_irrefl(name@);
                        }
                    } else if j > i {
                        if s[j].0 == name@ {
                            lemma_lex_lt_trans(name@, s[i as int].0, s[j].0);
                            lemma_lex_lt_irrefl(name@);
                        }
                    }
                }
            }
            let e = AliasEntry { name, id };
            self.entries.insert(i, e);
            proof {
                let s2 = s.insert(i as int, (e.name@, id));
                assert(self.entry_seq() =~= s2);
                lemma_map_of_pairs_insert_at(s, i as int, e.name@, id);
                assert forall|a: int, b: int| 0 <= a < b < s2.len() implies lex_lt(
                    (#[trigger] s2[a]).0,
                    (#[trigger] s2[b]).0,
                ) by {
                    if b < i {
                        assert(s2[a] == s[a] && s2[b] == s[b]);
                    } else if b == i {
                        assert(s2[a] == s[a]);
                    } else if a < i {
                        assert(s2[a] == s[a] && s2[b] == s[b - 1]);
                    } else if a == i {
                        assert(s2[b] == s[b - 1]);
                        if i < b - 1 {
                            lemma_lex_lt_trans(e.name@, s[i as int].0, s[b - 1].0);
                        }
                    } else {
                        assert(s2[a] == s[a - 1] && s2[b] == s[b - 1]);
                    }
                }
            }
        }
    }

    /// Creates or updates an alias after normalizing it; refuses an
    /// alias whose normalized form is empty, leaving the store as it
    /// was. Returns whether the mapping was changed.
    pub fn set_alias(&mut self, alias: &str, id: u32) -> (r: bool)
        requires
            old(self).wf(),
        ensures
            final(self).wf(),
            r == (normal_key(alias@).len() > 0),
            r ==> final(self)@ == old(self)@.insert(normal_key(alias@), id),
            !r ==> *final(self) == *old(self),
    {
        let key = normalize(alias);
        if key.as_str().unicode_len() == 0 {
            return false;
        }
        self.insert_entry(key, id);
        true
    }

    /// Removes an exact key, without normalization; reports whether it
    /// was present.
    pub fn remove_exact(&mut self, key: &str) -> (r: bool)
        requires
            old(self).wf(),
        ensures
            final(self).wf(),
            r == old(self)@.contains_key(key@),
            final(self)@ == old(self)@.remove(key@),
    {
        proof {
            old(self).lemma_wf_distinct();
            lemma_map_of_pairs_distinct(old(self).entry_seq());
        }
        let n = self.entries.len();
        let mut i: usize = 0;
        while i < n
            invariant
                *self == *old(self),
                old(self).wf(),
                distinct_keys(self.entry_seq()),
                n == self.entry_seq().len(),
                i <= n,
                forall|j: int| 0 <= j < i ==> (#[trigger] self.entry_seq()[j]).0 != key@,
            decreases n - i,
        {
            if str_eq(self.entries[i].name.as_str(), key) {
                let ghost s = self.entry_seq();
                proof {
                    assert(s[i as int].0 == key@);
                }
                self.entries.remove(i);
                proof {
                    let s2 = s.remove(i as int);
                    assert(self.entry_seq() =~= s2);
                    lemma_map_of_pairs_remove_at(s, i as int);
                    lemma_map_of_pairs_distinct(s);
                    assert forall|a: int, b: int| 0 <= a < b < s2.len() implies lex_lt(
                        (#[trigger] s2[a]).0,
                        (#[trigger] s2[b]).0,
                    ) by {
                        let oa = if a < i { a } else { a + 1 };
                        let ob = if b < i { b } else { b + 1 };
                        assert(s2[a] == s[oa] && s2[b] == s[ob]);
                    }
                }
                return true;
            }
            proof {
                assert(self.entry_seq()[i as int].0 == self.entries@[i as int].name@);
            }
            i = i + 1;
        }
        proof {
            if old(self)@.contains_key(key@) {
                let j = choose|j: int|
                    0 <= j < old(self).entry_seq().len() && (#[trigger] old(
                        self,
                    ).entry_seq()[j]).0 == key@;
                assert(false);
            }
            assert(old(self)@.remove(key@) =~= old(self)@);
        }
        false
    }

    /// Looks an alias up the way the play command does: the input is
    /// lower-cased, then the mapping is consulted.
    pub fn lookup(&self, game: &str) -> (r: Option<u32>)
        requires
            self.wf(),
        ensures
            r == (if self@.contains_key(lower_of(game@)) {
                Some(self@[lower_of(game@)])
            } else {
                None::<u32>
            }),
    {
        let k = lowercase(game);
        self.get_exact(k.as_str())
    }

    /// Loads a store from the backing file's text. Content that does
    /// not parse as an alias mapping yields an empty store, so that a
    /// corrupted file never blocks future writes.
    pub fn load_from_text(text: &str) -> (r: AliasStore)
        ensures
            r.wf(),
            r@ == match json_map_of(text@) {
                Some(m) => m,
                None => Map::<Seq<char>, u32>::empty(),
            },
    {
        let mut store = AliasStore::new();
        match parse_json_pairs(text) {
            None => store,
            Some(pairs) => {
                let n = pairs.len();
                let mut i: usize = 0;
                while i < n
                    invariant
                        n == pairs@.len(),
                        i <= n,
                        store.wf(),
                        store@ == map_of_pairs(pairs_view(pairs@).take(i as int)),
                    decreases n - i,
                {
                    let name = pairs[i].0.clone();
                    let id = pairs[i].1;
                    store.insert_entry(name, id);
                    proof {
                        let pv = pairs_view(pairs@);
                        assert(pv.take(i + 1).drop_last() =~= pv.take(i as int));
                        assert(pv.take(i + 1).last() == pv[i as int]);
                    }
                    i = i + 1;
                }
                proof {
                    assert(pairs_view(pairs@).take(n as int) =~= pairs_view(pairs@));
                }
                store
            },
        }
    }

    /// Serializes the store for the backing file. `None` would report
    /// the serializer's failure, which the caller surfaces as a
    /// warning rather than an abort; for this store's shape the
    /// serializer succeeds.
    pub fn to_json_text(&self) -> (r: Option<String>)
        requires
            self.wf(),
        ensures
            r is Some,
            (r matches Some(t) ==> t@ == json_text_of(self@)),
    {
        let mut pairs: Vec<(String, u32)> = Vec::new();
        let n = self.entries.len();
        let mut i: usize = 0;
        while i < n
            invariant
                n == self.entry_seq().len(),
                i <= n,
                pairs_view(pairs@) == self.entry_seq().take(i as int),
            decreases n - i,
        {
            let nm = self.entries[i].name.clone();
            let idv = self.entries[i].id;
            let ghost prev = pairs@;
            let ghost x = (nm, idv);
            pairs.push((nm, idv));
            proof {
                assert(pairs@ == prev.push(x));
                assert(pairs_view(prev).len() == prev.len());
                assert(self.entry_seq().take(i as int).len() == i);
                assert(prev.len() == i);
                assert(prev.push(x).len() == prev.len() + 1);
                assert forall|j: int| 0 <= j < i + 1 implies pairs_view(pairs@)[j]
                    == self.entry_seq().take(i + 1)[j] by {
                    if j < i {
                        assert(prev.push(x)[j] == prev[j]);
                        assert(pairs_view(prev)[j] == self.entry_seq().take(i as int)[j]);
                    } else {
                        assert(prev.push(x)[j] == x);
                        assert(x.0 == self.entries@[i as int].name);
                    }
                }
                assert(pairs_view(pairs@) =~= self.entry_seq().take(i + 1));
            }
            i = i + 1;
        }
        proof {
            assert(self.entry_seq().take(n as int) =~= self.entry_seq());
        }
        pairs_to_json(&pairs)
    }

    /// The name stored at one position, in sorted order.
    pub fn entry_name_at(&self, i: usize) -> (r: &String)
        requires
            i < self.entry_seq().len(),
        ensures
            r@ == self.entry_seq()[i as int].0,
    {
        &self.entries[i].name
    }

    /// The id stored at one position, in sorted order.
    pub fn entry_id_at(&self, i: usize) -> (r: u32)
        requires
            i < self.entry_seq().len(),
        ensures
            r == self.entry_seq()[i as int].1,
    {
        self.entries[i].id
    }

    /// Whether an exact key is present, without normalization.
    pub fn contains_exact(&self, key: &str) -> (r: bool)
        requires
            self.wf(),
        ensures
            r == self@.contains_key(key@),
    {
        match self.get_exact(key) {
            Some(_) => true,
            None => false,
        }
    }
}

} // verus!
