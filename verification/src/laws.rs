use vstd::prelude::*;
use crate::commands::{found_keys, missing_keys, remove_seq};
use crate::norm::{lower_of, normal_key};
use crate::store::AliasStore;
use crate::text::lex_lt;

verus! {

/// The result a lookup yields on a mapping: the id bound to the key,
/// if any.
pub open spec fn spec_lookup(m: Map<Seq<char>, u32>, key: Seq<char>) -> Option<u32> {
    if m.contains_key(key) {
        Some(m[key])
    } else {
        None
    }
}

/// Round-trip: setting an alias binds the key `normal_key(alias)`, and
/// a lookup consults `lower_of(probe)`; so after a successful set,
/// looking up any spelling whose lower-cased form is the stored key
/// yields the id that was set.
pub proof fn lemma_set_then_lookup(
    m: Map<Seq<char>, u32>,
    alias: Seq<char>,
    probe: Seq<char>,
    id: u32,
)
    ensures
        (lower_of(probe) == normal_key(alias) && normal_key(alias).len() > 0) ==> spec_lookup(
            m.insert(normal_key(alias), id),
            lower_of(probe),
        ) == Some(id),
{
}

/// Idempotence: setting the same alias to the same id twice leaves the
/// mapping exactly as setting it once does.
pub proof fn lemma_set_idempotent(m: Map<Seq<char>, u32>, key: Seq<char>, id: u32)
    ensures
        m.insert(key, id).insert(key, id) == m.insert(key, id),
{
    assert(m.insert(key, id).insert(key, id) =~= m.insert(key, id));
}

/// A well-formed store holds at most one entry per name, so a
/// twice-set alias occupies a single entry.
pub proof fn lemma_store_names_unique(s: AliasStore, i: int, j: int)
    requires
        s.wf(),
        0 <= i < j < s.entry_seq().len(),
    ensures
        s.entry_seq()[i].0 != s.entry_seq()[j].0,
{
    s.lemma_wf_distinct();
}

/// A well-formed store keeps its entries strictly sorted by name, so a
/// listing comes out in lexicographic order whatever order the aliases
/// were set in.
pub proof fn lemma_store_sorted(s: AliasStore, i: int, j: int)
    requires
        s.wf(),
        0 <= i < j < s.entry_seq().len(),
    ensures
        lex_lt(s.entry_seq()[i].0, s.entry_seq()[j].0),
{
}

proof fn lemma_push_contains(s: Seq<Seq<char>>, x: Seq<char>, y: Seq<char>)
    ensures
        s.push(x).contains(y) <==> (s.contains(y) || x == y),
{
    if s.push(x).contains(y) {
        let i = choose|i: int| 0 <= i < s.push(x).len() && s.push(x)[i] == y;
        if i < s.len() {
            assert(s[i] == y);
        }
    }
    if s.contains(y) {
        let i = choose|i: int| 0 <= i < s.len() && s[i] == y;
        assert(s.push(x)[i] == y);
    }
    if x == y {
        assert(s.push(x)[s.len() as int] == y);
    }
}

/// Every requested name lands in the found list or the missing list,
/// according to whether the mapping holds it.
pub proof fn lemma_partition_contains(m: Map<Seq<char>, u32>, names: Seq<Seq<char>>, k: Seq<char>)
    ensures
        found_keys(m, names).contains(k) <==> (names.contains(k) && m.contains_key(k)),
        missing_keys(m, names).contains(k) <==> (names.contains(k) && !m.contains_key(k)),
    decreases names.len(),
{
    if names.len() == 0 {
    } else {
        let t = names.drop_last();
        let x = names.last();
        lemma_partition_contains(m, t, k);
        assert(names =~= t.push(x));
        lemma_push_contains(t, x, k);
        if m.contains_key(x) {
            lemma_push_contains(found_keys(m, t), x, k);
        } else {
            lemma_push_contains(missing_keys(m, t), x, k);
        }
    }
}

proof fn lemma_remove_seq_contains(m: Map<Seq<char>, u32>, ks: Seq<Seq<char>>, k: Seq<char>)
    ensures
        remove_seq(m, ks).contains_key(k) <==> (m.contains_key(k) && !ks.contains(k)),
        remove_seq(m, ks).contains_key(k) ==> remove_seq(m, ks)[k] == m[k],
    decreases ks.len(),
{
    if ks.len() > 0 {
        let t = ks.drop_last();
        let x = ks.last();
        lemma_remove_seq_contains(m, t, k);
        assert(ks =~= t.push(x));
        lemma_push_contains(t, x, k);
    }
}

/// Removal partitioning: removing the found keys deletes exactly the
/// requested names that were present and leaves every other binding
/// untouched, with its id unchanged.
pub proof fn lemma_remove_partition(m: Map<Seq<char>, u32>, names: Seq<Seq<char>>, k: Seq<char>)
    ensures
        remove_seq(m, found_keys(m, names)).contains_key(k) <==> (m.contains_key(k)
            && !names.contains(k)),
        remove_seq(m, found_keys(m, names)).contains_key(k) ==> remove_seq(
            m,
            found_keys(m, names),
        )[k] == m[k],
{
    lemma_partition_contains(m, names, k);
    lemma_remove_seq_contains(m, found_keys(m, names), k);
}

} // verus!
