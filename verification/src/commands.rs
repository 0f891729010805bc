use vstd::prelude::*;
use vstd::string::*;
use crate::norm::{lower_of, normal_key, normalize, lowercase};
use crate::store::AliasStore;
use crate::text::{dec_of, parses_to_u32, parse_u32, u64_to_string, views_of, lemma_views_of_push};

verus! {

/// What a mutating command asks of its caller: whether to rewrite the
/// backing file, and the confirmation to print once that succeeds.
pub struct CommandOutcome {
    pub persist: bool,
    pub message: String,
}

/// What the play command decided: the id to launch, if any, and the
/// message to print.
pub struct PlayOutcome {
    pub launch: Option<u32>,
    pub message: String,
}

pub open spec fn set_ok_message(key: Seq<char>, id: u32, count: nat) -> Seq<char> {
    "Alias '"@ + key + "' successfully set to "@ + dec_of(id as nat) + "; total aliases = "@
        + dec_of(count)
}

pub open spec fn empty_alias_message() -> Seq<char> {
    "Alias must not be empty"@
}

pub open spec fn play_id_ok_message(id: u32) -> Seq<char> {
    "Starting application with ID '"@ + dec_of(id as nat) + "'"@
}

pub open spec fn play_id_err_message() -> Seq<char> {
    "Steam ID must be a number"@
}

pub open spec fn play_alias_ok_message(key: Seq<char>, id: u32) -> Seq<char> {
    "Starting "@ + key + " ("@ + dec_of(id as nat) + ")"@
}

pub open spec fn play_alias_err_message(key: Seq<char>) -> Seq<char> {
    "Could not find alias '"@ + key + "'"@
}

pub open spec fn not_found_message(alias: Seq<char>) -> Seq<char> {
    "Alias '"@ + alias + "' not found"@
}

pub open spec fn removed_message(list: Seq<Seq<char>>, count: nat) -> Seq<char> {
    "Aliases '"@ + join_commas(list) + "' successfully removed; total aliases = "@ + dec_of(count)
}

pub open spec fn nothing_removed_message(count: nat) -> Seq<char> {
    "Nothing to be removed; total aliases = "@ + dec_of(count)
}

pub open spec fn write_error_message_spec() -> Seq<char> {
    "Error while writing to steamlet.json"@
}

/// The items joined with a comma and a space, in order.
pub open spec fn join_commas(s: Seq<Seq<char>>) -> Seq<char>
    decreases s.len(),
{
    if s.len() == 0 {
        Seq::empty()
    } else if s.len() == 1 {
        s[0]
    } else {
        join_commas(s.drop_last()) + ", "@ + s.last()
    }
}

/// The warning printed when the backing file cannot be rewritten.
pub fn write_error_message() -> (r: String)
    ensures
        r@ == write_error_message_spec(),
{
    String::from_str("Error while writing to steamlet.json")
}

/// The fixed name of the backing file.
pub fn data_file_name() -> (r: &'static str)
    ensures
        r@ == "steamlet.json"@,
{
    "steamlet.json"
}

fn u32_string(n: u32) -> (r: String)
    ensures
        r@ == dec_of(n as nat),
{
    u64_to_string(n as u64)
}

fn count_string(n: usize) -> (r: String)
    ensures
        r@ == dec_of(n as nat),
{
    u64_to_string(n as u64)
}

/// Decides the play command with the `-i`/`--id` flag: the input is
/// the numeric id itself.
pub fn play_by_id(game_str: &str) -> (r: PlayOutcome)
    ensures
        (match parses_to_u32(game_str@) {
            Some(id) => r.launch == Some(id) && r.message@ == play_id_ok_message(id),
            None => r.launch is None && r.message@ == play_id_err_message(),
        }),
{
    match parse_u32(game_str) {
        Some(id) => {
            let mut m = String::from_str("Starting application with ID '");
            let ids = u32_string(id);
            m.append(ids.as_str());
            m.append("'");
            proof {
                assert(m@ =~= play_id_ok_message(id));
            }
            PlayOutcome { launch: Some(id), message: m }
        },
        None => PlayOutcome { launch: None, message: String::from_str("Steam ID must be a number") },
    }
}

/// Decides the play command without the flag: the input is an alias,
/// matched after lower-casing.
pub fn play_by_alias(store: &AliasStore, game_str: &str) -> (r: PlayOutcome)
    requires
        store.wf(),
    ensures
        ({
            let k = lower_of(game_str@);
            if store@.contains_key(k) {
                r.launch == Some(store@[k]) && r.message@ == play_alias_ok_message(k, store@[k])
            } else {
                r.launch is None && r.message@ == play_alias_err_message(k)
            }
        }),
{
    let game = lowercase(game_str);
    match store.get_exact(game.as_str()) {
        Some(id) => {
            let mut m = String::from_str("Starting ");
            m.append(game.as_str());
            m.append(" (");
            let ids = u32_string(id);
            m.append(ids.as_str());
            m.append(")");
            proof {
                assert(m@ =~= play_alias_ok_message(lower_of(game_str@), id));
            }
            PlayOutcome { launch: Some(id), message: m }
        },
        None => {
            let mut m = String::from_str("Could not find alias '");
            m.append(game.as_str());
            m.append("'");
            proof {
                assert(m@ =~= play_alias_err_message(lower_of(game_str@)));
            }
            PlayOutcome { launch: None, message: m }
        },
    }
}

/// Creates or updates an alias: normalizes it, refuses an empty
/// result, and otherwise mutates the store and asks for a rewrite.
pub fn set_command(store: &mut AliasStore, alias: &str, id: u32) -> (r: CommandOutcome)
    requires
        old(store).wf(),
    ensures
        final(store).wf(),
        ({
            let k = normal_key(alias@);
            if k.len() == 0 {
                !r.persist && *final(store) == *old(store) && r.message@ == empty_alias_message()
            } else {
                r.persist && final(store)@ == old(store)@.insert(k, id) && r.message@
                    == set_ok_message(k, id, final(store).entry_seq().len() as nat)
            }
        }),
{
    let key = normalize(alias);
    let changed = store.set_alias(alias, id);
    if !changed {
        return CommandOutcome {
            persist: false,
            message: String::from_str("Alias must not be empty"),
        };
    }
    let count = store.count();
    let mut m = String::from_str("Alias '");
    m.append(key.as_str());
    m.append("' successfully set to ");
    let ids = u32_string(id);
    m.append(ids.as_str());
    m.append("; total aliases = ");
    let cs = count_string(count);
    m.append(cs.as_str());
    proof {
        assert(m@ =~= set_ok_message(normal_key(alias@), id, store.entry_seq().len() as nat));
    }
    CommandOutcome { persist: true, message: m }
}

/// The requested names that are present in the mapping, in request order.
pub open spec fn found_keys(m: Map<Seq<char>, u32>, names: Seq<Seq<char>>) -> Seq<Seq<char>>
    decreases names.len(),
{
    if names.len() == 0 {
        Seq::empty()
    } else {
        let rest = found_keys(m, names.drop_last());
        if m.contains_key(names.last()) {
            rest.push(names.last())
        } else {
            rest
        }
    }
}

/// The requested names that are absent from the mapping, in request order.
pub open spec fn missing_keys(m: Map<Seq<char>, u32>, names: Seq<Seq<char>>) -> Seq<Seq<char>>
    decreases names.len(),
{
    if names.len() == 0 {
        Seq::empty()
    } else {
        let rest = missing_keys(m, names.drop_last());
        if m.contains_key(names.last()) {
            rest
        } else {
            rest.push(names.last())
        }
    }
}

/// The mapping with each listed key removed, in order.
pub open spec fn remove_seq(m: Map<Seq<char>, u32>, ks: Seq<Seq<char>>) -> Map<Seq<char>, u32>
    decreases ks.len(),
{
    if ks.len() == 0 {
        m
    } else {
        remove_seq(m, ks.drop_last()).remove(ks.last())
    }
}

/// What the remove command decided: the individual not-found reports
/// in discovery order, then the consolidated outcome.
pub struct RemoveOutcome {
    pub persist: bool,
    pub message: String,
    pub not_found: Vec<String>,
}

fn build_not_found_message(alias: &str) -> (r: String)
    ensures
        r@ == not_found_message(alias@),
{
    let mut m = String::from_str("Alias '");
    m.append(alias);
    m.append("' not found");
    proof {
        assert(m@ =~= not_found_message(alias@));
    }
    m
}

/// Joins the items with a comma and a space, in order.
fn join_with_commas(items: &Vec<String>) -> (r: String)
    ensures
        r@ == join_commas(views_of(items@)),
{
    let n = items.len();
    let mut acc = String::new();
    let mut i: usize = 0;
    while i < n
        invariant
            n == items@.len(),
            i <= n,
            acc@ == join_commas(views_of(items@).take(i as int)),
        decreases n - i,
    {
        if i > 0 {
            acc.append(", ");
        }
        acc.append(items[i].as_str());
        proof {
            let v = views_of(items@);
            assert(v.take(i + 1).drop_last() =~= v.take(i as int));
            assert(v.take(i + 1).last() == v[i as int]);
            assert(v[i as int] == items@[i as int]@);
            if i == 0 {
                assert(acc@ =~= join_commas(v.take(1)));
            } else {
                assert(acc@ =~= join_commas(v.take(i + 1)));
            }
        }
        i = i + 1;
    }
    proof {
        assert(views_of(items@).take(n as int) =~= views_of(items@));
    }
    acc
}

/// Removes the requested aliases. Membership is checked against the
/// stored keys exactly as given, without the lower-casing that set and
/// lookup apply; this matches the historical behaviour of the tool and
/// is kept deliberately. Absent names are reported one by one; when
/// anything was removed the store is mutated and a rewrite requested,
/// otherwise the store and file stay untouched.
pub fn remove_command(store: &mut AliasStore, aliases: &Vec<String>) -> (r: RemoveOutcome)
    requires
        old(store).wf(),
    ensures
        final(store).wf(),
        ({
            let names = views_of(aliases@);
            let f = found_keys(old(store)@, names);
            let miss = missing_keys(old(store)@, names);
            views_of(r.not_found@) == miss.map_values(|a: Seq<char>| not_found_message(a))
                && if f.len() > 0 {
                r.persist && final(store)@ == remove_seq(old(store)@, f) && r.message@
                    == removed_message(f, final(store).entry_seq().len() as nat)
            } else {
                !r.persist && *final(store) == *old(store) && r.message@
                    == nothing_removed_message(final(store).entry_seq().len() as nat)
            }
        }),
{
    let n = aliases.len();
    let mut found: Vec<String> = Vec::new();
    let mut not_found: Vec<String> = Vec::new();
    let ghost names = views_of(aliases@);
    let ghost msg_of = |a: Seq<char>| not_found_message(a);
    let mut i: usize = 0;
    while i < n
        invariant
            *store == *old(store),
            old(store).wf(),
            n == aliases@.len(),
            i <= n,
            names == views_of(aliases@),
            msg_of == (|a: Seq<char>| not_found_message(a)),
            views_of(found@) == found_keys(store@, names.take(i as int)),
            views_of(not_found@) == missing_keys(store@, names.take(i as int)).map_values(msg_of),
        decreases n - i,
    {
        proof {
            assert(names.take(i + 1).drop_last() =~= names.take(i as int));
            assert(names.take(i + 1).last() == names[i as int]);
            assert(names[i as int] == aliases@[i as int]@);
        }
        if store.contains_exact(aliases[i].as_str()) {
            let ghost prev = found@;
            found.push(aliases[i].clone());
            proof {
                lemma_views_of_push(prev, aliases@[i as int], found@);
            }
        } else {
            let m = build_not_found_message(aliases[i].as_str());
            let ghost prev = not_found@;
            not_found.push(m);
            proof {
                lemma_views_of_push(prev, not_found@.last(), not_found@);
                let miss2 = missing_keys(store@, names.take(i + 1));
                assert(miss2 == missing_keys(store@, names.take(i as int)).push(names[i as int]));
                assert(views_of(not_found@) =~= miss2.map_values(msg_of));
            }
        }
        i = i + 1;
    }
    proof {
        assert(names.take(n as int) =~= names);
    }
    if found.len() > 0 {
        let ghost f = found_keys(old(store)@, names);
        let nf = found.len();
        let mut j: usize = 0;
        while j < nf
            invariant
                old(store).wf(),
                store.wf(),
                nf == found@.len(),
                j <= nf,
                views_of(found@) == f,
                store@ == remove_seq(old(store)@, f.take(j as int)),
            decreases nf - j,
        {
            store.remove_exact(found[j].as_str());
            proof {
                assert(f.take(j + 1).drop_last() =~= f.take(j as int));
                assert(f.take(j + 1).last() == f[j as int]);
                assert(f[j as int] == found@[j as int]@);
            }
            j = j + 1;
        }
        proof {
            assert(f.take(nf as int) =~= f);
        }
        let list = join_with_commas(&found);
        let count = store.count();
        let mut m = String::from_str("Aliases '");
        m.append(list.as_str());
        m.append("' successfully removed; total aliases = ");
        let cs = count_string(count);
        m.append(cs.as_str());
        proof {
            assert(m@ =~= removed_message(f, store.entry_seq().len() as nat));
        }
        RemoveOutcome { persist: true, message: m, not_found }
    } else {
        let count = store.count();
        let mut m = String::from_str("Nothing to be removed; total aliases = ");
        let cs = count_string(count);
        m.append(cs.as_str());
        proof {
            assert(m@ =~= nothing_removed_message(store.entry_seq().len() as nat));
            assert(found_keys(old(store)@, names).len() == views_of(found@).len());
        }
        RemoveOutcome { persist: false, message: m, not_found }
    }
}

/// The fixed-width column estimate for one alias: its length in
/// characters divided by the tab size of four, rounded to the nearest
/// whole number (halves away from zero).
pub open spec fn rounded_tab_width(len: nat) -> nat {
    len / 4 + if len % 4 >= 2 {
        1nat
    } else {
        0nat
    }
}

/// The display lines for one entry: a long alias stands alone with the
/// id indented on the next line, a short one shares its line with the id.
pub open spec fn entry_lines(name: Seq<char>, id: u32) -> Seq<Seq<char>> {
    if rounded_tab_width(name.len()) > 4 {
        seq![name, "\t\t\t\t"@ + dec_of(id as nat)]
    } else {
        seq![name + "\t\t\t\t"@ + dec_of(id as nat)]
    }
}

/// The display lines for a pair sequence, in order.
pub open spec fn lines_of(s: Seq<(Seq<char>, u32)>) -> Seq<Seq<char>>
    decreases s.len(),
{
    if s.len() == 0 {
        Seq::empty()
    } else {
        lines_of(s.drop_last()) + entry_lines(s.last().0, s.last().1)
    }
}

/// Renders the store for display. The entries come out sorted by name
/// because the store keeps them so, whatever order they were set in.
pub fn list_lines(store: &AliasStore) -> (r: Vec<String>)
    requires
        store.wf(),
    ensures
        views_of(r@) == lines_of(store.entry_seq()),
{
    let n = store.count();
    let mut lines: Vec<String> = Vec::new();
    let mut i: usize = 0;
    while i < n
        invariant
            store.wf(),
            n == store.entry_seq().len(),
            i <= n,
            views_of(lines@) == lines_of(store.entry_seq().take(i as int)),
        decreases n - i,
    {
        let name = store.entry_name_at(i);
        let id = store.entry_id_at(i);
        let name_len = name.as_str().unicode_len();
        let width = name_len / 4 + if name_len % 4 >= 2 {
            1
        } else {
            0
        };
        let ids = u32_string(id);
        proof {
            let s = store.entry_seq();
            assert(s.take(i + 1).drop_last() =~= s.take(i as int));
            assert(s.take(i + 1).last() == s[i as int]);
        }
        if width > 4 {
            let ghost prev = lines@;
            lines.push(name.clone());
            proof {
                lemma_views_of_push(prev, lines@.last(), lines@);
            }
            let mut second = String::from_str("\t\t\t\t");
            second.append(ids.as_str());
            let ghost prev2 = lines@;
            lines.push(second);
            proof {
                lemma_views_of_push(prev2, lines@.last(), lines@);
                let s = store.entry_seq();
                assert(lines_of(s.take(i as int)) + entry_lines(s[i as int].0, s[i as int].1)
                    =~= lines_of(s.take(i as int)).push(s[i as int].0).push(
                    "\t\t\t\t"@ + dec_of(s[i as int].1 as nat),
                ));
                assert(views_of(lines@) =~= lines_of(s.take(i + 1)));
            }
        } else {
            let mut line = name.clone();
            line.append("\t\t\t\t");
            line.append(ids.as_str());
            let ghost prev = lines@;
            lines.push(line);
            proof {
                lemma_views_of_push(prev, lines@.last(), lines@);
                let s = store.entry_seq();
                assert(lines_of(s.take(i as int)) + entry_lines(s[i as int].0, s[i as int].1)
                    =~= lines_of(s.take(i as int)).push(
                    s[i as int].0 + "\t\t\t\t"@ + dec_of(s[i as int].1 as nat),
                ));
                assert(views_of(lines@) =~= lines_of(s.take(i + 1)));
            }
        }
        i = i + 1;
    }
    proof {
        assert(store.entry_seq().take(n as int) =~= store.entry_seq());
    }
    lines
}

} // verus!
