//! The in-memory table store: named tables, each an ordered sequence of
//! unique keys with their values. Tables appear on first write; a key keeps
//! its place when it is overwritten, and new keys go at the end.
use vstd::prelude::*;
use vstd::pervasive::VecAdditionalExecFns;
use vstd::string::StringExecFns;

use crate::error::KvError;
use crate::pb::{Kvpair, Value, ValueData};

verus! {

/// The value under `k` in an association sequence (the last entry wins,
/// though the store never holds two).
pub open spec fn lookup<V>(s: Seq<(Seq<char>, V)>, k: Seq<char>) -> Option<V>
    decreases s.len(),
{
    if s.len() == 0 {
        None
    } else if s.last().0 == k {
        Some(s.last().1)
    } else {
        lookup(s.drop_last(), k)
    }
}

/// `s` with the entry for `k` given the value `v`.
pub open spec fn replace<V>(s: Seq<(Seq<char>, V)>, k: Seq<char>, v: V) -> Seq<(Seq<char>, V)>
    decreases s.len(),
{
    if s.len() == 0 {
        s
    } else if s.last().0 == k {
        s.drop_last().push((k, v))
    } else {
        replace(s.drop_last(), k, v).push(s.last())
    }
}

/// `s` with `k` bound to `v`: in place where `k` is there, at the end where not.
pub open spec fn upsert<V>(s: Seq<(Seq<char>, V)>, k: Seq<char>, v: V) -> Seq<(Seq<char>, V)> {
    if lookup(s, k) is Some {
        replace(s, k, v)
    } else {
        s.push((k, v))
    }
}

/// `s` without its entry for `k`.
pub open spec fn remove_key<V>(s: Seq<(Seq<char>, V)>, k: Seq<char>) -> Seq<(Seq<char>, V)>
    decreases s.len(),
{
    if s.len() == 0 {
        s
    } else if s.last().0 == k {
        s.drop_last()
    } else {
        remove_key(s.drop_last(), k).push(s.last())
    }
}

/// No key occurs twice in `s`.
pub open spec fn keys_unique<V>(s: Seq<(Seq<char>, V)>) -> bool {
    forall|i: int, j: int| 0 <= i < j < s.len() ==> s[i].0 != s[j].0
}

/// The entries of one table.
pub type Entries = Seq<(Seq<char>, Option<ValueData>)>;

/// The whole store: tables by name, in order of creation.
pub type Tables = Seq<(Seq<char>, Entries)>;

/// The value under (`t`, `k`), if any.
pub open spec fn store_get(m: Tables, t: Seq<char>, k: Seq<char>) -> Option<Option<ValueData>> {
    match lookup(m, t) {
        Some(es) => lookup(es, k),
        None => None,
    }
}

/// The entries of table `t`; a table never written is empty.
pub open spec fn table_entries(m: Tables, t: Seq<char>) -> Entries {
    match lookup(m, t) {
        Some(es) => es,
        None => Seq::empty(),
    }
}

/// The store after (`t`, `k`) is set to `v`; the table is made if missing.
pub open spec fn store_set(m: Tables, t: Seq<char>, k: Seq<char>, v: Option<ValueData>) -> Tables {
    upsert(m, t, upsert(table_entries(m, t), k, v))
}

/// The store after (`t`, `k`) is removed.
pub open spec fn store_del(m: Tables, t: Seq<char>, k: Seq<char>) -> Tables {
    match lookup(m, t) {
        Some(es) => upsert(m, t, remove_key(es, k)),
        None => m,
    }
}

/// A store whose table names are unique, and keys unique in each table.
pub open spec fn store_wf(m: Tables) -> bool {
    &&& keys_unique(m)
    &&& forall|i: int| 0 <= i < m.len() ==> keys_unique(#[trigger] m[i].1)
}

/// A value read back from the store, as its view.
pub open spec fn found_view(r: Option<Value>) -> Option<Option<ValueData>> {
    match r {
        Some(v) => Some(v@),
        None => None,
    }
}

proof fn lemma_last_match<V>(s: Seq<(Seq<char>, V)>, k: Seq<char>, i: int, v: V)
    requires
        0 <= i < s.len(),
        s[i].0 == k,
        forall|j: int| i < j < s.len() ==> s[j].0 != k,
    ensures
        lookup(s, k) == Some(s[i].1),
        upsert(s, k, v) == s.update(i, (k, v)),
        remove_key(s, k) == s.remove(i),
    decreases s.len(),
{
    if i == s.len() - 1 {
        assert(s.drop_last().push((k, v)) =~= s.update(i, (k, v)));
        assert(s.drop_last() =~= s.remove(i));
    } else {
        lemma_last_match(s.drop_last(), k, i, v);
        assert(s.drop_last().update(i, (k, v)).push(s.last()) =~= s.update(i, (k, v)));
        assert(s.drop_last().remove(i).push(s.last()) =~= s.remove(i));
    }
}

proof fn lemma_no_match<V>(s: Seq<(Seq<char>, V)>, k: Seq<char>, v: V)
    requires
        forall|j: int| 0 <= j < s.len() ==> s[j].0 != k,
    ensures
        lookup(s, k) is None,
        upsert(s, k, v) == s.push((k, v)),
        remove_key(s, k) == s,
    decreases s.len(),
{
    if s.len() > 0 {
        lemma_no_match(s.drop_last(), k, v);
        assert(s.drop_last().push(s.last()) =~= s);
    }
}

proof fn lemma_lookup_absent<V>(s: Seq<(Seq<char>, V)>, k: Seq<char>)
    requires
        lookup(s, k) is None,
    ensures
        forall|j: int| 0 <= j < s.len() ==> s[j].0 != k,
    decreases s.len(),
{
    if s.len() > 0 {
        lemma_lookup_absent(s.drop_last(), k);
        assert forall|j: int| 0 <= j < s.len() implies s[j].0 != k by {
            if j < s.len() - 1 {
                assert(s[j] == s.drop_last()[j]);
            }
        }
    }
}

proof fn lemma_replace<V>(s: Seq<(Seq<char>, V)>, k: Seq<char>, v: V)
    ensures
        replace(s, k, v).len() == s.len(),
        forall|j: int| 0 <= j < s.len() ==> (#[trigger] replace(s, k, v)[j]).0 == s[j].0,
        lookup(s, k) is Some ==> lookup(replace(s, k, v), k) == Some(v),
    decreases s.len(),
{
    if s.len() > 0 {
        lemma_replace(s.drop_last(), k, v);
        let r = replace(s, k, v);
        assert forall|j: int| 0 <= j < s.len() implies (#[trigger] r[j]).0 == s[j].0 by {
            if j < s.len() - 1 {
                assert(s[j] == s.drop_last()[j]);
            }
        }
        if s.last().0 != k {
            assert(r.drop_last() =~= replace(s.drop_last(), k, v));
        }
    }
}

proof fn lemma_replace_elems<V>(s: Seq<(Seq<char>, V)>, k: Seq<char>, v: V)
    ensures
        forall|j: int|
            0 <= j < s.len() ==> #[trigger] replace(s, k, v)[j] == s[j] || replace(s, k, v)[j] == (k, v),
    decreases s.len(),
{
    lemma_replace(s, k, v);
    if s.len() > 0 {
        lemma_replace_elems(s.drop_last(), k, v);
        let r = replace(s, k, v);
        assert forall|j: int| 0 <= j < s.len() implies #[trigger] r[j] == s[j] || r[j] == (k, v) by {
            if j < s.len() - 1 && s.last().0 != k {
                assert(s[j] == s.drop_last()[j]);
                assert(r[j] == replace(s.drop_last(), k, v)[j]);
            } else if j < s.len() - 1 {
                assert(r[j] == s.drop_last()[j]);
            }
        }
    }
}

/// A lookup of a key just bound finds the new value.
pub proof fn lemma_lookup_upsert<V>(s: Seq<(Seq<char>, V)>, k: Seq<char>, v: V)
    ensures
        lookup(upsert(s, k, v), k) == Some(v),
{
    lemma_replace(s, k, v);
    if lookup(s, k) is None {
        assert(s.push((k, v)).drop_last() =~= s);
    }
}

proof fn lemma_lookup_in<V>(s: Seq<(Seq<char>, V)>, k: Seq<char>)
    requires
        lookup(s, k) is Some,
    ensures
        exists|i: int| 0 <= i < s.len() && #[trigger] s[i] == (k, lookup(s, k).unwrap()),
    decreases s.len(),
{
    if s.last().0 != k {
        lemma_lookup_in(s.drop_last(), k);
        let i = choose|i: int| 0 <= i < s.drop_last().len() && #[trigger] s.drop_last()[i] == (k, lookup(s, k).unwrap());
        assert(s[i] == s.drop_last()[i]);
    } else {
        assert(s[s.len() - 1] == (k, lookup(s, k).unwrap()));
    }
}

/// Binding a key keeps the keys of a sequence unique, and a later lookup of
/// that key finds the new value.
pub proof fn lemma_upsert_unique<V>(s: Seq<(Seq<char>, V)>, k: Seq<char>, v: V)
    requires
        keys_unique(s),
    ensures
        keys_unique(upsert(s, k, v)),
        lookup(upsert(s, k, v), k) == Some(v),
{
    lemma_replace(s, k, v);
    lemma_lookup_upsert(s, k, v);
    if lookup(s, k) is None {
        lemma_lookup_absent(s, k);
        let u = s.push((k, v));
        assert forall|i: int, j: int| 0 <= i < j < u.len() implies u[i].0 != u[j].0 by {
            assert(u[i] == s[i]);
        }
    } else {
        let u = replace(s, k, v);
        assert forall|i: int, j: int| 0 <= i < j < u.len() implies u[i].0 != u[j].0 by {
            assert(u[i].0 == s[i].0);
            assert(u[j].0 == s[j].0);
        }
    }
}

/// Removing a key from a sequence with unique keys keeps them unique and
/// leaves no entry for it.
pub proof fn lemma_remove_unique<V>(s: Seq<(Seq<char>, V)>, k: Seq<char>)
    requires
        keys_unique(s),
    ensures
        keys_unique(remove_key(s, k)),
        lookup(remove_key(s, k), k) is None,
        forall|j: int|
            0 <= j < remove_key(s, k).len() ==> exists|i: int|
                0 <= i < s.len() && s[i] == #[trigger] remove_key(s, k)[j],
    decreases s.len(),
{
    if s.len() > 0 {
        let t = s.drop_last();
        assert(keys_unique(t));
        if s.last().0 == k {
            assert forall|j: int| 0 <= j < t.len() implies t[j].0 != k by {
                assert(s[j] == t[j]);
            }
            lemma_no_match(t, k, s.last().1);
            assert forall|j: int| 0 <= j < t.len() implies exists|i: int|
                0 <= i < s.len() && s[i] == #[trigger] t[j] by {
                assert(s[j] == t[j]);
            }
        } else {
            lemma_remove_unique(t, k);
            let r0 = remove_key(t, k);
            let r = r0.push(s.last());
            assert forall|j: int| 0 <= j < r.len() implies exists|i: int|
                0 <= i < s.len() && s[i] == #[trigger] r[j] by {
                if j < r0.len() {
                    let i = choose|i: int| 0 <= i < t.len() && t[i] == #[trigger] r0[j];
                    assert(s[i] == t[i]);
                } else {
                    assert(s[s.len() - 1] == r[j]);
                }
            }
            assert forall|a: int, b: int| 0 <= a < b < r.len() implies r[a].0 != r[b].0 by {
                if b == r.len() - 1 {
                    let i = choose|i: int| 0 <= i < t.len() && t[i] == #[trigger] r0[a];
                    assert(s[i] == t[i]);
                    assert(s[i].0 != s[s.len() - 1].0);
                }
            }
            assert(r.drop_last() =~= r0);
        }
    }
}

proof fn lemma_upsert_wf(m: Tables, t: Seq<char>, es: Entries)
    requires
        store_wf(m),
        keys_unique(es),
    ensures
        store_wf(upsert(m, t, es)),
{
    lemma_upsert_unique(m, t, es);
    lemma_replace_elems(m, t, es);
    lemma_replace(m, t, es);
    let u = upsert(m, t, es);
    assert forall|i: int| 0 <= i < u.len() implies keys_unique(#[trigger] u[i].1) by {
        if lookup(m, t) is None && i == m.len() {
        } else if lookup(m, t) is None {
            assert(u[i] == m[i]);
        } else {
            assert(replace(m, t, es)[i] == m[i] || replace(m, t, es)[i] == (t, es));
        }
    }
}

/// Setting a key keeps names unique in the store and keys unique in each
/// table.
pub proof fn lemma_set_wf(m: Tables, t: Seq<char>, k: Seq<char>, v: Option<ValueData>)
    requires
        store_wf(m),
    ensures
        store_wf(store_set(m, t, k, v)),
{
    lemma_table_unique(m, t);
    lemma_upsert_unique(table_entries(m, t), k, v);
    lemma_upsert_wf(m, t, upsert(table_entries(m, t), k, v));
}

/// Removing a key keeps names unique in the store and keys unique in each
/// table.
pub proof fn lemma_del_wf(m: Tables, t: Seq<char>, k: Seq<char>)
    requires
        store_wf(m),
    ensures
        store_wf(store_del(m, t, k)),
{
    if lookup(m, t) is Some {
        lemma_table_unique(m, t);
        lemma_remove_unique(table_entries(m, t), k);
        lemma_upsert_wf(m, t, remove_key(table_entries(m, t), k));
    }
}

/// The keys of each table of a well-formed store are unique.
pub proof fn lemma_table_unique(m: Tables, t: Seq<char>)
    requires
        store_wf(m),
    ensures
        keys_unique(table_entries(m, t)),
{
    if lookup(m, t) is Some {
        lemma_lookup_in(m, t);
        let i = choose|i: int| 0 <= i < m.len() && #[trigger] m[i] == (t, lookup(m, t).unwrap());
        assert(keys_unique(m[i].1));
    }
}

/// One key and its value, as kept in a table.
struct Entry {
    key: String,
    value: Value,
}

/// One named table.
struct Table {
    name: String,
    entries: Vec<Entry>,
}

spec fn entries_view(es: Seq<Entry>) -> Entries {
    es.map_values(|e: Entry| (e.key@, e.value@))
}

/// The reference backend: tables in memory.
pub struct MemTable {
    tables: Vec<Table>,
}

impl View for MemTable {
    type V = Tables;

    closed spec fn view(&self) -> Tables {
        self.tables@.map_values(|t: Table| (t.name@, entries_view(t.entries@)))
    }
}

fn find_entry(es: &Vec<Entry>, key: &String) -> (r: Option<usize>)
    ensures
        match r {
            Some(i) => i < es@.len() && es@[i as int].key@ == key@ && forall|j: int|
                i < j < es@.len() ==> (#[trigger] es@[j]).key@ != key@,
            None => forall|j: int| 0 <= j < es@.len() ==> (#[trigger] es@[j]).key@ != key@,
        },
{
    let mut i: usize = es.len();
    while i > 0
        invariant
            i <= es@.len(),
            forall|j: int| i <= j < es@.len() ==> (#[trigger] es@[j]).key@ != key@,
        decreases i,
    {
        i = i - 1;
        if es[i].key == *key {
            return Some(i);
        }
    }
    None
}

fn find_table(ts: &Vec<Table>, name: &String) -> (r: Option<usize>)
    ensures
        match r {
            Some(i) => i < ts@.len() && ts@[i as int].name@ == name@ && forall|j: int|
                i < j < ts@.len() ==> (#[trigger] ts@[j]).name@ != name@,
            None => forall|j: int| 0 <= j < ts@.len() ==> (#[trigger] ts@[j]).name@ != name@,
        },
{
    let mut i: usize = ts.len();
    while i > 0
        invariant
            i <= ts@.len(),
            forall|j: int| i <= j < ts@.len() ==> (#[trigger] ts@[j]).name@ != name@,
        decreases i,
    {
        i = i - 1;
        if ts[i].name == *name {
            return Some(i);
        }
    }
    None
}

impl MemTable {
    /// An empty store.
    pub fn new() -> (r: MemTable)
        ensures
            r@ == Tables::empty(),
            store_wf(r@),
    {
        let r = MemTable { tables: Vec::new() };
        assert(r@ =~= Tables::empty());
        r
    }

    /// The value under (`table`, `key`), if any.
    pub fn get(&self, table: &str, key: &str) -> (r: Option<Value>)
        ensures
            found_view(r) == store_get(self@, table@, key@),
    {
        let t = String::from_str(table);
        let k = String::from_str(key);
        match find_table(&self.tables, &t) {
            None => {
                proof {
                    lemma_no_match(self@, t@, Seq::empty());
                }
                None
            },
            Some(i) => {
                let es = &self.tables[i].entries;
                proof {
                    lemma_last_match(self@, t@, i as int, Seq::empty());
                }
                match find_entry(es, &k) {
                    None => {
                        proof {
                            lemma_no_match(entries_view(es@), k@, None);
                        }
                        None
                    },
                    Some(j) => {
                        proof {
                            lemma_last_match(entries_view(es@), k@, j as int, None);
                        }
                        Some(es[j].value.duplicate())
                    },
                }
            },
        }
    }

    /// Whether (`table`, `key`) holds a value.
    pub fn contains(&self, table: &str, key: &str) -> (r: bool)
        ensures
            r == store_get(self@, table@, key@) is Some,
    {
        self.get(table, key).is_some()
    }

    /// Every pair of `table`, in the table's order; none for a table never
    /// written.
    pub fn get_all(&self, table: &str) -> (r: Vec<Kvpair>)
        ensures
            r@.map_values(|p: Kvpair| p@) == table_entries(self@, table@),
    {
        let t = String::from_str(table);
        let mut out: Vec<Kvpair> = Vec::new();
        match find_table(&self.tables, &t) {
            None => {
                proof {
                    lemma_no_match(self@, t@, Seq::empty());
                }
                assert(out@.map_values(|p: Kvpair| p@) =~= Entries::empty());
            },
            Some(i) => {
                proof {
                    lemma_last_match(self@, t@, i as int, Seq::empty());
                }
                let es = &self.tables[i].entries;
                let mut j: usize = 0;
                while j < es.len()
                    invariant
                        j <= es@.len(),
                        out@.map_values(|p: Kvpair| p@) =~= entries_view(es@).subrange(0, j as int),
                    decreases es@.len() - j,
                {
                    let e = &es[j];
                    let kv = Kvpair { key: e.key.clone(), value: Some(e.value.duplicate()) };
                    assert(kv@ == entries_view(es@)[j as int]);
                    let ghost before = out@;
                    out.push(kv);
                    assert(out@.map_values(|p: Kvpair| p@) =~= before.map_values(|p: Kvpair| p@).push(kv@));
                    assert(entries_view(es@).subrange(0, j + 1) =~= entries_view(es@).subrange(0, j as int).push(kv@));
                    j = j + 1;
                    assert(out@.map_values(|p: Kvpair| p@) =~= entries_view(es@).subrange(0, j as int));
                }
                assert(entries_view(es@).subrange(0, j as int) =~= entries_view(es@));
            },
        }
        out
    }

    /// Sets (`table`, `key`) to `value`, making the table if needed; returns
    /// the value that was there before.
    pub fn set(&mut self, table: &str, key: &str, value: Value) -> (r: Option<Value>)
        ensures
            found_view(r) == store_get(old(self)@, table@, key@),
            final(self)@ == store_set(old(self)@, table@, key@, value@),
            store_wf(old(self)@) ==> store_wf(final(self)@),
    {
        proof {
            if store_wf(old(self)@) {
                lemma_set_wf(old(self)@, table@, key@, value@);
            }
        }
        let t = String::from_str(table);
        let k = String::from_str(key);
        let ghost v = value@;
        match find_table(&self.tables, &t) {
            None => {
                proof {
                    lemma_no_match(old(self)@, t@, Seq::empty());
                    lemma_no_match(Entries::empty(), k@, v);
                }
                let mut entries: Vec<Entry> = Vec::new();
                entries.push(Entry { key: k, value });
                self.tables.push(Table { name: t, entries });
                assert(entries_view(entries@) =~= upsert(Entries::empty(), k@, v));
                assert(self@ =~= old(self)@.push((t@, upsert(Entries::empty(), k@, v))));
                None
            },
            Some(i) => {
                let mut tab = Table { name: String::new(), entries: Vec::new() };
                self.tables.set_and_swap(i, &mut tab);
                let ghost es0 = entries_view(tab.entries@);
                proof {
                    lemma_last_match(old(self)@, t@, i as int, upsert(es0, k@, v));
                }
                let prev = match find_entry(&tab.entries, &k) {
                    None => {
                        proof {
                            lemma_no_match(es0, k@, v);
                        }
                        tab.entries.push(Entry { key: k, value });
                        assert(entries_view(tab.entries@) =~= es0.push((k@, v)));
                        None
                    },
                    Some(j) => {
                        proof {
                            lemma_last_match(es0, k@, j as int, v);
                        }
                        let mut e = Entry { key: k, value };
                        tab.entries.set_and_swap(j, &mut e);
                        assert(entries_view(tab.entries@) =~= es0.update(j as int, (k@, v)));
                        Some(e.value)
                    },
                };
                self.tables.set(i, tab);
                assert(self@ =~= old(self)@.update(i as int, (t@, upsert(es0, k@, v))));
                prev
            },
        }
    }

    /// Removes (`table`, `key`); returns the value that was there.
    pub fn del(&mut self, table: &str, key: &str) -> (r: Option<Value>)
        ensures
            found_view(r) == store_get(old(self)@, table@, key@),
            final(self)@ == store_del(old(self)@, table@, key@),
            store_wf(old(self)@) ==> store_wf(final(self)@),
    {
        proof {
            if store_wf(old(self)@) {
                lemma_del_wf(old(self)@, table@, key@);
            }
        }
        let t = String::from_str(table);
        let k = String::from_str(key);
        match find_table(&self.tables, &t) {
            None => {
                proof {
                    lemma_no_match(old(self)@, t@, Seq::empty());
                }
                None
            },
            Some(i) => {
                let mut tab = Table { name: String::new(), entries: Vec::new() };
                self.tables.set_and_swap(i, &mut tab);
                let ghost es0 = entries_view(tab.entries@);
                proof {
                    lemma_last_match(old(self)@, t@, i as int, remove_key(es0, k@));
                }
                let prev = match find_entry(&tab.entries, &k) {
                    None => {
                        proof {
                            lemma_no_match(es0, k@, None);
                        }
                        None
                    },
                    Some(j) => {
                        proof {
                            lemma_last_match(es0, k@, j as int, None);
                        }
                        let e = tab.entries.remove(j);
                        assert(entries_view(tab.entries@) =~= es0.remove(j as int));
                        Some(e.value)
                    },
                };
                self.tables.set(i, tab);
                assert(self@ =~= old(self)@.update(i as int, (t@, remove_key(es0, k@))));
                prev
            },
        }
    }
}

/// A storage backend: named tables of keys and values, as `model` describes
/// them. A backend may fail; a failed write leaves the model as it was. A
/// backend whose `infallible` holds never fails.
pub trait Storage {
    /// The tables the backend holds.
    spec fn model(&self) -> Tables;

    /// Whether no call on this backend ever fails.
    spec fn infallible(&self) -> bool;

    /// The value under (`table`, `key`), if any.
    fn get(&self, table: &str, key: &str) -> (r: Result<Option<Value>, KvError>)
        ensures
            r matches Ok(v) ==> found_view(v) == store_get(self.model(), table@, key@),
            self.infallible() ==> r is Ok,
    ;

    /// Sets (`table`, `key`) to `value`; returns the value it replaced.
    fn set(&mut self, table: &str, key: &str, value: Value) -> (r: Result<Option<Value>, KvError>)
        ensures
            final(self).infallible() == old(self).infallible(),
            old(self).infallible() ==> r is Ok,
            match r {
                Ok(v) => {
                    &&& found_view(v) == store_get(old(self).model(), table@, key@)
                    &&& final(self).model() == store_set(old(self).model(), table@, key@, value@)
                },
                Err(_) => final(self).model() == old(self).model(),
            },
    ;

    /// Removes (`table`, `key`); returns the value it held.
    fn del(&mut self, table: &str, key: &str) -> (r: Result<Option<Value>, KvError>)
        ensures
            final(self).infallible() == old(self).infallible(),
            old(self).infallible() ==> r is Ok,
            match r {
                Ok(v) => {
                    &&& found_view(v) == store_get(old(self).model(), table@, key@)
                    &&& final(self).model() == store_del(old(self).model(), table@, key@)
                },
                Err(_) => final(self).model() == old(self).model(),
            },
    ;

    /// Whether (`table`, `key`) holds a value.
    fn contains(&self, table: &str, key: &str) -> (r: Result<bool, KvError>)
        ensures
            r matches Ok(b) ==> b == store_get(self.model(), table@, key@) is Some,
            self.infallible() ==> r is Ok,
    ;

    /// Every pair of `table`, in the table's order.
    fn get_all(&self, table: &str) -> (r: Result<Vec<Kvpair>, KvError>)
        ensures
            r matches Ok(ps) ==> ps@.map_values(|p: Kvpair| p@) == table_entries(self.model(), table@),
            self.infallible() ==> r is Ok,
    ;
}

impl Storage for MemTable {
    open spec fn model(&self) -> Tables {
        self@
    }

    open spec fn infallible(&self) -> bool {
        true
    }

    fn get(&self, table: &str, key: &str) -> (r: Result<Option<Value>, KvError>) {
        Ok(MemTable::get(self, table, key))
    }

    fn set(&mut self, table: &str, key: &str, value: Value) -> (r: Result<Option<Value>, KvError>) {
        Ok(MemTable::set(self, table, key, value))
    }

    fn del(&mut self, table: &str, key: &str) -> (r: Result<Option<Value>, KvError>) {
        Ok(MemTable::del(self, table, key))
    }

    fn contains(&self, table: &str, key: &str) -> (r: Result<bool, KvError>) {
        Ok(MemTable::contains(self, table, key))
    }

    fn get_all(&self, table: &str) -> (r: Result<Vec<Kvpair>, KvError>) {
        Ok(MemTable::get_all(self, table))
    }
}

} // verus!
