//! The registry of named vault roots: names, selection and resolution. Reading
//! and persisting the registry file belong to the caller.

use vstd::prelude::*;
use vstd::utf8::encode_utf8;
use crate::error::Error;
use crate::paths::{bytes_le, bytes_le_exec, bytes_equal, lemma_bytes_le_total, lemma_bytes_le_transitive,
    lemma_bytes_le_antisymmetric};
use crate::text::{chars_of, same_text, lemma_encode_injective};

verus! {

/// A named, canonical vault root persisted in the user registry.
#[derive(Clone, Debug, PartialEq, Eq)]
pub struct VaultRecord {
    pub name: String,
    pub path: Vec<u8>,
}

pub struct RecordView {
    pub name: Seq<char>,
    pub path: Seq<u8>,
}

impl View for VaultRecord {
    type V = RecordView;

    open spec fn view(&self) -> RecordView {
        RecordView { name: self.name@, path: self.path@ }
    }
}

/// Names order as strings do: by their UTF-8 bytes.
pub open spec fn name_lt(a: Seq<char>, b: Seq<char>) -> bool {
    bytes_le(encode_utf8(a), encode_utf8(b)) && a != b
}

pub open spec fn entry_views(v: Seq<(String, VaultRecord)>) -> Seq<(Seq<char>, RecordView)> {
    v.map_values(|e: (String, VaultRecord)| (e.0@, e.1@))
}

/// Entries strictly ordered by their keys.
pub open spec fn entries_sorted(v: Seq<(Seq<char>, RecordView)>) -> bool {
    forall|i: int, j: int| 0 <= i < j < v.len() ==> name_lt((#[trigger] v[i]).0, (#[trigger] v[j]).0)
}

/// Every record is registered under its own name.
pub open spec fn keys_are_names(v: Seq<(Seq<char>, RecordView)>) -> bool {
    forall|i: int| 0 <= i < v.len() ==> (#[trigger] v[i]).0 == v[i].1.name
}

/// The record registered under a key, if any.
pub open spec fn lookup(v: Seq<(Seq<char>, RecordView)>, key: Seq<char>) -> Option<RecordView>
    decreases v.len(),
{
    if v.len() == 0 {
        None
    } else if v.last().0 == key {
        Some(v.last().1)
    } else {
        lookup(v.drop_last(), key)
    }
}

/// The registry of named vault roots, keyed and listed by name.
#[derive(Debug, PartialEq, Eq)]
pub struct VaultRegistry {
    path: Vec<u8>,
    vaults: Vec<(String, VaultRecord)>,
    selected: Option<String>,
}

pub struct RegistryView {
    pub path: Seq<u8>,
    pub vaults: Seq<(Seq<char>, RecordView)>,
    pub selected: Option<Seq<char>>,
}

pub open spec fn opt_text(v: Option<String>) -> Option<Seq<char>> {
    match v {
        Some(s) => Some(s@),
        None => None,
    }
}

impl View for VaultRegistry {
    type V = RegistryView;

    closed spec fn view(&self) -> RegistryView {
        RegistryView { path: self.path@, vaults: entry_views(self.vaults@), selected: opt_text(self.selected) }
    }
}

/// A vault name: non-empty, ASCII letters and digits, `-` and `_`.
pub open spec fn name_char(c: char) -> bool {
    ('a' <= c && c <= 'z') || ('A' <= c && c <= 'Z') || ('0' <= c && c <= '9') || c == '-' || c == '_'
}

pub open spec fn valid_vault_name(s: Seq<char>) -> bool {
    s.len() > 0 && forall|i: int| 0 <= i < s.len() ==> name_char(#[trigger] s[i])
}

/// Law: a vault name is valid exactly when it is non-empty and every character
/// is an ASCII digit, an ASCII letter of either case, `-` or `_`.
pub proof fn lemma_vault_name_characterized(s: Seq<char>)
    ensures
        valid_vault_name(s) <==> s.len() > 0 && forall|i: int| 0 <= i < s.len() ==> {
            let u = (#[trigger] s[i]) as int;
            (48 <= u <= 57) || (65 <= u <= 90) || (97 <= u <= 122) || u == 45 || u == 95
        },
{
    assert forall|i: int| 0 <= i < s.len() implies name_char(#[trigger] s[i]) == {
        let u = s[i] as int;
        (48 <= u <= 57) || (65 <= u <= 90) || (97 <= u <= 122) || u == 45 || u == 95
    } by {}
}

/// Law: changing any character of a valid name to a letter of either case, a
/// digit, `-` or `_` keeps it valid, and joining two valid names gives a valid
/// name.
pub proof fn lemma_vault_name_closed(s: Seq<char>, t: Seq<char>, i: int, c: char)
    requires
        ('a' <= c <= 'z') || ('A' <= c <= 'Z') || ('0' <= c <= '9') || c == '-' || c == '_',
    ensures
        valid_vault_name(s) && 0 <= i < s.len() ==> valid_vault_name(s.update(i, c)),
        valid_vault_name(s) && valid_vault_name(t) ==> valid_vault_name(s + t),
{
    if valid_vault_name(s) && valid_vault_name(t) {
        assert forall|k: int| 0 <= k < (s + t).len() implies name_char(#[trigger] (s + t)[k]) by {
            if k < s.len() {
                assert((s + t)[k] == s[k]);
            } else {
                assert((s + t)[k] == t[k - s.len()]);
            }
        }
    }
}

/// Check a vault name.
pub fn validate_name(name: &str) -> (r: Result<(), Error>)
    ensures
        r is Ok <==> valid_vault_name(name@),
        r matches Err(e) ==> e matches Error::InvalidVaultName(m) && m@ == name@,
{
    let cs = chars_of(name);
    let mut ok = cs.len() > 0;
    let mut i: usize = 0;
    while i < cs.len()
        invariant
            cs@ == name@,
            i <= cs@.len(),
            ok == (cs@.len() > 0 && forall|k: int| 0 <= k < i ==> name_char(#[trigger] cs@[k])),
        decreases cs@.len() - i,
    {
        let c = cs[i];
        let good = ('a' <= c && c <= 'z') || ('A' <= c && c <= 'Z') || ('0' <= c && c <= '9') || c == '-' || c == '_';
        if !good {
            ok = false;
        }
        i = i + 1;
    }
    if ok {
        Ok(())
    } else {
        Err(Error::InvalidVaultName(name.to_owned()))
    }
}

fn text_lt(a: &str, b: &str) -> (r: bool)
    ensures
        r == name_lt(a@, b@),
{
    if same_text(a, b) {
        false
    } else {
        bytes_le_exec(a.as_bytes(), b.as_bytes())
    }
}

proof fn lemma_name_lt_transitive(a: Seq<char>, b: Seq<char>, c: Seq<char>)
    requires
        name_lt(a, b),
        name_lt(b, c),
    ensures
        name_lt(a, c),
{
    lemma_bytes_le_transitive(encode_utf8(a), encode_utf8(b), encode_utf8(c));
    if a == c {
        lemma_bytes_le_antisymmetric(encode_utf8(a), encode_utf8(b));
        lemma_encode_injective(a, b);
    }
}

proof fn lemma_name_lt_total(a: Seq<char>, b: Seq<char>)
    ensures
        a == b || name_lt(a, b) || name_lt(b, a),
{
    lemma_bytes_le_total(encode_utf8(a), encode_utf8(b));
}

/// In sorted entries the lookup of a key finds the entry that holds it.
proof fn lemma_lookup_sorted(v: Seq<(Seq<char>, RecordView)>, key: Seq<char>)
    requires
        entries_sorted(v),
    ensures
        lookup(v, key) matches Some(r) ==> exists|i: int| 0 <= i < v.len() && v[i].0 == key && v[i].1 == r,
        lookup(v, key) is None <==> forall|i: int| 0 <= i < v.len() ==> (#[trigger] v[i]).0 != key,
        forall|i: int| 0 <= i < v.len() && (#[trigger] v[i]).0 == key ==> lookup(v, key) == Some(v[i].1),
    decreases v.len(),
{
    if v.len() > 0 {
        let w = v.drop_last();
        assert(entries_sorted(w)) by {
            assert forall|i: int, j: int| 0 <= i < j < w.len() implies name_lt((#[trigger] w[i]).0, (#[trigger] w[j]).0) by {
                assert(w[i] == v[i] && w[j] == v[j]);
            }
        }
        lemma_lookup_sorted(w, key);
        if v.last().0 == key {
            assert forall|i: int| 0 <= i < v.len() && (#[trigger] v[i]).0 == key implies lookup(v, key) == Some(v[i].1) by {
                if i < v.len() - 1 {
                    assert(name_lt(v[i].0, v[v.len() - 1].0));
                }
            }
        } else {
            assert forall|i: int| 0 <= i < v.len() && (#[trigger] v[i]).0 == key implies lookup(v, key) == Some(v[i].1) by {
                assert(i < v.len() - 1);
                assert(w[i] == v[i]);
            }
            assert(lookup(v, key) is None ==> forall|i: int| 0 <= i < v.len() ==> (#[trigger] v[i]).0 != key) by {
                if lookup(v, key) is None {
                    assert forall|i: int| 0 <= i < v.len() implies (#[trigger] v[i]).0 != key by {
                        if i < v.len() - 1 {
                            assert(w[i] == v[i]);
                        }
                    }
                }
            }
            match lookup(v, key) {
                Some(r) => {
                    let i = choose|i: int| 0 <= i < w.len() && w[i].0 == key && w[i].1 == r;
                    assert(v[i] == w[i]);
                },
                None => {},
            }
        }
    }
}

fn clone_record(r: &VaultRecord) -> (c: VaultRecord)
    ensures
        c@ == r@,
{
    VaultRecord { name: r.name.clone(), path: r.path.clone() }
}

impl VaultRegistry {
    #[verifier::type_invariant]
    spec fn sorted_by_name(self) -> bool {
        entries_sorted(entry_views(self.vaults@))
    }

    /// Record an entry under a key, replacing the record a key already has.
    fn upsert(&mut self, key: String, record: VaultRecord)
        ensures
            entries_sorted(final(self)@.vaults),
            final(self)@.path == old(self)@.path,
            final(self)@.selected == old(self)@.selected,
            forall|k: Seq<char>| #[trigger] lookup(final(self)@.vaults, k)
                == if k == key@ { Some(record@) } else { lookup(old(self)@.vaults, k) },
    {
        proof {
            use_type_invariant(&*self);
        }
        let ghost old_v = entry_views(self.vaults@);
        let (j, found) = self.position(key.as_str());
        let ghost kv = key@;
        let ghost rv = record@;
        let mut vaults: Vec<(String, VaultRecord)> = Vec::new();
        std::mem::swap(&mut vaults, &mut self.vaults);
        assert(entry_views(vaults@) == old_v);
        if found {
            vaults.set(j, (key, record));
            let ghost nv = old_v.update(j as int, (kv, rv));
            assert(entry_views(vaults@) =~= nv);
            proof {
                assert forall|a: int, b: int| 0 <= a < b < nv.len() implies name_lt((#[trigger] nv[a]).0, (#[trigger] nv[b]).0) by {
                    assert(nv[a].0 == old_v[a].0 && nv[b].0 == old_v[b].0);
                }
                lemma_lookup_sorted(old_v, kv);
                lemma_lookup_sorted(nv, kv);
                assert forall|k: Seq<char>| #[trigger] lookup(nv, k) == if k == kv { Some(rv) } else { lookup(old_v, k) } by {
                    lemma_lookup_sorted(old_v, k);
                    lemma_lookup_sorted(nv, k);
                    if k == kv {
                        assert(nv[j as int].0 == k);
                    } else {
                        if lookup(old_v, k) is None {
                            assert forall|i: int| 0 <= i < nv.len() implies (#[trigger] nv[i]).0 != k by {
                                assert(nv[i].0 == old_v[i].0 || i == j);
                            }
                        } else {
                            let i = choose|i: int| 0 <= i < old_v.len() && old_v[i].0 == k && old_v[i].1 == lookup(old_v, k)->0;
                            assert(nv[i] == old_v[i]);
                        }
                    }
                }
            }
        } else {
            vaults.insert(j, (key, record));
            let ghost nv = old_v.insert(j as int, (kv, rv));
            assert(entry_views(vaults@) =~= nv);
            proof {
                assert forall|a: int, b: int| 0 <= a < b < nv.len() implies name_lt((#[trigger] nv[a]).0, (#[trigger] nv[b]).0) by {
                    if a < j && b < j {
                        assert(nv[a] == old_v[a] && nv[b] == old_v[b]);
                    } else if a < j && b == j {
                        assert(nv[a] == old_v[a]);
                    } else if a < j && b > j {
                        assert(nv[a] == old_v[a] && nv[b] == old_v[b - 1]);
                        lemma_name_lt_transitive(old_v[a].0, kv, old_v[b - 1].0);
                    } else if a == j {
                        assert(nv[b] == old_v[b - 1]);
                    } else {
                        assert(nv[a] == old_v[a - 1] && nv[b] == old_v[b - 1]);
                    }
                }
                assert forall|k: Seq<char>| #[trigger] lookup(nv, k) == if k == kv { Some(rv) } else { lookup(old_v, k) } by {
                    lemma_lookup_sorted(old_v, k);
                    lemma_lookup_sorted(nv, k);
                    if k == kv {
                        assert(nv[j as int].0 == k);
                    } else {
                        if lookup(old_v, k) is None {
                            assert forall|i: int| 0 <= i < nv.len() implies (#[trigger] nv[i]).0 != k by {
                                if i < j {
                                    assert(nv[i] == old_v[i]);
                                } else if i > j {
                                    assert(nv[i] == old_v[i - 1]);
                                }
                            }
                        } else {
                            let i = choose|i: int| 0 <= i < old_v.len() && old_v[i].0 == k && old_v[i].1 == lookup(old_v, k)->0;
                            if i < j {
                                assert(nv[i] == old_v[i]);
                            } else {
                                assert(nv[i + 1] == old_v[i]);
                            }
                        }
                    }
                }
            }
        }
        self.vaults = vaults;
        proof {
            use_type_invariant(&*self);
        }
    }

    /// A registry built from stored entries; a key that occurs more than once keeps
    /// its last record.
    pub fn from_entries(path: Vec<u8>, entries: Vec<(String, VaultRecord)>, selected: Option<String>) -> (r: Self)
        ensures
            entries_sorted(r@.vaults),
            r@.path == path@,
            r@.selected == opt_text(selected),
            forall|k: Seq<char>| #[trigger] lookup(r@.vaults, k) == lookup(entry_views(entries@), k),
    {
        let mut reg = VaultRegistry { path, vaults: Vec::new(), selected };
        let ghost es = entry_views(entries@);
        let mut rest = entries;
        let total = rest.len();
        let mut i: usize = 0;
        while rest.len() > 0
            invariant
                i <= es.len(),
                es.len() == total,
                entry_views(rest@) == es.skip(i as int),
                entries_sorted(reg@.vaults),
                reg@.path == path@,
                reg@.selected == opt_text(selected),
                forall|k: Seq<char>| #[trigger] lookup(reg@.vaults, k) == lookup(es.take(i as int), k),
            decreases rest@.len(),
        {
            let ghost before = rest@;
            assert(entry_views(before).len() == before.len());
            assert(i < es.len());
            let e = rest.remove(0);
            assert(rest@ =~= before.subrange(1, before.len() as int));
            assert(entry_views(before)[0] == (e.0@, e.1@));
            assert forall|k: int| 0 <= k < rest@.len() implies #[trigger] entry_views(rest@)[k] == es.skip(i + 1)[k] by {
                assert(rest@[k] == before[k + 1]);
                assert(entry_views(before)[k + 1] == es.skip(i as int)[k + 1]);
            }
            assert(entry_views(rest@) =~= es.skip(i + 1));
            let ghost t = es.take(i + 1);
            assert(t.drop_last() =~= es.take(i as int));
            assert(t.last() == es[i as int]);
            assert(es[i as int] == (e.0@, e.1@));
            reg.upsert(e.0, e.1);
            i = i + 1;
        }
        assert(es.take(i as int) =~= es);
        proof {
            use_type_invariant(&reg);
        }
        reg
    }

    /// An empty registry stored at a path (the registry of a missing file).
    pub fn new(path: Vec<u8>) -> (r: Self)
        ensures
            entries_sorted(r@.vaults),
            r@.path == path@,
            r@.vaults.len() == 0,
            keys_are_names(r@.vaults),
            r@.selected is None,
    {
        VaultRegistry { path, vaults: Vec::new(), selected: None }
    }

    /// The file the registry is stored in.
    pub fn path(&self) -> (r: &[u8])
        ensures
            r@ == self@.path,
    {
        self.path.as_slice()
    }

    /// The position of a key, or where it belongs.
    fn position(&self, key: &str) -> (r: (usize, bool))
        ensures
            r.0 <= self@.vaults.len(),
            forall|i: int| 0 <= i < r.0 ==> name_lt((#[trigger] self@.vaults[i]).0, key@),
            r.1 ==> r.0 < self@.vaults.len() && self@.vaults[r.0 as int].0 == key@,
            !r.1 ==> forall|i: int| r.0 <= i < self@.vaults.len() ==> name_lt(key@, (#[trigger] self@.vaults[i]).0),
    {
        proof {
            use_type_invariant(self);
        }
        let ghost v = entry_views(self.vaults@);
        let mut i: usize = 0;
        while i < self.vaults.len()
            invariant
                i <= self.vaults@.len(),
                v == entry_views(self.vaults@),
                entries_sorted(v),
                forall|k: int| 0 <= k < i ==> name_lt((#[trigger] v[k]).0, key@),
            decreases self.vaults@.len() - i,
        {
            let k = self.vaults[i].0.as_str();
            assert(v[i as int].0 == k@);
            if same_text(k, key) {
                return (i, true);
            }
            if !text_lt(k, key) {
                proof {
                    lemma_name_lt_total(k@, key@);
                    assert forall|j: int| i <= j < v.len() implies name_lt(key@, (#[trigger] v[j]).0) by {
                        if j > i {
                            lemma_name_lt_transitive(key@, v[i as int].0, v[j].0);
                        }
                    }
                }
                return (i, false);
            }
            i = i + 1;
        }
        (i, false)
    }

    /// Register a vault root under a new, valid name; the first registered vault
    /// becomes the selection.
    pub fn insert_record(&mut self, name: &str, path: Vec<u8>) -> (r: Result<VaultRecord, Error>)
        ensures
            entries_sorted(final(self)@.vaults),
            keys_are_names(old(self)@.vaults) ==> keys_are_names(final(self)@.vaults),
            if !valid_vault_name(name@) {
                r matches Err(Error::InvalidVaultName(m)) && m@ == name@ && final(self)@ == old(self)@
            } else if lookup(old(self)@.vaults, name@) is Some {
                r matches Err(Error::Collision(p)) && p@ == old(self)@.path && final(self)@ == old(self)@
            } else {
                r matches Ok(rec)
                && rec@ == (RecordView { name: name@, path: path@ })
                && final(self)@.path == old(self)@.path
                && (exists|j: int| 0 <= j <= old(self)@.vaults.len()
                    && #[trigger] final(self)@.vaults == old(self)@.vaults.insert(j, (name@, rec@)))
                && final(self)@.selected == (match old(self)@.selected {
                    Some(s) => Some(s),
                    None => Some(name@),
                })
            },
    {
        proof {
            use_type_invariant(&*self);
            lemma_lookup_sorted(entry_views(self.vaults@), name@);
        }
        if validate_name(name).is_err() {
            return Err(Error::InvalidVaultName(name.to_owned()));
        }
        let (j, found) = self.position(name);
        if found {
            return Err(Error::Collision(self.path.clone()));
        }
        let record = VaultRecord { name: name.to_owned(), path };
        let ghost old_v = entry_views(self.vaults@);
        let entry = (name.to_owned(), clone_record(&record));
        proof {
            let nv = old_v.insert(j as int, (name@, record@));
            assert forall|a: int, b: int| 0 <= a < b < nv.len() implies name_lt((#[trigger] nv[a]).0, (#[trigger] nv[b]).0) by {
                if a < j && b < j {
                    assert(nv[a] == old_v[a] && nv[b] == old_v[b]);
                } else if a < j && b == j {
                    assert(nv[a] == old_v[a]);
                } else if a < j && b > j {
                    assert(nv[a] == old_v[a] && nv[b] == old_v[b - 1]);
                    lemma_name_lt_transitive(old_v[a].0, name@, old_v[b - 1].0);
                } else if a == j {
                    assert(nv[b] == old_v[b - 1]);
                } else {
                    assert(nv[a] == old_v[a - 1] && nv[b] == old_v[b - 1]);
                }
            }
        }
        let mut vaults: Vec<(String, VaultRecord)> = Vec::new();
        std::mem::swap(&mut vaults, &mut self.vaults);
        assert(entry_views(vaults@) == old_v);
        vaults.insert(j, entry);
        assert(entry_views(vaults@) =~= old_v.insert(j as int, (name@, record@)));
        self.vaults = vaults;
        if self.selected.is_none() {
            self.selected = Some(name.to_owned());
        }
        proof {
            use_type_invariant(&*self);
        }
        Ok(record)
    }

    /// Select a registered vault.
    pub fn select(&mut self, name: &str) -> (r: Result<(), Error>)
        ensures
            entries_sorted(final(self)@.vaults),
            if lookup(old(self)@.vaults, name@) is None {
                r matches Err(Error::UnknownVault(m)) && m@ == name@ && final(self)@ == old(self)@
            } else {
                r is Ok && final(self)@.path == old(self)@.path && final(self)@.vaults == old(self)@.vaults
                    && final(self)@.selected == Some(name@)
            },
    {
        proof {
            use_type_invariant(&*self);
            lemma_lookup_sorted(entry_views(self.vaults@), name@);
        }
        let (_, found) = self.position(name);
        if !found {
            return Err(Error::UnknownVault(name.to_owned()));
        }
        self.selected = Some(name.to_owned());
        proof {
            use_type_invariant(&*self);
        }
        Ok(())
    }

    /// The registered vaults, in name order.
    pub fn list(&self) -> (r: Vec<VaultRecord>)
        ensures
            r@.map_values(|v: VaultRecord| v@) == self@.vaults.map_values(|e: (Seq<char>, RecordView)| e.1),
            entries_sorted(self@.vaults),
            keys_are_names(self@.vaults) ==> forall|i: int, j: int|
                0 <= i < j < r@.len() ==> name_lt((#[trigger] r@[i])@.name, (#[trigger] r@[j])@.name),
    {
        proof {
            use_type_invariant(self);
        }
        let ghost target = self@.vaults.map_values(|e: (Seq<char>, RecordView)| e.1);
        let mut out: Vec<VaultRecord> = Vec::new();
        let mut i: usize = 0;
        while i < self.vaults.len()
            invariant
                i <= self.vaults@.len(),
                target == entry_views(self.vaults@).map_values(|e: (Seq<char>, RecordView)| e.1),
                out@.map_values(|v: VaultRecord| v@) == target.take(i as int),
            decreases self.vaults@.len() - i,
        {
            let rec = clone_record(&self.vaults[i].1);
            let ghost prev = out@;
            out.push(rec);
            assert(out@.map_values(|v: VaultRecord| v@) =~= prev.map_values(|v: VaultRecord| v@).push(rec@));
            assert(target.take(i + 1) =~= target.take(i as int).push(target[i as int]));
            i = i + 1;
        }
        assert(target.take(self.vaults@.len() as int) =~= target);
        proof {
            let v = self@.vaults;
            if keys_are_names(v) {
                assert forall|i: int, j: int| 0 <= i < j < out@.len() implies name_lt(
                    (#[trigger] out@[i])@.name,
                    (#[trigger] out@[j])@.name,
                ) by {
                    assert(out@.map_values(|x: VaultRecord| x@)[i] == out@[i]@);
                    assert(out@.map_values(|x: VaultRecord| x@)[j] == out@[j]@);
                    assert(out@[i]@ == v[i].1);
                    assert(out@[j]@ == v[j].1);
                    assert(v[i].0 == v[i].1.name);
                    assert(v[j].0 == v[j].1.name);
                }
            }
        }
        out
    }

    /// The registered keys with their records, in name order.
    pub fn entries(&self) -> (r: Vec<(String, VaultRecord)>)
        ensures
            entry_views(r@) == self@.vaults,
            entries_sorted(self@.vaults),
    {
        proof {
            use_type_invariant(self);
        }
        let mut out: Vec<(String, VaultRecord)> = Vec::new();
        let mut i: usize = 0;
        while i < self.vaults.len()
            invariant
                i <= self.vaults@.len(),
                entry_views(out@) == entry_views(self.vaults@).take(i as int),
            decreases self.vaults@.len() - i,
        {
            let e = (self.vaults[i].0.clone(), clone_record(&self.vaults[i].1));
            let ghost prev = out@;
            out.push(e);
            assert(entry_views(out@) =~= entry_views(prev).push((e.0@, e.1@)));
            assert(entry_views(self.vaults@).take(i + 1) =~= entry_views(self.vaults@).take(i as int).push(entry_views(self.vaults@)[i as int]));
            i = i + 1;
        }
        assert(entry_views(self.vaults@).take(self.vaults@.len() as int) =~= entry_views(self.vaults@));
        out
    }

    /// The selected vault name, if any.
    pub fn selected_name(&self) -> (r: Option<&str>)
        ensures
            match self@.selected {
                Some(s) => r matches Some(x) && x@ == s,
                None => r is None,
            },
    {
        match &self.selected {
            Some(s) => Some(s.as_str()),
            None => None,
        }
    }

    /// Resolve an explicit name, or else the selection, to its vault root.
    pub fn resolve(&self, requested: Option<&str>) -> (r: Result<Vec<u8>, Error>)
        ensures
            ({
                let name = match requested {
                    Some(n) => Some(n@),
                    None => self@.selected,
                };
                match name {
                    None => r matches Err(Error::NoVaultSelected),
                    Some(n) => match lookup(self@.vaults, n) {
                        Some(rec) => r matches Ok(p) && p@ == rec.path,
                        None => r matches Err(Error::UnknownVault(m)) && m@ == n,
                    },
                }
            }),
    {
        proof {
            use_type_invariant(self);
        }
        let name: &str = match requested {
            Some(n) => n,
            None => match &self.selected {
                Some(s) => s.as_str(),
                None => return Err(Error::NoVaultSelected),
            },
        };
        proof {
            lemma_lookup_sorted(entry_views(self.vaults@), name@);
        }
        let (i, found) = self.position(name);
        if found {
            assert(entry_views(self.vaults@)[i as int].1 == self.vaults@[i as int].1@);
            Ok(self.vaults[i].1.path.clone())
        } else {
            Err(Error::UnknownVault(name.to_owned()))
        }
    }
}


/// The records of a registry's entries, in entry order: what `list` returns.
pub open spec fn listed_records(v: Seq<(Seq<char>, RecordView)>) -> Seq<RecordView> {
    v.map_values(|e: (Seq<char>, RecordView)| e.1)
}

/// Listed records come in strictly ascending name order wherever each record is
/// registered under its own name (as `insert_record` registers it).
pub proof fn lemma_listed_names_ascending(v: Seq<(Seq<char>, RecordView)>)
    requires
        entries_sorted(v),
        forall|i: int| 0 <= i < v.len() ==> (#[trigger] v[i]).0 == v[i].1.name,
    ensures
        forall|i: int, j: int|
            0 <= i < j < v.len() ==> name_lt(
                (#[trigger] listed_records(v)[i]).name,
                (#[trigger] listed_records(v)[j]).name,
            ),
{
    assert forall|i: int, j: int| 0 <= i < j < v.len() implies name_lt(
        (#[trigger] listed_records(v)[i]).name,
        (#[trigger] listed_records(v)[j]).name,
    ) by {
        assert(v[i].0 == v[i].1.name);
        assert(v[j].0 == v[j].1.name);
    }
}

/// Law: a name just registered resolves to the record it was registered with.
/// (`insert_record` leaves the entries sorted and inserts the new entry;
/// `resolve` answers by `lookup`.)
pub proof fn lemma_registered_name_resolves(v: Seq<(Seq<char>, RecordView)>, j: int, name: Seq<char>, rec: RecordView)
    requires
        0 <= j <= v.len(),
        entries_sorted(v.insert(j, (name, rec))),
    ensures
        lookup(v.insert(j, (name, rec)), name) == Some(rec),
{
    let w = v.insert(j, (name, rec));
    lemma_lookup_sorted(w, name);
    assert(w[j].0 == name);
}

proof fn lemma_sorted_drop_last(a: Seq<(Seq<char>, RecordView)>)
    requires
        entries_sorted(a),
        a.len() > 0,
    ensures
        entries_sorted(a.drop_last()),
{
    let w = a.drop_last();
    assert forall|i: int, j: int| 0 <= i < j < w.len() implies name_lt((#[trigger] w[i]).0, (#[trigger] w[j]).0) by {
        assert(w[i] == a[i] && w[j] == a[j]);
    }
}

/// Law: a sorted registry is determined by what it looks up, so saving the
/// entries of a registry and loading them back (`entries`, then `from_entries`)
/// gives back the same registry.
pub proof fn lemma_sorted_entries_determined(a: Seq<(Seq<char>, RecordView)>, b: Seq<(Seq<char>, RecordView)>)
    requires
        entries_sorted(a),
        entries_sorted(b),
        forall|k: Seq<char>| #[trigger] lookup(a, k) == lookup(b, k),
    ensures
        a == b,
    decreases a.len() + b.len(),
{
    if a.len() == 0 && b.len() == 0 {
        assert(a =~= b);
    } else if a.len() == 0 {
        assert(lookup(b, b.last().0) is Some);
        assert(lookup(a, b.last().0) is None);
    } else if b.len() == 0 {
        assert(lookup(a, a.last().0) is Some);
        assert(lookup(b, a.last().0) is None);
    } else {
        let ka = a.last().0;
        let kb = b.last().0;
        lemma_lookup_sorted(a, ka);
        lemma_lookup_sorted(b, ka);
        lemma_lookup_sorted(a, kb);
        lemma_lookup_sorted(b, kb);
        assert(lookup(a, ka) == Some(a.last().1));
        assert(lookup(b, kb) == Some(b.last().1));
        if ka != kb {
            let ib = choose|i: int| 0 <= i < b.len() && b[i].0 == ka && b[i].1 == a.last().1;
            let ia = choose|i: int| 0 <= i < a.len() && a[i].0 == kb && a[i].1 == b.last().1;
            assert(ib < b.len() - 1);
            assert(ia < a.len() - 1);
            assert(name_lt(b[ib].0, b[b.len() - 1].0));
            assert(name_lt(a[ia].0, a[a.len() - 1].0));
            lemma_name_lt_transitive(ka, kb, ka);
        }
        assert(a.last() == b.last());
        let a2 = a.drop_last();
        let b2 = b.drop_last();
        lemma_sorted_drop_last(a);
        lemma_sorted_drop_last(b);
        assert forall|k: Seq<char>| #[trigger] lookup(a2, k) == lookup(b2, k) by {
            if k == ka {
                lemma_lookup_sorted(a2, k);
                lemma_lookup_sorted(b2, k);
                assert forall|i: int| 0 <= i < a2.len() implies (#[trigger] a2[i]).0 != k by {
                    assert(a2[i] == a[i]);
                    assert(name_lt(a[i].0, a[a.len() - 1].0));
                }
                assert forall|i: int| 0 <= i < b2.len() implies (#[trigger] b2[i]).0 != k by {
                    assert(b2[i] == b[i]);
                    assert(name_lt(b[i].0, b[b.len() - 1].0));
                }
            } else {
                assert(lookup(a, k) == lookup(a2, k));
                assert(lookup(b, k) == lookup(b2, k));
            }
        }
        lemma_sorted_entries_determined(a2, b2);
        assert(a =~= a2.push(a.last()));
        assert(b =~= b2.push(b.last()));
    }
}

} // verus!
