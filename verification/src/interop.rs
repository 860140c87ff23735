//! The deterministic model of a read-only interop snapshot: stable record and
//! link identities, Wikilink target resolution, and ordered diagnostics.

use vstd::prelude::*;
use vstd::utf8::{encode_utf8, valid_utf8, decode_utf8};
use vstd::string::StringSliceAdditionalSpecFns;
use crate::digest::{hex_digest, hex_text, sha256_of};
use crate::fingerprint::{SourceFingerprint, fingerprint_text, fingerprint_prefix};
use crate::paths::{file_name, path_file_name, bytes_equal};
use crate::text::{debug_text, debug_text_of, string_from_utf8, trim_bytes, trim_range};
use crate::frontmatter_scalar::{first_byte, copy_range};

verus! {

pub open spec fn string_bytes(s: String) -> Seq<u8> {
    encode_utf8(s@)
}

/// The namespace of a vault: `sha256:` and the digest of its root path bytes.
pub fn vault_namespace(root: &[u8]) -> (r: String)
    ensures
        r@ == fingerprint_text(root@),
{
    SourceFingerprint::of(root).0
}

pub open spec fn global_id_text(namespace: Seq<char>, path: Seq<char>) -> Seq<char> {
    "mg-vault:vault:"@ + namespace + ":note:path:"@ + path
}

/// The global identity of a note path in a vault namespace.
pub fn note_global_id(namespace: &str, path: &str) -> (r: String)
    ensures
        r@ == global_id_text(namespace@, path@),
{
    let mut id = "mg-vault:vault:".to_owned();
    id.append(namespace);
    id.append(":note:path:");
    id.append(path);
    id
}

/// The eight big-endian bytes of a number.
pub open spec fn be8(n: u64) -> Seq<u8> {
    seq![
        (n >> 56u64) as u8,
        (n >> 48u64) as u8,
        (n >> 40u64) as u8,
        (n >> 32u64) as u8,
        (n >> 24u64) as u8,
        (n >> 16u64) as u8,
        (n >> 8u64) as u8,
        n as u8,
    ]
}

/// A field preceded by its length as eight big-endian bytes.
pub open spec fn length_prefixed(f: Seq<u8>) -> Seq<u8> {
    be8(f.len() as u64) + f
}

/// The bytes that identify a Wikilink occurrence.
pub open spec fn link_identity(namespace: Seq<u8>, source: Seq<u8>, target: Seq<u8>, occurrence: u64) -> Seq<u8> {
    length_prefixed(namespace) + length_prefixed(source) + length_prefixed(target) + be8(occurrence)
}

pub open spec fn link_id_text(namespace: Seq<u8>, source: Seq<u8>, target: Seq<u8>, occurrence: u64) -> Seq<char> {
    "mg-vault:wikilink:sha256:"@ + hex_text(sha256_of(link_identity(namespace, source, target, occurrence)))
}

proof fn lemma_be8_injective(a: u64, b: u64)
    requires
        be8(a) == be8(b),
    ensures
        a == b,
{
    assert(be8(a)[0] == be8(b)[0]);
    assert(be8(a)[1] == be8(b)[1]);
    assert(be8(a)[2] == be8(b)[2]);
    assert(be8(a)[3] == be8(b)[3]);
    assert(be8(a)[4] == be8(b)[4]);
    assert(be8(a)[5] == be8(b)[5]);
    assert(be8(a)[6] == be8(b)[6]);
    assert(be8(a)[7] == be8(b)[7]);
    assert(((a >> 56u64) as u8 == (b >> 56u64) as u8 && (a >> 48u64) as u8 == (b >> 48u64) as u8
        && (a >> 40u64) as u8 == (b >> 40u64) as u8 && (a >> 32u64) as u8 == (b >> 32u64) as u8
        && (a >> 24u64) as u8 == (b >> 24u64) as u8 && (a >> 16u64) as u8 == (b >> 16u64) as u8
        && (a >> 8u64) as u8 == (b >> 8u64) as u8 && a as u8 == b as u8) ==> a == b) by (bit_vector);
}

/// Splitting a length-prefixed field off the front of a byte sequence.
proof fn lemma_length_prefixed_split(f1: Seq<u8>, r1: Seq<u8>, f2: Seq<u8>, r2: Seq<u8>)
    requires
        f1.len() <= u64::MAX,
        f2.len() <= u64::MAX,
        length_prefixed(f1) + r1 == length_prefixed(f2) + r2,
    ensures
        f1 == f2,
        r1 == r2,
{
    let a = length_prefixed(f1) + r1;
    let b = length_prefixed(f2) + r2;
    assert(a.take(8) =~= be8(f1.len() as u64));
    assert(b.take(8) =~= be8(f2.len() as u64));
    lemma_be8_injective(f1.len() as u64, f2.len() as u64);
    assert(f1 =~= a.subrange(8, 8 + f1.len() as int));
    assert(f2 =~= b.subrange(8, 8 + f2.len() as int));
    assert(r1 =~= a.skip(8 + f1.len() as int));
    assert(r2 =~= b.skip(8 + f2.len() as int));
}

/// Law: link identities are injective, so namespaces, sources and targets that
/// contain delimiter-like text cannot make two different occurrences collide.
pub proof fn lemma_link_identity_injective(
    n1: Seq<u8>, s1: Seq<u8>, t1: Seq<u8>, o1: u64,
    n2: Seq<u8>, s2: Seq<u8>, t2: Seq<u8>, o2: u64,
)
    requires
        n1.len() <= u64::MAX, s1.len() <= u64::MAX, t1.len() <= u64::MAX,
        n2.len() <= u64::MAX, s2.len() <= u64::MAX, t2.len() <= u64::MAX,
        link_identity(n1, s1, t1, o1) == link_identity(n2, s2, t2, o2),
    ensures
        n1 == n2 && s1 == s2 && t1 == t2 && o1 == o2,
{
    let a1 = length_prefixed(s1) + length_prefixed(t1) + be8(o1);
    let a2 = length_prefixed(s2) + length_prefixed(t2) + be8(o2);
    assert(link_identity(n1, s1, t1, o1) =~= length_prefixed(n1) + a1);
    assert(link_identity(n2, s2, t2, o2) =~= length_prefixed(n2) + a2);
    lemma_length_prefixed_split(n1, a1, n2, a2);
    let b1 = length_prefixed(t1) + be8(o1);
    let b2 = length_prefixed(t2) + be8(o2);
    assert(a1 =~= length_prefixed(s1) + b1);
    assert(a2 =~= length_prefixed(s2) + b2);
    lemma_length_prefixed_split(s1, b1, s2, b2);
    lemma_length_prefixed_split(t1, be8(o1), t2, be8(o2));
    lemma_be8_injective(o1, o2);
}

fn push_be8(out: &mut Vec<u8>, n: u64)
    ensures
        final(out)@ == old(out)@ + be8(n),
{
    out.push((n >> 56u64) as u8);
    out.push((n >> 48u64) as u8);
    out.push((n >> 40u64) as u8);
    out.push((n >> 32u64) as u8);
    out.push((n >> 24u64) as u8);
    out.push((n >> 16u64) as u8);
    out.push((n >> 8u64) as u8);
    out.push(n as u8);
    assert(final(out)@ =~= old(out)@ + be8(n));
}

fn push_field(out: &mut Vec<u8>, f: &[u8])
    ensures
        final(out)@ == old(out)@ + length_prefixed(f@),
{
    push_be8(out, f.len() as u64);
    let ghost start = out@;
    let mut i: usize = 0;
    while i < f.len()
        invariant
            i <= f@.len(),
            out@ == start + f@.take(i as int),
        decreases f@.len() - i,
    {
        out.push(f[i]);
        assert(f@.take(i + 1) =~= f@.take(i as int).push(f@[i as int]));
        i = i + 1;
    }
    assert(f@.take(f@.len() as int) =~= f@);
    assert(final(out)@ =~= old(out)@ + length_prefixed(f@));
}

/// The stable identity of one Wikilink occurrence.
pub fn link_id(namespace: &str, source_id: &str, target_id: &str, occurrence: usize) -> (r: String)
    ensures
        r@ == link_id_text(namespace.spec_bytes(), source_id.spec_bytes(), target_id.spec_bytes(), occurrence as u64),
{
    let mut identity: Vec<u8> = Vec::new();
    push_field(&mut identity, namespace.as_bytes());
    push_field(&mut identity, source_id.as_bytes());
    push_field(&mut identity, target_id.as_bytes());
    push_be8(&mut identity, occurrence as u64);
    assert(identity@ =~= link_identity(namespace.spec_bytes(), source_id.spec_bytes(), target_id.spec_bytes(), occurrence as u64));
    let digest = hex_digest(identity.as_slice());
    let mut id = "mg-vault:wikilink:sha256:".to_owned();
    id.append(digest.as_str());
    id
}


/// A path without a trailing `.md`.
pub open spec fn strip_md(p: Seq<u8>) -> Seq<u8> {
    if p.len() >= 3 && p[p.len() - 3] == 46u8 && p[p.len() - 2] == 109u8 && p[p.len() - 1] == 100u8 {
        p.take(p.len() - 3)
    } else {
        p
    }
}

/// The path a Wikilink target names: the text before any `#`, trimmed, without `.md`.
pub open spec fn target_key(t: Seq<u8>) -> Seq<u8> {
    let cut = match first_byte(t, 35u8, 0) {
        Some(k) => k,
        None => t.len() as int,
    };
    strip_md(trim_bytes(t.take(cut)))
}

/// The paths whose name without `.md` is the key, in order.
pub open spec fn exact_matches(paths: Seq<Seq<u8>>, key: Seq<u8>) -> Seq<Seq<u8>>
    decreases paths.len(),
{
    if paths.len() == 0 {
        Seq::empty()
    } else {
        let prev = exact_matches(paths.drop_last(), key);
        if strip_md(paths.last()) == key {
            prev.push(paths.last())
        } else {
            prev
        }
    }
}

/// The paths whose file name without `.md` is the key, in order.
pub open spec fn basename_matches(paths: Seq<Seq<u8>>, key: Seq<u8>) -> Seq<Seq<u8>>
    decreases paths.len(),
{
    if paths.len() == 0 {
        Seq::empty()
    } else {
        let prev = basename_matches(paths.drop_last(), key);
        if file_name(strip_md(paths.last())) == Some(key) {
            prev.push(paths.last())
        } else {
            prev
        }
    }
}

/// How a Wikilink target resolves against the exported paths.
#[derive(Debug)]
pub enum TargetResolution {
    Resolved(String),
    Unresolved,
    Ambiguous(Vec<String>),
}

pub enum ResolutionView {
    Resolved(Seq<u8>),
    Unresolved,
    Ambiguous(Seq<Seq<u8>>),
}

pub open spec fn strings_bytes(v: Seq<String>) -> Seq<Seq<u8>> {
    v.map_values(|s: String| string_bytes(s))
}

impl View for TargetResolution {
    type V = ResolutionView;

    open spec fn view(&self) -> ResolutionView {
        match self {
            TargetResolution::Resolved(p) => ResolutionView::Resolved(string_bytes(*p)),
            TargetResolution::Unresolved => ResolutionView::Unresolved,
            TargetResolution::Ambiguous(c) => ResolutionView::Ambiguous(strings_bytes(c@)),
        }
    }
}

/// Exact path matches first (one resolves, several are ambiguous); otherwise file
/// name matches in the same way; otherwise unresolved.
pub open spec fn resolution_spec(target: Seq<u8>, paths: Seq<Seq<u8>>) -> ResolutionView {
    let key = target_key(target);
    let exact = exact_matches(paths, key);
    let base = basename_matches(paths, key);
    if exact.len() == 1 {
        ResolutionView::Resolved(exact[0])
    } else if exact.len() > 1 {
        ResolutionView::Ambiguous(exact)
    } else if base.len() == 1 {
        ResolutionView::Resolved(base[0])
    } else if base.len() == 0 {
        ResolutionView::Unresolved
    } else {
        ResolutionView::Ambiguous(base)
    }
}

fn strip_md_len(p: &[u8]) -> (r: usize)
    ensures
        r <= p@.len(),
        p@.take(r as int) == strip_md(p@),
{
    let n = p.len();
    if n >= 3 && p[n - 3] == 46u8 && p[n - 2] == 109u8 && p[n - 1] == 100u8 {
        n - 3
    } else {
        assert(p@.take(n as int) =~= p@);
        n
    }
}

fn prefix_equals(p: &[u8], len: usize, key: &[u8]) -> (r: bool)
    requires
        len <= p@.len(),
    ensures
        r == (p@.take(len as int) == key@),
{
    if len != key.len() {
        return false;
    }
    let mut i: usize = 0;
    while i < len
        invariant
            len <= p@.len(),
            len == key@.len(),
            i <= len,
            forall|k: int| 0 <= k < i ==> p@[k] == key@[k],
        decreases len - i,
    {
        if p[i] != key[i] {
            assert(p@.take(len as int)[i as int] != key@[i as int]);
            return false;
        }
        i = i + 1;
    }
    assert(p@.take(len as int) =~= key@);
    true
}

fn clone_string(s: &String) -> (r: String)
    ensures
        r@ == s@,
{
    s.clone()
}

/// Resolve a Wikilink target against the exported paths (see `resolution_spec`).
pub fn resolve_target(target: &str, paths: &[String]) -> (r: TargetResolution)
    ensures
        r@ == resolution_spec(target.spec_bytes(), strings_bytes(paths@)),
{
    let t = target.as_bytes();
    let found = crate::frontmatter_scalar::first_byte_exec(t, 35u8, 0);
    let cut = match found {
        Some(k) => k,
        None => t.len(),
    };
    assert(t@.len() == t.len());
    let ghost expected_cut = match first_byte(t@, 35u8, 0) {
        Some(k) => k,
        None => t@.len() as int,
    };
    proof {
        match first_byte(t@, 35u8, 0) {
            Some(k) => {
                assert(0 <= k < t@.len());
                assert(found == Some(k as usize));
                assert(cut as int == k);
            },
            None => {
                assert(found is None);
                assert(cut as int == t@.len());
            },
        }
    }
    let (a, z) = trim_range(t, 0, cut);
    assert(t@.subrange(0, cut as int) =~= t@.take(cut as int));
    let trimmed = copy_range(t, a, z);
    let klen = strip_md_len(trimmed.as_slice());
    let key = copy_range(trimmed.as_slice(), 0, klen);
    assert(trimmed@ == trim_bytes(t@.take(cut as int)));
    assert(cut as int == expected_cut);
    assert(key@ =~= trimmed@.take(klen as int));
    assert(key@ =~= target_key(target.spec_bytes()));
    let ghost all = strings_bytes(paths@);
    let mut exact: Vec<String> = Vec::new();
    let mut base: Vec<String> = Vec::new();
    let mut i: usize = 0;
    while i < paths.len()
        invariant
            i <= paths@.len(),
            all == strings_bytes(paths@),
            key@ == target_key(target.spec_bytes()),
            strings_bytes(exact@) == exact_matches(all.take(i as int), key@),
            strings_bytes(base@) == basename_matches(all.take(i as int), key@),
        decreases paths@.len() - i,
    {
        let p = paths[i].as_str().as_bytes();
        assert(p@ == all[i as int]);
        assert(all.take(i + 1).drop_last() =~= all.take(i as int));
        assert(all.take(i + 1).last() == all[i as int]);
        let plen = strip_md_len(p);
        if prefix_equals(p, plen, key.as_slice()) {
            let ghost prev = strings_bytes(exact@);
            exact.push(clone_string(&paths[i]));
            assert(strings_bytes(exact@) =~= prev.push(all[i as int]));
        }
        let stem = copy_range(p, 0, plen);
        match path_file_name(stem.as_slice()) {
            Some(name) => {
                if bytes_equal(name.as_slice(), key.as_slice()) {
                    let ghost prev = strings_bytes(base@);
                    base.push(clone_string(&paths[i]));
                    assert(strings_bytes(base@) =~= prev.push(all[i as int]));
                }
            },
            None => {},
        }
        i = i + 1;
    }
    assert(all.take(paths@.len() as int) =~= all);
    if exact.len() == 1 {
        let first = exact.remove(0);
        assert(string_bytes(first) == exact_matches(all, key@)[0]);
        TargetResolution::Resolved(first)
    } else if exact.len() > 1 {
        TargetResolution::Ambiguous(exact)
    } else if base.len() == 1 {
        let first = base.remove(0);
        TargetResolution::Resolved(first)
    } else if base.len() == 0 {
        TargetResolution::Unresolved
    } else {
        TargetResolution::Ambiguous(base)
    }
}

/// Texts joined with a separator.
pub open spec fn join_texts(v: Seq<Seq<char>>, sep: Seq<char>) -> Seq<char>
    decreases v.len(),
{
    if v.len() == 0 {
        Seq::empty()
    } else if v.len() == 1 {
        v[0]
    } else {
        join_texts(v.drop_last(), sep) + sep + v.last()
    }
}

pub open spec fn string_texts(v: Seq<String>) -> Seq<Seq<char>> {
    v.map_values(|s: String| s@)
}

impl TargetResolution {
    /// The resolved path, if any.
    pub fn path(&self) -> (r: Option<&String>)
        ensures
            match self {
                TargetResolution::Resolved(p) => r == Some(p),
                _ => r is None,
            },
    {
        match self {
            TargetResolution::Resolved(p) => Some(p),
            _ => None,
        }
    }

    /// The diagnostic for a target that did not resolve.
    pub fn diagnostic(&self, target: &str) -> (r: String)
        requires
            !(self is Resolved),
        ensures
            match self {
                TargetResolution::Ambiguous(c) => r@ == "ambiguous Wikilink target "@ + debug_text_of(target@)
                    + "; candidates: "@ + join_texts(string_texts(c@), ", "@),
                _ => r@ == "unresolved Wikilink target "@ + debug_text_of(target@),
            },
    {
        match self {
            TargetResolution::Ambiguous(candidates) => {
                let mut m = "ambiguous Wikilink target ".to_owned();
                let q = debug_text(target);
                m.append(q.as_str());
                m.append("; candidates: ");
                let ghost start = m@;
                let mut i: usize = 0;
                while i < candidates.len()
                    invariant
                        i <= candidates@.len(),
                        m@ == start + join_texts(string_texts(candidates@).take(i as int), ", "@),
                    decreases candidates@.len() - i,
                {
                    let ghost prev = string_texts(candidates@).take(i as int);
                    assert(string_texts(candidates@).take(i + 1).drop_last() =~= prev);
                    assert(string_texts(candidates@).take(i + 1).last() == candidates@[i as int]@);
                    if i > 0 {
                        m.append(", ");
                    }
                    m.append(candidates[i].as_str());
                    proof {
                        if i == 0 {
                            assert(prev =~= Seq::<Seq<char>>::empty());
                        }
                    }
                    i = i + 1;
                }
                assert(string_texts(candidates@).take(candidates@.len() as int) =~= string_texts(candidates@));
                m
            },
            _ => {
                let mut m = "unresolved Wikilink target ".to_owned();
                let q = debug_text(target);
                m.append(q.as_str());
                m
            },
        }
    }
}

} // verus!
