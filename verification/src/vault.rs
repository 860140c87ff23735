//! The authority rules around one vault directory: which note paths may be
//! read or mutated, confinement beneath the root, and trash identifiers.

use vstd::prelude::*;
use crate::error::Error;
use crate::fingerprint::SourceFingerprint;
use crate::paths::{segments, named, is_dot, is_dot_dot, last_dot, cur_component, components, is_absolute, is_normal_component, file_name, name_extension, path_components, views, root_component, path_file_name, extension_of, starts_with, same_path, path_starts_with, path_equal};
use crate::text::{lossy_text, lossy_text_of};
use crate::digest::hex_digit;
use vstd::string::StringSliceAdditionalSpecFns;
use vstd::utf8::{
    decode_utf8, is_char_boundary, is_char_boundary_iff_not_is_continuation_byte, is_char_boundary_start_end_of_seq, valid_utf8,
    valid_utf8_concat, valid_utf8_split,
};
use crate::fingerprint::fingerprint_text;
use crate::frontmatter_scalar::copy_range;
use crate::text::{decimal, decimal_text, string_from_utf8};
use crate::store::concat_bytes;
use vstd::utf8::encode_utf8;

verus! {

/// Exact note bytes and the fingerprint that authorizes a later replacement.
#[derive(Debug)]
pub struct Note {
    pub bytes: Vec<u8>,
    pub content: String,
    pub fingerprint: SourceFingerprint,
}

/// Handle returned by a successful trash operation.
#[derive(Debug)]
pub struct TrashReceipt {
    pub id: String,
    pub original_path: Vec<u8>,
}

/// Canonical authority boundary around one ordinary vault directory.
#[derive(Debug)]
pub struct Vault {
    root: Vec<u8>,
}

impl Vault {
    pub closed spec fn root_spec(&self) -> Seq<u8> {
        self.root@
    }

    /// A vault rooted at a canonical directory path.
    pub fn new(root: Vec<u8>) -> (r: Self)
        ensures
            r.root_spec() == root@,
    {
        Vault { root }
    }

    /// A vault at a canonical root, which must be a directory.
    pub fn open(root: Vec<u8>, is_dir: bool) -> (r: Result<Self, Error>)
        ensures
            r is Ok <==> is_dir,
            r matches Ok(v) ==> v.root_spec() == root@,
            r matches Err(e) ==> (e matches Error::UnsafePath(m) && m@ == lossy_text_of(root@) + " is not a directory"@),
    {
        if is_dir {
            Ok(Vault { root })
        } else {
            let mut m = lossy_text(root.as_slice());
            m.append(" is not a directory");
            Err(Error::UnsafePath(m))
        }
    }

    pub fn root(&self) -> (r: &[u8])
        ensures
            r@ == self.root_spec(),
    {
        self.root.as_slice()
    }
}

pub open spec fn obsidian_dir() -> Seq<u8> {
    seq![46u8, 111u8, 98u8, 115u8, 105u8, 100u8, 105u8, 97u8, 110u8]
}

pub open spec fn vault_internal_dir() -> Seq<u8> {
    seq![46u8, 109u8, 103u8, 45u8, 118u8, 97u8, 117u8, 108u8, 116u8]
}

pub open spec fn md_extension() -> Seq<u8> {
    seq![109u8, 100u8]
}

/// A relative path is a note path when it is non-empty, not absolute, made only of
/// ordinary names, and names a `.md` file; a path for mutation must also not
/// start inside `.obsidian` or `.mg-vault`.
pub open spec fn note_path_ok(p: Seq<u8>, mutation: bool) -> bool {
    let c = components(p);
    &&& p.len() > 0
    &&& !is_absolute(p)
    &&& !(mutation && c.len() > 0 && (c[0] == obsidian_dir() || c[0] == vault_internal_dir()))
    &&& forall|i: int| 0 <= i < c.len() ==> #[trigger] is_normal_component(c[i])
    &&& match file_name(p) {
        Some(n) => name_extension(n) == Some(md_extension()),
        None => false,
    }
}

proof fn lemma_segments_without_slash(p: Seq<u8>)
    requires
        forall|i: int| 0 <= i < p.len() ==> p[i] != 47u8,
    ensures
        segments(p) == seq![p],
    decreases p.len(),
{
    if p.len() > 0 {
        lemma_segments_without_slash(p.drop_last());
        assert(p.last() == p[p.len() - 1]);
        assert(p.last() != crate::paths::slash());
        let sd = segments(p.drop_last());
        assert(sd == seq![p.drop_last()]);
        assert(sd.last() == p.drop_last());
        assert(p.drop_last().push(p.last()) =~= p);
        assert(sd.update(sd.len() - 1, sd.last().push(p.last())) =~= seq![p]);
    } else {
        assert(p =~= Seq::<u8>::empty());
    }
}

/// The components of a single ordinary name (no separator, not `.`) are that name.
proof fn lemma_single_name_components(n: Seq<u8>)
    requires
        n.len() > 0,
        forall|i: int| 0 <= i < n.len() ==> n[i] != 47u8,
        !is_dot(n),
    ensures
        components(n) == seq![n],
{
    lemma_segments_without_slash(n);
    assert(seq![n].drop_last() =~= Seq::<Seq<u8>>::empty());
    assert(named(seq![n]) == named(Seq::<Seq<u8>>::empty()).push(n));
    assert(named(Seq::<Seq<u8>>::empty()).push(n) =~= seq![n]);
}

/// The bytes `.md`.
pub open spec fn md_suffix() -> Seq<u8> {
    seq![46u8, 109u8, 100u8]
}

/// Law: a name that contains no separator, followed by `.md`, is a note path, for
/// reading and for mutation, whatever other bytes the name holds (spaces
/// included).
pub proof fn lemma_plain_md_name_is_note_path(s: Seq<u8>)
    requires
        s.len() > 0,
        forall|i: int| 0 <= i < s.len() ==> s[i] != 47u8,
    ensures
        note_path_ok(s + md_suffix(), true),
        note_path_ok(s + md_suffix(), false),
{
    let n = s + md_suffix();
    assert forall|i: int| 0 <= i < n.len() implies n[i] != 47u8 by {
        if i >= s.len() {
            assert(n[i] == md_suffix()[i - s.len()]);
        }
    }
    assert(n[n.len() - 1] == 100u8);
    lemma_single_name_components(n);
    let c = components(n);
    assert(is_normal_component(c[0]));
    assert(c[0] != obsidian_dir()) by {
        if n.len() == obsidian_dir().len() {
            assert(obsidian_dir()[8] == 110u8);
        }
    }
    assert(c[0] != vault_internal_dir()) by {
        if n.len() == vault_internal_dir().len() {
            assert(vault_internal_dir()[8] == 116u8);
        }
    }
    assert(file_name(n) == Some(n));
    assert(n.drop_last() =~= s + seq![46u8, 109u8]);
    assert(n.drop_last().drop_last() =~= s + seq![46u8]);
    assert(last_dot(n.drop_last().drop_last()) == Some(s.len() as int));
    assert(last_dot(n.drop_last()) == Some(s.len() as int));
    assert(last_dot(n) == Some(s.len() as int));
    assert(n.skip(s.len() as int + 1) =~= md_extension());
}

/// Law: putting an ordinary directory name (no separator, not `.` or `..`) in
/// front of a note path gives a note path; for mutation the directory must not
/// be `.obsidian` or `.mg-vault`.
pub proof fn lemma_note_path_under_directory(d: Seq<u8>, p: Seq<u8>, mutation: bool)
    requires
        d.len() > 0,
        forall|i: int| 0 <= i < d.len() ==> d[i] != 47u8,
        !is_dot(d),
        !is_dot_dot(d),
        note_path_ok(p, false),
        !(mutation && (d == obsidian_dir() || d == vault_internal_dir())),
    ensures
        note_path_ok(d.push(47u8) + p, mutation),
{
    let q = d.push(47u8) + p;
    lemma_segments_without_slash(d);
    crate::paths::lemma_segments_concat(d, p);
    crate::paths::lemma_segments_len(p);
    let sp = segments(p);
    assert(segments(q) == seq![d] + sp);
    assert(q[0] == d[0]);
    assert(!is_absolute(q));
    assert((seq![d] + sp)[0] == d);
    if is_dot(sp[0]) {
        assert(components(p)[0] == cur_component());
        assert(!is_normal_component(components(p)[0]));
    }
    assert(components(p) == named(sp));
    crate::paths::lemma_named_concat(seq![d], sp);
    assert(named(seq![d]) =~= seq![d]) by {
        assert(seq![d].drop_last() =~= Seq::<Seq<u8>>::empty());
        assert(named(seq![d]) == named(Seq::<Seq<u8>>::empty()).push(d));
    }
    assert(components(q) == seq![d] + components(p));
    let cq = components(q);
    let cp = components(p);
    assert(cp.len() > 0);
    assert(cq.last() == cp.last());
    assert(is_normal_component(d)) by {
        if d == root_component() {
            assert(d[0] == 47u8);
        }
    }
    assert forall|i: int| 0 <= i < cq.len() implies #[trigger] is_normal_component(cq[i]) by {
        if i > 0 {
            assert(cq[i] == cp[i - 1]);
        }
    }
    assert(file_name(q) == file_name(p));
}

pub(crate) fn is_normal_exec(c: &[u8]) -> (r: bool)
    ensures
        r == is_normal_component(c@),
{
    let root = c.len() == 1 && c[0] == 47u8;
    assert(root == (c@ == root_component())) by {
        if c@.len() == 1 {
            assert(root ==> c@ =~= root_component());
        }
    }
    let dot = c.len() == 1 && c[0] == 46u8;
    let dot_dot = c.len() == 2 && c[0] == 46u8 && c[1] == 46u8;
    !root && !dot && !dot_dot
}

fn equals_literal(c: &[u8], lit: &[u8]) -> (r: bool)
    ensures
        r == (c@ == lit@),
{
    if c.len() != lit.len() {
        return false;
    }
    let mut i: usize = 0;
    while i < c.len()
        invariant
            c@.len() == lit@.len(),
            i <= c@.len(),
            forall|k: int| 0 <= k < i ==> c@[k] == lit@[k],
        decreases c@.len() - i,
    {
        if c[i] != lit[i] {
            return false;
        }
        i = i + 1;
    }
    assert(c@ =~= lit@);
    true
}

/// Check a relative note path; the accepted path is returned unchanged.
pub fn validate_note_path(path: &[u8], mutation: bool) -> (r: Result<Vec<u8>, Error>)
    ensures
        note_path_ok(path@, mutation) ==> (r matches Ok(v) && v@ == path@),
        !note_path_ok(path@, mutation) ==> (r matches Err(Error::UnsafePath(m)) && m@
            == lossy_text_of(path@)),
{
    let comps = path_components(path);
    let ghost c = views(comps@);
    let mut ok = path.len() > 0 && path[0] != 47u8;
    if ok && mutation && comps.len() > 0 {
        let obsidian: [u8; 9] = [46u8, 111u8, 98u8, 115u8, 105u8, 100u8, 105u8, 97u8, 110u8];
        let internal: [u8; 9] = [46u8, 109u8, 103u8, 45u8, 118u8, 97u8, 117u8, 108u8, 116u8];
        assert(obsidian@ =~= obsidian_dir());
        assert(internal@ =~= vault_internal_dir());
        assert(c[0] == comps@[0]@);
        if equals_literal(comps[0].as_slice(), &obsidian) || equals_literal(
            comps[0].as_slice(),
            &internal,
        ) {
            ok = false;
        }
    }
    let mut i: usize = 0;
    let mut all_normal = true;
    while i < comps.len()
        invariant
            i <= comps@.len(),
            c == views(comps@),
            all_normal == (forall|k: int| 0 <= k < i ==> #[trigger] is_normal_component(c[k])),
        decreases comps@.len() - i,
    {
        assert(c[i as int] == comps@[i as int]@);
        if !is_normal_exec(comps[i].as_slice()) {
            all_normal = false;
        }
        i = i + 1;
    }
    if ok && all_normal {
        match path_file_name(path) {
            Some(name) => {
                match extension_of(name.as_slice()) {
                    Some(ext) => {
                        if !(ext.len() == 2 && ext[0] == 109u8 && ext[1] == 100u8) {
                            ok = false;
                        } else {
                            assert(ext@ =~= md_extension());
                        }
                    },
                    None => {
                        ok = false;
                    },
                }
            },
            None => {
                ok = false;
            },
        }
    } else {
        ok = false;
    }
    if ok {
        Ok(vstd::slice::slice_to_vec(path))
    } else {
        Err(Error::UnsafePath(lossy_text(path)))
    }
}

/// Ok when the candidate lies strictly beneath the root, component by component.
pub fn ensure_beneath(root: &[u8], candidate: &[u8]) -> (r: Result<(), Error>)
    ensures
        r is Ok <==> (path_starts_with(candidate@, root@) && !path_equal(candidate@, root@)),
        r matches Err(Error::UnsafePath(m)) ==> m@ == lossy_text_of(candidate@),
        r matches Err(e) ==> e is UnsafePath,
{
    if starts_with(candidate, root) && !same_path(candidate, root) {
        Ok(())
    } else {
        Err(Error::UnsafePath(lossy_text(candidate)))
    }
}

/// `n` written as exactly `width` lowercase hexadecimal digits (most significant first).
pub open spec fn hex_fixed(n: nat, width: nat) -> Seq<char>
    decreases width,
{
    if width == 0 {
        Seq::empty()
    } else {
        hex_fixed(n / 16, (width - 1) as nat).push(hex_digit((n % 16) as int))
    }
}

/// A trash identifier: 32 hexadecimal digits of a time, `-`, 16 of a serial number.
pub open spec fn trash_id_text(nanos: nat, serial: nat) -> Seq<char> {
    hex_fixed(nanos, 32).push('-') + hex_fixed(serial, 16)
}

fn hex_char_of(n: u8) -> (c: char)
    requires
        n < 16,
    ensures
        c == hex_digit(n as int),
{
    if n < 10 {
        ((48u8 + n) as char)
    } else {
        ((87u8 + n) as char)
    }
}

proof fn lemma_hex_fixed_len(n: nat, width: nat)
    ensures
        hex_fixed(n, width).len() == width,
    decreases width,
{
    if width > 0 {
        lemma_hex_fixed_len(n / 16, (width - 1) as nat);
    }
}

fn push_hex_fixed(out: &mut Vec<char>, n: u128, width: usize)
    ensures
        final(out)@ == old(out)@ + hex_fixed(n as nat, width as nat),
    decreases width,
{
    if width > 0 {
        push_hex_fixed(out, n / 16, width - 1);
        out.push(hex_char_of((n % 16) as u8));
        assert(final(out)@ =~= old(out)@ + hex_fixed(n as nat, width as nat));
    } else {
        assert(final(out)@ =~= old(out)@ + hex_fixed(n as nat, width as nat));
    }
}

/// The trash identifier for a time in nanoseconds and a serial number.
pub fn trash_id(nanos: u128, serial: u64) -> (r: String)
    ensures
        r@ == trash_id_text(nanos as nat, serial as nat),
{
    let mut out: Vec<char> = Vec::new();
    push_hex_fixed(&mut out, nanos, 32);
    out.push('-');
    push_hex_fixed(&mut out, serial as u128, 16);
    assert(out@ =~= trash_id_text(nanos as nat, serial as nat));
    crate::text::string_from_chars(out.as_slice())
}

pub open spec fn is_hex_byte(b: u8) -> bool {
    (48u8 <= b && b <= 57u8) || (97u8 <= b && b <= 102u8) || (65u8 <= b && b <= 70u8)
}

/// A trash identifier is 49 bytes: hexadecimal digits with a `-` at position 32.
pub open spec fn trash_id_ok(b: Seq<u8>) -> bool {
    &&& b.len() == 49
    &&& b[32] == 45u8
    &&& forall|i: int| 0 <= i < 49 && i != 32 ==> #[trigger] is_hex_byte(b[i])
}

/// Check the shape of a trash identifier.
pub fn validate_trash_id(id: &str) -> (r: Result<(), Error>)
    ensures
        r is Ok <==> trash_id_ok(id.spec_bytes()),
        r matches Err(e) ==> (e matches Error::InvalidTrashEntry(m) && m@ == id@),
{
    let b = id.as_bytes();
    if b.len() != 49 || b[32] != 45u8 {
        return Err(Error::InvalidTrashEntry(id.to_owned()));
    }
    let mut i: usize = 0;
    while i < 49
        invariant
            b@.len() == 49,
            b@ == id.spec_bytes(),
            i <= 49,
            forall|k: int| 0 <= k < i && k != 32 ==> #[trigger] is_hex_byte(b@[k]),
        decreases 49 - i,
    {
        if i != 32 {
            let c = b[i];
            if !((48u8 <= c && c <= 57u8) || (97u8 <= c && c <= 102u8) || (65u8 <= c && c <= 70u8)) {
                assert(!is_hex_byte(b@[i as int]));
                return Err(Error::InvalidTrashEntry(id.to_owned()));
            }
        }
        i = i + 1;
    }
    Ok(())
}

proof fn lemma_hex_fixed_chars(n: nat, width: nat)
    ensures
        hex_fixed(n, width).len() == width,
        forall|i: int| 0 <= i < width ==> #[trigger] crate::digest::is_lower_hex_char(
            hex_fixed(n, width)[i],
        ),
    decreases width,
{
    if width > 0 {
        lemma_hex_fixed_chars(n / 16, (width - 1) as nat);
        assert(crate::digest::is_lower_hex_char(hex_digit((n % 16) as int)));
    }
}

/// Law: every identifier that `trash_id` produces passes `validate_trash_id`.
pub proof fn lemma_trash_id_valid(nanos: nat, serial: nat)
    ensures
        trash_id_ok(vstd::utf8::encode_utf8(trash_id_text(nanos, serial))),
{
    let t = trash_id_text(nanos, serial);
    lemma_hex_fixed_chars(nanos, 32);
    lemma_hex_fixed_chars(serial, 16);
    assert(t.len() == 49);
    assert(vstd::utf8::is_ascii_chars(t)) by {
        assert forall|i: int| 0 <= i < t.len() implies '\0' <= #[trigger] t[i] <= '\u{7f}' by {
            if i < 32 {
                assert(t[i] == hex_fixed(nanos, 32)[i]);
                assert(crate::digest::is_lower_hex_char(hex_fixed(nanos, 32)[i]));
            } else if i > 32 {
                assert(t[i] == hex_fixed(serial, 16)[i - 33]);
                assert(crate::digest::is_lower_hex_char(hex_fixed(serial, 16)[i - 33]));
            } else {
                assert(t[i] == '-');
            }
        }
    }
    vstd::utf8::is_ascii_chars_encode_utf8(t);
    let b = vstd::utf8::encode_utf8(t);
    assert forall|i: int| 0 <= i < 49 && i != 32 implies #[trigger] is_hex_byte(b[i]) by {
        if i < 32 {
            assert(t[i] == hex_fixed(nanos, 32)[i]);
            assert(crate::digest::is_lower_hex_char(hex_fixed(nanos, 32)[i]));
        } else {
            assert(t[i] == hex_fixed(serial, 16)[i - 33]);
            assert(crate::digest::is_lower_hex_char(hex_fixed(serial, 16)[i - 33]));
        }
        assert(b[i] == t[i] as u8);
    }
}


/// A root with components pushed onto it one by one.
pub open spec fn chain_path(root: Seq<u8>, cs: Seq<Seq<u8>>) -> Seq<u8>
    decreases cs.len(),
{
    if cs.len() == 0 {
        root
    } else {
        crate::paths::join(chain_path(root, cs.drop_last()), cs.last())
    }
}

/// The directories on the way to a note: the root with the first one, two, ...
/// components of the note's parent pushed onto it.
pub open spec fn parent_chain(root: Seq<u8>, relative: Seq<u8>) -> Seq<Seq<u8>> {
    let cs = components(relative);
    if cs.len() == 0 {
        Seq::empty()
    } else {
        Seq::new((cs.len() - 1) as nat, |i: int| chain_path(root, cs.take(i + 1)))
    }
}

/// What creating a note takes: the directories to make sure of (each a directory
/// and not a link), the destination to create without replacing anything, and
/// the fingerprint of the new bytes.
#[derive(Debug)]
pub struct NoteCreation {
    pub relative: Vec<u8>,
    pub directories: Vec<Vec<u8>>,
    pub destination: Vec<u8>,
    pub fingerprint: SourceFingerprint,
}

impl Vault {
    /// The directories below the root on the way to a validated note path.
    fn directories_to(&self, relative: &[u8]) -> (r: Vec<Vec<u8>>)
        ensures
            views(r@) == parent_chain(self.root_spec(), relative@),
    {
        let comps = path_components(relative);
        let ghost cs = components(relative@);
        assert(views(comps@) == cs);
        let mut out: Vec<Vec<u8>> = Vec::new();
        if comps.len() == 0 {
            assert(parent_chain(self.root_spec(), relative@) =~= Seq::<Seq<u8>>::empty());
            return out;
        }
        let mut current: Vec<u8> = vstd::slice::slice_to_vec(self.root.as_slice());
        let mut i: usize = 0;
        let last: usize = comps.len() - 1;
        while i < last
            invariant
                last + 1 == comps@.len(),
                comps@.len() > 0,
                i + 1 <= comps@.len(),
                cs == views(comps@),
                cs == components(relative@),
                current@ == chain_path(self.root_spec(), cs.take(i as int)),
                views(out@) == parent_chain(self.root_spec(), relative@).take(i as int),
            decreases comps@.len() - i,
        {
            assert(views(comps@)[i as int] == comps@[i as int]@);
            let next = crate::paths::join_path(current.as_slice(), comps[i].as_slice());
            assert(cs.take(i + 1).drop_last() =~= cs.take(i as int));
            assert(cs.take(i + 1).last() == cs[i as int]);
            let ghost prev = out@;
            out.push(vstd::slice::slice_to_vec(next.as_slice()));
            assert(views(out@) =~= views(prev).push(next@));
            assert(parent_chain(self.root_spec(), relative@).take(i + 1)
                =~= parent_chain(self.root_spec(), relative@).take(i as int).push(next@));
            current = next;
            i = i + 1;
        }
        assert(parent_chain(self.root_spec(), relative@).take(i as int) =~= parent_chain(self.root_spec(), relative@));
        out
    }

    /// Plan the creation of a Markdown note: the path must be a note path open to
    /// mutation; nothing existing is ever replaced.
    pub fn create_note(&self, relative: &[u8], bytes: &[u8]) -> (r: Result<NoteCreation, Error>)
        ensures
            !note_path_ok(relative@, true) ==> (r matches Err(Error::UnsafePath(m)) && m@ == lossy_text_of(relative@)),
            note_path_ok(relative@, true) ==> (r matches Ok(plan)
                && plan.relative@ == relative@
                && views(plan.directories@) == parent_chain(self.root_spec(), relative@)
                && plan.destination@ == crate::paths::join(self.root_spec(), relative@)
                && plan.fingerprint@ == crate::fingerprint::fingerprint_text(bytes@)),
    {
        let checked = validate_note_path(relative, true)?;
        let directories = self.directories_to(checked.as_slice());
        let destination = crate::paths::join_path(self.root.as_slice(), checked.as_slice());
        Ok(NoteCreation { relative: checked, directories, destination, fingerprint: SourceFingerprint::of(bytes) })
    }
}

/// A replacement is authorized only by the fingerprint of the bytes it replaces.
pub fn check_unchanged(expected: &SourceFingerprint, current: &[u8]) -> (r: Result<SourceFingerprint, Error>)
    ensures
        expected@ == crate::fingerprint::fingerprint_text(current@) ==> (r matches Ok(f) && f@ == expected@),
        expected@ != crate::fingerprint::fingerprint_text(current@) ==> (r matches Err(Error::Conflict { expected: e, actual: a })
            && e@ == expected@ && a@ == crate::fingerprint::fingerprint_text(current@)),
{
    let actual = SourceFingerprint::of(current);
    if crate::text::same_text(actual.as_str(), expected.as_str()) {
        Ok(actual)
    } else {
        Err(Error::Conflict { expected: expected.to_string(), actual: actual.to_string() })
    }
}

/// An existing note may be mutated only when it is a regular file and not a link.
pub fn check_mutation_target(relative: &[u8], is_symlink: bool, is_file: bool) -> (r: Result<(), Error>)
    ensures
        r is Ok <==> !is_symlink && is_file,
        r matches Err(e) ==> (e matches Error::UnsafePath(m) && m@ == lossy_text_of(relative@)),
{
    if is_symlink || !is_file {
        Err(Error::UnsafePath(lossy_text(relative)))
    } else {
        Ok(())
    }
}

/// The name of the temporary file beside a destination named `name`: `.`, the
/// name, `.mg-vault-`, the process id, `-`, a serial number and `.tmp`. The
/// destination must have a name, and it must be UTF-8.
pub fn temp_name(name: Option<&[u8]>, pid: u32, serial: u64) -> (r: Result<Vec<u8>, Error>)
    ensures
        r is Ok <==> (name matches Some(n) && valid_utf8(n@)),
        r matches Ok(t) ==> t@ == seq![46u8] + name.unwrap()@ + encode_utf8(".mg-vault-"@ + decimal_text(
            pid as nat,
        ) + "-"@ + decimal_text(serial as nat) + ".tmp"@),
        r matches Err(e) ==> (e matches Error::UnsafePath(m) && m@ == "destination filename is invalid UTF-8"@),
{
    let name = match name {
        Some(n) => n,
        None => {
            return Err(Error::UnsafePath("destination filename is invalid UTF-8".to_owned()));
        },
    };
    if string_from_utf8(vstd::slice::slice_to_vec(name)).is_err() {
        return Err(Error::UnsafePath("destination filename is invalid UTF-8".to_owned()));
    }
    let mut suffix = ".mg-vault-".to_owned();
    let a = decimal(pid as u64);
    suffix.append(a.as_str());
    suffix.append("-");
    let b = decimal(serial);
    suffix.append(b.as_str());
    suffix.append(".tmp");
    let mut dot: Vec<u8> = Vec::new();
    dot.push(46u8);
    let head = concat_bytes(dot.as_slice(), name);
    proof {
        assert(dot@ =~= seq![46u8]);
    }
    Ok(concat_bytes(head.as_slice(), suffix.as_str().as_bytes()))
}

/// A directory on the way to a new note must be a real directory, not a link.
pub fn check_directory_step(directory: &[u8], is_symlink: bool, is_dir: bool) -> (r: Result<(), Error>)
    ensures
        r is Ok <==> !is_symlink && is_dir,
        r matches Err(e) ==> (e matches Error::UnsafePath(m) && m@ == lossy_text_of(directory@)),
{
    if is_symlink || !is_dir {
        Err(Error::UnsafePath(lossy_text(directory)))
    } else {
        Ok(())
    }
}

/// A note is read only from a regular file.
pub fn check_note_file(relative: &[u8], is_file: bool) -> (r: Result<(), Error>)
    ensures
        r is Ok <==> is_file,
        r matches Err(e) ==> (e matches Error::UnsafePath(m) && m@ == lossy_text_of(relative@) + " is not a file"@),
{
    if is_file {
        Ok(())
    } else {
        let mut m = lossy_text(relative);
        m.append(" is not a file");
        Err(Error::UnsafePath(m))
    }
}

/// The note held by exact bytes: they must be UTF-8, and their fingerprint
/// authorizes a later replacement.
pub fn note_of_bytes(relative: &[u8], bytes: Vec<u8>) -> (r: Result<Note, Error>)
    ensures
        r is Ok <==> valid_utf8(bytes@),
        r matches Ok(n) ==> n.bytes@ == bytes@ && n.content@ == decode_utf8(bytes@) && n.fingerprint@
            == fingerprint_text(bytes@),
        r matches Err(e) ==> (e matches Error::InvalidUtf8(p) && p@ == relative@),
{
    let copy = vstd::slice::slice_to_vec(bytes.as_slice());
    match string_from_utf8(copy) {
        Ok(content) => {
            let fingerprint = SourceFingerprint::of(bytes.as_slice());
            Ok(Note { bytes, content, fingerprint })
        },
        Err(_) => Err(Error::InvalidUtf8(vstd::slice::slice_to_vec(relative))),
    }
}

/// The trash of a vault: `.mg-vault/trash` below the root.
pub open spec fn trash_dir(root: Seq<u8>) -> Seq<u8> {
    crate::paths::join(root, crate::text::ascii_of(".mg-vault/trash"@))
}

/// Where a trashed note and its entry are kept: `files/<id>` and `entries/<id>.json`
/// in the trash.
pub open spec fn trash_locations(root: Seq<u8>, id: Seq<u8>) -> (Seq<u8>, Seq<u8>) {
    let files = crate::paths::join(trash_dir(root), crate::text::ascii_of("files"@));
    let entries = crate::paths::join(trash_dir(root), crate::text::ascii_of("entries"@));
    (crate::paths::join(files, id), crate::paths::join(entries, id + crate::text::ascii_of(".json"@)))
}

impl Vault {
    /// The payload and entry paths of a trash identifier.
    pub fn trash_paths(&self, id: &str) -> (r: (Vec<u8>, Vec<u8>))
        ensures
            r.0@ == trash_locations(self.root_spec(), id.spec_bytes()).0,
            r.1@ == trash_locations(self.root_spec(), id.spec_bytes()).1,
    {
        proof {
            reveal_strlit(".mg-vault/trash");
            reveal_strlit("files");
            reveal_strlit("entries");
            reveal_strlit(".json");
        }
        let trash_rel = crate::text::ascii_bytes(".mg-vault/trash");
        let trash = crate::paths::join_path(self.root.as_slice(), trash_rel.as_slice());
        let files_rel = crate::text::ascii_bytes("files");
        let entries_rel = crate::text::ascii_bytes("entries");
        let files = crate::paths::join_path(trash.as_slice(), files_rel.as_slice());
        let entries = crate::paths::join_path(trash.as_slice(), entries_rel.as_slice());
        let payload = crate::paths::join_path(files.as_slice(), id.as_bytes());
        let mut entry_name = vstd::slice::slice_to_vec(id.as_bytes());
        let json = crate::text::ascii_bytes(".json");
        let mut k: usize = 0;
        let ghost start = entry_name@;
        while k < json.len()
            invariant
                k <= json@.len(),
                entry_name@ == start + json@.take(k as int),
            decreases json@.len() - k,
        {
            entry_name.push(json[k]);
            assert(json@.take(k + 1) =~= json@.take(k as int).push(json@[k as int]));
            k = k + 1;
        }
        assert(json@.take(json@.len() as int) =~= json@);
        let entry = crate::paths::join_path(entries.as_slice(), entry_name.as_slice());
        (payload, entry)
    }
}

/// What a trash entry restores: only version 1 entries are understood, and the
/// original path must still be a note path open to mutation.
pub fn restore_target(id: &str, version: u8, original_path: &[u8]) -> (r: Result<Vec<u8>, Error>)
    ensures
        version != 1 ==> (r matches Err(Error::InvalidTrashEntry(m)) && m@ == id@),
        version == 1 && !note_path_ok(original_path@, true) ==> (r matches Err(Error::UnsafePath(m))
            && m@ == lossy_text_of(original_path@)),
        version == 1 && note_path_ok(original_path@, true) ==> (r matches Ok(p) && p@ == original_path@),
{
    if version != 1 {
        return Err(Error::InvalidTrashEntry(id.to_owned()));
    }
    validate_note_path(original_path, true)
}


/// Law: a note path that the vault rules accept stays strictly beneath the vault
/// root once joined onto it, so validated paths cannot escape the vault by
/// traversal or absolute names.
pub proof fn lemma_note_path_confined(root: Seq<u8>, rel: Seq<u8>, mutation: bool)
    requires
        is_absolute(root),
        note_path_ok(rel, mutation),
    ensures
        path_starts_with(crate::paths::join(root, rel), root),
        !path_equal(crate::paths::join(root, rel), root),
{
    crate::paths::lemma_segments_len(rel);
    let c = components(rel);
    if crate::paths::is_dot(crate::paths::segments(rel)[0]) {
        assert(c[0] == crate::paths::cur_component());
        assert(!is_normal_component(c[0]));
    }
    crate::paths::lemma_join_components(root, rel);
    let a = components(crate::paths::join(root, rel));
    let b = components(root);
    assert(a.take(b.len() as int) =~= b);
    assert(file_name(rel) is Some);
    assert(c.len() > 0);
}


/// The bytes of a note after the span `start..end` is replaced.
pub open spec fn spliced(current: Seq<u8>, start: int, end: int, replacement: Seq<u8>) -> Seq<u8> {
    current.subrange(0, start) + replacement + current.subrange(end, current.len() as int)
}

/// Whether `start..end` lies within UTF-8 bytes and begins and ends on character boundaries.
pub open spec fn span_on_boundaries(current: Seq<u8>, start: int, end: int) -> bool {
    &&& 0 <= start <= end <= current.len()
    &&& is_char_boundary(current, start)
    &&& is_char_boundary(current, end)
}

fn on_char_boundary(b: &[u8], i: usize) -> (r: bool)
    requires
        valid_utf8(b@),
        i <= b@.len(),
    ensures
        r == is_char_boundary(b@, i as int),
{
    proof {
        is_char_boundary_start_end_of_seq(b@);
    }
    if i == b.len() {
        true
    } else {
        proof {
            is_char_boundary_iff_not_is_continuation_byte(b@, i as int);
        }
        !(0x80u8 <= b[i] && b[i] <= 0xbfu8)
    }
}

/// Replacing whole characters of UTF-8 bytes with UTF-8 bytes gives UTF-8 bytes,
/// and every byte before and after the span is kept in place.
pub proof fn lemma_splice_keeps_utf8(current: Seq<u8>, start: int, end: int, replacement: Seq<u8>)
    requires
        valid_utf8(current),
        span_on_boundaries(current, start, end),
        valid_utf8(replacement),
    ensures
        valid_utf8(spliced(current, start, end, replacement)),
        spliced(current, start, end, replacement).subrange(0, start) == current.subrange(0, start),
        spliced(current, start, end, replacement).subrange(start + replacement.len(), start + replacement.len()
            + current.len() - end) == current.subrange(end, current.len() as int),
{
    let head = current.subrange(0, start);
    let tail = current.subrange(end, current.len() as int);
    valid_utf8_split(current, start);
    valid_utf8_split(current, end);
    valid_utf8_concat(head, replacement);
    valid_utf8_concat(head + replacement, tail);
    let r = spliced(current, start, end, replacement);
    assert(r.subrange(0, start) =~= head);
    assert(r.subrange(start + replacement.len(), start + replacement.len() + current.len() - end) =~= tail);
}

/// A narrow edit of a note: replace the bytes `start..end` of its current bytes.
/// It is authorized only by the fingerprint of the current bytes; both the current
/// bytes and the replacement must be UTF-8, and the span must select whole
/// characters. The checks come in that order; on success the result is the
/// edited bytes and their fingerprint, and nothing outside the span changes.
pub fn edit_span(
    relative: &[u8],
    current: &[u8],
    start: usize,
    end: usize,
    replacement: &[u8],
    expected: &SourceFingerprint,
) -> (r: Result<(Vec<u8>, SourceFingerprint), Error>)
    ensures
        expected@ != fingerprint_text(current@) ==> match r {
            Err(Error::Conflict { expected: e, actual: a }) => e@ == expected@ && a@ == fingerprint_text(current@),
            _ => false,
        },
        expected@ == fingerprint_text(current@) && !valid_utf8(current@) ==> match r {
            Err(Error::InvalidUtf8(p)) => p@ == relative@,
            _ => false,
        },
        expected@ == fingerprint_text(current@) && valid_utf8(current@) && !span_on_boundaries(current@, start as int,
            end as int) ==> r == Err::<(Vec<u8>, SourceFingerprint), Error>(
            Error::InvalidEditSpan { start, end, length: current@.len() as usize },
        ),
        expected@ == fingerprint_text(current@) && valid_utf8(current@) && span_on_boundaries(current@, start as int,
            end as int) && !valid_utf8(replacement@) ==> match r {
            Err(Error::InvalidUtf8(p)) => p@ == relative@,
            _ => false,
        },
        expected@ == fingerprint_text(current@) && valid_utf8(current@) && span_on_boundaries(current@, start as int,
            end as int) && valid_utf8(replacement@) ==> match r {
            Ok((bytes, f)) => bytes@ == spliced(current@, start as int, end as int, replacement@)
                && f@ == fingerprint_text(bytes@) && valid_utf8(bytes@),
            _ => false,
        },
{
    match check_unchanged(expected, current) {
        Err(e) => {
            return Err(e);
        },
        Ok(_) => {},
    }
    if string_from_utf8(vstd::slice::slice_to_vec(current)).is_err() {
        return Err(Error::InvalidUtf8(vstd::slice::slice_to_vec(relative)));
    }
    if !(start <= end && end <= current.len()) || !on_char_boundary(current, start) || !on_char_boundary(
        current,
        end,
    ) {
        return Err(Error::InvalidEditSpan { start, end, length: current.len() });
    }
    if string_from_utf8(vstd::slice::slice_to_vec(replacement)).is_err() {
        return Err(Error::InvalidUtf8(vstd::slice::slice_to_vec(relative)));
    }
    let mut bytes = copy_range(current, 0, start);
    let mut middle = vstd::slice::slice_to_vec(replacement);
    let mut tail = copy_range(current, end, current.len());
    bytes.append(&mut middle);
    bytes.append(&mut tail);
    proof {
        lemma_splice_keeps_utf8(current@, start as int, end as int, replacement@);
        assert(bytes@ =~= spliced(current@, start as int, end as int, replacement@));
    }
    let fingerprint = SourceFingerprint::of(bytes.as_slice());
    Ok((bytes, fingerprint))
}

} // verus!
