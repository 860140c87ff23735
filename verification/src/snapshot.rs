//! The read-only interop snapshot of a vault: records in path order, Wikilink
//! occurrences with stable identities, and diagnostics in a deterministic order.
//! The directory walk and the source reads happen outside; this module decides
//! what the snapshot holds.

use vstd::prelude::*;
use vstd::utf8::{valid_utf8, decode_utf8, encode_utf8};
use crate::digest::{hex_digest, hex_text, sha256_of};
use crate::index::{rooted, IndexedNote, NoteView, IndexDiagnostic, SourceRead, project_source, read_spec,
    projected_notes, read_failures, string_views};
use crate::interop::{global_id_text, note_global_id, link_id, link_id_text, resolve_target,
    resolution_spec, ResolutionView, TargetResolution, strings_bytes, string_texts, join_texts};
use crate::paths::{bytes_le, bytes_le_exec, bytes_equal, lemma_bytes_le_total,
    lemma_bytes_le_transitive, lemma_bytes_le_antisymmetric, lemma_bytes_le_reflexive};
use crate::text::{debug_text_of, string_from_utf8, chars_of, string_from_chars, ascii_bytes, ascii_of, is_ascii_text};
use crate::frontmatter_scalar::copy_range;

verus! {

/// The interop schema a snapshot declares.
pub const INTEROP_SCHEMA: &'static str = "mg.interop/1";

/// The application that produces snapshots.
pub const PRODUCER_APP: &'static str = "mg-vault";

/// The version of the application that produces snapshots.
pub const PRODUCER_VERSION: &'static str = "0.1.0";

/// The creation time a snapshot states: no trustworthy creation time exists, so the epoch.
pub const EPOCH: &'static str = "1970-01-01T00:00:00Z";

/// One exported note.
#[derive(Clone, Debug, PartialEq, Eq)]
pub struct SnapshotRecord {
    pub global_id: String,
    pub path: String,
    pub title: String,
    pub text: String,
    pub wikilinks: Vec<String>,
    pub fingerprint: String,
}

pub struct RecordView {
    pub global_id: Seq<char>,
    pub path: Seq<char>,
    pub title: Seq<char>,
    pub text: Seq<char>,
    pub wikilinks: Seq<Seq<char>>,
    pub fingerprint: Seq<char>,
}

impl View for SnapshotRecord {
    type V = RecordView;

    open spec fn view(&self) -> RecordView {
        RecordView {
            global_id: self.global_id@,
            path: self.path@,
            title: self.title@,
            text: self.text@,
            wikilinks: string_views(self.wikilinks@),
            fingerprint: self.fingerprint@,
        }
    }
}

/// One Wikilink occurrence.
#[derive(Clone, Debug, PartialEq, Eq)]
pub struct SnapshotLink {
    pub link_id: String,
    pub occurrence: u64,
    pub source_global_id: String,
    pub target_global_id: String,
    pub resolved: bool,
}

pub struct LinkView {
    pub link_id: Seq<char>,
    pub occurrence: u64,
    pub source_global_id: Seq<char>,
    pub target_global_id: Seq<char>,
    pub resolved: bool,
}

impl View for SnapshotLink {
    type V = LinkView;

    open spec fn view(&self) -> LinkView {
        LinkView {
            link_id: self.link_id@,
            occurrence: self.occurrence,
            source_global_id: self.source_global_id@,
            target_global_id: self.target_global_id@,
            resolved: self.resolved,
        }
    }
}

/// One warning of a snapshot.
#[derive(Clone, Debug, PartialEq, Eq)]
pub struct SnapshotDiagnostic {
    pub code: String,
    pub path: String,
    pub message: String,
}

pub struct DiagnosticView {
    pub code: Seq<char>,
    pub path: Seq<char>,
    pub message: Seq<char>,
}

impl View for SnapshotDiagnostic {
    type V = DiagnosticView;

    open spec fn view(&self) -> DiagnosticView {
        DiagnosticView { code: self.code@, path: self.path@, message: self.message@ }
    }
}

/// What a snapshot holds besides its fixed envelope.
#[derive(Clone, Debug, PartialEq, Eq)]
pub struct Snapshot {
    pub vault_namespace: String,
    pub records: Vec<SnapshotRecord>,
    pub links: Vec<SnapshotLink>,
    pub degraded: bool,
    pub diagnostics: Vec<SnapshotDiagnostic>,
}

pub open spec fn record_views(v: Seq<SnapshotRecord>) -> Seq<RecordView> {
    v.map_values(|r: SnapshotRecord| r@)
}

pub open spec fn link_views(v: Seq<SnapshotLink>) -> Seq<LinkView> {
    v.map_values(|l: SnapshotLink| l@)
}

pub open spec fn snapshot_diagnostic_views(v: Seq<SnapshotDiagnostic>) -> Seq<DiagnosticView> {
    v.map_values(|d: SnapshotDiagnostic| d@)
}

/// Notes strictly ordered by path bytes (the order of their UTF-8 path strings).
pub open spec fn notes_by_path(ns: Seq<NoteView>) -> bool {
    forall|i: int, j: int| 0 <= i < j < ns.len() ==>
        bytes_le(#[trigger] ns[i].path, #[trigger] ns[j].path) && ns[i].path != ns[j].path
}

pub open spec fn paths_utf8(ns: Seq<NoteView>) -> bool {
    forall|i: int| 0 <= i < ns.len() ==> valid_utf8(#[trigger] ns[i].path)
}

/// The path strings of the exported notes, as bytes.
pub open spec fn note_paths(ns: Seq<NoteView>) -> Seq<Seq<u8>> {
    ns.map_values(|n: NoteView| n.path)
}

/// The record of a note.
pub open spec fn record_spec(namespace: Seq<char>, n: NoteView) -> RecordView {
    RecordView {
        global_id: global_id_text(namespace, decode_utf8(n.path)),
        path: decode_utf8(n.path),
        title: n.title,
        text: n.text,
        wikilinks: n.links,
        fingerprint: n.fingerprint,
    }
}

/// The path a resolved Wikilink names, or else the target text itself.
pub open spec fn target_path_text(res: ResolutionView, target: Seq<char>) -> Seq<char> {
    match res {
        ResolutionView::Resolved(p) => decode_utf8(p),
        _ => target,
    }
}

/// The `k`-th Wikilink occurrence of a note.
pub open spec fn link_spec(namespace: Seq<char>, paths: Seq<Seq<u8>>, n: NoteView, k: int) -> LinkView {
    let source = global_id_text(namespace, decode_utf8(n.path));
    let target = n.links[k];
    let res = resolution_spec(encode_utf8(target), paths);
    let target_id = global_id_text(namespace, target_path_text(res, target));
    LinkView {
        link_id: link_id_text(encode_utf8(namespace), encode_utf8(source), encode_utf8(target_id), k as u64),
        occurrence: k as u64,
        source_global_id: source,
        target_global_id: target_id,
        resolved: res is Resolved,
    }
}

/// The first `k` Wikilink occurrences of a note.
pub open spec fn note_links(namespace: Seq<char>, paths: Seq<Seq<u8>>, n: NoteView, k: int) -> Seq<LinkView>
    decreases k,
{
    if k <= 0 {
        Seq::empty()
    } else {
        note_links(namespace, paths, n, k - 1).push(link_spec(namespace, paths, n, k - 1))
    }
}

/// The Wikilink occurrences of the notes, note by note and in occurrence order.
pub open spec fn all_links(namespace: Seq<char>, paths: Seq<Seq<u8>>, ns: Seq<NoteView>) -> Seq<LinkView>
    decreases ns.len(),
{
    if ns.len() == 0 {
        Seq::empty()
    } else {
        all_links(namespace, paths, ns.drop_last()) + note_links(namespace, paths, ns.last(), ns.last().links.len() as int)
    }
}

/// The message of a Wikilink target that did not resolve to one path.
pub open spec fn resolution_message(res: ResolutionView, target: Seq<char>) -> Seq<char> {
    match res {
        ResolutionView::Ambiguous(c) => "ambiguous Wikilink target "@ + debug_text_of(target)
            + "; candidates: "@ + join_texts(c.map_values(|p: Seq<u8>| decode_utf8(p)), ", "@),
        _ => "unresolved Wikilink target "@ + debug_text_of(target),
    }
}

/// The diagnostics of the first `k` Wikilinks of a note that did not resolve.
pub open spec fn note_link_diagnostics(paths: Seq<Seq<u8>>, n: NoteView, k: int) -> Seq<(Seq<u8>, Seq<char>)>
    decreases k,
{
    if k <= 0 {
        Seq::empty()
    } else {
        let prev = note_link_diagnostics(paths, n, k - 1);
        let target = n.links[k - 1];
        let res = resolution_spec(encode_utf8(target), paths);
        if res is Resolved {
            prev
        } else {
            prev.push((n.path, resolution_message(res, target)))
        }
    }
}

pub open spec fn all_link_diagnostics(paths: Seq<Seq<u8>>, ns: Seq<NoteView>) -> Seq<(Seq<u8>, Seq<char>)>
    decreases ns.len(),
{
    if ns.len() == 0 {
        Seq::empty()
    } else {
        all_link_diagnostics(paths, ns.drop_last()) + note_link_diagnostics(paths, ns.last(), ns.last().links.len() as int)
    }
}


/// The path string of a note path, if its bytes are UTF-8.
pub fn normalized_path(path: &[u8]) -> (r: Option<String>)
    ensures
        r is Some <==> valid_utf8(path@),
        r matches Some(s) ==> s@ == decode_utf8(path@),
{
    match string_from_utf8(copy_range(path, 0, path.len())) {
        Ok(s) => {
            assert(path@.subrange(0, path@.len() as int) =~= path@);
            Some(s)
        },
        Err(_) => {
            assert(path@.subrange(0, path@.len() as int) =~= path@);
            None
        },
    }
}

pub open spec fn non_utf8_path_text() -> Seq<char> {
    "<non-UTF-8 path>"@
}

/// The path a diagnostic names: its path string, or a placeholder for bytes that are not UTF-8.
pub open spec fn diagnostic_path_text(path: Seq<u8>) -> Seq<char> {
    if valid_utf8(path) {
        decode_utf8(path)
    } else {
        non_utf8_path_text()
    }
}

/// The path a diagnostic names (see `diagnostic_path_text`).
pub fn diagnostic_path(path: &[u8]) -> (r: String)
    ensures
        r@ == diagnostic_path_text(path@),
{
    match normalized_path(path) {
        Some(s) => s,
        None => "<non-UTF-8 path>".to_owned(),
    }
}

fn clone_text(s: &String) -> (r: String)
    ensures
        r@ == s@,
{
    s.clone()
}

fn clone_texts(v: &Vec<String>) -> (r: Vec<String>)
    ensures
        string_views(r@) == string_views(v@),
{
    let mut out: Vec<String> = Vec::new();
    let mut i: usize = 0;
    while i < v.len()
        invariant
            i <= v@.len(),
            string_views(out@) == string_views(v@).take(i as int),
        decreases v@.len() - i,
    {
        let c = clone_text(&v[i]);
        let ghost prev = out@;
        out.push(c);
        assert(string_views(out@) =~= string_views(prev).push(c@));
        assert(string_views(v@).take(i + 1) =~= string_views(v@).take(i as int).push(v@[i as int]@));
        assert(string_views(out@) =~= string_views(v@).take(i + 1));
        i = i + 1;
    }
    assert(string_views(v@).take(v@.len() as int) =~= string_views(v@));
    out
}

pub open spec fn notes_of(v: Seq<IndexedNote>) -> Seq<NoteView> {
    v.map_values(|n: IndexedNote| n@)
}

/// The records of the notes, in the notes' order.
pub fn snapshot_records(namespace: &str, notes: &[IndexedNote]) -> (r: Vec<SnapshotRecord>)
    requires
        paths_utf8(notes_of(notes@)),
    ensures
        record_views(r@) == notes_of(notes@).map_values(|n: NoteView| record_spec(namespace@, n)),
{
    let ghost expected = notes_of(notes@).map_values(|n: NoteView| record_spec(namespace@, n));
    let mut out: Vec<SnapshotRecord> = Vec::new();
    let mut i: usize = 0;
    while i < notes.len()
        invariant
            i <= notes@.len(),
            paths_utf8(notes_of(notes@)),
            expected == notes_of(notes@).map_values(|n: NoteView| record_spec(namespace@, n)),
            record_views(out@) == expected.take(i as int),
        decreases notes@.len() - i,
    {
        let note = &notes[i];
        assert(notes_of(notes@)[i as int] == note@);
        let path = match normalized_path(note.path.as_slice()) {
            Some(p) => p,
            None => {
                proof {
                    assert(valid_utf8(notes_of(notes@)[i as int].path));
                }
                String::new()
            },
        };
        let record = SnapshotRecord {
            global_id: note_global_id(namespace, path.as_str()),
            path: path,
            title: clone_text(&note.title),
            text: clone_text(&note.text),
            wikilinks: clone_texts(&note.outgoing_links),
            fingerprint: note.fingerprint.to_string(),
        };
        let ghost prev = out@;
        out.push(record);
        assert(record_views(out@) =~= record_views(prev).push(record@));
        assert(expected[i as int] == record_spec(namespace@, note@));
        assert(expected.take(i + 1) =~= expected.take(i as int).push(expected[i as int]));
        assert(record_views(out@) =~= expected.take(i + 1));
        i = i + 1;
    }
    assert(expected.take(notes@.len() as int) =~= expected);
    out
}

/// Notes ordered by path bytes.
pub open spec fn notes_sorted_by_bytes(v: Seq<IndexedNote>) -> bool {
    forall|i: int, j: int| 0 <= i < j < v.len() ==> bytes_le(#[trigger] v[i].path@, #[trigger] v[j].path@)
}

/// Order notes by path bytes, as path strings compare.
pub fn order_notes(notes: Vec<IndexedNote>) -> (r: Vec<IndexedNote>)
    ensures
        notes_sorted_by_bytes(r@),
        r@.to_multiset() == notes@.to_multiset(),
        notes_of(r@).to_multiset() == notes_of(notes@).to_multiset(),
{
    broadcast use vstd::seq_lib::group_to_multiset_ensures;
    broadcast use vstd::multiset::group_multiset_axioms;

    let mut input = notes;
    let mut sorted: Vec<IndexedNote> = Vec::new();
    while input.len() > 0
        invariant
            notes_sorted_by_bytes(sorted@),
            sorted@.to_multiset().add(input@.to_multiset()) == notes@.to_multiset(),
            notes_of(sorted@).to_multiset().add(notes_of(input@).to_multiset()) == notes_of(notes@).to_multiset(),
        decreases input@.len(),
    {
        let ghost before = input@;
        let x = input.pop().unwrap();
        proof {
            assert(before =~= input@.push(x));
            assert(notes_of(before) =~= notes_of(input@).push(x@));
        }
        let mut j: usize = 0;
        while j < sorted.len() && !bytes_le_exec(x.path.as_slice(), sorted[j].path.as_slice())
            invariant
                j <= sorted@.len(),
                forall|k: int| 0 <= k < j ==> !bytes_le(x.path@, #[trigger] sorted@[k].path@),
            decreases sorted@.len() - j,
        {
            j = j + 1;
        }
        let ghost old_sorted = sorted@;
        proof {
            assert forall|k: int| 0 <= k < j implies bytes_le(#[trigger] old_sorted[k].path@, x.path@) by {
                lemma_bytes_le_total(x.path@, old_sorted[k].path@);
            }
            assert forall|k: int| j <= k < old_sorted.len() implies bytes_le(x.path@, #[trigger] old_sorted[k].path@) by {
                if k > j {
                    lemma_bytes_le_transitive(x.path@, old_sorted[j as int].path@, old_sorted[k].path@);
                }
            }
        }
        sorted.insert(j, x);
        proof {
            let ns = sorted@;
            assert(ns == old_sorted.insert(j as int, x));
            assert forall|a: int, b: int| 0 <= a < b < ns.len() implies bytes_le(#[trigger] ns[a].path@, #[trigger] ns[b].path@) by {
                if a < j && b < j {
                } else if a < j && b == j {
                } else if a < j && b > j {
                    lemma_bytes_le_transitive(ns[a].path@, x.path@, ns[b].path@);
                } else if a == j {
                } else {
                    assert(ns[a] == old_sorted[a - 1]);
                    assert(ns[b] == old_sorted[b - 1]);
                }
            }
            vstd::seq_lib::to_multiset_insert(old_sorted, j as int, x);
            vstd::seq_lib::to_multiset_build(input@, x);
            assert(sorted@.to_multiset().add(input@.to_multiset()) =~= old_sorted.to_multiset().add(before.to_multiset()));
            assert(notes_of(sorted@) =~= notes_of(old_sorted).insert(j as int, x@));
            vstd::seq_lib::to_multiset_insert(notes_of(old_sorted), j as int, x@);
            vstd::seq_lib::to_multiset_build(notes_of(input@), x@);
            assert(notes_of(sorted@).to_multiset().add(notes_of(input@).to_multiset())
                =~= notes_of(old_sorted).to_multiset().add(notes_of(before).to_multiset()));
        }
    }
    proof {
        assert(input@.to_multiset() =~= vstd::multiset::Multiset::<IndexedNote>::empty());
        assert(sorted@.to_multiset().add(input@.to_multiset()) =~= sorted@.to_multiset());
        assert(notes_of(input@) =~= Seq::<NoteView>::empty());
        assert(notes_of(input@).to_multiset() =~= vstd::multiset::Multiset::<NoteView>::empty());
        assert(notes_of(sorted@).to_multiset().add(notes_of(input@).to_multiset()) =~= notes_of(sorted@).to_multiset());
    }
    sorted
}


fn copy_bytes(b: &Vec<u8>) -> (r: Vec<u8>)
    ensures
        r@ == b@,
{
    let r = copy_range(b.as_slice(), 0, b.len());
    assert(b@.subrange(0, b@.len() as int) =~= b@);
    r
}

proof fn lemma_candidate_texts(c: Seq<String>)
    ensures
        strings_bytes(c).map_values(|p: Seq<u8>| decode_utf8(p)) == string_texts(c),
{
    broadcast use vstd::utf8::encode_utf8_decode_utf8;
    assert(strings_bytes(c).map_values(|p: Seq<u8>| decode_utf8(p)) =~= string_texts(c));
}

/// Append the Wikilink occurrences of one note, and the diagnostics of its
/// targets that did not resolve.
fn push_note_links(
    namespace: &str,
    note: &IndexedNote,
    paths: &[String],
    links: &mut Vec<SnapshotLink>,
    diags: &mut Vec<IndexDiagnostic>,
)
    requires
        valid_utf8(note.path@),
    ensures
        link_views(final(links)@) == link_views(old(links)@)
            + note_links(namespace@, strings_bytes(paths@), note@, note@.links.len() as int),
        crate::index::diagnostic_views(final(diags)@) == crate::index::diagnostic_views(old(diags)@)
            + note_link_diagnostics(strings_bytes(paths@), note@, note@.links.len() as int),
{
    broadcast use vstd::utf8::encode_utf8_decode_utf8;
    let ghost all = strings_bytes(paths@);
    let ghost lstart = link_views(links@);
    let ghost dstart = crate::index::diagnostic_views(diags@);
    let source_path = match normalized_path(note.path.as_slice()) {
        Some(p) => p,
        None => String::new(),
    };
    let source = note_global_id(namespace, source_path.as_str());
    let mut k: usize = 0;
    while k < note.outgoing_links.len()
        invariant
            k <= note.outgoing_links@.len(),
            valid_utf8(note.path@),
            all == strings_bytes(paths@),
            source@ == global_id_text(namespace@, decode_utf8(note.path@)),
            link_views(links@) == lstart + note_links(namespace@, all, note@, k as int),
            crate::index::diagnostic_views(diags@) == dstart + note_link_diagnostics(all, note@, k as int),
        decreases note.outgoing_links@.len() - k,
    {
        let target = note.outgoing_links[k].as_str();
        assert(note@.links[k as int] == target@);
        let resolution = resolve_target(target, paths);
        let ghost res = resolution@;
        let target_id = match &resolution {
            TargetResolution::Resolved(p) => {
                proof {
                    vstd::utf8::encode_utf8_decode_utf8(p@);
                }
                note_global_id(namespace, p.as_str())
            },
            _ => note_global_id(namespace, target),
        };
        assert(target_id@ == global_id_text(namespace@, target_path_text(res, target@)));
        let lid = link_id(namespace, source.as_str(), target_id.as_str(), k);
        let resolved = match &resolution {
            TargetResolution::Resolved(_) => true,
            _ => false,
        };
        let link = SnapshotLink {
            link_id: lid,
            occurrence: k as u64,
            source_global_id: clone_text(&source),
            target_global_id: target_id,
            resolved,
        };
        assert(link@ == link_spec(namespace@, all, note@, k as int));
        let ghost lprev = links@;
        links.push(link);
        assert(link_views(links@) =~= link_views(lprev).push(link@));
        assert(link_views(links@) =~= lstart + note_links(namespace@, all, note@, k + 1));
        if !resolved {
            let message = resolution.diagnostic(target);
            proof {
                match resolution {
                    TargetResolution::Ambiguous(c) => {
                        lemma_candidate_texts(c@);
                    },
                    _ => {},
                }
            }
            assert(message@ == resolution_message(res, target@));
            let d = IndexDiagnostic { path: copy_bytes(&note.path), message };
            let ghost dprev = diags@;
            diags.push(d);
            assert(crate::index::diagnostic_views(diags@) =~= crate::index::diagnostic_views(dprev).push(d@));
        }
        assert(crate::index::diagnostic_views(diags@) =~= dstart + note_link_diagnostics(all, note@, k + 1));
        k = k + 1;
    }
}

/// The Wikilink occurrences of the notes in order, and a diagnostic for each target
/// that did not resolve to exactly one of the paths.
pub fn snapshot_links(namespace: &str, notes: &[IndexedNote], paths: &[String]) -> (r: (Vec<SnapshotLink>, Vec<IndexDiagnostic>))
    requires
        paths_utf8(notes_of(notes@)),
    ensures
        link_views(r.0@) == all_links(namespace@, strings_bytes(paths@), notes_of(notes@)),
        crate::index::diagnostic_views(r.1@) == all_link_diagnostics(strings_bytes(paths@), notes_of(notes@)),
{
    let ghost all = strings_bytes(paths@);
    let mut links: Vec<SnapshotLink> = Vec::new();
    let mut diags: Vec<IndexDiagnostic> = Vec::new();
    let mut i: usize = 0;
    while i < notes.len()
        invariant
            i <= notes@.len(),
            all == strings_bytes(paths@),
            paths_utf8(notes_of(notes@)),
            link_views(links@) == all_links(namespace@, all, notes_of(notes@).take(i as int)),
            crate::index::diagnostic_views(diags@) == all_link_diagnostics(all, notes_of(notes@).take(i as int)),
        decreases notes@.len() - i,
    {
        assert(notes_of(notes@)[i as int] == notes[i as int]@);
        assert(valid_utf8(notes_of(notes@)[i as int].path));
        push_note_links(namespace, &notes[i], paths, &mut links, &mut diags);
        let ghost t = notes_of(notes@).take(i + 1);
        assert(t.drop_last() =~= notes_of(notes@).take(i as int));
        assert(t.last() == notes[i as int]@);
        i = i + 1;
    }
    assert(notes_of(notes@).take(notes@.len() as int) =~= notes_of(notes@));
    (links, diags)
}


/// The sort key of a diagnostic: the path it names, then its message.
pub open spec fn diagnostic_key(d: (Seq<u8>, Seq<char>)) -> (Seq<char>, Seq<char>) {
    (diagnostic_path_text(d.0), d.1)
}

pub open spec fn diagnostic_keys(ds: Seq<(Seq<u8>, Seq<char>)>) -> Seq<(Seq<char>, Seq<char>)> {
    ds.map_values(|d: (Seq<u8>, Seq<char>)| diagnostic_key(d))
}

/// Keys compare as strings do, by their UTF-8 bytes: first the path, then the message.
pub open spec fn key_le(a: (Seq<char>, Seq<char>), b: (Seq<char>, Seq<char>)) -> bool {
    if encode_utf8(a.0) != encode_utf8(b.0) {
        bytes_le(encode_utf8(a.0), encode_utf8(b.0))
    } else {
        bytes_le(encode_utf8(a.1), encode_utf8(b.1))
    }
}

pub open spec fn keys_sorted(ks: Seq<(Seq<char>, Seq<char>)>) -> bool {
    forall|i: int, j: int| 0 <= i < j < ks.len() ==> key_le(#[trigger] ks[i], #[trigger] ks[j])
}

proof fn lemma_key_le_total(a: (Seq<char>, Seq<char>), b: (Seq<char>, Seq<char>))
    ensures
        key_le(a, b) || key_le(b, a),
{
    lemma_bytes_le_total(encode_utf8(a.0), encode_utf8(b.0));
    lemma_bytes_le_total(encode_utf8(a.1), encode_utf8(b.1));
}

proof fn lemma_key_le_transitive(a: (Seq<char>, Seq<char>), b: (Seq<char>, Seq<char>), c: (Seq<char>, Seq<char>))
    requires
        key_le(a, b),
        key_le(b, c),
    ensures
        key_le(a, c),
{
    let (a0, b0, c0) = (encode_utf8(a.0), encode_utf8(b.0), encode_utf8(c.0));
    let (a1, b1, c1) = (encode_utf8(a.1), encode_utf8(b.1), encode_utf8(c.1));
    if a0 == b0 && b0 == c0 {
        lemma_bytes_le_transitive(a1, b1, c1);
    } else if a0 == b0 {
    } else if b0 == c0 {
    } else {
        lemma_bytes_le_transitive(a0, b0, c0);
        if a0 == c0 {
            lemma_bytes_le_antisymmetric(a0, b0);
        }
    }
}

/// The code of a diagnostic, by the start of its message.
pub open spec fn diagnostic_code(m: Seq<char>) -> Seq<char> {
    if "unresolved Wikilink"@.is_prefix_of(m) {
        "unresolved_wikilink"@
    } else if "ambiguous Wikilink"@.is_prefix_of(m) {
        "ambiguous_wikilink"@
    } else {
        "index"@
    }
}

pub open spec fn flatten_line_breaks(m: Seq<char>) -> Seq<char> {
    m.map_values(|c: char| if c == '\n' || c == '\r' { ' ' } else { c })
}

/// The snapshot entry of a sorted key: its code, its path, and its message on one line.
pub open spec fn entry_spec(k: (Seq<char>, Seq<char>)) -> DiagnosticView {
    DiagnosticView { code: diagnostic_code(k.1), path: k.0, message: flatten_line_breaks(k.1) }
}

pub open spec fn key_views(v: Seq<(String, String)>) -> Seq<(Seq<char>, Seq<char>)> {
    v.map_values(|p: (String, String)| (p.0@, p.1@))
}

fn starts_with_chars(hay: &[char], p: &[char]) -> (r: bool)
    ensures
        r == p@.is_prefix_of(hay@),
{
    if p.len() > hay.len() {
        return false;
    }
    let mut i: usize = 0;
    while i < p.len()
        invariant
            p@.len() <= hay@.len(),
            i <= p@.len(),
            forall|k: int| 0 <= k < i ==> p@[k] == hay@[k],
        decreases p@.len() - i,
    {
        if p[i] != hay[i] {
            assert(hay@.subrange(0, p@.len() as int)[i as int] != p@[i as int]);
            return false;
        }
        i = i + 1;
    }
    assert(p@ =~= hay@.subrange(0, p@.len() as int));
    true
}

fn flatten_message(m: &str) -> (r: String)
    ensures
        r@ == flatten_line_breaks(m@),
{
    let cs = chars_of(m);
    let mut out: Vec<char> = Vec::new();
    let mut i: usize = 0;
    while i < cs.len()
        invariant
            cs@ == m@,
            i <= cs@.len(),
            out@ == flatten_line_breaks(m@).take(i as int),
        decreases cs@.len() - i,
    {
        let c = cs[i];
        if c == '\n' || c == '\r' {
            out.push(' ');
        } else {
            out.push(c);
        }
        assert(out@ =~= flatten_line_breaks(m@).take(i + 1));
        i = i + 1;
    }
    assert(flatten_line_breaks(m@).take(m@.len() as int) =~= flatten_line_breaks(m@));
    string_from_chars(out.as_slice())
}

fn code_of(m: &str) -> (r: String)
    ensures
        r@ == diagnostic_code(m@),
{
    let cs = chars_of(m);
    let unresolved = chars_of("unresolved Wikilink");
    let ambiguous = chars_of("ambiguous Wikilink");
    if starts_with_chars(cs.as_slice(), unresolved.as_slice()) {
        "unresolved_wikilink".to_owned()
    } else if starts_with_chars(cs.as_slice(), ambiguous.as_slice()) {
        "ambiguous_wikilink".to_owned()
    } else {
        "index".to_owned()
    }
}

fn key_le_exec(a: &(String, String), b: &(String, String)) -> (r: bool)
    ensures
        r == key_le((a.0@, a.1@), (b.0@, b.1@)),
{
    let a0 = a.0.as_str().as_bytes();
    let b0 = b.0.as_str().as_bytes();
    if !bytes_equal(a0, b0) {
        bytes_le_exec(a0, b0)
    } else {
        bytes_le_exec(a.1.as_str().as_bytes(), b.1.as_str().as_bytes())
    }
}

fn sort_keys(keys: Vec<(String, String)>) -> (r: Vec<(String, String)>)
    ensures
        keys_sorted(key_views(r@)),
        key_views(r@).to_multiset() == key_views(keys@).to_multiset(),
{
    broadcast use vstd::seq_lib::group_to_multiset_ensures;
    broadcast use vstd::multiset::group_multiset_axioms;

    let mut input = keys;
    let mut sorted: Vec<(String, String)> = Vec::new();
    while input.len() > 0
        invariant
            keys_sorted(key_views(sorted@)),
            key_views(sorted@).to_multiset().add(key_views(input@).to_multiset()) == key_views(keys@).to_multiset(),
        decreases input@.len(),
    {
        let ghost before = input@;
        let x = input.pop().unwrap();
        let ghost xv = (x.0@, x.1@);
        proof {
            assert(before =~= input@.push(x));
            assert(key_views(before) =~= key_views(input@).push(xv));
        }
        let mut j: usize = 0;
        while j < sorted.len() && !key_le_exec(&x, &sorted[j])
            invariant
                j <= sorted@.len(),
                xv == (x.0@, x.1@),
                forall|k: int| 0 <= k < j ==> !key_le(xv, #[trigger] key_views(sorted@)[k]),
            decreases sorted@.len() - j,
        {
            j = j + 1;
        }
        let ghost old_sorted = key_views(sorted@);
        proof {
            assert forall|k: int| 0 <= k < j implies key_le(#[trigger] old_sorted[k], xv) by {
                lemma_key_le_total(xv, old_sorted[k]);
            }
            assert forall|k: int| j <= k < old_sorted.len() implies key_le(xv, #[trigger] old_sorted[k]) by {
                if k > j {
                    lemma_key_le_transitive(xv, old_sorted[j as int], old_sorted[k]);
                }
            }
        }
        let ghost old_exec = sorted@;
        sorted.insert(j, x);
        proof {
            let ns = key_views(sorted@);
            assert(sorted@ == old_exec.insert(j as int, x));
            assert(ns =~= old_sorted.insert(j as int, xv));
            assert forall|a: int, b: int| 0 <= a < b < ns.len() implies key_le(#[trigger] ns[a], #[trigger] ns[b]) by {
                if a < j && b < j {
                } else if a < j && b == j {
                } else if a < j && b > j {
                    lemma_key_le_transitive(ns[a], xv, ns[b]);
                } else if a == j {
                } else {
                    assert(ns[a] == old_sorted[a - 1]);
                    assert(ns[b] == old_sorted[b - 1]);
                }
            }
            vstd::seq_lib::to_multiset_insert(old_sorted, j as int, xv);
            vstd::seq_lib::to_multiset_build(key_views(input@), xv);
            assert(ns.to_multiset().add(key_views(input@).to_multiset()) =~= old_sorted.to_multiset().add(key_views(before).to_multiset()));
        }
    }
    proof {
        assert(key_views(input@) =~= Seq::<(Seq<char>, Seq<char>)>::empty());
        assert(key_views(input@).to_multiset() =~= vstd::multiset::Multiset::<(Seq<char>, Seq<char>)>::empty());
        assert(key_views(sorted@).to_multiset().add(key_views(input@).to_multiset()) =~= key_views(sorted@).to_multiset());
    }
    sorted
}

/// The snapshot's diagnostics: sorted by the path they name and then by message,
/// each with its code and its message on one line.
pub fn order_diagnostics(diags: &[IndexDiagnostic]) -> (r: Vec<SnapshotDiagnostic>)
    ensures
        exists|ks: Seq<(Seq<char>, Seq<char>)>|
            keys_sorted(ks)
            && ks.to_multiset() == diagnostic_keys(crate::index::diagnostic_views(diags@)).to_multiset()
            && #[trigger] snapshot_diagnostic_views(r@) == ks.map_values(|k: (Seq<char>, Seq<char>)| entry_spec(k)),
{
    let ghost target = diagnostic_keys(crate::index::diagnostic_views(diags@));
    let mut keys: Vec<(String, String)> = Vec::new();
    let mut i: usize = 0;
    while i < diags.len()
        invariant
            i <= diags@.len(),
            target == diagnostic_keys(crate::index::diagnostic_views(diags@)),
            key_views(keys@) == target.take(i as int),
        decreases diags@.len() - i,
    {
        let key = (diagnostic_path(diags[i].path.as_slice()), clone_text(&diags[i].message));
        let ghost prev = keys@;
        keys.push(key);
        assert(key_views(keys@) =~= key_views(prev).push((key.0@, key.1@)));
        assert(target.take(i + 1) =~= target.take(i as int).push(target[i as int]));
        i = i + 1;
    }
    assert(target.take(diags@.len() as int) =~= target);
    let sorted = sort_keys(keys);
    let ghost ks = key_views(sorted@);
    let mut out: Vec<SnapshotDiagnostic> = Vec::new();
    let mut j: usize = 0;
    while j < sorted.len()
        invariant
            j <= sorted@.len(),
            ks == key_views(sorted@),
            snapshot_diagnostic_views(out@) == ks.map_values(|k: (Seq<char>, Seq<char>)| entry_spec(k)).take(j as int),
        decreases sorted@.len() - j,
    {
        let entry = SnapshotDiagnostic {
            code: code_of(sorted[j].1.as_str()),
            path: clone_text(&sorted[j].0),
            message: flatten_message(sorted[j].1.as_str()),
        };
        let ghost prev = out@;
        out.push(entry);
        assert(snapshot_diagnostic_views(out@) =~= snapshot_diagnostic_views(prev).push(entry@));
        assert(ks.map_values(|k: (Seq<char>, Seq<char>)| entry_spec(k)).take(j + 1)
            =~= ks.map_values(|k: (Seq<char>, Seq<char>)| entry_spec(k)).take(j as int).push(entry_spec(ks[j as int])));
        j = j + 1;
    }
    assert(ks.map_values(|k: (Seq<char>, Seq<char>)| entry_spec(k)).take(sorted@.len() as int)
        =~= ks.map_values(|k: (Seq<char>, Seq<char>)| entry_spec(k)));
    out
}


/// What a snapshot of the notes (in the given order) and the given diagnostics holds:
/// a record per note, every Wikilink occurrence with its resolution against the
/// notes' paths, every diagnostic (those given and one per target that did not
/// resolve) sorted by path and message, and whether there is any.
pub open spec fn snapshot_spec(
    namespace: Seq<char>,
    ns: Seq<NoteView>,
    diagnostics: Seq<(Seq<u8>, Seq<char>)>,
    s: Snapshot,
) -> bool {
    let all = diagnostics + all_link_diagnostics(note_paths(ns), ns);
    &&& s.vault_namespace@ == namespace
    &&& record_views(s.records@) == ns.map_values(|n: NoteView| record_spec(namespace, n))
    &&& link_views(s.links@) == all_links(namespace, note_paths(ns), ns)
    &&& s.diagnostics@.len() == all.len()
    &&& s.degraded == (all.len() > 0)
    &&& exists|ks: Seq<(Seq<char>, Seq<char>)>|
        keys_sorted(ks)
        && ks.to_multiset() == diagnostic_keys(all).to_multiset()
        && #[trigger] snapshot_diagnostic_views(s.diagnostics@) == ks.map_values(|k: (Seq<char>, Seq<char>)| entry_spec(k))
}

/// The snapshot of notes, in their order, together with the given diagnostics.
pub fn snapshot_of(namespace: &str, notes: &[IndexedNote], diagnostics: Vec<IndexDiagnostic>) -> (r: Snapshot)
    requires
        paths_utf8(notes_of(notes@)),
    ensures
        snapshot_spec(namespace@, notes_of(notes@), crate::index::diagnostic_views(diagnostics@), r),
{
    broadcast use vstd::utf8::decode_utf8_encode_utf8;
    let ghost ns = notes_of(notes@);
    let mut paths: Vec<String> = Vec::new();
    let mut i: usize = 0;
    while i < notes.len()
        invariant
            i <= notes@.len(),
            ns == notes_of(notes@),
            paths_utf8(ns),
            strings_bytes(paths@) == note_paths(ns).take(i as int),
        decreases notes@.len() - i,
    {
        assert(ns[i as int] == notes[i as int]@);
        assert(valid_utf8(ns[i as int].path));
        let p = match normalized_path(notes[i].path.as_slice()) {
            Some(p) => p,
            None => {
                proof {
                    assert(false);
                }
                String::new()
            },
        };
        proof {
            vstd::utf8::decode_utf8_encode_utf8(ns[i as int].path);
        }
        assert(encode_utf8(p@) == ns[i as int].path);
        let ghost prev = paths@;
        paths.push(p);
        assert(strings_bytes(paths@) =~= strings_bytes(prev).push(encode_utf8(p@)));
        assert(note_paths(ns).take(i + 1) =~= note_paths(ns).take(i as int).push(ns[i as int].path));
        i = i + 1;
    }
    assert(note_paths(ns).take(notes@.len() as int) =~= note_paths(ns));
    let records = snapshot_records(namespace, notes);
    let (links, link_diags) = snapshot_links(namespace, notes, paths.as_slice());
    let mut all = diagnostics;
    let ghost base = crate::index::diagnostic_views(all@);
    let mut k: usize = 0;
    while k < link_diags.len()
        invariant
            k <= link_diags@.len(),
            crate::index::diagnostic_views(all@) == base + crate::index::diagnostic_views(link_diags@).take(k as int),
        decreases link_diags@.len() - k,
    {
        let d = IndexDiagnostic { path: copy_bytes(&link_diags[k].path), message: clone_text(&link_diags[k].message) };
        let ghost prev = all@;
        all.push(d);
        assert(crate::index::diagnostic_views(all@) =~= crate::index::diagnostic_views(prev).push(d@));
        assert(crate::index::diagnostic_views(link_diags@).take(k + 1)
            =~= crate::index::diagnostic_views(link_diags@).take(k as int).push(link_diags@[k as int]@));
        k = k + 1;
    }
    assert(crate::index::diagnostic_views(link_diags@).take(link_diags@.len() as int) =~= crate::index::diagnostic_views(link_diags@));
    let ordered = order_diagnostics(all.as_slice());
    let degraded = ordered.len() > 0;
    proof {
        let ks = choose|ks: Seq<(Seq<char>, Seq<char>)>|
            keys_sorted(ks)
            && ks.to_multiset() == diagnostic_keys(crate::index::diagnostic_views(all@)).to_multiset()
            && #[trigger] snapshot_diagnostic_views(ordered@) == ks.map_values(|k: (Seq<char>, Seq<char>)| entry_spec(k));
        assert(snapshot_diagnostic_views(ordered@).len() == ordered@.len());
        vstd::seq_lib::to_multiset_len(ks);
        vstd::seq_lib::to_multiset_len(diagnostic_keys(crate::index::diagnostic_views(all@)));
    }
    Snapshot {
        vault_namespace: namespace.to_owned(),
        records,
        links,
        degraded,
        diagnostics: ordered,
    }
}


pub open spec fn read_paths_utf8(reads: Seq<SourceRead>) -> bool {
    forall|i: int| 0 <= i < reads.len() ==> valid_utf8(#[trigger] reads[i].path@)
}

pub open spec fn views_sorted_by_bytes(ns: Seq<NoteView>) -> bool {
    forall|i: int, j: int| 0 <= i < j < ns.len() ==> bytes_le(#[trigger] ns[i].path, #[trigger] ns[j].path)
}

/// The read-only snapshot of a vault: the sources observed by the walk are
/// projected, the notes ordered by path, and the walk's diagnostics, the failed
/// reads (under their full paths) and the Wikilinks that did not resolve
/// reported (see `snapshot_spec`). The namespace is that of the vault root.
pub fn export_snapshot(root: &[u8], walk_diagnostics: Vec<IndexDiagnostic>, reads: Vec<SourceRead>) -> (r: Snapshot)
    requires
        read_paths_utf8(reads@),
    ensures
        exists|ns: Seq<NoteView>|
            ns.to_multiset() == projected_notes(reads@).to_multiset()
            && views_sorted_by_bytes(ns)
            && #[trigger] snapshot_spec(
                crate::fingerprint::fingerprint_text(root@),
                ns,
                crate::index::diagnostic_views(walk_diagnostics@) + rooted(root@, read_failures(reads@)),
                r,
            ),
{
    let namespace = crate::interop::vault_namespace(root);
    let ghost all_reads = reads@;
    let ghost walk = crate::index::diagnostic_views(walk_diagnostics@);
    let total = reads.len();
    let mut rest = reads;
    let mut notes: Vec<IndexedNote> = Vec::new();
    let mut diags = walk_diagnostics;
    let mut i: usize = 0;
    while rest.len() > 0
        invariant
            i <= all_reads.len(),
            all_reads.len() == total,
            rest@ == all_reads.skip(i as int),
            read_paths_utf8(all_reads),
            paths_utf8(notes_of(notes@)),
            notes_of(notes@) == projected_notes(all_reads.take(i as int)),
            crate::index::diagnostic_views(diags@) == walk + rooted(root@, read_failures(all_reads.take(i as int))),
        decreases rest@.len(),
    {
        let ghost t = all_reads.take(i + 1);
        assert(rest@[0] == all_reads[i as int]);
        let read = rest.remove(0);
        assert(rest@ =~= all_reads.skip(i + 1));
        assert(t.drop_last() =~= all_reads.take(i as int));
        assert(t.last() == read);
        assert(valid_utf8(read.path@));
        match project_source(read) {
            Ok(note) => {
                let ghost prev = notes@;
                notes.push(note);
                assert(notes_of(notes@) =~= notes_of(prev).push(note@));
            },
            Err(d) => {
                let full = IndexDiagnostic { path: crate::paths::join_path(root, d.path.as_slice()), message: d.message };
                let ghost prev = diags@;
                diags.push(full);
                assert(crate::index::diagnostic_views(diags@) =~= crate::index::diagnostic_views(prev).push(full@));
                assert(rooted(root@, read_failures(t)) =~= rooted(root@, read_failures(all_reads.take(i as int))).push(full@));
            },
        }
        i = i + 1;
    }
    assert(all_reads.take(i as int) =~= all_reads);
    let sorted = order_notes(notes);
    proof {
        assert forall|k: int| 0 <= k < notes_of(sorted@).len() implies valid_utf8(#[trigger] notes_of(sorted@)[k].path) by {
            broadcast use vstd::seq_lib::group_to_multiset_ensures;
            let n = notes_of(sorted@)[k];
            assert(notes_of(sorted@).to_multiset().count(n) > 0);
            assert(notes_of(notes@).contains(n));
        }
    }
    let r = snapshot_of(namespace.as_str(), sorted.as_slice(), diags);
    proof {
        assert(views_sorted_by_bytes(notes_of(sorted@)));
    }
    r
}


/// The identities of a snapshot, from the serialized bytes of its identity envelope.
#[derive(Clone, Debug, PartialEq, Eq)]
pub struct SnapshotIdentity {
    pub export_id: String,
    pub source_revision: String,
    pub canonical_hash: String,
}

/// The export id, source revision and canonical hash of a snapshot: each names the
/// SHA-256 digest of its serialized identity envelope.
pub fn snapshot_identity(identity: &[u8]) -> (r: SnapshotIdentity)
    ensures
        r.export_id@ == "mg-vault:snapshot:"@ + hex_text(sha256_of(identity@)),
        r.source_revision@ == "sha256:"@ + hex_text(sha256_of(identity@)),
        r.canonical_hash@ == "sha256:"@ + hex_text(sha256_of(identity@)),
{
    let digest = hex_digest(identity);
    let mut export_id = "mg-vault:snapshot:".to_owned();
    export_id.append(digest.as_str());
    let mut source_revision = "sha256:".to_owned();
    source_revision.append(digest.as_str());
    let mut canonical_hash = "sha256:".to_owned();
    canonical_hash.append(digest.as_str());
    SnapshotIdentity { export_id, source_revision, canonical_hash }
}

/// What a directory walk does with one entry.
#[derive(Clone, Copy, Debug, PartialEq, Eq)]
pub enum WalkEntry {
    /// A directory to walk into.
    Descend,
    /// A Markdown file to read.
    Include,
    /// An entry that is not part of the walk.
    Skip,
    /// An entry whose name is not UTF-8: reported, not exported.
    NotExportable,
}

pub open spec fn is_markdown_name(name: Seq<u8>) -> bool {
    crate::paths::name_extension(name) == Some(crate::vault::md_extension())
}

/// Directories an export never enters: internal state, Obsidian settings and private folders.
pub open spec fn export_hidden_dir(name: Seq<u8>) -> bool {
    ||| name == ascii_of(".mg-vault"@)
    ||| name == ascii_of(".obsidian"@)
    ||| name == ascii_of("private"@)
    ||| name == ascii_of(".private"@)
    ||| name == ascii_of("secrets"@)
    ||| name == ascii_of(".secrets"@)
}

/// Directories the index walk never enters.
pub open spec fn index_hidden_dir(name: Seq<u8>) -> bool {
    name == crate::vault::obsidian_dir() || name == crate::vault::vault_internal_dir()
}

pub open spec fn export_entry_spec(name: Seq<u8>, is_dir: bool, is_file: bool) -> WalkEntry {
    if !valid_utf8(name) {
        WalkEntry::NotExportable
    } else if is_dir {
        if export_hidden_dir(name) { WalkEntry::Skip } else { WalkEntry::Descend }
    } else if is_file && is_markdown_name(name) {
        WalkEntry::Include
    } else {
        WalkEntry::Skip
    }
}

pub open spec fn index_entry_spec(name: Seq<u8>, is_dir: bool, is_file: bool) -> WalkEntry {
    if is_dir {
        if index_hidden_dir(name) { WalkEntry::Skip } else { WalkEntry::Descend }
    } else if is_file && is_markdown_name(name) {
        WalkEntry::Include
    } else {
        WalkEntry::Skip
    }
}

fn is_named(name: &[u8], s: &str) -> (r: bool)
    requires
        is_ascii_text(s@),
    ensures
        r == (name@ == ascii_of(s@)),
{
    let b = ascii_bytes(s);
    bytes_equal(name, b.as_slice())
}

fn is_markdown(name: &[u8]) -> (r: bool)
    ensures
        r == is_markdown_name(name@),
{
    match crate::paths::extension_of(name) {
        Some(e) => {
            let md: [u8; 2] = [109u8, 100u8];
            let r = bytes_equal(e.as_slice(), md.as_slice());
            assert(md@ =~= crate::vault::md_extension());
            r
        },
        None => false,
    }
}

/// What the export walk does with an entry, by its name and file type.
pub fn export_entry(name: &[u8], is_dir: bool, is_file: bool) -> (r: WalkEntry)
    ensures
        r == export_entry_spec(name@, is_dir, is_file),
{
    if normalized_path(name).is_none() {
        return WalkEntry::NotExportable;
    }
    if is_dir {
        proof {
            reveal_strlit(".mg-vault");
            reveal_strlit(".obsidian");
            reveal_strlit("private");
            reveal_strlit(".private");
            reveal_strlit("secrets");
            reveal_strlit(".secrets");
        }
        if is_named(name, ".mg-vault") || is_named(name, ".obsidian") || is_named(name, "private")
            || is_named(name, ".private") || is_named(name, "secrets") || is_named(name, ".secrets") {
            WalkEntry::Skip
        } else {
            WalkEntry::Descend
        }
    } else if is_file && is_markdown(name) {
        WalkEntry::Include
    } else {
        WalkEntry::Skip
    }
}

/// What the index walk does with an entry, by its name and file type.
pub fn index_entry(name: &[u8], is_dir: bool, is_file: bool) -> (r: WalkEntry)
    ensures
        r == index_entry_spec(name@, is_dir, is_file),
{
    if is_dir {
        let obsidian: [u8; 9] = [46u8, 111u8, 98u8, 115u8, 105u8, 100u8, 105u8, 97u8, 110u8];
        let internal: [u8; 9] = [46u8, 109u8, 103u8, 45u8, 118u8, 97u8, 117u8, 108u8, 116u8];
        assert(obsidian@ =~= crate::vault::obsidian_dir());
        assert(internal@ =~= crate::vault::vault_internal_dir());
        if bytes_equal(name, obsidian.as_slice()) || bytes_equal(name, internal.as_slice()) {
            WalkEntry::Skip
        } else {
            WalkEntry::Descend
        }
    } else if is_file && is_markdown(name) {
        WalkEntry::Include
    } else {
        WalkEntry::Skip
    }
}


proof fn lemma_key_le_antisymmetric(a: (Seq<char>, Seq<char>), b: (Seq<char>, Seq<char>))
    requires
        key_le(a, b),
        key_le(b, a),
    ensures
        a == b,
{
    if encode_utf8(a.0) != encode_utf8(b.0) {
        lemma_bytes_le_antisymmetric(encode_utf8(a.0), encode_utf8(b.0));
    } else {
        lemma_bytes_le_antisymmetric(encode_utf8(a.1), encode_utf8(b.1));
        crate::text::lemma_encode_injective(a.0, b.0);
        crate::text::lemma_encode_injective(a.1, b.1);
    }
}

proof fn lemma_member_index<A>(s: Seq<A>, x: A) -> (k: int)
    requires
        s.to_multiset().count(x) > 0,
    ensures
        0 <= k < s.len(),
        s[k] == x,
{
    broadcast use vstd::seq_lib::group_to_multiset_ensures;
    assert(s.contains(x));
    choose|k: int| 0 <= k < s.len() && s[k] == x
}

/// Law: diagnostics have exactly one order. Two arrangements of the same
/// diagnostic keys that are both sorted by path and message are equal, so the
/// snapshot's diagnostics do not depend on the order in which they were found.
pub proof fn lemma_sorted_keys_unique(a: Seq<(Seq<char>, Seq<char>)>, b: Seq<(Seq<char>, Seq<char>)>)
    requires
        keys_sorted(a),
        keys_sorted(b),
        a.to_multiset() == b.to_multiset(),
    ensures
        a == b,
    decreases a.len(),
{
    broadcast use vstd::seq_lib::group_to_multiset_ensures;
    broadcast use vstd::multiset::group_multiset_axioms;
    if a.len() == 0 {
        vstd::seq_lib::to_multiset_len(a);
        vstd::seq_lib::to_multiset_len(b);
        assert(b.to_multiset().len() == 0);
        assert(b =~= a);
    } else {
        vstd::seq_lib::to_multiset_len(a);
        vstd::seq_lib::to_multiset_len(b);
        assert(b.len() == a.len());
        let kb = lemma_member_index(b, a[0]);
        let ka = lemma_member_index(a, b[0]);
        if kb > 0 {
            assert(key_le(b[0], b[kb]));
        } else {
            lemma_key_le_total(b[0], b[0]);
        }
        if ka > 0 {
            assert(key_le(a[0], a[ka]));
        } else {
            lemma_key_le_total(a[0], a[0]);
        }
        lemma_key_le_antisymmetric(a[0], b[0]);
        let a2 = a.drop_first();
        let b2 = b.drop_first();
        vstd::seq_lib::to_multiset_remove(a, 0);
        vstd::seq_lib::to_multiset_remove(b, 0);
        assert(a.remove(0) =~= a2);
        assert(b.remove(0) =~= b2);
        assert forall|i: int, j: int| 0 <= i < j < a2.len() implies key_le(#[trigger] a2[i], #[trigger] a2[j]) by {
            assert(a2[i] == a[i + 1] && a2[j] == a[j + 1]);
        }
        assert forall|i: int, j: int| 0 <= i < j < b2.len() implies key_le(#[trigger] b2[i], #[trigger] b2[j]) by {
            assert(b2[i] == b[i + 1] && b2[j] == b[j + 1]);
        }
        lemma_sorted_keys_unique(a2, b2);
        assert(a =~= seq![a[0]] + a2);
        assert(b =~= seq![b[0]] + b2);
    }
}

/// Law: notes strictly ordered by path have exactly one order. Two arrangements
/// of the same notes that are both strictly ordered by path are equal, so when
/// the walk reports each path once, the snapshot's records and links do not
/// depend on the order in which the sources were read.
pub proof fn lemma_sorted_notes_unique(a: Seq<NoteView>, b: Seq<NoteView>)
    requires
        notes_by_path(a),
        notes_by_path(b),
        a.to_multiset() == b.to_multiset(),
    ensures
        a == b,
    decreases a.len(),
{
    broadcast use vstd::seq_lib::group_to_multiset_ensures;
    broadcast use vstd::multiset::group_multiset_axioms;
    if a.len() == 0 {
        vstd::seq_lib::to_multiset_len(a);
        vstd::seq_lib::to_multiset_len(b);
        assert(b.to_multiset().len() == 0);
        assert(b =~= a);
    } else {
        vstd::seq_lib::to_multiset_len(a);
        vstd::seq_lib::to_multiset_len(b);
        assert(b.len() == a.len());
        let kb = lemma_member_index(b, a[0]);
        let ka = lemma_member_index(a, b[0]);
        if kb > 0 && ka > 0 {
            assert(bytes_le(b[0].path, b[kb].path));
            assert(bytes_le(a[0].path, a[ka].path));
            lemma_bytes_le_antisymmetric(a[0].path, b[0].path);
            assert(a[0].path != a[ka].path);
        }
        assert(a[0] == b[0]);
        let a2 = a.drop_first();
        let b2 = b.drop_first();
        vstd::seq_lib::to_multiset_remove(a, 0);
        vstd::seq_lib::to_multiset_remove(b, 0);
        assert(a.remove(0) =~= a2);
        assert(b.remove(0) =~= b2);
        assert forall|i: int, j: int| 0 <= i < j < a2.len() implies
            bytes_le(#[trigger] a2[i].path, #[trigger] a2[j].path) && a2[i].path != a2[j].path by {
            assert(a2[i] == a[i + 1] && a2[j] == a[j + 1]);
        }
        assert forall|i: int, j: int| 0 <= i < j < b2.len() implies
            bytes_le(#[trigger] b2[i].path, #[trigger] b2[j].path) && b2[i].path != b2[j].path by {
            assert(b2[i] == b[i + 1] && b2[j] == b[j + 1]);
        }
        lemma_sorted_notes_unique(a2, b2);
        assert(a =~= seq![a[0]] + a2);
        assert(b =~= seq![b[0]] + b2);
    }
}

} // verus!
