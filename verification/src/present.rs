//! What the command line shows: escaped paths and messages, machine-readable
//! paths, error codes, and the index status report with its human form.

use vstd::prelude::*;
use vstd::utf8::{valid_utf8, decode_utf8};
use crate::digest::{hex_digit, hex_text, hex_string};
use crate::error::Error;
use crate::index::{IndexStatus, MarkdownIndex, IndexDiagnostic, diagnostic_views};
use crate::store::{Diagnostic, Freshness, IndexMetadata, freshness_text, diag_views};
use crate::text::{chars_of, string_from_chars, decimal, decimal_text, debug_text, debug_text_of};

verus! {

/// Lowercase hexadecimal digits of a number, without leading zeros.
pub open spec fn hex_min(n: nat) -> Seq<char>
    decreases n,
{
    if n < 16 {
        seq![hex_digit(n as int)]
    } else {
        hex_min(n / 16).push(hex_digit((n % 16) as int))
    }
}

/// `char::escape_default`: tab, carriage return and line feed as `\t`, `\r`,
/// `\n`; backslash and quotes behind a backslash; other printable ASCII as it
/// is; everything else as `\u{..}` with lowercase hexadecimal digits.
pub open spec fn escape_char(c: char) -> Seq<char> {
    if c == '\t' {
        seq!['\\', 't']
    } else if c == '\r' {
        seq!['\\', 'r']
    } else if c == '\n' {
        seq!['\\', 'n']
    } else if c == '\\' || c == '\'' || c == '"' {
        seq!['\\', c]
    } else if ' ' <= c && c <= '~' {
        seq![c]
    } else {
        seq!['\\', 'u', '{'] + hex_min(c as nat) + seq!['}']
    }
}

/// Every character escaped.
pub open spec fn escape_all(s: Seq<char>) -> Seq<char>
    decreases s.len(),
{
    if s.len() == 0 {
        Seq::empty()
    } else {
        escape_all(s.drop_last()) + escape_char(s.last())
    }
}

/// `char::is_control`: the C0 and C1 control characters and DEL.
pub open spec fn is_control(c: char) -> bool {
    (c as u32) < 0x20 || (0x7f <= (c as u32) && (c as u32) < 0xa0)
}

/// Control characters escaped, everything else kept.
pub open spec fn escape_controls(s: Seq<char>) -> Seq<char>
    decreases s.len(),
{
    if s.len() == 0 {
        Seq::empty()
    } else {
        escape_controls(s.drop_last()) + if is_control(s.last()) {
            escape_char(s.last())
        } else {
            seq![s.last()]
        }
    }
}

/// A byte of a path that is not UTF-8: backslash doubled, printable ASCII kept,
/// other bytes as `\x..`.
pub open spec fn escape_byte(b: u8) -> Seq<char> {
    if b == 92u8 {
        seq!['\\', '\\']
    } else if 0x20u8 <= b && b <= 0x7eu8 {
        seq![b as char]
    } else {
        seq!['\\', 'x', hex_digit(b as int / 16), hex_digit(b as int % 16)]
    }
}

pub open spec fn escape_bytes(b: Seq<u8>) -> Seq<char>
    decreases b.len(),
{
    if b.len() == 0 {
        Seq::empty()
    } else {
        escape_bytes(b.drop_last()) + escape_byte(b.last())
    }
}

/// How a path is shown to a person: a UTF-8 path with every character escaped,
/// other bytes escaped one by one.
pub open spec fn escape_path_text(path: Seq<u8>) -> Seq<char> {
    if valid_utf8(path) {
        escape_all(decode_utf8(path))
    } else {
        escape_bytes(path)
    }
}

fn push_hex_min(out: &mut Vec<char>, n: u32)
    ensures
        final(out)@ == old(out)@ + hex_min(n as nat),
    decreases n,
{
    if n >= 16 {
        push_hex_min(out, n / 16);
    }
    let d = n % 16;
    let c = if d < 10 { ((48 + d) as u8) as char } else { ((87 + d) as u8) as char };
    assert(c == hex_digit(d as int));
    out.push(c);
}

fn push_escape(out: &mut Vec<char>, c: char)
    ensures
        final(out)@ == old(out)@ + escape_char(c),
{
    let ghost start = out@;
    if c == '\t' {
        out.push('\\');
        out.push('t');
    } else if c == '\r' {
        out.push('\\');
        out.push('r');
    } else if c == '\n' {
        out.push('\\');
        out.push('n');
    } else if c == '\\' || c == '\'' || c == '"' {
        out.push('\\');
        out.push(c);
    } else if ' ' <= c && c <= '~' {
        out.push(c);
    } else {
        out.push('\\');
        out.push('u');
        out.push('{');
        push_hex_min(out, c as u32);
        out.push('}');
    }
    assert(out@ =~= start + escape_char(c));
}

/// Every character of a text escaped (`char::escape_default`).
pub fn escape_text(s: &str) -> (r: String)
    ensures
        r@ == escape_all(s@),
{
    let cs = chars_of(s);
    let mut out: Vec<char> = Vec::new();
    let mut i: usize = 0;
    while i < cs.len()
        invariant
            cs@ == s@,
            i <= cs@.len(),
            out@ == escape_all(s@.take(i as int)),
        decreases cs@.len() - i,
    {
        assert(s@.take(i + 1).drop_last() =~= s@.take(i as int));
        push_escape(&mut out, cs[i]);
        i = i + 1;
    }
    assert(s@.take(s@.len() as int) =~= s@);
    string_from_chars(out.as_slice())
}

/// A message with its control characters escaped, so that it stays on one line.
pub fn escape_diagnostic(message: &str) -> (r: String)
    ensures
        r@ == escape_controls(message@),
{
    let cs = chars_of(message);
    let mut out: Vec<char> = Vec::new();
    let mut i: usize = 0;
    while i < cs.len()
        invariant
            cs@ == message@,
            i <= cs@.len(),
            out@ == escape_controls(message@.take(i as int)),
        decreases cs@.len() - i,
    {
        assert(message@.take(i + 1).drop_last() =~= message@.take(i as int));
        let c = cs[i];
        let u = c as u32;
        if u < 0x20 || (0x7f <= u && u < 0xa0) {
            push_escape(&mut out, c);
        } else {
            let ghost prev = out@;
            out.push(c);
            assert(out@ =~= prev + seq![c]);
        }
        i = i + 1;
    }
    assert(message@.take(message@.len() as int) =~= message@);
    string_from_chars(out.as_slice())
}

fn escape_byte_seq(path: &[u8]) -> (r: String)
    ensures
        r@ == escape_bytes(path@),
{
    let mut out: Vec<char> = Vec::new();
    let mut i: usize = 0;
    while i < path.len()
        invariant
            i <= path@.len(),
            out@ == escape_bytes(path@.take(i as int)),
        decreases path@.len() - i,
    {
        assert(path@.take(i + 1).drop_last() =~= path@.take(i as int));
        let b = path[i];
        let ghost prev = out@;
        if b == 92u8 {
            out.push('\\');
            out.push('\\');
        } else if 0x20u8 <= b && b <= 0x7eu8 {
            out.push(b as char);
        } else {
            let hi = b / 16;
            let lo = b % 16;
            let h = if hi < 10 { (48 + hi) as char } else { (87 + hi) as char };
            let l = if lo < 10 { (48 + lo) as char } else { (87 + lo) as char };
            assert(h == hex_digit(b as int / 16));
            assert(l == hex_digit(b as int % 16));
            out.push('\\');
            out.push('x');
            out.push(h);
            out.push(l);
        }
        assert(out@ =~= prev + escape_byte(b));
        i = i + 1;
    }
    assert(path@.take(path@.len() as int) =~= path@);
    string_from_chars(out.as_slice())
}

/// How a path is shown to a person (see `escape_path_text`).
pub fn escape_path(path: &[u8]) -> (r: String)
    ensures
        r@ == escape_path_text(path@),
{
    match crate::snapshot::normalized_path(path) {
        Some(s) => escape_text(s.as_str()),
        None => escape_byte_seq(path),
    }
}

/// A path in machine-readable output: its text when it is UTF-8, otherwise its
/// bytes in hexadecimal with a display form.
#[derive(Clone, Debug, PartialEq, Eq)]
pub enum PathJson {
    Text(String),
    UnixBytes { value: String, display: String },
}

pub enum PathJsonView {
    Text(Seq<char>),
    UnixBytes { value: Seq<char>, display: Seq<char> },
}

impl View for PathJson {
    type V = PathJsonView;

    open spec fn view(&self) -> PathJsonView {
        match self {
            PathJson::Text(s) => PathJsonView::Text(s@),
            PathJson::UnixBytes { value, display } => PathJsonView::UnixBytes { value: value@, display: display@ },
        }
    }
}

pub open spec fn path_json_view(path: Seq<u8>) -> PathJsonView {
    if valid_utf8(path) {
        PathJsonView::Text(decode_utf8(path))
    } else {
        PathJsonView::UnixBytes { value: hex_text(path), display: escape_bytes(path) }
    }
}

/// The machine-readable form of a path.
pub fn path_json(path: &[u8]) -> (r: PathJson)
    ensures
        r@ == path_json_view(path@),
{
    match crate::snapshot::normalized_path(path) {
        Some(s) => PathJson::Text(s),
        None => PathJson::UnixBytes { value: hex_string(path), display: escape_byte_seq(path) },
    }
}

pub open spec fn path_json_human_text(p: PathJsonView) -> Seq<char> {
    match p {
        PathJsonView::Text(s) => escape_all(s),
        PathJsonView::UnixBytes { display, .. } => display,
    }
}

/// How a machine-readable path is shown to a person.
pub fn path_json_human(p: &PathJson) -> (r: String)
    ensures
        r@ == path_json_human_text(p@),
{
    match p {
        PathJson::Text(s) => escape_text(s.as_str()),
        PathJson::UnixBytes { display, .. } => display.clone(),
    }
}

/// The stable code of a vault error.
pub fn error_code(e: &Error) -> (r: &'static str)
    ensures
        r@ == match e {
            Error::UnsafePath(_) => "unsafe_path"@,
            Error::Collision(_) => "collision"@,
            Error::Conflict { .. } => "conflict"@,
            Error::NoVaultSelected => "no_vault_selected"@,
            Error::UnknownVault(_) => "unknown_vault"@,
            Error::InvalidVaultName(_) => "invalid_vault_name"@,
            Error::InvalidUtf8(_) => "invalid_utf8"@,
            Error::InvalidEditSpan { .. } => "invalid_edit_span"@,
            Error::InvalidTrashEntry(_) => "invalid_trash_entry"@,
        },
{
    match e {
        Error::UnsafePath(_) => "unsafe_path",
        Error::Collision(_) => "collision",
        Error::Conflict { .. } => "conflict",
        Error::NoVaultSelected => "no_vault_selected",
        Error::UnknownVault(_) => "unknown_vault",
        Error::InvalidVaultName(_) => "invalid_vault_name",
        Error::InvalidUtf8(_) => "invalid_utf8",
        Error::InvalidEditSpan { .. } => "invalid_edit_span",
        Error::InvalidTrashEntry(_) => "invalid_trash_entry",
    }
}


/// One diagnostic of an index report.
#[derive(Clone, Debug, PartialEq, Eq)]
pub struct ReportDiagnostic {
    pub path: PathJson,
    pub message: String,
}

/// The status of an index as the command line reports it.
#[derive(Clone, Debug, PartialEq, Eq)]
pub struct IndexReport {
    pub status: String,
    pub generation: Option<u64>,
    pub note_count: u64,
    pub degraded: bool,
    pub diagnostics: Vec<ReportDiagnostic>,
    pub freshness: String,
    pub persistence: String,
    pub storage_error: Option<String>,
    pub fallback_reason: Option<String>,
    pub persistent_freshness: Option<String>,
}

pub struct ReportView {
    pub status: Seq<char>,
    pub generation: Option<u64>,
    pub note_count: u64,
    pub degraded: bool,
    pub diagnostics: Seq<(PathJsonView, Seq<char>)>,
    pub freshness: Seq<char>,
    pub persistence: Seq<char>,
    pub storage_error: Option<Seq<char>>,
    pub fallback_reason: Option<Seq<char>>,
    pub persistent_freshness: Option<Seq<char>>,
}

pub open spec fn opt_chars(v: Option<String>) -> Option<Seq<char>> {
    match v {
        Some(s) => Some(s@),
        None => None,
    }
}

pub open spec fn report_diagnostic_views(v: Seq<ReportDiagnostic>) -> Seq<(PathJsonView, Seq<char>)> {
    v.map_values(|d: ReportDiagnostic| (d.path@, d.message@))
}

impl View for IndexReport {
    type V = ReportView;

    open spec fn view(&self) -> ReportView {
        ReportView {
            status: self.status@,
            generation: self.generation,
            note_count: self.note_count,
            degraded: self.degraded,
            diagnostics: report_diagnostic_views(self.diagnostics@),
            freshness: self.freshness@,
            persistence: self.persistence@,
            storage_error: opt_chars(self.storage_error),
            fallback_reason: opt_chars(self.fallback_reason),
            persistent_freshness: opt_chars(self.persistent_freshness),
        }
    }
}

pub open spec fn direct_diagnostics(errors: Seq<(Seq<u8>, Seq<char>)>, root: Seq<u8>) -> Seq<(PathJsonView, Seq<char>)> {
    errors.map_values(|e: (Seq<u8>, Seq<char>)| (path_json_view(crate::store::relative_to_root(e.0, root)), e.1))
}

/// The report of an in-memory projection rebuilt directly from the vault files.
pub open spec fn direct_report_spec(status: IndexStatus, note_count: u64, root: Seq<u8>) -> ReportView {
    let (name, generation, diagnostics) = match status {
        IndexStatus::Empty => ("empty"@, None, Seq::empty()),
        IndexStatus::Current { generation } => ("current"@, Some(generation), Seq::empty()),
        IndexStatus::Degraded { generation, errors } => ("degraded"@, Some(generation),
            direct_diagnostics(diagnostic_views(errors@), root)),
    };
    ReportView {
        status: name,
        generation,
        note_count: if status is Empty { 0 } else { note_count },
        degraded: status is Degraded,
        diagnostics,
        freshness: "rebuild_snapshot"@,
        persistence: "none"@,
        storage_error: None,
        fallback_reason: None,
        persistent_freshness: None,
    }
}

fn report_diagnostics_of(errors: &Vec<IndexDiagnostic>, root: &[u8]) -> (r: Vec<ReportDiagnostic>)
    ensures
        report_diagnostic_views(r@) == direct_diagnostics(diagnostic_views(errors@), root@),
{
    let ghost target = direct_diagnostics(diagnostic_views(errors@), root@);
    let mut out: Vec<ReportDiagnostic> = Vec::new();
    let mut i: usize = 0;
    while i < errors.len()
        invariant
            i <= errors@.len(),
            target == direct_diagnostics(diagnostic_views(errors@), root@),
            report_diagnostic_views(out@) == target.take(i as int),
        decreases errors@.len() - i,
    {
        let e = &errors[i];
        let rel = match crate::paths::strip_path_prefix(e.path.as_slice(), root) {
            Some(p) => p,
            None => vstd::slice::slice_to_vec(e.path.as_slice()),
        };
        let d = ReportDiagnostic { path: path_json(rel.as_slice()), message: e.message.clone() };
        let ghost prev = out@;
        out.push(d);
        assert(report_diagnostic_views(out@) =~= report_diagnostic_views(prev).push((d.path@, d.message@)));
        assert(target.take(i + 1) =~= target.take(i as int).push(target[i as int]));
        i = i + 1;
    }
    assert(target.take(errors@.len() as int) =~= target);
    out
}

/// The report of an in-memory projection.
pub fn direct_report(index: &MarkdownIndex, root: &[u8]) -> (r: IndexReport)
    ensures
        r@ == direct_report_spec(index.status_spec(), index.notes_spec().len() as u64, root@),
{
    let count = index.notes().len() as u64;
    let (status, generation, degraded, diagnostics) = match index.status() {
        IndexStatus::Empty => ("empty".to_owned(), None, false, Vec::new()),
        IndexStatus::Current { generation } => ("current".to_owned(), Some(*generation), false, Vec::new()),
        IndexStatus::Degraded { generation, errors } => ("degraded".to_owned(), Some(*generation), true,
            report_diagnostics_of(errors, root)),
    };
    let note_count = match index.status() {
        IndexStatus::Empty => 0,
        _ => count,
    };
    let r = IndexReport {
        status,
        generation,
        note_count,
        degraded,
        diagnostics,
        freshness: "rebuild_snapshot".to_owned(),
        persistence: "none".to_owned(),
        storage_error: None,
        fallback_reason: None,
        persistent_freshness: None,
    };
    proof {
        assert(report_diagnostic_views(Seq::<ReportDiagnostic>::empty()) =~= Seq::<(PathJsonView, Seq<char>)>::empty());
    }
    r
}

pub open spec fn persistent_diagnostics(ds: Seq<(Seq<u8>, Seq<char>)>) -> Seq<(PathJsonView, Seq<char>)> {
    ds.map_values(|d: (Seq<u8>, Seq<char>)| (path_json_view(d.0), d.1))
}

/// The report of the persistent index's metadata, with the evidence of its freshness.
pub open spec fn persistent_report_spec(
    freshness: Freshness,
    generation: Option<u64>,
    note_count: u64,
    diagnostics: Seq<(Seq<u8>, Seq<char>)>,
    evidence: Seq<char>,
) -> ReportView {
    ReportView {
        status: freshness_text(freshness),
        generation,
        note_count,
        degraded: freshness == Freshness::Degraded,
        diagnostics: persistent_diagnostics(diagnostics),
        freshness: evidence,
        persistence: "sqlite"@,
        storage_error: None,
        fallback_reason: None,
        persistent_freshness: None,
    }
}

/// The report of the persistent index.
pub fn persistent_report(metadata: &IndexMetadata, evidence: &str) -> (r: IndexReport)
    ensures
        r@ == persistent_report_spec(metadata.freshness, metadata.generation, metadata.note_count,
            diag_views(metadata.diagnostics@), evidence@),
{
    let ghost target = persistent_diagnostics(diag_views(metadata.diagnostics@));
    let mut out: Vec<ReportDiagnostic> = Vec::new();
    let mut i: usize = 0;
    while i < metadata.diagnostics.len()
        invariant
            i <= metadata.diagnostics@.len(),
            target == persistent_diagnostics(diag_views(metadata.diagnostics@)),
            report_diagnostic_views(out@) == target.take(i as int),
        decreases metadata.diagnostics@.len() - i,
    {
        let d = &metadata.diagnostics[i];
        let rd = ReportDiagnostic { path: path_json(d.path.as_slice()), message: d.message.clone() };
        let ghost prev = out@;
        out.push(rd);
        assert(report_diagnostic_views(out@) =~= report_diagnostic_views(prev).push((rd.path@, rd.message@)));
        assert(target.take(i + 1) =~= target.take(i as int).push(target[i as int]));
        i = i + 1;
    }
    assert(target.take(metadata.diagnostics@.len() as int) =~= target);
    IndexReport {
        status: metadata.freshness.as_str().to_owned(),
        generation: metadata.generation,
        note_count: metadata.note_count,
        degraded: metadata.freshness == Freshness::Degraded,
        diagnostics: out,
        freshness: evidence.to_owned(),
        persistence: "sqlite".to_owned(),
        storage_error: None,
        fallback_reason: None,
        persistent_freshness: None,
    }
}

pub open spec fn index_file_text() -> Seq<char> {
    ".mg-vault/index.sqlite3"@
}

/// A report whose persistent storage failed: degraded, with a storage diagnostic.
pub fn add_storage_failure(report: &mut IndexReport)
    ensures
        final(report)@ == (ReportView {
            status: "degraded"@,
            degraded: true,
            storage_error: Some("persistent_index_unavailable"@),
            diagnostics: old(report)@.diagnostics.push((PathJsonView::Text(index_file_text()), "persistent_index_unavailable"@)),
            ..old(report)@
        }),
{
    report.status = "degraded".to_owned();
    report.degraded = true;
    report.storage_error = Some("persistent_index_unavailable".to_owned());
    let d = ReportDiagnostic {
        path: PathJson::Text(".mg-vault/index.sqlite3".to_owned()),
        message: "persistent_index_unavailable".to_owned(),
    };
    let ghost prev = report.diagnostics@;
    report.diagnostics.push(d);
    assert(report_diagnostic_views(report.diagnostics@) =~= report_diagnostic_views(prev).push((d.path@, d.message@)));
}

/// A direct report that stands in for an unavailable persistent index: degraded,
/// with the reason; a persistent index that was merely not current is named with
/// its freshness, any other failure is a storage failure.
pub fn add_persistent_fallback(report: &mut IndexReport, not_current: Option<Freshness>)
    ensures
        match not_current {
            Some(f) => final(report)@ == (ReportView {
                status: "degraded"@,
                degraded: true,
                fallback_reason: Some("persistent_index_unavailable"@),
                persistent_freshness: Some(freshness_text(f)),
                diagnostics: old(report)@.diagnostics.push((PathJsonView::Text(index_file_text()),
                    "persistent index is not current"@)),
                ..old(report)@
            }),
            None => final(report)@ == (ReportView {
                status: "degraded"@,
                degraded: true,
                fallback_reason: Some("persistent_index_unavailable"@),
                storage_error: Some("persistent_index_unavailable"@),
                diagnostics: old(report)@.diagnostics.push((PathJsonView::Text(index_file_text()),
                    "persistent_index_unavailable"@)),
                ..old(report)@
            }),
        },
{
    report.status = "degraded".to_owned();
    report.degraded = true;
    report.fallback_reason = Some("persistent_index_unavailable".to_owned());
    match not_current {
        Some(f) => {
            report.persistent_freshness = Some(f.as_str().to_owned());
            let d = ReportDiagnostic {
                path: PathJson::Text(".mg-vault/index.sqlite3".to_owned()),
                message: "persistent index is not current".to_owned(),
            };
            let ghost prev = report.diagnostics@;
            report.diagnostics.push(d);
            assert(report_diagnostic_views(report.diagnostics@) =~= report_diagnostic_views(prev).push((d.path@, d.message@)));
        },
        None => {
            add_storage_failure(report);
        },
    }
}

pub open spec fn generation_text(g: Option<u64>) -> Seq<char> {
    match g {
        Some(n) => decimal_text(n as nat),
        None => "-"@,
    }
}

/// The diagnostic lines of a report, each ending with a line feed.
pub open spec fn diagnostic_lines(ds: Seq<(PathJsonView, Seq<char>)>) -> Seq<char>
    decreases ds.len(),
{
    if ds.len() == 0 {
        Seq::empty()
    } else {
        diagnostic_lines(ds.drop_last()) + "degraded: "@ + path_json_human_text(ds.last().0) + ": "@
            + escape_controls(ds.last().1) + "\n"@
    }
}

/// The human form of a report: one summary line, then a line per diagnostic.
pub open spec fn index_human_text(action: Seq<char>, r: ReportView) -> Seq<char> {
    "index "@ + action + ": status="@ + r.status + " generation="@ + generation_text(r.generation) + " notes="@
        + decimal_text(r.note_count as nat) + " source=authoritative_vault_files freshness="@ + r.freshness
        + " persistence="@ + r.persistence + "\n"@ + diagnostic_lines(r.diagnostics)
}

/// The human form of an index report.
pub fn format_index_human(action: &str, report: &IndexReport) -> (r: String)
    ensures
        r@ == index_human_text(action@, report@),
{
    let mut out = "index ".to_owned();
    out.append(action);
    out.append(": status=");
    out.append(report.status.as_str());
    out.append(" generation=");
    let g = match report.generation {
        Some(n) => decimal(n),
        None => "-".to_owned(),
    };
    out.append(g.as_str());
    out.append(" notes=");
    let c = decimal(report.note_count);
    out.append(c.as_str());
    out.append(" source=authoritative_vault_files freshness=");
    out.append(report.freshness.as_str());
    out.append(" persistence=");
    out.append(report.persistence.as_str());
    out.append("\n");
    let ghost head = out@;
    let ghost ds = report@.diagnostics;
    let mut i: usize = 0;
    while i < report.diagnostics.len()
        invariant
            i <= report.diagnostics@.len(),
            ds == report@.diagnostics,
            out@ == head + diagnostic_lines(ds.take(i as int)),
        decreases report.diagnostics@.len() - i,
    {
        let d = &report.diagnostics[i];
        assert(ds[i as int] == (d.path@, d.message@));
        assert(ds.take(i + 1).drop_last() =~= ds.take(i as int));
        out.append("degraded: ");
        let p = path_json_human(&d.path);
        out.append(p.as_str());
        out.append(": ");
        let m = escape_diagnostic(d.message.as_str());
        out.append(m.as_str());
        out.append("\n");
        i = i + 1;
    }
    assert(ds.take(report.diagnostics@.len() as int) =~= ds);
    out
}

/// The human lines of a search: a notice when nothing matched, a line per match
/// (its escaped path, a tab and its title), then the index report.
pub open spec fn search_lines(query: Seq<char>, matches: Seq<(Seq<u8>, Seq<char>)>, report: ReportView) -> Seq<Seq<char>> {
    let found = matches.map_values(|m: (Seq<u8>, Seq<char>)| escape_path_text(m.0) + "\t"@ + m.1);
    let head = if matches.len() == 0 { seq!["no matches for "@ + debug_text_of(query)] } else { Seq::empty() };
    (head + found).push(index_human_text("search"@, report))
}

pub open spec fn match_views(v: Seq<(Vec<u8>, String)>) -> Seq<(Seq<u8>, Seq<char>)> {
    v.map_values(|m: (Vec<u8>, String)| (m.0@, m.1@))
}

/// The human form of a search.
pub fn search_human(query: &str, matches: &[(Vec<u8>, String)], report: &IndexReport) -> (r: String)
    ensures
        r@ == crate::interop::join_texts(search_lines(query@, match_views(matches@), report@), "\n"@),
{
    let ghost lines = search_lines(query@, match_views(matches@), report@);
    let mut parts: Vec<String> = Vec::new();
    if matches.len() == 0 {
        let mut notice = "no matches for ".to_owned();
        let q = debug_text(query);
        notice.append(q.as_str());
        parts.push(notice);
    }
    let ghost found = match_views(matches@).map_values(|m: (Seq<u8>, Seq<char>)| escape_path_text(m.0) + "\t"@ + m.1);
    let ghost head = if matches@.len() == 0 { seq!["no matches for "@ + debug_text_of(query@)] } else { Seq::<Seq<char>>::empty() };
    assert(crate::interop::string_texts(parts@) =~= head);
    let mut i: usize = 0;
    while i < matches.len()
        invariant
            i <= matches@.len(),
            found == match_views(matches@).map_values(|m: (Seq<u8>, Seq<char>)| escape_path_text(m.0) + "\t"@ + m.1),
            crate::interop::string_texts(parts@) == head + found.take(i as int),
        decreases matches@.len() - i,
    {
        let mut line = escape_path(matches[i].0.as_slice());
        line.append("\t");
        line.append(matches[i].1.as_str());
        assert(line@ == found[i as int]);
        let ghost prev = parts@;
        parts.push(line);
        assert(crate::interop::string_texts(parts@) =~= crate::interop::string_texts(prev).push(line@));
        assert(head + found.take(i + 1) =~= (head + found.take(i as int)).push(found[i as int]));
        i = i + 1;
    }
    assert(found.take(matches@.len() as int) =~= found);
    let summary = format_index_human("search", report);
    let ghost prev = parts@;
    parts.push(summary);
    assert(crate::interop::string_texts(parts@) =~= crate::interop::string_texts(prev).push(summary@));
    assert(crate::interop::string_texts(parts@) =~= lines);
    let mut out = String::new();
    let mut k: usize = 0;
    while k < parts.len()
        invariant
            k <= parts@.len(),
            out@ == crate::interop::join_texts(crate::interop::string_texts(parts@).take(k as int), "\n"@),
        decreases parts@.len() - k,
    {
        let ghost t = crate::interop::string_texts(parts@);
        assert(t.take(k + 1).drop_last() =~= t.take(k as int));
        assert(t.take(k + 1).last() == parts@[k as int]@);
        if k > 0 {
            out.append("\n");
        }
        out.append(parts[k].as_str());
        proof {
            if k == 0 {
                assert(t.take(0) =~= Seq::<Seq<char>>::empty());
                assert(out@ =~= parts@[0]@);
            }
        }
        k = k + 1;
    }
    assert(crate::interop::string_texts(parts@).take(parts@.len() as int) =~= crate::interop::string_texts(parts@));
    out
}


proof fn lemma_hex_min_printable(n: nat)
    ensures
        forall|i: int| 0 <= i < hex_min(n).len() ==> !is_control(#[trigger] hex_min(n)[i]),
    decreases n,
{
    if n >= 16 {
        lemma_hex_min_printable(n / 16);
        let d = (n % 16) as int;
        assert(!is_control(hex_digit(d)));
        assert forall|i: int| 0 <= i < hex_min(n).len() implies !is_control(#[trigger] hex_min(n)[i]) by {
            if i < hex_min(n / 16).len() {
                assert(hex_min(n)[i] == hex_min(n / 16)[i]);
            }
        }
    } else {
        assert(!is_control(hex_digit(n as int)));
    }
}

proof fn lemma_escape_char_printable(c: char)
    requires
        is_control(c),
    ensures
        forall|i: int| 0 <= i < escape_char(c).len() ==> !is_control(#[trigger] escape_char(c)[i]),
{
    if c != '\t' && c != '\r' && c != '\n' {
        lemma_hex_min_printable(c as nat);
        let h = hex_min(c as nat);
        let e = escape_char(c);
        assert(e == seq!['\\', 'u', '{'] + h + seq!['}']);
        assert forall|i: int| 0 <= i < e.len() implies !is_control(#[trigger] e[i]) by {
            if 3 <= i < 3 + h.len() {
                assert(e[i] == h[i - 3]);
            }
        }
    }
}

/// Law: an escaped diagnostic holds no control characters, so every message
/// prints on one line and cannot drive the terminal.
pub proof fn lemma_escaped_diagnostic_has_no_controls(s: Seq<char>)
    ensures
        forall|i: int| 0 <= i < escape_controls(s).len() ==> !is_control(#[trigger] escape_controls(s)[i]),
    decreases s.len(),
{
    if s.len() > 0 {
        lemma_escaped_diagnostic_has_no_controls(s.drop_last());
        let prev = escape_controls(s.drop_last());
        let c = s.last();
        let tail = if is_control(c) { escape_char(c) } else { seq![c] };
        if is_control(c) {
            lemma_escape_char_printable(c);
        }
        assert(escape_controls(s) == prev + tail);
        assert forall|i: int| 0 <= i < escape_controls(s).len() implies !is_control(#[trigger] escape_controls(s)[i]) by {
            if i < prev.len() {
                assert(escape_controls(s)[i] == prev[i]);
            } else {
                assert(escape_controls(s)[i] == tail[i - prev.len()]);
            }
        }
    }
}

} // verus!
