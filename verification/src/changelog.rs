//! Changelog of committed transactions, kept as quads in the graph
//! `<urn:oxigraph:changelog>` of the dataset: recording, listing, reading,
//! undoing, purging and pruning entries.
use vstd::prelude::*;
use crate::store::{
    Subject, Literal, Term, GraphName, Quad, QuadStore, SubjectModel, LiteralModel, TermModel,
    GraphModel, QuadModel, quads_view, copy_quads, no_duplicates, insert_all, remove_all,
    in_named_graph, subject_among, strings_view, literal_value,
};
use crate::nquads::{nquads_text, parse_nquads_text, quads_to_nquads, parse_nquads};
use crate::text::{decimal, zero_padded, push_char, push_str, push_decimal, push_zero_padded, str_chars, parse_u64, parse_u64_str};
use crate::transactions::{BufferedOp, OpModel, ops_view, duration_nanos};
use std::time::{Duration, SystemTime, UNIX_EPOCH};

verus! {

// ---------------------------------------------------------------------------
// Vocabulary
// ---------------------------------------------------------------------------

/// The graph that holds the changelog.
pub open spec fn log_graph() -> Seq<char> {
    "urn:oxigraph:changelog"@
}

/// Subject IRI of the entry with the given id.
pub open spec fn entry_subject(id: u64) -> Seq<char> {
    "urn:oxigraph:changelog:"@ + decimal(id as nat)
}

pub open spec fn rdf_type() -> Seq<char> {
    "http://www.w3.org/1999/02/22-rdf-syntax-ns#type"@
}

pub open spec fn entry_class() -> Seq<char> {
    "urn:oxigraph:ChangelogEntry"@
}

pub open spec fn pred_txn_id() -> Seq<char> {
    "urn:oxigraph:txnId"@
}

pub open spec fn pred_timestamp() -> Seq<char> {
    "urn:oxigraph:timestamp"@
}

pub open spec fn pred_operation() -> Seq<char> {
    "urn:oxigraph:operation"@
}

pub open spec fn pred_undoable() -> Seq<char> {
    "urn:oxigraph:undoable"@
}

pub open spec fn pred_insert_count() -> Seq<char> {
    "urn:oxigraph:insertCount"@
}

pub open spec fn pred_remove_count() -> Seq<char> {
    "urn:oxigraph:removeCount"@
}

pub open spec fn pred_inserted() -> Seq<char> {
    "urn:oxigraph:insertedNQuads"@
}

pub open spec fn pred_removed() -> Seq<char> {
    "urn:oxigraph:removedNQuads"@
}

/// `true` or `false`.
pub open spec fn bool_text(b: bool) -> Seq<char> {
    if b { "true"@ } else { "false"@ }
}

/// Entries with more quads than this cannot be undone.
pub const MAX_UNDOABLE_QUADS: usize = 100_000;

// ---------------------------------------------------------------------------
// Entries and errors
// ---------------------------------------------------------------------------

/// A changelog entry representing a committed transaction.
#[derive(Clone, Debug)]
pub struct ChangelogEntry {
    pub id: u64,
    pub timestamp: String,
    pub operation: String,
    pub inserted: Vec<Quad>,
    pub removed: Vec<Quad>,
    pub undoable: bool,
}

/// Plain-value model of an entry.
pub struct EntryModel {
    pub id: u64,
    pub timestamp: Seq<char>,
    pub operation: Seq<char>,
    pub inserted: Seq<QuadModel>,
    pub removed: Seq<QuadModel>,
    pub undoable: bool,
}

impl View for ChangelogEntry {
    type V = EntryModel;

    open spec fn view(&self) -> EntryModel {
        EntryModel {
            id: self.id,
            timestamp: self.timestamp@,
            operation: self.operation@,
            inserted: quads_view(self.inserted@),
            removed: quads_view(self.removed@),
            undoable: self.undoable,
        }
    }
}

/// Plain-value model of a sequence of entries.
pub open spec fn entries_view(s: Seq<ChangelogEntry>) -> Seq<EntryModel> {
    s.map_values(|e: ChangelogEntry| e@)
}

/// Why a changelog operation failed.
#[derive(Debug)]
pub enum ChangelogError {
    Disabled,
    NotFound,
    NotUndoable,
    Internal(String),
}

/// Plain-value model of a changelog error.
pub enum ChangelogErrorModel {
    Disabled,
    NotFound,
    NotUndoable,
    Internal(Seq<char>),
}

impl View for ChangelogError {
    type V = ChangelogErrorModel;

    open spec fn view(&self) -> ChangelogErrorModel {
        match self {
            ChangelogError::Disabled => ChangelogErrorModel::Disabled,
            ChangelogError::NotFound => ChangelogErrorModel::NotFound,
            ChangelogError::NotUndoable => ChangelogErrorModel::NotUndoable,
            ChangelogError::Internal(e) => ChangelogErrorModel::Internal(e@),
        }
    }
}

/// The message of a changelog error.
pub open spec fn changelog_error_text(e: ChangelogErrorModel) -> Seq<char> {
    match e {
        ChangelogErrorModel::Disabled => "Changelog is not enabled (use --changelog to enable)"@,
        ChangelogErrorModel::NotFound => "Changelog entry not found"@,
        ChangelogErrorModel::NotUndoable => "Changelog entry is not undoable"@,
        ChangelogErrorModel::Internal(m) => "Internal changelog error: "@ + m,
    }
}

impl ChangelogError {
    /// The message shown for this error.
    pub fn message(&self) -> (r: String)
        ensures
            r@ == changelog_error_text(self@),
    {
        let mut out = String::new();
        match self {
            ChangelogError::Disabled => push_str(&mut out, "Changelog is not enabled (use --changelog to enable)"),
            ChangelogError::NotFound => push_str(&mut out, "Changelog entry not found"),
            ChangelogError::NotUndoable => push_str(&mut out, "Changelog entry is not undoable"),
            ChangelogError::Internal(e) => {
                push_str(&mut out, "Internal changelog error: ");
                push_str(&mut out, e.as_str());
            }
        }
        out
    }
}

// ---------------------------------------------------------------------------
// Timestamps
// ---------------------------------------------------------------------------

/// Civil date (year, month, day) of the day `days` after 1970-01-01, by
/// counting 400-year eras of 146097 days from 0000-03-01.
pub open spec fn civil_from_days(days: nat) -> (nat, nat, nat) {
    let z = days + 719_468;
    let era = z / 146_097;
    let doe = (z - era * 146_097) as nat;
    let yoe = ((doe - doe / 1_460 + doe / 36_524 - doe / 146_096) / 365) as nat;
    let y = yoe + era * 400;
    let doy = (doe - (365 * yoe + yoe / 4 - yoe / 100)) as nat;
    let mp = (5 * doy + 2) / 153;
    let d = (doy - (153 * mp + 2) / 5 + 1) as nat;
    let m = if mp < 10 { mp + 3 } else { (mp - 9) as nat };
    let y = if m <= 2 { y + 1 } else { y };
    (y, m, d)
}

/// Gregorian leap year.
pub open spec fn is_leap(y: int) -> bool {
    y % 4 == 0 && (y % 100 != 0 || y % 400 == 0)
}

/// Days in month `m` (1 to 12) of year `y`.
pub open spec fn month_length(y: int, m: int) -> int {
    if m == 2 {
        if is_leap(y) { 29 } else { 28 }
    } else if m == 4 || m == 6 || m == 9 || m == 11 {
        30
    } else {
        31
    }
}

/// Days of year `y` before the first of month `m`.
pub open spec fn days_before_month(y: int, m: int) -> int
    decreases m,
{
    if m <= 1 { 0 } else { days_before_month(y, m - 1) + month_length(y, m - 1) }
}

/// Days from 1970-01-01 to the first of January of year `y` (from 1970 on).
pub open spec fn days_before_year(y: int) -> int
    decreases y - 1970,
{
    if y <= 1970 { 0 } else { days_before_year(y - 1) + if is_leap(y - 1) { 366int } else { 365int } }
}

/// `(y, m, d)` is a valid date from 1970 on, `days` days after 1970-01-01.
pub open spec fn is_date_of_day(days: int, y: int, m: int, d: int) -> bool {
    &&& y >= 1970
    &&& 1 <= m <= 12
    &&& 1 <= d <= month_length(y, m)
    &&& days_before_year(y) + days_before_month(y, m) + d - 1 == days
}

/// Days from 0000-03-01 to the first of March of year `y` (proleptic
/// Gregorian calendar).
spec fn march_start(y: int) -> int {
    365 * y + y / 4 - y / 100 + y / 400
}

proof fn lemma_march_start_step(y: int)
    requires
        y >= 1,
    ensures
        march_start(y) - march_start(y - 1) == if is_leap(y) { 366int } else { 365int },
{
    assert(y / 4 - (y - 1) / 4 == if y % 4 == 0 { 1int } else { 0int });
    assert(y / 100 - (y - 1) / 100 == if y % 100 == 0 { 1int } else { 0int });
    assert(y / 400 - (y - 1) / 400 == if y % 400 == 0 { 1int } else { 0int });
    assert(y % 100 == 0 ==> y % 4 == 0);
    assert(y % 400 == 0 ==> y % 100 == 0);
}

proof fn lemma_year_start(y: int)
    requires
        y >= 1970,
    ensures
        days_before_year(y) + 719_468 == march_start(y - 1) + 306,
    decreases y - 1970,
{
    if y > 1970 {
        lemma_year_start(y - 1);
        lemma_march_start_step(y - 1);
    } else {
        assert(march_start(1969) == 719_162);
    }
}

#[verifier::rlimit(60)]
proof fn lemma_era_year(doe: u64)
    requires
        doe < 146_097,
    ensures
        ({
            let yoe = (doe - doe / 1_460 + doe / 36_524 - doe / 146_096) / 365;
            let ys = 365 * yoe + yoe / 4 - yoe / 100;
            &&& yoe <= 399
            &&& ys <= doe
            &&& doe - ys < 365 + if (yoe + 1) % 4 == 0 && ((yoe + 1) % 100 != 0 || yoe == 399) { 1int } else { 0int }
            &&& doe >= 135_080 ==> (yoe >= 370 || doe - ys >= 306)
        }),
{
    assert({
        let yoe = (doe - doe / 1_460 + doe / 36_524 - doe / 146_096) / 365;
        let ys = 365 * yoe + yoe / 4 - yoe / 100;
        &&& yoe <= 399
        &&& ys <= doe
        &&& doe - ys < 365 + if (yoe + 1) % 4 == 0 && ((yoe + 1) % 100 != 0 || yoe == 399) { 1int } else { 0int }
        &&& doe >= 135_080 ==> (yoe >= 370 || doe - ys >= 306)
    }) by (bit_vector)
        requires
            doe < 146_097,
    ;
}

proof fn lemma_month_of_day(doy: u64)
    requires
        doy < 366,
    ensures
        ({
            let mp = (5 * doy + 2) / 153;
            let ms = (153 * mp + 2) / 5;
            &&& mp <= 11
            &&& ms <= doy
            &&& mp < 11 ==> doy < (153 * (mp + 1) + 2) / 5
            &&& doy >= 306 ==> mp >= 10
        }),
{
    assert({
        let mp = (5 * doy + 2) / 153;
        let ms = (153 * mp + 2) / 5;
        &&& mp <= 11
        &&& ms <= doy
        &&& mp < 11 ==> doy < (153 * (mp + 1) + 2) / 5
        &&& doy >= 306 ==> mp >= 10
    }) by (bit_vector)
        requires
            doy < 366,
    ;
}

proof fn lemma_month_table(y: int)
    ensures
        days_before_month(y, 1) == 0,
        days_before_month(y, 2) == 31,
        days_before_month(y, 3) == 59 + if is_leap(y) { 1int } else { 0int },
        days_before_month(y, 4) == 90 + if is_leap(y) { 1int } else { 0int },
        days_before_month(y, 5) == 120 + if is_leap(y) { 1int } else { 0int },
        days_before_month(y, 6) == 151 + if is_leap(y) { 1int } else { 0int },
        days_before_month(y, 7) == 181 + if is_leap(y) { 1int } else { 0int },
        days_before_month(y, 8) == 212 + if is_leap(y) { 1int } else { 0int },
        days_before_month(y, 9) == 243 + if is_leap(y) { 1int } else { 0int },
        days_before_month(y, 10) == 273 + if is_leap(y) { 1int } else { 0int },
        days_before_month(y, 11) == 304 + if is_leap(y) { 1int } else { 0int },
        days_before_month(y, 12) == 334 + if is_leap(y) { 1int } else { 0int },
{
    reveal_with_fuel(days_before_month, 13);
}

/// The civil date that `days_to_ymd` computes for a day count is the date
/// that many days after 1970-01-01 in the Gregorian calendar.
#[verifier::spinoff_prover]
#[verifier::rlimit(40)]
pub proof fn lemma_civil_from_days(days: u64)
    requires
        days <= u64::MAX / 86_400,
    ensures
        is_date_of_day(days as int, civil_from_days(days as nat).0 as int, civil_from_days(days as nat).1 as int,
            civil_from_days(days as nat).2 as int),
{
    let z = days + 719_468;
    let era = z / 146_097;
    let doe = (z - era * 146_097) as u64;
    assert(doe < 146_097);
    lemma_era_year(doe);
    let yoe = (doe - doe / 1_460 + doe / 36_524 - doe / 146_096) / 365;
    let ys = 365 * yoe + yoe / 4 - yoe / 100;
    let doy = (doe - ys) as u64;
    let big_y = yoe + era * 400;
    // the March-year starts where the era arithmetic says
    assert(march_start(big_y) == era * 146_097 + ys) by {
        assert((yoe + era * 400) / 4 == yoe / 4 + era * 100);
        assert((yoe + era * 400) / 100 == yoe / 100 + era * 4);
        assert((yoe + era * 400) / 400 == era);
    }
    assert(is_leap(big_y + 1) == ((yoe + 1) % 4 == 0 && ((yoe + 1) % 100 != 0 || yoe == 399))) by {
        assert((big_y + 1) % 4 == (yoe + 1) % 4);
        assert((big_y + 1) % 100 == (yoe + 1) % 100);
        assert((big_y + 1) % 400 == (yoe + 1) % 400);
    }
    lemma_month_of_day(doy);
    let mp = (5 * doy + 2) / 153;
    let ms = (153 * mp + 2) / 5;
    let d = doy - ms + 1;
    let m = if mp < 10 { mp + 3 } else { mp - 9 };
    let y = if m <= 2 { big_y + 1 } else { big_y };
    let c = civil_from_days(days as nat);
    assert(c.0 == y && c.1 == m && c.2 == d);
    assert(z == march_start(big_y) + doy);
    // the year is at least 1970
    assert(big_y >= 1970 || (big_y == 1969 && mp >= 10)) by {
        if era <= 4 {
            assert(era == 4);
            assert(doe >= 135_080);
        }
    }
    lemma_month_table(y);
    let leap = if is_leap(y) { 1int } else { 0int };
    if m <= 2 {
        lemma_year_start(y);
        assert(days_before_year(y) + 719_468 == march_start(big_y) + 306);
    } else {
        lemma_year_start(y);
        lemma_march_start_step(y);
        assert(days_before_year(y) + 719_468 == march_start(big_y - 1) + 306);
    }
}

/// `YYYY-MM-DDTHH:MM:SSZ` for a count of seconds since the Unix epoch (UTC).
pub open spec fn timestamp_text(secs: u64) -> Seq<char> {
    let days = secs / 86_400;
    let tod = secs % 86_400;
    let (y, m, d) = civil_from_days(days as nat);
    zero_padded(y, 4) + seq!['-'] + zero_padded(m, 2) + seq!['-'] + zero_padded(d, 2) + seq!['T']
        + zero_padded((tod / 3_600) as nat, 2) + seq![':'] + zero_padded(((tod % 3_600) / 60) as nat, 2)
        + seq![':'] + zero_padded((tod % 60) as nat, 2) + seq!['Z']
}

/// The civil date of a day count since 1970-01-01.
pub fn days_to_ymd(days: u64) -> (r: (u64, u64, u64))
    requires
        days <= u64::MAX / 86_400,
    ensures
        (r.0 as nat, r.1 as nat, r.2 as nat) == civil_from_days(days as nat),
        is_date_of_day(days as int, r.0 as int, r.1 as int, r.2 as int),
{
    proof {
        lemma_civil_from_days(days);
    }
    let z = days + 719_468;
    let era = z / 146_097;
    let doe = z - era * 146_097;
    assert(doe < 146_097) by (nonlinear_arith)
        requires
            era == z / 146_097,
            doe == z - era * 146_097,
    ;
    let yoe = (doe - doe / 1_460 + doe / 36_524 - doe / 146_096) / 365;
    assert(yoe <= 400);
    let y = yoe + era * 400;
    assert(365 * yoe + yoe / 4 - yoe / 100 <= doe) by (nonlinear_arith)
        requires
            yoe == (doe - doe / 1_460 + doe / 36_524 - doe / 146_096) / 365,
            doe < 146_097,
    ;
    let doy = doe - (365 * yoe + yoe / 4 - yoe / 100);
    assert(doy <= 146_097);
    let mp = (5 * doy + 2) / 153;
    assert((153 * mp + 2) / 5 <= doy) by (nonlinear_arith)
        requires
            mp == (5 * doy + 2) / 153,
    ;
    let d = doy - (153 * mp + 2) / 5 + 1;
    let m = if mp < 10 { mp + 3 } else { mp - 9 };
    let y = if m <= 2 { y + 1 } else { y };
    (y, m, d)
}

/// Formats a count of seconds since the Unix epoch as `YYYY-MM-DDTHH:MM:SSZ`.
pub fn format_timestamp_at(secs: u64) -> (r: String)
    ensures
        r@ == timestamp_text(secs),
{
    let days = secs / 86_400;
    let time_of_day = secs % 86_400;
    let hours = time_of_day / 3_600;
    let minutes = (time_of_day % 3_600) / 60;
    let seconds = time_of_day % 60;
    let (year, month, day) = days_to_ymd(days);
    let mut out = String::new();
    push_zero_padded(&mut out, year, 4);
    push_char(&mut out, '-');
    push_zero_padded(&mut out, month, 2);
    push_char(&mut out, '-');
    push_zero_padded(&mut out, day, 2);
    push_char(&mut out, 'T');
    push_zero_padded(&mut out, hours, 2);
    push_char(&mut out, ':');
    push_zero_padded(&mut out, minutes, 2);
    push_char(&mut out, ':');
    push_zero_padded(&mut out, seconds, 2);
    push_char(&mut out, 'Z');
    out
}

#[verifier::external_type_specification]
#[verifier::external_body]
pub struct ExSystemTime(std::time::SystemTime);

/// The system clock's current time (std's `SystemTime::now`); nothing is
/// stated of it.
#[verifier::external_body]
fn system_now() -> (r: SystemTime) {
    SystemTime::now()
}

/// The time from the Unix epoch to `t` (std's `SystemTime::duration_since`
/// with `UNIX_EPOCH`), or `None` when `t` is before the epoch; which of the
/// two comes out depends on the clock's value, so nothing is stated.
#[verifier::external_body]
fn since_unix_epoch(t: &SystemTime) -> (r: Option<Duration>) {
    t.duration_since(UNIX_EPOCH).ok()
}

/// The whole seconds of a duration (std's `Duration::as_secs`): its
/// nanoseconds divided by a billion, rounded down.
#[verifier::external_body]
fn secs_of(d: &Duration) -> (r: u64)
    ensures
        r == duration_nanos(*d) / 1_000_000_000,
{
    d.as_secs()
}

/// Seconds since the Unix epoch by the system clock; zero when the clock is
/// set before it.
fn unix_time_secs() -> u64 {
    let now = system_now();
    match since_unix_epoch(&now) {
        Some(d) => secs_of(&d),
        None => 0,
    }
}

/// The current time as `YYYY-MM-DDTHH:MM:SSZ` (UTC).
pub fn format_timestamp() -> (r: String)
    ensures
        exists|secs: u64| r@ == timestamp_text(secs),
{
    format_timestamp_at(unix_time_secs())
}

// ---------------------------------------------------------------------------
// Entries as quads
// ---------------------------------------------------------------------------

/// A quad of the log graph with a plain literal object.
pub open spec fn log_quad(subj: Seq<char>, pred: Seq<char>, value: Seq<char>) -> QuadModel {
    QuadModel {
        subject: SubjectModel::NamedNode(subj),
        predicate: pred,
        object: TermModel::Literal(LiteralModel::Simple(value)),
        graph_name: GraphModel::NamedNode(log_graph()),
    }
}

/// The quads that describe an entry, in the order they are written.
pub open spec fn entry_quads(e: EntryModel) -> Seq<QuadModel> {
    let subj = entry_subject(e.id);
    seq![
        QuadModel {
            subject: SubjectModel::NamedNode(subj),
            predicate: rdf_type(),
            object: TermModel::NamedNode(entry_class()),
            graph_name: GraphModel::NamedNode(log_graph()),
        },
        log_quad(subj, pred_txn_id(), decimal(e.id as nat)),
        log_quad(subj, pred_timestamp(), e.timestamp),
        log_quad(subj, pred_operation(), e.operation),
        log_quad(subj, pred_undoable(), bool_text(e.undoable)),
        log_quad(subj, pred_insert_count(), decimal(e.inserted.len())),
        log_quad(subj, pred_remove_count(), decimal(e.removed.len())),
    ] + (if e.inserted.len() > 0 {
        seq![log_quad(subj, pred_inserted(), nquads_text(e.inserted))]
    } else {
        Seq::empty()
    }) + (if e.removed.len() > 0 {
        seq![log_quad(subj, pred_removed(), nquads_text(e.removed))]
    } else {
        Seq::empty()
    })
}

fn decimal_string(n: u64) -> (r: String)
    ensures
        r@ == decimal(n as nat),
{
    let mut out = String::new();
    push_decimal(&mut out, n);
    out
}

fn bool_string(b: bool) -> (r: String)
    ensures
        r@ == bool_text(b),
{
    if b { "true".to_owned() } else { "false".to_owned() }
}

fn log_graph_name() -> (r: String)
    ensures
        r@ == log_graph(),
{
    "urn:oxigraph:changelog".to_owned()
}

fn entry_subject_string(id: u64) -> (r: String)
    ensures
        r@ == entry_subject(id),
{
    let mut out = "urn:oxigraph:changelog:".to_owned();
    push_decimal(&mut out, id);
    out
}

fn log_literal_quad(subj: &String, pred: &str, value: String) -> (q: Quad)
    ensures
        q@ == log_quad(subj@, pred@, value@),
{
    Quad {
        subject: Subject::NamedNode(subj.clone()),
        predicate: pred.to_owned(),
        object: Term::Literal(Literal::Simple(value)),
        graph_name: GraphName::NamedNode(log_graph_name()),
    }
}

/// Writes the quads that describe `entry` into the dataset.
pub fn write_entry_to_store(store: &mut QuadStore, entry: &ChangelogEntry)
    ensures
        final(store)@ == insert_all(old(store)@, entry_quads(entry@)),
        no_duplicates(final(store)@),
{
    let subj = entry_subject_string(entry.id);
    let mut quads: Vec<Quad> = Vec::new();
    quads.push(Quad {
        subject: Subject::NamedNode(subj.clone()),
        predicate: "http://www.w3.org/1999/02/22-rdf-syntax-ns#type".to_owned(),
        object: Term::NamedNode("urn:oxigraph:ChangelogEntry".to_owned()),
        graph_name: GraphName::NamedNode(log_graph_name()),
    });
    quads.push(log_literal_quad(&subj, "urn:oxigraph:txnId", decimal_string(entry.id)));
    quads.push(log_literal_quad(&subj, "urn:oxigraph:timestamp", entry.timestamp.clone()));
    quads.push(log_literal_quad(&subj, "urn:oxigraph:operation", entry.operation.clone()));
    quads.push(log_literal_quad(&subj, "urn:oxigraph:undoable", bool_string(entry.undoable)));
    quads.push(log_literal_quad(&subj, "urn:oxigraph:insertCount", decimal_string(entry.inserted.len() as u64)));
    quads.push(log_literal_quad(&subj, "urn:oxigraph:removeCount", decimal_string(entry.removed.len() as u64)));
    let ghost head = quads_view(quads@);
    if entry.inserted.len() > 0 {
        let nq = quads_to_nquads(entry.inserted.as_slice());
        quads.push(log_literal_quad(&subj, "urn:oxigraph:insertedNQuads", nq));
    }
    let ghost mid = quads_view(quads@);
    if entry.removed.len() > 0 {
        let nq = quads_to_nquads(entry.removed.as_slice());
        quads.push(log_literal_quad(&subj, "urn:oxigraph:removedNQuads", nq));
    }
    assert(quads_view(quads@) =~= entry_quads(entry@));
    store.insert_quads(quads.as_slice());
}

// ---------------------------------------------------------------------------
// Reading entries back
// ---------------------------------------------------------------------------

/// Whether a quad is in the log graph with the named-node subject `subj`.
pub open spec fn in_log(q: QuadModel, subj: Seq<char>) -> bool {
    q.subject == SubjectModel::NamedNode(subj) && in_named_graph(q, log_graph())
}

/// The value of a literal object.
pub open spec fn literal_object(q: QuadModel) -> Option<Seq<char>> {
    match q.object {
        TermModel::Literal(l) => Some(literal_value(l)),
        _ => None,
    }
}

/// The value of the last literal with subject `subj` and predicate `pred` in
/// the log graph.
pub open spec fn field_value(s: Seq<QuadModel>, subj: Seq<char>, pred: Seq<char>) -> Option<Seq<char>>
    decreases s.len(),
{
    if s.len() == 0 {
        None
    } else if in_log(s.last(), subj) && s.last().predicate == pred && literal_object(s.last()) is Some {
        literal_object(s.last())
    } else {
        field_value(s.drop_last(), subj, pred)
    }
}

/// That value, or the empty string.
pub open spec fn field_text(s: Seq<QuadModel>, subj: Seq<char>, pred: Seq<char>) -> Seq<char> {
    match field_value(s, subj, pred) {
        Some(v) => v,
        None => Seq::empty(),
    }
}

/// Whether the log graph has a quad with subject `subj`.
pub open spec fn has_entry(s: Seq<QuadModel>, subj: Seq<char>) -> bool {
    exists|i: int| 0 <= i < s.len() && in_log(#[trigger] s[i], subj)
}

/// The entry with the given id and subject as read back from the dataset,
/// with or without its inserted and removed quads.
pub open spec fn read_entry(s: Seq<QuadModel>, id: u64, subj: Seq<char>, deltas: bool) -> EntryModel {
    EntryModel {
        id,
        timestamp: field_text(s, subj, pred_timestamp()),
        operation: field_text(s, subj, pred_operation()),
        inserted: if deltas { parse_nquads_text(field_text(s, subj, pred_inserted())) } else { Seq::empty() },
        removed: if deltas { parse_nquads_text(field_text(s, subj, pred_removed())) } else { Seq::empty() },
        undoable: field_value(s, subj, pred_undoable()) == Some("true"@),
    }
}

/// What a scan of the dataset found for one subject.
struct FieldScan {
    found: bool,
    timestamp: String,
    operation: String,
    undoable: bool,
    inserted: String,
    removed: String,
}

fn is_in_log(q: &Quad, subj: &String, graph: &String) -> (r: bool)
    requires
        graph@ == log_graph(),
    ensures
        r == in_log(q@, subj@),
{
    let subject_ok = match &q.subject {
        Subject::NamedNode(x) => *x == *subj,
        Subject::BlankNode(_) => false,
    };
    let graph_ok = match &q.graph_name {
        GraphName::NamedNode(g) => *g == *graph,
        _ => false,
    };
    subject_ok && graph_ok
}

fn scan_fields(qs: &[Quad], subj: &String, deltas: bool) -> (r: FieldScan)
    ensures
        r.found == has_entry(quads_view(qs@), subj@),
        r.timestamp@ == field_text(quads_view(qs@), subj@, pred_timestamp()),
        r.operation@ == field_text(quads_view(qs@), subj@, pred_operation()),
        r.undoable == (field_value(quads_view(qs@), subj@, pred_undoable()) == Some("true"@)),
        deltas ==> r.inserted@ == field_text(quads_view(qs@), subj@, pred_inserted()),
        deltas ==> r.removed@ == field_text(quads_view(qs@), subj@, pred_removed()),
{
    let graph = log_graph_name();
    let p_ts = "urn:oxigraph:timestamp".to_owned();
    let p_op = "urn:oxigraph:operation".to_owned();
    let p_undo = "urn:oxigraph:undoable".to_owned();
    let p_ins = "urn:oxigraph:insertedNQuads".to_owned();
    let p_rem = "urn:oxigraph:removedNQuads".to_owned();
    let yes = "true".to_owned();
    let ghost s = quads_view(qs@);
    let mut r = FieldScan {
        found: false,
        timestamp: String::new(),
        operation: String::new(),
        undoable: false,
        inserted: String::new(),
        removed: String::new(),
    };
    let mut i: usize = 0;
    while i < qs.len()
        invariant
            i <= qs@.len(),
            s == quads_view(qs@),
            graph@ == log_graph(),
            p_ts@ == pred_timestamp(),
            p_op@ == pred_operation(),
            p_undo@ == pred_undoable(),
            p_ins@ == pred_inserted(),
            p_rem@ == pred_removed(),
            yes@ == "true"@,
            r.found == has_entry(s.take(i as int), subj@),
            r.timestamp@ == field_text(s.take(i as int), subj@, pred_timestamp()),
            r.operation@ == field_text(s.take(i as int), subj@, pred_operation()),
            r.undoable == (field_value(s.take(i as int), subj@, pred_undoable()) == Some("true"@)),
            deltas ==> r.inserted@ == field_text(s.take(i as int), subj@, pred_inserted()),
            deltas ==> r.removed@ == field_text(s.take(i as int), subj@, pred_removed()),
        decreases qs@.len() - i,
    {
        let q = &qs[i];
        let ghost t = s.take(i + 1);
        proof {
            assert(t.drop_last() =~= s.take(i as int));
            assert(t.last() == q@);
            assert(has_entry(t, subj@) == (has_entry(s.take(i as int), subj@) || in_log(q@, subj@))) by {
                if in_log(q@, subj@) {
                    assert(in_log(t[i as int], subj@));
                }
                if has_entry(s.take(i as int), subj@) {
                    let j = choose|j: int| 0 <= j < i && in_log(#[trigger] s.take(i as int)[j], subj@);
                    assert(t[j] == s.take(i as int)[j]);
                }
                if has_entry(t, subj@) && !in_log(q@, subj@) {
                    let j = choose|j: int| 0 <= j < i + 1 && in_log(#[trigger] t[j], subj@);
                    assert(s.take(i as int)[j] == t[j]);
                }
            }
        }
        if is_in_log(q, subj, &graph) {
            r.found = true;
            if let Term::Literal(l) = &q.object {
                if q.predicate == p_ts {
                    r.timestamp = l.value().to_owned();
                }
                if q.predicate == p_op {
                    r.operation = l.value().to_owned();
                }
                if q.predicate == p_undo {
                    r.undoable = l.value().to_owned() == yes;
                }
                if deltas && q.predicate == p_ins {
                    r.inserted = l.value().to_owned();
                }
                if deltas && q.predicate == p_rem {
                    r.removed = l.value().to_owned();
                }
            }
        }
        i = i + 1;
    }
    assert(s.take(i as int) =~= s);
    r
}

// ---------------------------------------------------------------------------
// Listing order
// ---------------------------------------------------------------------------

/// The id that a quad gives an entry: predicate `txnId` in the log graph
/// and a literal that reads as an unsigned integer.
pub open spec fn counted_id(q: QuadModel) -> Option<u64> {
    if in_named_graph(q, log_graph()) && q.predicate == pred_txn_id() {
        match literal_object(q) {
            Some(v) => parse_u64(v),
            None => None,
        }
    } else {
        None
    }
}

/// The (id, subject) of such a quad whose subject is a named node.
pub open spec fn id_row(q: QuadModel) -> Option<(u64, Seq<char>)> {
    match (q.subject, counted_id(q)) {
        (SubjectModel::NamedNode(x), Some(id)) => Some((id, x)),
        _ => None,
    }
}

/// The largest entry id in the dataset (zero when there is none).
pub open spec fn max_txn_id(s: Seq<QuadModel>) -> nat
    decreases s.len(),
{
    if s.len() == 0 {
        0
    } else {
        let m = max_txn_id(s.drop_last());
        match counted_id(s.last()) {
            Some(id) => if id > m { id as nat } else { m },
            None => m,
        }
    }
}

fn quad_txn_id(q: &Quad, graph: &String, p_id: &String) -> (r: Option<u64>)
    requires
        graph@ == log_graph(),
        p_id@ == pred_txn_id(),
    ensures
        r == counted_id(q@),
{
    let in_graph = match &q.graph_name {
        GraphName::NamedNode(g) => *g == *graph,
        _ => false,
    };
    if in_graph && q.predicate == *p_id {
        match &q.object {
            Term::Literal(l) => parse_u64_str(l.value()),
            _ => None,
        }
    } else {
        None
    }
}

fn quad_id_row(q: &Quad, graph: &String, p_id: &String) -> (r: Option<(u64, String)>)
    requires
        graph@ == log_graph(),
        p_id@ == pred_txn_id(),
    ensures
        match id_row(q@) {
            Some((id, x)) => r matches Some((i, y)) && i == id && y@ == x,
            None => r is None,
        },
{
    match &q.subject {
        Subject::NamedNode(x) => match quad_txn_id(q, graph, p_id) {
            Some(id) => Some((id, x.clone())),
            None => None,
        },
        Subject::BlankNode(_) => None,
    }
}

/// The id rows of the dataset, in dataset order.
pub open spec fn id_rows(s: Seq<QuadModel>) -> Seq<(u64, Seq<char>)>
    decreases s.len(),
{
    if s.len() == 0 {
        Seq::empty()
    } else {
        id_rows(s.drop_last()) + match id_row(s.last()) {
            Some(r) => seq![r],
            None => Seq::empty(),
        }
    }
}

/// Inserts a row into rows sorted by descending id, after every row whose id
/// is not smaller (so rows with equal ids keep their order).
pub open spec fn insert_desc(rows: Seq<(u64, Seq<char>)>, r: (u64, Seq<char>)) -> Seq<(u64, Seq<char>)>
    decreases rows.len(),
{
    if rows.len() == 0 {
        seq![r]
    } else if rows.last().0 >= r.0 {
        rows.push(r)
    } else {
        insert_desc(rows.drop_last(), r).push(rows.last())
    }
}

/// Stable sort by descending id.
pub open spec fn sort_desc(rows: Seq<(u64, Seq<char>)>) -> Seq<(u64, Seq<char>)>
    decreases rows.len(),
{
    if rows.len() == 0 {
        Seq::empty()
    } else {
        insert_desc(sort_desc(rows.drop_last()), rows.last())
    }
}

/// At most `limit` elements starting at `offset`.
pub open spec fn page<T>(rows: Seq<T>, offset: nat, limit: nat) -> Seq<T> {
    if offset >= rows.len() {
        Seq::empty()
    } else if offset + limit >= rows.len() {
        rows.skip(offset as int)
    } else {
        rows.subrange(offset as int, (offset + limit) as int)
    }
}

/// The entries that a listing shows: newest first, without their quads.
pub open spec fn listed_entries(s: Seq<QuadModel>, offset: nat, limit: nat) -> Seq<EntryModel> {
    page(sort_desc(id_rows(s)), offset, limit).map_values(
        |row: (u64, Seq<char>)| read_entry(s, row.0, row.1, false))
}

/// Plain values of id rows.
pub open spec fn rows_view(v: Seq<(u64, String)>) -> Seq<(u64, Seq<char>)> {
    v.map_values(|r: (u64, String)| (r.0, r.1@))
}

fn insert_row_desc(rows: &mut Vec<(u64, String)>, row: (u64, String))
    ensures
        rows_view(final(rows)@) == insert_desc(rows_view(old(rows)@), (row.0, row.1@)),
{
    let ghost v = rows_view(rows@);
    let ghost r = (row.0, row.1@);
    let mut p = rows.len();
    assert(v.take(p as int) =~= v);
    assert(v.skip(p as int) =~= Seq::<(u64, Seq<char>)>::empty());
    while p > 0 && rows[p - 1].0 < row.0
        invariant
            p <= rows@.len(),
            v == rows_view(rows@),
            r == (row.0, row.1@),
            insert_desc(v, r) == insert_desc(v.take(p as int), r) + v.skip(p as int),
        decreases p,
    {
        let ghost t = v.take(p as int);
        assert(t.drop_last() =~= v.take(p - 1));
        assert(t.last() == v[p - 1]);
        assert(v.skip(p - 1) =~= seq![v[p - 1]] + v.skip(p as int));
        assert(insert_desc(t, r) + v.skip(p as int) =~= insert_desc(v.take(p - 1), r) + v.skip(p - 1));
        p = p - 1;
    }
    let ghost t = v.take(p as int);
    proof {
        if p > 0 {
            assert(t.last() == v[p - 1]);
        }
    }
    rows.insert(p, row);
    assert(rows_view(rows@) =~= insert_desc(t, r) + v.skip(p as int));
}

// ---------------------------------------------------------------------------
// Pruning
// ---------------------------------------------------------------------------

/// Subjects of the entries whose id is at most `cutoff`, in dataset order.
pub open spec fn stale_subjects(s: Seq<QuadModel>, cutoff: u64) -> Seq<Seq<char>>
    decreases s.len(),
{
    if s.len() == 0 {
        Seq::empty()
    } else {
        stale_subjects(s.drop_last(), cutoff) + match id_row(s.last()) {
            Some((id, x)) => if id <= cutoff { seq![x] } else { Seq::empty() },
            None => Seq::empty(),
        }
    }
}

/// The dataset after pruning for the entry `current`: when `current` exceeds
/// `retain`, every log quad of an entry with id at most `current - retain`
/// is removed.
pub open spec fn pruned(s: Seq<QuadModel>, current: u64, retain: nat) -> Seq<QuadModel> {
    if current <= retain {
        s
    } else {
        let doomed = stale_subjects(s, (current - retain) as u64);
        s.filter(|q: QuadModel| !(in_named_graph(q, log_graph()) && subject_among(q, doomed)))
    }
}

// ---------------------------------------------------------------------------
// Recording
// ---------------------------------------------------------------------------

/// Quads inserted by the operations, in order.
pub open spec fn inserted_of(ops: Seq<OpModel>) -> Seq<QuadModel>
    decreases ops.len(),
{
    if ops.len() == 0 {
        Seq::empty()
    } else {
        inserted_of(ops.drop_last()) + match ops.last() {
            OpModel::InsertQuads(qs) => qs,
            _ => Seq::empty(),
        }
    }
}

/// Quads removed by the operations, in order.
pub open spec fn removed_of(ops: Seq<OpModel>) -> Seq<QuadModel>
    decreases ops.len(),
{
    if ops.len() == 0 {
        Seq::empty()
    } else {
        removed_of(ops.drop_last()) + match ops.last() {
            OpModel::RemoveQuads(qs) => qs,
            _ => Seq::empty(),
        }
    }
}

/// Whether any operation is a SPARQL update.
pub open spec fn has_update(ops: Seq<OpModel>) -> bool {
    exists|i: int| 0 <= i < ops.len() && #[trigger] ops[i] is SparqlUpdate
}

/// The entry recorded for the operations, with the given id and time.
pub open spec fn recorded_entry(id: u64, secs: u64, ops: Seq<OpModel>, operation: Seq<char>) -> EntryModel {
    EntryModel {
        id,
        timestamp: timestamp_text(secs),
        operation,
        inserted: inserted_of(ops),
        removed: removed_of(ops),
        undoable: !has_update(ops) && inserted_of(ops).len() + removed_of(ops).len() <= MAX_UNDOABLE_QUADS,
    }
}

/// The dataset after recording `e`: its quads written, then pruned when a
/// retention is set.
pub open spec fn after_record(s: Seq<QuadModel>, e: EntryModel, retain: nat) -> Seq<QuadModel> {
    let written = insert_all(s, entry_quads(e));
    if retain > 0 { pruned(written, e.id, retain) } else { written }
}

fn extend_copies(out: &mut Vec<Quad>, qs: &[Quad])
    ensures
        quads_view(final(out)@) == quads_view(old(out)@) + quads_view(qs@),
{
    let mut i: usize = 0;
    while i < qs.len()
        invariant
            i <= qs@.len(),
            quads_view(out@) == quads_view(old(out)@) + quads_view(qs@.take(i as int)),
        decreases qs@.len() - i,
    {
        let ghost before = quads_view(out@);
        out.push(qs[i].copy());
        assert(quads_view(out@) =~= before.push(qs@[i as int]@));
        assert(quads_view(qs@.take(i + 1)) =~= quads_view(qs@.take(i as int)).push(qs@[i as int]@));
        i = i + 1;
    }
    assert(qs@.take(i as int) =~= qs@);
}

/// The largest entry id recorded in the dataset (0 when there is none).
pub fn max_entry_id(store: &QuadStore) -> (r: u64)
    ensures
        r as nat == max_txn_id(store@),
{
        let graph = log_graph_name();
        let p_id = "urn:oxigraph:txnId".to_owned();
        let qs = store.quads();
        let ghost s = quads_view(qs@);
        let mut max_id: u64 = 0;
        let mut i: usize = 0;
        while i < qs.len()
            invariant
                i <= qs@.len(),
                s == quads_view(qs@),
                s == store@,
                graph@ == log_graph(),
                p_id@ == pred_txn_id(),
                max_id as nat == max_txn_id(s.take(i as int)),
            decreases qs@.len() - i,
        {
            proof {
                assert(s.take(i + 1).drop_last() =~= s.take(i as int));
                assert(s.take(i + 1).last() == qs@[i as int]@);
            }
            match quad_txn_id(&qs[i], &graph, &p_id) {
                Some(id) => {
                    if id > max_id {
                        max_id = id;
                    }
                }
                None => {}
            }
            i = i + 1;
        }
        assert(s.take(i as int) =~= s);
        max_id
}

// ---------------------------------------------------------------------------
// The changelog
// ---------------------------------------------------------------------------

/// Records committed transaction deltas and supports undo.
pub struct Changelog {
    enabled: bool,
    retain: usize,
    counter: u64,
}

/// Plain-value model of a changelog: whether it records, how many entries
/// it keeps (zero: all) and the id of the next entry.
pub struct ChangelogState {
    pub enabled: bool,
    pub retain: nat,
    pub counter: u64,
}

impl View for Changelog {
    type V = ChangelogState;

    closed spec fn view(&self) -> ChangelogState {
        ChangelogState { enabled: self.enabled, retain: self.retain as nat, counter: self.counter }
    }
}

/// Plain value of a result holding an entry.
pub open spec fn entry_result_view(r: Result<ChangelogEntry, ChangelogError>) -> Result<EntryModel, ChangelogErrorModel> {
    match r {
        Ok(e) => Ok(e@),
        Err(e) => Err(e@),
    }
}

/// Plain value of a result holding an optional entry.
pub open spec fn found_result_view(r: Result<Option<ChangelogEntry>, ChangelogError>) -> Result<Option<EntryModel>, ChangelogErrorModel> {
    match r {
        Ok(Some(e)) => Ok(Some(e@)),
        Ok(None) => Ok(None),
        Err(e) => Err(e@),
    }
}

/// What reading the entry `id` gives.
pub open spec fn get_outcome(enabled: bool, s: Seq<QuadModel>, id: u64) -> Result<Option<EntryModel>, ChangelogErrorModel> {
    if !enabled {
        Err(ChangelogErrorModel::Disabled)
    } else if !has_entry(s, entry_subject(id)) {
        Ok(None)
    } else {
        Ok(Some(read_entry(s, id, entry_subject(id), true)))
    }
}

/// Result, changelog state and dataset after recording `ops` at `secs`.
pub open spec fn record_outcome(st: ChangelogState, s: Seq<QuadModel>, ops: Seq<OpModel>, operation: Seq<char>, secs: u64)
    -> (Result<EntryModel, ChangelogErrorModel>, ChangelogState, Seq<QuadModel>)
{
    if !st.enabled {
        (Err(ChangelogErrorModel::Disabled), st, s)
    } else {
        let e = recorded_entry(st.counter, secs, ops, operation);
        (Ok(e), ChangelogState { counter: vstd::wrapping::u64_specs::wrapping_add(st.counter, 1), ..st },
            after_record(s, e, st.retain))
    }
}

/// The operations that undo an entry: put back what it removed, take out
/// what it inserted.
pub open spec fn undo_ops(e: EntryModel) -> Seq<OpModel> {
    seq![OpModel::InsertQuads(e.removed), OpModel::RemoveQuads(e.inserted)]
}

/// The operation name of the undo of entry `id`.
pub open spec fn undo_operation(id: u64) -> Seq<char> {
    "undo:"@ + decimal(id as nat)
}

/// Result, changelog state and dataset after undoing entry `id` at `secs`.
pub open spec fn undo_outcome(st: ChangelogState, s: Seq<QuadModel>, id: u64, secs: u64)
    -> (Result<EntryModel, ChangelogErrorModel>, ChangelogState, Seq<QuadModel>)
{
    match get_outcome(st.enabled, s, id) {
        Err(e) => (Err(e), st, s),
        Ok(None) => (Err(ChangelogErrorModel::NotFound), st, s),
        Ok(Some(e)) => if !e.undoable {
            (Err(ChangelogErrorModel::NotUndoable), st, s)
        } else {
            record_outcome(st, remove_all(insert_all(s, e.removed), e.inserted), undo_ops(e), undo_operation(id), secs)
        },
    }
}

impl Changelog {
    pub fn new(enabled: bool, retain: usize) -> (r: Self)
        ensures
            r@ == (ChangelogState { enabled, retain: retain as nat, counter: 1 }),
    {
        Changelog { enabled, retain, counter: 1 }
    }

    pub fn is_enabled(&self) -> (r: bool)
        ensures
            r == self@.enabled,
    {
        self.enabled
    }

    /// Sets the next id to one past the largest entry id in the dataset
    /// (nothing happens when disabled).
    pub fn init_counter(&mut self, store: &QuadStore)
        requires
            old(self)@.enabled ==> max_txn_id(store@) < u64::MAX,
        ensures
            final(self)@ == (if old(self)@.enabled {
                ChangelogState { counter: (max_txn_id(store@) + 1) as u64, ..old(self)@ }
            } else {
                old(self)@
            }),
    {
        if !self.enabled {
            return;
        }
        let max_id = max_entry_id(store);
        self.counter = max_id + 1;
    }

    /// Reads the entry `id` with its inserted and removed quads.
    pub fn get(&self, store: &QuadStore, id: u64) -> (r: Result<Option<ChangelogEntry>, ChangelogError>)
        ensures
            found_result_view(r) == get_outcome(self@.enabled, store@, id),
    {
        if !self.enabled {
            return Err(ChangelogError::Disabled);
        }
        let subj = entry_subject_string(id);
        let scan = scan_fields(store.quads(), &subj, true);
        if !scan.found {
            return Ok(None);
        }
        Ok(Some(ChangelogEntry {
            id,
            timestamp: scan.timestamp,
            operation: scan.operation,
            inserted: parse_nquads(scan.inserted.as_str()),
            removed: parse_nquads(scan.removed.as_str()),
            undoable: scan.undoable,
        }))
    }

    /// Lists entries newest first: at most `limit` of them after skipping
    /// `offset`, without their quads.
    pub fn list(&self, store: &QuadStore, offset: usize, limit: usize) -> (r: Result<Vec<ChangelogEntry>, ChangelogError>)
        ensures
            match r {
                Ok(v) => self@.enabled && entries_view(v@) == listed_entries(store@, offset as nat, limit as nat),
                Err(e) => !self@.enabled && e@ == ChangelogErrorModel::Disabled,
            },
    {
        if !self.enabled {
            return Err(ChangelogError::Disabled);
        }
        let graph = log_graph_name();
        let p_id = "urn:oxigraph:txnId".to_owned();
        let qs = store.quads();
        let ghost s = quads_view(qs@);
        let mut rows: Vec<(u64, String)> = Vec::new();
        let mut i: usize = 0;
        while i < qs.len()
            invariant
                i <= qs@.len(),
                s == quads_view(qs@),
                graph@ == log_graph(),
                p_id@ == pred_txn_id(),
                rows_view(rows@) == sort_desc(id_rows(s.take(i as int))),
            decreases qs@.len() - i,
        {
            let ghost t = s.take(i + 1);
            proof {
                assert(t.drop_last() =~= s.take(i as int));
                assert(t.last() == qs@[i as int]@);
            }
            match quad_id_row(&qs[i], &graph, &p_id) {
                Some(row) => {
                    proof {
                        let r = (row.0, row.1@);
                        assert(id_rows(t) =~= id_rows(s.take(i as int)).push(r));
                        assert(id_rows(t).drop_last() =~= id_rows(s.take(i as int)));
                    }
                    insert_row_desc(&mut rows, row);
                }
                None => {
                    assert(id_rows(t) =~= id_rows(s.take(i as int)));
                }
            }
            i = i + 1;
        }
        assert(s.take(i as int) =~= s);
        let ghost sorted = rows_view(rows@);
        let n = rows.len();
        let end = if offset >= n { n } else if limit >= n - offset { n } else { offset + limit };
        let mut result: Vec<ChangelogEntry> = Vec::new();
        let mut k = if offset >= n { n } else { offset };
        let ghost start = k;
        while k < end
            invariant
                start <= k <= end <= n == rows@.len(),
                sorted == rows_view(rows@),
                s == store@,
                entries_view(result@) == sorted.subrange(start as int, k as int).map_values(
                    |row: (u64, Seq<char>)| read_entry(s, row.0, row.1, false)),
            decreases end - k,
        {
            let scan = scan_fields(store.quads(), &rows[k].1, false);
            let e = ChangelogEntry {
                id: rows[k].0,
                timestamp: scan.timestamp,
                operation: scan.operation,
                inserted: Vec::new(),
                removed: Vec::new(),
                undoable: scan.undoable,
            };
            let ghost before = entries_view(result@);
            proof {
                assert(sorted[k as int] == (rows@[k as int].0, rows@[k as int].1@));
                assert(quads_view(e.inserted@) =~= Seq::<QuadModel>::empty());
                assert(quads_view(e.removed@) =~= Seq::<QuadModel>::empty());
                assert(e@ == read_entry(s, sorted[k as int].0, sorted[k as int].1, false));
            }
            result.push(e);
            proof {
                assert(entries_view(result@) =~= before.push(read_entry(s, sorted[k as int].0, sorted[k as int].1, false)));
                assert(sorted.subrange(start as int, k + 1) =~= sorted.subrange(start as int, k as int).push(sorted[k as int]));
            }
            k = k + 1;
        }
        proof {
            let p = page(sorted, offset as nat, limit as nat);
            assert(sorted.subrange(start as int, end as int) =~= p);
        }
        Ok(result)
    }
}

impl Changelog {
    /// Records a transaction's operations as an entry at time `secs`
    /// (seconds since the Unix epoch).
    pub fn record_at(&mut self, store: &mut QuadStore, ops: &[BufferedOp], operation: &str, secs: u64)
        -> (r: Result<ChangelogEntry, ChangelogError>)
        ensures
            (entry_result_view(r), final(self)@, final(store)@)
                == record_outcome(old(self)@, old(store)@, ops_view(ops@), operation@, secs),
    {
        if !self.enabled {
            return Err(ChangelogError::Disabled);
        }
        let id = self.counter;
        self.counter = self.counter.wrapping_add(1);
        let timestamp = format_timestamp_at(secs);
        let ghost all = ops_view(ops@);
        let mut inserted: Vec<Quad> = Vec::new();
        let mut removed: Vec<Quad> = Vec::new();
        let mut has_sparql_updates = false;
        let mut i: usize = 0;
        while i < ops.len()
            invariant
                i <= ops@.len(),
                all == ops_view(ops@),
                quads_view(inserted@) == inserted_of(all.take(i as int)),
                quads_view(removed@) == removed_of(all.take(i as int)),
                has_sparql_updates == has_update(all.take(i as int)),
            decreases ops@.len() - i,
        {
            let ghost t = all.take(i + 1);
            proof {
                assert(t.drop_last() =~= all.take(i as int));
                assert(t.last() == ops@[i as int]@);
                assert(has_update(t) == (has_update(all.take(i as int)) || t.last() is SparqlUpdate)) by {
                    if t.last() is SparqlUpdate {
                        assert(t[i as int] is SparqlUpdate);
                    }
                    if has_update(all.take(i as int)) {
                        let j = choose|j: int| 0 <= j < i && #[trigger] all.take(i as int)[j] is SparqlUpdate;
                        assert(t[j] == all.take(i as int)[j]);
                    }
                    if has_update(t) && !(t.last() is SparqlUpdate) {
                        let j = choose|j: int| 0 <= j < i + 1 && #[trigger] t[j] is SparqlUpdate;
                        assert(all.take(i as int)[j] == t[j]);
                    }
                }
            }
            match &ops[i] {
                BufferedOp::InsertQuads(qs) => {
                    extend_copies(&mut inserted, qs.as_slice());
                    assert(removed_of(t) =~= removed_of(all.take(i as int)));
                }
                BufferedOp::RemoveQuads(qs) => {
                    extend_copies(&mut removed, qs.as_slice());
                    assert(inserted_of(t) =~= inserted_of(all.take(i as int)));
                }
                BufferedOp::SparqlUpdate(_) => {
                    has_sparql_updates = true;
                    assert(inserted_of(t) =~= inserted_of(all.take(i as int)));
                    assert(removed_of(t) =~= removed_of(all.take(i as int)));
                }
            }
            i = i + 1;
        }
        assert(all.take(i as int) =~= all);
        let undoable = !has_sparql_updates && inserted.len() <= MAX_UNDOABLE_QUADS
            && removed.len() <= MAX_UNDOABLE_QUADS - inserted.len();
        let entry = ChangelogEntry {
            id,
            timestamp,
            operation: operation.to_owned(),
            inserted,
            removed,
            undoable,
        };
        write_entry_to_store(store, &entry);
        if self.retain > 0 {
            self.prune(store, id);
        }
        Ok(entry)
    }

    /// Records a transaction's operations as an entry stamped with the
    /// current time.
    pub fn record(&mut self, store: &mut QuadStore, ops: &[BufferedOp], operation: &str)
        -> (r: Result<ChangelogEntry, ChangelogError>)
        ensures
            exists|secs: u64| (entry_result_view(r), final(self)@, final(store)@)
                == #[trigger] record_outcome(old(self)@, old(store)@, ops_view(ops@), operation@, secs),
    {
        let secs = unix_time_secs();
        self.record_at(store, ops, operation, secs)
    }

    /// Removes the log quads of entries old enough to fall out of retention.
    fn prune(&self, store: &mut QuadStore, current_id: u64)
        ensures
            final(store)@ == pruned(old(store)@, current_id, self@.retain),
    {
        if current_id <= self.retain as u64 {
            return;
        }
        let cutoff_id = current_id - self.retain as u64;
        let graph = log_graph_name();
        let p_id = "urn:oxigraph:txnId".to_owned();
        let qs = store.quads();
        let ghost s = quads_view(qs@);
        let mut subjects: Vec<String> = Vec::new();
        let mut i: usize = 0;
        while i < qs.len()
            invariant
                i <= qs@.len(),
                s == quads_view(qs@),
                graph@ == log_graph(),
                p_id@ == pred_txn_id(),
                strings_view(subjects@) == stale_subjects(s.take(i as int), cutoff_id),
            decreases qs@.len() - i,
        {
            let ghost t = s.take(i + 1);
            proof {
                assert(t.drop_last() =~= s.take(i as int));
                assert(t.last() == qs@[i as int]@);
            }
            match quad_id_row(&qs[i], &graph, &p_id) {
                Some((id, subj)) => {
                    if id <= cutoff_id {
                        let ghost before = strings_view(subjects@);
                        subjects.push(subj);
                        assert(strings_view(subjects@) =~= before.push(subjects@[subjects@.len() - 1]@));
                        assert(stale_subjects(t, cutoff_id) =~= stale_subjects(s.take(i as int), cutoff_id).push(strings_view(subjects@).last()));
                    } else {
                        assert(stale_subjects(t, cutoff_id) =~= stale_subjects(s.take(i as int), cutoff_id));
                    }
                }
                None => {
                    assert(stale_subjects(t, cutoff_id) =~= stale_subjects(s.take(i as int), cutoff_id));
                }
            }
            i = i + 1;
        }
        assert(s.take(i as int) =~= s);
        store.remove_subjects_in_graph(&graph, subjects.as_slice());
    }

    /// Undoes entry `id` at time `secs`: puts back the quads it removed,
    /// takes out those it inserted, and records that as a new entry.
    pub fn undo_at(&mut self, store: &mut QuadStore, id: u64, secs: u64) -> (r: Result<ChangelogEntry, ChangelogError>)
        ensures
            (entry_result_view(r), final(self)@, final(store)@) == undo_outcome(old(self)@, old(store)@, id, secs),
    {
        let entry = match self.get(store, id) {
            Ok(Some(e)) => e,
            Ok(None) => return Err(ChangelogError::NotFound),
            Err(e) => return Err(e),
        };
        if !entry.undoable {
            return Err(ChangelogError::NotUndoable);
        }
        store.insert_quads(entry.removed.as_slice());
        store.remove_quads(entry.inserted.as_slice());
        let inverse_ops = vec![
            BufferedOp::InsertQuads(copy_quads(entry.removed.as_slice())),
            BufferedOp::RemoveQuads(copy_quads(entry.inserted.as_slice())),
        ];
        assert(ops_view(inverse_ops@) =~= undo_ops(entry@));
        let mut operation = "undo:".to_owned();
        push_decimal(&mut operation, id);
        self.record_at(store, inverse_ops.as_slice(), operation.as_str(), secs)
    }

    /// Undoes entry `id`, stamping the new entry with the current time.
    pub fn undo(&mut self, store: &mut QuadStore, id: u64) -> (r: Result<ChangelogEntry, ChangelogError>)
        ensures
            exists|secs: u64| (entry_result_view(r), final(self)@, final(store)@)
                == #[trigger] undo_outcome(old(self)@, old(store)@, id, secs),
    {
        let secs = unix_time_secs();
        self.undo_at(store, id, secs)
    }

    /// Removes every quad of the log graph; returns how many there were.
    pub fn purge(&self, store: &mut QuadStore) -> (r: Result<usize, ChangelogError>)
        ensures
            match r {
                Ok(n) => self@.enabled
                    && final(store)@ == old(store)@.filter(|q: QuadModel| !in_named_graph(q, log_graph()))
                    && n == old(store)@.len() - final(store)@.len(),
                Err(e) => !self@.enabled && e@ == ChangelogErrorModel::Disabled && final(store)@ == old(store)@,
            },
    {
        if !self.enabled {
            return Err(ChangelogError::Disabled);
        }
        let graph = log_graph_name();
        let count = store.remove_graph(&graph);
        Ok(count)
    }
}

// ---------------------------------------------------------------------------
// JSON
// ---------------------------------------------------------------------------

/// JSON escape of one character: backslash, quote, line feed, carriage
/// return and tab are escaped; every other character stands as it is.
pub open spec fn json_escape_char(c: char) -> Seq<char> {
    if c == '\\' {
        seq!['\\', '\\']
    } else if c == '"' {
        seq!['\\', '"']
    } else if c == '\n' {
        seq!['\\', 'n']
    } else if c == '\r' {
        seq!['\\', 'r']
    } else if c == '\t' {
        seq!['\\', 't']
    } else {
        seq![c]
    }
}

/// JSON escape of a string, character by character.
pub open spec fn json_escaped(v: Seq<char>) -> Seq<char>
    decreases v.len(),
{
    if v.len() == 0 {
        Seq::empty()
    } else {
        json_escape_char(v[0]) + json_escaped(v.drop_first())
    }
}

/// JSON object that lists an entry.
pub open spec fn list_json(e: EntryModel) -> Seq<char> {
    "{\"id\":"@ + decimal(e.id as nat) + ",\"timestamp\":\""@ + json_escaped(e.timestamp)
        + "\",\"operation\":\""@ + json_escaped(e.operation) + "\",\"undoable\":"@ + bool_text(e.undoable)
        + "}"@
}

/// JSON object that details an entry, with its quads as N-Quads text.
pub open spec fn detail_json(e: EntryModel) -> Seq<char> {
    "{\"id\":"@ + decimal(e.id as nat) + ",\"timestamp\":\""@ + json_escaped(e.timestamp)
        + "\",\"operation\":\""@ + json_escaped(e.operation) + "\",\"undoable\":"@ + bool_text(e.undoable)
        + ",\"insertCount\":"@ + decimal(e.inserted.len()) + ",\"removeCount\":"@ + decimal(e.removed.len())
        + ",\"inserted\":\""@ + json_escaped(nquads_text(e.inserted)) + "\",\"removed\":\""@
        + json_escaped(nquads_text(e.removed)) + "\"}"@
}

fn push_json_escaped(out: &mut String, v: &str)
    ensures
        final(out)@ == old(out)@ + json_escaped(v@),
{
    let chars = str_chars(v);
    let ghost start = out@;
    let mut i: usize = 0;
    assert(chars@.skip(0) =~= v@);
    while i < chars.len()
        invariant
            i <= chars@.len(),
            chars@ == v@,
            out@ + json_escaped(chars@.skip(i as int)) == start + json_escaped(v@),
        decreases chars@.len() - i,
    {
        let ghost before = out@;
        let c = chars[i];
        assert(chars@.skip(i as int).drop_first() =~= chars@.skip(i + 1));
        assert(chars@.skip(i as int)[0] == c);
        if c == '\\' {
            push_char(out, '\\');
            push_char(out, '\\');
        } else if c == '"' {
            push_char(out, '\\');
            push_char(out, '"');
        } else if c == '\n' {
            push_char(out, '\\');
            push_char(out, 'n');
        } else if c == '\r' {
            push_char(out, '\\');
            push_char(out, 'r');
        } else if c == '\t' {
            push_char(out, '\\');
            push_char(out, 't');
        } else {
            push_char(out, c);
        }
        assert(out@ =~= before + json_escape_char(c));
        assert(before + json_escaped(chars@.skip(i as int)) =~= out@ + json_escaped(chars@.skip(i + 1)));
        i = i + 1;
    }
    assert(chars@.skip(i as int) =~= Seq::<char>::empty());
    assert(out@ =~= start + json_escaped(v@));
}

fn push_bool(out: &mut String, b: bool)
    ensures
        final(out)@ == old(out)@ + bool_text(b),
{
    if b {
        push_str(out, "true");
    } else {
        push_str(out, "false");
    }
}

/// The JSON object that lists an entry.
pub fn entry_to_list_json(entry: &ChangelogEntry) -> (r: String)
    ensures
        r@ == list_json(entry@),
{
    let mut out = String::new();
    push_str(&mut out, "{\"id\":");
    push_decimal(&mut out, entry.id);
    push_str(&mut out, ",\"timestamp\":\"");
    push_json_escaped(&mut out, entry.timestamp.as_str());
    push_str(&mut out, "\",\"operation\":\"");
    push_json_escaped(&mut out, entry.operation.as_str());
    push_str(&mut out, "\",\"undoable\":");
    push_bool(&mut out, entry.undoable);
    push_str(&mut out, "}");
    assert(out@ =~= list_json(entry@));
    out
}

/// The JSON object that details an entry, with its quads as N-Quads text.
pub fn entry_to_detail_json(entry: &ChangelogEntry) -> (r: String)
    ensures
        r@ == detail_json(entry@),
{
    let inserted_nq = quads_to_nquads(entry.inserted.as_slice());
    let removed_nq = quads_to_nquads(entry.removed.as_slice());
    let mut out = String::new();
    push_str(&mut out, "{\"id\":");
    push_decimal(&mut out, entry.id);
    push_str(&mut out, ",\"timestamp\":\"");
    push_json_escaped(&mut out, entry.timestamp.as_str());
    push_str(&mut out, "\",\"operation\":\"");
    push_json_escaped(&mut out, entry.operation.as_str());
    push_str(&mut out, "\",\"undoable\":");
    push_bool(&mut out, entry.undoable);
    push_str(&mut out, ",\"insertCount\":");
    push_decimal(&mut out, entry.inserted.len() as u64);
    push_str(&mut out, ",\"removeCount\":");
    push_decimal(&mut out, entry.removed.len() as u64);
    push_str(&mut out, ",\"inserted\":\"");
    push_json_escaped(&mut out, inserted_nq.as_str());
    push_str(&mut out, "\",\"removed\":\"");
    push_json_escaped(&mut out, removed_nq.as_str());
    push_str(&mut out, "\"}");
    assert(out@ =~= detail_json(entry@));
    out
}

} // verus!
