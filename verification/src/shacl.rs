//! SHACL validation settings, errors and report text.
use vstd::prelude::*;
use crate::text::{push_char, push_str, push_decimal, str_chars, decimal};
use crate::nquads::{find_char, lemma_find_char_bound, find_from, string_of};
use crate::store::{strings_view, Quad, QuadModel, QuadStore, GraphName, GraphModel, quads_view};
use crate::nquads::{quad_line, push_quad_line};

verus! {

/// Validation mode for SHACL enforcement.
#[derive(Clone, Copy, Debug, PartialEq, Eq, Structural)]
pub enum ShaclMode {
    /// No validation (the default).
    Off,
    /// Log validation failures but accept data.
    Warn,
    /// Reject data that fails validation.
    Enforce,
}

impl Default for ShaclMode {
    fn default() -> (r: Self)
        ensures
            r == ShaclMode::Off,
    {
        ShaclMode::Off
    }
}

/// The name of a mode: `off`, `warn` or `enforce`.
pub open spec fn mode_name(m: ShaclMode) -> Seq<char> {
    match m {
        ShaclMode::Off => "off"@,
        ShaclMode::Warn => "warn"@,
        ShaclMode::Enforce => "enforce"@,
    }
}

/// The mode a command-line value names (`strict` is another name for
/// `enforce`).
pub open spec fn mode_of_arg(s: Seq<char>) -> Option<ShaclMode> {
    if s == "off"@ {
        Some(ShaclMode::Off)
    } else if s == "enforce"@ || s == "strict"@ {
        Some(ShaclMode::Enforce)
    } else if s == "warn"@ {
        Some(ShaclMode::Warn)
    } else {
        None
    }
}

/// The message for a command-line value that names no mode.
pub open spec fn unknown_mode_text(s: Seq<char>) -> Seq<char> {
    "Unknown SHACL mode: "@ + s + ". Supported: off, enforce, warn"@
}

fn str_eq(a: &str, b: &str) -> (r: bool)
    ensures
        r == (a@ == b@),
{
    a.to_owned() == b.to_owned()
}

impl ShaclMode {
    /// Reads a mode from a command-line value: `off`, `enforce` (or
    /// `strict`) or `warn`.
    pub fn from_str(s: &str) -> (r: Result<ShaclMode, String>)
        ensures
            match mode_of_arg(s@) {
                Some(m) => r == Ok::<ShaclMode, String>(m),
                None => r matches Err(e) && e@ == unknown_mode_text(s@),
            },
    {
        if str_eq(s, "off") {
            Ok(ShaclMode::Off)
        } else if str_eq(s, "enforce") || str_eq(s, "strict") {
            Ok(ShaclMode::Enforce)
        } else if str_eq(s, "warn") {
            Ok(ShaclMode::Warn)
        } else {
            let mut e = "Unknown SHACL mode: ".to_owned();
            push_str(&mut e, s);
            push_str(&mut e, ". Supported: off, enforce, warn");
            Err(e)
        }
    }

    /// The name of the mode: `off`, `warn` or `enforce`.
    pub fn as_str(&self) -> (r: &'static str)
        ensures
            r@ == mode_name(*self),
    {
        match self {
            ShaclMode::Off => "off",
            ShaclMode::Warn => "warn",
            ShaclMode::Enforce => "enforce",
        }
    }
}

/// The name of a mode, as the server reports it.
pub fn shacl_mode_str(mode: ShaclMode) -> (r: &'static str)
    ensures
        r@ == mode_name(mode),
{
    mode.as_str()
}

/// Errors that can occur during SHACL validation.
#[derive(Debug)]
pub enum ShaclError {
    /// Failed to compile SHACL shapes from input.
    ShapeCompilation(String),
    /// Failed to serialize store data for validation.
    StoreSerialization(String),
    /// Failed to load data into the validation engine.
    DataLoading(String),
    /// The validation engine returned an error.
    ValidationEngine(String),
}

/// The message of a SHACL error.
pub open spec fn shacl_error_text(e: ShaclError) -> Seq<char> {
    match e {
        ShaclError::ShapeCompilation(m) => "Failed to compile SHACL shapes: "@ + m@,
        ShaclError::StoreSerialization(m) => "Failed to serialize store data: "@ + m@,
        ShaclError::DataLoading(m) => "Failed to load data for validation: "@ + m@,
        ShaclError::ValidationEngine(m) => "Validation engine error: "@ + m@,
    }
}

impl ShaclError {
    /// The message shown for this error.
    pub fn message(&self) -> (r: String)
        ensures
            r@ == shacl_error_text(*self),
    {
        let mut out = String::new();
        match self {
            ShaclError::ShapeCompilation(m) => {
                push_str(&mut out, "Failed to compile SHACL shapes: ");
                push_str(&mut out, m.as_str());
            }
            ShaclError::StoreSerialization(m) => {
                push_str(&mut out, "Failed to serialize store data: ");
                push_str(&mut out, m.as_str());
            }
            ShaclError::DataLoading(m) => {
                push_str(&mut out, "Failed to load data for validation: ");
                push_str(&mut out, m.as_str());
            }
            ShaclError::ValidationEngine(m) => {
                push_str(&mut out, "Validation engine error: ");
                push_str(&mut out, m.as_str());
            }
        }
        out
    }
}

// ---------------------------------------------------------------------------
// Report text
// ---------------------------------------------------------------------------

/// Lower-case hexadecimal digit.
pub open spec fn lower_hex_digit(d: nat) -> char {
    if d < 10 {
        (('0' as nat) + d) as char
    } else {
        (('a' as nat) + d - 10) as char
    }
}

/// JSON escape of one character of a report line: quote, backslash, line
/// feed, carriage return and tab by name, other control characters as
/// `\u00XX` with lower-case hexadecimal digits.
pub open spec fn report_escape_char(c: char) -> Seq<char> {
    if c == '"' {
        seq!['\\', '"']
    } else if c == '\\' {
        seq!['\\', '\\']
    } else if c == '\n' {
        seq!['\\', 'n']
    } else if c == '\r' {
        seq!['\\', 'r']
    } else if c == '\t' {
        seq!['\\', 't']
    } else if (c as u32) < 0x20 {
        seq!['\\', 'u', '0', '0', lower_hex_digit(((c as u32) / 16) as nat), lower_hex_digit(((c as u32) % 16) as nat)]
    } else {
        seq![c]
    }
}

/// JSON escape of a string, character by character.
pub open spec fn report_escaped(v: Seq<char>) -> Seq<char>
    decreases v.len(),
{
    if v.len() == 0 {
        Seq::empty()
    } else {
        report_escape_char(v[0]) + report_escaped(v.drop_first())
    }
}

/// A JSON string literal: the escaped text between quotes.
pub open spec fn json_string(v: Seq<char>) -> Seq<char> {
    seq!['"'] + report_escaped(v) + seq!['"']
}

fn lower_hex_char(d: u32) -> (c: char)
    requires
        d < 16,
    ensures
        c == lower_hex_digit(d as nat),
{
    match d {
        0 => '0',
        1 => '1',
        2 => '2',
        3 => '3',
        4 => '4',
        5 => '5',
        6 => '6',
        7 => '7',
        8 => '8',
        9 => '9',
        10 => 'a',
        11 => 'b',
        12 => 'c',
        13 => 'd',
        14 => 'e',
        _ => 'f',
    }
}

/// Quotes a string as a JSON string literal, escaping as a report does.
pub fn escape_json_string(s: &str) -> (r: String)
    ensures
        r@ == json_string(s@),
{
    let chars = str_chars(s);
    let mut out = String::new();
    push_char(&mut out, '"');
    let ghost start = out@;
    let mut i: usize = 0;
    assert(chars@.skip(0) =~= s@);
    while i < chars.len()
        invariant
            i <= chars@.len(),
            chars@ == s@,
            out@ + report_escaped(chars@.skip(i as int)) == start + report_escaped(s@),
        decreases chars@.len() - i,
    {
        let ghost before = out@;
        let c = chars[i];
        assert(chars@.skip(i as int).drop_first() =~= chars@.skip(i + 1));
        assert(chars@.skip(i as int)[0] == c);
        if c == '"' {
            push_char(&mut out, '\\');
            push_char(&mut out, '"');
        } else if c == '\\' {
            push_char(&mut out, '\\');
            push_char(&mut out, '\\');
        } else if c == '\n' {
            push_char(&mut out, '\\');
            push_char(&mut out, 'n');
        } else if c == '\r' {
            push_char(&mut out, '\\');
            push_char(&mut out, 'r');
        } else if c == '\t' {
            push_char(&mut out, '\\');
            push_char(&mut out, 't');
        } else if (c as u32) < 0x20 {
            let n = c as u32;
            push_char(&mut out, '\\');
            push_char(&mut out, 'u');
            push_char(&mut out, '0');
            push_char(&mut out, '0');
            push_char(&mut out, lower_hex_char(n / 16));
            push_char(&mut out, lower_hex_char(n % 16));
        } else {
            push_char(&mut out, c);
        }
        assert(out@ =~= before + report_escape_char(c));
        assert(before + report_escaped(chars@.skip(i as int)) =~= out@ + report_escaped(chars@.skip(i + 1)));
        i = i + 1;
    }
    assert(chars@.skip(i as int) =~= Seq::<char>::empty());
    push_char(&mut out, '"');
    assert(out@ =~= json_string(s@));
    out
}

/// Unicode white space (the `White_Space` property that std's `char::is_whitespace` uses).
pub open spec fn is_white(c: char) -> bool {
    let n = c as u32;
    (0x9 <= n && n <= 0xD) || n == 0x20 || n == 0x85 || n == 0xA0 || n == 0x1680
        || (0x2000 <= n && n <= 0x200A) || n == 0x2028 || n == 0x2029 || n == 0x202F
        || n == 0x205F || n == 0x3000
}

fn is_white_char(c: char) -> (r: bool)
    ensures
        r == is_white(c),
{
    let n = c as u32;
    (0x9 <= n && n <= 0xD) || n == 0x20 || n == 0x85 || n == 0xA0 || n == 0x1680
        || (0x2000 <= n && n <= 0x200A) || n == 0x2028 || n == 0x2029 || n == 0x202F
        || n == 0x205F || n == 0x3000
}

/// Without leading white space.
pub open spec fn trim_start(s: Seq<char>) -> Seq<char>
    decreases s.len(),
{
    if s.len() > 0 && is_white(s[0]) { trim_start(s.drop_first()) } else { s }
}

/// Without trailing white space.
pub open spec fn trim_end(s: Seq<char>) -> Seq<char>
    decreases s.len(),
{
    if s.len() > 0 && is_white(s.last()) { trim_end(s.drop_last()) } else { s }
}

/// Without leading or trailing white space.
pub open spec fn trim(s: Seq<char>) -> Seq<char> {
    trim_end(trim_start(s))
}

/// A line kept as a detail when it is not blank.
pub open spec fn kept(l: Seq<char>) -> Seq<Seq<char>> {
    if l.len() > 0 { seq![l] } else { Seq::empty() }
}

/// The non-blank lines of a text (split at line feeds), trimmed.
pub open spec fn detail_lines(s: Seq<char>) -> Seq<Seq<char>>
    decreases s.len(),
{
    match find_char(s, '\n') {
        Some(k) => {
            proof {
                lemma_find_char_bound(s, '\n');
            }
            kept(trim(s.take(k as int))) + detail_lines(s.skip(k as int + 1))
        }
        None => kept(trim(s)),
    }
}

/// One detail item: `{"detail": "<line>"}`.
pub open spec fn detail_item(l: Seq<char>) -> Seq<char> {
    "{\"detail\": "@ + json_string(l) + "}"@
}

/// Detail items joined by `, `.
pub open spec fn detail_items(lines: Seq<Seq<char>>) -> Seq<char>
    decreases lines.len(),
{
    if lines.len() == 0 {
        Seq::empty()
    } else if lines.len() == 1 {
        detail_item(lines[0])
    } else {
        detail_items(lines.drop_last()) + ", "@ + detail_item(lines.last())
    }
}

/// A validation report as JSON, from whether it conforms and its text.
pub open spec fn report_json_text(conforms: bool, text: Seq<char>) -> Seq<char> {
    "{\"conforms\": "@ + (if conforms { "true"@ } else { "false"@ }) + ", \"results_count\": "@
        + decimal(detail_lines(text).len()) + ", \"results\": ["@ + detail_items(detail_lines(text)) + "]}"@
}

/// A one-line summary of a validation report.
pub open spec fn report_summary_text(conforms: bool, text: Seq<char>) -> Seq<char> {
    if conforms {
        "All shapes conform."@
    } else {
        decimal(detail_lines(text).len()) + " violation(s) found."@
    }
}

/// The bounds of `cs[a..b]` without leading and trailing white space.
pub fn trim_range(cs: &[char], a: usize, b: usize) -> (r: (usize, usize))
    requires
        a <= b <= cs@.len(),
    ensures
        a <= r.0 <= r.1 <= b,
        cs@.subrange(r.0 as int, r.1 as int) == trim(cs@.subrange(a as int, b as int)),
{
    let mut i = a;
    while i < b && is_white_char(cs[i])
        invariant
            a <= i <= b <= cs@.len(),
            trim_start(cs@.subrange(a as int, b as int)) == trim_start(cs@.subrange(i as int, b as int)),
        decreases b - i,
    {
        assert(cs@.subrange(i as int, b as int).drop_first() =~= cs@.subrange(i + 1, b as int));
        assert(cs@.subrange(i as int, b as int)[0] == cs@[i as int]);
        i = i + 1;
    }
    proof {
        if i < b {
            assert(cs@.subrange(i as int, b as int)[0] == cs@[i as int]);
        }
    }
    let mut j = b;
    while j > i && is_white_char(cs[j - 1])
        invariant
            a <= i <= j <= b <= cs@.len(),
            trim_start(cs@.subrange(a as int, b as int)) == cs@.subrange(i as int, b as int),
            trim_end(cs@.subrange(i as int, b as int)) == trim_end(cs@.subrange(i as int, j as int)),
        decreases j - i,
    {
        assert(cs@.subrange(i as int, j as int).drop_last() =~= cs@.subrange(i as int, j - 1));
        assert(cs@.subrange(i as int, j as int).last() == cs@[j - 1]);
        j = j - 1;
    }
    proof {
        if j > i {
            assert(cs@.subrange(i as int, j as int).last() == cs@[j - 1]);
        }
    }
    (i, j)
}

/// The non-blank lines of a text, trimmed, in order.
pub fn report_details(text: &str) -> (r: Vec<String>)
    ensures
        strings_view(r@) == detail_lines(text@),
{
    let cs = str_chars(text);
    let n = cs.len();
    let mut out: Vec<String> = Vec::new();
    let mut pos: usize = 0;
    assert(cs@.subrange(0, n as int) =~= text@);
    while pos < n
        invariant
            pos <= n == cs@.len(),
            cs@ == text@,
            detail_lines(text@) == strings_view(out@) + detail_lines(cs@.subrange(pos as int, n as int)),
        decreases n - pos,
    {
        let ghost s = cs@.subrange(pos as int, n as int);
        let end = match find_from(cs.as_slice(), pos, n, '\n') {
            Some(k) => k,
            None => n,
        };
        proof {
            lemma_find_char_bound(s, '\n');
        }
        assert(s.take((end - pos) as int) =~= cs@.subrange(pos as int, end as int));
        let (a, b) = trim_range(cs.as_slice(), pos, end);
        let ghost before = strings_view(out@);
        if a < b {
            let line = string_of(cs.as_slice(), a, b);
            out.push(line);
            assert(strings_view(out@) =~= before + kept(trim(s.take((end - pos) as int))));
        } else {
            assert(strings_view(out@) =~= before + kept(trim(s.take((end - pos) as int))));
        }
        let next = if end < n { end + 1 } else { n };
        proof {
            if end < n {
                assert(s.skip((end - pos) + 1) =~= cs@.subrange(next as int, n as int));
            } else {
                assert(cs@.subrange(next as int, n as int) =~= Seq::<char>::empty());
                assert(s.take((end - pos) as int) =~= s);
                assert(detail_lines(cs@.subrange(next as int, n as int)) =~= Seq::<Seq<char>>::empty()) by {
                    assert(trim_start(Seq::<char>::empty()) =~= Seq::<char>::empty());
                    assert(trim_end(Seq::<char>::empty()) =~= Seq::<char>::empty());
                }
            }
        }
        pos = next;
    }
    proof {
        let e = cs@.subrange(pos as int, n as int);
        assert(e =~= Seq::<char>::empty());
        assert(trim_start(e) =~= e);
        assert(trim_end(e) =~= e);
        assert(strings_view(out@) + Seq::<Seq<char>>::empty() =~= strings_view(out@));
    }
    out
}

/// A validation report as JSON, from whether it conforms and its text:
/// `{"conforms": <bool>, "results_count": <n>, "results": [...]}` with one
/// `{"detail": "<line>"}` item per non-blank line, trimmed.
pub fn report_json(conforms: bool, report_text: &str) -> (r: String)
    ensures
        r@ == report_json_text(conforms, report_text@),
{
    let lines = report_details(report_text);
    let ghost lv = strings_view(lines@);
    let mut items = String::new();
    let mut i: usize = 0;
    assert(lv.take(0) =~= Seq::<Seq<char>>::empty());
    while i < lines.len()
        invariant
            i <= lines@.len(),
            lv == strings_view(lines@),
            items@ == detail_items(lv.take(i as int)),
        decreases lines@.len() - i,
    {
        let ghost before = items@;
        let ghost t = lv.take(i + 1);
        assert(t.drop_last() =~= lv.take(i as int));
        assert(t.last() == lines@[i as int]@);
        if i > 0 {
            push_str(&mut items, ", ");
        }
        push_str(&mut items, "{\"detail\": ");
        let quoted = escape_json_string(lines[i].as_str());
        push_str(&mut items, quoted.as_str());
        push_str(&mut items, "}");
        proof {
            if i == 0 {
                assert(t =~= seq![t[0]]);
                assert(items@ =~= detail_item(t[0]));
            } else {
                assert(items@ =~= before + ", "@ + detail_item(t.last()));
            }
        }
        i = i + 1;
    }
    assert(lv.take(i as int) =~= lv);
    let mut out = String::new();
    push_str(&mut out, "{\"conforms\": ");
    if conforms {
        push_str(&mut out, "true");
    } else {
        push_str(&mut out, "false");
    }
    push_str(&mut out, ", \"results_count\": ");
    push_decimal(&mut out, lines.len() as u64);
    push_str(&mut out, ", \"results\": [");
    push_str(&mut out, items.as_str());
    push_str(&mut out, "]}");
    assert(out@ =~= report_json_text(conforms, report_text@));
    out
}

/// A one-line summary of a validation report, from whether it conforms and
/// its text.
pub fn report_summary(conforms: bool, report_text: &str) -> (r: String)
    ensures
        r@ == report_summary_text(conforms, report_text@),
{
    if conforms {
        "All shapes conform.".to_owned()
    } else {
        let lines = report_details(report_text);
        let mut out = String::new();
        push_decimal(&mut out, lines.len() as u64);
        push_str(&mut out, " violation(s) found.");
        out
    }
}

// ---------------------------------------------------------------------------
// Validation runs
// ---------------------------------------------------------------------------

/// A quad seen as a triple of the default graph.
pub open spec fn as_triple(q: QuadModel) -> QuadModel {
    QuadModel { graph_name: GraphModel::DefaultGraph, ..q }
}

/// N-Triples text of the triples of a dataset (graph names dropped), one
/// line each, in order.
pub open spec fn ntriples_text(qs: Seq<QuadModel>) -> Seq<char>
    decreases qs.len(),
{
    if qs.len() == 0 {
        Seq::empty()
    } else {
        ntriples_text(qs.drop_last()) + quad_line(as_triple(qs.last())) + seq!['\n']
    }
}

/// The N-Triples text of a dataset, which validation reads: each quad's
/// triple, graph names dropped.
pub fn store_to_ntriples(store: &QuadStore) -> (r: String)
    ensures
        r@ == ntriples_text(store@),
{
    let qs = store.quads();
    let ghost all = quads_view(qs@);
    let mut out = String::new();
    let mut i: usize = 0;
    while i < qs.len()
        invariant
            i <= qs@.len(),
            all == quads_view(qs@),
            all == store@,
            out@ == ntriples_text(all.take(i as int)),
        decreases qs@.len() - i,
    {
        let q = &qs[i];
        let t = Quad {
            subject: q.subject.copy(),
            predicate: q.predicate.clone(),
            object: q.object.copy(),
            graph_name: GraphName::DefaultGraph,
        };
        assert(t@ == as_triple(all[i as int]));
        push_quad_line(&mut out, &t);
        assert(all.take(i + 1).drop_last() =~= all.take(i as int));
        assert(all.take(i + 1).last() == all[i as int]);
        i = i + 1;
    }
    assert(all.take(i as int) =~= all);
    out
}

/// What the validation engine reports, as plain values: whether the data
/// conforms, and the report's text.
#[derive(Clone, Debug)]
pub struct ReportData {
    pub conforms: bool,
    pub text: String,
}

/// The result of a SHACL validation run.
#[derive(Clone, Debug)]
pub enum ValidationOutcome {
    /// Validation was skipped because the mode is off.
    Skipped,
    /// All shapes conform.
    Passed,
    /// One or more shapes did not conform.
    Failed(ReportData),
}

impl ValidationOutcome {
    /// Whether the outcome is `Passed`.
    pub fn is_passed(&self) -> (r: bool)
        ensures
            r == (*self is Passed),
    {
        matches!(self, ValidationOutcome::Passed)
    }

    /// Whether the outcome is `Failed`.
    pub fn is_failed(&self) -> (r: bool)
        ensures
            r == (*self is Failed),
    {
        matches!(self, ValidationOutcome::Failed(_))
    }

    /// Whether the outcome is `Skipped`.
    pub fn is_skipped(&self) -> (r: bool)
        ensures
            r == (*self is Skipped),
    {
        matches!(self, ValidationOutcome::Skipped)
    }

    /// The text shown for this outcome.
    pub fn message(&self) -> (r: String)
        ensures
            r@ == outcome_text(*self),
    {
        let mut out = String::new();
        match self {
            ValidationOutcome::Skipped => push_str(&mut out, "Validation skipped (mode=Off)"),
            ValidationOutcome::Passed => push_str(&mut out, "Validation passed: all shapes conform"),
            ValidationOutcome::Failed(report) => {
                push_str(&mut out, "Validation failed: ");
                push_str(&mut out, report.text.as_str());
            }
        }
        out
    }
}

/// The text of an outcome.
pub open spec fn outcome_text(o: ValidationOutcome) -> Seq<char> {
    match o {
        ValidationOutcome::Skipped => "Validation skipped (mode=Off)"@,
        ValidationOutcome::Passed => "Validation passed: all shapes conform"@,
        ValidationOutcome::Failed(report) => "Validation failed: "@ + report.text@,
    }
}

/// The outcome that an engine report gives: `Passed` when the data
/// conforms, else `Failed` with the report.
pub fn outcome_of_report(report: ReportData) -> (r: ValidationOutcome)
    ensures
        report.conforms ==> r is Passed,
        !report.conforms ==> (r matches ValidationOutcome::Failed(f) && f == report),
{
    if report.conforms {
        ValidationOutcome::Passed
    } else {
        ValidationOutcome::Failed(report)
    }
}

/// The message when validation runs with no shapes loaded.
pub open spec fn no_shapes_text() -> Seq<char> {
    "No shapes loaded"@
}

/// A SHACL validator: a mode and, once loaded, the compiled shapes (of the
/// validation engine's type `S`).
pub struct ShaclValidator<S> {
    mode: ShaclMode,
    shapes: Option<S>,
}

impl<S> ShaclValidator<S> {
    /// The current mode.
    pub closed spec fn mode_spec(&self) -> ShaclMode {
        self.mode
    }

    /// The loaded shapes, if any.
    pub closed spec fn loaded(&self) -> Option<S> {
        self.shapes
    }

    /// A validator with the given mode and no shapes loaded.
    pub fn new(mode: ShaclMode) -> (r: Self)
        ensures
            r.mode_spec() == mode,
            r.loaded() is None,
    {
        ShaclValidator { mode, shapes: None }
    }

    /// Sets the compiled shapes to validate against.
    pub fn set_shapes(&mut self, shapes: S)
        ensures
            final(self).loaded() == Some(shapes),
            final(self).mode_spec() == old(self).mode_spec(),
    {
        self.shapes = Some(shapes);
    }

    /// The current validation mode.
    pub fn mode(&self) -> (r: ShaclMode)
        ensures
            r == self.mode_spec(),
    {
        self.mode
    }

    /// Sets the validation mode.
    pub fn set_mode(&mut self, mode: ShaclMode)
        ensures
            final(self).mode_spec() == mode,
            final(self).loaded() == old(self).loaded(),
    {
        self.mode = mode;
    }

    /// The loaded shapes, if any.
    pub fn shapes(&self) -> (r: Option<&S>)
        ensures
            r is Some <==> self.loaded() is Some,
            r matches Some(s) ==> *s == self.loaded()->0,
    {
        self.shapes.as_ref()
    }

    /// Validates a dataset against the loaded shapes: skipped when the mode
    /// is off; an engine error when no shapes are loaded; otherwise `engine`
    /// runs on the shapes and the N-Triples text of the dataset (graph
    /// names dropped), and its report gives `Passed` or `Failed`, its error
    /// is returned as it is.
    pub fn validate<F>(&self, store: &QuadStore, engine: F) -> (r: Result<ValidationOutcome, ShaclError>)
        where
            F: FnOnce(&S, String) -> Result<ReportData, ShaclError>,
        requires
            forall|s: &S, text: String| engine.requires((s, text)),
        ensures
            self.mode_spec() == ShaclMode::Off ==> (r matches Ok(o) && o is Skipped),
            self.mode_spec() != ShaclMode::Off && self.loaded() is None
                ==> (r matches Err(ShaclError::ValidationEngine(m)) && m@ == no_shapes_text()),
            self.mode_spec() != ShaclMode::Off && self.loaded() is Some ==> exists|text: String, res: Result<ReportData, ShaclError>|
                #[trigger] engine.ensures((&self.loaded()->0, text), res) && text@ == ntriples_text(store@)
                && match res {
                    Ok(report) => if report.conforms {
                        r matches Ok(o) && o is Passed
                    } else {
                        r matches Ok(ValidationOutcome::Failed(f)) && f == report
                    },
                    Err(e) => r matches Err(e2) && e2 == e,
                },
    {
        if let ShaclMode::Off = self.mode {
            return Ok(ValidationOutcome::Skipped);
        }
        match &self.shapes {
            None => {
                let mut m = String::new();
                push_str(&mut m, "No shapes loaded");
                Err(ShaclError::ValidationEngine(m))
            }
            Some(shapes) => {
                let text = store_to_ntriples(store);
                let ghost t = text;
                let res = engine(shapes, text);
                assert(engine.ensures((&self.loaded()->0, t), res));
                match res {
                    Ok(report) => Ok(outcome_of_report(report)),
                    Err(e) => Err(e),
                }
            }
        }
    }

    /// Checks a dataset after a write: with no shapes loaded or the mode
    /// off the write stands and `engine` is not run; otherwise the dataset is
    /// validated as `validate` does and `write_verdict` decides.
    pub fn validate_after_write<F>(&self, store: &QuadStore, engine: F) -> (r: Result<(), (u16, String)>)
        where
            F: FnOnce(&S, String) -> Result<ReportData, ShaclError>,
        requires
            forall|s: &S, text: String| engine.requires((s, text)),
        ensures
            self.loaded() is None || self.mode_spec() == ShaclMode::Off ==> r is Ok,
            self.loaded() is Some && self.mode_spec() != ShaclMode::Off ==> exists|text: String, res: Result<ReportData, ShaclError>|
                #[trigger] engine.ensures((&self.loaded()->0, text), res) && text@ == ntriples_text(store@)
                && match res {
                    Ok(report) => if report.conforms || self.mode_spec() == ShaclMode::Warn {
                        r is Ok
                    } else {
                        r matches Err((code, body)) && code == 422
                            && body@ == report_json_text(report.conforms, report.text@)
                    },
                    Err(e) => r matches Err((code, body)) && code == 500 && body@ == shacl_error_text(e),
                },
    {
        let mode = self.mode();
        if !validates_after_write(self.shapes().is_some(), mode) {
            return Ok(());
        }
        let outcome = self.validate(store, engine);
        let ghost o = outcome;
        let r = write_verdict(mode, outcome);
        proof {
            let (text, res) = choose|text: String, res: Result<ReportData, ShaclError>|
                #[trigger] engine.ensures((&self.loaded()->0, text), res) && text@ == ntriples_text(store@)
                && match res {
                    Ok(report) => if report.conforms {
                        o matches Ok(oc) && oc is Passed
                    } else {
                        o matches Ok(ValidationOutcome::Failed(f)) && f == report
                    },
                    Err(e) => o matches Err(e2) && e2 == e,
                };
            assert(engine.ensures((&self.loaded()->0, text), res));
        }
        r
    }
}

/// The body of a validation request's answer: a skip, a pass with no
/// results, or the report's JSON.
pub open spec fn validation_body_text(o: ValidationOutcome) -> Seq<char> {
    match o {
        ValidationOutcome::Skipped => "{\"conforms\": null, \"skipped\": true}"@,
        ValidationOutcome::Passed => "{\"conforms\": true, \"results_count\": 0}"@,
        ValidationOutcome::Failed(report) => report_json_text(report.conforms, report.text@),
    }
}

/// The JSON body answering a validation request.
pub fn validation_body(outcome: &ValidationOutcome) -> (r: String)
    ensures
        r@ == validation_body_text(*outcome),
{
    match outcome {
        ValidationOutcome::Skipped => "{\"conforms\": null, \"skipped\": true}".to_owned(),
        ValidationOutcome::Passed => "{\"conforms\": true, \"results_count\": 0}".to_owned(),
        ValidationOutcome::Failed(report) => report_json(report.conforms, report.text.as_str()),
    }
}

/// Whether a write is checked against the shapes afterwards: only when
/// shapes are loaded and the mode is not off.
pub fn validates_after_write(shapes_loaded: bool, mode: ShaclMode) -> (r: bool)
    ensures
        r == (shapes_loaded && mode != ShaclMode::Off),
{
    shapes_loaded && !matches!(mode, ShaclMode::Off)
}

/// Whether a write stands after its validation: a pass or a skip accepts
/// it; a failure is accepted in warn mode and refused otherwise with 422 and
/// the report's JSON; an engine error is a 500 with its message.
pub fn write_verdict(mode: ShaclMode, outcome: Result<ValidationOutcome, ShaclError>) -> (r: Result<(), (u16, String)>)
    ensures
        match outcome {
            Ok(ValidationOutcome::Failed(report)) => if mode == ShaclMode::Warn {
                r is Ok
            } else {
                r matches Err((code, body)) && code == 422 && body@ == report_json_text(report.conforms, report.text@)
            },
            Ok(_) => r is Ok,
            Err(e) => r matches Err((code, body)) && code == 500 && body@ == shacl_error_text(e),
        },
{
    match outcome {
        Ok(ValidationOutcome::Failed(report)) => {
            if let ShaclMode::Warn = mode {
                Ok(())
            } else {
                Err((422, report_json(report.conforms, report.text.as_str())))
            }
        }
        Ok(_) => Ok(()),
        Err(e) => Err((500, e.message())),
    }
}

} // verus!
