//! Decisions of the SPARQL HTTP server: which endpoint a request goes to,
//! who may write, how errors map to HTTP statuses, and the small JSON
//! bodies of its answers.
use vstd::prelude::*;
use crate::text::{push_char, push_str, push_decimal, str_chars, decimal, parse_u64, parse_u64_str};
use crate::nquads::{find_char, lemma_find_char_bound, find_from, string_of};
use crate::shacl::{ShaclMode, mode_name, trim, trim_range};
use crate::store::{strings_view, Quad, quads_view};
use crate::store::QuadStore;
use crate::transactions::{
    TransactionError, TransactionErrorModel, transaction_error_text, BufferedOp, OpModel, ops_view,
    TransactionRegistry, CommitResult, next_update, apply_ops, sparql_unsupported_text,
};
use crate::changelog::{
    ChangelogEntry, ChangelogError, ChangelogErrorModel, EntryModel, changelog_error_text,
    entries_view, list_json, entry_to_list_json, Changelog, record_outcome,
};

verus! {

/// Whether two string slices hold the same text.
pub fn str_eq(a: &str, b: &str) -> (r: bool)
    ensures
        r == (a@ == b@),
{
    a.to_owned() == b.to_owned()
}

/// Whether `s` starts with `p`.
pub open spec fn has_prefix(s: Seq<char>, p: Seq<char>) -> bool {
    s.len() >= p.len() && s.take(p.len() as int) == p
}

/// Whether the characters start with the text of `p`; when they do, the
/// length of `p` in characters.
pub fn prefix_len(cs: &[char], p: &str) -> (r: Option<usize>)
    ensures
        match r {
            Some(n) => has_prefix(cs@, p@) && n == p@.len(),
            None => !has_prefix(cs@, p@),
        },
{
    let ps = str_chars(p);
    if ps.len() > cs.len() {
        return None;
    }
    let mut i: usize = 0;
    while i < ps.len()
        invariant
            i <= ps@.len() <= cs@.len(),
            ps@ == p@,
            cs@.take(i as int) == ps@.take(i as int),
        decreases ps@.len() - i,
    {
        if cs[i] != ps[i] {
            assert(cs@.take(ps@.len() as int)[i as int] != ps@[i as int]);
            return None;
        }
        assert(cs@.take(i + 1) =~= cs@.take(i as int).push(cs@[i as int]));
        assert(ps@.take(i + 1) =~= ps@.take(i as int).push(ps@[i as int]));
        i = i + 1;
    }
    assert(ps@.take(i as int) =~= ps@);
    Some(ps.len())
}

// ---------------------------------------------------------------------------
// Routes
// ---------------------------------------------------------------------------

/// The endpoint that serves a request.
#[derive(Debug)]
pub enum Route {
    ShaclUploadShapes,
    ShaclGetShapes,
    ShaclDeleteShapes,
    ShaclValidate,
    ShaclGetMode,
    ShaclSetMode,
    Update,
    StorePost,
    Health,
    Ready,
    Metrics,
    Root,
    QueryGet,
    QueryPost,
    StoreGet,
    TransactionBegin,
    TransactionAdd(String),
    TransactionRemove(String),
    TransactionQuery(String),
    TransactionUpdate(String),
    TransactionCommit(String),
    TransactionRollback(String),
    ChangelogList,
    ChangelogPurge,
    ChangelogGet(u64),
    ChangelogUndo(u64),
    /// No endpoint: the status and message of the answer.
    Failure(u16, String),
}

/// Plain-value model of a route.
pub enum RouteModel {
    ShaclUploadShapes,
    ShaclGetShapes,
    ShaclDeleteShapes,
    ShaclValidate,
    ShaclGetMode,
    ShaclSetMode,
    Update,
    StorePost,
    Health,
    Ready,
    Metrics,
    Root,
    QueryGet,
    QueryPost,
    StoreGet,
    TransactionBegin,
    TransactionAdd(Seq<char>),
    TransactionRemove(Seq<char>),
    TransactionQuery(Seq<char>),
    TransactionUpdate(Seq<char>),
    TransactionCommit(Seq<char>),
    TransactionRollback(Seq<char>),
    ChangelogList,
    ChangelogPurge,
    ChangelogGet(u64),
    ChangelogUndo(u64),
    Failure(u16, Seq<char>),
}

impl View for Route {
    type V = RouteModel;

    open spec fn view(&self) -> RouteModel {
        match self {
            Route::ShaclUploadShapes => RouteModel::ShaclUploadShapes,
            Route::ShaclGetShapes => RouteModel::ShaclGetShapes,
            Route::ShaclDeleteShapes => RouteModel::ShaclDeleteShapes,
            Route::ShaclValidate => RouteModel::ShaclValidate,
            Route::ShaclGetMode => RouteModel::ShaclGetMode,
            Route::ShaclSetMode => RouteModel::ShaclSetMode,
            Route::Update => RouteModel::Update,
            Route::StorePost => RouteModel::StorePost,
            Route::Health => RouteModel::Health,
            Route::Ready => RouteModel::Ready,
            Route::Metrics => RouteModel::Metrics,
            Route::Root => RouteModel::Root,
            Route::QueryGet => RouteModel::QueryGet,
            Route::QueryPost => RouteModel::QueryPost,
            Route::StoreGet => RouteModel::StoreGet,
            Route::TransactionBegin => RouteModel::TransactionBegin,
            Route::TransactionAdd(id) => RouteModel::TransactionAdd(id@),
            Route::TransactionRemove(id) => RouteModel::TransactionRemove(id@),
            Route::TransactionQuery(id) => RouteModel::TransactionQuery(id@),
            Route::TransactionUpdate(id) => RouteModel::TransactionUpdate(id@),
            Route::TransactionCommit(id) => RouteModel::TransactionCommit(id@),
            Route::TransactionRollback(id) => RouteModel::TransactionRollback(id@),
            Route::ChangelogList => RouteModel::ChangelogList,
            Route::ChangelogPurge => RouteModel::ChangelogPurge,
            Route::ChangelogGet(id) => RouteModel::ChangelogGet(*id),
            Route::ChangelogUndo(id) => RouteModel::ChangelogUndo(*id),
            Route::Failure(status, message) => RouteModel::Failure(*status, message@),
        }
    }
}

/// `rest` without one leading slash.
pub open spec fn after_slash(rest: Seq<char>) -> Seq<char> {
    if rest.len() > 0 && rest[0] == '/' { rest.skip(1) } else { rest }
}

/// What precedes the first slash (all of it when there is none).
pub open spec fn head_part(r: Seq<char>) -> Seq<char> {
    match find_char(r, '/') {
        Some(k) => r.take(k as int),
        None => r,
    }
}

/// What follows the first slash (nothing when there is none).
pub open spec fn tail_part(r: Seq<char>) -> Seq<char> {
    match find_char(r, '/') {
        Some(k) => r.skip(k as int + 1),
        None => Seq::empty(),
    }
}

/// Route below `/transactions`, from the rest of the path.
pub open spec fn transaction_route(rest: Seq<char>, method: Seq<char>) -> RouteModel {
    if rest.len() == 0 && method == "POST"@ {
        RouteModel::TransactionBegin
    } else {
        let r = after_slash(rest);
        let id = head_part(r);
        let action = tail_part(r);
        if id.len() == 0 {
            RouteModel::Failure(400, "Missing transaction ID"@)
        } else if action == "add"@ && method == "PUT"@ {
            RouteModel::TransactionAdd(id)
        } else if action == "remove"@ && method == "PUT"@ {
            RouteModel::TransactionRemove(id)
        } else if action == "query"@ && method == "POST"@ {
            RouteModel::TransactionQuery(id)
        } else if action == "update"@ && method == "POST"@ {
            RouteModel::TransactionUpdate(id)
        } else if action == "commit"@ && method == "PUT"@ {
            RouteModel::TransactionCommit(id)
        } else if action.len() == 0 && method == "DELETE"@ {
            RouteModel::TransactionRollback(id)
        } else {
            RouteModel::Failure(404, "Not found: "@ + method + " /transactions/"@ + r)
        }
    }
}

/// Route below `/changelog`, from the rest of the path.
pub open spec fn changelog_route(rest: Seq<char>, method: Seq<char>) -> RouteModel {
    if rest.len() == 0 && method == "GET"@ {
        RouteModel::ChangelogList
    } else if rest.len() == 0 && method == "DELETE"@ {
        RouteModel::ChangelogPurge
    } else {
        let r = after_slash(rest);
        let id_text = head_part(r);
        let action = tail_part(r);
        match parse_u64(id_text) {
            None => RouteModel::Failure(400, "Invalid changelog ID: "@ + id_text),
            Some(id) => if action.len() == 0 && method == "GET"@ {
                RouteModel::ChangelogGet(id)
            } else if action == "undo"@ && method == "POST"@ {
                RouteModel::ChangelogUndo(id)
            } else {
                RouteModel::Failure(404, "Not found: "@ + method + " /changelog/"@ + r)
            },
        }
    }
}

/// The endpoint for a path and method.
pub open spec fn route_of(path: Seq<char>, method: Seq<char>) -> RouteModel {
    if path == "/shacl/shapes"@ && method == "POST"@ {
        RouteModel::ShaclUploadShapes
    } else if path == "/shacl/shapes"@ && method == "GET"@ {
        RouteModel::ShaclGetShapes
    } else if path == "/shacl/shapes"@ && method == "DELETE"@ {
        RouteModel::ShaclDeleteShapes
    } else if path == "/shacl/validate"@ && method == "POST"@ {
        RouteModel::ShaclValidate
    } else if path == "/shacl/mode"@ && method == "GET"@ {
        RouteModel::ShaclGetMode
    } else if path == "/shacl/mode"@ && method == "PUT"@ {
        RouteModel::ShaclSetMode
    } else if path == "/update"@ && method == "POST"@ {
        RouteModel::Update
    } else if path == "/store"@ && method == "POST"@ {
        RouteModel::StorePost
    } else if has_prefix(path, "/transactions"@) {
        transaction_route(path.skip("/transactions"@.len() as int), method)
    } else if has_prefix(path, "/changelog"@) {
        changelog_route(path.skip("/changelog"@.len() as int), method)
    } else if path == "/health"@ && method == "GET"@ {
        RouteModel::Health
    } else if path == "/ready"@ && method == "GET"@ {
        RouteModel::Ready
    } else if path == "/metrics"@ && method == "GET"@ {
        RouteModel::Metrics
    } else if path == "/"@ && method == "GET"@ {
        RouteModel::Root
    } else if path == "/query"@ && method == "GET"@ {
        RouteModel::QueryGet
    } else if path == "/query"@ && method == "POST"@ {
        RouteModel::QueryPost
    } else if path == "/store"@ && method == "GET"@ {
        RouteModel::StoreGet
    } else {
        RouteModel::Failure(404, "Not found: "@ + method + " "@ + path)
    }
}

/// Whether the endpoint changes data (and so needs the write key).
pub open spec fn writes(r: RouteModel) -> bool {
    match r {
        RouteModel::ShaclUploadShapes | RouteModel::ShaclDeleteShapes | RouteModel::ShaclSetMode
        | RouteModel::Update | RouteModel::StorePost | RouteModel::TransactionBegin
        | RouteModel::TransactionAdd(_) | RouteModel::TransactionRemove(_)
        | RouteModel::TransactionUpdate(_) | RouteModel::TransactionCommit(_)
        | RouteModel::TransactionRollback(_) | RouteModel::ChangelogPurge
        | RouteModel::ChangelogUndo(_) => true,
        _ => false,
    }
}

fn split_first_slash(cs: &[char], a: usize, b: usize) -> (r: (usize, usize))
    requires
        a <= b <= cs@.len(),
    ensures
        a <= r.0 <= r.1 <= b,
        cs@.subrange(a as int, r.0 as int) == head_part(cs@.subrange(a as int, b as int)),
        cs@.subrange(r.1 as int, b as int) == tail_part(cs@.subrange(a as int, b as int)),
{
    let ghost s = cs@.subrange(a as int, b as int);
    proof {
        lemma_find_char_bound(s, '/');
    }
    match find_from(cs, a, b, '/') {
        Some(k) => {
            assert(s.take(k - a) =~= cs@.subrange(a as int, k as int));
            assert(s.skip(k - a + 1) =~= cs@.subrange(k + 1, b as int));
            (k, k + 1)
        }
        None => {
            assert(s =~= cs@.subrange(a as int, b as int));
            assert(cs@.subrange(b as int, b as int) =~= Seq::<char>::empty());
            (b, b)
        }
    }
}

fn not_found(method: &str, prefix: &str, rest: &String) -> (r: Route)
    ensures
        r@ == RouteModel::Failure(404, "Not found: "@ + method@ + prefix@ + rest@),
{
    let mut m = "Not found: ".to_owned();
    push_str(&mut m, method);
    push_str(&mut m, prefix);
    push_str(&mut m, rest.as_str());
    Route::Failure(404, m)
}

fn route_transaction(cs: &[char], start: usize, method: &str) -> (r: Route)
    requires
        start <= cs@.len(),
    ensures
        r@ == transaction_route(cs@.skip(start as int), method@),
{
    let n = cs.len();
    let ghost rest = cs@.skip(start as int);
    if start == n && str_eq(method, "POST") {
        return Route::TransactionBegin;
    }
    let a = if start < n && cs[start] == '/' { start + 1 } else { start };
    let ghost r = after_slash(rest);
    assert(r =~= cs@.subrange(a as int, n as int));
    let (h, t) = split_first_slash(cs, a, n);
    let id = string_of(cs, a, h);
    let action = string_of(cs, t, n);
    if h == a {
        return Route::Failure(400, "Missing transaction ID".to_owned());
    }
    if str_eq(action.as_str(), "add") && str_eq(method, "PUT") {
        Route::TransactionAdd(id)
    } else if str_eq(action.as_str(), "remove") && str_eq(method, "PUT") {
        Route::TransactionRemove(id)
    } else if str_eq(action.as_str(), "query") && str_eq(method, "POST") {
        Route::TransactionQuery(id)
    } else if str_eq(action.as_str(), "update") && str_eq(method, "POST") {
        Route::TransactionUpdate(id)
    } else if str_eq(action.as_str(), "commit") && str_eq(method, "PUT") {
        Route::TransactionCommit(id)
    } else if t == n && str_eq(method, "DELETE") {
        Route::TransactionRollback(id)
    } else {
        let whole = string_of(cs, a, n);
        not_found(method, " /transactions/", &whole)
    }
}

fn route_changelog(cs: &[char], start: usize, method: &str) -> (r: Route)
    requires
        start <= cs@.len(),
    ensures
        r@ == changelog_route(cs@.skip(start as int), method@),
{
    let n = cs.len();
    let ghost rest = cs@.skip(start as int);
    if start == n && str_eq(method, "GET") {
        return Route::ChangelogList;
    }
    if start == n && str_eq(method, "DELETE") {
        return Route::ChangelogPurge;
    }
    let a = if start < n && cs[start] == '/' { start + 1 } else { start };
    let ghost r = after_slash(rest);
    assert(r =~= cs@.subrange(a as int, n as int));
    let (h, t) = split_first_slash(cs, a, n);
    let id_text = string_of(cs, a, h);
    let id = match parse_u64_str(id_text.as_str()) {
        Some(id) => id,
        None => {
            let mut m = "Invalid changelog ID: ".to_owned();
            push_str(&mut m, id_text.as_str());
            return Route::Failure(400, m);
        }
    };
    let action = string_of(cs, t, n);
    if t == n && str_eq(method, "GET") {
        Route::ChangelogGet(id)
    } else if str_eq(action.as_str(), "undo") && str_eq(method, "POST") {
        Route::ChangelogUndo(id)
    } else {
        let whole = string_of(cs, a, n);
        not_found(method, " /changelog/", &whole)
    }
}

/// The endpoint for a request path and method.
pub fn route(path: &str, method: &str) -> (r: Route)
    ensures
        r@ == route_of(path@, method@),
{
    let shapes = str_eq(path, "/shacl/shapes");
    if shapes && str_eq(method, "POST") {
        return Route::ShaclUploadShapes;
    }
    if shapes && str_eq(method, "GET") {
        return Route::ShaclGetShapes;
    }
    if shapes && str_eq(method, "DELETE") {
        return Route::ShaclDeleteShapes;
    }
    if str_eq(path, "/shacl/validate") && str_eq(method, "POST") {
        return Route::ShaclValidate;
    }
    let mode = str_eq(path, "/shacl/mode");
    if mode && str_eq(method, "GET") {
        return Route::ShaclGetMode;
    }
    if mode && str_eq(method, "PUT") {
        return Route::ShaclSetMode;
    }
    if str_eq(path, "/update") && str_eq(method, "POST") {
        return Route::Update;
    }
    let store = str_eq(path, "/store");
    if store && str_eq(method, "POST") {
        return Route::StorePost;
    }
    let cs = str_chars(path);
    match prefix_len(cs.as_slice(), "/transactions") {
        Some(k) => return route_transaction(cs.as_slice(), k, method),
        None => {}
    }
    match prefix_len(cs.as_slice(), "/changelog") {
        Some(k) => return route_changelog(cs.as_slice(), k, method),
        None => {}
    }
    let get = str_eq(method, "GET");
    if str_eq(path, "/health") && get {
        Route::Health
    } else if str_eq(path, "/ready") && get {
        Route::Ready
    } else if str_eq(path, "/metrics") && get {
        Route::Metrics
    } else if str_eq(path, "/") && get {
        Route::Root
    } else if str_eq(path, "/query") && get {
        Route::QueryGet
    } else if str_eq(path, "/query") && str_eq(method, "POST") {
        Route::QueryPost
    } else if store && get {
        Route::StoreGet
    } else {
        let mut m = "Not found: ".to_owned();
        push_str(&mut m, method);
        push_str(&mut m, " ");
        push_str(&mut m, path);
        Route::Failure(404, m)
    }
}

impl Route {
    /// Whether the endpoint changes data (and so needs the write key).
    pub fn writes(&self) -> (r: bool)
        ensures
            r == writes(self@),
    {
        match self {
            Route::ShaclUploadShapes | Route::ShaclDeleteShapes | Route::ShaclSetMode | Route::Update
            | Route::StorePost | Route::TransactionBegin | Route::TransactionAdd(_)
            | Route::TransactionRemove(_) | Route::TransactionUpdate(_) | Route::TransactionCommit(_)
            | Route::TransactionRollback(_) | Route::ChangelogPurge | Route::ChangelogUndo(_) => true,
            _ => false,
        }
    }
}

// ---------------------------------------------------------------------------
// Splitting text
// ---------------------------------------------------------------------------

/// The pieces of `s` between occurrences of `sep` (std's `str::split`).
pub open spec fn pieces(s: Seq<char>, sep: char) -> Seq<Seq<char>>
    decreases s.len(),
{
    match find_char(s, sep) {
        Some(k) => {
            proof {
                lemma_find_char_bound(s, sep);
            }
            seq![s.take(k as int)] + pieces(s.skip(k as int + 1), sep)
        }
        None => seq![s],
    }
}

/// What precedes the first `sep` (all of `s` when there is none).
pub open spec fn before_sep(s: Seq<char>, sep: char) -> Seq<char> {
    match find_char(s, sep) {
        Some(k) => s.take(k as int),
        None => s,
    }
}

/// The pieces of the text between occurrences of `sep`, in order.
pub fn split_pieces(text: &str, sep: char) -> (r: Vec<String>)
    ensures
        strings_view(r@) == pieces(text@, sep),
{
    let cs = str_chars(text);
    let n = cs.len();
    let mut out: Vec<String> = Vec::new();
    let mut pos: usize = 0;
    assert(cs@.subrange(0, n as int) =~= text@);
    loop
        invariant
            pos <= n == cs@.len(),
            cs@ == text@,
            pieces(text@, sep) == strings_view(out@) + pieces(cs@.subrange(pos as int, n as int), sep),
        decreases n - pos,
    {
        let ghost s = cs@.subrange(pos as int, n as int);
        proof {
            lemma_find_char_bound(s, sep);
        }
        let ghost before = strings_view(out@);
        match find_from(cs.as_slice(), pos, n, sep) {
            Some(k) => {
                out.push(string_of(cs.as_slice(), pos, k));
                assert(s.take((k - pos) as int) =~= cs@.subrange(pos as int, k as int));
                assert(s.skip((k - pos) + 1) =~= cs@.subrange(k + 1, n as int));
                assert(strings_view(out@) =~= before.push(s.take((k - pos) as int)));
                assert(before + (seq![s.take((k - pos) as int)] + pieces(cs@.subrange(k + 1, n as int), sep))
                    =~= strings_view(out@) + pieces(cs@.subrange(k + 1, n as int), sep));
                pos = k + 1;
            }
            None => {
                out.push(string_of(cs.as_slice(), pos, n));
                assert(strings_view(out@) =~= before + seq![s]);
                return out;
            }
        }
    }
}

/// The text before the first `sep` (all of it when there is none).
pub fn text_before(text: &str, sep: char) -> (r: String)
    ensures
        r@ == before_sep(text@, sep),
{
    let cs = str_chars(text);
    let n = cs.len();
    assert(cs@.subrange(0, n as int) =~= text@);
    proof {
        lemma_find_char_bound(text@, sep);
    }
    match find_from(cs.as_slice(), 0, n, sep) {
        Some(k) => {
            assert(text@.take(k as int) =~= cs@.subrange(0, k as int));
            string_of(cs.as_slice(), 0, k)
        }
        None => string_of(cs.as_slice(), 0, n),
    }
}

/// The text without leading and trailing white space.
pub fn trimmed(text: &str) -> (r: String)
    ensures
        r@ == trim(text@),
{
    let cs = str_chars(text);
    let n = cs.len();
    assert(cs@.subrange(0, n as int) =~= text@);
    let (a, b) = trim_range(cs.as_slice(), 0, n);
    string_of(cs.as_slice(), a, b)
}

/// ASCII letters in lower case, other characters unchanged.
pub open spec fn ascii_lower(s: Seq<char>) -> Seq<char> {
    s.map_values(|c: char| if 'A' <= c && c <= 'Z' { ((c as u32) + 32) as char } else { c })
}

fn lower_char(c: char) -> (r: char)
    ensures
        r == (if 'A' <= c && c <= 'Z' { ((c as u32) + 32) as char } else { c }),
{
    if 'A' <= c && c <= 'Z' {
        match c {
            'A' => 'a', 'B' => 'b', 'C' => 'c', 'D' => 'd', 'E' => 'e', 'F' => 'f', 'G' => 'g',
            'H' => 'h', 'I' => 'i', 'J' => 'j', 'K' => 'k', 'L' => 'l', 'M' => 'm', 'N' => 'n',
            'O' => 'o', 'P' => 'p', 'Q' => 'q', 'R' => 'r', 'S' => 's', 'T' => 't', 'U' => 'u',
            'V' => 'v', 'W' => 'w', 'X' => 'x', 'Y' => 'y', _ => 'z',
        }
    } else {
        c
    }
}

/// The text with ASCII letters in lower case.
pub fn to_ascii_lower(text: &str) -> (r: String)
    ensures
        r@ == ascii_lower(text@),
{
    let cs = str_chars(text);
    let mut out = String::new();
    let mut i: usize = 0;
    while i < cs.len()
        invariant
            i <= cs@.len(),
            cs@ == text@,
            out@ == ascii_lower(cs@.take(i as int)),
        decreases cs@.len() - i,
    {
        push_char(&mut out, lower_char(cs[i]));
        assert(ascii_lower(cs@.take(i + 1)) =~= ascii_lower(cs@.take(i as int)).push(
            if 'A' <= cs@[i as int] && cs@[i as int] <= 'Z' { ((cs@[i as int] as u32) + 32) as char } else { cs@[i as int] }));
        i = i + 1;
    }
    assert(cs@.take(i as int) =~= cs@);
    out
}

// ---------------------------------------------------------------------------
// Request checks
// ---------------------------------------------------------------------------

/// The media type of a Content-Type value: before any `;`, trimmed, in
/// lower case.
pub open spec fn media_type_of(value: Seq<char>) -> Seq<char> {
    ascii_lower(trim(before_sep(value, ';')))
}

/// The media type of a Content-Type header value.
pub fn content_type_of(value: &str) -> (r: String)
    ensures
        r@ == media_type_of(value@),
{
    let head = text_before(value, ';');
    let t = trimmed(head.as_str());
    to_ascii_lower(t.as_str())
}

/// The message of a refused write.
pub open spec fn unauthorized_text() -> Seq<char> {
    "Write operations require a valid Authorization: Bearer <key> header"@
}

/// The Authorization value that presents a write key: `Bearer ` followed
/// by the key.
pub open spec fn bearer_of(key: Seq<char>) -> Seq<char> {
    "Bearer "@ + key
}

/// Checks write authorization: without a configured key every write is
/// allowed; with one, the request must carry an `Authorization: Bearer
/// <key>` header with that key, and is refused with 401 otherwise.
pub fn check_write_auth(auth_header: Option<&str>, write_key: Option<&str>) -> (r: Result<(), (u16, String)>)
    ensures
        match write_key {
            None => r is Ok,
            Some(k) => if (auth_header matches Some(h) && h@ == bearer_of(k@)) {
                r is Ok
            } else {
                r matches Err((status, m)) && status == 401 && m@ == unauthorized_text()
            },
        },
{
    let expected = match write_key {
        None => return Ok(()),
        Some(k) => k,
    };
    let mut wanted = "Bearer ".to_owned();
    push_str(&mut wanted, expected);
    let accepted = match auth_header {
        Some(h) => str_eq(h, wanted.as_str()),
        None => false,
    };
    if accepted {
        Ok(())
    } else {
        Err((401, "Write operations require a valid Authorization: Bearer <key> header".to_owned()))
    }
}

/// Whether the bind address is a loopback one.
pub open spec fn is_local_bind(bind: Seq<char>) -> bool {
    has_prefix(bind, "127.0.0.1:"@) || has_prefix(bind, "localhost:"@) || has_prefix(bind, "[::1]:"@)
}

/// The message when a public bind address has no write key.
pub open spec fn bind_refusal_text(bind: Seq<char>) -> Seq<char> {
    "Binding to "@ + bind + " requires --write-key (or OXIGRAPH_WRITE_KEY env var) to be set.\nUse --bind 127.0.0.1:7878 for local-only access without authentication."@
}

/// A server bound beyond loopback must have a write key.
pub fn check_bind(bind: &str, has_write_key: bool) -> (r: Result<(), String>)
    ensures
        (is_local_bind(bind@) || has_write_key) ==> r is Ok,
        !(is_local_bind(bind@) || has_write_key) ==> (r matches Err(m) && m@ == bind_refusal_text(bind@)),
{
    let cs = str_chars(bind);
    let local = prefix_len(cs.as_slice(), "127.0.0.1:").is_some() || prefix_len(cs.as_slice(), "localhost:").is_some()
        || prefix_len(cs.as_slice(), "[::1]:").is_some();
    if !local && !has_write_key {
        let mut m = "Binding to ".to_owned();
        push_str(&mut m, bind);
        push_str(&mut m, " requires --write-key (or OXIGRAPH_WRITE_KEY env var) to be set.\nUse --bind 127.0.0.1:7878 for local-only access without authentication.");
        Err(m)
    } else {
        Ok(())
    }
}

/// Each string trimmed.
pub open spec fn trim_all(ps: Seq<Seq<char>>) -> Seq<Seq<char>> {
    ps.map_values(|p: Seq<char>| trim(p))
}

/// The PD endpoints of a comma-separated list, each trimmed.
pub fn parse_pd_endpoints(list: &str) -> (r: Vec<String>)
    ensures
        strings_view(r@) == trim_all(pieces(list@, ',')),
{
    let ps = split_pieces(list, ',');
    let mut out: Vec<String> = Vec::new();
    let mut i: usize = 0;
    while i < ps.len()
        invariant
            i <= ps@.len(),
            strings_view(out@) == trim_all(strings_view(ps@).take(i as int)),
        decreases ps@.len() - i,
    {
        let ghost before = strings_view(out@);
        let t = trimmed(ps[i].as_str());
        out.push(t);
        assert(strings_view(out@) =~= before.push(trim(ps@[i as int]@)));
        assert(strings_view(ps@).take(i + 1) =~= strings_view(ps@).take(i as int).push(ps@[i as int]@));
        assert(strings_view(out@) =~= trim_all(strings_view(ps@).take(i + 1)));
        i = i + 1;
    }
    assert(strings_view(ps@).take(i as int) =~= strings_view(ps@));
    out
}

/// The origin to allow for a request's `Origin`: `*` when every origin is
/// allowed, the origin itself when the comma-separated list names it.
pub open spec fn allowed_origin_of(allowed: Seq<char>, origin: Seq<char>) -> Option<Seq<char>> {
    if allowed == "*"@ {
        Some("*"@)
    } else if exists|k: int| 0 <= k < pieces(allowed, ',').len() && trim(#[trigger] pieces(allowed, ',')[k]) == origin {
        Some(origin)
    } else {
        None
    }
}

/// The value of the Access-Control-Allow-Origin header for an origin.
pub fn allowed_origin(allowed_origins: &str, origin: &str) -> (r: Option<String>)
    ensures
        match allowed_origin_of(allowed_origins@, origin@) {
            Some(v) => r matches Some(s) && s@ == v,
            None => r is None,
        },
{
    if str_eq(allowed_origins, "*") {
        return Some("*".to_owned());
    }
    let ps = split_pieces(allowed_origins, ',');
    let mut i: usize = 0;
    while i < ps.len()
        invariant
            i <= ps@.len(),
            strings_view(ps@) == pieces(allowed_origins@, ','),
            allowed_origins@ != "*"@,
            forall|k: int| 0 <= k < i ==> trim(#[trigger] pieces(allowed_origins@, ',')[k]) != origin@,
        decreases ps@.len() - i,
    {
        let t = trimmed(ps[i].as_str());
        assert(strings_view(ps@)[i as int] == ps@[i as int]@);
        if str_eq(t.as_str(), origin) {
            assert(trim(pieces(allowed_origins@, ',')[i as int]) == origin@);
            assert(allowed_origin_of(allowed_origins@, origin@) == Some(origin@));
            return Some(origin.to_owned());
        }
        i = i + 1;
    }
    None
}

/// The label of a path in request metrics: ids under `/transactions/` and
/// `/changelog/` are folded into `{id}`.
pub open spec fn metrics_path_of(path: Seq<char>) -> Seq<char> {
    if has_prefix(path, "/transactions/"@) {
        "/transactions/{id}"@
    } else if has_prefix(path, "/changelog/"@) {
        "/changelog/{id}"@
    } else {
        path
    }
}

/// The label of a request path in metrics.
pub fn metrics_path(path: &str) -> (r: String)
    ensures
        r@ == metrics_path_of(path@),
{
    let cs = str_chars(path);
    if prefix_len(cs.as_slice(), "/transactions/").is_some() {
        "/transactions/{id}".to_owned()
    } else if prefix_len(cs.as_slice(), "/changelog/").is_some() {
        "/changelog/{id}".to_owned()
    } else {
        path.to_owned()
    }
}

/// A number from a query parameter (std's `usize::from_str`), or the default.
pub fn query_number(value: Option<&str>, default: usize) -> (r: usize)
    ensures
        r == match value {
            Some(v) => match parse_u64(v@) {
                Some(n) => if n <= usize::MAX { n as usize } else { default },
                None => default,
            },
            None => default,
        },
{
    match value {
        Some(v) => match parse_u64_str(v) {
            Some(n) => if n <= usize::MAX as u64 { n as usize } else { default },
            None => default,
        },
        None => default,
    }
}

// ---------------------------------------------------------------------------
// Errors as HTTP answers
// ---------------------------------------------------------------------------

/// Status and message of a failed transaction request.
pub open spec fn transaction_failure(e: TransactionErrorModel) -> (u16, Seq<char>) {
    match e {
        TransactionErrorModel::NotFound => (404, transaction_error_text(e)),
        TransactionErrorModel::Parse(m) => (400, m),
        TransactionErrorModel::Query(m) => (400, m),
        TransactionErrorModel::Storage(m) => (500, m),
    }
}

/// The HTTP answer to a failed transaction request.
pub fn txn_error_to_http(e: &TransactionError) -> (r: (u16, String))
    ensures
        (r.0, r.1@) == transaction_failure(e@),
{
    match e {
        TransactionError::NotFound => (404, e.message()),
        TransactionError::Parse(m) => (400, m.clone()),
        TransactionError::Query(m) => (400, m.clone()),
        TransactionError::Storage(m) => (500, m.clone()),
    }
}

/// Status and message of a failed changelog request.
pub open spec fn changelog_failure(e: ChangelogErrorModel) -> (u16, Seq<char>) {
    match e {
        ChangelogErrorModel::Disabled => (404, changelog_error_text(e)),
        ChangelogErrorModel::NotFound => (404, changelog_error_text(e)),
        ChangelogErrorModel::NotUndoable => (422, changelog_error_text(e)),
        ChangelogErrorModel::Internal(m) => (500, m),
    }
}

/// The HTTP answer to a failed changelog request.
pub fn changelog_error_to_http(e: &ChangelogError) -> (r: (u16, String))
    ensures
        (r.0, r.1@) == changelog_failure(e@),
{
    match e {
        ChangelogError::Disabled => (404, e.message()),
        ChangelogError::NotFound => (404, e.message()),
        ChangelogError::NotUndoable => (422, e.message()),
        ChangelogError::Internal(m) => (500, m.clone()),
    }
}

// ---------------------------------------------------------------------------
// SHACL mode requests
// ---------------------------------------------------------------------------

/// Index of the first element equal to `x`.
pub open spec fn first_index(ps: Seq<Seq<char>>, x: Seq<char>) -> Option<nat>
    decreases ps.len(),
{
    if ps.len() == 0 {
        None
    } else if ps[0] == x {
        Some(0)
    } else {
        match first_index(ps.drop_first(), x) {
            Some(i) => Some(i + 1),
            None => None,
        }
    }
}

/// The value of the `mode` field of a body like `{"mode": "enforce"}`: the
/// piece two after the first piece `mode` when the body is split at quotes.
pub open spec fn mode_field(body: Seq<char>) -> Option<Seq<char>> {
    let ps = pieces(body, '"');
    match first_index(ps, "mode"@) {
        Some(i) => if i + 2 < ps.len() { Some(ps[i + 2 as int]) } else { None },
        None => None,
    }
}

/// The mode that a body sets, or the status and message of the refusal.
pub open spec fn mode_request(body: Seq<char>) -> Result<ShaclMode, (u16, Seq<char>)> {
    match mode_field(body) {
        None => Err((400, "Expected JSON body with \"mode\" field, e.g. {\"mode\": \"enforce\"}"@)),
        Some(v) => if v == "off"@ {
            Ok(ShaclMode::Off)
        } else if v == "warn"@ {
            Ok(ShaclMode::Warn)
        } else if v == "enforce"@ {
            Ok(ShaclMode::Enforce)
        } else {
            Err((400, "Invalid mode: \""@ + v + "\". Must be one of: off, warn, enforce"@))
        },
    }
}

proof fn lemma_first_index(ps: Seq<Seq<char>>, x: Seq<char>)
    ensures
        first_index(ps, x) matches Some(i) ==> i < ps.len() && ps[i as int] == x
            && forall|j: int| 0 <= j < i ==> ps[j] != x,
        first_index(ps, x) is None ==> forall|j: int| 0 <= j < ps.len() ==> ps[j] != x,
    decreases ps.len(),
{
    if ps.len() > 0 {
        lemma_first_index(ps.drop_first(), x);
        if ps[0] != x {
            assert forall|j: int| 1 <= j < ps.len() implies ps[j] == ps.drop_first()[j - 1] by {}
        }
    }
}

fn position_of(ps: &[String], x: &str) -> (r: Option<usize>)
    ensures
        match r {
            Some(i) => i < ps@.len() && ps@[i as int]@ == x@ && forall|j: int| 0 <= j < i ==> ps@[j]@ != x@,
            None => forall|j: int| 0 <= j < ps@.len() ==> ps@[j]@ != x@,
        },
{
    let mut i: usize = 0;
    while i < ps.len()
        invariant
            i <= ps@.len(),
            forall|j: int| 0 <= j < i ==> ps@[j]@ != x@,
        decreases ps@.len() - i,
    {
        if str_eq(ps[i].as_str(), x) {
            return Some(i);
        }
        i = i + 1;
    }
    None
}

/// Reads the mode that a `PUT /shacl/mode` body sets.
pub fn parse_mode_body(body: &str) -> (r: Result<ShaclMode, (u16, String)>)
    ensures
        match mode_request(body@) {
            Ok(m) => r == Ok::<ShaclMode, (u16, String)>(m),
            Err((status, msg)) => r matches Err((s2, m2)) && s2 == status && m2@ == msg,
        },
{
    let ps = split_pieces(body, '"');
    let ghost pv = strings_view(ps@);
    proof {
        lemma_first_index(pv, "mode"@);
    }
    let i = match position_of(ps.as_slice(), "mode") {
        Some(i) => i,
        None => {
            assert forall|j: int| 0 <= j < pv.len() implies pv[j] != "mode"@ by {
                assert(pv[j] == ps@[j]@);
            }
            return Err((400, "Expected JSON body with \"mode\" field, e.g. {\"mode\": \"enforce\"}".to_owned()));
        }
    };
    proof {
        assert(pv[i as int] == ps@[i as int]@);
        assert forall|j: int| 0 <= j < i implies pv[j] != "mode"@ by {
            assert(pv[j] == ps@[j]@);
        }
        match first_index(pv, "mode"@) {
            Some(k) => {
                if k < i {
                    assert(pv[k as int] != "mode"@);
                }
                if k > i {
                    assert(pv[i as int] != "mode"@);
                }
            }
            None => {}
        }
    }
    if ps.len() - i <= 2 {
        return Err((400, "Expected JSON body with \"mode\" field, e.g. {\"mode\": \"enforce\"}".to_owned()));
    }
    let v = ps[i + 2].as_str();
    assert(pv[i + 2] == ps@[i + 2]@);
    if str_eq(v, "off") {
        Ok(ShaclMode::Off)
    } else if str_eq(v, "warn") {
        Ok(ShaclMode::Warn)
    } else if str_eq(v, "enforce") {
        Ok(ShaclMode::Enforce)
    } else {
        let mut m = "Invalid mode: \"".to_owned();
        push_str(&mut m, v);
        push_str(&mut m, "\". Must be one of: off, warn, enforce");
        Err((400, m))
    }
}

// ---------------------------------------------------------------------------
// Answer bodies
// ---------------------------------------------------------------------------

/// `{"mode": "<name>"}`.
pub fn mode_body(mode: ShaclMode) -> (r: String)
    ensures
        r@ == "{\"mode\": \""@ + mode_name(mode) + "\"}"@,
{
    let mut out = "{\"mode\": \"".to_owned();
    push_str(&mut out, mode.as_str());
    push_str(&mut out, "\"}");
    out
}

/// `{"loaded": <bool>, "shape_count": <n>}`.
pub fn shapes_body(loaded: bool, count: u64) -> (r: String)
    ensures
        r@ == "{\"loaded\": "@ + (if loaded { "true"@ } else { "false"@ }) + ", \"shape_count\": "@
            + decimal(count as nat) + "}"@,
{
    let mut out = "{\"loaded\": ".to_owned();
    if loaded {
        push_str(&mut out, "true");
    } else {
        push_str(&mut out, "false");
    }
    push_str(&mut out, ", \"shape_count\": ");
    push_decimal(&mut out, count);
    push_str(&mut out, "}");
    out
}

/// `{"<name>":<n>}`, the answer that reports a count.
pub fn count_body(name: &str, count: u64) -> (r: String)
    ensures
        r@ == "{\""@ + name@ + "\":"@ + decimal(count as nat) + "}"@,
{
    let mut out = "{\"".to_owned();
    push_str(&mut out, name);
    push_str(&mut out, "\":");
    push_decimal(&mut out, count);
    push_str(&mut out, "}");
    out
}

/// `{"transaction_id":"<id>"}`, the answer to a begun transaction.
pub fn transaction_begin_body(txn_id: &str) -> (r: String)
    ensures
        r@ == "{\"transaction_id\":\""@ + txn_id@ + "\"}"@,
{
    let mut out = "{\"transaction_id\":\"".to_owned();
    push_str(&mut out, txn_id);
    push_str(&mut out, "\"}");
    out
}

/// Whether a body whose length is declared up front may be read: refused
/// with 400 when it is longer than `max_size` bytes.
pub fn check_declared_body_len(len: u64, max_size: u64) -> (r: Result<(), (u16, String)>)
    ensures
        len <= max_size ==> r is Ok,
        len > max_size ==> (r matches Err((code, m)) && code == 400
            && m@ == "Body too large: "@ + decimal(len as nat) + " bytes (limit "@ + decimal(max_size as nat) + ")"@),
{
    if len <= max_size {
        return Ok(());
    }
    let mut m = String::new();
    push_str(&mut m, "Body too large: ");
    push_decimal(&mut m, len);
    push_str(&mut m, " bytes (limit ");
    push_decimal(&mut m, max_size);
    push_str(&mut m, ")");
    Err((400, m))
}

/// Whether a body of undeclared length, read up to one byte past the
/// limit, stands: refused with 400 when more than `max_size` bytes came.
pub fn check_read_body_len(read: usize, max_size: u64) -> (r: Result<(), (u16, String)>)
    ensures
        read <= max_size ==> r is Ok,
        read > max_size ==> (r matches Err((code, m)) && code == 400
            && m@ == "Body too large (limit "@ + decimal(max_size as nat) + " bytes)"@),
{
    if read as u128 <= max_size as u128 {
        return Ok(());
    }
    let mut m = String::new();
    push_str(&mut m, "Body too large (limit ");
    push_decimal(&mut m, max_size);
    push_str(&mut m, " bytes)");
    Err((400, m))
}

/// Commits a transaction into the dataset and, with the changelog on,
/// records its operations as a `transaction` entry; the commit stands
/// whether or not the entry could be written.
pub fn commit_transaction(
    registry: &mut TransactionRegistry,
    store: &mut QuadStore,
    changelog: &mut Changelog,
    txn_id: &str,
) -> (r: Result<CommitResult, TransactionError>)
    ensures
        final(registry).idle_timeout() == old(registry).idle_timeout(),
        final(registry)@ == old(registry)@.remove(txn_id@),
        final(registry).last_used() == old(registry).last_used().remove(txn_id@),
        match r {
            Ok(c) => old(registry)@.contains_key(txn_id@)
                && next_update(old(registry)@[txn_id@], 0) == old(registry)@[txn_id@].len()
                && c.txn_id@ == txn_id@
                && ops_view(c.ops@) == old(registry)@[txn_id@]
                && exists|secs: u64| {
                    let out = #[trigger] record_outcome(old(changelog)@,
                        apply_ops(old(store)@, old(registry)@[txn_id@]), old(registry)@[txn_id@],
                        "transaction"@, secs);
                    final(changelog)@ == out.1 && final(store)@ == out.2
                },
            Err(e) => final(store)@ == old(store)@ && final(changelog)@ == old(changelog)@
                && if old(registry)@.contains_key(txn_id@) {
                    next_update(old(registry)@[txn_id@], 0) < old(registry)@[txn_id@].len()
                        && e@ == TransactionErrorModel::Query(sparql_unsupported_text())
                } else {
                    e@ is NotFound
                },
        },
{
    let result = registry.commit(txn_id, store);
    match result {
        Ok(c) => {
            if changelog.is_enabled() {
                let _ = changelog.record(store, c.ops.as_slice(), "transaction");
            } else {
                let ghost out = record_outcome(old(changelog)@,
                    apply_ops(old(store)@, old(registry)@[txn_id@]), old(registry)@[txn_id@],
                    "transaction"@, 0);
                assert(changelog@ == out.1 && store@ == out.2);
            }
            Ok(c)
        }
        Err(e) => Err(e),
    }
}

/// `{"committed":true,"transaction_id":"<id>"}`, the answer to a commit.
pub fn commit_body(txn_id: &str) -> (r: String)
    ensures
        r@ == "{\"committed\":true,\"transaction_id\":\""@ + txn_id@ + "\"}"@,
{
    let mut out = "{\"committed\":true,\"transaction_id\":\"".to_owned();
    push_str(&mut out, txn_id);
    push_str(&mut out, "\"}");
    out
}

/// List items joined by commas.
pub open spec fn joined_list_json(es: Seq<EntryModel>) -> Seq<char>
    decreases es.len(),
{
    if es.len() == 0 {
        Seq::empty()
    } else if es.len() == 1 {
        list_json(es[0])
    } else {
        joined_list_json(es.drop_last()) + ","@ + list_json(es.last())
    }
}

/// `{"entries":[...]}`, the answer to a changelog listing.
pub fn changelog_list_body(entries: &[ChangelogEntry]) -> (r: String)
    ensures
        r@ == "{\"entries\":["@ + joined_list_json(entries_view(entries@)) + "]}"@,
{
    let ghost ev = entries_view(entries@);
    let mut items = String::new();
    let mut i: usize = 0;
    assert(ev.take(0) =~= Seq::<EntryModel>::empty());
    while i < entries.len()
        invariant
            i <= entries@.len(),
            ev == entries_view(entries@),
            items@ == joined_list_json(ev.take(i as int)),
        decreases entries@.len() - i,
    {
        let ghost before = items@;
        let ghost t = ev.take(i + 1);
        assert(t.drop_last() =~= ev.take(i as int));
        assert(t.last() == entries@[i as int]@);
        if i > 0 {
            push_str(&mut items, ",");
        }
        let item = entry_to_list_json(&entries[i]);
        push_str(&mut items, item.as_str());
        proof {
            if i == 0 {
                assert(t =~= seq![t[0]]);
                assert(items@ =~= list_json(t[0]));
            } else {
                assert(items@ =~= before + ","@ + list_json(t.last()));
            }
        }
        i = i + 1;
    }
    assert(ev.take(i as int) =~= ev);
    let mut out = "{\"entries\":[".to_owned();
    push_str(&mut out, items.as_str());
    push_str(&mut out, "]}");
    out
}

/// The answer to a validation request made before any shapes are loaded.
pub open spec fn no_shapes_request_text() -> Seq<char> {
    "No SHACL shapes loaded. Upload shapes first via POST /shacl/shapes"@
}

/// A validation request needs loaded shapes: without them it is a 400.
pub fn check_shapes_loaded(shapes_loaded: bool) -> (r: Result<(), (u16, String)>)
    ensures
        shapes_loaded ==> r is Ok,
        !shapes_loaded ==> (r matches Err((code, body)) && code == 400 && body@ == no_shapes_request_text()),
{
    if shapes_loaded {
        Ok(())
    } else {
        Err((400, "No SHACL shapes loaded. Upload shapes first via POST /shacl/shapes".to_owned()))
    }
}

/// What the changelog records for quads loaded into the store: one
/// insertion of all of them, when the changelog is enabled and there is at
/// least one quad; nothing otherwise.
pub fn store_load_ops(changelog_enabled: bool, quads: Vec<Quad>) -> (r: Option<Vec<BufferedOp>>)
    ensures
        (changelog_enabled && quads@.len() > 0) ==> (r matches Some(ops) && ops_view(ops@) == seq![OpModel::InsertQuads(quads_view(quads@))]),
        !(changelog_enabled && quads@.len() > 0) ==> r is None,
{
    if changelog_enabled && quads.len() > 0 {
        let ops = vec![BufferedOp::InsertQuads(quads)];
        assert(ops_view(ops@) =~= seq![OpModel::InsertQuads(quads_view(quads@))]);
        Some(ops)
    } else {
        None
    }
}

/// The message when a changelog entry does not exist.
pub open spec fn entry_not_found_text() -> Seq<char> {
    "Changelog entry not found"@
}

/// The entry a changelog read found, or 404 when there is none.
pub fn found_entry(entry: Option<ChangelogEntry>) -> (r: Result<ChangelogEntry, (u16, String)>)
    ensures
        match entry {
            Some(e) => r matches Ok(f) && f == e,
            None => r matches Err((code, m)) && code == 404 && m@ == entry_not_found_text(),
        },
{
    match entry {
        Some(e) => Ok(e),
        None => Err((404, "Changelog entry not found".to_owned())),
    }
}

} // verus!
