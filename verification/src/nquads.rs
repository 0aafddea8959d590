//! N-Quads text of quads: one `subject predicate object [graph] .` line per
//! quad, terms written as `<iri>`, `_:label`, `"value"`, `"value"@lang` or
//! `"value"^^<datatype>`, with the string escapes of RDF 1.1 N-Quads.
use vstd::prelude::*;
use crate::store::{Subject, Literal, Term, GraphName, Quad, SubjectModel, LiteralModel, TermModel, GraphModel, QuadModel, quads_view};
use crate::text::{push_char, push_str, str_chars};

verus! {

// ---------------------------------------------------------------------------
// Characters
// ---------------------------------------------------------------------------

/// The character with a code point (std's `char::from_u32`): `None` for
/// surrogates and values above 0x10FFFF.
#[verifier::external_body]
fn char_from_code(n: u32) -> (r: Option<char>)
    ensures
        r == char_of(n as nat),
{
    char::from_u32(n)
}


/// The character with code point `n`, when `n` is a Unicode scalar value.
pub open spec fn char_of(n: nat) -> Option<char> {
    if n < 0xD800 || (0xE000 <= n && n <= 0x10FFFF) {
        Some(n as char)
    } else {
        None
    }
}

/// Upper-case hexadecimal digit.
pub open spec fn hex_digit(d: nat) -> char {
    if d < 10 {
        (('0' as nat) + d) as char
    } else {
        (('A' as nat) + d - 10) as char
    }
}

/// Value of a hexadecimal digit (either case).
pub open spec fn hex_value(c: char) -> Option<nat> {
    if '0' <= c && c <= '9' {
        Some((c as nat - '0' as nat) as nat)
    } else if 'A' <= c && c <= 'F' {
        Some((c as nat - 'A' as nat + 10) as nat)
    } else if 'a' <= c && c <= 'f' {
        Some((c as nat - 'a' as nat + 10) as nat)
    } else {
        None
    }
}

/// Four upper-case hexadecimal digits of `n` (below 0x10000).
pub open spec fn hex4(n: nat) -> Seq<char> {
    seq![hex_digit((n / 4096) % 16), hex_digit((n / 256) % 16), hex_digit((n / 16) % 16), hex_digit(n % 16)]
}

/// Value of four hexadecimal digits.
pub open spec fn hex4_value(s: Seq<char>) -> Option<nat> {
    match (hex_value(s[0]), hex_value(s[1]), hex_value(s[2]), hex_value(s[3])) {
        (Some(a), Some(b), Some(c), Some(d)) => Some(((a * 16 + b) * 16 + c) * 16 + d),
        _ => None,
    }
}

/// Whether a character is written as a `\uXXXX` escape.
pub open spec fn needs_code_escape(c: char) -> bool {
    (c as u32) <= 0x1F || c == '\u{7F}' || c == '\u{FFFE}' || c == '\u{FFFF}'
}

/// The escaped form of one character inside a quoted string.
pub open spec fn escape_char(c: char) -> Seq<char> {
    if c == '\u{8}' {
        seq!['\\', 'b']
    } else if c == '\t' {
        seq!['\\', 't']
    } else if c == '\n' {
        seq!['\\', 'n']
    } else if c == '\u{C}' {
        seq!['\\', 'f']
    } else if c == '\r' {
        seq!['\\', 'r']
    } else if c == '"' {
        seq!['\\', '"']
    } else if c == '\\' {
        seq!['\\', '\\']
    } else if needs_code_escape(c) {
        seq!['\\', 'u'] + hex4(c as nat)
    } else {
        seq![c]
    }
}

/// The escaped form of a string.
pub open spec fn escaped(v: Seq<char>) -> Seq<char>
    decreases v.len(),
{
    if v.len() == 0 {
        Seq::empty()
    } else {
        escape_char(v[0]) + escaped(v.drop_first())
    }
}

// ---------------------------------------------------------------------------
// Writing
// ---------------------------------------------------------------------------

/// `"value"` with escapes.
pub open spec fn quoted(v: Seq<char>) -> Seq<char> {
    seq!['"'] + escaped(v) + seq!['"']
}

/// `<iri>`.
pub open spec fn iri_text(i: Seq<char>) -> Seq<char> {
    seq!['<'] + i + seq!['>']
}

/// `_:label`.
pub open spec fn blank_text(b: Seq<char>) -> Seq<char> {
    seq!['_', ':'] + b
}

/// Text of a subject.
pub open spec fn subject_text(s: SubjectModel) -> Seq<char> {
    match s {
        SubjectModel::NamedNode(i) => iri_text(i),
        SubjectModel::BlankNode(b) => blank_text(b),
    }
}

/// Text of a literal.
pub open spec fn literal_text(l: LiteralModel) -> Seq<char> {
    match l {
        LiteralModel::Simple(v) => quoted(v),
        LiteralModel::LanguageTagged(v, lang) => quoted(v) + seq!['@'] + lang,
        LiteralModel::Typed(v, d) => quoted(v) + seq!['^', '^'] + iri_text(d),
    }
}

/// Text of an object.
pub open spec fn term_text(t: TermModel) -> Seq<char> {
    match t {
        TermModel::NamedNode(i) => iri_text(i),
        TermModel::BlankNode(b) => blank_text(b),
        TermModel::Literal(l) => literal_text(l),
    }
}

/// Text of a graph name after the object (nothing for the default graph).
pub open spec fn graph_suffix(g: GraphModel) -> Seq<char> {
    match g {
        GraphModel::DefaultGraph => Seq::empty(),
        GraphModel::NamedNode(i) => seq![' '] + iri_text(i),
        GraphModel::BlankNode(b) => seq![' '] + blank_text(b),
    }
}

/// The line of a quad, without its line break.
pub open spec fn quad_line(q: QuadModel) -> Seq<char> {
    subject_text(q.subject) + seq![' '] + iri_text(q.predicate) + seq![' '] + term_text(q.object)
        + graph_suffix(q.graph_name) + seq![' ', '.']
}

/// N-Quads text of a sequence of quads: each line ends with a line break.
pub open spec fn nquads_text(qs: Seq<QuadModel>) -> Seq<char>
    decreases qs.len(),
{
    if qs.len() == 0 {
        Seq::empty()
    } else {
        quad_line(qs[0]) + seq!['\n'] + nquads_text(qs.drop_first())
    }
}

fn hex_digit_char(d: u32) -> (c: char)
    requires
        d < 16,
    ensures
        c == hex_digit(d as nat),
{
    match d {
        0 => '0',
        1 => '1',
        2 => '2',
        3 => '3',
        4 => '4',
        5 => '5',
        6 => '6',
        7 => '7',
        8 => '8',
        9 => '9',
        10 => 'A',
        11 => 'B',
        12 => 'C',
        13 => 'D',
        14 => 'E',
        _ => 'F',
    }
}

fn push_escaped_char(out: &mut String, c: char)
    ensures
        final(out)@ == old(out)@ + escape_char(c),
{
    let ghost start = out@;
    if c == '\u{8}' {
        push_char(out, '\\');
        push_char(out, 'b');
    } else if c == '\t' {
        push_char(out, '\\');
        push_char(out, 't');
    } else if c == '\n' {
        push_char(out, '\\');
        push_char(out, 'n');
    } else if c == '\u{C}' {
        push_char(out, '\\');
        push_char(out, 'f');
    } else if c == '\r' {
        push_char(out, '\\');
        push_char(out, 'r');
    } else if c == '"' {
        push_char(out, '\\');
        push_char(out, '"');
    } else if c == '\\' {
        push_char(out, '\\');
        push_char(out, '\\');
    } else {
        let n = c as u32;
        if n <= 0x1F || n == 0x7F || n == 0xFFFE || n == 0xFFFF {
            push_char(out, '\\');
            push_char(out, 'u');
            push_char(out, hex_digit_char((n / 4096) % 16));
            push_char(out, hex_digit_char((n / 256) % 16));
            push_char(out, hex_digit_char((n / 16) % 16));
            push_char(out, hex_digit_char(n % 16));
        } else {
            push_char(out, c);
        }
    }
    assert(out@ =~= start + escape_char(c));
}

fn push_quoted(out: &mut String, v: &str)
    ensures
        final(out)@ == old(out)@ + quoted(v@),
{
    let chars = str_chars(v);
    let ghost start = out@;
    push_char(out, '"');
    let mut i: usize = 0;
    assert(chars@.skip(0) =~= v@);
    while i < chars.len()
        invariant
            i <= chars@.len(),
            chars@ == v@,
            out@ + escaped(chars@.skip(i as int)) == start + seq!['"'] + escaped(v@),
        decreases chars@.len() - i,
    {
        let ghost before = out@;
        assert(chars@.skip(i as int).drop_first() =~= chars@.skip(i + 1));
        assert(chars@.skip(i as int)[0] == chars@[i as int]);
        push_escaped_char(out, chars[i]);
        assert(before + escaped(chars@.skip(i as int)) =~= out@ + escaped(chars@.skip(i + 1)));
        i = i + 1;
    }
    assert(chars@.skip(i as int) =~= Seq::<char>::empty());
    push_char(out, '"');
    assert(out@ =~= start + quoted(v@));
}

fn push_iri(out: &mut String, iri: &str)
    ensures
        final(out)@ == old(out)@ + iri_text(iri@),
{
    let ghost start = out@;
    push_char(out, '<');
    push_str(out, iri);
    push_char(out, '>');
    assert(out@ =~= start + iri_text(iri@));
}

fn push_blank(out: &mut String, label: &str)
    ensures
        final(out)@ == old(out)@ + blank_text(label@),
{
    let ghost start = out@;
    push_char(out, '_');
    push_char(out, ':');
    push_str(out, label);
    assert(out@ =~= start + blank_text(label@));
}

fn push_term(out: &mut String, t: &Term)
    ensures
        final(out)@ == old(out)@ + term_text(t@),
{
    let ghost start = out@;
    match t {
        Term::NamedNode(i) => push_iri(out, i.as_str()),
        Term::BlankNode(b) => push_blank(out, b.as_str()),
        Term::Literal(Literal::Simple(v)) => push_quoted(out, v.as_str()),
        Term::Literal(Literal::LanguageTagged(v, l)) => {
            push_quoted(out, v.as_str());
            push_char(out, '@');
            push_str(out, l.as_str());
            assert(out@ =~= start + term_text(t@));
        }
        Term::Literal(Literal::Typed(v, d)) => {
            push_quoted(out, v.as_str());
            push_char(out, '^');
            push_char(out, '^');
            push_iri(out, d.as_str());
            assert(out@ =~= start + term_text(t@));
        }
    }
}

/// Appends the line of a quad (with its line break).
pub fn push_quad_line(out: &mut String, q: &Quad)
    ensures
        final(out)@ == old(out)@ + quad_line(q@) + seq!['\n'],
{
    let ghost start = out@;
    match &q.subject {
        Subject::NamedNode(i) => push_iri(out, i.as_str()),
        Subject::BlankNode(b) => push_blank(out, b.as_str()),
    }
    push_char(out, ' ');
    push_iri(out, q.predicate.as_str());
    push_char(out, ' ');
    push_term(out, &q.object);
    let ghost mid = out@;
    match &q.graph_name {
        GraphName::DefaultGraph => {}
        GraphName::NamedNode(i) => {
            push_char(out, ' ');
            push_iri(out, i.as_str());
        }
        GraphName::BlankNode(b) => {
            push_char(out, ' ');
            push_blank(out, b.as_str());
        }
    }
    assert(out@ =~= mid + graph_suffix(q.graph_name@));
    push_char(out, ' ');
    push_char(out, '.');
    push_char(out, '\n');
    assert(out@ =~= start + quad_line(q@) + seq!['\n']);
}

/// Serialize quads as N-Quads text.
pub fn quads_to_nquads(quads: &[Quad]) -> (r: String)
    ensures
        r@ == nquads_text(quads_view(quads@)),
{
    let mut out = String::new();
    let mut i: usize = 0;
    let ghost all = quads_view(quads@);
    assert(all.skip(0) =~= all);
    while i < quads.len()
        invariant
            i <= quads@.len(),
            all == quads_view(quads@),
            out@ + nquads_text(all.skip(i as int)) == nquads_text(all),
        decreases quads@.len() - i,
    {
        let ghost before = out@;
        assert(all.skip(i as int).drop_first() =~= all.skip(i + 1));
        assert(all.skip(i as int)[0] == quads@[i as int]@);
        push_quad_line(&mut out, &quads[i]);
        assert(before + nquads_text(all.skip(i as int)) =~= out@ + nquads_text(all.skip(i + 1)));
        i = i + 1;
    }
    assert(all.skip(i as int) =~= Seq::<QuadModel>::empty());
    assert(out@ =~= nquads_text(all));
    out
}

// ---------------------------------------------------------------------------
// Reading
// ---------------------------------------------------------------------------

/// Index of the first occurrence of `c` in `s`, if any.
pub open spec fn find_char(s: Seq<char>, c: char) -> Option<nat>
    decreases s.len(),
{
    if s.len() == 0 {
        None
    } else if s[0] == c {
        Some(0)
    } else {
        match find_char(s.drop_first(), c) {
            Some(k) => Some(k + 1),
            None => None,
        }
    }
}

/// Length of the token at the start of `s`: up to the first space.
pub open spec fn token_end(s: Seq<char>) -> nat {
    match find_char(s, ' ') {
        Some(k) => k,
        None => s.len(),
    }
}

/// Reads `<iri>`: the IRI and what follows it.
pub open spec fn parse_iri(s: Seq<char>) -> Option<(Seq<char>, Seq<char>)> {
    if s.len() > 0 && s[0] == '<' {
        match find_char(s.skip(1), '>') {
            Some(k) => Some((s.subrange(1, 1 + k as int), s.skip(k as int + 2))),
            None => None,
        }
    } else {
        None
    }
}

/// Reads `_:label` (the label runs up to the next space).
pub open spec fn parse_blank(s: Seq<char>) -> Option<(Seq<char>, Seq<char>)> {
    if s.len() >= 2 && s[0] == '_' && s[1] == ':' {
        let t = s.skip(2);
        let k = token_end(t);
        Some((t.take(k as int), t.skip(k as int)))
    } else {
        None
    }
}

/// The character that a one-letter escape stands for.
pub open spec fn simple_escape(e: char) -> Option<char> {
    if e == 'b' {
        Some('\u{8}')
    } else if e == 't' {
        Some('\t')
    } else if e == 'n' {
        Some('\n')
    } else if e == 'f' {
        Some('\u{C}')
    } else if e == 'r' {
        Some('\r')
    } else if e == '"' {
        Some('"')
    } else if e == '\\' {
        Some('\\')
    } else {
        None
    }
}

/// Reads the body of a quoted string up to its closing quote: the unescaped
/// value and what follows the quote.
pub open spec fn unquote(s: Seq<char>) -> Option<(Seq<char>, Seq<char>)>
    decreases s.len(),
{
    if s.len() == 0 {
        None
    } else if s[0] == '"' {
        Some((Seq::empty(), s.skip(1)))
    } else if s[0] == '\\' {
        if s.len() < 2 {
            None
        } else if simple_escape(s[1]) is Some {
            match unquote(s.skip(2)) {
                Some((v, r)) => Some((seq![simple_escape(s[1])->0] + v, r)),
                None => None,
            }
        } else if s[1] == 'u' && s.len() >= 6 && hex4_value(s.subrange(2, 6)) is Some
            && char_of(hex4_value(s.subrange(2, 6))->0) is Some {
            match unquote(s.skip(6)) {
                Some((v, r)) => Some((seq![char_of(hex4_value(s.subrange(2, 6))->0)->0] + v, r)),
                None => None,
            }
        } else {
            None
        }
    } else {
        match unquote(s.skip(1)) {
            Some((v, r)) => Some((seq![s[0]] + v, r)),
            None => None,
        }
    }
}

/// Reads a literal.
pub open spec fn parse_literal(s: Seq<char>) -> Option<(LiteralModel, Seq<char>)> {
    if s.len() > 0 && s[0] == '"' {
        match unquote(s.skip(1)) {
            Some((v, r)) => if r.len() > 0 && r[0] == '@' {
                let t = r.skip(1);
                let k = token_end(t);
                Some((LiteralModel::LanguageTagged(v, t.take(k as int)), t.skip(k as int)))
            } else if r.len() >= 2 && r[0] == '^' && r[1] == '^' {
                match parse_iri(r.skip(2)) {
                    Some((d, r2)) => Some((LiteralModel::Typed(v, d), r2)),
                    None => None,
                }
            } else {
                Some((LiteralModel::Simple(v), r))
            },
            None => None,
        }
    } else {
        None
    }
}

/// Reads a subject.
pub open spec fn parse_subject(s: Seq<char>) -> Option<(SubjectModel, Seq<char>)> {
    if s.len() > 0 && s[0] == '<' {
        match parse_iri(s) {
            Some((i, r)) => Some((SubjectModel::NamedNode(i), r)),
            None => None,
        }
    } else {
        match parse_blank(s) {
            Some((b, r)) => Some((SubjectModel::BlankNode(b), r)),
            None => None,
        }
    }
}

/// Reads an object.
pub open spec fn parse_object(s: Seq<char>) -> Option<(TermModel, Seq<char>)> {
    if s.len() > 0 && s[0] == '<' {
        match parse_iri(s) {
            Some((i, r)) => Some((TermModel::NamedNode(i), r)),
            None => None,
        }
    } else if s.len() > 0 && s[0] == '"' {
        match parse_literal(s) {
            Some((l, r)) => Some((TermModel::Literal(l), r)),
            None => None,
        }
    } else {
        match parse_blank(s) {
            Some((b, r)) => Some((TermModel::BlankNode(b), r)),
            None => None,
        }
    }
}

/// The end of a line: ` .`, optionally preceded by a space and a graph name.
pub open spec fn parse_tail(s: Seq<char>) -> Option<GraphModel> {
    if s == seq![' ', '.'] {
        Some(GraphModel::DefaultGraph)
    } else if s.len() > 1 && s[0] == ' ' && s[1] == '<' {
        match parse_iri(s.skip(1)) {
            Some((g, r)) => if r == seq![' ', '.'] { Some(GraphModel::NamedNode(g)) } else { None },
            None => None,
        }
    } else if s.len() > 1 && s[0] == ' ' {
        match parse_blank(s.skip(1)) {
            Some((g, r)) => if r == seq![' ', '.'] { Some(GraphModel::BlankNode(g)) } else { None },
            None => None,
        }
    } else {
        None
    }
}

/// Reads one line (without its line break) as a quad.
pub open spec fn parse_line(l: Seq<char>) -> Option<QuadModel> {
    match parse_subject(l) {
        Some((s, r1)) => if r1.len() > 0 && r1[0] == ' ' {
            match parse_iri(r1.skip(1)) {
                Some((p, r2)) => if r2.len() > 0 && r2[0] == ' ' {
                    match parse_object(r2.skip(1)) {
                        Some((o, r3)) => match parse_tail(r3) {
                            Some(g) => Some(QuadModel { subject: s, predicate: p, object: o, graph_name: g }),
                            None => None,
                        },
                        None => None,
                    }
                } else {
                    None
                },
                None => None,
            }
        } else {
            None
        },
        None => None,
    }
}

/// The quads of the lines that read as quads (other lines are skipped).
pub open spec fn parse_nquads_text(s: Seq<char>) -> Seq<QuadModel>
    decreases s.len(),
{
    if s.len() == 0 {
        Seq::empty()
    } else {
        let k = match find_char(s, '\n') {
            Some(k) => k,
            None => s.len(),
        };
        let rest = if k < s.len() { s.skip(k as int + 1) } else { Seq::empty() };
        (match parse_line(s.take(k as int)) {
            Some(q) => seq![q],
            None => Seq::empty(),
        }) + parse_nquads_text(rest)
    }
}

pub fn find_from(cs: &[char], pos: usize, end: usize, c: char) -> (r: Option<usize>)
    requires
        pos <= end <= cs@.len(),
    ensures
        match find_char(cs@.subrange(pos as int, end as int), c) {
            Some(k) => r == Some((pos + k) as usize),
            None => r is None,
        },
{
    let mut i = pos;
    while i < end
        invariant
            pos <= i <= end <= cs@.len(),
            find_char(cs@.subrange(pos as int, end as int), c) == (match find_char(cs@.subrange(i as int, end as int), c) {
                Some(k) => Some((k + (i - pos)) as nat),
                None => None,
            }),
        decreases end - i,
    {
        let ghost t = cs@.subrange(i as int, end as int);
        assert(t.drop_first() =~= cs@.subrange(i + 1, end as int));
        if cs[i] == c {
            return Some(i);
        }
        i = i + 1;
    }
    None
}

fn token_end_from(cs: &[char], pos: usize, end: usize) -> (r: usize)
    requires
        pos <= end <= cs@.len(),
    ensures
        pos <= r <= end,
        r == pos + token_end(cs@.subrange(pos as int, end as int)),
{
    match find_from(cs, pos, end, ' ') {
        Some(k) => {
            proof {
                lemma_find_char_bound(cs@.subrange(pos as int, end as int), ' ');
            }
            k
        }
        None => end,
    }
}

/// A found index lies inside the sequence and holds the character.
pub proof fn lemma_find_char_bound(s: Seq<char>, c: char)
    ensures
        find_char(s, c) matches Some(k) ==> k < s.len() && s[k as int] == c
            && forall|j: int| 0 <= j < k ==> s[j] != c,
        find_char(s, c) is None ==> forall|j: int| 0 <= j < s.len() ==> s[j] != c,
    decreases s.len(),
{
    if s.len() > 0 {
        lemma_find_char_bound(s.drop_first(), c);
        if s[0] != c {
            assert forall|j: int| 1 <= j < s.len() implies s[j] == s.drop_first()[j - 1] by {}
        }
    }
}

/// The first `c` of `s + t` is the first of `s`, or else the first of `t`
/// shifted past `s`.
pub proof fn lemma_find_char_append(s: Seq<char>, t: Seq<char>, c: char)
    ensures
        find_char(s + t, c) == match find_char(s, c) {
            Some(k) => Some(k),
            None => match find_char(t, c) {
                Some(k) => Some(s.len() + k),
                None => None,
            },
        },
    decreases s.len(),
{
    if s.len() == 0 {
        assert(s + t =~= t);
    } else {
        assert((s + t)[0] == s[0]);
        assert((s + t).drop_first() =~= s.drop_first() + t);
        lemma_find_char_append(s.drop_first(), t, c);
    }
}

/// Reading does not depend on a final line break: a text reads as the same
/// quads with or without a line break after its last line, so a quad on a
/// last line with no line break is read.
pub proof fn lemma_parse_trailing_newline(s: Seq<char>)
    ensures
        parse_nquads_text(s) == parse_nquads_text(s + seq!['\n']),
    decreases s.len(),
{
    let nl = seq!['\n'];
    let t = s + nl;
    lemma_find_char_append(s, nl, '\n');
    assert(find_char(nl, '\n') == Some(0nat));
    if s.len() == 0 {
        assert(t =~= nl);
        assert(t.take(0) =~= Seq::<char>::empty());
        assert(t.skip(1) =~= Seq::<char>::empty());
        assert(parse_line(Seq::<char>::empty()) is None);
        assert(find_char(t, '\n') == Some(0nat));
        assert(parse_nquads_text(Seq::<char>::empty()) =~= Seq::<QuadModel>::empty());
        assert(parse_nquads_text(t) =~= Seq::<QuadModel>::empty() + parse_nquads_text(t.skip(1)));
        assert(parse_nquads_text(t) =~= parse_nquads_text(s));
    } else {
        match find_char(s, '\n') {
            Some(k) => {
                lemma_find_char_bound(s, '\n');
                assert(t.take(k as int) =~= s.take(k as int));
                assert(t.skip(k as int + 1) =~= s.skip(k as int + 1) + nl);
                lemma_parse_trailing_newline(s.skip(k as int + 1));
                assert(find_char(t, '\n') == Some(k));
                assert(parse_nquads_text(t) =~= parse_nquads_text(s));
            }
            None => {
                assert(t.take(s.len() as int) =~= s);
                assert(s.take(s.len() as int) =~= s);
                assert(t.skip(s.len() as int + 1) =~= Seq::<char>::empty());
                assert(find_char(t, '\n') == Some(s.len()));
                assert(parse_nquads_text(Seq::<char>::empty()) =~= Seq::<QuadModel>::empty());
                assert(parse_nquads_text(t) =~= parse_nquads_text(s));
            }
        }
    }
}

pub fn string_of(cs: &[char], a: usize, b: usize) -> (r: String)
    requires
        a <= b <= cs@.len(),
    ensures
        r@ == cs@.subrange(a as int, b as int),
{
    let mut out = String::new();
    let mut i = a;
    while i < b
        invariant
            a <= i <= b <= cs@.len(),
            out@ == cs@.subrange(a as int, i as int),
        decreases b - i,
    {
        push_char(&mut out, cs[i]);
        assert(out@ =~= cs@.subrange(a as int, i + 1));
        i = i + 1;
    }
    out
}

/// Result of reading a value at `pos` in `cs[..end]`, as (value, position after).
pub open spec fn read_matches<T>(cs: Seq<char>, end: usize, spec_r: Option<(T, Seq<char>)>, r: Option<(T, usize)>) -> bool {
    match spec_r {
        Some((v, rest)) => r matches Some((w, np)) && w == v && np <= end && rest == cs.subrange(np as int, end as int),
        None => r is None,
    }
}

fn read_iri(cs: &[char], pos: usize, end: usize) -> (r: Option<(String, usize)>)
    requires
        pos <= end <= cs@.len(),
    ensures
        read_matches(cs@, end, parse_iri(cs@.subrange(pos as int, end as int)),
            match r { Some((s, np)) => Some((s@, np)), None => None }),
{
    let ghost s = cs@.subrange(pos as int, end as int);
    if pos < end && cs[pos] == '<' {
        assert(s.skip(1) =~= cs@.subrange(pos + 1, end as int));
        match find_from(cs, pos + 1, end, '>') {
            Some(k) => {
                proof {
                    lemma_find_char_bound(s.skip(1), '>');
                }
                let iri = string_of(cs, pos + 1, k);
                assert(iri@ =~= s.subrange(1, 1 + (k - pos - 1)));
                assert(s.skip((k - pos - 1) + 2) =~= cs@.subrange(k + 1, end as int));
                Some((iri, k + 1))
            }
            None => None,
        }
    } else {
        None
    }
}

fn read_blank(cs: &[char], pos: usize, end: usize) -> (r: Option<(String, usize)>)
    requires
        pos <= end <= cs@.len(),
    ensures
        read_matches(cs@, end, parse_blank(cs@.subrange(pos as int, end as int)),
            match r { Some((s, np)) => Some((s@, np)), None => None }),
{
    let ghost s = cs@.subrange(pos as int, end as int);
    if end - pos >= 2 && cs[pos] == '_' && cs[pos + 1] == ':' {
        let ghost t = s.skip(2);
        assert(t =~= cs@.subrange(pos + 2, end as int));
        let k = token_end_from(cs, pos + 2, end);
        let label = string_of(cs, pos + 2, k);
        assert(label@ =~= t.take((k - pos - 2) as int));
        assert(t.skip((k - pos - 2) as int) =~= cs@.subrange(k as int, end as int));
        Some((label, k))
    } else {
        None
    }
}

/// Reads one escape sequence at `i` (where `cs[i]` is a backslash): the
/// character it stands for and the position after it.
fn read_escape(cs: &[char], i: usize, end: usize) -> (r: Option<(char, usize)>)
    requires
        i < end <= cs@.len(),
        cs@[i as int] == '\\',
    ensures
        r matches Some((c, j)) ==> i + 2 <= j <= end && unquote(cs@.subrange(i as int, end as int)) == (
            match unquote(cs@.subrange(j as int, end as int)) {
                Some((v, rest)) => Some((seq![c] + v, rest)),
                None => None,
            }),
        r is None ==> unquote(cs@.subrange(i as int, end as int)) is None,
{
    let ghost s = cs@.subrange(i as int, end as int);
    assert(s[0] == cs@[i as int]);
    if end - i < 2 {
        return None;
    }
    let e = cs[i + 1];
    assert(s[1] == e);
    let simple: Option<char> = if e == 'b' {
        Some('\u{8}')
    } else if e == 't' {
        Some('\t')
    } else if e == 'n' {
        Some('\n')
    } else if e == 'f' {
        Some('\u{C}')
    } else if e == 'r' {
        Some('\r')
    } else if e == '"' {
        Some('"')
    } else if e == '\\' {
        Some('\\')
    } else {
        None
    };
    assert(simple == simple_escape(e));
    match simple {
        Some(ch) => {
            assert(s.skip(2) =~= cs@.subrange(i + 2, end as int));
            Some((ch, i + 2))
        }
        None => {
            if e != 'u' || end - i < 6 {
                return None;
            }
            assert(s.subrange(2, 6) =~= cs@.subrange(i + 2, i + 6));
            let code = match hex4_at(cs, i + 2) {
                Some(n) => n,
                None => return None,
            };
            let ch = match char_from_code(code) {
                Some(ch) => ch,
                None => return None,
            };
            assert(s.skip(6) =~= cs@.subrange(i + 6, end as int));
            Some((ch, i + 6))
        }
    }
}

fn read_unquoted(cs: &[char], pos: usize, end: usize) -> (r: Option<(String, usize)>)
    requires
        pos <= end <= cs@.len(),
    ensures
        read_matches(cs@, end, unquote(cs@.subrange(pos as int, end as int)),
            match r { Some((s, np)) => Some((s@, np)), None => None }),
{
    let mut out = String::new();
    let mut i = pos;
    loop
        invariant
            pos <= i <= end <= cs@.len(),
            unquote(cs@.subrange(pos as int, end as int)) == (match unquote(cs@.subrange(i as int, end as int)) {
                Some((v, rest)) => Some((out@ + v, rest)),
                None => None,
            }),
        decreases end - i,
    {
        let ghost s = cs@.subrange(i as int, end as int);
        let ghost acc = out@;
        if i == end {
            return None;
        }
        let c = cs[i];
        assert(s[0] == c);
        if c == '"' {
            assert(s.skip(1) =~= cs@.subrange(i + 1, end as int));
            assert(out@ + Seq::<char>::empty() =~= out@);
            return Some((out, i + 1));
        }
        let (ch, next) = if c == '\\' {
            match read_escape(cs, i, end) {
                Some(t) => t,
                None => return None,
            }
        } else {
            assert(s.skip(1) =~= cs@.subrange(i + 1, end as int));
            (c, i + 1)
        };
        push_char(&mut out, ch);
        proof {
            match unquote(cs@.subrange(next as int, end as int)) {
                Some((v, rest)) => {
                    assert(acc + (seq![ch] + v) =~= out@ + v);
                }
                None => {}
            }
        }
        i = next;
    }
}

fn hex_value_of(c: char) -> (r: Option<u32>)
    ensures
        match hex_value(c) {
            Some(v) => r == Some(v as u32),
            None => r is None,
        },
{
    if '0' <= c && c <= '9' {
        Some((c as u32) - ('0' as u32))
    } else if 'A' <= c && c <= 'F' {
        Some((c as u32) - ('A' as u32) + 10)
    } else if 'a' <= c && c <= 'f' {
        Some((c as u32) - ('a' as u32) + 10)
    } else {
        None
    }
}

fn hex4_at(cs: &[char], i: usize) -> (r: Option<u32>)
    requires
        i + 4 <= cs@.len(),
    ensures
        match hex4_value(cs@.subrange(i as int, i + 4)) {
            Some(v) => r == Some(v as u32),
            None => r is None,
        },
{
    let ghost s = cs@.subrange(i as int, i + 4);
    assert(s[0] == cs@[i as int] && s[1] == cs@[i + 1] && s[2] == cs@[i + 2] && s[3] == cs@[i + 3]);
    let a = match hex_value_of(cs[i]) { Some(v) => v, None => return None };
    let b = match hex_value_of(cs[i + 1]) { Some(v) => v, None => return None };
    let c = match hex_value_of(cs[i + 2]) { Some(v) => v, None => return None };
    let d = match hex_value_of(cs[i + 3]) { Some(v) => v, None => return None };
    Some(((a * 16 + b) * 16 + c) * 16 + d)
}

fn read_literal(cs: &[char], pos: usize, end: usize) -> (r: Option<(Literal, usize)>)
    requires
        pos <= end <= cs@.len(),
    ensures
        read_matches(cs@, end, parse_literal(cs@.subrange(pos as int, end as int)),
            match r { Some((l, np)) => Some((l@, np)), None => None }),
{
    let ghost s = cs@.subrange(pos as int, end as int);
    if pos < end && cs[pos] == '"' {
        assert(s.skip(1) =~= cs@.subrange(pos + 1, end as int));
        match read_unquoted(cs, pos + 1, end) {
            Some((v, j)) => {
                let ghost r = cs@.subrange(j as int, end as int);
                if j < end && cs[j] == '@' {
                    assert(r.skip(1) =~= cs@.subrange(j + 1, end as int));
                    let k = token_end_from(cs, j + 1, end);
                    let lang = string_of(cs, j + 1, k);
                    assert(lang@ =~= r.skip(1).take((k - j - 1) as int));
                    assert(r.skip(1).skip((k - j - 1) as int) =~= cs@.subrange(k as int, end as int));
                    Some((Literal::LanguageTagged(v, lang), k))
                } else if end - j >= 2 && cs[j] == '^' && cs[j + 1] == '^' {
                    assert(r.skip(2) =~= cs@.subrange(j + 2, end as int));
                    match read_iri(cs, j + 2, end) {
                        Some((d, k)) => Some((Literal::Typed(v, d), k)),
                        None => None,
                    }
                } else {
                    Some((Literal::Simple(v), j))
                }
            }
            None => None,
        }
    } else {
        None
    }
}

fn read_subject(cs: &[char], pos: usize, end: usize) -> (r: Option<(Subject, usize)>)
    requires
        pos <= end <= cs@.len(),
    ensures
        read_matches(cs@, end, parse_subject(cs@.subrange(pos as int, end as int)),
            match r { Some((t, np)) => Some((t@, np)), None => None }),
{
    if pos < end && cs[pos] == '<' {
        match read_iri(cs, pos, end) {
            Some((i, k)) => Some((Subject::NamedNode(i), k)),
            None => None,
        }
    } else {
        match read_blank(cs, pos, end) {
            Some((b, k)) => Some((Subject::BlankNode(b), k)),
            None => None,
        }
    }
}

fn read_object(cs: &[char], pos: usize, end: usize) -> (r: Option<(Term, usize)>)
    requires
        pos <= end <= cs@.len(),
    ensures
        read_matches(cs@, end, parse_object(cs@.subrange(pos as int, end as int)),
            match r { Some((t, np)) => Some((t@, np)), None => None }),
{
    if pos < end && cs[pos] == '<' {
        match read_iri(cs, pos, end) {
            Some((i, k)) => Some((Term::NamedNode(i), k)),
            None => None,
        }
    } else if pos < end && cs[pos] == '"' {
        match read_literal(cs, pos, end) {
            Some((l, k)) => Some((Term::Literal(l), k)),
            None => None,
        }
    } else {
        match read_blank(cs, pos, end) {
            Some((b, k)) => Some((Term::BlankNode(b), k)),
            None => None,
        }
    }
}

fn is_line_end(cs: &[char], pos: usize, end: usize) -> (r: bool)
    requires
        pos <= end <= cs@.len(),
    ensures
        r == (cs@.subrange(pos as int, end as int) == seq![' ', '.']),
{
    let r = end - pos == 2 && cs[pos] == ' ' && cs[pos + 1] == '.';
    if r {
        assert(cs@.subrange(pos as int, end as int) =~= seq![' ', '.']);
    } else if end - pos == 2 {
        let ghost s = cs@.subrange(pos as int, end as int);
        assert(s[0] == cs@[pos as int] && s[1] == cs@[pos + 1]);
        assert(seq![' ', '.'][0] == ' ' && seq![' ', '.'][1] == '.');
    } else {
        assert(cs@.subrange(pos as int, end as int).len() != seq![' ', '.'].len());
    }
    r
}

fn read_tail(cs: &[char], pos: usize, end: usize) -> (r: Option<GraphName>)
    requires
        pos <= end <= cs@.len(),
    ensures
        match parse_tail(cs@.subrange(pos as int, end as int)) {
            Some(g) => r matches Some(h) && h@ == g,
            None => r is None,
        },
{
    let ghost s = cs@.subrange(pos as int, end as int);
    if is_line_end(cs, pos, end) {
        return Some(GraphName::DefaultGraph);
    }
    if end - pos > 1 && cs[pos] == ' ' {
        assert(s.skip(1) =~= cs@.subrange(pos + 1, end as int));
        if cs[pos + 1] == '<' {
            match read_iri(cs, pos + 1, end) {
                Some((g, k)) => if is_line_end(cs, k, end) { Some(GraphName::NamedNode(g)) } else { None },
                None => None,
            }
        } else {
            match read_blank(cs, pos + 1, end) {
                Some((g, k)) => if is_line_end(cs, k, end) { Some(GraphName::BlankNode(g)) } else { None },
                None => None,
            }
        }
    } else {
        None
    }
}

fn read_line(cs: &[char], pos: usize, end: usize) -> (r: Option<Quad>)
    requires
        pos <= end <= cs@.len(),
    ensures
        match parse_line(cs@.subrange(pos as int, end as int)) {
            Some(q) => r matches Some(x) && x@ == q,
            None => r is None,
        },
{
    let (subject, j1) = match read_subject(cs, pos, end) {
        Some(t) => t,
        None => return None,
    };
    let ghost r1 = cs@.subrange(j1 as int, end as int);
    if !(j1 < end && cs[j1] == ' ') {
        return None;
    }
    assert(r1.skip(1) =~= cs@.subrange(j1 + 1, end as int));
    let (predicate, j2) = match read_iri(cs, j1 + 1, end) {
        Some(t) => t,
        None => return None,
    };
    let ghost r2 = cs@.subrange(j2 as int, end as int);
    if !(j2 < end && cs[j2] == ' ') {
        return None;
    }
    assert(r2.skip(1) =~= cs@.subrange(j2 + 1, end as int));
    let (object, j3) = match read_object(cs, j2 + 1, end) {
        Some(t) => t,
        None => return None,
    };
    let graph_name = match read_tail(cs, j3, end) {
        Some(g) => g,
        None => return None,
    };
    Some(Quad { subject, predicate, object, graph_name })
}

/// Parse N-Quads text: every line that reads as a quad gives one quad, in
/// order; lines that do not are skipped.
pub fn parse_nquads(nq: &str) -> (r: Vec<Quad>)
    ensures
        quads_view(r@) == parse_nquads_text(nq@),
{
    let cs = str_chars(nq);
    let mut out: Vec<Quad> = Vec::new();
    let mut pos: usize = 0;
    let n = cs.len();
    assert(cs@.subrange(0, n as int) =~= nq@);
    while pos < n
        invariant
            pos <= n == cs@.len(),
            cs@ == nq@,
            parse_nquads_text(nq@) == quads_view(out@) + parse_nquads_text(cs@.subrange(pos as int, n as int)),
        decreases n - pos,
    {
        let ghost s = cs@.subrange(pos as int, n as int);
        let line_end = match find_from(cs.as_slice(), pos, n, '\n') {
            Some(k) => k,
            None => n,
        };
        proof {
            lemma_find_char_bound(s, '\n');
        }
        assert(s.take((line_end - pos) as int) =~= cs@.subrange(pos as int, line_end as int));
        let ghost before = quads_view(out@);
        match read_line(cs.as_slice(), pos, line_end) {
            Some(q) => {
                out.push(q);
                assert(quads_view(out@) =~= before.push(q@));
            }
            None => {}
        }
        let next = if line_end < n { line_end + 1 } else { n };
        proof {
            if line_end < n {
                assert(s.skip((line_end - pos) + 1) =~= cs@.subrange(next as int, n as int));
            } else {
                assert(cs@.subrange(next as int, n as int) =~= Seq::<char>::empty());
            }
            match parse_line(s.take((line_end - pos) as int)) {
                Some(q) => {
                    assert(before + (seq![q] + parse_nquads_text(cs@.subrange(next as int, n as int)))
                        =~= quads_view(out@) + parse_nquads_text(cs@.subrange(next as int, n as int)));
                }
                None => {
                    assert(before + (Seq::<QuadModel>::empty() + parse_nquads_text(cs@.subrange(next as int, n as int)))
                        =~= quads_view(out@) + parse_nquads_text(cs@.subrange(next as int, n as int)));
                }
            }
        }
        pos = next;
    }
    assert(cs@.subrange(pos as int, n as int) =~= Seq::<char>::empty());
    assert(quads_view(out@) + Seq::<QuadModel>::empty() =~= quads_view(out@));
    out
}

// ---------------------------------------------------------------------------
// Reading back what was written
// ---------------------------------------------------------------------------

/// `s` does not contain `c`.
pub open spec fn lacks(s: Seq<char>, c: char) -> bool {
    forall|j: int| 0 <= j < s.len() ==> s[j] != c
}

/// An IRI that fits between angle brackets on one line.
pub open spec fn iri_writable(i: Seq<char>) -> bool {
    lacks(i, '>') && lacks(i, '\n')
}

/// A blank-node label or language tag: it ends at the next space.
pub open spec fn token_writable(b: Seq<char>) -> bool {
    lacks(b, ' ') && lacks(b, '\n')
}

/// A subject whose text reads back as itself.
pub open spec fn subject_writable(s: SubjectModel) -> bool {
    match s {
        SubjectModel::NamedNode(i) => iri_writable(i),
        SubjectModel::BlankNode(b) => token_writable(b),
    }
}

/// A literal whose text reads back as itself (any value can be escaped).
pub open spec fn literal_writable(l: LiteralModel) -> bool {
    match l {
        LiteralModel::Simple(_) => true,
        LiteralModel::LanguageTagged(_, lang) => token_writable(lang),
        LiteralModel::Typed(_, d) => iri_writable(d),
    }
}

/// An object whose text reads back as itself.
pub open spec fn term_writable(t: TermModel) -> bool {
    match t {
        TermModel::NamedNode(i) => iri_writable(i),
        TermModel::BlankNode(b) => token_writable(b),
        TermModel::Literal(l) => literal_writable(l),
    }
}

/// A graph name whose text reads back as itself.
pub open spec fn graph_writable(g: GraphModel) -> bool {
    match g {
        GraphModel::DefaultGraph => true,
        GraphModel::NamedNode(i) => iri_writable(i),
        GraphModel::BlankNode(b) => token_writable(b),
    }
}

/// A quad whose N-Quads line reads back as itself.
pub open spec fn quad_writable(q: QuadModel) -> bool {
    &&& subject_writable(q.subject)
    &&& iri_writable(q.predicate)
    &&& term_writable(q.object)
    &&& graph_writable(q.graph_name)
}

proof fn lemma_find_char_after(a: Seq<char>, t: Seq<char>, c: char)
    requires
        lacks(a, c),
    ensures
        find_char(a + t, c) == (match find_char(t, c) {
            Some(k) => Some(k + a.len()),
            None => None,
        }),
    decreases a.len(),
{
    if a.len() == 0 {
        assert(a + t =~= t);
    } else {
        assert((a + t).drop_first() =~= a.drop_first() + t);
        assert((a + t)[0] == a[0]);
        lemma_find_char_after(a.drop_first(), t, c);
    }
}

proof fn lemma_token_end(b: Seq<char>, t: Seq<char>)
    requires
        lacks(b, ' '),
        t.len() == 0 || t[0] == ' ',
    ensures
        token_end(b + t) == b.len(),
{
    lemma_find_char_after(b, t, ' ');
}

proof fn lemma_parse_iri_text(i: Seq<char>, t: Seq<char>)
    requires
        lacks(i, '>'),
    ensures
        parse_iri(iri_text(i) + t) == Some((i, t)),
{
    let s = iri_text(i) + t;
    assert(s[0] == '<');
    assert(s.skip(1) =~= i + (seq!['>'] + t));
    lemma_find_char_after(i, seq!['>'] + t, '>');
    assert((seq!['>'] + t)[0] == '>');
    assert(s.subrange(1, 1 + i.len() as int) =~= i);
    assert(s.skip(i.len() as int + 2) =~= t);
}

proof fn lemma_parse_blank_text(b: Seq<char>, t: Seq<char>)
    requires
        lacks(b, ' '),
        t.len() == 0 || t[0] == ' ',
    ensures
        parse_blank(blank_text(b) + t) == Some((b, t)),
{
    let s = blank_text(b) + t;
    assert(s[0] == '_' && s[1] == ':');
    assert(s.skip(2) =~= b + t);
    lemma_token_end(b, t);
    assert((b + t).take(b.len() as int) =~= b);
    assert((b + t).skip(b.len() as int) =~= t);
}

proof fn lemma_hex_digit(d: nat)
    requires
        d < 16,
    ensures
        hex_value(hex_digit(d)) == Some(d),
        hex_digit(d) != '\n',
{
}

proof fn lemma_hex4_arith(x: u32)
    requires
        x < 0x10000,
    ensures
        (((x / 4096) % 16 * 16 + (x / 256) % 16) * 16 + (x / 16) % 16) * 16 + x % 16 == x,
{
    assert((((x / 4096) % 16 * 16 + (x / 256) % 16) * 16 + (x / 16) % 16) * 16 + x % 16 == x)
        by (bit_vector)
        requires
            x < 0x10000,
    ;
}

proof fn lemma_hex4(n: nat)
    requires
        n < 0x10000,
    ensures
        hex4(n).len() == 4,
        hex4_value(hex4(n)) == Some(n),
        lacks(hex4(n), '\n'),
{
    lemma_hex_digit((n / 4096) % 16);
    lemma_hex_digit((n / 256) % 16);
    lemma_hex_digit((n / 16) % 16);
    lemma_hex_digit(n % 16);
    lemma_hex4_arith(n as u32);
}

proof fn lemma_unquote_escape_char(c: char, u: Seq<char>)
    ensures
        unquote(escape_char(c) + u) == (match unquote(u) {
            Some((w, r)) => Some((seq![c] + w, r)),
            None => None,
        }),
        lacks(escape_char(c), '\n'),
{
    let s = escape_char(c) + u;
    if c == '\u{8}' || c == '\t' || c == '\n' || c == '\u{C}' || c == '\r' || c == '"' || c == '\\' {
        assert(s[0] == '\\');
        assert(s.skip(2) =~= u);
    } else if needs_code_escape(c) {
        let n = c as nat;
        lemma_hex4(n);
        assert(s[0] == '\\' && s[1] == 'u');
        assert(s.subrange(2, 6) =~= hex4(n));
        assert(s.skip(6) =~= u);
        assert(char_of(n) == Some(c));
    } else {
        assert(s[0] == c);
        assert(s.skip(1) =~= u);
    }
}

proof fn lemma_unquote_escaped(v: Seq<char>, t: Seq<char>)
    ensures
        unquote(escaped(v) + seq!['"'] + t) == Some((v, t)),
        lacks(escaped(v), '\n'),
    decreases v.len(),
{
    let s = escaped(v) + seq!['"'] + t;
    if v.len() == 0 {
        assert(s =~= seq!['"'] + t);
        assert(s.skip(1) =~= t);
        assert(v =~= Seq::<char>::empty());
    } else {
        let rest = v.drop_first();
        lemma_unquote_escaped(rest, t);
        lemma_unquote_escape_char(v[0], escaped(rest) + seq!['"'] + t);
        assert(s =~= escape_char(v[0]) + (escaped(rest) + seq!['"'] + t));
        assert(seq![v[0]] + rest =~= v);
    }
}

proof fn lemma_parse_tagged_text(v: Seq<char>, lang: Seq<char>, t: Seq<char>)
    requires
        token_writable(lang),
        t.len() > 0,
        t[0] == ' ',
    ensures
        parse_literal(quoted(v) + seq!['@'] + lang + t) == Some((LiteralModel::LanguageTagged(v, lang), t)),
{
    let s = quoted(v) + seq!['@'] + lang + t;
    let r = seq!['@'] + lang + t;
    assert(s[0] == '"');
    assert(s.skip(1) =~= escaped(v) + seq!['"'] + r);
    lemma_unquote_escaped(v, r);
    assert(r.skip(1) =~= lang + t);
    lemma_token_end(lang, t);
    assert((lang + t).take(lang.len() as int) =~= lang);
    assert((lang + t).skip(lang.len() as int) =~= t);
}

proof fn lemma_parse_typed_text(v: Seq<char>, d: Seq<char>, t: Seq<char>)
    requires
        iri_writable(d),
    ensures
        parse_literal(quoted(v) + seq!['^', '^'] + iri_text(d) + t) == Some((LiteralModel::Typed(v, d), t)),
{
    let s = quoted(v) + seq!['^', '^'] + iri_text(d) + t;
    let r = seq!['^', '^'] + iri_text(d) + t;
    assert(s[0] == '"');
    assert(s.skip(1) =~= escaped(v) + seq!['"'] + r);
    lemma_unquote_escaped(v, r);
    assert(r[0] == '^' && r[1] == '^');
    assert(r.skip(2) =~= iri_text(d) + t);
    lemma_parse_iri_text(d, t);
}

proof fn lemma_parse_literal_text(l: LiteralModel, t: Seq<char>)
    requires
        literal_writable(l),
        t.len() > 0,
        t[0] == ' ',
    ensures
        parse_literal(literal_text(l) + t) == Some((l, t)),
        lacks(literal_text(l), '\n'),
{
    match l {
        LiteralModel::Simple(v) => {
            let s = literal_text(l) + t;
            assert(s[0] == '"');
            assert(s.skip(1) =~= escaped(v) + seq!['"'] + t);
            lemma_unquote_escaped(v, t);
        }
        LiteralModel::LanguageTagged(v, lang) => {
            lemma_unquote_escaped(v, t);
            lemma_parse_tagged_text(v, lang, t);
        }
        LiteralModel::Typed(v, d) => {
            lemma_unquote_escaped(v, t);
            lemma_parse_typed_text(v, d, t);
        }
    }
}

proof fn lemma_parse_subject_text(x: SubjectModel, t: Seq<char>)
    requires
        subject_writable(x),
        t.len() > 0,
        t[0] == ' ',
    ensures
        parse_subject(subject_text(x) + t) == Some((x, t)),
        lacks(subject_text(x), '\n'),
{
    let s = subject_text(x) + t;
    match x {
        SubjectModel::NamedNode(i) => {
            assert(s[0] == '<');
            lemma_parse_iri_text(i, t);
        }
        SubjectModel::BlankNode(b) => {
            assert(s[0] == '_');
            lemma_parse_blank_text(b, t);
        }
    }
}

proof fn lemma_parse_object_text(o: TermModel, t: Seq<char>)
    requires
        term_writable(o),
        t.len() > 0,
        t[0] == ' ',
    ensures
        parse_object(term_text(o) + t) == Some((o, t)),
        lacks(term_text(o), '\n'),
{
    let s = term_text(o) + t;
    match o {
        TermModel::NamedNode(i) => {
            assert(s[0] == '<');
            lemma_parse_iri_text(i, t);
        }
        TermModel::BlankNode(b) => {
            assert(s[0] == '_');
            lemma_parse_blank_text(b, t);
        }
        TermModel::Literal(l) => {
            assert(s[0] == '"');
            lemma_parse_literal_text(l, t);
        }
    }
}

proof fn lemma_parse_tail_text(g: GraphModel)
    requires
        graph_writable(g),
    ensures
        parse_tail(graph_suffix(g) + seq![' ', '.']) == Some(g),
        lacks(graph_suffix(g), '\n'),
{
    let end = seq![' ', '.'];
    let s = graph_suffix(g) + end;
    match g {
        GraphModel::DefaultGraph => {
            assert(s =~= end);
        }
        GraphModel::NamedNode(i) => {
            assert(s.len() != end.len());
            assert(s[0] == ' ' && s[1] == '<');
            assert(s.skip(1) =~= iri_text(i) + end);
            lemma_parse_iri_text(i, end);
        }
        GraphModel::BlankNode(b) => {
            assert(s.len() != end.len());
            assert(s[0] == ' ' && s[1] == '_');
            assert(s.skip(1) =~= blank_text(b) + end);
            lemma_parse_blank_text(b, end);
        }
    }
}

proof fn lemma_lacks_concat(a: Seq<char>, b: Seq<char>, c: char)
    requires
        lacks(a, c),
        lacks(b, c),
    ensures
        lacks(a + b, c),
{
    assert forall|j: int| 0 <= j < (a + b).len() implies (a + b)[j] != c by {
        if j < a.len() {
            assert((a + b)[j] == a[j]);
        } else {
            assert((a + b)[j] == b[j - a.len()]);
        }
    }
}

proof fn lemma_quad_line_one_line(q: QuadModel)
    requires
        quad_writable(q),
    ensures
        lacks(quad_line(q), '\n'),
{
    let tail = graph_suffix(q.graph_name) + seq![' ', '.'];
    lemma_parse_subject_text(q.subject, tail);
    lemma_parse_object_text(q.object, tail);
    lemma_parse_tail_text(q.graph_name);
    let sp = seq![' '];
    let p = iri_text(q.predicate);
    assert(lacks(sp, '\n'));
    assert(lacks(seq![' ', '.'], '\n'));
    assert(lacks(p, '\n'));
    lemma_lacks_concat(subject_text(q.subject), sp, '\n');
    lemma_lacks_concat(subject_text(q.subject) + sp, p, '\n');
    lemma_lacks_concat(subject_text(q.subject) + sp + p, sp, '\n');
    lemma_lacks_concat(subject_text(q.subject) + sp + p + sp, term_text(q.object), '\n');
    lemma_lacks_concat(subject_text(q.subject) + sp + p + sp + term_text(q.object), graph_suffix(q.graph_name), '\n');
    lemma_lacks_concat(subject_text(q.subject) + sp + p + sp + term_text(q.object) + graph_suffix(q.graph_name),
        seq![' ', '.'], '\n');
}

proof fn lemma_parse_quad_line(q: QuadModel)
    requires
        quad_writable(q),
    ensures
        parse_line(quad_line(q)) == Some(q),
{
    let tail = graph_suffix(q.graph_name) + seq![' ', '.'];
    let r2 = seq![' '] + term_text(q.object) + tail;
    let r1 = seq![' '] + iri_text(q.predicate) + r2;
    let l = quad_line(q);
    assert(l =~= subject_text(q.subject) + r1);
    lemma_parse_subject_text(q.subject, r1);
    assert(r1.skip(1) =~= iri_text(q.predicate) + r2);
    lemma_parse_iri_text(q.predicate, r2);
    assert(r2.skip(1) =~= term_text(q.object) + tail);
    assert(tail[0] == ' ');
    lemma_parse_object_text(q.object, tail);
    lemma_parse_tail_text(q.graph_name);
}

/// Reading N-Quads text gives back the quads it was written from, when
/// their IRIs hold no `>` and their labels and language tags no space
/// (nor, in either, a line break).
pub proof fn lemma_nquads_roundtrip(qs: Seq<QuadModel>)
    requires
        forall|i: int| 0 <= i < qs.len() ==> quad_writable(#[trigger] qs[i]),
    ensures
        parse_nquads_text(nquads_text(qs)) == qs,
    decreases qs.len(),
{
    if qs.len() == 0 {
        assert(qs =~= Seq::<QuadModel>::empty());
    } else {
        let line = quad_line(qs[0]);
        let rest = nquads_text(qs.drop_first());
        let text = nquads_text(qs);
        assert(quad_writable(qs[0]));
        lemma_parse_quad_line(qs[0]);
        lemma_quad_line_one_line(qs[0]);
        assert(text =~= line + (seq!['\n'] + rest));
        lemma_find_char_after(line, seq!['\n'] + rest, '\n');
        assert((seq!['\n'] + rest)[0] == '\n');
        assert(text.take(line.len() as int) =~= line);
        assert(text.skip(line.len() as int + 1) =~= rest);
        assert forall|i: int| 0 <= i < qs.drop_first().len() implies quad_writable(#[trigger] qs.drop_first()[i]) by {
            assert(qs.drop_first()[i] == qs[i + 1]);
        }
        lemma_nquads_roundtrip(qs.drop_first());
        assert(seq![qs[0]] + qs.drop_first() =~= qs);
    }
}

} // verus!
