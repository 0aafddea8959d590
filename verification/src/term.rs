//! Navigation of encoded RDF terms inside index keys.
//!
//! An index key is the concatenation of encoded terms; each encoded term
//! starts with a one-byte type tag that determines its total length.  These
//! functions walk keys at the byte level without decoding the terms.
use vstd::prelude::*;

verus! {

/// Default table (metadata, version key, etc.)
pub const TABLE_DEFAULT: u8 = 0x00;
/// ID-to-string mapping for term dictionary lookups.
pub const TABLE_ID2STR: u8 = 0x01;
/// Subject-Predicate-Object-Graph index.
pub const TABLE_SPOG: u8 = 0x02;
/// Predicate-Object-Subject-Graph index.
pub const TABLE_POSG: u8 = 0x03;
/// Object-Subject-Predicate-Graph index.
pub const TABLE_OSPG: u8 = 0x04;
/// Graph-Subject-Predicate-Object index (named graphs).
pub const TABLE_GSPO: u8 = 0x05;
/// Graph-Predicate-Object-Subject index (named graphs).
pub const TABLE_GPOS: u8 = 0x06;
/// Graph-Object-Subject-Predicate index (named graphs).
pub const TABLE_GOSP: u8 = 0x07;
/// Default-graph Subject-Predicate-Object index.
pub const TABLE_DSPO: u8 = 0x08;
/// Default-graph Predicate-Object-Subject index.
pub const TABLE_DPOS: u8 = 0x09;
/// Default-graph Object-Subject-Predicate index.
pub const TABLE_DOSP: u8 = 0x0A;
/// Named graph registry.
pub const TABLE_GRAPHS: u8 = 0x0B;

/// Identifier that clients send to select this coprocessor plugin.
pub const OXIGRAPH_COPROCESSOR_ID: i64 = 10001;

/// Length of an encoded term whose size is determined by its tag alone.
pub open spec fn fixed_term_len(tag: u8) -> Option<nat> {
    if tag == 1 || tag == 8 || tag == 9 || tag == 10 || tag == 16 || tag == 17 {
        Some(17)
    } else if (20 <= tag <= 25) || (56 <= tag <= 63) {
        Some(33)
    } else if tag == 28 || tag == 29 {
        Some(1)
    } else if tag == 30 {
        Some(5)
    } else if tag == 31 || tag == 32 || tag == 43 {
        Some(9)
    } else if tag == 33 || tag == 44 {
        Some(17)
    } else if 34 <= tag <= 41 {
        Some(19)
    } else if tag == 42 {
        Some(25)
    } else {
        None
    }
}

/// Whether a tag introduces a (quoted) triple made of three nested terms.
pub open spec fn is_triple_tag(tag: u8) -> bool {
    tag == 48 || tag == 49
}

/// Outcome of measuring the encoded term at the start of a byte sequence.
pub enum TermScan {
    /// The term spans this many bytes (it may extend past the data).
    Len(nat),
    /// The data is empty.
    Empty,
    /// The type tag is not a known one.
    UnknownTag,
    /// A nested term would start past the end of the data.
    Overrun,
}

/// The length of the encoded term at the start of `data`.
pub open spec fn term_scan(data: Seq<u8>) -> TermScan
    decreases data.len(), 4int,
{
    if data.len() == 0 {
        TermScan::Empty
    } else if fixed_term_len(data[0]) is Some {
        TermScan::Len(fixed_term_len(data[0])->0)
    } else if is_triple_tag(data[0]) {
        children_scan(data, 1, 3)
    } else {
        TermScan::UnknownTag
    }
}

/// Measures `remaining` consecutive terms starting at `offset`; on success
/// gives the offset just past the last of them.
pub open spec fn children_scan(data: Seq<u8>, offset: nat, remaining: nat) -> TermScan
    decreases (if offset <= data.len() { data.len() - offset + 1 } else { 0int }), remaining,
{
    if remaining == 0 {
        TermScan::Len(offset)
    } else if offset > data.len() {
        TermScan::Overrun
    } else {
        match term_scan(data.skip(offset as int)) {
            TermScan::Len(n) => children_scan(data, offset + n, (remaining - 1) as nat),
            other => other,
        }
    }
}

/// A measured term never ends more than 33 bytes past the data.
pub proof fn lemma_term_scan_bound(data: Seq<u8>)
    ensures
        term_scan(data) matches TermScan::Len(n) ==> 1 <= n <= data.len() + 33,
    decreases data.len(), 4int,
{
    if data.len() > 0 && fixed_term_len(data[0]) is None && is_triple_tag(data[0]) {
        lemma_children_scan_bound(data, 1, 3);
    }
}

/// Bound on the end offset of consecutive terms.
pub proof fn lemma_children_scan_bound(data: Seq<u8>, offset: nat, remaining: nat)
    requires
        offset <= data.len() + 33,
    ensures
        children_scan(data, offset, remaining) matches TermScan::Len(n) ==> offset <= n <= data.len() + 33,
    decreases (if offset <= data.len() { data.len() - offset + 1 } else { 0int }), remaining,
{
    if remaining > 0 && offset <= data.len() {
        let child = data.skip(offset as int);
        lemma_term_scan_bound(child);
        if let TermScan::Len(n) = term_scan(child) {
            lemma_children_scan_bound(data, offset + n, (remaining - 1) as nat);
        }
    }
}

/// `t` is exactly one encoded term.
pub open spec fn is_complete_term(t: Seq<u8>) -> bool {
    term_scan(t) == TermScan::Len(t.len())
}

/// Measuring a term reads only the term's own bytes: data that agrees with
/// `d` on the `n` bytes of the term at its start measures the same.
pub proof fn lemma_term_scan_local(d: Seq<u8>, e: Seq<u8>, n: nat)
    requires
        term_scan(d) == TermScan::Len(n),
        n <= d.len(),
        n <= e.len(),
        d.take(n as int) == e.take(n as int),
    ensures
        term_scan(e) == TermScan::Len(n),
    decreases d.len(), 4int,
{
    lemma_term_scan_bound(d);
    assert(d[0] == d.take(n as int)[0]);
    assert(e[0] == e.take(n as int)[0]);
    if fixed_term_len(d[0]) is None && is_triple_tag(d[0]) {
        lemma_children_scan_local(d, e, 1, 3, n);
    }
}

/// Consecutive terms are measured from their own bytes alone.
pub proof fn lemma_children_scan_local(d: Seq<u8>, e: Seq<u8>, offset: nat, remaining: nat, m: nat)
    requires
        children_scan(d, offset, remaining) == TermScan::Len(m),
        m <= d.len(),
        m <= e.len(),
        d.take(m as int) == e.take(m as int),
    ensures
        children_scan(e, offset, remaining) == TermScan::Len(m),
    decreases (if offset <= d.len() { d.len() - offset + 1 } else { 0int }), remaining,
{
    if remaining > 0 {
        let child = d.skip(offset as int);
        let echild = e.skip(offset as int);
        lemma_term_scan_bound(child);
        if let TermScan::Len(k) = term_scan(child) {
            lemma_children_scan_bound(d, offset + k, (remaining - 1) as nat);
            assert(offset + k <= m);
            assert(child.take(k as int) =~= d.take(m as int).subrange(offset as int, (offset + k) as int));
            assert(echild.take(k as int) =~= e.take(m as int).subrange(offset as int, (offset + k) as int));
            lemma_term_scan_local(child, echild, k);
            lemma_children_scan_local(d, e, offset + k, (remaining - 1) as nat, m);
        }
    }
}

/// No encoded term is a proper prefix of another: two byte strings that
/// each start with a complete term start with the same term.
pub proof fn lemma_complete_term_prefix(a: Seq<u8>, x: Seq<u8>, b: Seq<u8>, y: Seq<u8>)
    requires
        is_complete_term(a),
        is_complete_term(b),
        a + x == b + y,
    ensures
        a == b,
        x == y,
{
    let d = a + x;
    assert(a.take(a.len() as int) =~= d.take(a.len() as int));
    lemma_term_scan_local(a, d, a.len());
    assert(b.take(b.len() as int) =~= d.take(b.len() as int));
    lemma_term_scan_local(b, d, b.len());
    assert(a =~= d.take(a.len() as int));
    assert(b =~= d.take(b.len() as int));
    assert(x =~= d.skip(a.len() as int));
    assert(y =~= d.skip(b.len() as int));
}

fn fixed_len_of(tag: u8) -> (r: Option<usize>)
    ensures
        r matches Some(n) ==> fixed_term_len(tag) == Some(n as nat),
        r is None ==> fixed_term_len(tag) is None,
{
    match tag {
        1 | 8 | 9 | 10 | 16 | 17 => Some(17),
        20..=25 => Some(33),
        28 | 29 => Some(1),
        30 => Some(5),
        31 | 32 | 43 => Some(9),
        33 | 44 => Some(17),
        34..=41 => Some(19),
        42 => Some(25),
        56..=63 => Some(33),
        _ => None,
    }
}

/// Spec counterpart of the error text for an empty term.
pub open spec fn msg_empty_term() -> Seq<char> {
    "empty term data"@
}

/// Spec counterpart of the error text for an unknown tag.
pub open spec fn msg_unknown_tag() -> Seq<char> {
    "unknown term type byte"@
}

/// Whether `r` is the result that `term_scan(data)` prescribes.
pub open spec fn term_len_result(data: Seq<u8>, r: Result<usize, &str>) -> bool {
    match term_scan(data) {
        TermScan::Len(n) => r matches Ok(k) && k as nat == n,
        TermScan::Empty => r matches Err(e) && e@ == msg_empty_term(),
        TermScan::UnknownTag => r matches Err(e) && e@ == msg_unknown_tag(),
        TermScan::Overrun => false,
    }
}

fn term_len_from(data: &[u8], start: usize) -> (r: Result<usize, &'static str>)
    requires
        start <= data@.len(),
        data@.len() <= isize::MAX,
        !(term_scan(data@.skip(start as int)) is Overrun),
    ensures
        term_len_result(data@.skip(start as int), r),
    decreases data@.len() - start,
{
    let ghost d = data@.skip(start as int);
    if start == data.len() {
        return Err("empty term data");
    }
    let tag = data[start];
    assert(d[0] == tag);
    match fixed_len_of(tag) {
        Some(n) => Ok(n),
        None => {
            if tag == 48 || tag == 49 {
                let mut offset: usize = 1;
                let mut i: usize = 0;
                assert(children_scan(d, 1, 3) == term_scan(d));
                while i < 3
                    invariant
                        start < data@.len(),
                        data@.len() <= isize::MAX,
                        d == data@.skip(start as int),
                        term_scan(d) == children_scan(d, 1, 3),
                        !(term_scan(d) is Overrun),
                        i <= 3,
                        1 <= offset <= d.len() + 33,
                        children_scan(d, offset as nat, (3 - i) as nat) == term_scan(d),
                    decreases 3 - i,
                {
                    proof {
                        lemma_children_scan_bound(d, offset as nat, (3 - i) as nat);
                    }
                    // a child starting past the end would be an overrun
                    assert(offset <= d.len());
                    let child_start = start + offset;
                    assert(data@.skip(child_start as int) =~= d.skip(offset as int));
                    let child_len = match term_len_from(data, child_start) {
                        Ok(n) => n,
                        Err(e) => return Err(e),
                    };
                    proof {
                        lemma_term_scan_bound(d.skip(offset as int));
                    }
                    offset = offset + child_len;
                    i = i + 1;
                }
                Ok(offset)
            } else {
                Err("unknown term type byte")
            }
        }
    }
}

/// Returns the total byte length of the encoded term at the start of `data`,
/// including the one-byte type tag.
///
/// Fixed-size terms are measured from their tag alone; a triple is the tag
/// followed by three nested terms.  The data need not hold the whole term.
pub fn encoded_term_len(data: &[u8]) -> (r: Result<usize, &'static str>)
    requires
        data@.len() <= isize::MAX,
        !(term_scan(data@) is Overrun),
    ensures
        term_len_result(data@, r),
{
    assert(data@.skip(0) =~= data@);
    term_len_from(data, 0)
}


/// Outcome of locating the term at a given position inside a key.
pub enum ExtractScan {
    /// The term starts at this offset and spans this many bytes.
    Found(nat, nat),
    /// The key ends before the requested position.
    TooShort,
    /// A term is empty (cannot happen inside a key, kept for completeness).
    Empty,
    /// A term carries an unknown type tag.
    UnknownTag,
    /// A term does not fit in the key.
    Overrun,
}

/// Locates the term at index `pos` (0-based), counting from the term that
/// starts at `offset`.
pub open spec fn extract_scan(key: Seq<u8>, pos: nat, offset: nat) -> ExtractScan
    decreases pos,
{
    if offset >= key.len() {
        ExtractScan::TooShort
    } else {
        match term_scan(key.skip(offset as int)) {
            TermScan::Len(n) => if pos == 0 {
                if offset + n <= key.len() {
                    ExtractScan::Found(offset, n)
                } else {
                    ExtractScan::Overrun
                }
            } else {
                extract_scan(key, (pos - 1) as nat, offset + n)
            },
            TermScan::Empty => ExtractScan::Empty,
            TermScan::UnknownTag => ExtractScan::UnknownTag,
            TermScan::Overrun => ExtractScan::Overrun,
        }
    }
}

/// Spec counterpart of the error text for a position beyond the key.
pub open spec fn msg_key_too_short() -> Seq<char> {
    "key too short for requested term position"@
}

/// Whether `r` is the result that `extract_scan` prescribes for `pos`.
pub open spec fn extract_result(key: Seq<u8>, pos: nat, r: Result<Seq<u8>, Seq<char>>) -> bool {
    match extract_scan(key, pos, 0) {
        ExtractScan::Found(s, n) => r == Ok::<Seq<u8>, Seq<char>>(key.subrange(s as int, (s + n) as int)),
        ExtractScan::TooShort => r == Err::<Seq<u8>, Seq<char>>(msg_key_too_short()),
        ExtractScan::Empty => r == Err::<Seq<u8>, Seq<char>>(msg_empty_term()),
        ExtractScan::UnknownTag => r == Err::<Seq<u8>, Seq<char>>(msg_unknown_tag()),
        ExtractScan::Overrun => false,
    }
}

/// Views a byte-slice result as plain sequences.
pub open spec fn slice_result_view(r: Result<&[u8], &str>) -> Result<Seq<u8>, Seq<char>> {
    match r {
        Ok(b) => Ok(b@),
        Err(e) => Err(e@),
    }
}

/// Extract the byte slice of the term at `position` (0-based) in a key.
///
/// The key must not include the one-byte table prefix.
pub fn extract_term_bytes(key: &[u8], position: usize) -> (r: Result<&[u8], &'static str>)
    requires
        key@.len() <= isize::MAX,
        !(extract_scan(key@, position as nat, 0) is Overrun),
    ensures
        extract_result(key@, position as nat, slice_result_view(r)),
{
    let mut offset: usize = 0;
    let mut i: usize = 0;
    loop
        invariant
            key@.len() <= isize::MAX,
            i <= position,
            offset <= key@.len() + 33,
            extract_scan(key@, (position - i) as nat, offset as nat) == extract_scan(key@, position as nat, 0),
            !(extract_scan(key@, position as nat, 0) is Overrun),
        decreases position - i,
    {
        if offset >= key.len() {
            return Err("key too short for requested term position");
        }
        let ghost rest = key@.skip(offset as int);
        let len = match term_len_from(key, offset) {
            Ok(n) => n,
            Err(e) => return Err(e),
        };
        proof {
            lemma_term_scan_bound(rest);
        }
        if i == position {
            return Ok(&key[offset..offset + len]);
        }
        offset = offset + len;
        i = i + 1;
    }
}

/// Outcome of extracting and concatenating several terms of a key.
pub enum ConcatScan {
    /// The concatenated bytes of all requested terms.
    Bytes(Seq<u8>),
    /// The first failing position failed in this way.
    Failed(ExtractScan),
}

/// Concatenates the terms at `positions`, in order; the first failure wins.
pub open spec fn concat_scan(key: Seq<u8>, positions: Seq<u32>) -> ConcatScan
    decreases positions.len(),
{
    if positions.len() == 0 {
        ConcatScan::Bytes(Seq::empty())
    } else {
        match extract_scan(key, positions[0] as nat, 0) {
            ExtractScan::Found(s, n) => match concat_scan(key, positions.drop_first()) {
                ConcatScan::Bytes(rest) => ConcatScan::Bytes(key.subrange(s as int, (s + n) as int) + rest),
                failed => failed,
            },
            failure => ConcatScan::Failed(failure),
        }
    }
}

/// Whether `r` is the result that `concat_scan` prescribes.
pub open spec fn concat_result(key: Seq<u8>, positions: Seq<u32>, r: Result<Seq<u8>, Seq<char>>) -> bool {
    match concat_scan(key, positions) {
        ConcatScan::Bytes(b) => r == Ok::<Seq<u8>, Seq<char>>(b),
        ConcatScan::Failed(ExtractScan::TooShort) => r == Err::<Seq<u8>, Seq<char>>(msg_key_too_short()),
        ConcatScan::Failed(ExtractScan::Empty) => r == Err::<Seq<u8>, Seq<char>>(msg_empty_term()),
        ConcatScan::Failed(ExtractScan::UnknownTag) => r == Err::<Seq<u8>, Seq<char>>(msg_unknown_tag()),
        ConcatScan::Failed(_) => false,
    }
}

/// Views a byte-vector result as plain sequences.
pub open spec fn vec_result_view(r: Result<Vec<u8>, &str>) -> Result<Seq<u8>, Seq<char>> {
    match r {
        Ok(b) => Ok(b@),
        Err(e) => Err(e@),
    }
}

/// Extract and concatenate the terms at several positions of a key, in the
/// order the positions are given (used as a multi-variable filter key).
pub fn extract_concat_term_bytes(key: &[u8], positions: &[u32]) -> (r: Result<Vec<u8>, &'static str>)
    requires
        key@.len() <= isize::MAX,
        !(concat_scan(key@, positions@) matches ConcatScan::Failed(ExtractScan::Overrun)),
    ensures
        concat_result(key@, positions@, vec_result_view(r)),
{
    let mut result: Vec<u8> = Vec::new();
    let mut j: usize = 0;
    assert(positions@.skip(0) =~= positions@);
    proof {
        match concat_scan(key@, positions@) {
            ConcatScan::Bytes(rest) => {
                assert(result@ + rest =~= rest);
            }
            _ => {}
        }
    }
    while j < positions.len()
        invariant
            key@.len() <= isize::MAX,
            j <= positions@.len(),
            concat_scan(key@, positions@) == (match concat_scan(key@, positions@.skip(j as int)) {
                ConcatScan::Bytes(rest) => ConcatScan::Bytes(result@ + rest),
                failed => failed,
            }),
            !(concat_scan(key@, positions@) matches ConcatScan::Failed(ExtractScan::Overrun)),
        decreases positions@.len() - j,
    {
        let ghost tail = positions@.skip(j as int);
        assert(tail.drop_first() =~= positions@.skip(j + 1));
        assert(tail[0] == positions@[j as int]);
        let term = match extract_term_bytes(key, positions[j] as usize) {
            Ok(t) => t,
            Err(e) => return Err(e),
        };
        let ghost before = result@;
        result.extend_from_slice(term);
        proof {
            match concat_scan(key@, positions@.skip(j + 1)) {
                ConcatScan::Bytes(rest) => {
                    assert(before + (term@ + rest) =~= result@ + rest);
                }
                _ => {}
            }
        }
        j = j + 1;
    }
    assert(positions@.skip(j as int).len() == 0);
    Ok(result)
}

} // verus!
