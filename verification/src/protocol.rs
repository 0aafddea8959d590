//! Binary request/response encoding of the coprocessor plugin.
//!
//! Request: byte 0 operation (0 IndexScan, 1 FilterScan, 2 CountScan,
//! 3 MinMaxScan), byte 1 table prefix, bytes 2..4 key-prefix length (u16 BE),
//! then the key prefix, then optional bloom-filter bytes.
//!
//! Response: scanned keys (u64 BE), result count (u64 BE), then for scans
//! repeated (key length u16 BE, key, value length u32 BE, value); for
//! min/max the min key and max key each as (u16 BE length, bytes).
use vstd::prelude::*;
use crate::text::{decimal, push_decimal};

verus! {

/// Operation types that can be requested.
#[derive(Debug, Clone, Copy, PartialEq, Eq, Structural)]
pub enum OpType {
    IndexScan,
    FilterScan,
    CountScan,
    MinMaxScan,
}

/// Wire code of an operation.
pub open spec fn op_code(op: OpType) -> u8 {
    match op {
        OpType::IndexScan => 0,
        OpType::FilterScan => 1,
        OpType::CountScan => 2,
        OpType::MinMaxScan => 3,
    }
}

/// Operation of a wire code, if any.
pub open spec fn op_of_code(b: u8) -> Option<OpType> {
    if b == 0 {
        Some(OpType::IndexScan)
    } else if b == 1 {
        Some(OpType::FilterScan)
    } else if b == 2 {
        Some(OpType::CountScan)
    } else if b == 3 {
        Some(OpType::MinMaxScan)
    } else {
        None
    }
}

impl OpType {
    /// Decodes an operation from its wire code.
    pub fn from_byte(b: u8) -> (r: Option<Self>)
        ensures
            r == op_of_code(b),
    {
        match b {
            0 => Some(Self::IndexScan),
            1 => Some(Self::FilterScan),
            2 => Some(Self::CountScan),
            3 => Some(Self::MinMaxScan),
            _ => None,
        }
    }

    /// Wire code of the operation.
    pub fn to_byte(self) -> (r: u8)
        ensures
            r == op_code(self),
    {
        match self {
            Self::IndexScan => 0,
            Self::FilterScan => 1,
            Self::CountScan => 2,
            Self::MinMaxScan => 3,
        }
    }
}

/// Decoded coprocessor request.
#[derive(Debug, Clone)]
pub struct CoprocessorRequest {
    pub op_type: OpType,
    pub table_prefix: u8,
    pub key_prefix: Vec<u8>,
    pub bloom_filter: Option<Vec<u8>>,
}

/// Plain-value model of a request.
pub struct RequestModel {
    pub op_type: OpType,
    pub table_prefix: u8,
    pub key_prefix: Seq<u8>,
    pub bloom_filter: Option<Seq<u8>>,
}

impl View for CoprocessorRequest {
    type V = RequestModel;

    open spec fn view(&self) -> RequestModel {
        RequestModel {
            op_type: self.op_type,
            table_prefix: self.table_prefix,
            key_prefix: self.key_prefix@,
            bloom_filter: match self.bloom_filter {
                Some(b) => Some(b@),
                None => None,
            },
        }
    }
}

// ---------------------------------------------------------------------------
// Big-endian integers
// ---------------------------------------------------------------------------

/// Big-endian bytes of a u16.
pub open spec fn be16(v: u16) -> Seq<u8> {
    seq![(v >> 8u16) as u8, v as u8]
}

/// Big-endian bytes of a u32.
pub open spec fn be32(v: u32) -> Seq<u8> {
    seq![(v >> 24u32) as u8, (v >> 16u32) as u8, (v >> 8u32) as u8, v as u8]
}

/// Big-endian bytes of a u64.
pub open spec fn be64(v: u64) -> Seq<u8> {
    seq![
        (v >> 56u64) as u8, (v >> 48u64) as u8, (v >> 40u64) as u8, (v >> 32u64) as u8,
        (v >> 24u64) as u8, (v >> 16u64) as u8, (v >> 8u64) as u8, v as u8,
    ]
}

/// Value of two big-endian bytes.
pub open spec fn from_be16(a: u8, b: u8) -> u16 {
    ((a as u16) << 8u16) | (b as u16)
}

/// Value of four big-endian bytes.
pub open spec fn from_be32(a: u8, b: u8, c: u8, d: u8) -> u32 {
    ((a as u32) << 24u32) | ((b as u32) << 16u32) | ((c as u32) << 8u32) | (d as u32)
}

/// Value of eight big-endian bytes starting at `i`.
pub open spec fn from_be64_at(s: Seq<u8>, i: int) -> u64 {
    ((s[i] as u64) << 56u64) | ((s[i + 1] as u64) << 48u64) | ((s[i + 2] as u64) << 40u64)
        | ((s[i + 3] as u64) << 32u64) | ((s[i + 4] as u64) << 24u64) | ((s[i + 5] as u64) << 16u64)
        | ((s[i + 6] as u64) << 8u64) | (s[i + 7] as u64)
}

/// Decoding the big-endian bytes of a u16 gives it back.
pub proof fn lemma_be16_roundtrip(v: u16)
    ensures
        from_be16(be16(v)[0], be16(v)[1]) == v,
{
    let a = (v >> 8u16) as u8;
    let b = v as u8;
    assert(((((v >> 8u16) as u8) as u16) << 8u16) | ((v as u8) as u16) == v) by (bit_vector);
}

/// The two bytes of a decoded u16 are the bytes it came from.
pub proof fn lemma_be16_bytes(a: u8, b: u8)
    ensures
        be16(from_be16(a, b)) == seq![a, b],
{
    let v = from_be16(a, b);
    assert((((((a as u16) << 8u16) | (b as u16)) >> 8u16) as u8) == a) by (bit_vector);
    assert(((((a as u16) << 8u16) | (b as u16)) as u8) == b) by (bit_vector);
    assert(be16(v) =~= seq![a, b]);
}

/// Decoding the big-endian bytes of a u32 gives it back.
pub proof fn lemma_be32_roundtrip(v: u32)
    ensures
        from_be32(be32(v)[0], be32(v)[1], be32(v)[2], be32(v)[3]) == v,
{
    assert(((((v >> 24u32) as u8) as u32) << 24u32) | ((((v >> 16u32) as u8) as u32) << 16u32)
        | ((((v >> 8u32) as u8) as u32) << 8u32) | ((v as u8) as u32) == v) by (bit_vector);
}

/// Decoding the big-endian bytes of a u64 gives it back.
pub proof fn lemma_be64_roundtrip(v: u64)
    ensures
        from_be64_at(be64(v), 0) == v,
{
    let s = be64(v);
    assert(((((v >> 56u64) as u8) as u64) << 56u64) | ((((v >> 48u64) as u8) as u64) << 48u64)
        | ((((v >> 40u64) as u8) as u64) << 40u64) | ((((v >> 32u64) as u8) as u64) << 32u64)
        | ((((v >> 24u64) as u8) as u64) << 24u64) | ((((v >> 16u64) as u8) as u64) << 16u64)
        | ((((v >> 8u64) as u8) as u64) << 8u64) | ((v as u8) as u64) == v) by (bit_vector);
}

/// Decoding a u64 is unaffected by what follows its eight bytes.
pub proof fn lemma_from_be64_prefix(a: Seq<u8>, b: Seq<u8>, i: int)
    requires
        0 <= i,
        i + 8 <= a.len(),
    ensures
        from_be64_at(a + b, i) == from_be64_at(a, i),
{
}

fn push_be16(buf: &mut Vec<u8>, v: u16)
    ensures
        final(buf)@ == old(buf)@ + be16(v),
{
    buf.push((v >> 8) as u8);
    buf.push(v as u8);
    assert(buf@ =~= old(buf)@ + be16(v));
}

fn push_be32(buf: &mut Vec<u8>, v: u32)
    ensures
        final(buf)@ == old(buf)@ + be32(v),
{
    buf.push((v >> 24) as u8);
    buf.push((v >> 16) as u8);
    buf.push((v >> 8) as u8);
    buf.push(v as u8);
    assert(buf@ =~= old(buf)@ + be32(v));
}

fn push_be64(buf: &mut Vec<u8>, v: u64)
    ensures
        final(buf)@ == old(buf)@ + be64(v),
{
    buf.push((v >> 56) as u8);
    buf.push((v >> 48) as u8);
    buf.push((v >> 40) as u8);
    buf.push((v >> 32) as u8);
    buf.push((v >> 24) as u8);
    buf.push((v >> 16) as u8);
    buf.push((v >> 8) as u8);
    buf.push(v as u8);
    assert(buf@ =~= old(buf)@ + be64(v));
}

fn read_be64(data: &[u8], i: usize) -> (r: u64)
    requires
        i + 8 <= data@.len(),
    ensures
        r == from_be64_at(data@, i as int),
{
    ((data[i] as u64) << 56) | ((data[i + 1] as u64) << 48) | ((data[i + 2] as u64) << 40)
        | ((data[i + 3] as u64) << 32) | ((data[i + 4] as u64) << 24) | ((data[i + 5] as u64) << 16)
        | ((data[i + 6] as u64) << 8) | (data[i + 7] as u64)
}

// ---------------------------------------------------------------------------
// Requests
// ---------------------------------------------------------------------------

/// The wire bytes of a request; the key-prefix length is written as a u16,
/// so only its low 16 bits are kept.
pub open spec fn request_bytes(r: RequestModel) -> Seq<u8> {
    seq![op_code(r.op_type), r.table_prefix] + be16(r.key_prefix.len() as u16) + r.key_prefix
        + match r.bloom_filter {
        Some(b) => b,
        None => Seq::empty(),
    }
}

/// Why a request fails to decode.
pub enum RequestDecodeError {
    /// Fewer than four bytes.
    TooShort,
    /// Unknown operation code.
    UnknownOp(u8),
    /// The declared key-prefix length exceeds the bytes that remain.
    Truncated(u16, nat),
}

/// The request that the bytes encode, or why they do not.
pub open spec fn decode_request_spec(data: Seq<u8>) -> Result<RequestModel, RequestDecodeError> {
    if data.len() < 4 {
        Err(RequestDecodeError::TooShort)
    } else if op_of_code(data[0]) is None {
        Err(RequestDecodeError::UnknownOp(data[0]))
    } else {
        let len = from_be16(data[2], data[3]);
        if data.len() < 4 + len {
            Err(RequestDecodeError::Truncated(len, (data.len() - 4) as nat))
        } else {
            Ok(RequestModel {
                op_type: op_of_code(data[0])->0,
                table_prefix: data[1],
                key_prefix: data.subrange(4, 4 + len),
                bloom_filter: if data.len() > 4 + len {
                    Some(data.subrange(4 + len, data.len() as int))
                } else {
                    None
                },
            })
        }
    }
}

/// The error text of a request decode failure.
pub open spec fn request_error_text(e: RequestDecodeError) -> Seq<char> {
    match e {
        RequestDecodeError::TooShort => "request too short: need at least 4 bytes"@,
        RequestDecodeError::UnknownOp(b) => "unknown op type: "@ + decimal(b as nat),
        RequestDecodeError::Truncated(len, remain) => "request truncated: declared key prefix length "@
            + decimal(len as nat) + " but only "@ + decimal(remain) + " bytes remain"@,
    }
}

/// Decode a raw request from the binary format.
pub fn decode_request(data: &[u8]) -> (r: Result<CoprocessorRequest, String>)
    ensures
        match decode_request_spec(data@) {
            Ok(m) => r matches Ok(req) && req@ == m,
            Err(e) => r matches Err(msg) && msg@ == request_error_text(e),
        },
{
    if data.len() < 4 {
        return Err(String::from_str("request too short: need at least 4 bytes"));
    }
    let op_type = match OpType::from_byte(data[0]) {
        Some(op) => op,
        None => {
            let mut msg = String::from_str("unknown op type: ");
            push_decimal(&mut msg, data[0] as u64);
            return Err(msg);
        }
    };
    let table_prefix = data[1];
    let declared: u16 = ((data[2] as u16) << 8) | (data[3] as u16);
    let key_prefix_len = declared as usize;
    if data.len() - 4 < key_prefix_len {
        let mut msg = String::from_str("request truncated: declared key prefix length ");
        push_decimal(&mut msg, declared as u64);
        msg.append(" but only ");
        push_decimal(&mut msg, (data.len() - 4) as u64);
        msg.append(" bytes remain");
        proof {
            assert(msg@ =~= request_error_text(RequestDecodeError::Truncated(declared, (data@.len() - 4) as nat)));
        }
        return Err(msg);
    }
    let key_prefix = vstd::slice::slice_to_vec(&data[4..4 + key_prefix_len]);
    let bloom_filter = if data.len() > 4 + key_prefix_len {
        Some(vstd::slice::slice_to_vec(&data[4 + key_prefix_len..data.len()]))
    } else {
        None
    };
    let req = CoprocessorRequest { op_type, table_prefix, key_prefix, bloom_filter };
    assert(req@ == decode_request_spec(data@)->Ok_0);
    Ok(req)
}

/// Encode a request into the binary format.
pub fn encode_request(req: &CoprocessorRequest) -> (r: Vec<u8>)
    ensures
        r@ == request_bytes(req@),
{
    let mut buf: Vec<u8> = Vec::new();
    buf.push(req.op_type.to_byte());
    buf.push(req.table_prefix);
    #[verifier::truncate]
    let len = req.key_prefix.len() as u16;
    push_be16(&mut buf, len);
    buf.extend_from_slice(req.key_prefix.as_slice());
    match &req.bloom_filter {
        Some(bloom) => {
            buf.extend_from_slice(bloom.as_slice());
        }
        None => {}
    }
    assert(buf@ =~= request_bytes(req@));
    buf
}

/// Decoding an encoded request gives the request back, provided the key
/// prefix fits the 16-bit length field and a bloom filter, when present, is
/// not empty (an empty one reads back as absent).
pub proof fn lemma_request_roundtrip(r: RequestModel)
    requires
        r.key_prefix.len() <= 0xFFFF,
        r.bloom_filter matches Some(b) ==> b.len() > 0,
    ensures
        decode_request_spec(request_bytes(r)) == Ok::<RequestModel, RequestDecodeError>(r),
{
    let d = request_bytes(r);
    let n = r.key_prefix.len() as u16;
    assert(n as nat == r.key_prefix.len());
    lemma_be16_roundtrip(n);
    assert(d[2] == be16(n)[0] && d[3] == be16(n)[1]);
    assert(from_be16(d[2], d[3]) == n);
    assert(d.subrange(4, 4 + n) =~= r.key_prefix);
    match r.bloom_filter {
        Some(b) => {
            assert(d.subrange(4 + n, d.len() as int) =~= b);
        }
        None => {}
    }
}

/// Bytes that decode re-encode to exactly themselves.
pub proof fn lemma_decoded_request_reencodes(data: Seq<u8>)
    requires
        decode_request_spec(data) is Ok,
    ensures
        request_bytes(decode_request_spec(data)->Ok_0) == data,
{
    let m = decode_request_spec(data)->Ok_0;
    let len = from_be16(data[2], data[3]);
    lemma_be16_bytes(data[2], data[3]);
    assert(m.key_prefix.len() == len as nat);
    assert(m.key_prefix.len() as u16 == len);
    assert(op_code(m.op_type) == data[0]);
    assert(request_bytes(m) =~= data);
}

// ---------------------------------------------------------------------------
// Responses
// ---------------------------------------------------------------------------

/// Wire bytes of one (key, value) pair of a scan response.
pub open spec fn pair_bytes(key: Seq<u8>, value: Seq<u8>) -> Seq<u8> {
    be16(key.len() as u16) + key + be32(value.len() as u32) + value
}

/// Wire bytes of a sequence of pairs.
pub open spec fn pairs_bytes(pairs: Seq<(Seq<u8>, Seq<u8>)>) -> Seq<u8>
    decreases pairs.len(),
{
    if pairs.len() == 0 {
        Seq::empty()
    } else {
        pair_bytes(pairs[0].0, pairs[0].1) + pairs_bytes(pairs.drop_first())
    }
}

/// Wire bytes of a scan response.
pub open spec fn scan_response_bytes(scanned_keys: u64, pairs: Seq<(Seq<u8>, Seq<u8>)>) -> Seq<u8> {
    be64(scanned_keys) + be64(pairs.len() as u64) + pairs_bytes(pairs)
}

/// Encode a scan response (IndexScan / FilterScan): pairs of (key, value).
pub fn encode_scan_response(scanned_keys: u64, pairs: &[(Vec<u8>, Vec<u8>)]) -> (r: Vec<u8>)
    ensures
        r@ == scan_response_bytes(scanned_keys, pairs_view(pairs@)),
{
    let mut buf: Vec<u8> = Vec::new();
    push_be64(&mut buf, scanned_keys);
    push_be64(&mut buf, pairs.len() as u64);
    let ghost header = buf@;
    let mut i: usize = 0;
    assert(pairs_view(pairs@).skip(0) =~= pairs_view(pairs@));
    while i < pairs.len()
        invariant
            i <= pairs@.len(),
            buf@ + pairs_bytes(pairs_view(pairs@).skip(i as int))
                == header + pairs_bytes(pairs_view(pairs@)),
        decreases pairs@.len() - i,
    {
        let ghost before = buf@;
        let ghost rest = pairs_view(pairs@).skip(i as int);
        assert(rest.drop_first() =~= pairs_view(pairs@).skip(i + 1));
        let key = &pairs[i].0;
        let value = &pairs[i].1;
        #[verifier::truncate]
        let key_len = key.len() as u16;
        push_be16(&mut buf, key_len);
        buf.extend_from_slice(key.as_slice());
        #[verifier::truncate]
        let val_len = value.len() as u32;
        push_be32(&mut buf, val_len);
        buf.extend_from_slice(value.as_slice());
        proof {
            assert(rest[0] == (key@, value@));
            assert(buf@ =~= before + pair_bytes(key@, value@));
            assert(before + pairs_bytes(rest) =~= buf@ + pairs_bytes(pairs_view(pairs@).skip(i + 1)));
        }
        i = i + 1;
    }
    assert(pairs_view(pairs@).skip(i as int) =~= Seq::<(Seq<u8>, Seq<u8>)>::empty());
    assert(buf@ =~= scan_response_bytes(scanned_keys, pairs_view(pairs@)));
    buf
}

/// Encode a count response (CountScan).
pub fn encode_count_response(scanned_keys: u64, count: u64) -> (r: Vec<u8>)
    ensures
        r@ == be64(scanned_keys) + be64(count),
{
    let mut buf: Vec<u8> = Vec::new();
    push_be64(&mut buf, scanned_keys);
    push_be64(&mut buf, count);
    assert(buf@ =~= be64(scanned_keys) + be64(count));
    buf
}

/// Wire bytes of an optional key in a min/max response (absent: length 0).
pub open spec fn optional_key_bytes(k: Option<Seq<u8>>) -> Seq<u8> {
    match k {
        Some(key) => be16(key.len() as u16) + key,
        None => be16(0),
    }
}

/// Views an optional byte slice as an optional sequence.
pub open spec fn opt_slice_view(k: Option<&[u8]>) -> Option<Seq<u8>> {
    match k {
        Some(s) => Some(s@),
        None => None,
    }
}

/// Wire bytes of a min/max response: the result count is 1 when either key
/// is present and 0 otherwise.
pub open spec fn min_max_response_bytes(scanned_keys: u64, min_key: Option<Seq<u8>>, max_key: Option<Seq<u8>>) -> Seq<u8> {
    be64(scanned_keys) + be64(if min_key is Some || max_key is Some { 1 } else { 0 })
        + optional_key_bytes(min_key) + optional_key_bytes(max_key)
}

fn push_optional_key(buf: &mut Vec<u8>, k: Option<&[u8]>)
    ensures
        final(buf)@ == old(buf)@ + optional_key_bytes(opt_slice_view(k)),
{
    match k {
        Some(key) => {
            #[verifier::truncate]
            let len = key.len() as u16;
            push_be16(buf, len);
            buf.extend_from_slice(key);
            assert(buf@ =~= old(buf)@ + optional_key_bytes(opt_slice_view(k)));
        }
        None => {
            push_be16(buf, 0);
        }
    }
}

/// Encode a min/max response (MinMaxScan).
pub fn encode_min_max_response(scanned_keys: u64, min_key: Option<&[u8]>, max_key: Option<&[u8]>) -> (r: Vec<u8>)
    ensures
        r@ == min_max_response_bytes(scanned_keys, opt_slice_view(min_key), opt_slice_view(max_key)),
{
    let mut buf: Vec<u8> = Vec::new();
    push_be64(&mut buf, scanned_keys);
    let has_result: u64 = if min_key.is_some() || max_key.is_some() { 1 } else { 0 };
    push_be64(&mut buf, has_result);
    push_optional_key(&mut buf, min_key);
    push_optional_key(&mut buf, max_key);
    assert(buf@ =~= min_max_response_bytes(scanned_keys, opt_slice_view(min_key), opt_slice_view(max_key)));
    buf
}

/// Why the pairs of a scan response fail to decode.
pub enum ScanDecodeError {
    /// The response has fewer than 16 bytes.
    TooShort,
    /// A key length field is cut off.
    KeyLength,
    /// Key bytes are cut off.
    KeyData,
    /// A value length field is cut off.
    ValueLength,
    /// Value bytes are cut off.
    ValueData,
}

/// Decodes one pair from the front of `d`, with the number of bytes it takes.
#[verifier::opaque]
pub open spec fn decode_pair(d: Seq<u8>) -> Result<((Seq<u8>, Seq<u8>), nat), ScanDecodeError> {
    if d.len() < 2 {
        Err(ScanDecodeError::KeyLength)
    } else {
        let kl = from_be16(d[0], d[1]) as int;
        if d.len() < 2 + kl {
            Err(ScanDecodeError::KeyData)
        } else if d.len() < 2 + kl + 4 {
            Err(ScanDecodeError::ValueLength)
        } else {
            let vl = from_be32(d[2 + kl], d[2 + kl + 1], d[2 + kl + 2], d[2 + kl + 3]) as int;
            if d.len() < 2 + kl + 4 + vl {
                Err(ScanDecodeError::ValueData)
            } else {
                Ok(((d.subrange(2, 2 + kl), d.subrange(2 + kl + 4, 2 + kl + 4 + vl)), (2 + kl + 4 + vl) as nat))
            }
        }
    }
}

/// Decodes `count` pairs from the front of `d`; trailing bytes are ignored.
pub open spec fn decode_pairs(d: Seq<u8>, count: nat) -> Result<Seq<(Seq<u8>, Seq<u8>)>, ScanDecodeError>
    decreases count,
{
    if count == 0 {
        Ok(Seq::empty())
    } else {
        match decode_pair(d) {
            Ok((p, n)) => match decode_pairs(d.skip(n as int), (count - 1) as nat) {
                Ok(rest) => Ok(seq![p] + rest),
                Err(e) => Err(e),
            },
            Err(e) => Err(e),
        }
    }
}

/// The (scanned keys, pairs) that a scan response holds, or why not.
pub open spec fn decode_scan_response_spec(data: Seq<u8>) -> Result<(u64, Seq<(Seq<u8>, Seq<u8>)>), ScanDecodeError> {
    if data.len() < 16 {
        Err(ScanDecodeError::TooShort)
    } else {
        match decode_pairs(data.skip(16), from_be64_at(data, 8) as nat) {
            Ok(pairs) => Ok((from_be64_at(data, 0), pairs)),
            Err(e) => Err(e),
        }
    }
}

/// The error text of a scan response decode failure.
pub open spec fn scan_error_text(e: ScanDecodeError) -> Seq<char> {
    match e {
        ScanDecodeError::TooShort => "scan response too short"@,
        ScanDecodeError::KeyLength => "truncated key length"@,
        ScanDecodeError::KeyData => "truncated key data"@,
        ScanDecodeError::ValueLength => "truncated value length"@,
        ScanDecodeError::ValueData => "truncated value data"@,
    }
}

/// Plain-value view of a sequence of (key, value) byte vectors.
pub open spec fn pairs_view(s: Seq<(Vec<u8>, Vec<u8>)>) -> Seq<(Seq<u8>, Seq<u8>)> {
    s.map_values(|p: (Vec<u8>, Vec<u8>)| (p.0@, p.1@))
}

fn decode_pair_at(data: &[u8], offset: usize) -> (r: Result<(Vec<u8>, Vec<u8>, usize), String>)
    requires
        offset <= data@.len(),
    ensures
        match decode_pair(data@.skip(offset as int)) {
            Ok((p, n)) => r matches Ok((k, v, next)) && k@ == p.0 && v@ == p.1 && next == offset + n,
            Err(e) => r matches Err(msg) && msg@ == scan_error_text(e),
        },
        r matches Ok((_, _, next)) ==> next <= data@.len(),
{
    let ghost d = data@.skip(offset as int);
    reveal(decode_pair);
    if data.len() - offset < 2 {
        return Err(String::from_str("truncated key length"));
    }
    let key_len = (((data[offset] as u16) << 8) | (data[offset + 1] as u16)) as usize;
    assert(key_len == from_be16(d[0], d[1]) as nat);
    let key_start = offset + 2;
    if data.len() - key_start < key_len {
        return Err(String::from_str("truncated key data"));
    }
    let key = vstd::slice::slice_to_vec(&data[key_start..key_start + key_len]);
    assert(key@ =~= d.subrange(2, 2 + key_len));
    let len_start = key_start + key_len;
    if data.len() - len_start < 4 {
        return Err(String::from_str("truncated value length"));
    }
    let val_len = (((data[len_start] as u32) << 24) | ((data[len_start + 1] as u32) << 16)
        | ((data[len_start + 2] as u32) << 8) | (data[len_start + 3] as u32)) as usize;
    assert(val_len == from_be32(d[2 + key_len], d[2 + key_len + 1], d[2 + key_len + 2], d[2 + key_len + 3]) as nat);
    let val_start = len_start + 4;
    if data.len() - val_start < val_len {
        return Err(String::from_str("truncated value data"));
    }
    let value = vstd::slice::slice_to_vec(&data[val_start..val_start + val_len]);
    assert(value@ =~= d.subrange(2 + key_len + 4, 2 + key_len + 4 + val_len));
    Ok((key, value, val_start + val_len))
}

/// Decode a scan response back into (scanned_keys, pairs).
pub fn decode_scan_response(data: &[u8]) -> (r: Result<(u64, Vec<(Vec<u8>, Vec<u8>)>), String>)
    ensures
        match decode_scan_response_spec(data@) {
            Ok((n, pairs)) => r matches Ok((m, v)) && m == n && pairs_view(v@) == pairs,
            Err(e) => r matches Err(msg) && msg@ == scan_error_text(e),
        },
{
    if data.len() < 16 {
        return Err(String::from_str("scan response too short"));
    }
    let scanned_keys = read_be64(data, 0);
    let count = read_be64(data, 8);
    let mut offset: usize = 16;
    let mut pairs: Vec<(Vec<u8>, Vec<u8>)> = Vec::new();
    let mut i: u64 = 0;
    proof {
        match decode_pairs(data@.skip(16), count as nat) {
            Ok(rest) => {
                assert(pairs_view(pairs@) + rest =~= rest);
            }
            Err(e) => {}
        }
    }
    while i < count
        invariant
            16 <= offset <= data@.len(),
            i <= count,
            count == from_be64_at(data@, 8),
            decode_pairs(data@.skip(16), count as nat) == (match decode_pairs(data@.skip(offset as int), (count - i) as nat) {
                Ok(rest) => Ok(pairs_view(pairs@) + rest),
                Err(e) => Err(e),
            }),
        decreases count - i,
    {
        let ghost d = data@.skip(offset as int);
        let (key, value, next) = match decode_pair_at(data, offset) {
            Ok(t) => t,
            Err(e) => return Err(e),
        };
        let ghost n = (next - offset) as nat;
        assert(data@.skip(next as int) =~= d.skip(n as int));
        let ghost before = pairs_view(pairs@);
        pairs.push((key, value));
        proof {
            assert(pairs_view(pairs@) =~= before.push((key@, value@)));
            match decode_pairs(data@.skip(next as int), (count - i - 1) as nat) {
                Ok(rest) => {
                    assert(before + (seq![(key@, value@)] + rest) =~= pairs_view(pairs@) + rest);
                }
                Err(e) => {}
            }
        }
        offset = next;
        i = i + 1;
    }
    proof {
        assert(pairs_view(pairs@) + Seq::<(Seq<u8>, Seq<u8>)>::empty() =~= pairs_view(pairs@));
    }
    Ok((scanned_keys, pairs))
}

/// Decoding the bytes of one pair (followed by anything) gives it back.
pub proof fn lemma_pair_roundtrip(k: Seq<u8>, v: Seq<u8>, after: Seq<u8>)
    requires
        k.len() <= 0xFFFF,
        v.len() <= 0xFFFF_FFFF,
    ensures
        decode_pair(pair_bytes(k, v) + after)
            == Ok::<((Seq<u8>, Seq<u8>), nat), ScanDecodeError>(((k, v), (2 + k.len() + 4 + v.len()) as nat)),
{
    reveal(decode_pair);
    let kl = k.len() as u16;
    let vl = v.len() as u32;
    lemma_be16_roundtrip(kl);
    lemma_be32_roundtrip(vl);
    let d = pair_bytes(k, v) + after;
    let kn = k.len() as int;
    assert(d[0] == be16(kl)[0] && d[1] == be16(kl)[1]);
    assert(d[2 + kn] == be32(vl)[0] && d[2 + kn + 1] == be32(vl)[1]);
    assert(d[2 + kn + 2] == be32(vl)[2] && d[2 + kn + 3] == be32(vl)[3]);
    assert(d.subrange(2, 2 + kn) =~= k);
    assert(d.subrange(2 + kn + 4, 2 + kn + 4 + v.len()) =~= v);
}

/// Decoding `n + 1` pairs from the bytes of a pair followed by `after`
/// decodes that pair, then `n` pairs from `after`.
pub proof fn lemma_pairs_step(k: Seq<u8>, v: Seq<u8>, after: Seq<u8>, n: nat)
    requires
        k.len() <= 0xFFFF,
        v.len() <= 0xFFFF_FFFF,
    ensures
        decode_pairs(pair_bytes(k, v) + after, n + 1) == (match decode_pairs(after, n) {
            Ok(rest) => Ok(seq![(k, v)] + rest),
            Err(e) => Err(e),
        }),
{
    let d = pair_bytes(k, v) + after;
    lemma_pair_roundtrip(k, v, after);
    assert(d.skip(pair_bytes(k, v).len() as int) =~= after);
}

/// Decoding pair bytes (followed by anything) gives the pairs back when
/// every key fits a u16 length and every value a u32 length.
pub proof fn lemma_pairs_roundtrip(pairs: Seq<(Seq<u8>, Seq<u8>)>, tail: Seq<u8>)
    requires
        forall|i: int| 0 <= i < pairs.len() ==> #[trigger] pairs[i].0.len() <= 0xFFFF && pairs[i].1.len() <= 0xFFFF_FFFF,
    ensures
        decode_pairs(pairs_bytes(pairs) + tail, pairs.len()) == Ok::<Seq<(Seq<u8>, Seq<u8>)>, ScanDecodeError>(pairs),
    decreases pairs.len(),
{
    if pairs.len() > 0 {
        let k = pairs[0].0;
        let v = pairs[0].1;
        let rest = pairs.drop_first();
        assert forall|i: int| 0 <= i < rest.len() implies #[trigger] rest[i].0.len() <= 0xFFFF && rest[i].1.len() <= 0xFFFF_FFFF by {
            assert(rest[i] == pairs[i + 1]);
        }
        lemma_pairs_roundtrip(rest, tail);
        let after = pairs_bytes(rest) + tail;
        assert(pairs_bytes(pairs) + tail =~= pair_bytes(k, v) + after);
        lemma_pairs_step(k, v, after, rest.len());
        assert(seq![(k, v)] + rest =~= pairs);
    } else {
        assert(pairs =~= Seq::<(Seq<u8>, Seq<u8>)>::empty());
    }
}

/// Decoding an encoded scan response gives back the scanned-key count and
/// the pairs, when every key fits a u16 length and every value a u32 length.
pub proof fn lemma_scan_response_roundtrip(scanned_keys: u64, pairs: Seq<(Seq<u8>, Seq<u8>)>)
    requires
        pairs.len() <= u64::MAX,
        forall|i: int| 0 <= i < pairs.len() ==> #[trigger] pairs[i].0.len() <= 0xFFFF && pairs[i].1.len() <= 0xFFFF_FFFF,
    ensures
        decode_scan_response_spec(scan_response_bytes(scanned_keys, pairs))
            == Ok::<(u64, Seq<(Seq<u8>, Seq<u8>)>), ScanDecodeError>((scanned_keys, pairs)),
{
    let d = scan_response_bytes(scanned_keys, pairs);
    let n = pairs.len() as u64;
    lemma_be64_roundtrip(scanned_keys);
    lemma_be64_roundtrip(n);
    let h1 = be64(scanned_keys);
    let h2 = be64(n);
    assert(d =~= h1 + (h2 + pairs_bytes(pairs)));
    lemma_from_be64_prefix(h1, h2 + pairs_bytes(pairs), 0);
    assert(d =~= (h1 + h2) + pairs_bytes(pairs));
    assert(from_be64_at(d, 8) == from_be64_at(h2 + pairs_bytes(pairs), 0));
    lemma_from_be64_prefix(h2, pairs_bytes(pairs), 0);
    assert(d.skip(16) =~= pairs_bytes(pairs) + Seq::<u8>::empty());
    lemma_pairs_roundtrip(pairs, Seq::empty());
}

} // verus!
