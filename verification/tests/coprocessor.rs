use oxigraph_cloud::bloom::BloomFilter;
use oxigraph_cloud::plugin::{
    execute_count, execute_index_scan, execute_min_max, respond, CoprocessorPlugin, IndexScanParams,
    KvPair, OxigraphCoprocessorPlugin, PluginError, PluginResult, RawStorage,
};
use std::cell::RefCell;
use std::ops::Range;
use oxigraph_cloud::protocol::{
    decode_request, decode_scan_response, encode_count_response, encode_min_max_response,
    encode_request, encode_scan_response, CoprocessorRequest, OpType,
};
use oxigraph_cloud::term::{
    encoded_term_len, extract_concat_term_bytes, extract_term_bytes, TABLE_DEFAULT, TABLE_DOSP,
    TABLE_DPOS, TABLE_DSPO, TABLE_GOSP, TABLE_GPOS, TABLE_GRAPHS, TABLE_GSPO, TABLE_ID2STR,
    TABLE_OSPG, TABLE_POSG, TABLE_SPOG,
};

/// Sizes a filter for `n` expected elements at false-positive rate `fp`
/// (the floating-point sizing rule of the plugin's callers).
fn sized_filter(n: usize, fp: f64) -> BloomFilter {
    let num_bits = (-(n as f64 * fp.ln()) / (2.0_f64.ln().powi(2))).ceil() as usize;
    let num_hashes = ((num_bits as f64 / n as f64) * 2.0_f64.ln())
        .ceil()
        .clamp(1.0, 16.0) as u8;
    BloomFilter::with_size(num_bits, num_hashes)
}

#[test]
fn test_bloom_insert_and_check() {
    let mut bf = sized_filter(100, 0.01);
    bf.insert(b"hello");
    bf.insert(b"world");
    assert!(bf.may_contain(b"hello"));
    assert!(bf.may_contain(b"world"));
    assert!(!bf.may_contain(b"unknown"));
}

#[test]
fn test_bloom_roundtrip() {
    let mut bf = sized_filter(50, 0.01);
    bf.insert(b"key1");
    let bytes = bf.to_bytes().to_vec();
    let bf2 = BloomFilter::from_bytes(bytes, bf.num_hashes());
    assert!(bf2.may_contain(b"key1"));
}

#[test]
fn test_bloom_fp_rate() {
    let n = 1000;
    let mut bf = sized_filter(n, 0.01);
    for i in 0..n {
        bf.insert(format!("key-{i}").as_bytes());
    }
    let mut fps = 0;
    for i in n..n + 10000 {
        if bf.may_contain(format!("other-{i}").as_bytes()) {
            fps += 1;
        }
    }
    assert!((f64::from(fps) / 10000.0) < 0.03);
}

#[test]
fn bloom_sizing_values() {
    let bf = sized_filter(50, 0.01);
    assert_eq!(bf.to_bytes().len(), 60);
    assert_eq!(bf.num_hashes(), 7);
    let bf = BloomFilter::with_size(9, 3);
    assert_eq!(bf.to_bytes(), &[0, 0][..]);
}

#[test]
fn bloom_insert_sets_bits() {
    let mut bf = BloomFilter::with_size(64, 4);
    assert!(bf.to_bytes().iter().all(|b| *b == 0));
    bf.insert(b"abc");
    assert!(bf.to_bytes().iter().any(|b| *b != 0));
    let ones: u32 = bf.to_bytes().iter().map(|b| b.count_ones()).sum();
    assert!(ones >= 1 && ones <= 4);
    assert!(bf.may_contain(b"abc"));
}

#[test]
fn bloom_zero_hashes_contains_everything() {
    let bf = BloomFilter::from_bytes(vec![], 0);
    assert!(bf.may_contain(b"anything"));
}

#[test]
fn term_len_named_node() {
    let mut data = vec![1u8];
    data.extend_from_slice(&[0u8; 16]);
    assert_eq!(encoded_term_len(&data), Ok(17));
}

#[test]
fn term_len_boolean() {
    assert_eq!(encoded_term_len(&[28]), Ok(1));
    assert_eq!(encoded_term_len(&[29]), Ok(1));
}

#[test]
fn term_len_integer() {
    let mut data = vec![32u8];
    data.extend_from_slice(&[0u8; 8]);
    assert_eq!(encoded_term_len(&data), Ok(9));
}

#[test]
fn term_len_unknown_type_byte() {
    assert_eq!(encoded_term_len(&[255]), Err("unknown term type byte"));
}

#[test]
fn term_len_empty() {
    assert_eq!(encoded_term_len(&[]), Err("empty term data"));
}

#[test]
fn term_len_every_fixed_tag() {
    let expected: &[(u8, usize)] = &[
        (1, 17), (8, 17), (9, 17), (10, 17), (16, 17), (17, 17),
        (20, 33), (21, 33), (22, 33), (23, 33), (24, 33), (25, 33),
        (28, 1), (29, 1), (30, 5), (31, 9), (32, 9), (33, 17),
        (34, 19), (41, 19), (42, 25), (43, 9), (44, 17), (56, 33), (63, 33),
    ];
    for (tag, len) in expected {
        assert_eq!(encoded_term_len(&[*tag]), Ok(*len), "tag {tag}");
    }
    for tag in [0u8, 2, 7, 11, 15, 18, 19, 26, 27, 45, 47, 50, 55, 64, 200] {
        assert_eq!(encoded_term_len(&[tag]), Err("unknown term type byte"), "tag {tag}");
    }
}

#[test]
fn term_len_triple() {
    // triple of boolean, boolean, integer
    let mut data = vec![48u8, 28, 29, 32];
    data.extend_from_slice(&[0u8; 8]);
    assert_eq!(encoded_term_len(&data), Ok(12));
    // the last nested term may extend past the data
    assert_eq!(encoded_term_len(&[49, 28, 28, 1]), Ok(20));
    // a nested term that is missing
    assert_eq!(encoded_term_len(&[48, 28, 28]), Err("empty term data"));
    assert_eq!(encoded_term_len(&[48, 28, 99]), Err("unknown term type byte"));
}

#[test]
fn extract_term_at_position() {
    let mut key = Vec::new();
    key.push(1);
    key.extend_from_slice(&[0xAA; 16]);
    key.push(28);
    key.push(32);
    key.extend_from_slice(&[0xBB; 8]);

    let term0 = extract_term_bytes(&key, 0).expect("term 0");
    assert_eq!(term0.len(), 17);
    assert_eq!(term0[0], 1);

    let term1 = extract_term_bytes(&key, 1).expect("term 1");
    assert_eq!(term1, &[28]);

    let term2 = extract_term_bytes(&key, 2).expect("term 2");
    assert_eq!(term2.len(), 9);
    assert_eq!(term2[0], 32);
}

#[test]
fn extract_term_out_of_bounds() {
    let key = vec![28u8];
    assert!(extract_term_bytes(&key, 1).is_err());
}

#[test]
fn extract_term_errors() {
    assert_eq!(
        extract_term_bytes(&[28], 1),
        Err("key too short for requested term position")
    );
    assert_eq!(extract_term_bytes(&[], 0), Err("key too short for requested term position"));
    assert_eq!(extract_term_bytes(&[28, 7], 1), Err("unknown term type byte"));
}

#[test]
fn extract_concat_terms() {
    let mut key = Vec::new();
    key.push(28);
    key.push(29);
    key.push(1);
    key.extend_from_slice(&[0xCC; 16]);

    let concat = extract_concat_term_bytes(&key, &[0, 2]).expect("concat");
    assert_eq!(concat.len(), 18);
    assert_eq!(concat[0], 28);
    assert_eq!(concat[1], 1);
}

#[test]
fn extract_concat_order_and_errors() {
    let key = vec![28u8, 29];
    assert_eq!(extract_concat_term_bytes(&key, &[1, 0]), Ok(vec![29, 28]));
    assert_eq!(extract_concat_term_bytes(&key, &[]), Ok(vec![]));
    assert_eq!(
        extract_concat_term_bytes(&key, &[0, 5]),
        Err("key too short for requested term position")
    );
}

#[test]
fn table_constants_match_tikv_rs() {
    assert_eq!(TABLE_DEFAULT, 0x00);
    assert_eq!(TABLE_ID2STR, 0x01);
    assert_eq!(TABLE_SPOG, 0x02);
    assert_eq!(TABLE_POSG, 0x03);
    assert_eq!(TABLE_OSPG, 0x04);
    assert_eq!(TABLE_GSPO, 0x05);
    assert_eq!(TABLE_GPOS, 0x06);
    assert_eq!(TABLE_GOSP, 0x07);
    assert_eq!(TABLE_DSPO, 0x08);
    assert_eq!(TABLE_DPOS, 0x09);
    assert_eq!(TABLE_DOSP, 0x0A);
    assert_eq!(TABLE_GRAPHS, 0x0B);
}

#[test]
fn request_roundtrip() {
    let req = CoprocessorRequest {
        op_type: OpType::IndexScan,
        table_prefix: 0x02,
        key_prefix: vec![0xAA, 0xBB],
        bloom_filter: Some(vec![0xFF, 0x01]),
    };
    let encoded = encode_request(&req);
    let decoded = decode_request(&encoded).unwrap();
    assert_eq!(decoded.op_type, OpType::IndexScan);
    assert_eq!(decoded.table_prefix, 0x02);
    assert_eq!(decoded.key_prefix, vec![0xAA, 0xBB]);
    assert_eq!(decoded.bloom_filter, Some(vec![0xFF, 0x01]));
}

#[test]
fn request_no_bloom() {
    let req = CoprocessorRequest {
        op_type: OpType::CountScan,
        table_prefix: 0x05,
        key_prefix: vec![],
        bloom_filter: None,
    };
    let encoded = encode_request(&req);
    let decoded = decode_request(&encoded).unwrap();
    assert_eq!(decoded.op_type, OpType::CountScan);
    assert!(decoded.bloom_filter.is_none());
}

#[test]
fn request_exact_bytes() {
    let req = CoprocessorRequest {
        op_type: OpType::MinMaxScan,
        table_prefix: 0x08,
        key_prefix: vec![1, 2, 3],
        bloom_filter: Some(vec![9]),
    };
    assert_eq!(encode_request(&req), vec![3, 8, 0, 3, 1, 2, 3, 9]);
    let long = CoprocessorRequest {
        op_type: OpType::FilterScan,
        table_prefix: 0,
        key_prefix: vec![7; 300],
        bloom_filter: None,
    };
    let bytes = encode_request(&long);
    assert_eq!(&bytes[..4], &[1, 0, 1, 44]);
    assert_eq!(bytes.len(), 304);
}

#[test]
fn scan_response_roundtrip() {
    let pairs = vec![
        (vec![0x02, 0x01], b"val1".to_vec()),
        (vec![0x02, 0x02], b"val2".to_vec()),
    ];
    let encoded = encode_scan_response(42, &pairs);
    let (scanned, decoded_pairs) = decode_scan_response(&encoded).unwrap();
    assert_eq!(scanned, 42);
    assert_eq!(decoded_pairs, pairs);
}

#[test]
fn count_response_encoding() {
    let encoded = encode_count_response(100, 50);
    assert_eq!(encoded.len(), 16);
    let scanned = u64::from_be_bytes(encoded[0..8].try_into().unwrap());
    let count = u64::from_be_bytes(encoded[8..16].try_into().unwrap());
    assert_eq!(scanned, 100);
    assert_eq!(count, 50);
}

#[test]
fn min_max_response_encoding() {
    let encoded = encode_min_max_response(10, Some(&[0x02, 0x01]), Some(&[0x02, 0xFF]));
    assert_eq!(encoded.len(), 24);
    let scanned = u64::from_be_bytes(encoded[0..8].try_into().unwrap());
    assert_eq!(scanned, 10);
}

#[test]
fn min_max_response_absent_keys() {
    let encoded = encode_min_max_response(3, None, None);
    assert_eq!(encoded, vec![0, 0, 0, 0, 0, 0, 0, 3, 0, 0, 0, 0, 0, 0, 0, 0, 0, 0, 0, 0]);
    let encoded = encode_min_max_response(0, Some(&[5]), None);
    assert_eq!(&encoded[8..], &[0, 0, 0, 0, 0, 0, 0, 1, 0, 1, 5, 0, 0]);
}

#[test]
fn decode_request_too_short() {
    assert!(decode_request(&[0, 1, 2]).is_err());
}

#[test]
fn decode_request_bad_op() {
    assert!(decode_request(&[99, 0, 0, 0]).is_err());
}

#[test]
fn decode_request_error_messages() {
    assert_eq!(
        decode_request(&[0, 1, 2]).unwrap_err(),
        "request too short: need at least 4 bytes"
    );
    assert_eq!(decode_request(&[99, 0, 0, 0]).unwrap_err(), "unknown op type: 99");
    assert_eq!(
        decode_request(&[0, 2, 0, 5, 1, 2]).unwrap_err(),
        "request truncated: declared key prefix length 5 but only 2 bytes remain"
    );
}

#[test]
fn decode_scan_response_errors() {
    assert_eq!(decode_scan_response(&[0; 15]).unwrap_err(), "scan response too short");
    let mut data = vec![0u8; 15];
    data.push(1);
    assert_eq!(decode_scan_response(&data).unwrap_err(), "truncated key length");
    data.extend_from_slice(&[0, 2, 7]);
    assert_eq!(decode_scan_response(&data).unwrap_err(), "truncated key data");
    data.push(8);
    assert_eq!(decode_scan_response(&data).unwrap_err(), "truncated value length");
    data.extend_from_slice(&[0, 0, 0, 1]);
    assert_eq!(decode_scan_response(&data).unwrap_err(), "truncated value data");
    data.push(9);
    assert_eq!(decode_scan_response(&data).unwrap(), (0, vec![(vec![7, 8], vec![9])]));
}

fn region() -> Vec<(Vec<u8>, Vec<u8>)> {
    vec![
        (vec![0x02, 1, 5], b"a".to_vec()),
        (vec![0x02, 1, 3], b"b".to_vec()),
        (vec![0x03, 1, 1], b"c".to_vec()),
        (vec![0x02, 2, 0], b"d".to_vec()),
        (vec![0x02, 1, 9], b"e".to_vec()),
    ]
}

#[test]
fn index_scan_filters_by_prefix() {
    let params = IndexScanParams { table_prefix: 0x02, key_prefix: vec![1], limit: 0 };
    let r = execute_index_scan(&params, &region());
    assert_eq!(r.scanned_keys, 5);
    assert_eq!(
        r.pairs,
        vec![
            (vec![0x02, 1, 5], b"a".to_vec()),
            (vec![0x02, 1, 3], b"b".to_vec()),
            (vec![0x02, 1, 9], b"e".to_vec()),
        ]
    );
    let limited = IndexScanParams { table_prefix: 0x02, key_prefix: vec![1], limit: 2 };
    let r = execute_index_scan(&limited, &region());
    assert_eq!(r.scanned_keys, 2);
    assert_eq!(r.pairs.len(), 2);
}

#[test]
fn count_and_min_max() {
    let c = execute_count(0x02, &[1], &region());
    assert_eq!((c.scanned_keys, c.count), (5, 3));
    let m = execute_min_max(0x02, &[], &region());
    assert_eq!(m.scanned_keys, 5);
    assert_eq!(m.min_key, Some(vec![0x02, 1, 3]));
    assert_eq!(m.max_key, Some(vec![0x02, 2, 0]));
    let none = execute_min_max(0x07, &[], &region());
    assert_eq!(none.min_key, None);
    assert_eq!(none.max_key, None);
}

#[test]
fn respond_dispatches_operations() {
    let count_req = encode_request(&CoprocessorRequest {
        op_type: OpType::CountScan,
        table_prefix: 0x02,
        key_prefix: vec![],
        bloom_filter: None,
    });
    let resp = respond(&count_req, &region()).unwrap();
    assert_eq!(resp, encode_count_response(5, 4));

    let scan_req = encode_request(&CoprocessorRequest {
        op_type: OpType::IndexScan,
        table_prefix: 0x03,
        key_prefix: vec![],
        bloom_filter: None,
    });
    let resp = respond(&scan_req, &region()).unwrap();
    let (scanned, pairs) = decode_scan_response(&resp).unwrap();
    assert_eq!(scanned, 5);
    assert_eq!(pairs, vec![(vec![0x03, 1, 1], b"c".to_vec())]);

    match respond(&[9, 0, 0, 0], &region()) {
        Err(PluginError::Other(msg)) => {
            assert_eq!(msg, "failed to decode request: unknown op type: 9")
        }
        _ => panic!("expected a decode failure"),
    }
}

/// A Region held in memory that records the ranges it is asked to scan.
struct RecordingStorage {
    pairs: Vec<KvPair>,
    fail_from: Option<Vec<u8>>,
    scans: RefCell<Vec<Range<Vec<u8>>>>,
}

impl RawStorage for RecordingStorage {
    // What the Region holds, as the verifier reads it; never run.
    fn scanned(&self, _: vstd::seq::Seq<u8>, _: vstd::seq::Seq<u8>) -> vstd::seq::Seq<(vstd::seq::Seq<u8>, vstd::seq::Seq<u8>)> {
        unreachable!("a specification function is never run")
    }
    fn scan_fails(&self, _: vstd::seq::Seq<u8>, _: vstd::seq::Seq<u8>) -> bool {
        unreachable!("a specification function is never run")
    }
    fn scan_error(&self, _: vstd::seq::Seq<u8>, _: vstd::seq::Seq<u8>) -> PluginError {
        unreachable!("a specification function is never run")
    }
    fn get(&self, _key: Vec<u8>) -> PluginResult<Option<Vec<u8>>> {
        panic!("get is not used")
    }
    fn batch_get(&self, _keys: Vec<Vec<u8>>) -> PluginResult<Vec<KvPair>> {
        panic!("batch_get is not used")
    }
    fn scan(&self, key_range: Range<Vec<u8>>) -> PluginResult<Vec<KvPair>> {
        self.scans.borrow_mut().push(key_range.clone());
        if let Some(f) = &self.fail_from {
            if key_range.start >= *f {
                return Err(PluginError::Other("region moved".to_owned()));
            }
        }
        Ok(self.pairs.iter().filter(|(k, _)| *k >= key_range.start && *k < key_range.end).cloned().collect())
    }
    fn put(&self, _key: Vec<u8>, _value: Vec<u8>) -> PluginResult<()> {
        panic!("put is not used")
    }
    fn batch_put(&self, _kv_pairs: Vec<KvPair>) -> PluginResult<()> {
        panic!("batch_put is not used")
    }
    fn delete(&self, _key: Vec<u8>) -> PluginResult<()> {
        panic!("delete is not used")
    }
    fn batch_delete(&self, _keys: Vec<Vec<u8>>) -> PluginResult<()> {
        panic!("batch_delete is not used")
    }
    fn delete_range(&self, _key_range: Range<Vec<u8>>) -> PluginResult<()> {
        panic!("delete_range is not used")
    }
}

fn count_request() -> Vec<u8> {
    encode_request(&CoprocessorRequest { op_type: OpType::CountScan, table_prefix: 2, key_prefix: vec![], bloom_filter: None })
}

#[test]
fn plugin_scans_every_range_in_order_and_answers() {
    let storage = RecordingStorage {
        pairs: vec![(vec![1, 0], vec![]), (vec![2, 1], vec![]), (vec![2, 2], vec![]), (vec![3, 0], vec![])],
        fail_from: None,
        scans: RefCell::new(Vec::new()),
    };
    let ranges = vec![vec![2]..vec![3], vec![1]..vec![2]];
    let answer = OxigraphCoprocessorPlugin.on_raw_coprocessor_request(ranges.clone(), count_request(), &storage).unwrap();
    assert_eq!(*storage.scans.borrow(), ranges);
    assert_eq!(answer, encode_count_response(3, 2));
    let none = OxigraphCoprocessorPlugin.on_raw_coprocessor_request(vec![], count_request(), &storage).unwrap();
    assert_eq!(none, encode_count_response(0, 0));
}

#[test]
fn plugin_returns_the_first_scan_error() {
    let storage = RecordingStorage {
        pairs: vec![(vec![1, 0], vec![])],
        fail_from: Some(vec![5]),
        scans: RefCell::new(Vec::new()),
    };
    let ranges = vec![vec![1]..vec![2], vec![5]..vec![6], vec![7]..vec![8]];
    match OxigraphCoprocessorPlugin.on_raw_coprocessor_request(ranges.clone(), count_request(), &storage) {
        Err(PluginError::Other(m)) => assert_eq!(m, "region moved"),
        other => panic!("unexpected {other:?}"),
    }
    assert_eq!(*storage.scans.borrow(), ranges[..2].to_vec());
    match OxigraphCoprocessorPlugin.on_raw_coprocessor_request(ranges, vec![0xFF], &storage) {
        Err(PluginError::Other(m)) => assert!(m.starts_with("failed to decode request: ")),
        other => panic!("unexpected {other:?}"),
    }
    assert_eq!(storage.scans.borrow().len(), 2);
}
