use oxigraph_cloud::backend::StorageError;
use oxigraph_cloud::term::{
    TABLE_DOSP, TABLE_DPOS, TABLE_DSPO, TABLE_GOSP, TABLE_GPOS, TABLE_GRAPHS, TABLE_GSPO,
    TABLE_OSPG, TABLE_POSG, TABLE_SPOG,
};
use oxigraph_cloud::tikv::{ScanCursor, TiKvConfig};
use oxigraph_cloud::tikv_layout::{
    check_index_counts, check_storage_version, cleared_tables, pattern_scans, quad_index_keys, quad_presence_key,
    ClearScope, EncodedQuad, GraphKey, IndexCounts, IndexScan, VersionCheck,
};

/// The encoding of a named node: type byte 1 and a 16-byte hash.
fn node(n: u8) -> Vec<u8> {
    let mut v = vec![1u8];
    v.extend(std::iter::repeat(n).take(16));
    v
}

fn key(table: u8, parts: &[&[u8]]) -> Vec<u8> {
    let mut k = vec![table];
    for p in parts {
        k.extend_from_slice(p);
    }
    k
}

fn quad(s: u8, p: u8, o: u8, g: Option<u8>) -> EncodedQuad {
    EncodedQuad {
        subject: node(s),
        predicate: node(p),
        object: node(o),
        graph_name: match g {
            Some(g) => GraphKey::Named(node(g)),
            None => GraphKey::DefaultGraph,
        },
    }
}

fn starts(scan: &IndexScan) -> (u8, Vec<u8>) {
    (scan.table, scan.cursor.start.clone())
}

#[test]
fn default_graph_quad_keys() {
    let (s, p, o) = (node(1), node(2), node(3));
    let keys = quad_index_keys(&quad(1, 2, 3, None));
    assert_eq!(
        keys,
        vec![
            key(TABLE_DSPO, &[&s, &p, &o]),
            key(TABLE_DPOS, &[&p, &o, &s]),
            key(TABLE_DOSP, &[&o, &s, &p]),
        ]
    );
}

#[test]
fn named_graph_quad_keys() {
    let (s, p, o, g) = (node(1), node(2), node(3), node(4));
    let keys = quad_index_keys(&quad(1, 2, 3, Some(4)));
    assert_eq!(
        keys,
        vec![
            key(TABLE_SPOG, &[&s, &p, &o, &g]),
            key(TABLE_POSG, &[&p, &o, &s, &g]),
            key(TABLE_OSPG, &[&o, &s, &p, &g]),
            key(TABLE_GSPO, &[&g, &s, &p, &o]),
            key(TABLE_GPOS, &[&g, &p, &o, &s]),
            key(TABLE_GOSP, &[&g, &o, &s, &p]),
        ]
    );
}

#[test]
fn scans_for_patterns_on_any_graph() {
    let (s, p, o) = (node(1), node(2), node(3));
    let all = pattern_scans(None, None, None, None, 512);
    assert_eq!(all.iter().map(starts).collect::<Vec<_>>(), vec![(TABLE_DSPO, vec![TABLE_DSPO]), (TABLE_GSPO, vec![TABLE_GSPO])]);
    let by_subject = pattern_scans(Some(&s), None, None, None, 512);
    assert_eq!(
        by_subject.iter().map(starts).collect::<Vec<_>>(),
        vec![(TABLE_DSPO, key(TABLE_DSPO, &[&s])), (TABLE_SPOG, key(TABLE_SPOG, &[&s]))]
    );
    let subject_object = pattern_scans(Some(&s), None, Some(&o), None, 512);
    assert_eq!(
        subject_object.iter().map(starts).collect::<Vec<_>>(),
        vec![(TABLE_DOSP, key(TABLE_DOSP, &[&o, &s])), (TABLE_OSPG, key(TABLE_OSPG, &[&o, &s]))]
    );
    let predicate_object = pattern_scans(None, Some(&p), Some(&o), None, 512);
    assert_eq!(
        predicate_object.iter().map(starts).collect::<Vec<_>>(),
        vec![(TABLE_DPOS, key(TABLE_DPOS, &[&p, &o])), (TABLE_POSG, key(TABLE_POSG, &[&p, &o]))]
    );
    let object = pattern_scans(None, None, Some(&o), None, 512);
    assert_eq!(
        object.iter().map(starts).collect::<Vec<_>>(),
        vec![(TABLE_DOSP, key(TABLE_DOSP, &[&o])), (TABLE_OSPG, key(TABLE_OSPG, &[&o]))]
    );
    for scan in &all {
        assert_eq!(scan.cursor.batch_size, 512);
        assert!(!scan.cursor.exhausted);
    }
    assert_eq!(all[0].cursor.upper, Some(vec![TABLE_DSPO + 1]));
}

#[test]
fn scans_for_patterns_on_one_graph() {
    let (s, p, o, g) = (node(1), node(2), node(3), node(4));
    let default = pattern_scans(Some(&s), Some(&p), None, Some(&GraphKey::DefaultGraph), 10);
    assert_eq!(default.iter().map(starts).collect::<Vec<_>>(), vec![(TABLE_DSPO, key(TABLE_DSPO, &[&s, &p]))]);
    let named = GraphKey::Named(g.clone());
    let spog = pattern_scans(Some(&s), Some(&p), Some(&o), Some(&named), 10);
    assert_eq!(spog.iter().map(starts).collect::<Vec<_>>(), vec![(TABLE_GSPO, key(TABLE_GSPO, &[&g, &s, &p, &o]))]);
    let so = pattern_scans(Some(&s), None, Some(&o), Some(&named), 10);
    assert_eq!(so.iter().map(starts).collect::<Vec<_>>(), vec![(TABLE_GOSP, key(TABLE_GOSP, &[&g, &o, &s]))]);
    let pred = pattern_scans(None, Some(&p), None, Some(&named), 10);
    assert_eq!(pred.iter().map(starts).collect::<Vec<_>>(), vec![(TABLE_GPOS, key(TABLE_GPOS, &[&g, &p]))]);
    let graph_only = pattern_scans(None, None, None, Some(&named), 10);
    assert_eq!(graph_only.iter().map(starts).collect::<Vec<_>>(), vec![(TABLE_GSPO, key(TABLE_GSPO, &[&g]))]);
    let default_all = pattern_scans(None, None, None, Some(&GraphKey::DefaultGraph), 10);
    assert_eq!(default_all.iter().map(starts).collect::<Vec<_>>(), vec![(TABLE_DSPO, vec![TABLE_DSPO])]);
}

/// Scanning the keys of several quads with the scans of a pattern finds
/// each matching quad exactly once and no other.
#[test]
fn pattern_scans_find_matching_quads_once() {
    let quads = vec![
        quad(1, 2, 3, None),
        quad(1, 2, 5, Some(9)),
        quad(1, 7, 3, Some(9)),
        quad(6, 2, 3, None),
        quad(1, 2, 3, Some(8)),
    ];
    let keys: Vec<(usize, Vec<u8>)> =
        quads.iter().enumerate().flat_map(|(i, q)| quad_index_keys(q).into_iter().map(move |k| (i, k))).collect();
    let found = |scans: Vec<IndexScan>| -> Vec<usize> {
        let mut hits: Vec<usize> = Vec::new();
        for scan in &scans {
            for (i, k) in &keys {
                if k.starts_with(&scan.cursor.start) {
                    hits.push(*i);
                }
            }
        }
        hits.sort();
        hits
    };
    let (s1, p2, o3, g9) = (node(1), node(2), node(3), node(9));
    assert_eq!(found(pattern_scans(Some(&s1), Some(&p2), None, None, 100)), vec![0, 1, 4]);
    assert_eq!(found(pattern_scans(Some(&s1), None, Some(&o3), None, 100)), vec![0, 2, 4]);
    assert_eq!(found(pattern_scans(None, None, Some(&o3), Some(&GraphKey::Named(g9.clone())), 100)), vec![2]);
    assert_eq!(found(pattern_scans(None, Some(&p2), None, Some(&GraphKey::DefaultGraph), 100)), vec![0, 3]);
    assert_eq!(found(pattern_scans(None, None, None, None, 100)), vec![0, 1, 2, 3, 4]);
    assert_eq!(found(pattern_scans(None, None, None, Some(&GraphKey::Named(g9)), 100)), vec![1, 2]);
}

fn counts(d: usize, n: usize) -> IndexCounts {
    IndexCounts { dspo: d, dpos: d, dosp: d, gspo: n, gpos: n, gosp: n, spog: n, posg: n, ospg: n }
}

#[test]
fn index_count_check() {
    assert!(check_index_counts(&counts(3, 5)).is_ok());
    let mut c = counts(3, 5);
    c.dosp = 2;
    match check_index_counts(&c) {
        Err(StorageError::Corruption(m)) => assert_eq!(m, "Not the same number of triples in dspo, dpos and dosp"),
        other => panic!("unexpected {other:?}"),
    }
    let mut c = counts(3, 5);
    c.ospg = 4;
    match check_index_counts(&c) {
        Err(StorageError::Corruption(m)) => assert_eq!(m, "Not the same number of quads across named graph indexes"),
        other => panic!("unexpected {other:?}"),
    }
}

#[test]
fn storage_version_decisions() {
    match check_storage_version(None) {
        VersionCheck::Initialize(b) => assert_eq!(b, 1u64.to_be_bytes().to_vec()),
        other => panic!("unexpected {other:?}"),
    }
    assert!(matches!(check_storage_version(Some(&1u64.to_be_bytes())), VersionCheck::Accept));
    match check_storage_version(Some(&258u64.to_be_bytes())) {
        VersionCheck::Reject(m) => assert_eq!(m, "Unsupported TiKV storage version 258, expected 1"),
        other => panic!("unexpected {other:?}"),
    }
    assert!(matches!(check_storage_version(Some(&[7u8, 7u8, 7u8])), VersionCheck::Accept));
}

#[test]
fn tables_cleared_by_each_scope() {
    assert_eq!(cleared_tables(ClearScope::DefaultGraph), vec![TABLE_DSPO, TABLE_DPOS, TABLE_DOSP]);
    assert_eq!(
        cleared_tables(ClearScope::AllNamedGraphs),
        vec![TABLE_GSPO, TABLE_GPOS, TABLE_GOSP, TABLE_SPOG, TABLE_POSG, TABLE_OSPG]
    );
    assert_eq!(
        cleared_tables(ClearScope::RemoveAllNamedGraphs),
        vec![TABLE_GSPO, TABLE_GPOS, TABLE_GOSP, TABLE_SPOG, TABLE_POSG, TABLE_OSPG, TABLE_GRAPHS]
    );
    assert_eq!(cleared_tables(ClearScope::All).len(), 10);
}

#[test]
fn presence_keys() {
    let (s, p, o, g) = (node(1), node(2), node(3), node(4));
    assert_eq!(quad_presence_key(&quad(1, 2, 3, None)), key(TABLE_DSPO, &[&s, &p, &o]));
    assert_eq!(quad_presence_key(&quad(1, 2, 3, Some(4))), key(TABLE_GSPO, &[&g, &s, &p, &o]));
}

#[test]
fn scan_cursor_pages_through_a_prefix() {
    let config = TiKvConfig::new(vec!["127.0.0.1:2379".to_owned()]).with_scan_batch_size(2);
    assert_eq!(config.scan_batch_size, 2);
    let mut cursor = ScanCursor::new(&[TABLE_DSPO, 1], config.scan_batch_size);
    assert_eq!(cursor.start, vec![TABLE_DSPO, 1]);
    assert_eq!(cursor.upper, Some(vec![TABLE_DSPO, 2]));
    cursor.advance(&[vec![TABLE_DSPO, 1, 5], vec![TABLE_DSPO, 1, 7]]);
    assert!(!cursor.exhausted);
    assert_eq!(cursor.start, vec![TABLE_DSPO, 1, 7, 0]);
    cursor.advance(&[vec![TABLE_DSPO, 1, 9]]);
    assert!(cursor.exhausted);
    assert_eq!(cursor.start, vec![TABLE_DSPO, 1, 9, 0]);
    assert_eq!(ScanCursor::new(&[0xFF, 0xFF], 4).upper, None);
}
