use bft_crdts::serialize::Serialize;
use bft_crdts::trace::{TestData, TestPatch, TestTxn};

#[test]
fn signed_encodings() {
    assert_eq!((-2i64).to_bytes(), vec![0xfeu8, 0xff, 0xff, 0xff, 0xff, 0xff, 0xff, 0xff]);
    assert_eq!(258i64.to_bytes(), vec![2u8, 1, 0, 0, 0, 0, 0, 0]);
    assert_eq!((-2i32).to_bytes(), vec![0xfeu8, 0xff, 0xff, 0xff]);
    assert_eq!(258i32.to_bytes(), vec![2u8, 1, 0, 0]);
    assert_eq!((-2i16).to_bytes(), vec![0xfeu8, 0xff]);
    assert_eq!(258i16.to_bytes(), vec![2u8, 1]);
    assert_eq!((-2i8).to_bytes(), vec![0xfeu8]);
    assert_eq!(7i8.to_bytes(), vec![7u8]);
}

fn txn(patches: Vec<TestPatch>) -> TestTxn {
    TestTxn { patches, agent: None, num_children: None, parents: None }
}

#[test]
fn trace_len_and_patches() {
    let data = TestData {
        using_byte_positions: false,
        start_content: None,
        end_content: "ab".to_string(),
        num_agents: Some(1),
        txns: vec![
            txn(vec![TestPatch(0, 0, "a".to_string())]),
            txn(vec![]),
            txn(vec![
                TestPatch(1, 0, "b".to_string()),
                TestPatch(0, 1, "".to_string()),
            ]),
        ],
    };
    assert_eq!(data.len(), 3);
    assert!(!data.is_empty());
    let flat = data.patches();
    assert_eq!(flat.len(), 3);
    assert_eq!(flat[0].2, "a".to_string());
    assert_eq!(flat[1].0, 1);
    assert_eq!(flat[2].1, 1);

    let empty = TestData {
        using_byte_positions: false,
        start_content: None,
        end_content: String::new(),
        num_agents: None,
        txns: vec![txn(vec![]), txn(vec![])],
    };
    assert_eq!(empty.len(), 0);
    assert!(empty.is_empty());
}
