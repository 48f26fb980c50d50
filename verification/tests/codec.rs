//! The bulk encoding checked byte for byte, round-tripped through the
//! library's own decoder, and cross-checked against an independent reader of
//! the same self-describing format.

use dmtree::codec::decode_procedure_table;
use dmtree::codec::decode_variable_table;
use dmtree::codec::encode_procedure_table;
use dmtree::codec::encode_variable_table;
use dmtree::HandleLedger;
use dmtree::Node;
use dmtree::ProcedureEntry;
use dmtree::Tree;
use dmtree::VariableEntry;
use dmtree::NO_PARENT;

fn var(name: &str, value: Option<&str>, decl: Option<&str>) -> VariableEntry {
    VariableEntry {
        name: name.as_bytes().to_vec(),
        value: value.map(|v| v.as_bytes().to_vec()),
        declaration: decl.map(|d| d.as_bytes().to_vec()),
    }
}

#[test]
fn one_entry_encodes_to_the_exact_bytes() {
    let table = vec![var("a", Some("1"), None)];
    let buf = encode_variable_table(&table);
    let expected: Vec<u8> = vec![
        0x81, // array of 1
        0xA3, // map of 3 pairs
        0x44, 0x6E, 0x61, 0x6D, 0x65, // "name"
        0x41, 0x61, // "a"
        0x45, 0x76, 0x61, 0x6C, 0x75, 0x65, // "value"
        0x41, 0x31, // "1"
        0x4B, 0x64, 0x65, 0x63, 0x6C, 0x61, 0x72, 0x61, 0x74, 0x69, 0x6F,
        0x6E, // "declaration"
        0xF6, // null
    ];
    assert_eq!(buf, expected);
}

#[test]
fn empty_table_encodes_to_an_empty_array() {
    let buf = encode_variable_table(&vec![]);
    assert_eq!(buf, vec![0x80]);
}

#[test]
fn long_fields_use_extended_length_headers() {
    let big = "x".repeat(300);
    let table = vec![var(&big, None, Some("var/x"))];
    let buf = encode_variable_table(&table);
    // the 300-byte name needs a two-byte length extension: 0x59 0x01 0x2C
    assert_eq!(buf[0], 0x81);
    assert_eq!(buf[1], 0xA3);
    assert_eq!(&buf[2..7], &[0x44, 0x6E, 0x61, 0x6D, 0x65]);
    assert_eq!(&buf[7..10], &[0x59, 0x01, 0x2C]);
    assert_eq!(&buf[10..310], big.as_bytes());
}

#[test]
fn round_trip_reproduces_the_table_in_order() {
    let table = vec![
        var("density", Some("0"), Some("var/density")),
        var("name", Some("\"obj\""), None),
        var("weight", None, Some("var/weight")),
    ];
    let buf = encode_variable_table(&table);
    let back = decode_variable_table(&buf).unwrap();
    assert_eq!(back.len(), 3);
    for (orig, dec) in table.iter().zip(back.iter()) {
        assert_eq!(orig.name, dec.name);
        assert_eq!(orig.value, dec.value);
        assert_eq!(orig.declaration, dec.declaration);
    }
}

#[test]
fn round_trip_of_an_empty_table() {
    let buf = encode_variable_table(&vec![]);
    let back = decode_variable_table(&buf).unwrap();
    assert_eq!(back.len(), 0);
}

#[test]
fn round_trip_keeps_embedded_zero_bytes() {
    let entry = VariableEntry {
        name: vec![0, 1, 2],
        value: Some(vec![255, 0, 255]),
        declaration: None,
    };
    let buf = encode_variable_table(&vec![entry]);
    let back = decode_variable_table(&buf).unwrap();
    assert_eq!(back[0].name, vec![0, 1, 2]);
    assert_eq!(back[0].value, Some(vec![255, 0, 255]));
    assert_eq!(back[0].declaration, None);
}

#[test]
fn decoder_refuses_garbage_and_trailing_bytes() {
    assert!(decode_variable_table(&vec![]).is_none());
    assert!(decode_variable_table(&vec![0xFF, 0x00]).is_none());
    let mut buf = encode_variable_table(&vec![var("a", Some("1"), None)]);
    buf.push(0);
    assert!(decode_variable_table(&buf).is_none());
    let ok = encode_variable_table(&vec![var("a", Some("1"), None)]);
    let truncated = ok[..ok.len() - 1].to_vec();
    assert!(decode_variable_table(&truncated).is_none());
}

#[test]
fn independent_reader_agrees_on_variables() {
    let table = vec![
        var("density", Some("0"), Some("var/density")),
        var("opacity", None, Some("var/opacity")),
    ];
    let buf = encode_variable_table(&table);
    let value: serde_cbor::Value = serde_cbor::from_slice(&buf).unwrap();
    let entries = match value {
        serde_cbor::Value::Array(items) => items,
        other => panic!("expected an array, got {:?}", other),
    };
    assert_eq!(entries.len(), 2);
    for (orig, item) in table.iter().zip(entries.iter()) {
        let map = match item {
            serde_cbor::Value::Map(m) => m,
            other => panic!("expected a map, got {:?}", other),
        };
        assert_eq!(map.len(), 3);
        let key = |k: &str| serde_cbor::Value::Bytes(k.as_bytes().to_vec());
        assert_eq!(map.get(&key("name")), Some(&serde_cbor::Value::Bytes(orig.name.clone())));
        let expect_opt = |o: &Option<Vec<u8>>| match o {
            Some(b) => serde_cbor::Value::Bytes(b.clone()),
            None => serde_cbor::Value::Null,
        };
        assert_eq!(map.get(&key("value")), Some(&expect_opt(&orig.value)));
        assert_eq!(map.get(&key("declaration")), Some(&expect_opt(&orig.declaration)));
    }
}

#[test]
fn independent_reader_agrees_on_procedures() {
    let table = vec![ProcedureEntry {
        name: b"attack".to_vec(),
        values: vec![b"return 0".to_vec(), b"return 1".to_vec()],
        declaration: Some(b"proc/attack".to_vec()),
    }];
    let buf = encode_procedure_table(&table);
    let value: serde_cbor::Value = serde_cbor::from_slice(&buf).unwrap();
    let entries = match value {
        serde_cbor::Value::Array(items) => items,
        other => panic!("expected an array, got {:?}", other),
    };
    assert_eq!(entries.len(), 1);
    let map = match &entries[0] {
        serde_cbor::Value::Map(m) => m,
        other => panic!("expected a map, got {:?}", other),
    };
    let key = |k: &str| serde_cbor::Value::Bytes(k.as_bytes().to_vec());
    assert_eq!(
        map.get(&key("name")),
        Some(&serde_cbor::Value::Bytes(b"attack".to_vec()))
    );
    assert_eq!(
        map.get(&key("values")),
        Some(&serde_cbor::Value::Array(vec![
            serde_cbor::Value::Bytes(b"return 0".to_vec()),
            serde_cbor::Value::Bytes(b"return 1".to_vec()),
        ]))
    );
    assert_eq!(
        map.get(&key("declaration")),
        Some(&serde_cbor::Value::Bytes(b"proc/attack".to_vec()))
    );
}

#[test]
fn bulk_encoder_matches_variable_traversal() {
    let nodes = vec![
        Node {
            path: b"".to_vec(),
            index: 0,
            parent_index: NO_PARENT,
            vars: vec![],
            procs: vec![],
        },
        Node {
            path: b"/obj".to_vec(),
            index: 1,
            parent_index: 0,
            vars: vec![var("density", Some("0"), Some("var/density")), var("name", None, Some("var/name"))],
            procs: vec![],
        },
    ];
    let tree = Tree::from_nodes(nodes).unwrap();
    let mut ledger = HandleLedger::new();
    let all = tree.for_each_node(&mut ledger);
    let obj = &all[1];
    let buf = obj.encode_variables(&mut ledger);
    let decoded = decode_variable_table(buf.bytes()).unwrap();
    let walked = obj.for_each_variable(&mut ledger);
    assert_eq!(decoded.len(), walked.len());
    for (d, w) in decoded.iter().zip(walked.iter()) {
        assert_eq!(&d.name, &w.entry().name);
        assert_eq!(&d.value, &w.entry().value);
        assert_eq!(&d.declaration, &w.entry().declaration);
    }
    for v in walked {
        dmtree::handle::var_free(&mut ledger, v);
    }
    dmtree::handle::buffer_free(&mut ledger, buf);
    for h in all {
        dmtree::handle::node_free(&mut ledger, h);
    }
    assert!(ledger.is_balanced());
}

fn proc_entry(name: &str, values: Vec<&str>, decl: Option<&str>) -> ProcedureEntry {
    ProcedureEntry {
        name: name.as_bytes().to_vec(),
        values: values.iter().map(|v| v.as_bytes().to_vec()).collect(),
        declaration: decl.map(|d| d.as_bytes().to_vec()),
    }
}

#[test]
fn procedure_round_trip_reproduces_the_table_in_order() {
    let table = vec![
        proc_entry("attack", vec!["return 0", "return 1"], Some("proc/attack")),
        proc_entry("use", vec![], Some("proc/use")),
        proc_entry("drop", vec!["return"], None),
    ];
    let buf = encode_procedure_table(&table);
    let back = decode_procedure_table(&buf).unwrap();
    assert_eq!(back.len(), 3);
    for (orig, dec) in table.iter().zip(back.iter()) {
        assert_eq!(orig.name, dec.name);
        assert_eq!(orig.values, dec.values);
        assert_eq!(orig.declaration, dec.declaration);
    }
}

#[test]
fn procedure_round_trip_of_an_empty_table() {
    let buf = encode_procedure_table(&vec![]);
    let back = decode_procedure_table(&buf).unwrap();
    assert_eq!(back.len(), 0);
}

#[test]
fn procedure_decoder_refuses_garbage_and_trailing_bytes() {
    assert!(decode_procedure_table(&vec![]).is_none());
    assert!(decode_procedure_table(&vec![0xFF, 0x00]).is_none());
    let mut buf = encode_procedure_table(&vec![proc_entry("f", vec!["x"], None)]);
    buf.push(0);
    assert!(decode_procedure_table(&buf).is_none());
    let ok = encode_procedure_table(&vec![proc_entry("f", vec!["x"], None)]);
    let truncated = ok[..ok.len() - 1].to_vec();
    assert!(decode_procedure_table(&truncated).is_none());
    // a variable table is not a procedure table: the values slot differs
    let vars = encode_variable_table(&vec![var("f", Some("x"), None)]);
    assert!(decode_procedure_table(&vars).is_none());
}

#[test]
fn bulk_encoder_matches_procedure_records() {
    let table = vec![proc_entry("examine", vec!["return desc"], Some("proc/examine"))];
    let nodes = vec![
        Node {
            path: b"".to_vec(),
            index: 0,
            parent_index: NO_PARENT,
            vars: vec![],
            procs: vec![],
        },
        Node {
            path: b"/obj".to_vec(),
            index: 1,
            parent_index: 0,
            vars: vec![],
            procs: table.clone(),
        },
    ];
    let tree = Tree::from_nodes(nodes).unwrap();
    let mut ledger = HandleLedger::new();
    let all = tree.for_each_node(&mut ledger);
    let buf = all[1].encode_procedures(&mut ledger);
    let decoded = decode_procedure_table(buf.bytes()).unwrap();
    assert_eq!(decoded.len(), 1);
    assert_eq!(decoded[0].name, table[0].name);
    assert_eq!(decoded[0].values, table[0].values);
    assert_eq!(decoded[0].declaration, table[0].declaration);
    dmtree::handle::buffer_free(&mut ledger, buf);
    for h in all {
        dmtree::handle::node_free(&mut ledger, h);
    }
    assert!(ledger.is_balanced());
}
