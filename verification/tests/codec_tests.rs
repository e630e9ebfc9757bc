use eyec::ident::IdGen;
use eyec::json::{report_from_json, report_from_json_or_empty, report_to_json};
use eyec::model::{FileKind, FileRec, Report, StageKind, StageRec};

fn sample_report() -> Report {
    let file = FileRec {
        id: "0123456789abcdef".to_string(),
        kind: FileKind::Source,
        name: "dir/a.cpp".to_string(),
    };
    let out = FileRec {
        id: "fedcba9876543210".to_string(),
        kind: FileKind::Object,
        name: "a.o".to_string(),
    };
    let stage = StageRec {
        id: "00aa11bb22cc33dd".to_string(),
        inputs: vec!["0123456789abcdef".to_string()],
        outputs: vec!["fedcba9876543210".to_string()],
        kind: StageKind::Compilation,
        duration: 120,
    };
    Report { files: vec![file, out], stages: vec![stage] }
}

#[test]
fn empty_report_serializes_to_fixed_document() {
    let r = Report::new();
    let s = report_to_json(&r);
    assert_eq!(s, "{\"files\":[],\"stages\":[]}");
}

#[test]
fn sample_report_serializes_to_expected_document() {
    let s = report_to_json(&sample_report());
    let expected = "{\"files\":[{\"id\":\"0123456789abcdef\",\"type\":\"Source\",\"name\":\"dir/a.cpp\"},{\"id\":\"fedcba9876543210\",\"type\":\"Object\",\"name\":\"a.o\"}],\"stages\":[{\"id\":\"00aa11bb22cc33dd\",\"inputs\":[\"0123456789abcdef\"],\"outputs\":[\"fedcba9876543210\"],\"type\":\"Compilation\",\"duration\":120}]}";
    assert_eq!(s, expected);
}

#[test]
fn round_trip_preserves_structure() {
    let r = sample_report();
    let s = report_to_json(&r);
    let back = report_from_json(&s).expect("round trip parse");
    assert_eq!(back.files.len(), r.files.len());
    for (a, b) in back.files.iter().zip(r.files.iter()) {
        assert_eq!(a.id, b.id);
        assert_eq!(a.name, b.name);
        assert_eq!(format!("{:?}", a.kind), format!("{:?}", b.kind));
    }
    assert_eq!(back.stages.len(), 1);
    assert_eq!(back.stages[0].inputs, r.stages[0].inputs);
    assert_eq!(back.stages[0].outputs, r.stages[0].outputs);
    assert_eq!(back.stages[0].duration, 120);
}

#[test]
fn round_trip_with_escaped_names() {
    let mut r = Report::new();
    r.files.push(FileRec {
        id: "aa".to_string(),
        kind: FileKind::Library,
        name: "we\"ird\\path\nwith\tcontrol\u{01}chars".to_string(),
    });
    let s = report_to_json(&r);
    let back = report_from_json(&s).expect("escaped round trip");
    assert_eq!(back.files[0].name, "we\"ird\\path\nwith\tcontrol\u{01}chars");
}

#[test]
fn round_trip_large_duration() {
    let mut r = Report::new();
    r.stages.push(StageRec {
        id: "x".to_string(),
        inputs: vec![],
        outputs: vec![],
        kind: StageKind::Link,
        duration: u64::MAX,
    });
    let s = report_to_json(&r);
    let back = report_from_json(&s).expect("large duration");
    assert_eq!(back.stages[0].duration, u64::MAX);
}

#[test]
fn malformed_documents_yield_empty_report() {
    for bad in [
        "",
        "garbage",
        "{}",
        "{\"files\":}",
        "{\"files\":[],\"stages\":[]",
        "{\"files\":[],\"stages\":[]}x",
        "{\"files\":[{\"id\":\"a\"}],\"stages\":[]}",
        "{\"files\":[],\"stages\":[{\"id\":\"a\",\"inputs\":[],\"outputs\":[],\"type\":\"Link\",\"duration\":99999999999999999999999}]}",
    ] {
        let r = report_from_json_or_empty(bad);
        assert_eq!(r.files.len(), 0, "input: {}", bad);
        assert_eq!(r.stages.len(), 0, "input: {}", bad);
    }
}

#[test]
fn parsing_a_valid_document_then_reserializing_is_identity() {
    let s = "{\"files\":[],\"stages\":[{\"id\":\"s\",\"inputs\":[\"a\",\"b\"],\"outputs\":[],\"type\":\"Archiving\",\"duration\":0}]}";
    let r = report_from_json(s).expect("valid document");
    assert_eq!(report_to_json(&r), s);
}

#[test]
fn emitted_document_is_json_that_serde_reads_identically() {
    let s = report_to_json(&sample_report());
    let v: serde_json::Value = serde_json::from_str(&s).expect("serde_json parses our output");
    assert_eq!(v["files"][0]["type"], "Source");
    assert_eq!(v["files"][0]["name"], "dir/a.cpp");
    assert_eq!(v["files"][1]["id"], "fedcba9876543210");
    assert_eq!(v["stages"][0]["type"], "Compilation");
    assert_eq!(v["stages"][0]["duration"], 120);
    assert_eq!(v["stages"][0]["inputs"][0], "0123456789abcdef");
}

#[test]
fn fresh_ids_render_entropy_low_nibble_first() {
    let mut gen = IdGen::new(vec![0x12, 0x34, 0x56, 0x78, 0x9a, 0xbc, 0xde, 0xf0, 0x00, 0x01,
        0x02, 0x03, 0x04, 0x05, 0x06, 0x07]);
    assert_eq!(gen.remaining_len(), 16);
    let id1 = gen.fresh_id();
    assert_eq!(id1, "21436587a9cbed0f");
    let id2 = gen.fresh_id();
    assert_eq!(id2, "0010203040506070");
    assert_eq!(gen.remaining_len(), 0);
}

#[test]
fn hex_escaped_control_char_documents_are_read() {
    let s = "{\"files\":[{\"id\":\"z\",\"type\":\"Executable\",\"name\":\"odd\\u001bname\"}],\"stages\":[]}";
    let r = report_from_json(s).expect("hex escape parses");
    assert_eq!(r.files[0].name, "odd\u{1b}name");
    assert_eq!(report_to_json(&r), s);
}

#[test]
fn loading_preserves_one_sided_stages() {
    let mut r = Report::new();
    r.files.push(FileRec {
        id: "lib0".to_string(),
        kind: FileKind::Library,
        name: "libq.a".to_string(),
    });
    r.stages.push(StageRec {
        id: "st0".to_string(),
        inputs: vec![],
        outputs: vec!["lib0".to_string()],
        kind: StageKind::Archiving,
        duration: 11,
    });
    let s = report_to_json(&r);
    let back = report_from_json_or_empty(&s);
    assert_eq!(back.stages.len(), 1);
    assert_eq!(back.stages[0].inputs.len(), 0);
    assert_eq!(back.stages[0].outputs, vec!["lib0".to_string()]);
    assert_eq!(back.files[0].name, "libq.a");
}
