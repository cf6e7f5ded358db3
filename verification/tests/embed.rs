use codemap::embed::{cache_path, decode_index, doc_text, encode_index, fingerprint};
use codemap::extractor::Function;
use std::collections::hash_map::DefaultHasher;
use std::hash::Hasher;

fn func(name: &str, owner: Option<&str>, body: &str, doc: &str) -> Function {
    Function {
        name: name.to_string(),
        owner: owner.map(|o| o.to_string()),
        file: "f.rs".to_string(),
        line: 3,
        body: body.to_string(),
        calls: Vec::new(),
        doc: doc.to_string(),
    }
}

#[test]
fn doc_text_reads_owner_name_doc_and_body() {
    let f = func("poll_next", Some("Framed"), "fn poll_next() {}", "Polls.");
    assert_eq!(doc_text(&f), "Framed poll next. Polls.\nfn poll_next() {}");
    let g = func("run", None, "fn run() {}", "");
    assert_eq!(doc_text(&g), " run. \nfn run() {}");
}

#[test]
fn doc_text_keeps_400_characters_of_body() {
    let body: String = std::iter::repeat('é').take(500).collect();
    let f = func("x", None, &body, "");
    let t = doc_text(&f);
    assert_eq!(t.chars().count(), " x. \n".chars().count() + 400);
}

#[test]
fn cache_path_is_under_the_root() {
    assert_eq!(cache_path("/proj"), "/proj/.codemap/embeddings.bin");
    assert_eq!(cache_path("proj/"), "proj/.codemap/embeddings.bin");
}

#[test]
fn fingerprint_is_stable_and_sees_changes() {
    let a = vec![func("a", None, "fn a() {}", "")];
    let b = vec![func("a", None, "fn a() { 1 }", "")];
    assert_eq!(fingerprint(&a), fingerprint(&a));
    assert_ne!(fingerprint(&a), fingerprint(&b));
}

#[test]
fn fingerprint_sees_a_renamed_owner() {
    let a = vec![func("go", Some("Foo"), "fn go() {}", "")];
    let b = vec![func("go", Some("Bar"), "fn go() {}", "")];
    let c = vec![func("go", None, "fn go() {}", "")];
    assert_ne!(fingerprint(&a), fingerprint(&b));
    assert_ne!(fingerprint(&a), fingerprint(&c));
    assert_ne!(fingerprint(&b), fingerprint(&c));
}

#[test]
fn fingerprint_is_the_hash_of_its_writes() {
    let funcs = vec![
        func("a", None, "fn a() {}", "Does a."),
        func("b", Some("T"), "fn b() { a() }", ""),
    ];
    let mut h = DefaultHasher::new();
    for f in &funcs {
        h.write(f.file.as_bytes());
        h.write(&[0xff]);
        h.write(&(f.line as u64).to_le_bytes());
        match &f.owner {
            Some(o) => {
                h.write(&[1]);
                h.write(o.as_bytes());
                h.write(&[0xff]);
            }
            None => h.write(&[0]),
        }
        h.write(f.body.as_bytes());
        h.write(&[0xff]);
        h.write(f.doc.as_bytes());
        h.write(&[0xff]);
    }
    assert_eq!(fingerprint(&funcs), h.finish());
    assert_ne!(fingerprint(&funcs), fingerprint(&funcs[..1]));
}

#[test]
fn index_layout_is_little_endian() {
    let bytes = encode_index(0x0102, &vec![vec![7u32, 0x01020304]]);
    assert_eq!(
        bytes,
        vec![
            2, 1, 0, 0, 0, 0, 0, 0, // fingerprint
            1, 0, 0, 0, 0, 0, 0, 0, // rows
            2, 0, 0, 0, 0, 0, 0, 0, // row length
            7, 0, 0, 0, 4, 3, 2, 1,
        ]
    );
}

#[test]
fn index_roundtrip() {
    let rows = vec![vec![1.5f32.to_bits(), 2.0f32.to_bits()], vec![0, u32::MAX], vec![3, 4]];
    let bytes = encode_index(42, &rows);
    assert_eq!(decode_index(&bytes, 42, 3), Some(rows.clone()));
    let empty: Vec<Vec<u32>> = Vec::new();
    assert_eq!(decode_index(&encode_index(9, &empty), 9, 0), Some(empty));
}

#[test]
fn index_is_refused_when_it_does_not_fit() {
    let rows = vec![vec![1u32, 2], vec![3, 4]];
    let bytes = encode_index(42, &rows);
    assert_eq!(decode_index(&bytes, 43, 2), None);
    assert_eq!(decode_index(&bytes, 42, 3), None);
    assert_eq!(decode_index(&bytes[..bytes.len() - 1], 42, 2), None);
    assert_eq!(decode_index(&bytes[..20], 42, 2), None);
    let ragged = encode_index(1, &vec![vec![1u32, 2], vec![3]]);
    assert_eq!(decode_index(&ragged, 1, 2), None);
}
