use glyphcull_core::document::{build_document, DocumentErrorKind};
use glyphcull_core::error::ErrorKind;
use glyphcull_core::reader::info::decode as decode_info;
use glyphcull_core::reader::seal::decode as decode_seal;
use glyphcull_core::reader::{parse, SectionKind};
use glyphcull_core::selection::{copy_text, covered_chunk_ids, normalize_selection, Selection, TextPosition};
use glyphcull_core::visibility::{cull, GeometryHit};
use sha2::{Digest, Sha256};

fn le16(out: &mut Vec<u8>, v: u16) {
    out.extend_from_slice(&v.to_le_bytes());
}

fn le32(out: &mut Vec<u8>, v: u32) {
    out.extend_from_slice(&v.to_le_bytes());
}

fn le64(out: &mut Vec<u8>, v: u64) {
    out.extend_from_slice(&v.to_le_bytes());
}

/// A `.cull` file with uncompressed sections, in the given order.
fn package(sections: &[(u32, Vec<u8>)]) -> Vec<u8> {
    let mut out: Vec<u8> = Vec::new();
    out.extend_from_slice(b"CULL");
    le16(&mut out, 1);
    le16(&mut out, 0);
    le32(&mut out, sections.len() as u32);
    let crc = crc32fast::hash(&out[0..12]);
    le32(&mut out, crc);
    let mut offset = 16 + 32 * sections.len() as u64;
    for (kind, payload) in sections {
        le32(&mut out, *kind);
        out.push(0);
        out.push(0);
        le16(&mut out, 0);
        le64(&mut out, offset);
        le64(&mut out, payload.len() as u64);
        le32(&mut out, payload.len() as u32);
        le32(&mut out, crc32fast::hash(payload));
        offset += payload.len() as u64;
    }
    for (_, payload) in sections {
        out.extend_from_slice(payload);
    }
    out
}

fn info_json(chunks: u32, styles: u32, contents: u32) -> Vec<u8> {
    format!(
        "{{\"format_version\":1,\"generator\":\"glyphcull-test\",\"generator_version\":\"0.1.0\",\
         \"source_digest\":\"00\",\"document_id\":\"abc\",\"title\":\"T\\u00e9st\",\"chunk_count\":{chunks},\
         \"style_count\":{styles},\"content_count\":{contents},\"atlas_count\":0,\"image_count\":0}}"
    )
    .into_bytes()
}

/// One chunk record: (id, kind, flags, parent, prev, next, first, last,
/// content, depth).
#[allow(clippy::too_many_arguments)]
fn record(
    out: &mut Vec<u8>,
    id: u32,
    kind: u8,
    flags: u8,
    parent: u32,
    next: u32,
    first: u32,
    last: u32,
    content: u32,
    depth: u32,
) {
    le32(out, id);
    out.push(kind);
    out.push(flags);
    le16(out, 0);
    le32(out, 0);
    le32(out, parent);
    le32(out, 0);
    le32(out, next);
    le32(out, first);
    le32(out, last);
    le32(out, content);
    le32(out, id - 1);
    le32(out, depth);
}

/// document(1) → paragraph(2) → run(3 "Hello world");
/// document(1) → hidden paragraph(4) → run(5 "secret").
fn chunk_section() -> Vec<u8> {
    let mut out = Vec::new();
    le32(&mut out, 5);
    record(&mut out, 1, 1, 0x10, 0, 0, 2, 4, 0, 0);
    record(&mut out, 2, 8, 0, 1, 4, 3, 3, 0, 1);
    record(&mut out, 3, 18, 0, 2, 0, 0, 0, 1, 2);
    record(&mut out, 4, 8, 1, 1, 0, 5, 5, 0, 1);
    record(&mut out, 5, 18, 0, 4, 0, 0, 0, 2, 2);
    le32(&mut out, 0);
    out
}

fn style_section() -> Vec<u8> {
    let mut out = Vec::new();
    le32(&mut out, 1);
    le32(&mut out, 0);
    le16(&mut out, 0);
    le16(&mut out, 0);
    out
}

fn content_section(texts: &[&str]) -> Vec<u8> {
    let mut out = Vec::new();
    le32(&mut out, texts.len() as u32);
    for (i, t) in texts.iter().enumerate() {
        le32(&mut out, i as u32);
        out.push(0);
        out.push(0);
        le16(&mut out, 0);
        le32(&mut out, t.len() as u32);
        out.extend_from_slice(t.as_bytes());
    }
    out
}

fn sample() -> Vec<u8> {
    package(&[
        (1, info_json(5, 1, 2)),
        (2, chunk_section()),
        (3, style_section()),
        (4, content_section(&["Hello world", "secret"])),
    ])
}

#[test]
fn a_hand_built_package_parses() {
    let bytes = sample();
    let pkg = parse(&bytes).expect("parse");
    assert_eq!(pkg.version, 1);
    assert_eq!(pkg.sections.len(), 4);
    let info = pkg.info().expect("info").expect("present");
    assert_eq!(info.chunk_count, 5);
    assert_eq!(info.generator, "glyphcull-test");
    assert_eq!(info.title.as_deref(), Some("Tést"));
    assert!(pkg.section(SectionKind::Chunk).is_some());
    assert!(pkg.section(SectionKind::Glyph).is_none());
}

#[test]
fn bad_magic_and_header_crc_are_rejected() {
    let mut bytes = sample();
    bytes[0] = b'X';
    assert_eq!(parse(&bytes).err().expect("error").kind(), ErrorKind::BadMagic);
    let mut bytes = sample();
    bytes[12] ^= 0xff;
    assert_eq!(parse(&bytes).err().expect("error").kind(), ErrorKind::HeaderCrcMismatch);
    assert_eq!(parse(&bytes[0..10]).err().expect("error").kind(), ErrorKind::TooShort);
}

#[test]
fn a_corrupted_payload_fails_its_crc() {
    let mut bytes = sample();
    let last = bytes.len() - 1;
    bytes[last] ^= 0x01;
    let err = parse(&bytes).err().expect("error");
    assert_eq!(err.kind(), ErrorKind::CrcMismatch);
}

#[test]
fn a_package_without_info_is_rejected() {
    let bytes = package(&[(2, chunk_section())]);
    assert!(parse(&bytes).is_err());
}

#[test]
fn info_rejects_duplicate_and_unknown_keys() {
    assert!(decode_info(b"{\"chunk_count\":1,\"chunk_count\":2}").is_err());
    assert!(decode_info(b"{\"colour\":\"red\"}").is_err());
    assert!(decode_info(b"{\"chunk_count\":\"one\"}").is_err());
    let info = decode_info(b"{}").expect("empty object");
    assert_eq!(info.chunk_count, 0);
    assert_eq!(info.title, None);
    let info = decode_info(b"{\"title\":\"a\\nb\\u0041\"}").expect("escapes");
    assert_eq!(info.title.as_deref(), Some("a\nbA"));
}

#[test]
fn the_document_model_walks_the_tree_in_document_order() {
    let bytes = sample();
    let pkg = parse(&bytes).expect("parse");
    let doc = build_document(&pkg).expect("document");
    assert_eq!(doc.root().id, 1);
    assert_eq!(doc.all_ids(), vec![1, 2, 3, 4, 5]);
    assert_eq!(doc.child_ids(1), vec![2, 4]);
    assert_eq!(doc.child_ids(3), Vec::<u32>::new());
    assert_eq!(doc.direct_text(3), Some("Hello world"));
    assert_eq!(doc.direct_text(2), None);
    assert_eq!(doc.plain_text(2), "Hello world");
    assert!(doc.chunk(6).is_none());
}

#[test]
fn a_dangling_style_reference_is_refused() {
    let bytes = package(&[
        (1, info_json(5, 0, 2)),
        (2, chunk_section()),
        (4, content_section(&["Hello world", "secret"])),
    ]);
    let pkg = parse(&bytes).expect("parse");
    let err = build_document(&pkg).err().expect("error");
    assert_eq!(err.kind, DocumentErrorKind::DanglingReference);
}

#[test]
fn a_count_mismatch_is_refused() {
    let bytes = package(&[
        (1, info_json(5, 1, 3)),
        (2, chunk_section()),
        (3, style_section()),
        (4, content_section(&["Hello world", "secret"])),
    ]);
    let pkg = parse(&bytes).expect("parse");
    let err = build_document(&pkg).err().expect("error");
    assert!(matches!(err.kind, DocumentErrorKind::CountMismatch | DocumentErrorKind::DanglingReference));
}

#[test]
fn culling_prunes_hidden_subtrees_and_aggregates_structure() {
    let bytes = sample();
    let pkg = parse(&bytes).expect("parse");
    let doc = build_document(&pkg).expect("document");
    let hits = vec![
        GeometryHit::Missing,
        GeometryHit::Inside,
        GeometryHit::Missing,
        GeometryHit::Inside,
        GeometryHit::Inside,
    ];
    let result = cull(&doc, &hits);
    assert_eq!(result.visible, vec![1, 2]);
    assert_eq!(result.hidden, vec![4, 5]);
    assert_eq!(result.not_yet_visible, vec![3]);
}

#[test]
fn culling_with_everything_outside_shows_nothing() {
    let bytes = sample();
    let pkg = parse(&bytes).expect("parse");
    let doc = build_document(&pkg).expect("document");
    let hits = vec![GeometryHit::Outside; 5];
    let result = cull(&doc, &hits);
    assert!(result.visible.is_empty());
    assert_eq!(result.hidden, vec![4, 5]);
    assert!(result.not_yet_visible.is_empty());
}

#[test]
fn copying_a_selection_within_one_run() {
    let bytes = sample();
    let pkg = parse(&bytes).expect("parse");
    let doc = build_document(&pkg).expect("document");
    let sel = normalize_selection(
        &doc,
        TextPosition { chunk_id: 3, offset: 11 },
        TextPosition { chunk_id: 3, offset: 6 },
    );
    assert_eq!(sel, Selection { start: TextPosition { chunk_id: 3, offset: 6 }, end: TextPosition { chunk_id: 3, offset: 11 } });
    assert_eq!(copy_text(&doc, sel), "world");
    assert_eq!(covered_chunk_ids(&doc, sel), vec![3]);
}

fn sha256(bytes: &[u8]) -> [u8; 32] {
    let d = Sha256::digest(bytes);
    let mut out = [0u8; 32];
    out.copy_from_slice(&d);
    out
}

/// A package of INFO and a SEAL over it; `tamper` flips a bit of the
/// overall hash.
fn sealed(tamper: bool) -> Vec<u8> {
    let info = info_json(0, 0, 0);
    let mut header = Vec::new();
    header.extend_from_slice(b"CULL");
    le16(&mut header, 1);
    le16(&mut header, 0);
    le32(&mut header, 2);
    let mut overall_input = header.clone();
    le32(&mut overall_input, 1);
    le32(&mut overall_input, info.len() as u32);
    overall_input.extend_from_slice(&info);
    let mut overall = sha256(&overall_input);
    if tamper {
        overall[0] ^= 1;
    }
    let mut seal = vec![1u8, 0, 0, 0];
    le32(&mut seal, 1);
    le32(&mut seal, 1);
    seal.extend_from_slice(&sha256(&info));
    seal.extend_from_slice(&overall);
    package(&[(1, info), (7, seal)])
}

#[test]
fn a_correct_seal_verifies() {
    let bytes = sealed(false);
    let pkg = parse(&bytes).expect("sealed package parses");
    assert!(pkg.verify_seal().is_ok());
    let seal = pkg.seal().expect("seal").expect("present");
    assert_eq!(seal.hashes.len(), 1);
    assert_eq!(seal.hashes[0].kind, 1);
}

#[test]
fn a_tampered_seal_is_refused() {
    let bytes = sealed(true);
    let err = parse(&bytes).err().expect("refused");
    assert_eq!(err.kind(), ErrorKind::SealMismatch);
}

#[test]
fn the_walks_cover_every_chunk_exactly_once() {
    let bytes = sample();
    let pkg = parse(&bytes).expect("parse");
    let doc = build_document(&pkg).expect("document");
    let mut ids = doc.all_ids();
    assert_eq!(ids.len(), doc.chunks().len());
    ids.sort();
    ids.dedup();
    assert_eq!(ids, vec![1, 2, 3, 4, 5]);
    assert_eq!(doc.plain_text(1), "Hello worldsecret");
    assert_eq!(doc.child_ids(4), vec![5]);
}

#[test]
fn a_structural_chunk_is_visible_only_through_its_descendants() {
    let bytes = sample();
    let pkg = parse(&bytes).expect("parse");
    let doc = build_document(&pkg).expect("document");
    let own_hit_only = vec![
        GeometryHit::Inside,
        GeometryHit::Outside,
        GeometryHit::Outside,
        GeometryHit::Outside,
        GeometryHit::Outside,
    ];
    assert!(cull(&doc, &own_hit_only).visible.is_empty());
    let grandchild = vec![
        GeometryHit::Outside,
        GeometryHit::Outside,
        GeometryHit::Inside,
        GeometryHit::Outside,
        GeometryHit::Outside,
    ];
    assert_eq!(cull(&doc, &grandchild).visible, vec![1, 3]);
}

#[test]
fn info_errors_carry_the_failing_detail() {
    let message = |bytes: &[u8]| decode_info(bytes).expect_err("refused").message;
    assert_eq!(message(b"{\"colour\":\"red\"}"), "INFO: unknown key");
    assert_eq!(message(b"{\"chunk_count\":1,\"chunk_count\":2}"), "duplicate key");
    assert_eq!(message(b"{\"chunk_count\":\"one\"}"), "INFO: key must be an integer");
    assert_eq!(message(b"{\"chunk_count\":4294967296}"), "INFO: integer does not fit u32");
    assert_eq!(message(b"{\"title\":7}"), "INFO: key must be a string");
    assert_eq!(message(b"{\"title\":\"\\u+041\"}"), "bad unicode escape");
    assert_eq!(message(b"{\"title\":\"\\q\"}"), "bad escape");
    assert_eq!(message(b"{\"title\":\"abc"), "unterminated string");
    assert_eq!(message(b"{\"title\" 1}"), "unexpected character");
    assert_eq!(message(b"{"), "unexpected end of input");
    assert_eq!(message(b"{}x"), "trailing characters after the INFO object");
    assert_eq!(message(b"{\"title\":\"a\" ]"), "expected ',' or '}' in INFO object");
    assert_eq!(message(b"{\"title\":-1}"), "unexpected value start");
    assert_eq!(message(&[0xFFu8]), "INFO payload is not valid UTF-8");
}

#[test]
fn seal_errors_carry_the_failing_detail() {
    let message = |bytes: &[u8]| decode_seal(bytes).expect_err("refused").message;
    assert_eq!(message(&[]), "SEAL mode");
    assert_eq!(message(&[1, 0, 0]), "SEAL reserved");
    assert_eq!(message(&[2, 0, 0, 0, 0, 0, 0, 0]), "SEAL mode is not the hash tree");
    assert_eq!(message(&[1, 1, 0, 0, 0, 0, 0, 0]), "SEAL algorithm is not SHA-256");
    assert_eq!(message(&[1, 0, 1, 0, 0, 0, 0, 0]), "SEAL flags/reserved bits must be zero");
    assert_eq!(message(&[1, 0, 0, 0, 65, 0, 0, 0]), "SEAL count exceeds the cap");
    assert_eq!(message(&[1, 0, 0, 0, 1, 0, 0, 0, 1]), "SEAL section kind");
    assert_eq!(message(&[1, 0, 0, 0, 0, 0, 0, 0]), "SEAL overall");
    let mut trailing = vec![1u8, 0, 0, 0, 0, 0, 0, 0];
    trailing.extend_from_slice(&[0u8; 33]);
    assert_eq!(message(&trailing), "SEAL payload");
    let pkg = parse(&sealed(false)).expect("sealed package parses");
    assert!(pkg.verify_seal().is_ok());
}
