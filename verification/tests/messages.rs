use glyphcull_core::document::{DocumentError, DocumentErrorKind};
use glyphcull_core::error::{Error, ErrorKind};
use glyphcull_core::lifecycle::{ChunkState, LifecycleError, LifecycleEvent};
use glyphcull_core::reader::SectionKind;

#[test]
fn lifecycle_errors_read_as_the_runtime_writes_them() {
    let e = LifecycleError::transition(12, LifecycleEvent::Complete, ChunkState::Compressed, "transition not in {enqueue}");
    assert_eq!(e.message(), "lifecycle: chunk 12 cannot complete from Compressed: transition not in {enqueue}");
    let r = LifecycleError::registration(0, "chunk ids start at 1");
    assert_eq!(r.message(), "lifecycle: chunk 0 cannot register: chunk ids start at 1");
}

#[test]
fn reader_errors_name_their_kind_and_section() {
    let scoped = Error::for_section(ErrorKind::CrcMismatch, 3, "payload CRC".to_string());
    assert_eq!(scoped.render(), "CrcMismatch (section 3): payload CRC (section 3)");
    let plain = Error::new(ErrorKind::BadMagic, "not a package".to_string());
    assert_eq!(plain.render(), "BadMagic: not a package");
}

#[test]
fn document_errors_and_sections_have_names() {
    let e = DocumentError::new(DocumentErrorKind::CountMismatch, "chunk count".to_string());
    assert_eq!(e.render(), "CountMismatch: chunk count");
    assert_eq!(SectionKind::Glyph.name(), "Glyph");
    assert_eq!(SectionKind::Info.name(), "Info");
}
