use blockyard::ids::{DiskId, EpochId, ExtentId, NodeId, OperationId, SessionId, VolumeId};
use blockyard::text::{decimal_text, text_contains};

#[test]
fn identifiers_are_written_as_uuids() {
    assert_eq!(DiskId::new(0).to_text(), "00000000-0000-0000-0000-000000000000");
    assert_eq!(
        VolumeId::new(0x0123_4567_89ab_cdef_0123_4567_89ab_cdef).to_text(),
        "01234567-89ab-cdef-0123-456789abcdef"
    );
    assert_eq!(
        NodeId::new(u128::MAX).to_text(),
        "ffffffff-ffff-ffff-ffff-ffffffffffff"
    );
}

#[test]
fn generated_identifiers_are_of_version_4() {
    for value in [
        ExtentId::generate().value,
        OperationId::generate().value,
        SessionId::generate().value,
        VolumeId::generate().value,
    ] {
        assert_eq!((value >> 76) & 0xf, 4);
        assert_eq!((value >> 62) & 0b11, 0b10);
    }
    assert_ne!(ExtentId::generate(), ExtentId::generate());
}

#[test]
fn numbers_are_written_in_decimal() {
    assert_eq!(decimal_text(0), "0");
    assert_eq!(decimal_text(90210), "90210");
    assert_eq!(decimal_text(u64::MAX), "18446744073709551615");
    assert_eq!(EpochId::new(7).value, 7);
}

#[test]
fn parts_of_texts_are_found() {
    for text in ["", "a", "ab", "aab", "metadata", "no metadata here", "métadata"] {
        for part in ["", "a", "ab", "b", "metadata", "é"] {
            assert_eq!(text_contains(text, part), text.contains(part), "{text} {part}");
        }
    }
}
