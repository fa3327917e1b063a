use modloader::text::{decimal_text, text_from_utf8};
use modloader::words::{align_up, write_elf64_word, ElfError};

#[test]
fn align_up_rounds_to_the_next_multiple() {
    assert_eq!(align_up(13, 8), Ok(16));
    assert_eq!(align_up(16, 8), Ok(16));
    assert_eq!(align_up(0, 4096), Ok(0));
    assert_eq!(align_up(1, 4096), Ok(4096));
}

#[test]
fn align_up_takes_a_zero_alignment_for_none() {
    assert_eq!(align_up(13, 0), Ok(13));
    assert_eq!(align_up(13, 1), Ok(13));
    assert_eq!(align_up(usize::MAX, 0), Ok(usize::MAX));
}

#[test]
fn align_up_rejects_alignments_that_are_no_power_of_two() {
    assert_eq!(align_up(13, 12), Err(ElfError::InvalidAlignment(12)));
    assert_eq!(align_up(0, usize::MAX), Err(ElfError::InvalidAlignment(usize::MAX)));
}

#[test]
fn align_up_rejects_what_lies_beyond_the_address_space() {
    assert_eq!(align_up(usize::MAX, 2), Err(ElfError::AlignmentOverflow));
    assert_eq!(align_up(usize::MAX - 6, 8), Err(ElfError::AlignmentOverflow));
    assert_eq!(align_up(usize::MAX - 7, 8), Ok(usize::MAX - 7));
}

#[test]
fn words_are_stored_in_either_byte_order() {
    let mut buffer = vec![0xffu8; 12];
    assert_eq!(write_elf64_word(&mut buffer, 2, 0x0102030405060708, true), Ok(()));
    assert_eq!(buffer, vec![0xff, 0xff, 8, 7, 6, 5, 4, 3, 2, 1, 0xff, 0xff]);
    assert_eq!(write_elf64_word(&mut buffer, 4, 0x0102030405060708, false), Ok(()));
    assert_eq!(buffer, vec![0xff, 0xff, 8, 7, 1, 2, 3, 4, 5, 6, 7, 8]);
}

#[test]
fn words_are_not_stored_outside_the_buffer() {
    let mut buffer = vec![1u8; 10];
    assert_eq!(write_elf64_word(&mut buffer, 3, 0, true), Err(ElfError::WriteOutsideBuffer));
    assert_eq!(
        write_elf64_word(&mut buffer, usize::MAX - 7, 0, true),
        Err(ElfError::WriteOverflow)
    );
    assert_eq!(
        write_elf64_word(&mut buffer, usize::MAX - 8, 0, true),
        Err(ElfError::WriteOutsideBuffer)
    );
    assert_eq!(buffer, vec![1u8; 10]);
}

#[test]
fn a_stored_word_is_read_back() {
    for value in [0u64, 1, 0x80, 0xffff_0000_1234_5678, u64::MAX] {
        let mut buffer = [0u8; 8];
        write_elf64_word(&mut buffer, 0, value, true).unwrap();
        assert_eq!(u64::from_le_bytes(buffer), value);
        write_elf64_word(&mut buffer, 0, value, false).unwrap();
        assert_eq!(u64::from_be_bytes(buffer), value);
    }
}

#[test]
fn layout_errors_say_what_is_wrong() {
    let texts = [
        (ElfError::NotElf64, "Only ELF64 modules are supported"),
        (ElfError::SectionTableOffsetOverflow, "Section table offset overflow"),
        (ElfError::ModinfoOffsetOverflow, ".modinfo offset overflow"),
        (ElfError::ModinfoSizeOverflow, ".modinfo size overflow"),
        (ElfError::ModinfoRangeOverflow, ".modinfo range overflow"),
        (ElfError::ModinfoOutsideBuffer, ".modinfo is outside module buffer"),
        (ElfError::SectionIndexOverflow, "Section index overflow"),
        (ElfError::SectionHeaderOffsetOverflow, "Section header offset overflow"),
        (ElfError::NoModinfo, "Module has no .modinfo section"),
        (ElfError::InvalidAlignment(12), "Invalid ELF alignment: 12"),
        (ElfError::AlignmentOverflow, "ELF alignment overflow"),
        (ElfError::WriteOverflow, "ELF write overflow"),
        (ElfError::WriteOutsideBuffer, "ELF write outside module buffer"),
    ];
    for (error, text) in texts {
        assert_eq!(error.message(), text);
    }
}

#[test]
fn numbers_are_written_in_decimal_notation() {
    for value in [0usize, 7, 10, 99, 100, 12345, usize::MAX] {
        assert_eq!(decimal_text(value), format!("{}", value));
    }
}

#[test]
fn only_well_formed_bytes_are_a_text() {
    assert_eq!(text_from_utf8(b"caf\xc3\xa9"), Some("café".to_string()));
    assert_eq!(text_from_utf8(b""), Some(String::new()));
    assert_eq!(text_from_utf8(b"caf\xc3"), None);
    assert_eq!(text_from_utf8(b"\xff"), None);
}
