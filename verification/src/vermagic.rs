//! Giving a module the vermagic that the running kernel asks for: its `.modinfo`
//! section is written anew at the end of the file, and its section header is made
//! to point there.

use vstd::arithmetic::power::pow;
use vstd::prelude::*;
use vstd::slice::slice_subrange;
use vstd::string::StringSliceAdditionalSpecFns;

use crate::elf::{
    elf_image, field, header_len, holds_header, holds_names, holds_section, holds_section_table,
    holds_sections, is_faithful, lemma_field_kept, names_index, parse_elf, section_bytes,
    section_count, section_header_len, stored_count, string_at, ElfImage, ElfView, SectionView,
};
use crate::modinfo::{
    entries, is_value, is_vermagic, law_last_replacement_decides, law_one_vermagic,
    replace_modinfo, replaced_modinfo, vermagic_entry,
};
use crate::words::{
    align_up, aligned, law_aligned_is_least_multiple, law_word_is_stored, law_word_read_back,
    lemma_word_bytes_len,
    put_word, word_bytes, word_limit, write_elf64_word, ElfError,
};

verus! {

/// How far into a section header the section's file offset stands.
pub const SH_OFFSET: usize = 0x18;

/// How far into a section header the section's size stands.
pub const SH_SIZE: usize = 0x20;

/// Where the `.modinfo` section of a module stands.
#[derive(Debug, Clone, Copy, PartialEq, Eq, Structural)]
pub struct ModinfoLocation {
    pub offset: usize,
    pub size: usize,
    pub section_header_offset: usize,
    pub alignment: usize,
    pub little_endian: bool,
}

/// Why a module's vermagic could not be replaced.
#[derive(Debug)]
pub enum VermagicError {
    /// The module is no ELF file; the text says why.
    Parse(String),
    /// The module's layout does not allow it.
    Layout(ElfError),
}

impl VermagicError {
    /// What the error says.
    pub open spec fn text(self) -> Seq<char> {
        match self {
            VermagicError::Parse(message) => message@,
            VermagicError::Layout(error) => error.text(),
        }
    }

    /// What the error says.
    pub fn message(self) -> (message: String)
        ensures
            message@ == self.text(),
    {
        match self {
            VermagicError::Parse(message) => message,
            VermagicError::Layout(error) => error.message(),
        }
    }
}

/// Whether a section is named `.modinfo`.
pub open spec fn is_modinfo(section: SectionView) -> bool {
    section.name == Some(".modinfo"@)
}

/// The first section at or behind index `from` that is named `.modinfo`.
pub open spec fn modinfo_index(sections: Seq<SectionView>, from: int) -> Option<int>
    decreases sections.len() - from,
{
    if from < 0 || from >= sections.len() {
        None
    } else if is_modinfo(sections[from]) {
        Some(from)
    } else {
        modinfo_index(sections, from + 1)
    }
}

/// Where the `.modinfo` section stands in a file of `len` bytes.
pub open spec fn located(image: ElfView, len: nat) -> Result<ModinfoLocation, ElfError> {
    if !image.is_64 {
        Err(ElfError::NotElf64)
    } else if image.e_shoff > usize::MAX {
        Err(ElfError::SectionTableOffsetOverflow)
    } else {
        match modinfo_index(image.sections, 0) {
            None => Err(ElfError::NoModinfo),
            Some(index) => {
                let section = image.sections[index];
                if section.sh_offset > usize::MAX {
                    Err(ElfError::ModinfoOffsetOverflow)
                } else if section.sh_size > usize::MAX {
                    Err(ElfError::ModinfoSizeOverflow)
                } else if section.sh_offset + section.sh_size > usize::MAX {
                    Err(ElfError::ModinfoRangeOverflow)
                } else if section.sh_offset + section.sh_size > len {
                    Err(ElfError::ModinfoOutsideBuffer)
                } else if index * image.e_shentsize > usize::MAX {
                    Err(ElfError::SectionIndexOverflow)
                } else if image.e_shoff + index * image.e_shentsize > usize::MAX {
                    Err(ElfError::SectionHeaderOffsetOverflow)
                } else {
                    Ok(
                        ModinfoLocation {
                            offset: section.sh_offset as usize,
                            size: section.sh_size as usize,
                            section_header_offset: (image.e_shoff + index
                                * image.e_shentsize) as usize,
                            alignment: if 1 <= section.sh_addralign <= usize::MAX {
                                section.sh_addralign as usize
                            } else {
                                1
                            },
                            little_endian: image.little_endian,
                        },
                    )
                }
            },
        }
    }
}

/// The module with padding and the new section appended.
pub open spec fn grown(buffer: Seq<u8>, new_offset: int, modinfo: Seq<u8>) -> Seq<u8> {
    buffer + Seq::new((new_offset - buffer.len()) as nat, |i: int| 0u8) + modinfo
}

/// The module after its vermagic has been replaced, and whether that succeeded.
/// Where storing into the section header fails, the new section stays appended.
pub open spec fn moved_modinfo(
    buffer: Seq<u8>,
    location: ModinfoLocation,
    required: Seq<u8>,
) -> (Seq<u8>, Result<(), ElfError>) {
    let modinfo = replaced_modinfo(
        buffer.subrange(location.offset as int, location.offset + location.size),
        required,
    );
    match aligned(buffer.len() as int, location.alignment as int) {
        Err(error) => (buffer, Err(error)),
        Ok(new_offset) => {
            let appended = grown(buffer, new_offset, modinfo);
            match put_word(
                appended,
                location.section_header_offset + SH_OFFSET,
                new_offset as nat,
                location.little_endian,
            ) {
                Err(error) => (appended, Err(error)),
                Ok(moved) => match put_word(
                    moved,
                    location.section_header_offset + SH_SIZE,
                    modinfo.len(),
                    location.little_endian,
                ) {
                    Err(error) => (moved, Err(error)),
                    Ok(resized) => (resized, Ok(())),
                },
            }
        },
    }
}

/// The module after its vermagic has been replaced, given what parsing it found.
pub open spec fn revised_module(buffer: Seq<u8>, image: ElfView, required: Seq<u8>) -> (
    Seq<u8>,
    Result<(), ElfError>,
) {
    match located(image, buffer.len()) {
        Err(error) => (buffer, Err(error)),
        Ok(location) => moved_modinfo(buffer, location, required),
    }
}

/// Finds the `.modinfo` section of a module of `len` bytes.
pub fn locate_modinfo(image: &ElfImage, len: usize) -> (result: Result<ModinfoLocation, ElfError>)
    ensures
        result == located(image@, len as nat),
{
    if !image.is_64 {
        return Err(ElfError::NotElf64);
    }
    if image.e_shoff > usize::MAX as u64 {
        return Err(ElfError::SectionTableOffsetOverflow);
    }
    let section_table_offset: usize = image.e_shoff as usize;
    let modinfo = ".modinfo".to_owned();
    let mut index: usize = 0;
    while index < image.sections.len()
        invariant
            image.is_64,
            image.e_shoff <= usize::MAX,
            section_table_offset == image.e_shoff,
            modinfo@ == ".modinfo"@,
            index <= image.sections@.len(),
            modinfo_index(image@.sections, 0) == modinfo_index(image@.sections, index as int),
        decreases image.sections@.len() - index,
    {
        let section = &image.sections[index];
        assert(image@.sections[index as int] == section@);
        let named = match &section.name {
            Some(name) => *name == modinfo,
            None => false,
        };
        if !named {
            index = index + 1;
            continue ;
        }
        assert(modinfo_index(image@.sections, 0) == Some(index as int));
        if section.sh_offset > usize::MAX as u64 {
            return Err(ElfError::ModinfoOffsetOverflow);
        }
        if section.sh_size > usize::MAX as u64 {
            return Err(ElfError::ModinfoSizeOverflow);
        }
        let offset: usize = section.sh_offset as usize;
        let size: usize = section.sh_size as usize;
        let end: usize = match offset.checked_add(size) {
            None => {
                return Err(ElfError::ModinfoRangeOverflow);
            },
            Some(end) => end,
        };
        if end > len {
            return Err(ElfError::ModinfoOutsideBuffer);
        }
        let distance: usize = match index.checked_mul(image.e_shentsize as usize) {
            None => {
                return Err(ElfError::SectionIndexOverflow);
            },
            Some(distance) => distance,
        };
        let section_header_offset: usize = match section_table_offset.checked_add(distance) {
            None => {
                return Err(ElfError::SectionHeaderOffsetOverflow);
            },
            Some(position) => position,
        };
        let alignment: usize = if 1 <= section.sh_addralign && section.sh_addralign
            <= usize::MAX as u64 {
            section.sh_addralign as usize
        } else {
            1
        };
        return Ok(
            ModinfoLocation {
                offset,
                size,
                section_header_offset,
                alignment,
                little_endian: image.little_endian,
            },
        );
    }
    Err(ElfError::NoModinfo)
}

/// Writes the `.modinfo` section at `location` anew at the end of the module, with
/// `required_vermagic` as its vermagic.
#[verifier::spinoff_prover]
#[verifier::rlimit(40)]
pub fn move_modinfo(
    buffer: &mut Vec<u8>,
    location: ModinfoLocation,
    required_vermagic: &str,
) -> (result: Result<(), ElfError>)
    requires
        location.offset + location.size <= old(buffer)@.len(),
    ensures
        (final(buffer)@, result) == moved_modinfo(
            old(buffer)@,
            location,
            required_vermagic.spec_bytes(),
        ),
{
    let ghost before = buffer@;
    let new_modinfo = replace_modinfo(
        slice_subrange(buffer.as_slice(), location.offset, location.offset + location.size),
        required_vermagic,
    );
    let new_offset: usize = match align_up(buffer.len(), location.alignment) {
        Err(error) => {
            return Err(error);
        },
        Ok(new_offset) => new_offset,
    };
    proof {
        law_aligned_is_least_multiple(before.len() as int, location.alignment as int, 0);
    }
    let ghost appended = grown(before, new_offset as int, new_modinfo@);
    buffer.resize(new_offset, 0);
    assert(buffer@ =~= before + Seq::new((new_offset - before.len()) as nat, |i: int| 0u8)) by {
        if new_offset == before.len() {
            assert(before.subrange(0, new_offset as int) =~= before);
        } else {
            assert forall|i: int| 0 <= i < before.len() implies buffer@[i] == before[i] by {
                assert(buffer@.subrange(0, before.len() as int)[i] == buffer@[i]);
            }
        }
    }
    buffer.extend_from_slice(new_modinfo.as_slice());
    assert(buffer@ =~= appended);
    let offset_field: usize = match location.section_header_offset.checked_add(SH_OFFSET) {
        None => {
            return Err(ElfError::WriteOverflow);
        },
        Some(position) => position,
    };
    match write_elf64_word(
        buffer.as_mut_slice(),
        offset_field,
        new_offset as u64,
        location.little_endian,
    ) {
        Err(error) => {
            return Err(error);
        },
        Ok(()) => {},
    }
    let size_field: usize = match location.section_header_offset.checked_add(SH_SIZE) {
        None => {
            return Err(ElfError::WriteOverflow);
        },
        Some(position) => position,
    };
    let outcome = write_elf64_word(
        buffer.as_mut_slice(),
        size_field,
        new_modinfo.len() as u64,
        location.little_endian,
    );
    outcome
}

/// Gives a module the vermagic `required_vermagic`, given what parsing it found.
pub fn revise_module(
    buffer: &mut Vec<u8>,
    image: &ElfImage,
    required_vermagic: &str,
) -> (result: Result<(), ElfError>)
    ensures
        (final(buffer)@, result) == revised_module(
            old(buffer)@,
            image@,
            required_vermagic.spec_bytes(),
        ),
{
    let location = match locate_modinfo(image, buffer.len()) {
        Err(error) => {
            return Err(error);
        },
        Ok(location) => location,
    };
    move_modinfo(buffer, location, required_vermagic)
}

/// Gives a module the vermagic `required_vermagic`.
pub fn replace_module_vermagic(buffer: &mut Vec<u8>, required_vermagic: &str) -> (result: Result<
    (),
    VermagicError,
>)
    ensures
        is_faithful(old(buffer)@),
        match elf_image(old(buffer)@, usize::BITS) {
            Err(message) => {
                &&& final(buffer)@ == old(buffer)@
                &&& result matches Err(VermagicError::Parse(text)) && text@ == message
            },
            Ok(image) => {
                let (revised, outcome) = revised_module(
                    old(buffer)@,
                    image,
                    required_vermagic.spec_bytes(),
                );
                &&& final(buffer)@ == revised
                &&& match outcome {
                    Ok(()) => result is Ok,
                    Err(error) => result == Err::<(), VermagicError>(VermagicError::Layout(error)),
                }
            },
        },
{
    let image = match parse_elf(buffer.as_slice()) {
        Err(message) => {
            return Err(VermagicError::Parse(message));
        },
        Ok(image) => image,
    };
    match revise_module(buffer, &image, required_vermagic) {
        Err(error) => Err(VermagicError::Layout(error)),
        Ok(()) => Ok(()),
    }
}

/// After a successful replacement the section header, where it stands inside the
/// old file, leads to the new section: the offset and the size it holds delimit
/// exactly the new entries, the offset is aligned, and of the old file nothing but
/// those two words has changed.
pub proof fn law_header_leads_to_new_modinfo(
    buffer: Seq<u8>,
    location: ModinfoLocation,
    required: Seq<u8>,
)
    requires
        location.alignment >= 1,
        location.section_header_offset + SH_SIZE + 8 <= buffer.len(),
        moved_modinfo(buffer, location, required).1 is Ok,
        moved_modinfo(buffer, location, required).0.len() <= usize::MAX,
    ensures
        ({
            let new = moved_modinfo(buffer, location, required).0;
            let header = location.section_header_offset as int;
            let start = field(new, header + SH_OFFSET, 8, location.little_endian) as int;
            let size = field(new, header + SH_SIZE, 8, location.little_endian) as int;
            &&& start >= buffer.len()
            &&& start % location.alignment as int == 0
            &&& start + size == new.len()
            &&& new.subrange(start, start + size) == replaced_modinfo(
                buffer.subrange(location.offset as int, location.offset + location.size),
                required,
            )
            &&& forall|i: int|
                0 <= i < buffer.len() && !(header + SH_OFFSET <= i < header + SH_SIZE + 8)
                    ==> #[trigger] new[i] == buffer[i]
        }),
{
    let le = location.little_endian;
    let header = location.section_header_offset as int;
    let modinfo = replaced_modinfo(
        buffer.subrange(location.offset as int, location.offset + location.size),
        required,
    );
    law_aligned_is_least_multiple(buffer.len() as int, location.alignment as int, 0);
    let new_offset = aligned(buffer.len() as int, location.alignment as int)->Ok_0;
    let appended = grown(buffer, new_offset, modinfo);
    let moved = put_word(appended, header + SH_OFFSET, new_offset as nat, le)->Ok_0;
    let new = put_word(moved, header + SH_SIZE, modinfo.len(), le)->Ok_0;
    lemma_word_bytes_len(new_offset as nat, 8, le);
    lemma_word_bytes_len(modinfo.len(), 8, le);
    assert(appended.len() == new_offset + modinfo.len());
    assert(new.len() == appended.len());
    lemma_word_limit_8();
    law_word_read_back(new_offset as nat, 8, le);
    law_word_read_back(modinfo.len(), 8, le);
    assert(new.subrange(header + SH_OFFSET, header + SH_OFFSET + 8) =~= word_bytes(
        new_offset as nat,
        8,
        le,
    ));
    assert(new.subrange(header + SH_SIZE, header + SH_SIZE + 8) =~= word_bytes(
        modinfo.len(),
        8,
        le,
    ));
    assert(new.subrange(new_offset, new_offset + modinfo.len()) =~= modinfo);
}

proof fn lemma_word_limit_8()
    ensures
        usize::MAX < word_limit(8),
{
    reveal_with_fuel(word_limit, 9);
    assert(word_limit(8) == 0x1_0000_0000_0000_0000nat);
}

/// Where the section table has entries of the size its file class prescribes, the
/// replacement succeeds as soon as a `.modinfo` section is found inside the file
/// and the end of the file can be aligned for it; and the section header stands
/// inside the old file.
pub proof fn law_revision_succeeds(buffer: Seq<u8>, image: ElfView, required: Seq<u8>)
    requires
        buffer.len() <= usize::MAX,
        holds_section_table(buffer.len(), image),
        image.e_shentsize == section_header_len(image.is_64),
        located(image, buffer.len()) matches Ok(location) && aligned(
            buffer.len() as int,
            location.alignment as int,
        ) is Ok,
    ensures
        revised_module(buffer, image, required).1 is Ok,
        located(image, buffer.len())->Ok_0.section_header_offset + SH_SIZE + 8 <= buffer.len(),
{
    lemma_modinfo_index(image.sections, 0);
    let index = modinfo_index(image.sections, 0)->0;
    let location = located(image, buffer.len())->Ok_0;
    assert(index * 64 + 64 <= image.sections.len() * 64);
    law_aligned_is_least_multiple(buffer.len() as int, location.alignment as int, 0);
    let new_offset = aligned(buffer.len() as int, location.alignment as int)->Ok_0;
    lemma_word_bytes_len(new_offset as nat, 8, location.little_endian);
}

proof fn lemma_modinfo_index(sections: Seq<SectionView>, from: int)
    ensures
        modinfo_index(sections, from) matches Some(index) ==> from <= index < sections.len()
            && is_modinfo(sections[index]),
    decreases sections.len() - from,
{
    if 0 <= from < sections.len() && !is_modinfo(sections[from]) {
        lemma_modinfo_index(sections, from + 1);
    }
}

/// The section that a section header leads to.
pub open spec fn section_at(buffer: Seq<u8>, header: int, little_endian: bool) -> Seq<u8> {
    let start = field(buffer, header + SH_OFFSET, 8, little_endian) as int;
    let size = field(buffer, header + SH_SIZE, 8, little_endian) as int;
    buffer.subrange(start, start + size)
}

/// A module whose vermagic has been replaced names the required vermagic, once: the
/// section that its section header leads to holds that entry and no other of its
/// kind, and keeps the other entries in order.
pub proof fn law_revised_module_names_vermagic(buffer: Seq<u8>, image: ElfView, required: Seq<u8>)
    requires
        is_value(required),
        located(image, buffer.len()) matches Ok(location) && location.section_header_offset
            + SH_SIZE + 8 <= buffer.len(),
        revised_module(buffer, image, required).1 is Ok,
        revised_module(buffer, image, required).0.len() <= usize::MAX,
    ensures
        ({
            let revised = revised_module(buffer, image, required).0;
            let location = located(image, buffer.len())->Ok_0;
            let new = entries(
                section_at(
                    revised,
                    location.section_header_offset as int,
                    location.little_endian,
                ),
            );
            let old = entries(
                buffer.subrange(location.offset as int, location.offset + location.size),
            );
            &&& new.filter(|e: Seq<u8>| is_vermagic(e)) == seq![vermagic_entry(required)]
            &&& new.filter(|e: Seq<u8>| !is_vermagic(e)) == old.filter(
                |e: Seq<u8>| !is_vermagic(e),
            )
        }),
{
    let location = located(image, buffer.len())->Ok_0;
    law_header_leads_to_new_modinfo(buffer, location, required);
    law_one_vermagic(
        buffer.subrange(location.offset as int, location.offset + location.size),
        required,
    );
}

/// A parser that is shown a module whose vermagic has been replaced, and that finds
/// the `.modinfo` section under its old number, finds the new entries in it, as long
/// as the section header does not overlap the file header.
pub proof fn law_new_modinfo_is_located(
    buffer: Seq<u8>,
    image: ElfView,
    required: Seq<u8>,
    again: ElfView,
)
    requires
        holds_header(buffer, image),
        holds_sections(buffer, image),
        image.e_shentsize == section_header_len(image.is_64),
        located(image, buffer.len()) matches Ok(location) && location.section_header_offset
            + SH_OFFSET >= header_len(true),
        revised_module(buffer, image, required).1 is Ok,
        revised_module(buffer, image, required).0.len() <= usize::MAX,
        holds_header(revised_module(buffer, image, required).0, again),
        holds_sections(revised_module(buffer, image, required).0, again),
        modinfo_index(again.sections, 0) == modinfo_index(image.sections, 0),
    ensures
        ({
            let revised = revised_module(buffer, image, required).0;
            let old = located(image, buffer.len())->Ok_0;
            located(again, revised.len()) matches Ok(new) && {
                &&& revised.subrange(new.offset as int, new.offset + new.size) == replaced_modinfo(
                    buffer.subrange(old.offset as int, old.offset + old.size),
                    required,
                )
                &&& new.section_header_offset == old.section_header_offset
                &&& new.alignment == old.alignment
                &&& new.little_endian == old.little_endian
            }
        }),
{
    let revised = revised_module(buffer, image, required).0;
    let old = located(image, buffer.len())->Ok_0;
    let le = old.little_endian;
    let header = old.section_header_offset as int;
    lemma_modinfo_index(image.sections, 0);
    lemma_modinfo_index(again.sections, 0);
    let index = modinfo_index(image.sections, 0)->0;
    assert(index * 64 + 64 <= image.sections.len() * 64);
    assert(header == image.e_shoff + index * 64);
    law_header_leads_to_new_modinfo(buffer, old, required);
    assert(revised[4] == buffer[4]);
    assert(revised[5] == buffer[5]);
    assert(revised.subrange(0x28, 0x30) =~= buffer.subrange(0x28, 0x30));
    assert(revised.subrange(0x3a, 0x3c) =~= buffer.subrange(0x3a, 0x3c));
    assert(holds_section(buffer, image, index));
    assert(holds_section(revised, again, index));
    assert(revised.subrange(header + 0x30, header + 0x38) =~= buffer.subrange(
        header + 0x30,
        header + 0x38,
    ));
}

/// The section names, which stand inside the file, are apart from the words that change
/// where section `index` is moved, and so is the number of the sections.
pub open spec fn names_apart(buffer: Seq<u8>, image: ElfView, index: int) -> bool {
    let header = image.e_shoff + index * section_header_len(image.is_64);
    let n = names_index(buffer, image);
    let names = image.sections[n];
    &&& n < image.sections.len() && n != index
    &&& names.sh_offset + names.sh_size <= buffer.len()
    &&& names.sh_offset + names.sh_size <= header + SH_OFFSET || header + SH_SIZE + 8
        <= names.sh_offset
    &&& stored_count(buffer, image) != 0 || index != 0 && image.sections[0].sh_size <= usize::MAX
}

proof fn lemma_modinfo_index_of_names(a: Seq<SectionView>, b: Seq<SectionView>, from: int)
    requires
        a.len() == b.len(),
        forall|i: int| 0 <= i < a.len() ==> (#[trigger] a[i]).name == b[i].name,
    ensures
        modinfo_index(a, from) == modinfo_index(b, from),
    decreases a.len() - from,
{
    if 0 <= from < a.len() && !is_modinfo(a[from]) {
        lemma_modinfo_index_of_names(a, b, from + 1);
    }
}

/// Two 64-bit files that differ in nothing but where section `index` lies have the same
/// file header.
proof fn lemma_header_kept(
    buffer: Seq<u8>,
    image: ElfView,
    revised: Seq<u8>,
    again: ElfView,
    from: int,
    to: int,
)
    requires
        image.is_64,
        holds_header(buffer, image),
        holds_header(revised, again),
        buffer.len() <= revised.len(),
        header_len(true) <= from <= to,
        forall|i: int|
            0 <= i < buffer.len() && !(from <= i < to) ==> #[trigger] revised[i] == buffer[i],
    ensures
        again.is_64,
        again.little_endian == image.little_endian,
        again.e_shoff == image.e_shoff,
        again.e_shentsize == image.e_shentsize,
        field(revised, 0x3c, 2, image.little_endian) == field(buffer, 0x3c, 2, image.little_endian),
        field(revised, 0x3e, 2, image.little_endian) == field(buffer, 0x3e, 2, image.little_endian),
{
    let le = image.little_endian;
    assert(revised[4] == buffer[4]);
    assert(revised[5] == buffer[5]);
    lemma_field_kept(buffer, revised, from, to, 0x28, 8, le);
    lemma_field_kept(buffer, revised, from, to, 0x3a, 2, le);
    lemma_field_kept(buffer, revised, from, to, 0x3c, 2, le);
    lemma_field_kept(buffer, revised, from, to, 0x3e, 2, le);
}

/// Two 64-bit files that differ in nothing but where section `index` lies have as many
/// sections, and those have the same names, where the names are apart.
#[verifier::spinoff_prover]
#[verifier::rlimit(40)]
proof fn lemma_names_kept(
    buffer: Seq<u8>,
    image: ElfView,
    revised: Seq<u8>,
    again: ElfView,
    index: int,
)
    requires
        image.is_64,
        image.e_shoff <= usize::MAX,
        revised.len() <= usize::MAX,
        0 <= index < image.sections.len(),
        image.e_shoff + index * 64 + SH_OFFSET >= header_len(true),
        holds_header(buffer, image),
        holds_sections(buffer, image),
        holds_names(buffer, image),
        names_apart(buffer, image, index),
        holds_header(revised, again),
        holds_sections(revised, again),
        holds_names(revised, again),
        buffer.len() <= revised.len(),
        forall|i: int|
            0 <= i < buffer.len() && !(image.e_shoff + index * 64 + SH_OFFSET <= i < image.e_shoff
                + index * 64 + SH_SIZE + 8) ==> #[trigger] revised[i] == buffer[i],
    ensures
        again.sections.len() == image.sections.len(),
        forall|i: int|
            0 <= i < image.sections.len() ==> (#[trigger] image.sections[i]).name
                == again.sections[i].name,
{
    let le = image.little_endian;
    let table = image.e_shoff as int;
    let from = table + index * 64 + SH_OFFSET;
    let to = table + index * 64 + SH_SIZE + 8;
    let n = names_index(buffer, image);
    let count = image.sections.len() as int;
    lemma_header_kept(buffer, image, revised, again, from, to);
    assert(table + count * 64 <= buffer.len());
    lemma_field_kept(buffer, revised, from, to, table + 0x28, 4, le);
    assert(names_index(revised, again) == n);
    assert(again.sections.len() == count) by {
        assert(again.sections.len() > 0);
        assert(holds_section(buffer, image, 0));
        assert(holds_section(revised, again, 0));
        if index != 0 {
            lemma_field_kept(buffer, revised, from, to, table + 0x20, 8, le);
        }
        assert(image.sections.len() == section_count(buffer, image));
    }
    assert(section_bytes(revised, again, n) == section_bytes(buffer, image, n)
        && again.sections[n].sh_offset == image.sections[n].sh_offset && again.sections[n].sh_size
        == image.sections[n].sh_size) by {
        lemma_field_kept(buffer, revised, from, to, table + n * 64 + 0x18, 8, le);
        lemma_field_kept(buffer, revised, from, to, table + n * 64 + 0x20, 8, le);
        assert(holds_section(buffer, image, n));
        assert(holds_section(revised, again, n));
        assert(section_bytes(revised, again, n) =~= section_bytes(buffer, image, n));
    }
    assert forall|i: int| 0 <= i < count implies (#[trigger] image.sections[i]).name
        == again.sections[i].name by {
        lemma_field_kept(buffer, revised, from, to, table + i * 64, 4, le);
        assert(again.sections[i].name == string_at(
            section_bytes(revised, again, n),
            field(revised, table + i * 64, 4, le) as int,
        ));
    }
}

/// A parser that is shown a module whose vermagic has been replaced finds the
/// `.modinfo` section under its old number, as long as the section header overlaps
/// neither the file header nor the section names.
pub proof fn law_modinfo_keeps_its_number(
    buffer: Seq<u8>,
    image: ElfView,
    required: Seq<u8>,
    again: ElfView,
)
    requires
        holds_header(buffer, image),
        holds_sections(buffer, image),
        holds_names(buffer, image),
        image.e_shentsize == section_header_len(image.is_64),
        located(image, buffer.len()) matches Ok(location) && location.section_header_offset
            + SH_OFFSET >= header_len(true),
        names_apart(buffer, image, modinfo_index(image.sections, 0)->0),
        revised_module(buffer, image, required).1 is Ok,
        revised_module(buffer, image, required).0.len() <= usize::MAX,
        holds_header(revised_module(buffer, image, required).0, again),
        holds_sections(revised_module(buffer, image, required).0, again),
        holds_names(revised_module(buffer, image, required).0, again),
    ensures
        modinfo_index(again.sections, 0) == modinfo_index(image.sections, 0),
{
    let revised = revised_module(buffer, image, required).0;
    let old = located(image, buffer.len())->Ok_0;
    lemma_modinfo_index(image.sections, 0);
    let index = modinfo_index(image.sections, 0)->0;
    assert(index * 64 + 64 <= image.sections.len() * 64);
    law_header_leads_to_new_modinfo(buffer, old, required);
    lemma_names_kept(buffer, image, revised, again, index);
    lemma_modinfo_index_of_names(image.sections, again.sections, 0);
}

/// Of two replacements the later decides what the section header of the `.modinfo`
/// section leads to, and nothing of the earlier is left there, where the second finds
/// that section under its old number.
pub proof fn law_later_revision_decides(
    buffer: Seq<u8>,
    image: ElfView,
    first: Seq<u8>,
    again: ElfView,
    second: Seq<u8>,
)
    requires
        is_value(first),
        holds_header(buffer, image),
        holds_sections(buffer, image),
        image.e_shentsize == section_header_len(image.is_64),
        located(image, buffer.len()) matches Ok(location) && location.section_header_offset
            + SH_OFFSET >= header_len(true),
        revised_module(buffer, image, first).1 is Ok,
        revised_module(buffer, image, first).0.len() <= usize::MAX,
        holds_header(revised_module(buffer, image, first).0, again),
        holds_sections(revised_module(buffer, image, first).0, again),
        modinfo_index(again.sections, 0) == modinfo_index(image.sections, 0),
        revised_module(revised_module(buffer, image, first).0, again, second).1 is Ok,
        revised_module(revised_module(buffer, image, first).0, again, second).0.len()
            <= usize::MAX,
        revised_module(buffer, image, second).1 is Ok,
        revised_module(buffer, image, second).0.len() <= usize::MAX,
    ensures
        ({
            let once = revised_module(buffer, image, second).0;
            let twice = revised_module(
                revised_module(buffer, image, first).0,
                again,
                second,
            ).0;
            let location = located(image, buffer.len())->Ok_0;
            let header = location.section_header_offset as int;
            section_at(twice, header, location.little_endian) == section_at(
                once,
                header,
                location.little_endian,
            )
        }),
{
    let revised = revised_module(buffer, image, first).0;
    let old = located(image, buffer.len())->Ok_0;
    lemma_modinfo_index(image.sections, 0);
    let index = modinfo_index(image.sections, 0)->0;
    assert(index * 64 + 64 <= image.sections.len() * 64);
    law_header_leads_to_new_modinfo(buffer, old, first);
    law_new_modinfo_is_located(buffer, image, first, again);
    let new = located(again, revised.len())->Ok_0;
    law_header_leads_to_new_modinfo(buffer, old, second);
    law_header_leads_to_new_modinfo(revised, new, second);
    law_last_replacement_decides(
        buffer.subrange(old.offset as int, old.offset + old.size),
        first,
        second,
    );
}

/// Of two replacements the later decides what the section header of the `.modinfo`
/// section leads to, and nothing of the earlier is left there, as long as that header
/// overlaps neither the file header nor the section names.
pub proof fn law_last_revision_decides(
    buffer: Seq<u8>,
    image: ElfView,
    first: Seq<u8>,
    again: ElfView,
    second: Seq<u8>,
)
    requires
        is_value(first),
        holds_header(buffer, image),
        holds_sections(buffer, image),
        holds_names(buffer, image),
        image.e_shentsize == section_header_len(image.is_64),
        located(image, buffer.len()) matches Ok(location) && location.section_header_offset
            + SH_OFFSET >= header_len(true),
        names_apart(buffer, image, modinfo_index(image.sections, 0)->0),
        revised_module(buffer, image, first).1 is Ok,
        revised_module(buffer, image, first).0.len() <= usize::MAX,
        holds_header(revised_module(buffer, image, first).0, again),
        holds_sections(revised_module(buffer, image, first).0, again),
        holds_names(revised_module(buffer, image, first).0, again),
        revised_module(revised_module(buffer, image, first).0, again, second).1 is Ok,
        revised_module(revised_module(buffer, image, first).0, again, second).0.len()
            <= usize::MAX,
        revised_module(buffer, image, second).1 is Ok,
        revised_module(buffer, image, second).0.len() <= usize::MAX,
    ensures
        ({
            let once = revised_module(buffer, image, second).0;
            let twice = revised_module(
                revised_module(buffer, image, first).0,
                again,
                second,
            ).0;
            let location = located(image, buffer.len())->Ok_0;
            let header = location.section_header_offset as int;
            section_at(twice, header, location.little_endian) == section_at(
                once,
                header,
                location.little_endian,
            )
        }),
{
    law_modinfo_keeps_its_number(buffer, image, first, again);
    law_later_revision_decides(buffer, image, first, again, second);
}

/// The first section that is named `.modinfo` is located by what its header says, if and
/// only if the file is a 64-bit one and all of it is inside the file and the address
/// space; and each error says what is not.
pub proof fn law_first_modinfo_is_located(image: ElfView, len: nat, i: int)
    requires
        len <= usize::MAX,
        0 <= i < image.sections.len(),
        image.sections[i].name == Some(".modinfo"@),
        forall|j: int| 0 <= j < i ==> (#[trigger] image.sections[j]).name != Some(".modinfo"@),
    ensures
        ({
            let section = image.sections[i];
            let end = section.sh_offset + section.sh_size;
            let header = image.e_shoff + i * image.e_shentsize;
            let inside = image.is_64 && image.e_shoff <= usize::MAX;
            match located(image, len) {
                Ok(location) => {
                    &&& inside && end <= len && header <= usize::MAX
                    &&& location.offset == section.sh_offset
                    &&& location.size == section.sh_size
                    &&& location.section_header_offset == header
                    &&& location.alignment == if section.sh_addralign == 0 || section.sh_addralign
                        > usize::MAX {
                        1
                    } else {
                        section.sh_addralign as int
                    }
                    &&& location.little_endian == image.little_endian
                },
                Err(ElfError::NotElf64) => !image.is_64,
                Err(ElfError::SectionTableOffsetOverflow) => image.is_64 && image.e_shoff
                    > usize::MAX,
                Err(ElfError::ModinfoOffsetOverflow) => inside && section.sh_offset > usize::MAX,
                Err(ElfError::ModinfoSizeOverflow) => inside && section.sh_offset <= usize::MAX
                    && section.sh_size > usize::MAX,
                Err(ElfError::ModinfoRangeOverflow) => inside && section.sh_offset <= usize::MAX
                    && section.sh_size <= usize::MAX && end > usize::MAX,
                Err(ElfError::ModinfoOutsideBuffer) => inside && len < end <= usize::MAX,
                Err(ElfError::SectionIndexOverflow) => inside && end <= len && i
                    * image.e_shentsize > usize::MAX,
                Err(ElfError::SectionHeaderOffsetOverflow) => inside && end <= len && i
                    * image.e_shentsize <= usize::MAX < header,
                Err(_) => false,
            }
        }),
{
    lemma_modinfo_index_at(image.sections, 0, i);
    assert(i * image.e_shentsize >= 0) by (nonlinear_arith)
        requires
            i >= 0,
    ;
}

proof fn lemma_modinfo_index_at(sections: Seq<SectionView>, from: int, i: int)
    requires
        0 <= from <= i < sections.len(),
        sections[i].name == Some(".modinfo"@),
        forall|j: int| from <= j < i ==> (#[trigger] sections[j]).name != Some(".modinfo"@),
    ensures
        modinfo_index(sections, from) == Some(i),
    decreases i - from,
{
    if from < i {
        assert(sections[from].name != Some(".modinfo"@));
        lemma_modinfo_index_at(sections, from + 1, i);
    }
}

/// A module without a section that is named `.modinfo` is refused for that, unless it is
/// refused as a whole.
pub proof fn law_modinfo_is_needed(image: ElfView, len: nat)
    requires
        forall|j: int|
            0 <= j < image.sections.len() ==> (#[trigger] image.sections[j]).name != Some(
                ".modinfo"@,
            ),
    ensures
        located(image, len) == if !image.is_64 {
            Err::<ModinfoLocation, ElfError>(ElfError::NotElf64)
        } else if image.e_shoff > usize::MAX {
            Err::<ModinfoLocation, ElfError>(ElfError::SectionTableOffsetOverflow)
        } else {
            Err::<ModinfoLocation, ElfError>(ElfError::NoModinfo)
        },
{
    lemma_modinfo_index(image.sections, 0);
    if let Some(index) = modinfo_index(image.sections, 0) {
        assert(image.sections[index].name != Some(".modinfo"@));
    }
}

/// A module that cannot be located in is left alone, for the same reason; in any other the
/// section is moved.
pub proof fn law_located_modinfo_is_moved(buffer: Seq<u8>, image: ElfView, required: Seq<u8>)
    ensures
        match located(image, buffer.len()) {
            Err(error) => revised_module(buffer, image, required) == (
                buffer,
                Err::<(), ElfError>(error),
            ),
            Ok(location) => revised_module(buffer, image, required) == moved_modinfo(
                buffer,
                location,
                required,
            ),
        },
{
}

/// The byte that stands at `k` once zeros and the new section have been appended.
pub open spec fn appended_byte(buffer: Seq<u8>, start: int, modinfo: Seq<u8>, k: int) -> u8 {
    if k < buffer.len() {
        buffer[k]
    } else if k < start {
        0
    } else {
        modinfo[k - start]
    }
}

/// A moved section, byte by byte. Where the end of the file cannot be aligned, nothing
/// changes. Otherwise the file is followed by zeros up to the aligned offset and by the new
/// section, and in the section header, where that is inside, the offset and the size become
/// those of the new section. The rest stays as it was.
#[verifier::spinoff_prover]
#[verifier::rlimit(40)]
pub proof fn law_section_is_moved(buffer: Seq<u8>, location: ModinfoLocation, required: Seq<u8>)
    requires
        buffer.len() <= usize::MAX,
    ensures
        ({
            let (new, outcome) = moved_modinfo(buffer, location, required);
            let modinfo = replaced_modinfo(
                buffer.subrange(location.offset as int, location.offset + location.size),
                required,
            );
            let offset_word = location.section_header_offset + 0x18;
            let size_word = location.section_header_offset + 0x20;
            let le = location.little_endian;
            match aligned(buffer.len() as int, location.alignment as int) {
                Err(error) => new == buffer && outcome == Err::<(), ElfError>(error),
                Ok(start) => {
                    &&& new.len() == start + modinfo.len()
                    &&& outcome is Ok <==> size_word + 8 <= usize::MAX && size_word + 8
                        <= new.len()
                    &&& outcome matches Err(error) ==> if size_word > usize::MAX || size_word
                        <= new.len() && size_word + 8 > usize::MAX {
                        error == ElfError::WriteOverflow
                    } else {
                        error == ElfError::WriteOutsideBuffer
                    }
                    &&& forall|k: int|
                        0 <= k < new.len() && !(offset_word <= k < size_word + 8)
                            ==> #[trigger] new[k] == appended_byte(buffer, start, modinfo, k)
                    &&& outcome is Ok ==> forall|k: int|
                        offset_word <= k < size_word ==> (#[trigger] new[k]) as int == (start / pow(
                            256,
                            (if le {
                                k - offset_word
                            } else {
                                offset_word + 7 - k
                            }) as nat,
                        )) % 256
                    &&& outcome is Ok ==> forall|k: int|
                        size_word <= k < size_word + 8 ==> (#[trigger] new[k]) as int == (
                        modinfo.len() as int / pow(
                            256,
                            (if le {
                                k - size_word
                            } else {
                                size_word + 7 - k
                            }) as nat,
                        )) % 256
                },
            }
        }),
{
    let le = location.little_endian;
    let modinfo = replaced_modinfo(
        buffer.subrange(location.offset as int, location.offset + location.size),
        required,
    );
    if let Ok(start) = aligned(buffer.len() as int, location.alignment as int) {
        law_aligned_is_least_multiple(buffer.len() as int, location.alignment as int, 0);
        let appended = grown(buffer, start, modinfo);
        assert(appended.len() == start + modinfo.len());
        let offset_word = location.section_header_offset + SH_OFFSET;
        let size_word = location.section_header_offset + SH_SIZE;
        law_word_is_stored(appended, offset_word, start as nat, le);
        if let Ok(moved) = put_word(appended, offset_word, start as nat, le) {
            law_word_is_stored(moved, size_word, modinfo.len(), le);
        }
    }
}

} // verus!
