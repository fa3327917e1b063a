//! What the loader reads of an ELF module, and the one record it writes back: a
//! symbol table entry.

use scroll::Pwrite;
use vstd::prelude::*;

use crate::modinfo::is_terminator;
use crate::text::{run_len, utf8_text};
use crate::words::{
    law_word_read_back, law_word_stored_back, lemma_word_bytes_len, word_bytes, word_limit,
    word_value,
};

verus! {

/// The section index of an undefined symbol.
pub const SHN_UNDEF: usize = 0;

/// The section index of a symbol whose value is an absolute address.
pub const SHN_ABS: usize = 0xfff1;

/// The type of a section that is a symbol table.
pub const SHT_SYMTAB: u32 = 2;

/// An entry of the symbol table.
#[derive(Debug, Clone, Copy, PartialEq, Eq, Structural)]
pub struct SymbolRecord {
    pub st_name: usize,
    pub st_info: u8,
    pub st_other: u8,
    pub st_shndx: usize,
    pub st_value: u64,
    pub st_size: u64,
}

/// A symbol table entry with the name that the string table gives it, if any.
#[derive(Debug)]
pub struct SymbolInfo {
    pub name: Option<String>,
    pub record: SymbolRecord,
}

/// A section with the name that the string table gives it, if any.
#[derive(Debug)]
pub struct SectionInfo {
    pub name: Option<String>,
    pub sh_offset: u64,
    pub sh_size: u64,
    pub sh_addralign: u64,
}

/// The parts of an ELF file that the loader reads.
#[derive(Debug)]
pub struct ElfImage {
    /// Whether the file is a 64-bit one.
    pub is_64: bool,
    /// Whether words are stored least significant byte first.
    pub little_endian: bool,
    /// Where the section table starts.
    pub e_shoff: u64,
    /// How long the file says that an entry of the section table is.
    pub e_shentsize: u16,
    /// The sections, in the order of the section table.
    pub sections: Vec<SectionInfo>,
    /// Where the symbol table starts.
    pub symtab_offset: usize,
    /// The symbols, in the order of the symbol table.
    pub symbols: Vec<SymbolInfo>,
}

/// The contents of a `SymbolInfo`.
pub struct SymbolView {
    pub name: Option<Seq<char>>,
    pub record: SymbolRecord,
}

/// The contents of a `SectionInfo`.
pub struct SectionView {
    pub name: Option<Seq<char>>,
    pub sh_offset: u64,
    pub sh_size: u64,
    pub sh_addralign: u64,
}

/// The contents of an `ElfImage`.
pub struct ElfView {
    pub is_64: bool,
    pub little_endian: bool,
    pub e_shoff: u64,
    pub e_shentsize: u16,
    pub sections: Seq<SectionView>,
    pub symtab_offset: usize,
    pub symbols: Seq<SymbolView>,
}

impl View for SymbolInfo {
    type V = SymbolView;

    open spec fn view(&self) -> SymbolView {
        SymbolView {
            name: match self.name {
                Some(name) => Some(name@),
                None => None,
            },
            record: self.record,
        }
    }
}

impl View for SectionInfo {
    type V = SectionView;

    open spec fn view(&self) -> SectionView {
        SectionView {
            name: match self.name {
                Some(name) => Some(name@),
                None => None,
            },
            sh_offset: self.sh_offset,
            sh_size: self.sh_size,
            sh_addralign: self.sh_addralign,
        }
    }
}

impl View for ElfImage {
    type V = ElfView;

    open spec fn view(&self) -> ElfView {
        ElfView {
            is_64: self.is_64,
            little_endian: self.little_endian,
            e_shoff: self.e_shoff,
            e_shentsize: self.e_shentsize,
            sections: Seq::new(self.sections@.len(), |i: int| self.sections@[i]@),
            symtab_offset: self.symtab_offset,
            symbols: Seq::new(self.symbols@.len(), |i: int| self.symbols@[i]@),
        }
    }
}

/// The length of a symbol table entry.
pub open spec fn symbol_len(is_64: bool) -> nat {
    if is_64 {
        24
    } else {
        16
    }
}

/// The length of an entry of the section table.
pub open spec fn section_header_len(is_64: bool) -> nat {
    if is_64 {
        64
    } else {
        40
    }
}

/// The bytes of a symbol table entry. Each field keeps as many low-order bytes as
/// the entry has room for.
pub open spec fn encode_symbol(record: SymbolRecord, is_64: bool, little_endian: bool) -> Seq<u8> {
    let name = word_bytes(record.st_name as nat, 4, little_endian);
    let kind = seq![record.st_info, record.st_other];
    let section = word_bytes(record.st_shndx as nat, 2, little_endian);
    if is_64 {
        name + kind + section + word_bytes(record.st_value as nat, 8, little_endian) + word_bytes(
            record.st_size as nat,
            8,
            little_endian,
        )
    } else {
        name + word_bytes(record.st_value as nat, 4, little_endian) + word_bytes(
            record.st_size as nat,
            4,
            little_endian,
        ) + kind + section
    }
}

/// The symbol table entry that some bytes hold.
pub open spec fn decode_symbol(bytes: Seq<u8>, is_64: bool, little_endian: bool) -> SymbolRecord {
    if is_64 {
        SymbolRecord {
            st_name: word_value(bytes.subrange(0, 4), little_endian) as usize,
            st_info: bytes[4],
            st_other: bytes[5],
            st_shndx: word_value(bytes.subrange(6, 8), little_endian) as usize,
            st_value: word_value(bytes.subrange(8, 16), little_endian) as u64,
            st_size: word_value(bytes.subrange(16, 24), little_endian) as u64,
        }
    } else {
        SymbolRecord {
            st_name: word_value(bytes.subrange(0, 4), little_endian) as usize,
            st_value: word_value(bytes.subrange(4, 8), little_endian) as u64,
            st_size: word_value(bytes.subrange(8, 12), little_endian) as u64,
            st_info: bytes[12],
            st_other: bytes[13],
            st_shndx: word_value(bytes.subrange(14, 16), little_endian) as usize,
        }
    }
}

/// Where the entry of symbol `index` starts.
pub open spec fn symbol_offset(image: ElfView, index: int) -> int {
    image.symtab_offset + index * symbol_len(image.is_64)
}

/// The symbols of `image` are those stored in its symbol table in `bytes`.
pub open spec fn holds_symbols(bytes: Seq<u8>, image: ElfView) -> bool {
    &&& symbol_offset(image, image.symbols.len() as int) <= bytes.len()
    &&& forall|i: int|
        0 <= i < image.symbols.len() ==> (#[trigger] image.symbols[i]).record == decode_symbol(
            bytes.subrange(
                symbol_offset(image, i),
                symbol_offset(image, i) + symbol_len(image.is_64),
            ),
            image.is_64,
            image.little_endian,
        )
}

/// The section table of `image`, where it starts inside the address space, ends
/// inside the file.
pub open spec fn holds_section_table(len: nat, image: ElfView) -> bool {
    image.sections.len() > 0 && image.e_shoff <= usize::MAX ==> image.e_shoff
        + image.sections.len() * section_header_len(image.is_64) <= len
}

/// The length of the file header.
pub open spec fn header_len(is_64: bool) -> nat {
    if is_64 {
        64
    } else {
        52
    }
}

/// The number that stands in the `width` bytes at `offset`.
pub open spec fn field(bytes: Seq<u8>, offset: int, width: int, little_endian: bool) -> nat {
    word_value(bytes.subrange(offset, offset + width), little_endian)
}

/// What `image` says of the file as a whole stands in the file header.
pub open spec fn holds_header(bytes: Seq<u8>, image: ElfView) -> bool {
    let le = image.little_endian;
    &&& header_len(image.is_64) <= bytes.len()
    &&& image.is_64 <==> bytes[4] == 2
    &&& le <==> bytes[5] == 1
    &&& if image.is_64 {
        &&& image.e_shoff == field(bytes, 0x28, 8, le)
        &&& image.e_shentsize == field(bytes, 0x3a, 2, le)
    } else {
        &&& image.e_shoff == field(bytes, 0x20, 4, le)
        &&& image.e_shentsize == field(bytes, 0x2e, 2, le)
    }
}

/// What `image` says of section `i` stands in its entry of the section table.
pub open spec fn holds_section(bytes: Seq<u8>, image: ElfView, i: int) -> bool {
    let le = image.little_endian;
    let at = image.e_shoff + i * section_header_len(image.is_64);
    let section = image.sections[i];
    if image.is_64 {
        &&& section.sh_offset == field(bytes, at + 0x18, 8, le)
        &&& section.sh_size == field(bytes, at + 0x20, 8, le)
        &&& section.sh_addralign == field(bytes, at + 0x30, 8, le)
    } else {
        &&& section.sh_offset == field(bytes, at + 0x10, 4, le)
        &&& section.sh_size == field(bytes, at + 0x14, 4, le)
        &&& section.sh_addralign == field(bytes, at + 0x20, 4, le)
    }
}

/// The sections of `image`, where the section table starts inside the address
/// space, are those stored in the section table, which ends inside the file.
pub open spec fn holds_sections(bytes: Seq<u8>, image: ElfView) -> bool {
    &&& holds_section_table(bytes.len(), image)
    &&& image.e_shoff <= usize::MAX ==> forall|i: int|
        0 <= i < image.sections.len() ==> #[trigger] holds_section(bytes, image, i)
}

/// The number of sections that stands in the file header.
pub open spec fn stored_count(bytes: Seq<u8>, image: ElfView) -> nat {
    field(
        bytes,
        if image.is_64 {
            0x3c
        } else {
            0x30
        },
        2,
        image.little_endian,
    )
}

/// The number of sections. There are none where there is no section table, and their
/// number is the size of the first section where it does not stand in the file header.
pub open spec fn section_count(bytes: Seq<u8>, image: ElfView) -> int {
    if image.e_shoff == 0 {
        0
    } else if stored_count(bytes, image) != 0 {
        stored_count(bytes, image) as int
    } else if image.sections[0].sh_size == 0 {
        1
    } else {
        image.sections[0].sh_size as int
    }
}

/// Where the entry of section `i` starts.
pub open spec fn entry_offset(image: ElfView, i: int) -> int {
    image.e_shoff + i * section_header_len(image.is_64)
}

/// The type of section `i`.
pub open spec fn section_kind(bytes: Seq<u8>, image: ElfView, i: int) -> nat {
    field(bytes, entry_offset(image, i) + 4, 4, image.little_endian)
}

/// The number of the section that section `i` is linked to.
pub open spec fn section_link(bytes: Seq<u8>, image: ElfView, i: int) -> nat {
    if image.is_64 {
        field(bytes, entry_offset(image, i) + 0x28, 4, image.little_endian)
    } else {
        field(bytes, entry_offset(image, i) + 0x18, 4, image.little_endian)
    }
}

/// How long section `i` says that its entries are.
pub open spec fn section_entry_len(bytes: Seq<u8>, image: ElfView, i: int) -> nat {
    if image.is_64 {
        field(bytes, entry_offset(image, i) + 0x38, 8, image.little_endian)
    } else {
        field(bytes, entry_offset(image, i) + 0x24, 4, image.little_endian)
    }
}

/// The number of the string table that goes by the number `stored`. One that does not
/// fit where it is stored stands in the first section instead.
pub open spec fn table_index(bytes: Seq<u8>, image: ElfView, stored: nat) -> int {
    if stored == 0xffff {
        section_link(bytes, image, 0) as int
    } else {
        stored as int
    }
}

/// The number of the section that holds the section names.
pub open spec fn names_index(bytes: Seq<u8>, image: ElfView) -> int {
    table_index(
        bytes,
        image,
        field(
            bytes,
            if image.is_64 {
                0x3e
            } else {
                0x32
            },
            2,
            image.little_endian,
        ),
    )
}

/// The last of the first `n` sections that is a symbol table.
pub open spec fn symtab_index(bytes: Seq<u8>, image: ElfView, n: int) -> Option<int>
    decreases n,
{
    if n <= 0 {
        None
    } else if section_kind(bytes, image, n - 1) == SHT_SYMTAB {
        Some(n - 1)
    } else {
        symtab_index(bytes, image, n - 1)
    }
}

/// The string that stands at `offset` in a table of zero-terminated strings.
pub open spec fn string_at(table: Seq<u8>, offset: int) -> Option<Seq<char>> {
    if 0 <= offset < table.len() {
        let rest = table.skip(offset);
        utf8_text(rest.take(run_len(rest, is_terminator()) as int))
    } else if offset == table.len() && table.len() > 0 && table.last() != 0 {
        Some(Seq::empty())
    } else {
        None
    }
}

/// The bytes of section `i`.
pub open spec fn section_bytes(bytes: Seq<u8>, image: ElfView, i: int) -> Seq<u8> {
    let section = image.sections[i];
    bytes.subrange(section.sh_offset as int, section.sh_offset + section.sh_size)
}

/// There are as many sections as the file says, and their names stand in the section
/// that holds the section names, as far as all of these are inside the address space.
pub open spec fn holds_names(bytes: Seq<u8>, image: ElfView) -> bool {
    let n = names_index(bytes, image);
    image.e_shoff <= usize::MAX ==> {
        &&& image.e_shoff > 0 <==> image.sections.len() > 0
        &&& stored_count(bytes, image) != 0 || image.sections[0].sh_size <= usize::MAX
            ==> image.sections.len() == section_count(bytes, image)
        &&& n < image.sections.len() && image.sections[n].sh_offset <= usize::MAX
            && image.sections[n].sh_size <= usize::MAX ==> {
            &&& image.sections[n].sh_offset + image.sections[n].sh_size <= bytes.len()
            &&& forall|i: int|
                0 <= i < image.sections.len() ==> (#[trigger] image.sections[i]).name == string_at(
                    section_bytes(bytes, image, n),
                    field(
                        bytes,
                        image.e_shoff + i * section_header_len(image.is_64),
                        4,
                        image.little_endian,
                    ) as int,
                )
        }
        &&& n >= image.sections.len() ==> forall|i: int|
            0 <= i < image.sections.len() ==> (#[trigger] image.sections[i]).name is None
    }
}

/// The symbols are those of the last symbol table, and their names stand in the string
/// table that it is linked to, as far as all of these are inside the address space.
pub open spec fn holds_symtab(bytes: Seq<u8>, image: ElfView) -> bool {
    image.e_shoff <= usize::MAX ==> match symtab_index(
        bytes,
        image,
        image.sections.len() as int,
    ) {
        None => image.symbols.len() == 0 && image.symtab_offset == 0,
        Some(t) => {
            let n = table_index(bytes, image, section_link(bytes, image, t));
            let len = section_entry_len(bytes, image, t);
            &&& image.sections[t].sh_offset <= usize::MAX ==> image.symtab_offset
                == image.sections[t].sh_offset
            &&& image.symbols.len() == if len == 0 {
                0
            } else {
                image.sections[t].sh_size as nat / len
            }
            &&& n < image.sections.len() && image.sections[n].sh_offset <= usize::MAX
                && image.sections[n].sh_size <= usize::MAX ==> {
                &&& image.sections[n].sh_offset + image.sections[n].sh_size <= bytes.len()
                &&& forall|i: int|
                    0 <= i < image.symbols.len() ==> (#[trigger] image.symbols[i]).name
                        == string_at(
                        section_bytes(bytes, image, n),
                        image.symbols[i].record.st_name as int,
                    )
            }
            &&& n >= image.sections.len() ==> forall|i: int|
                0 <= i < image.symbols.len() ==> (#[trigger] image.symbols[i]).name is None
        },
    }
}

/// What parsing a file gives: its contents, or the text of the error.
pub open spec fn parse_view(result: Result<ElfImage, String>) -> Result<ElfView, Seq<char>> {
    match result {
        Ok(image) => Ok(image@),
        Err(message) => Err(message@),
    }
}

/// A section as the loader keeps it.
fn section_info(name: Option<&str>, sh_offset: u64, sh_size: u64, sh_addralign: u64) -> (section:
    SectionInfo)
    ensures
        section@ == (SectionView {
            name: match name {
                Some(name) => Some(name@),
                None => None,
            },
            sh_offset,
            sh_size,
            sh_addralign,
        }),
{
    let name = match name {
        Some(name) => Some(name.to_owned()),
        None => None,
    };
    SectionInfo { name, sh_offset, sh_size, sh_addralign }
}

/// A symbol as the loader keeps it.
fn symbol_info(name: Option<&str>, record: SymbolRecord) -> (symbol: SymbolInfo)
    ensures
        symbol@ == (SymbolView {
            name: match name {
                Some(name) => Some(name@),
                None => None,
            },
            record,
        }),
{
    let name = match name {
        Some(name) => Some(name.to_owned()),
        None => None,
    };
    SymbolInfo { name, record }
}

/// What `goblin::elf::Elf::parse` finds in a file, or the text of its error, on a
/// machine with pointers of `pointer_bits` bits.
pub uninterp spec fn elf_image(bytes: Seq<u8>, pointer_bits: u32) -> Result<ElfView, Seq<char>>;

/// What is found in a file, where it is accepted, is what the file holds.
pub open spec fn is_faithful(bytes: Seq<u8>) -> bool {
    elf_image(bytes, usize::BITS) matches Ok(image) ==> {
        &&& holds_header(bytes, image)
        &&& holds_sections(bytes, image)
        &&& holds_names(bytes, image)
        &&& holds_symtab(bytes, image)
        &&& holds_symbols(bytes, image)
    }
}

/// Parses an ELF file with `goblin::elf::Elf::parse`.
///
/// Taken on trust: what is found, and the text of the error where the file is
/// rejected, depend on the bytes and the pointer width alone; the entries of the
/// symbol table and of the section table lie inside the file; the symbol table is the
/// last section of its type; and what is said of the file, of its sections and of its
/// symbols is what the file header, the entries of the two tables and their string
/// tables hold. Which files are accepted is left to the outside parser.
#[verifier::external_body]
pub(crate) fn parse_elf(bytes: &[u8]) -> (result: Result<ElfImage, String>)
    ensures
        parse_view(result) == elf_image(bytes@, usize::BITS),
        result matches Ok(image) ==> holds_header(bytes@, image@),
        result matches Ok(image) ==> holds_sections(bytes@, image@),
        result matches Ok(image) ==> holds_names(bytes@, image@),
        result matches Ok(image) ==> holds_symtab(bytes@, image@),
        result matches Ok(image) ==> holds_symbols(bytes@, image@),
{
    let elf = goblin::elf::Elf::parse(bytes).map_err(|e| e.to_string())?;
    let sections = elf.section_headers.iter().map(|s|
        section_info(elf.shdr_strtab.get_at(s.sh_name), s.sh_offset, s.sh_size, s.sh_addralign));
    let symbols = elf.syms.iter().map(|s| symbol_info(elf.strtab.get_at(s.st_name), SymbolRecord {
        st_name: s.st_name, st_info: s.st_info, st_other: s.st_other,
        st_shndx: s.st_shndx, st_value: s.st_value, st_size: s.st_size }));
    Ok(ElfImage { is_64: elf.is_64, little_endian: elf.little_endian,
        e_shoff: elf.header.e_shoff, e_shentsize: elf.header.e_shentsize,
        sections: sections.collect(), symtab_offset: elf.syms.offset(),
        symbols: symbols.collect() })
}

/// Writes a symbol table entry with `scroll::Pwrite::pwrite_with`, as the entry
/// type of `goblin` lays it out.
///
/// Taken on trust: an entry that has room at `offset` is stored there, and nothing
/// else changes.
#[verifier::external_body]
pub(crate) fn write_symbol(
    buffer: &mut Vec<u8>,
    record: SymbolRecord,
    offset: usize,
    is_64: bool,
    little_endian: bool,
) -> (result: Result<(), String>)
    requires
        offset + symbol_len(is_64) <= old(buffer)@.len(),
    ensures
        result is Ok,
        final(buffer)@ == old(buffer)@.update_subrange_with(
            offset as int,
            encode_symbol(record, is_64, little_endian),
        ),
{
    let sym = goblin::elf::sym::Sym { st_name: record.st_name, st_info: record.st_info,
        st_other: record.st_other, st_shndx: record.st_shndx,
        st_value: record.st_value, st_size: record.st_size };
    let container = match is_64 {
        true => goblin::container::Container::Big,
        false => goblin::container::Container::Little,
    };
    let ctx = goblin::container::Ctx::new(container, scroll::Endian::from(little_endian));
    buffer.pwrite_with(sym, offset, ctx).map(|_| ()).map_err(|e| e.to_string())
}

/// Whether every field of an entry fits in the room that the file class gives it.
pub open spec fn fits(record: SymbolRecord, is_64: bool) -> bool {
    &&& record.st_name <= u32::MAX
    &&& record.st_shndx <= u16::MAX
    &&& is_64 || record.st_value <= u32::MAX
    &&& is_64 || record.st_size <= u32::MAX
}

proof fn lemma_word_limits()
    ensures
        word_limit(2) == 0x1_0000,
        word_limit(4) == 0x1_0000_0000,
        word_limit(8) == 0x1_0000_0000_0000_0000,
{
    reveal_with_fuel(word_limit, 9);
}

/// Where two files agree, a field stands in both.
pub proof fn lemma_field_kept(
    before: Seq<u8>,
    after: Seq<u8>,
    from: int,
    to: int,
    offset: int,
    width: int,
    little_endian: bool,
)
    requires
        forall|i: int|
            0 <= i < before.len() && !(from <= i < to) ==> #[trigger] after[i] == before[i],
        before.len() <= after.len(),
        0 <= offset,
        0 <= width,
        offset + width <= before.len(),
        offset + width <= from || to <= offset,
    ensures
        field(after, offset, width, little_endian) == field(before, offset, width, little_endian),
{
    assert(after.subrange(offset, offset + width) =~= before.subrange(offset, offset + width));
}

/// A symbol table entry is as long as the file class prescribes.
pub proof fn lemma_encode_symbol_len(record: SymbolRecord, is_64: bool, little_endian: bool)
    ensures
        encode_symbol(record, is_64, little_endian).len() == symbol_len(is_64),
{
    broadcast use lemma_word_bytes_len;

}

/// A symbol table entry whose fields fit is read back from its bytes.
pub proof fn law_symbol_read_back(record: SymbolRecord, is_64: bool, little_endian: bool)
    requires
        fits(record, is_64),
    ensures
        decode_symbol(encode_symbol(record, is_64, little_endian), is_64, little_endian) == record,
{
    broadcast use lemma_word_bytes_len;

    let le = little_endian;
    let bytes = encode_symbol(record, is_64, le);
    let wide: nat = if is_64 {
        8
    } else {
        4
    };
    lemma_word_limits();
    law_word_read_back(record.st_name as nat, 4, le);
    law_word_read_back(record.st_shndx as nat, 2, le);
    law_word_read_back(record.st_value as nat, wide, le);
    law_word_read_back(record.st_size as nat, wide, le);
    assert(bytes.subrange(0, 4) =~= word_bytes(record.st_name as nat, 4, le));
    if is_64 {
        assert(bytes.subrange(6, 8) =~= word_bytes(record.st_shndx as nat, 2, le));
        assert(bytes.subrange(8, 16) =~= word_bytes(record.st_value as nat, 8, le));
        assert(bytes.subrange(16, 24) =~= word_bytes(record.st_size as nat, 8, le));
    } else {
        assert(bytes.subrange(4, 8) =~= word_bytes(record.st_value as nat, 4, le));
        assert(bytes.subrange(8, 12) =~= word_bytes(record.st_size as nat, 4, le));
        assert(bytes.subrange(14, 16) =~= word_bytes(record.st_shndx as nat, 2, le));
    }
}

/// Storing the symbol table entry that some bytes hold gives those bytes again.
pub proof fn law_symbol_stored_back(bytes: Seq<u8>, is_64: bool, little_endian: bool)
    requires
        bytes.len() == symbol_len(is_64),
    ensures
        encode_symbol(decode_symbol(bytes, is_64, little_endian), is_64, little_endian) == bytes,
        fits(decode_symbol(bytes, is_64, little_endian), is_64),
{
    broadcast use lemma_word_bytes_len;

    let le = little_endian;
    lemma_word_limits();
    law_word_stored_back(bytes.subrange(0, 4), le);
    if is_64 {
        law_word_stored_back(bytes.subrange(6, 8), le);
        law_word_stored_back(bytes.subrange(8, 16), le);
        law_word_stored_back(bytes.subrange(16, 24), le);
    } else {
        law_word_stored_back(bytes.subrange(4, 8), le);
        law_word_stored_back(bytes.subrange(8, 12), le);
        law_word_stored_back(bytes.subrange(14, 16), le);
    }
    assert(encode_symbol(decode_symbol(bytes, is_64, le), is_64, le) =~= bytes);
}

/// Each field of a symbol table entry stands at its place, with as many of its low-order
/// bytes as there is room for.
pub proof fn law_symbol_layout(record: SymbolRecord, little_endian: bool)
    ensures
        ({
            let le = little_endian;
            let wide = encode_symbol(record, true, le);
            &&& wide.len() == 24
            &&& wide.subrange(0, 4) == word_bytes(record.st_name as nat, 4, le)
            &&& wide[4] == record.st_info
            &&& wide[5] == record.st_other
            &&& wide.subrange(6, 8) == word_bytes(record.st_shndx as nat, 2, le)
            &&& wide.subrange(8, 16) == word_bytes(record.st_value as nat, 8, le)
            &&& wide.subrange(16, 24) == word_bytes(record.st_size as nat, 8, le)
        }),
        ({
            let le = little_endian;
            let narrow = encode_symbol(record, false, le);
            &&& narrow.len() == 16
            &&& narrow.subrange(0, 4) == word_bytes(record.st_name as nat, 4, le)
            &&& narrow.subrange(4, 8) == word_bytes(record.st_value as nat, 4, le)
            &&& narrow.subrange(8, 12) == word_bytes(record.st_size as nat, 4, le)
            &&& narrow[12] == record.st_info
            &&& narrow[13] == record.st_other
            &&& narrow.subrange(14, 16) == word_bytes(record.st_shndx as nat, 2, le)
        }),
{
    broadcast use lemma_word_bytes_len;

    let le = little_endian;
    let wide = encode_symbol(record, true, le);
    let narrow = encode_symbol(record, false, le);
    assert(wide.subrange(0, 4) =~= word_bytes(record.st_name as nat, 4, le));
    assert(wide.subrange(6, 8) =~= word_bytes(record.st_shndx as nat, 2, le));
    assert(wide.subrange(8, 16) =~= word_bytes(record.st_value as nat, 8, le));
    assert(wide.subrange(16, 24) =~= word_bytes(record.st_size as nat, 8, le));
    assert(narrow.subrange(0, 4) =~= word_bytes(record.st_name as nat, 4, le));
    assert(narrow.subrange(4, 8) =~= word_bytes(record.st_value as nat, 4, le));
    assert(narrow.subrange(8, 12) =~= word_bytes(record.st_size as nat, 4, le));
    assert(narrow.subrange(14, 16) =~= word_bytes(record.st_shndx as nat, 2, le));
}

} // verus!
