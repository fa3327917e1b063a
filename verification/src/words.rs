//! Fixed-width words in either byte order, and the two layout primitives the
//! module patcher is built from: rounding an offset up to an alignment, and
//! storing a 64-bit word in a byte buffer.

use vstd::arithmetic::power::pow;
use vstd::arithmetic::power2::is_pow2;
use vstd::prelude::*;
use vstd::string::StringExecFns;

use crate::text::{decimal, decimal_text};

verus! {

/// Why a position in an ELF file cannot be computed or written.
#[derive(Debug, Clone, Copy, PartialEq, Eq, Structural)]
pub enum ElfError {
    /// The module is not a 64-bit ELF file.
    NotElf64,
    /// The section table starts beyond the address space.
    SectionTableOffsetOverflow,
    /// The `.modinfo` section starts beyond the address space.
    ModinfoOffsetOverflow,
    /// The `.modinfo` section is larger than the address space.
    ModinfoSizeOverflow,
    /// The `.modinfo` section ends beyond the address space.
    ModinfoRangeOverflow,
    /// The `.modinfo` section ends behind the module.
    ModinfoOutsideBuffer,
    /// The distance into the section table overflows.
    SectionIndexOverflow,
    /// The position of the section header overflows.
    SectionHeaderOffsetOverflow,
    /// No section is named `.modinfo`.
    NoModinfo,
    /// An alignment is not a power of two.
    InvalidAlignment(usize),
    /// An aligned offset lies beyond the address space.
    AlignmentOverflow,
    /// A word would end beyond the address space.
    WriteOverflow,
    /// A word would end behind the buffer.
    WriteOutsideBuffer,
}

impl ElfError {
    /// What the error says.
    pub open spec fn text(self) -> Seq<char> {
        match self {
            ElfError::NotElf64 => "Only ELF64 modules are supported"@,
            ElfError::SectionTableOffsetOverflow => "Section table offset overflow"@,
            ElfError::ModinfoOffsetOverflow => ".modinfo offset overflow"@,
            ElfError::ModinfoSizeOverflow => ".modinfo size overflow"@,
            ElfError::ModinfoRangeOverflow => ".modinfo range overflow"@,
            ElfError::ModinfoOutsideBuffer => ".modinfo is outside module buffer"@,
            ElfError::SectionIndexOverflow => "Section index overflow"@,
            ElfError::SectionHeaderOffsetOverflow => "Section header offset overflow"@,
            ElfError::NoModinfo => "Module has no .modinfo section"@,
            ElfError::InvalidAlignment(alignment) => "Invalid ELF alignment: "@ + decimal(
                alignment as nat,
            ),
            ElfError::AlignmentOverflow => "ELF alignment overflow"@,
            ElfError::WriteOverflow => "ELF write overflow"@,
            ElfError::WriteOutsideBuffer => "ELF write outside module buffer"@,
        }
    }

    /// What the error says.
    pub fn message(self) -> (message: String)
        ensures
            message@ == self.text(),
    {
        match self {
            ElfError::NotElf64 => "Only ELF64 modules are supported".to_owned(),
            ElfError::SectionTableOffsetOverflow => "Section table offset overflow".to_owned(),
            ElfError::ModinfoOffsetOverflow => ".modinfo offset overflow".to_owned(),
            ElfError::ModinfoSizeOverflow => ".modinfo size overflow".to_owned(),
            ElfError::ModinfoRangeOverflow => ".modinfo range overflow".to_owned(),
            ElfError::ModinfoOutsideBuffer => ".modinfo is outside module buffer".to_owned(),
            ElfError::SectionIndexOverflow => "Section index overflow".to_owned(),
            ElfError::SectionHeaderOffsetOverflow => "Section header offset overflow".to_owned(),
            ElfError::NoModinfo => "Module has no .modinfo section".to_owned(),
            ElfError::InvalidAlignment(alignment) => {
                let mut message = "Invalid ELF alignment: ".to_owned();
                message.append(decimal_text(alignment).as_str());
                message
            },
            ElfError::AlignmentOverflow => "ELF alignment overflow".to_owned(),
            ElfError::WriteOverflow => "ELF write overflow".to_owned(),
            ElfError::WriteOutsideBuffer => "ELF write outside module buffer".to_owned(),
        }
    }
}

/// The `width` low-order bytes of `value`, least significant byte first.
pub open spec fn le_bytes(value: nat, width: nat) -> Seq<u8>
    decreases width,
{
    if width == 0 {
        Seq::empty()
    } else {
        seq![(value % 256) as u8] + le_bytes(value / 256, (width - 1) as nat)
    }
}

/// The number whose bytes are `bytes`, least significant byte first.
pub open spec fn le_value(bytes: Seq<u8>) -> nat
    decreases bytes.len(),
{
    if bytes.len() == 0 {
        0
    } else {
        bytes[0] as nat + 256 * le_value(bytes.drop_first())
    }
}

/// The `width` low-order bytes of `value` in the given byte order.
pub open spec fn word_bytes(value: nat, width: nat, little_endian: bool) -> Seq<u8> {
    if little_endian {
        le_bytes(value, width)
    } else {
        le_bytes(value, width).reverse()
    }
}

/// The number that `bytes` stand for in the given byte order.
pub open spec fn word_value(bytes: Seq<u8>, little_endian: bool) -> nat {
    if little_endian {
        le_value(bytes)
    } else {
        le_value(bytes.reverse())
    }
}

/// The smallest number that does not fit in `width` bytes.
pub open spec fn word_limit(width: nat) -> nat
    decreases width,
{
    if width == 0 {
        1
    } else {
        256 * word_limit((width - 1) as nat)
    }
}

pub proof fn lemma_le_bytes_len(value: nat, width: nat)
    ensures
        le_bytes(value, width).len() == width,
    decreases width,
{
    if width > 0 {
        lemma_le_bytes_len(value / 256, (width - 1) as nat);
    }
}

/// A word is as many bytes long as it is wide.
pub broadcast proof fn lemma_word_bytes_len(value: nat, width: nat, little_endian: bool)
    ensures
        #[trigger] word_bytes(value, width, little_endian).len() == width,
{
    lemma_le_bytes_len(value, width);
}

proof fn lemma_le_value_of_bytes(value: nat, width: nat)
    requires
        value < word_limit(width),
    ensures
        le_value(le_bytes(value, width)) == value,
    decreases width,
{
    if width > 0 {
        let rest = le_bytes(value / 256, (width - 1) as nat);
        assert(value / 256 < word_limit((width - 1) as nat));
        lemma_le_value_of_bytes(value / 256, (width - 1) as nat);
        assert(le_bytes(value, width).drop_first() =~= rest);
        assert(le_bytes(value, width)[0] == (value % 256) as u8);
    }
}

proof fn lemma_le_bytes_of_value(bytes: Seq<u8>)
    ensures
        le_value(bytes) < word_limit(bytes.len()),
        le_bytes(le_value(bytes), bytes.len()) == bytes,
    decreases bytes.len(),
{
    if bytes.len() > 0 {
        let rest = bytes.drop_first();
        lemma_le_bytes_of_value(rest);
        let value = le_value(bytes);
        let high = le_value(rest);
        assert(value == bytes[0] as nat + 256 * high);
        lemma_low_byte(bytes[0], high);
        assert(rest.len() == bytes.len() - 1);
        assert(le_bytes(value, bytes.len()) == seq![bytes[0]] + rest);
        assert(seq![bytes[0]] + rest =~= bytes);
    } else {
        assert(le_bytes(le_value(bytes), bytes.len()) =~= bytes);
    }
}

proof fn lemma_low_byte(low: u8, high: nat)
    ensures
        (low as nat + 256 * high) % 256 == low,
        (low as nat + 256 * high) / 256 == high,
{
}

/// A number that fits in a word is read back from the bytes it is stored as.
pub proof fn law_word_read_back(value: nat, width: nat, little_endian: bool)
    requires
        value < word_limit(width),
    ensures
        word_value(word_bytes(value, width, little_endian), little_endian) == value,
{
    lemma_le_value_of_bytes(value, width);
    assert(le_bytes(value, width).reverse().reverse() =~= le_bytes(value, width));
}

/// Storing the number that some bytes stand for gives those bytes again.
pub proof fn law_word_stored_back(bytes: Seq<u8>, little_endian: bool)
    ensures
        word_value(bytes, little_endian) < word_limit(bytes.len()),
        word_bytes(word_value(bytes, little_endian), bytes.len(), little_endian) == bytes,
{
    if little_endian {
        lemma_le_bytes_of_value(bytes);
    } else {
        lemma_le_bytes_of_value(bytes.reverse());
        assert(bytes.reverse().reverse() =~= bytes);
    }
}

/// What `align_up` returns: the least multiple of the alignment that is not
/// below `value`. An alignment of zero counts as one.
pub open spec fn aligned(value: int, alignment: int) -> Result<int, ElfError> {
    let alignment = if alignment < 1 {
        1
    } else {
        alignment
    };
    if !is_pow2(alignment) {
        Err(ElfError::InvalidAlignment(alignment as usize))
    } else if value + (alignment - 1) > usize::MAX {
        Err(ElfError::AlignmentOverflow)
    } else {
        Ok((value + (alignment - 1)) / alignment * alignment)
    }
}

/// An aligned offset is a multiple of the alignment, is not below the offset it
/// was computed from, and no other such multiple is smaller.
pub proof fn law_aligned_is_least_multiple(value: int, alignment: int, other: int)
    requires
        0 <= value,
    ensures
        aligned(value, alignment) matches Ok(result) ==> {
            let step = if alignment < 1 {
                1
            } else {
                alignment
            };
            &&& result % step == 0
            &&& value <= result < value + step
            &&& value <= other && other % step == 0 ==> result <= other
        },
{
    let step = if alignment < 1 {
        1
    } else {
        alignment
    };
    let raised = value + (step - 1);
    let result = raised / step * step;
    vstd::arithmetic::div_mod::lemma_fundamental_div_mod(raised, step);
    vstd::arithmetic::div_mod::lemma_mod_bound(raised, step);
    vstd::arithmetic::mul::lemma_mul_is_commutative(step, raised / step);
    vstd::arithmetic::div_mod::lemma_mod_multiples_basic(raised / step, step);
    if value <= other && other % step == 0 && other < result {
        vstd::arithmetic::div_mod::lemma_fundamental_div_mod(other, step);
        vstd::arithmetic::mul::lemma_mul_is_commutative(step, other / step);
        assert(other / step < raised / step) by (nonlinear_arith)
            requires
                other == other / step * step,
                other < raised / step * step,
                step > 0,
        ;
        assert(other / step * step + step <= raised / step * step) by (nonlinear_arith)
            requires
                other / step < raised / step,
                step > 0,
        ;
    }
}

/// Whether `value` is a power of two.
fn is_power_of_two(value: usize) -> (result: bool)
    ensures
        result == is_pow2(value as int),
{
    let mut rest: usize = value;
    reveal(is_pow2);
    while rest > 1 && rest % 2 == 0
        invariant
            is_pow2(rest as int) == is_pow2(value as int),
        decreases rest,
    {
        reveal(is_pow2);
        rest = rest / 2;
    }
    rest == 1
}

/// Rounds `value` up to a multiple of `alignment`.
pub fn align_up(value: usize, alignment: usize) -> (result: Result<usize, ElfError>)
    ensures
        match aligned(value as int, alignment as int) {
            Ok(offset) => result is Ok && result->Ok_0 == offset,
            Err(error) => result == Err::<usize, ElfError>(error),
        },
{
    let alignment: usize = if alignment < 1 {
        1
    } else {
        alignment
    };
    if !is_power_of_two(alignment) {
        return Err(ElfError::InvalidAlignment(alignment));
    }
    match value.checked_add(alignment - 1) {
        None => Err(ElfError::AlignmentOverflow),
        Some(raised) => {
            proof {
                vstd::arithmetic::div_mod::lemma_fundamental_div_mod(
                    raised as int,
                    alignment as int,
                );
                vstd::arithmetic::mul::lemma_mul_is_commutative(
                    alignment as int,
                    raised as int / alignment as int,
                );
            }
            Ok(raised - raised % alignment)
        },
    }
}

/// The buffer after an eight-byte word has been stored at `offset`.
pub open spec fn put_word(buffer: Seq<u8>, offset: int, value: nat, little_endian: bool) -> Result<
    Seq<u8>,
    ElfError,
> {
    if offset + 8 > usize::MAX {
        Err(ElfError::WriteOverflow)
    } else if offset + 8 > buffer.len() {
        Err(ElfError::WriteOutsideBuffer)
    } else {
        Ok(buffer.update_subrange_with(offset, word_bytes(value, 8, little_endian)))
    }
}

/// The eight bytes of `value`, in the given byte order.
fn word_to_bytes(value: u64, little_endian: bool) -> (bytes: Vec<u8>)
    ensures
        bytes@ == word_bytes(value as nat, 8, little_endian),
{
    let mut bytes: Vec<u8> = Vec::new();
    let mut rest: u64 = value;
    let mut i: usize = 0;
    while i < 8
        invariant
            i <= 8,
            bytes@.len() == i,
            le_bytes(value as nat, 8) == bytes@ + le_bytes(rest as nat, (8 - i) as nat),
        decreases 8 - i,
    {
        let ghost before = bytes@;
        bytes.push((rest % 256) as u8);
        assert(before + le_bytes(rest as nat, (8 - i) as nat) =~= bytes@ + le_bytes(
            (rest / 256) as nat,
            (8 - i - 1) as nat,
        ));
        rest = rest / 256;
        i = i + 1;
    }
    assert(bytes@ =~= le_bytes(value as nat, 8));
    if little_endian {
        return bytes;
    }
    let mut reversed: Vec<u8> = Vec::new();
    let mut j: usize = 8;
    while j > 0
        invariant
            j <= 8,
            bytes@.len() == 8,
            reversed@.len() == 8 - j,
            forall|k: int| 0 <= k < reversed@.len() ==> reversed@[k] == bytes@[7 - k],
        decreases j,
    {
        reversed.push(bytes[j - 1]);
        j = j - 1;
    }
    assert(reversed@ =~= bytes@.reverse());
    reversed
}

/// Stores `value` as an eight-byte word at `offset`. The buffer keeps its length,
/// and is left alone where the word does not fit.
pub fn write_elf64_word(
    buffer: &mut [u8],
    offset: usize,
    value: u64,
    little_endian: bool,
) -> (result: Result<(), ElfError>)
    ensures
        match put_word(old(buffer)@, offset as int, value as nat, little_endian) {
            Ok(bytes) => result == Ok::<(), ElfError>(()) && final(buffer)@ == bytes,
            Err(error) => result == Err::<(), ElfError>(error) && final(buffer)@ == old(buffer)@,
        },
{
    let end: usize = match offset.checked_add(8) {
        None => {
            return Err(ElfError::WriteOverflow);
        },
        Some(end) => end,
    };
    if end > buffer.len() {
        return Err(ElfError::WriteOutsideBuffer);
    }
    let bytes = word_to_bytes(value, little_endian);
    proof {
        lemma_word_bytes_len(value as nat, 8, little_endian);
    }
    let ghost before = buffer@;
    let mut i: usize = 0;
    while i < 8
        invariant
            i <= 8,
            bytes@.len() == 8,
            offset + 8 <= before.len(),
            end == offset + 8,
            buffer@.len() == before.len(),
            buffer@ == before.update_subrange_with(offset as int, bytes@.take(i as int)),
        decreases 8 - i,
    {
        buffer[offset + i] = bytes[i];
        i = i + 1;
        assert(buffer@ =~= before.update_subrange_with(offset as int, bytes@.take(i as int)));
    }
    assert(bytes@.take(8) =~= bytes@);
    Ok(())
}

proof fn lemma_le_byte(value: nat, width: nat, i: nat)
    requires
        i < width,
    ensures
        le_bytes(value, width).len() == width,
        le_bytes(value, width)[i as int] as int == (value as int / pow(256, i)) % 256,
    decreases width,
{
    lemma_le_bytes_len(value, width);
    reveal(pow);
    if i > 0 {
        lemma_le_byte(value / 256, (width - 1) as nat, (i - 1) as nat);
        vstd::arithmetic::power::lemma_pow_positive(256, (i - 1) as nat);
        vstd::arithmetic::div_mod::lemma_div_denominator(
            value as int,
            256,
            pow(256, (i - 1) as nat),
        );
        assert(le_bytes(value, width)[i as int] == le_bytes(
            value / 256,
            (width - 1) as nat,
        )[i - 1]);
    }
}

/// Byte `i` of a word, counted from the least significant one, is digit `i` of its number
/// to the base 256. The least significant byte stands first or last.
pub proof fn law_word_bytes_are_digits(value: nat, width: nat, little_endian: bool, i: nat)
    requires
        i < width,
    ensures
        word_bytes(value, width, little_endian).len() == width,
        word_bytes(value, width, little_endian)[if little_endian {
            i as int
        } else {
            width - 1 - i
        }] as int == (value as int / pow(256, i)) % 256,
{
    lemma_le_byte(value, width, i);
}

/// The bytes of a word are the digits of the number it stands for, to the base 256.
pub proof fn law_word_value_has_digits(bytes: Seq<u8>, little_endian: bool, i: nat)
    requires
        i < bytes.len(),
    ensures
        (word_value(bytes, little_endian) as int / pow(256, i)) % 256 == bytes[if little_endian {
            i as int
        } else {
            bytes.len() - 1 - i
        }] as int,
        word_value(bytes, little_endian) < pow(256, bytes.len()),
{
    law_word_stored_back(bytes, little_endian);
    law_word_bytes_are_digits(word_value(bytes, little_endian), bytes.len(), little_endian, i);
    lemma_word_limit_is_pow(bytes.len());
}

proof fn lemma_word_limit_is_pow(width: nat)
    ensures
        word_limit(width) == pow(256, width),
    decreases width,
{
    reveal(pow);
    if width > 0 {
        lemma_word_limit_is_pow((width - 1) as nat);
    }
}

/// A word is stored if and only if its eight bytes are inside the buffer. It takes up
/// those eight bytes, digit by digit, and every other byte stays as it was.
pub proof fn law_word_is_stored(buffer: Seq<u8>, offset: int, value: nat, little_endian: bool)
    requires
        0 <= offset,
    ensures
        match put_word(buffer, offset, value, little_endian) {
            Ok(stored) => {
                &&& offset + 8 <= usize::MAX && offset + 8 <= buffer.len()
                &&& stored.len() == buffer.len()
                &&& forall|k: int|
                    0 <= k < buffer.len() && !(offset <= k < offset + 8) ==> #[trigger] stored[k]
                        == buffer[k]
                &&& forall|k: int|
                    offset <= k < offset + 8 ==> (#[trigger] stored[k]) as int == (value as int
                        / pow(
                        256,
                        (if little_endian {
                            k - offset
                        } else {
                            offset + 7 - k
                        }) as nat,
                    )) % 256
            },
            Err(ElfError::WriteOverflow) => offset + 8 > usize::MAX,
            Err(ElfError::WriteOutsideBuffer) => buffer.len() < offset + 8 <= usize::MAX,
            Err(_) => false,
        },
{
    if let Ok(stored) = put_word(buffer, offset, value, little_endian) {
        lemma_word_bytes_len(value, 8, little_endian);
        assert forall|k: int| offset <= k < offset + 8 implies (#[trigger] stored[k]) as int == (
        value as int / pow(
            256,
            (if little_endian {
                k - offset
            } else {
                offset + 7 - k
            }) as nat,
        )) % 256 by {
            let i = if little_endian {
                k - offset
            } else {
                offset + 7 - k
            };
            law_word_bytes_are_digits(value, 8, little_endian, i as nat);
        }
    }
}

/// An offset can be aligned if and only if the alignment is a power of two, or zero, and
/// the offset is not too close to the end of the address space.
pub proof fn law_alignment_is_decided(value: int, alignment: int)
    requires
        0 <= value <= usize::MAX,
        0 <= alignment <= usize::MAX,
    ensures
        match aligned(value, alignment) {
            Ok(_) => (alignment == 0 || is_pow2(alignment)) && value + alignment <= usize::MAX + 1,
            Err(ElfError::InvalidAlignment(shown)) => shown == alignment && alignment != 0
                && !is_pow2(alignment),
            Err(ElfError::AlignmentOverflow) => is_pow2(alignment) && value + alignment
                > usize::MAX + 1,
            Err(_) => false,
        },
{
    reveal(is_pow2);
}

proof fn lemma_le_value_of_low_bytes(value: nat, width: nat)
    ensures
        word_limit(width) > 0,
        le_value(le_bytes(value, width)) == value % word_limit(width),
    decreases width,
{
    if width > 0 {
        let rest = le_bytes(value / 256, (width - 1) as nat);
        lemma_le_value_of_low_bytes(value / 256, (width - 1) as nat);
        assert(le_bytes(value, width).drop_first() =~= rest);
        vstd::arithmetic::div_mod::lemma_mod_breakdown(
            value as int,
            256,
            word_limit((width - 1) as nat) as int,
        );
    }
}

/// Of a number that does not fit in a word, the low-order part is read back.
pub proof fn law_low_part_is_read_back(value: nat, width: nat, little_endian: bool)
    ensures
        word_value(word_bytes(value, width, little_endian), little_endian) == value as int % pow(
            256,
            width,
        ),
{
    lemma_le_value_of_low_bytes(value, width);
    lemma_word_limit_is_pow(width);
    assert(le_bytes(value, width).reverse().reverse() =~= le_bytes(value, width));
}

/// An alignment that is no power of two is told by its number.
pub proof fn law_alignment_is_told(alignment: usize)
    ensures
        ElfError::InvalidAlignment(alignment).text() == "Invalid ELF alignment: "@ + decimal(
            alignment as nat,
        ),
{
}

} // verus!
