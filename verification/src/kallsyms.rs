//! The kernel's symbol table as `/proc/kallsyms` prints it: one symbol to a line,
//! the symbols of the kernel itself in front of those of loaded modules.

use vstd::prelude::*;
use vstd::std_specs::iter::IteratorSpec;
use vstd::string::StrSliceExecFns;

use crate::text::{
    chars_of, fields, find, find_chars, is_run, law_fields_are_runs, law_find_is_first,
    lemma_fields_cons, lemma_fields_skip, lemma_find_bounds, lemma_find_in_front,
    lemma_occurs_behind, lemma_run_len_is, occurs_first_at,
};

verus! {

/// Whether a character has Unicode's `White_Space` property.
pub open spec fn is_white_space(c: char) -> bool {
    let code = c as u32;
    ||| 0x09 <= code <= 0x0d
    ||| code == 0x20
    ||| code == 0x85
    ||| code == 0xa0
    ||| code == 0x1680
    ||| 0x2000 <= code <= 0x200a
    ||| code == 0x2028
    ||| code == 0x2029
    ||| code == 0x202f
    ||| code == 0x205f
    ||| code == 0x3000
}

/// The characters between the words of a line.
pub open spec fn white_space() -> spec_fn(char) -> bool {
    |c: char| is_white_space(c)
}

/// The words of a line.
pub open spec fn words(line: Seq<char>) -> Seq<Seq<char>> {
    fields(line, white_space())
}

/// The value of a hexadecimal digit.
pub open spec fn hex_digit(c: char) -> Option<nat> {
    let code = c as u32;
    if 0x30 <= code <= 0x39 {
        Some((code - 0x30) as nat)
    } else if 0x41 <= code <= 0x46 {
        Some((code - 0x41 + 10) as nat)
    } else if 0x61 <= code <= 0x66 {
        Some((code - 0x61 + 10) as nat)
    } else {
        None
    }
}

/// Whether `s` consists of hexadecimal digits, at least one.
pub open spec fn is_hex(s: Seq<char>) -> bool {
    &&& s.len() > 0
    &&& forall|i: int| 0 <= i < s.len() ==> hex_digit(#[trigger] s[i]) is Some
}

/// The number that a string of hexadecimal digits stands for.
pub open spec fn hex_value(s: Seq<char>) -> nat
    decreases s.len(),
{
    if s.len() == 0 {
        0
    } else {
        16 * hex_value(s.drop_last()) + (match hex_digit(s.last()) {
            Some(digit) => digit,
            None => 0,
        })
    }
}

/// The digits of a number: what follows an optional plus sign.
pub open spec fn unsigned(s: Seq<char>) -> Seq<char> {
    if s.len() > 0 && s[0] == '+' {
        s.drop_first()
    } else {
        s
    }
}

/// The address that a word stands for, if it stands for one.
pub open spec fn address(word: Seq<char>) -> Option<u64> {
    let digits = unsigned(word);
    if is_hex(digits) && hex_value(digits) <= u64::MAX {
        Some(hex_value(digits) as u64)
    } else {
        None
    }
}

/// The name of a symbol without the suffix that a compiler gave it: what stands in
/// front of the first `$`, or, without one, of the first `.llvm.`.
pub open spec fn base_name(symbol: Seq<char>) -> Seq<char> {
    match find(symbol, "$"@) {
        Some(i) => symbol.take(i),
        None => match find(symbol, ".llvm."@) {
            Some(i) => symbol.take(i),
            None => symbol,
        },
    }
}

/// The symbol that a line names, with its address. A line that does not consist of
/// an address, a type and a name is not one of the kernel's own symbols: that of a
/// module's symbol names the module too.
pub open spec fn line_symbol(line: Seq<char>) -> Option<(Seq<char>, u64)> {
    let words = words(line);
    if words.len() != 3 {
        None
    } else {
        match address(words[0]) {
            Some(addr) => Some((base_name(words[2]), addr)),
            None => None,
        }
    }
}

/// The symbols that some lines name, up to the first line that names none.
pub open spec fn kernel_symbols(lines: Seq<String>) -> Seq<(Seq<char>, u64)>
    decreases lines.len(),
{
    if lines.len() == 0 {
        Seq::empty()
    } else {
        match line_symbol(lines[0]@) {
            None => Seq::empty(),
            Some(symbol) => seq![symbol] + kernel_symbols(lines.drop_first()),
        }
    }
}

/// Whether nothing of a symbol table can be told from its lines: there is none, or
/// the first one does not begin with an address.
pub open spec fn unreadable(lines: Seq<String>) -> bool {
    lines.len() == 0 || words(lines[0]@).len() == 0 || address(words(lines[0]@)[0]) is None
}

fn is_white_space_char(c: char) -> (result: bool)
    ensures
        result == is_white_space(c),
{
    let code: u32 = c as u32;
    (0x09 <= code && code <= 0x0d) || code == 0x20 || code == 0x85 || code == 0xa0 || code
        == 0x1680 || (0x2000 <= code && code <= 0x200a) || code == 0x2028 || code == 0x2029 || code
        == 0x202f || code == 0x205f || code == 0x3000
}

/// The next word at or behind `from`, as the range it stands in.
fn next_word(line: &Vec<char>, from: usize) -> (result: Option<(usize, usize)>)
    requires
        from <= line@.len(),
    ensures
        match result {
            None => words(line@.skip(from as int)) == Seq::<Seq<char>>::empty(),
            Some((start, end)) => {
                &&& from <= start < end <= line@.len()
                &&& words(line@.skip(from as int)) == seq![line@.subrange(start as int, end as int)]
                    + words(line@.skip(end as int))
            },
        },
{
    let len: usize = line.len();
    let ghost whole = line@.skip(from as int);
    let mut start: usize = from;
    while start < len && is_white_space_char(line[start])
        invariant
            len == line@.len(),
            whole == line@.skip(from as int),
            from <= start <= len,
            forall|i: int| 0 <= i < start - from ==> white_space()(#[trigger] whole[i]),
        decreases len - start,
    {
        start = start + 1;
    }
    let ghost rest = line@.skip(start as int);
    proof {
        lemma_fields_skip(whole, white_space(), start - from);
        assert(whole.skip(start - from) =~= rest);
    }
    if start == len {
        return None;
    }
    let mut end: usize = start;
    while end < len && !is_white_space_char(line[end])
        invariant
            len == line@.len(),
            rest == line@.skip(start as int),
            start <= end <= len,
            forall|i: int| 0 <= i < end - start ==> !white_space()(#[trigger] rest[i]),
        decreases len - end,
    {
        end = end + 1;
    }
    proof {
        lemma_run_len_is(rest, white_space(), end - start);
        assert(rest.take(end - start) =~= line@.subrange(start as int, end as int));
        assert(rest.skip(end - start) =~= line@.skip(end as int));
        assert(!white_space()(rest[0]));
    }
    Some((start, end))
}

fn hex_digit_value(c: char) -> (result: Option<u64>)
    ensures
        match hex_digit(c) {
            Some(digit) => result is Some && result->0 == digit && digit < 16,
            None => result is None,
        },
{
    let code: u32 = c as u32;
    if 0x30 <= code && code <= 0x39 {
        Some((code - 0x30) as u64)
    } else if 0x41 <= code && code <= 0x46 {
        Some((code - 0x41 + 10) as u64)
    } else if 0x61 <= code && code <= 0x66 {
        Some((code - 0x61 + 10) as u64)
    } else {
        None
    }
}

proof fn lemma_hex_value_grows(s: Seq<char>, n: int)
    requires
        0 <= n <= s.len(),
    ensures
        hex_value(s.take(n)) <= hex_value(s),
    decreases s.len() - n,
{
    if n < s.len() {
        lemma_hex_value_grows(s, n + 1);
        assert(s.take(n + 1).drop_last() =~= s.take(n));
    } else {
        assert(s.take(n) =~= s);
    }
}

/// Reads the address that stands from `from` to `to`.
fn parse_address(line: &Vec<char>, from: usize, to: usize) -> (result: Option<u64>)
    requires
        from < to <= line@.len(),
    ensures
        result == address(line@.subrange(from as int, to as int)),
{
    let ghost word = line@.subrange(from as int, to as int);
    let ghost digits = unsigned(word);
    let start: usize = if line[from] == '+' {
        from + 1
    } else {
        from
    };
    assert(digits =~= line@.subrange(start as int, to as int));
    if start == to {
        return None;
    }
    let mut value: u64 = 0;
    let mut i: usize = start;
    while i < to
        invariant
            from <= start <= i <= to <= line@.len(),
            digits == line@.subrange(start as int, to as int),
            digits == unsigned(line@.subrange(from as int, to as int)),
            forall|k: int| 0 <= k < i - start ==> hex_digit(#[trigger] digits[k]) is Some,
            value == hex_value(digits.take(i - start)),
        decreases to - i,
    {
        proof {
            assert(digits.take(i - start + 1).drop_last() =~= digits.take(i - start));
            assert(digits.take(i - start + 1).last() == digits[i - start]);
            lemma_hex_value_grows(digits, i - start + 1);
        }
        match hex_digit_value(line[i]) {
            None => {
                assert(hex_digit(digits[i - start]) is None);
                return None;
            },
            Some(digit) => {
                if value > (u64::MAX - digit) / 16 {
                    return None;
                }
                value = 16 * value + digit;
            },
        }
        i = i + 1;
    }
    assert(digits.take(i - start) =~= digits);
    Some(value)
}

/// Where the name that stands from `from` to `to` ends without a compiler's suffix.
fn base_name_end(line: &Vec<char>, from: usize, to: usize) -> (end: usize)
    requires
        from <= to <= line@.len(),
    ensures
        from <= end <= to,
        line@.subrange(from as int, end as int) == base_name(
            line@.subrange(from as int, to as int),
        ),
{
    let ghost symbol = line@.subrange(from as int, to as int);
    let dollar = chars_of("$");
    proof {
        lemma_find_bounds(symbol, "$"@);
        lemma_find_bounds(symbol, ".llvm."@);
    }
    match find_chars(line, from, to, &dollar) {
        Some(i) => {
            assert(symbol.take(i as int) =~= line@.subrange(from as int, from + i));
            from + i
        },
        None => {
            let llvm = chars_of(".llvm.");
            match find_chars(line, from, to, &llvm) {
                Some(i) => {
                    assert(symbol.take(i as int) =~= line@.subrange(from as int, from + i));
                    from + i
                },
                None => to,
            }
        },
    }
}

/// What a symbol and its address say.
pub open spec fn symbol_view(symbol: (String, u64)) -> (Seq<char>, u64) {
    (symbol.0@, symbol.1)
}

/// Reads one line of the symbol table.
pub fn parse_symbol_line(line: &str) -> (result: Option<(String, u64)>)
    ensures
        match line_symbol(line@) {
            Some(symbol) => result is Some && symbol_view(result->0) == symbol,
            None => result is None,
        },
{
    let chars = chars_of(line);
    assert(chars@.skip(0) =~= chars@);
    let (from, to) = match next_word(&chars, 0) {
        None => {
            return None;
        },
        Some(range) => range,
    };
    let (_, type_end) = match next_word(&chars, to) {
        None => {
            assert(words(line@).len() == 1);
            return None;
        },
        Some(range) => range,
    };
    let (name_start, name_end) = match next_word(&chars, type_end) {
        None => {
            assert(words(line@).len() == 2);
            return None;
        },
        Some(range) => range,
    };
    match next_word(&chars, name_end) {
        None => {},
        Some(_) => {
            assert(words(line@).len() > 3);
            return None;
        },
    }
    assert(words(line@).len() == 3);
    assert(words(line@)[0] == line@.subrange(from as int, to as int));
    assert(words(line@)[2] == line@.subrange(name_start as int, name_end as int));
    let addr = match parse_address(&chars, from, to) {
        None => {
            return None;
        },
        Some(addr) => addr,
    };
    let end = base_name_end(&chars, name_start, name_end);
    Some((line.substring_char(name_start, end).to_owned(), addr))
}

/// Whether a line begins with an address.
pub fn begins_with_address(line: &str) -> (result: bool)
    ensures
        result == (words(line@).len() > 0 && address(words(line@)[0]) is Some),
{
    let chars = chars_of(line);
    assert(chars@.skip(0) =~= chars@);
    match next_word(&chars, 0) {
        None => false,
        Some((from, to)) => parse_address(&chars, from, to).is_some(),
    }
}

/// The kernel's symbols, read from the lines that `iter` gives for as long as they
/// are wanted. Whatever keeps the addresses readable is held until the end.
pub struct KptrOwnedIter<K, I> {
    _kptr: K,
    iter: I,
}

impl<K, I: Iterator<Item = String>> KptrOwnedIter<K, I> {
    /// The lines that are still to be read.
    pub closed spec fn lines(self) -> I {
        self.iter
    }

    /// What keeps the addresses readable.
    pub closed spec fn guard(self) -> K {
        self._kptr
    }

    /// The next line.
    pub fn next_line(&mut self) -> (result: Option<String>)
        requires
            old(self).lines().obeys_prophetic_iter_laws(),
        ensures
            final(self).lines().obeys_prophetic_iter_laws(),
            final(self).guard() == old(self).guard(),
            old(self).lines().decrease() is Some <==> final(self).lines().decrease() is Some,
            match result {
                None => {
                    &&& old(self).lines().remaining().len() == 0
                    &&& final(self).lines().remaining() == old(self).lines().remaining()
                },
                Some(line) => {
                    &&& old(self).lines().remaining().len() > 0
                    &&& line == old(self).lines().remaining()[0]
                    &&& final(self).lines().remaining()
                        == old(self).lines().remaining().drop_first()
                    &&& final(self).lines().decrease() is Some ==> old(self).lines().decrease()->0
                        > final(self).lines().decrease()->0
                },
            },
    {
        self.iter.next()
    }

    /// The next symbol.
    pub fn next(&mut self) -> (result: Option<(String, u64)>)
        requires
            old(self).lines().obeys_prophetic_iter_laws(),
        ensures
            final(self).lines().obeys_prophetic_iter_laws(),
            final(self).guard() == old(self).guard(),
            old(self).lines().decrease() is Some <==> final(self).lines().decrease() is Some,
            final(self).lines().remaining() == if old(self).lines().remaining().len() > 0 {
                old(self).lines().remaining().drop_first()
            } else {
                old(self).lines().remaining()
            },
            match result {
                None => kernel_symbols(old(self).lines().remaining()) == Seq::<
                    (Seq<char>, u64),
                >::empty(),
                Some(symbol) => {
                    &&& old(self).lines().remaining().len() > 0
                    &&& line_symbol(old(self).lines().remaining()[0]@) == Some(symbol_view(symbol))
                    &&& kernel_symbols(old(self).lines().remaining()) == seq![symbol_view(symbol)]
                        + kernel_symbols(final(self).lines().remaining())
                    &&& final(self).lines().decrease() is Some ==> old(self).lines().decrease()->0
                        > final(self).lines().decrease()->0
                },
            },
    {
        match self.next_line() {
            Some(line) => parse_symbol_line(line.as_str()),
            None => None,
        }
    }
}

/// The kernel's symbols in the given lines. The guard is held for as long as the
/// lines are read.
pub fn kernel_symbols_iter<K, I: Iterator<Item = String>>(kptr: K, lines: I) -> (symbols:
    KptrOwnedIter<K, I>)
    ensures
        symbols.lines() == lines,
        symbols.guard() == kptr,
{
    KptrOwnedIter { _kptr: kptr, iter: lines }
}

/// Something that looks at the kernel's symbols one by one.
pub trait SymbolVisitor: Sized {
    /// Why a visit failed.
    type Error;

    /// What holds of the visitor between visits: nothing, unless it says otherwise.
    open spec fn wf(&self) -> bool {
        true
    }

    /// How a visit changes the visitor, and what it answers: in any way, unless the
    /// visitor says otherwise.
    open spec fn visited(
        &self,
        symbol: (Seq<char>, u64),
        after: Self,
        result: Result<bool, Self::Error>,
    ) -> bool {
        true
    }

    /// Looks at a symbol. The answer says whether more symbols are wanted.
    fn visit(&mut self, symbol: &(String, u64)) -> (result: Result<bool, Self::Error>)
        requires
            old(self).wf(),
        ensures
            final(self).wf(),
            old(self).visited(symbol_view(*symbol), *final(self), result),
    ;
}

/// Whether visiting `symbols` in order, up to the first visit that fails or wants
/// no more, takes the visitor from `before` to `after` and ends with `result`.
pub open spec fn walks<V: SymbolVisitor>(
    before: V,
    symbols: Seq<(Seq<char>, u64)>,
    after: V,
    result: Result<(), V::Error>,
) -> bool
    decreases symbols.len(),
{
    if symbols.len() == 0 {
        after == before && result == Ok::<(), V::Error>(())
    } else {
        exists|between: V, answer: Result<bool, V::Error>|
            {
                &&& #[trigger] before.visited(symbols[0], between, answer)
                &&& match answer {
                    Err(error) => after == between && result == Err::<(), V::Error>(error),
                    Ok(false) => after == between && result == Ok::<(), V::Error>(()),
                    Ok(true) => walks(between, symbols.drop_first(), after, result),
                }
            }
    }
}

/// Shows the kernel's symbols to `visitor`, in order, until a visit fails or wants
/// no more.
pub fn for_each_kernel_symbols<K, I: Iterator<Item = String>, V: SymbolVisitor>(
    symbols: KptrOwnedIter<K, I>,
    visitor: &mut V,
) -> (result: Result<(), V::Error>)
    requires
        symbols.lines().obeys_prophetic_iter_laws(),
        symbols.lines().decrease() is Some,
        old(visitor).wf(),
    ensures
        final(visitor).wf(),
        walks(
            *old(visitor),
            kernel_symbols(symbols.lines().remaining()),
            *final(visitor),
            result,
        ),
{
    let ghost all = kernel_symbols(symbols.lines().remaining());
    let mut source = symbols;
    let ghost before = *visitor;
    loop
        invariant
            before == *old(visitor),
            all == kernel_symbols(symbols.lines().remaining()),
            source.lines().obeys_prophetic_iter_laws(),
            source.lines().decrease() is Some,
            visitor.wf(),
            forall|after: V, result: Result<(), V::Error>|
                walks(
                    *visitor,
                    kernel_symbols(source.lines().remaining()),
                    after,
                    result,
                ) ==> walks(before, all, after, result),
        decreases source.lines().decrease()->0,
    {
        let ghost rest = kernel_symbols(source.lines().remaining());
        let ghost here = *visitor;
        match source.next() {
            None => {
                assert(walks(here, rest, here, Ok::<(), V::Error>(())));
                return Ok(());
            },
            Some(symbol) => {
                assert(rest[0] == symbol_view(symbol));
                assert(rest.drop_first() =~= kernel_symbols(source.lines().remaining()));
                match visitor.visit(&symbol) {
                    Err(error) => {
                        assert(here.visited(rest[0], *visitor, Err::<bool, V::Error>(error)));
                        assert(walks(here, rest, *visitor, Err::<(), V::Error>(error)));
                        return Err(error);
                    },
                    Ok(more) => {
                        assert(here.visited(rest[0], *visitor, Ok::<bool, V::Error>(more)));
                        if !more {
                            assert(walks(here, rest, *visitor, Ok::<(), V::Error>(())));
                            return Ok(());
                        }
                        assert forall|after: V, result: Result<(), V::Error>|
                            walks(*visitor, rest.drop_first(), after, result) implies walks(
                            before,
                            all,
                            after,
                            result,
                        ) by {
                            assert(walks(here, rest, after, result));
                        }
                    },
                }
            },
        }
    }
}

/// The 25 characters with Unicode's `White_Space` property, and no others, part words.
pub proof fn law_blanks_part_words(c: char)
    ensures
        is_white_space(c) <==> seq![
            0x09u32,
            0x0a,
            0x0b,
            0x0c,
            0x0d,
            0x20,
            0x85,
            0xa0,
            0x1680,
            0x2000,
            0x2001,
            0x2002,
            0x2003,
            0x2004,
            0x2005,
            0x2006,
            0x2007,
            0x2008,
            0x2009,
            0x200a,
            0x2028,
            0x2029,
            0x202f,
            0x205f,
            0x3000,
        ].contains(c as u32),
{
    let blanks = seq![
        0x09u32,
        0x0a,
        0x0b,
        0x0c,
        0x0d,
        0x20,
        0x85,
        0xa0,
        0x1680,
        0x2000,
        0x2001,
        0x2002,
        0x2003,
        0x2004,
        0x2005,
        0x2006,
        0x2007,
        0x2008,
        0x2009,
        0x200a,
        0x2028,
        0x2029,
        0x202f,
        0x205f,
        0x3000,
    ];
    let code = c as u32;
    assert(blanks[0] == 0x09 && blanks[1] == 0x0a && blanks[2] == 0x0b && blanks[3] == 0x0c
        && blanks[4] == 0x0d && blanks[5] == 0x20 && blanks[6] == 0x85 && blanks[7] == 0xa0
        && blanks[8] == 0x1680 && blanks[9] == 0x2000 && blanks[10] == 0x2001 && blanks[11]
        == 0x2002 && blanks[12] == 0x2003);
    assert(blanks[13] == 0x2004 && blanks[14] == 0x2005 && blanks[15] == 0x2006 && blanks[16]
        == 0x2007 && blanks[17] == 0x2008 && blanks[18] == 0x2009 && blanks[19] == 0x200a
        && blanks[20] == 0x2028 && blanks[21] == 0x2029 && blanks[22] == 0x202f && blanks[23]
        == 0x205f && blanks[24] == 0x3000);
    if blanks.contains(code) {
        let i = choose|i: int| 0 <= i < blanks.len() && blanks[i] == code;
        assert(is_white_space(c));
    }
}

/// An empty line has no words; a line without white space is one word; and white space
/// parts the words in front of it from those behind it.
pub proof fn law_words_are_parted(front: Seq<char>, between: char, back: Seq<char>)
    ensures
        words(Seq::empty()) == Seq::<Seq<char>>::empty(),
        front.len() > 0 && (forall|i: int|
            0 <= i < front.len() ==> !is_white_space(#[trigger] front[i])) ==> words(front)
            == seq![front],
        is_white_space(between) ==> words(front.push(between) + back) == words(front) + words(
            back,
        ),
{
    law_fields_are_runs(front, between, back, white_space());
}

/// The hexadecimal digits, with their values.
pub proof fn law_hex_digits(c: char)
    ensures
        hex_digit(c) == match c {
            '0' => Some(0nat),
            '1' => Some(1nat),
            '2' => Some(2nat),
            '3' => Some(3nat),
            '4' => Some(4nat),
            '5' => Some(5nat),
            '6' => Some(6nat),
            '7' => Some(7nat),
            '8' => Some(8nat),
            '9' => Some(9nat),
            'a' => Some(10nat),
            'b' => Some(11nat),
            'c' => Some(12nat),
            'd' => Some(13nat),
            'e' => Some(14nat),
            'f' => Some(15nat),
            'A' => Some(10nat),
            'B' => Some(11nat),
            'C' => Some(12nat),
            'D' => Some(13nat),
            'E' => Some(14nat),
            'F' => Some(15nat),
            _ => None,
        },
{
}

/// A text stands for an address digit by digit: it needs at least one, the first may have
/// a plus sign before it, a further one moves those before it up by one place, and 64 bits
/// must be enough.
pub proof fn law_address_grows_by_digits(front: Seq<char>, last: char)
    ensures
        address(Seq::empty()) is None,
        address(seq![last]) == match hex_digit(last) {
            Some(digit) => Some(digit as u64),
            None => None,
        },
        address(seq!['+', last]) == address(seq![last]),
        front.len() > 0 && front != seq!['+'] ==> address(front.push(last)) == match (
            address(front),
            hex_digit(last),
        ) {
            (Some(high), Some(digit)) => if 16 * high + digit <= u64::MAX {
                Some((16 * high + digit) as u64)
            } else {
                None
            },
            _ => None,
        },
{
    let none = Seq::<char>::empty();
    let one = seq![last];
    assert(unsigned(none) =~= none);
    assert(one.drop_last() =~= none);
    assert(hex_value(none) == 0);
    if last == '+' {
        assert(unsigned(one) =~= none);
        assert(hex_digit('+') is None);
    } else {
        assert(unsigned(one) == one);
    }
    lemma_hex_one(last);
    let signed = seq!['+', last];
    assert(unsigned(signed) =~= one);
    if front.len() > 0 && front != seq!['+'] {
        let whole = front.push(last);
        let digits = unsigned(front);
        if front[0] == '+' {
            if front.len() == 1 {
                assert(front =~= seq!['+']);
            }
            assert(whole.drop_first() =~= front.drop_first().push(last));
        }
        assert(unsigned(whole) == digits.push(last));
        assert(digits.len() > 0);
        assert(digits.push(last).drop_last() =~= digits);
        if is_hex(digits) && hex_digit(last) is Some {
            assert(is_hex(digits.push(last)));
        } else {
            if is_hex(digits.push(last)) {
                assert forall|i: int| 0 <= i < digits.len() implies hex_digit(
                    #[trigger] digits[i],
                ) is Some by {
                    assert(digits.push(last)[i] == digits[i]);
                }
                assert(digits.push(last)[digits.len() as int] == last);
            }
        }
    }
}

proof fn lemma_hex_one(c: char)
    ensures
        is_hex(seq![c]) <==> hex_digit(c) is Some,
        hex_digit(c) matches Some(digit) ==> hex_value(seq![c]) == digit && digit < 16,
{
    let one = seq![c];
    assert(one.drop_last() =~= Seq::empty());
    assert(hex_value(one.drop_last()) == 0);
    assert(one[0] == c);
}

/// A number in hexadecimal notation.
pub open spec fn hexadecimal(value: nat) -> Seq<char>
    decreases value,
{
    if value < 16 {
        seq!["0123456789abcdef"@[value as int]]
    } else {
        hexadecimal(value / 16).push("0123456789abcdef"@[(value % 16) as int])
    }
}

proof fn lemma_hex_char(value: nat)
    requires
        value < 16,
    ensures
        hex_digit("0123456789abcdef"@[value as int]) == Some(value),
{
    reveal_strlit("0123456789abcdef");
    let text = "0123456789abcdef"@;
    assert(text[0] == '0' && text[1] == '1' && text[2] == '2' && text[3] == '3' && text[4] == '4'
        && text[5] == '5' && text[6] == '6' && text[7] == '7' && text[8] == '8' && text[9] == '9'
        && text[10] == 'a' && text[11] == 'b' && text[12] == 'c' && text[13] == 'd' && text[14]
        == 'e' && text[15] == 'f');
}

/// Every address is read back from its hexadecimal notation.
pub proof fn law_address_is_read_back(value: u64)
    ensures
        address(hexadecimal(value as nat)) == Some(value),
    decreases value,
{
    let text = hexadecimal(value as nat);
    if value < 16 {
        lemma_hex_char(value as nat);
        law_address_grows_by_digits(Seq::empty(), text[0]);
    } else {
        let front = hexadecimal((value / 16) as nat);
        let last = text.last();
        law_address_is_read_back(value / 16);
        lemma_hex_char((value % 16) as nat);
        lemma_hexadecimal_starts(value as nat / 16);
        law_address_grows_by_digits(front, last);
        assert(text =~= front.push(last));
    }
}

proof fn lemma_hexadecimal_starts(value: nat)
    ensures
        hexadecimal(value).len() > 0,
        hexadecimal(value)[0] != '+',
    decreases value,
{
    lemma_hex_char(value % 16);
    if value >= 16 {
        lemma_hexadecimal_starts(value / 16);
        assert(hexadecimal(value)[0] == hexadecimal(value / 16)[0]);
    }
}

/// A name is cut off in front of its first `$`; without one, in front of its first
/// `.llvm.`; and without either it stays as it is.
pub proof fn law_suffix_is_cut_off(front: Seq<char>, back: Seq<char>)
    ensures
        !front.contains('$') ==> base_name(front.push('$') + back) == front,
        !front.contains('$') && !back.contains('$') && (forall|j: int|
            0 <= j < front.len() ==> #[trigger] (front + ".llvm."@).subrange(j, j + 6)
                != ".llvm."@) ==> base_name(front + ".llvm."@ + back) == front,
        !front.contains('$') && (forall|j: int|
            0 <= j && j + 6 <= front.len() ==> #[trigger] front.subrange(j, j + 6) != ".llvm."@)
            ==> base_name(front) == front,
{
    reveal_strlit("$");
    reveal_strlit(".llvm.");
    let llvm = ".llvm."@;
    assert("$"@ =~= seq!['$']);
    if !front.contains('$') {
        lemma_occurs_behind(front, "$"@);
        lemma_find_in_front(front, "$"@, back);
        assert(front.push('$') + back =~= front + "$"@ + back);
        assert((front.push('$') + back).take(front.len() as int) =~= front);
        lemma_without_dollar(front);
        law_find_is_first(front, llvm);
        if !back.contains('$') && (forall|j: int|
            0 <= j < front.len() ==> #[trigger] (front + llvm).subrange(j, j + 6) != llvm) {
            let whole = front + llvm + back;
            assert(!whole.contains('$')) by {
                if whole.contains('$') {
                    let i = choose|i: int| 0 <= i < whole.len() && whole[i] == '$';
                    if i < front.len() {
                        assert(front[i] == '$');
                    } else if i >= front.len() + 6 {
                        assert(back[i - front.len() - 6] == '$');
                    }
                }
            }
            lemma_without_dollar(whole);
            assert((front + llvm).subrange(front.len() as int, front.len() as int + 6) =~= llvm);
            assert(occurs_first_at(front + llvm, llvm, front.len() as int));
            lemma_find_in_front(front, llvm, back);
            assert(whole.take(front.len() as int) =~= front);
        }
    }
}

proof fn lemma_without_dollar(s: Seq<char>)
    requires
        !s.contains('$'),
    ensures
        find(s, "$"@) is None,
{
    reveal_strlit("$");
    lemma_find_bounds(s, "$"@);
    if let Some(i) = find(s, "$"@) {
        assert(s.subrange(i, i + 1)[0] == s[i]);
        assert("$"@[0] == '$');
    }
}

/// A line names a symbol if and only if it has three words, the first of which stands for
/// an address. The symbol is the third word without its suffix, at that address.
pub proof fn law_line_has_three_words(line: Seq<char>)
    ensures
        line_symbol(line) is Some <==> words(line).len() == 3 && address(words(line)[0]) is Some,
        line_symbol(line) matches Some(symbol) ==> {
            &&& symbol.0 == base_name(words(line)[2])
            &&& Some(symbol.1) == address(words(line)[0])
        },
{
}

proof fn lemma_word_and_gap(word: Seq<char>, gap: Seq<char>, rest: Seq<char>)
    requires
        is_run(word, white_space()),
        gap.len() > 0,
        forall|i: int| 0 <= i < gap.len() ==> is_white_space(#[trigger] gap[i]),
    ensures
        words(word + gap + rest) == seq![word] + words(rest),
{
    let tail = gap.drop_first() + rest;
    lemma_fields_cons(word, gap[0], tail, white_space());
    assert(word + gap + rest =~= word + seq![gap[0]] + tail);
    assert forall|i: int| 0 <= i < gap.len() - 1 implies white_space()(#[trigger] tail[i]) by {
        assert(tail[i] == gap[i + 1]);
    }
    lemma_fields_skip(tail, white_space(), gap.len() - 1);
    assert(tail.skip(gap.len() - 1) =~= rest);
}

/// A line made of an address, a type and a name, with white space between them and
/// perhaps around them, names that symbol; with anything more behind, it names none.
pub proof fn law_line_is_understood(
    lead: Seq<char>,
    addr: Seq<char>,
    gap: Seq<char>,
    kind: Seq<char>,
    space: Seq<char>,
    name: Seq<char>,
    trail: Seq<char>,
    more: Seq<char>,
)
    requires
        forall|i: int| 0 <= i < lead.len() ==> is_white_space(#[trigger] lead[i]),
        forall|i: int| 0 <= i < gap.len() ==> is_white_space(#[trigger] gap[i]),
        forall|i: int| 0 <= i < space.len() ==> is_white_space(#[trigger] space[i]),
        forall|i: int| 0 <= i < trail.len() ==> is_white_space(#[trigger] trail[i]),
        forall|i: int| 0 <= i < addr.len() ==> !is_white_space(#[trigger] addr[i]),
        forall|i: int| 0 <= i < kind.len() ==> !is_white_space(#[trigger] kind[i]),
        forall|i: int| 0 <= i < name.len() ==> !is_white_space(#[trigger] name[i]),
        forall|i: int| 0 <= i < more.len() ==> !is_white_space(#[trigger] more[i]),
        gap.len() > 0,
        space.len() > 0,
        addr.len() > 0,
        kind.len() > 0,
        name.len() > 0,
        trail.len() == 0 ==> more.len() == 0,
    ensures
        line_symbol(lead + (addr + gap + (kind + space + (name + trail + more)))) == if more.len()
            > 0 {
            None
        } else {
            match address(addr) {
                Some(value) => Some((base_name(name), value)),
                None => None,
            }
        },
{
    let end = name + trail + more;
    let middle = kind + space + end;
    let rest = addr + gap + middle;
    let line = lead + rest;
    assert forall|i: int| 0 <= i < lead.len() implies white_space()(#[trigger] line[i]) by {
        assert(line[i] == lead[i]);
    }
    lemma_fields_skip(line, white_space(), lead.len() as int);
    assert(line.skip(lead.len() as int) =~= rest);
    assert(is_run(addr, white_space()));
    assert(is_run(kind, white_space()));
    assert(is_run(name, white_space()));
    lemma_word_and_gap(addr, gap, middle);
    lemma_word_and_gap(kind, space, end);
    if trail.len() == 0 {
        assert(end =~= name);
        law_words_are_parted(name, ' ', Seq::empty());
    } else {
        lemma_word_and_gap(name, trail, more);
        law_words_are_parted(more, ' ', Seq::empty());
        if more.len() == 0 {
            assert(more =~= Seq::empty());
        }
    }
    assert(words(line) == seq![addr] + (seq![kind] + words(end)));
    if more.len() == 0 {
        assert(words(end) =~= seq![name]);
        assert(words(line) =~= seq![addr, kind, name]);
    } else {
        assert(words(end).len() == 2);
    }
}

/// The kernel's symbols are those of the lines in front of the first one that names none,
/// line by line.
pub proof fn law_symbols_go_up_to_the_first_other_line(lines: Seq<String>)
    ensures
        ({
            let symbols = kernel_symbols(lines);
            &&& symbols.len() <= lines.len()
            &&& forall|i: int|
                0 <= i < symbols.len() ==> line_symbol(lines[i]@) == Some(#[trigger] symbols[i])
            &&& symbols.len() < lines.len() ==> line_symbol(lines[symbols.len() as int]@) is None
        }),
    decreases lines.len(),
{
    let symbols = kernel_symbols(lines);
    if lines.len() > 0 && line_symbol(lines[0]@) is Some {
        let rest = lines.drop_first();
        law_symbols_go_up_to_the_first_other_line(rest);
        let later = kernel_symbols(rest);
        assert forall|i: int| 0 <= i < symbols.len() implies line_symbol(lines[i]@) == Some(
            #[trigger] symbols[i],
        ) by {
            if i > 0 {
                assert(symbols[i] == later[i - 1]);
                assert(lines[i] == rest[i - 1]);
            }
        }
        if symbols.len() < lines.len() {
            assert(lines[symbols.len() as int] == rest[later.len() as int]);
        }
    }
}

/// Nothing can be told from a symbol table without lines, from one that begins with a
/// blank line, and from one whose first word stands for no address; from any other it
/// can.
pub proof fn law_first_word_must_be_an_address(
    lines: Seq<String>,
    lead: Seq<char>,
    word: Seq<char>,
    rest: Seq<char>,
)
    requires
        lines.len() > 0 ==> lines[0]@ == lead + word + rest,
        forall|i: int| 0 <= i < lead.len() ==> is_white_space(#[trigger] lead[i]),
        forall|i: int| 0 <= i < word.len() ==> !is_white_space(#[trigger] word[i]),
        rest.len() > 0 ==> word.len() > 0 && is_white_space(rest[0]),
    ensures
        unreadable(lines) <==> lines.len() == 0 || word.len() == 0 || address(word) is None,
{
    if lines.len() > 0 {
        let line = lines[0]@;
        assert forall|i: int| 0 <= i < lead.len() implies white_space()(#[trigger] line[i]) by {
            assert(line[i] == lead[i]);
        }
        lemma_fields_skip(line, white_space(), lead.len() as int);
        assert(line.skip(lead.len() as int) =~= word + rest);
        if word.len() == 0 {
            assert(word + rest =~= Seq::empty());
        } else {
            assert(is_run(word, white_space()));
            if rest.len() > 0 {
                lemma_word_and_gap(word, seq![rest[0]], rest.drop_first());
                assert(word + rest =~= word + seq![rest[0]] + rest.drop_first());
                assert(words(line)[0] == word);
            } else {
                law_words_are_parted(word, ' ', Seq::empty());
                assert(word + rest =~= word);
            }
        }
    }
}

/// Whether the visitor goes through `states`, with the given answers to the symbols from
/// the first one on, and stops where it fails, where it wants no more, or behind the last
/// symbol.
pub open spec fn is_chain<V: SymbolVisitor>(
    symbols: Seq<(Seq<char>, u64)>,
    states: Seq<V>,
    answers: Seq<Result<bool, V::Error>>,
    result: Result<(), V::Error>,
) -> bool {
    let n = answers.len() as int;
    &&& states.len() == n + 1
    &&& n <= symbols.len()
    &&& forall|i: int|
        0 <= i < n ==> (#[trigger] states[i]).visited(symbols[i], states[i + 1], answers[i])
    &&& forall|i: int|
        0 <= i < n - 1 ==> #[trigger] answers[i] == Ok::<bool, V::Error>(true)
    &&& if n > 0 && answers[n - 1] is Err {
        result == Err::<(), V::Error>(answers[n - 1]->Err_0)
    } else {
        &&& result == Ok::<(), V::Error>(())
        &&& n == symbols.len() || n > 0 && answers[n - 1] == Ok::<bool, V::Error>(false)
    }
}

proof fn lemma_chain_behind<V: SymbolVisitor>(
    symbols: Seq<(Seq<char>, u64)>,
    states: Seq<V>,
    answers: Seq<Result<bool, V::Error>>,
    result: Result<(), V::Error>,
)
    requires
        is_chain(symbols, states, answers, result),
        answers.len() > 0,
        answers[0] == Ok::<bool, V::Error>(true),
    ensures
        is_chain(symbols.drop_first(), states.drop_first(), answers.drop_first(), result),
{
    let later = states.drop_first();
    let rest = answers.drop_first();
    assert forall|i: int| 0 <= i < rest.len() implies (#[trigger] later[i]).visited(
        symbols.drop_first()[i],
        later[i + 1],
        rest[i],
    ) by {
        assert(states[i + 1].visited(symbols[i + 1], states[i + 2], answers[i + 1]));
    }
    assert forall|i: int| 0 <= i < rest.len() - 1 implies #[trigger] rest[i] == Ok::<
        bool,
        V::Error,
    >(true) by {
        assert(answers[i + 1] == Ok::<bool, V::Error>(true));
    }
}

proof fn lemma_chain_in_front<V: SymbolVisitor>(
    symbols: Seq<(Seq<char>, u64)>,
    before: V,
    states: Seq<V>,
    answers: Seq<Result<bool, V::Error>>,
    result: Result<(), V::Error>,
)
    requires
        symbols.len() > 0,
        states.len() > 0,
        is_chain(symbols.drop_first(), states, answers, result),
        before.visited(symbols[0], states[0], Ok::<bool, V::Error>(true)),
    ensures
        is_chain(
            symbols,
            seq![before] + states,
            seq![Ok::<bool, V::Error>(true)] + answers,
            result,
        ),
{
    let all = seq![before] + states;
    let every = seq![Ok::<bool, V::Error>(true)] + answers;
    assert forall|i: int| 0 <= i < every.len() implies (#[trigger] all[i]).visited(
        symbols[i],
        all[i + 1],
        every[i],
    ) by {
        if i > 0 {
            assert(states[i - 1].visited(symbols.drop_first()[i - 1], states[i], answers[i - 1]));
            assert(all[i] == states[i - 1]);
        }
    }
    assert forall|i: int| 0 <= i < every.len() - 1 implies #[trigger] every[i] == Ok::<
        bool,
        V::Error,
    >(true) by {
        if i > 0 {
            assert(answers[i - 1] == Ok::<bool, V::Error>(true));
        }
    }
}

/// A walk shows the symbols to the visitor one after the other, from the first one on,
/// each to what the one before has made of the visitor. It leaves out none, and it goes on
/// until a visit fails, a visit wants no more, or no symbol is left.
pub proof fn law_walk_is_a_chain<V: SymbolVisitor>(
    before: V,
    symbols: Seq<(Seq<char>, u64)>,
    after: V,
    result: Result<(), V::Error>,
)
    ensures
        walks(before, symbols, after, result) <==> exists|
            states: Seq<V>,
            answers: Seq<Result<bool, V::Error>>,
        |
            #[trigger] is_chain(symbols, states, answers, result) && states[0] == before
                && states.last() == after,
    decreases symbols.len(),
{
    if walks(before, symbols, after, result) {
        if symbols.len() == 0 {
            let states = seq![before];
            let answers = Seq::<Result<bool, V::Error>>::empty();
            assert(is_chain(symbols, states, answers, result));
            assert(states.last() == after);
        } else {
            let (between, answer) = choose|between: V, answer: Result<bool, V::Error>|
                {
                    &&& #[trigger] before.visited(symbols[0], between, answer)
                    &&& match answer {
                        Err(error) => after == between && result == Err::<(), V::Error>(error),
                        Ok(false) => after == between && result == Ok::<(), V::Error>(()),
                        Ok(true) => walks(between, symbols.drop_first(), after, result),
                    }
                };
            assert(before.visited(symbols[0], between, answer));
            if answer == Ok::<bool, V::Error>(true) {
                law_walk_is_a_chain(between, symbols.drop_first(), after, result);
                let (states, answers) = choose|
                    states: Seq<V>,
                    answers: Seq<Result<bool, V::Error>>,
                |
                    #[trigger] is_chain(symbols.drop_first(), states, answers, result)
                        && states[0] == between && states.last() == after;
                lemma_chain_in_front(symbols, before, states, answers, result);
                let all = seq![before] + states;
                assert(all[0] == before && all.last() == after);
            } else {
                let states = seq![before, between];
                let answers = seq![answer];
                assert(is_chain(symbols, states, answers, result));
                assert(states[0] == before && states.last() == after);
            }
        }
    }
    if exists|states: Seq<V>, answers: Seq<Result<bool, V::Error>>|
        #[trigger] is_chain(symbols, states, answers, result) && states[0] == before
            && states.last() == after {
        let (states, answers) = choose|states: Seq<V>, answers: Seq<Result<bool, V::Error>>|
            #[trigger] is_chain(symbols, states, answers, result) && states[0] == before
                && states.last() == after;
        if answers.len() > 0 {
            assert(states[0].visited(symbols[0], states[1], answers[0]));
            if answers[0] == Ok::<bool, V::Error>(true) {
                lemma_chain_behind(symbols, states, answers, result);
                let later = states.drop_first();
                assert(later[0] == states[1] && later.last() == after);
                law_walk_is_a_chain(states[1], symbols.drop_first(), after, result);
            } else {
                if answers.len() > 1 {
                    assert(answers[0] == Ok::<bool, V::Error>(true));
                }
                assert(states[1] == after);
            }
        } else {
            assert(states[0] == after);
        }
    }
}

/// A symbol is its name, whole, with its address.
pub proof fn law_symbol_is_name_and_address(name: String, value: u64)
    ensures
        symbol_view((name, value)).0 == name@,
        symbol_view((name, value)).1 == value,
{
}

} // verus!
