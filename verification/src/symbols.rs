//! Linking a module against the running kernel: every undefined symbol that the
//! kernel defines becomes an absolute one, in place in the module's symbol table.

use vstd::arithmetic::power::pow;
use vstd::hash_map::StringHashMap;
use vstd::prelude::*;
use vstd::std_specs::iter::IteratorSpec;

use crate::elf::{
    decode_symbol, encode_symbol, entry_offset, header_len, holds_header, holds_names,
    holds_section, holds_sections, holds_symbols, holds_symtab, law_symbol_layout,
    law_symbol_read_back,
    law_symbol_stored_back, lemma_encode_symbol_len, lemma_field_kept, section_bytes,
    section_entry_len, section_header_len, section_kind, section_link, stored_count, symbol_len,
    symbol_offset, symtab_index, table_index, write_symbol, ElfImage, ElfView, SymbolRecord,
    SymbolView, SHN_ABS, SHN_UNDEF, SHT_SYMTAB,
};
use crate::kallsyms::{
    for_each_kernel_symbols, kernel_symbols, line_symbol, parse_symbol_line, symbol_view, walks,
    KptrOwnedIter, SymbolVisitor,
};
use crate::text::texts;
use crate::words::{law_low_part_is_read_back, word_value};

verus! {

/// An undefined symbol: its symbol table entry, and where that stands.
#[derive(Debug, Clone, Copy, PartialEq, Eq, Structural)]
pub struct Pending {
    pub record: SymbolRecord,
    pub offset: usize,
}

/// Whether symbol `i` is a named undefined symbol. The first entry of a symbol
/// table stands for no symbol.
pub open spec fn is_undefined(image: ElfView, i: int) -> bool {
    &&& 1 <= i < image.symbols.len()
    &&& image.symbols[i].record.st_shndx == SHN_UNDEF
    &&& image.symbols[i].name is Some
}

/// Symbol `i`, as a symbol that is to be linked.
pub open spec fn pending_entry(image: ElfView, i: int) -> Pending {
    Pending { record: image.symbols[i].record, offset: symbol_offset(image, i) as usize }
}

/// The undefined symbols among the first `n`, by name. Of several with the same
/// name the last counts.
pub open spec fn undefined_before(image: ElfView, n: int) -> Map<Seq<char>, Pending>
    decreases n,
{
    if n <= 0 {
        Map::empty()
    } else if is_undefined(image, n - 1) {
        undefined_before(image, n - 1).insert(
            image.symbols[n - 1].name->0,
            pending_entry(image, n - 1),
        )
    } else {
        undefined_before(image, n - 1)
    }
}

/// The undefined symbols of a module, by name.
pub open spec fn undefined_symbols(image: ElfView) -> Map<Seq<char>, Pending> {
    undefined_before(image, image.symbols.len() as int)
}

/// The symbol table entry of a symbol that stands at an absolute address.
pub open spec fn bound(record: SymbolRecord, address: u64) -> SymbolRecord {
    SymbolRecord { st_shndx: SHN_ABS, st_value: address, ..record }
}

/// The module and the symbols still to be linked, after a look at a symbol of the
/// kernel.
pub open spec fn bind_one(
    bytes: Seq<u8>,
    pending: Map<Seq<char>, Pending>,
    symbol: (Seq<char>, u64),
    is_64: bool,
    little_endian: bool,
) -> (Seq<u8>, Map<Seq<char>, Pending>) {
    if pending.contains_key(symbol.0) {
        let entry = pending[symbol.0];
        (
            bytes.update_subrange_with(
                entry.offset as int,
                encode_symbol(bound(entry.record, symbol.1), is_64, little_endian),
            ),
            pending.remove(symbol.0),
        )
    } else {
        (bytes, pending)
    }
}

/// The module and the symbols still to be linked, after a look at every one of
/// `symbols`.
pub open spec fn bind_all(
    bytes: Seq<u8>,
    pending: Map<Seq<char>, Pending>,
    symbols: Seq<(Seq<char>, u64)>,
    is_64: bool,
    little_endian: bool,
) -> (Seq<u8>, Map<Seq<char>, Pending>)
    decreases symbols.len(),
{
    if symbols.len() == 0 {
        (bytes, pending)
    } else {
        let (next_bytes, next_pending) = bind_one(
            bytes,
            pending,
            symbols[0],
            is_64,
            little_endian,
        );
        bind_all(next_bytes, next_pending, symbols.drop_first(), is_64, little_endian)
    }
}

/// The entries of the symbols to be linked lie inside the module and apart from
/// each other.
pub open spec fn laid_out(len: nat, pending: Map<Seq<char>, Pending>, is_64: bool) -> bool {
    &&& forall|name: Seq<char>| #[trigger]
        pending.contains_key(name) ==> pending[name].offset + symbol_len(is_64) <= len
    &&& forall|a: Seq<char>, b: Seq<char>|
        #![trigger pending.contains_key(a), pending.contains_key(b)]
        pending.contains_key(a) && pending.contains_key(b) && a != b ==> pending[a].offset
            + symbol_len(is_64) <= pending[b].offset || pending[b].offset + symbol_len(is_64)
            <= pending[a].offset
}

/// A module while its symbols are being linked.
pub struct Resolver {
    /// The module.
    pub buffer: Vec<u8>,
    /// Whether the module is a 64-bit one.
    pub is_64: bool,
    /// Whether words are stored least significant byte first.
    pub little_endian: bool,
    /// The symbols that are still to be linked.
    pub pending: StringHashMap<Pending>,
    /// The names of the symbols that were undefined at first.
    pub names: Vec<String>,
}

impl SymbolVisitor for Resolver {
    type Error = String;

    open spec fn wf(&self) -> bool {
        &&& laid_out(self.buffer@.len(), self.pending@, self.is_64)
        &&& texts(self.names@).no_duplicates()
        &&& forall|name: Seq<char>| #[trigger]
            self.pending@.contains_key(name) ==> texts(self.names@).contains(name)
    }

    open spec fn visited(
        &self,
        symbol: (Seq<char>, u64),
        after: Self,
        result: Result<bool, String>,
    ) -> bool {
        &&& (after.buffer@, after.pending@) == bind_one(
            self.buffer@,
            self.pending@,
            symbol,
            self.is_64,
            self.little_endian,
        )
        &&& after.is_64 == self.is_64
        &&& after.little_endian == self.little_endian
        &&& after.names@ == self.names@
        &&& result == Ok::<bool, String>(!after.pending@.is_empty())
    }

    fn visit(&mut self, symbol: &(String, u64)) -> (result: Result<bool, String>) {
        let name = symbol.0.as_str();
        let found: Option<Pending> = match self.pending.get(name) {
            Some(entry) => Some(*entry),
            None => None,
        };
        match found {
            None => {},
            Some(entry) => {
                let record = SymbolRecord {
                    st_shndx: SHN_ABS,
                    st_value: symbol.1,
                    ..entry.record
                };
                match write_symbol(
                    &mut self.buffer,
                    record,
                    entry.offset,
                    self.is_64,
                    self.little_endian,
                ) {
                    Err(message) => {
                        return Err(message);
                    },
                    Ok(()) => {},
                }
                self.pending.remove(name);
            },
        }
        Ok(!self.pending.is_empty())
    }
}

proof fn lemma_undefined_before(image: ElfView, n: int, name: Seq<char>)
    requires
        n <= image.symbols.len(),
        undefined_before(image, n).contains_key(name),
    ensures
        exists|i: int|
            0 <= i < n && #[trigger] is_undefined(image, i) && image.symbols[i].name == Some(name)
                && undefined_before(image, n)[name] == pending_entry(image, i),
    decreases n,
{
    if is_undefined(image, n - 1) && image.symbols[n - 1].name == Some(name) {
    } else {
        lemma_undefined_before(image, n - 1, name);
        let i = choose|i: int|
            0 <= i < n - 1 && #[trigger] is_undefined(image, i) && image.symbols[i].name == Some(
                name,
            ) && undefined_before(image, n - 1)[name] == pending_entry(image, i);
        assert(is_undefined(image, i));
    }
}

/// The symbol table entries of different symbols do not overlap.
pub proof fn lemma_symbol_offsets(image: ElfView, i: int, j: int)
    requires
        0 <= i < j,
    ensures
        0 <= image.symtab_offset <= symbol_offset(image, i),
        symbol_offset(image, i) + symbol_len(image.is_64) <= symbol_offset(image, j),
{
    if image.is_64 {
        assert(i * 24 + 24 <= j * 24);
    } else {
        assert(i * 16 + 16 <= j * 16);
    }
}

/// The undefined symbols of a module whose symbol table lies inside it are laid out
/// as linking needs them.
pub proof fn lemma_undefined_laid_out(image: ElfView, len: nat)
    requires
        symbol_offset(image, image.symbols.len() as int) <= len <= usize::MAX,
    ensures
        laid_out(len, undefined_symbols(image), image.is_64),
{
    let n = image.symbols.len() as int;
    let pending = undefined_symbols(image);
    assert forall|name: Seq<char>| #[trigger] pending.contains_key(name) implies pending[name].offset
        + symbol_len(image.is_64) <= len by {
        lemma_undefined_before(image, n, name);
        let i = choose|i: int|
            0 <= i < n && #[trigger] is_undefined(image, i) && image.symbols[i].name == Some(name)
                && undefined_before(image, n)[name] == pending_entry(image, i);
        lemma_symbol_offsets(image, i, n);
    }
    assert forall|a: Seq<char>, b: Seq<char>|
        #![trigger pending.contains_key(a), pending.contains_key(b)]
        pending.contains_key(a) && pending.contains_key(b) && a != b implies pending[a].offset
        + symbol_len(image.is_64) <= pending[b].offset || pending[b].offset + symbol_len(
        image.is_64,
    ) <= pending[a].offset by {
        lemma_undefined_before(image, n, a);
        lemma_undefined_before(image, n, b);
        let i = choose|i: int|
            0 <= i < n && #[trigger] is_undefined(image, i) && image.symbols[i].name == Some(a)
                && undefined_before(image, n)[a] == pending_entry(image, i);
        let j = choose|j: int|
            0 <= j < n && #[trigger] is_undefined(image, j) && image.symbols[j].name == Some(b)
                && undefined_before(image, n)[b] == pending_entry(image, j);
        lemma_symbol_offsets(image, i, n);
        lemma_symbol_offsets(image, j, n);
        if i < j {
            lemma_symbol_offsets(image, i, j);
        } else {
            lemma_symbol_offsets(image, j, i);
        }
    }
}

impl Resolver {
    /// Whether the resolver holds `buffer` with its undefined symbols, none of
    /// them linked yet.
    pub open spec fn starts(self, buffer: Seq<u8>, image: ElfView) -> bool {
        &&& self.wf()
        &&& self.buffer@ == buffer
        &&& self.is_64 == image.is_64
        &&& self.little_endian == image.little_endian
        &&& self.pending@ == undefined_symbols(image)
    }

    /// Collects the undefined symbols of a module.
    pub fn new(buffer: Vec<u8>, image: &ElfImage) -> (resolver: Resolver)
        requires
            symbol_offset(image@, image@.symbols.len() as int) <= buffer@.len(),
        ensures
            resolver.starts(buffer@, image@),
    {
        let len: usize = buffer.len();
        let size: usize = if image.is_64 {
            24
        } else {
            16
        };
        let mut pending: StringHashMap<Pending> = StringHashMap::new();
        let mut names: Vec<String> = Vec::new();
        let mut index: usize = 0;
        while index < image.symbols.len()
            invariant
                len == buffer@.len(),
                size == symbol_len(image.is_64),
                index <= image.symbols@.len(),
                image.symbols@.len() == image@.symbols.len(),
                symbol_offset(image@, image@.symbols.len() as int) <= buffer@.len(),
                pending@ == undefined_before(image@, index as int),
                texts(names@).no_duplicates(),
                forall|name: Seq<char>| #[trigger]
                    pending@.contains_key(name) <==> texts(names@).contains(name),
            decreases image.symbols@.len() - index,
        {
            let symbol = &image.symbols[index];
            assert(image@.symbols[index as int] == symbol@);
            if index != 0 && symbol.record.st_shndx == SHN_UNDEF {
                match &symbol.name {
                    None => {},
                    Some(name) => {
                        proof {
                            lemma_symbol_offsets(
                                image@,
                                index as int,
                                image@.symbols.len() as int,
                            );
                        }
                        assert(index * size >= 0 && image.symtab_offset + index * size
                            <= buffer@.len()) by {
                            if image.is_64 {
                                assert(index * size == index * 24);
                            } else {
                                assert(index * size == index * 16);
                            }
                        }
                        let offset: usize = image.symtab_offset + index * size;
                        assert(offset == symbol_offset(image@, index as int));
                        let ghost old_names = names@;
                        let ghost old_pending = pending@;
                        if !pending.contains_key(name.as_str()) {
                            names.push(name.clone());
                            proof {
                                lemma_texts_push(old_names, names@.last());
                                assert(names@ =~= old_names.push(names@.last()));
                                assert(!texts(old_names).contains(name@));
                                lemma_no_duplicates_push(texts(old_names), name@);
                            }
                        }
                        pending.insert(name.clone(), Pending { record: symbol.record, offset });
                        assert forall|other: Seq<char>| #[trigger]
                            pending@.contains_key(other) <==> texts(names@).contains(other) by {
                            assert(pending@.contains_key(other) <==> (old_pending.contains_key(
                                other,
                            ) || other == name@));
                            if old_pending.contains_key(name@) {
                            } else {
                                lemma_contains_push(texts(old_names), name@, other);
                            }
                        }
                    },
                }
            }
            index = index + 1;
        }
        let resolver = Resolver {
            buffer,
            is_64: image.is_64,
            little_endian: image.little_endian,
            pending,
            names,
        };
        proof {
            lemma_undefined_laid_out(image@, resolver.buffer@.len());
        }
        resolver
    }

    /// Links the module against the given symbols of the kernel.
    pub fn bind<K, I: Iterator<Item = String>>(&mut self, symbols: KptrOwnedIter<K, I>) -> (result:
        Result<(), String>)
        requires
            old(self).wf(),
            symbols.lines().obeys_prophetic_iter_laws(),
            symbols.lines().decrease() is Some,
        ensures
            final(self).wf(),
            result is Ok,
            (final(self).buffer@, final(self).pending@) == bind_all(
                old(self).buffer@,
                old(self).pending@,
                kernel_symbols(symbols.lines().remaining()),
                old(self).is_64,
                old(self).little_endian,
            ),
            final(self).is_64 == old(self).is_64,
            final(self).little_endian == old(self).little_endian,
            final(self).names@ == old(self).names@,
    {
        let ghost before = *self;
        let ghost all = kernel_symbols(symbols.lines().remaining());
        let result = for_each_kernel_symbols(symbols, self);
        proof {
            lemma_walk_binds(before, all, *self, result);
        }
        result
    }

    /// Links the module against the symbol that `line` names and those behind it, if
    /// it names one.
    pub fn bind_behind<K, I: Iterator<Item = String>>(
        &mut self,
        line: &str,
        symbols: KptrOwnedIter<K, I>,
    ) -> (result: Result<(), String>)
        requires
            old(self).wf(),
            symbols.lines().obeys_prophetic_iter_laws(),
            symbols.lines().decrease() is Some,
        ensures
            final(self).wf(),
            result is Ok,
            (final(self).buffer@, final(self).pending@) == match line_symbol(line@) {
                None => (old(self).buffer@, old(self).pending@),
                Some(symbol) => bind_all(
                    old(self).buffer@,
                    old(self).pending@,
                    seq![symbol] + kernel_symbols(symbols.lines().remaining()),
                    old(self).is_64,
                    old(self).little_endian,
                ),
            },
            final(self).is_64 == old(self).is_64,
            final(self).little_endian == old(self).little_endian,
            final(self).names@ == old(self).names@,
    {
        let symbol = match parse_symbol_line(line) {
            None => {
                return Ok(());
            },
            Some(symbol) => symbol,
        };
        let ghost rest = kernel_symbols(symbols.lines().remaining());
        assert((seq![symbol_view(symbol)] + rest).drop_first() =~= rest);
        match self.visit(&symbol) {
            Err(message) => Err(message),
            Ok(more) => {
                if !more {
                    proof {
                        lemma_bind_nothing(
                            self.buffer@,
                            self.pending@,
                            rest,
                            self.is_64,
                            self.little_endian,
                        );
                    }
                    return Ok(());
                }
                self.bind(symbols)
            },
        }
    }

    /// The names of the symbols that are still to be linked, each once.
    pub fn missing(&self) -> (missing: Vec<String>)
        requires
            self.wf(),
        ensures
            texts(missing@).no_duplicates(),
            forall|name: Seq<char>| #[trigger]
                texts(missing@).contains(name) <==> self.pending@.contains_key(name),
    {
        let mut missing: Vec<String> = Vec::new();
        let mut index: usize = 0;
        while index < self.names.len()
            invariant
                self.wf(),
                index <= self.names@.len(),
                texts(missing@).no_duplicates(),
                forall|name: Seq<char>| #[trigger]
                    texts(missing@).contains(name) <==> self.pending@.contains_key(name) && texts(
                        self.names@,
                    ).take(index as int).contains(name),
            decreases self.names@.len() - index,
        {
            let name = &self.names[index];
            let ghost seen = texts(self.names@).take(index as int);
            let ghost old_missing = missing@;
            assert(texts(self.names@)[index as int] == name@);
            assert(texts(self.names@).take(index + 1) =~= seen.push(name@));
            assert(!seen.contains(name@));
            if self.pending.contains_key(name.as_str()) {
                missing.push(name.clone());
                proof {
                    lemma_texts_push(old_missing, missing@.last());
                    assert(missing@ =~= old_missing.push(missing@.last()));
                    lemma_no_duplicates_push(texts(old_missing), name@);
                }
            }
            assert forall|other: Seq<char>| #[trigger]
                texts(missing@).contains(other) <==> self.pending@.contains_key(other) && texts(
                    self.names@,
                ).take(index + 1).contains(other) by {
                lemma_contains_push(seen, name@, other);
                lemma_contains_push(texts(old_missing), name@, other);
            }
            index = index + 1;
        }
        assert(texts(self.names@).take(index as int) =~= texts(self.names@));
        missing
    }
}

proof fn lemma_texts_push(strings: Seq<String>, last: String)
    ensures
        texts(strings.push(last)) == texts(strings).push(last@),
{
    assert(texts(strings.push(last)) =~= texts(strings).push(last@));
}

proof fn lemma_contains_push(list: Seq<Seq<char>>, last: Seq<char>, other: Seq<char>)
    ensures
        list.push(last).contains(other) <==> list.contains(other) || other == last,
{
    let longer = list.push(last);
    if list.contains(other) {
        let i = choose|i: int| 0 <= i < list.len() && list[i] == other;
        assert(longer[i] == other);
    }
    if other == last {
        assert(longer[list.len() as int] == other);
    }
    if longer.contains(other) {
        let i = choose|i: int| 0 <= i < longer.len() && longer[i] == other;
        if i < list.len() {
            assert(list[i] == other);
        }
    }
}

proof fn lemma_no_duplicates_push(list: Seq<Seq<char>>, last: Seq<char>)
    requires
        list.no_duplicates(),
        !list.contains(last),
    ensures
        list.push(last).no_duplicates(),
{
}

proof fn lemma_bind_nothing(
    bytes: Seq<u8>,
    pending: Map<Seq<char>, Pending>,
    symbols: Seq<(Seq<char>, u64)>,
    is_64: bool,
    little_endian: bool,
)
    requires
        pending.is_empty(),
    ensures
        bind_all(bytes, pending, symbols, is_64, little_endian) == (bytes, pending),
    decreases symbols.len(),
{
    if symbols.len() > 0 {
        lemma_bind_nothing(bytes, pending, symbols.drop_first(), is_64, little_endian);
    }
}

/// Looking at the kernel's symbols for as long as any are wanted links a module as
/// looking at all of them does.
pub proof fn lemma_walk_binds(
    before: Resolver,
    symbols: Seq<(Seq<char>, u64)>,
    after: Resolver,
    result: Result<(), String>,
)
    requires
        walks(before, symbols, after, result),
    ensures
        result is Ok,
        (after.buffer@, after.pending@) == bind_all(
            before.buffer@,
            before.pending@,
            symbols,
            before.is_64,
            before.little_endian,
        ),
        after.is_64 == before.is_64,
        after.little_endian == before.little_endian,
        after.names@ == before.names@,
    decreases symbols.len(),
{
    if symbols.len() > 0 {
        let (between, answer) = choose|between: Resolver, answer: Result<bool, String>|
            {
                &&& #[trigger] before.visited(symbols[0], between, answer)
                &&& match answer {
                    Err(error) => after == between && result == Err::<(), String>(error),
                    Ok(false) => after == between && result == Ok::<(), String>(()),
                    Ok(true) => walks(between, symbols.drop_first(), after, result),
                }
            };
        assert(before.visited(symbols[0], between, answer));
        if answer == Ok::<bool, String>(true) {
            lemma_walk_binds(between, symbols.drop_first(), after, result);
        } else {
            lemma_bind_nothing(
                between.buffer@,
                between.pending@,
                symbols.drop_first(),
                before.is_64,
                before.little_endian,
            );
        }
    }
}

/// The address that the first of `symbols` with the given name has.
pub open spec fn first_address(symbols: Seq<(Seq<char>, u64)>, name: Seq<char>) -> Option<u64>
    decreases symbols.len(),
{
    if symbols.len() == 0 {
        None
    } else if symbols[0].0 == name {
        Some(symbols[0].1)
    } else {
        first_address(symbols.drop_first(), name)
    }
}

/// Whether byte `i` belongs to the entry of a symbol that linking changes.
pub open spec fn is_rewritten(
    pending: Map<Seq<char>, Pending>,
    symbols: Seq<(Seq<char>, u64)>,
    is_64: bool,
    i: int,
) -> bool {
    exists|name: Seq<char>| #[trigger]
        pending.contains_key(name) && first_address(symbols, name) is Some && pending[name].offset
            <= i < pending[name].offset + symbol_len(is_64)
}

/// Linking gives each symbol that the kernel defines the first address listed for
/// it, leaves the others to be linked, and changes no byte besides the entries of
/// the symbols it has linked.
pub proof fn law_first_address_is_bound(
    bytes: Seq<u8>,
    pending: Map<Seq<char>, Pending>,
    symbols: Seq<(Seq<char>, u64)>,
    is_64: bool,
    little_endian: bool,
)
    requires
        laid_out(bytes.len(), pending, is_64),
    ensures
        ({
            let (linked, left) = bind_all(bytes, pending, symbols, is_64, little_endian);
            &&& linked.len() == bytes.len()
            &&& forall|name: Seq<char>| #[trigger]
                left.contains_key(name) <==> pending.contains_key(name) && first_address(
                    symbols,
                    name,
                ) is None
            &&& forall|name: Seq<char>| #[trigger]
                left.contains_key(name) ==> left[name] == pending[name]
            &&& forall|name: Seq<char>|
                #![trigger pending.contains_key(name)]
                pending.contains_key(name) ==> (first_address(symbols, name) matches Some(address)
                    ==> linked.subrange(
                    pending[name].offset as int,
                    pending[name].offset + symbol_len(is_64),
                ) == encode_symbol(bound(pending[name].record, address), is_64, little_endian))
            &&& forall|i: int|
                0 <= i < bytes.len() && !is_rewritten(pending, symbols, is_64, i)
                    ==> #[trigger] linked[i] == bytes[i]
        }),
    decreases symbols.len(),
{
    if symbols.len() > 0 {
        let first = symbols[0];
        let rest = symbols.drop_first();
        let (next_bytes, next_pending) = bind_one(bytes, pending, first, is_64, little_endian);
        let (linked, left) = bind_all(bytes, pending, symbols, is_64, little_endian);
        if pending.contains_key(first.0) {
            lemma_encode_symbol_len(bound(pending[first.0].record, first.1), is_64, little_endian);
        }
        assert(next_bytes.len() == bytes.len());
        law_first_address_is_bound(next_bytes, next_pending, rest, is_64, little_endian);
        assert forall|name: Seq<char>|
            #![trigger pending.contains_key(name)]
            pending.contains_key(name) implies (first_address(symbols, name) matches Some(address)
            ==> linked.subrange(
            pending[name].offset as int,
            pending[name].offset + symbol_len(is_64),
        ) == encode_symbol(bound(pending[name].record, address), is_64, little_endian)) by {
            let start = pending[name].offset as int;
            let end = start + symbol_len(is_64);
            if name == first.0 {
                let stored = encode_symbol(
                    bound(pending[name].record, first.1),
                    is_64,
                    little_endian,
                );
                assert forall|i: int| start <= i < end implies linked[i] == stored[i - start] by {
                    assert(!is_rewritten(next_pending, rest, is_64, i)) by {
                        if is_rewritten(next_pending, rest, is_64, i) {
                            let other = choose|other: Seq<char>| #[trigger]
                                next_pending.contains_key(other) && first_address(rest, other)
                                    is Some && next_pending[other].offset <= i
                                    < next_pending[other].offset + symbol_len(is_64);
                            assert(pending.contains_key(other));
                        }
                    }
                    assert(next_bytes[i] == stored[i - start]);
                }
                assert(linked.subrange(start, end) =~= stored);
            } else {
                assert(next_pending.contains_key(name));
            }
        }
        assert forall|i: int|
            0 <= i < bytes.len() && !is_rewritten(
                pending,
                symbols,
                is_64,
                i,
            ) implies #[trigger] linked[i] == bytes[i] by {
            if is_rewritten(next_pending, rest, is_64, i) {
                let other = choose|other: Seq<char>| #[trigger]
                    next_pending.contains_key(other) && first_address(rest, other) is Some
                        && next_pending[other].offset <= i < next_pending[other].offset
                        + symbol_len(is_64);
                assert(pending.contains_key(other));
                assert(first_address(symbols, other) is Some);
            }
            if pending.contains_key(first.0) {
                assert(first_address(symbols, first.0) is Some);
            }
            assert(next_bytes[i] == bytes[i]);
        }
        assert forall|name: Seq<char>| #[trigger]
            left.contains_key(name) <==> pending.contains_key(name) && first_address(
                symbols,
                name,
            ) is None by {
            assert(left.contains_key(name) <==> next_pending.contains_key(name) && first_address(
                rest,
                name,
            ) is None);
        }
    }
}

/// The address that linking gives symbol `i`: the first one listed for its name,
/// where it is undefined and no later undefined symbol has the same name.
pub open spec fn address_of(
    image: ElfView,
    symbols: Seq<(Seq<char>, u64)>,
    i: int,
) -> Option<u64> {
    if is_undefined(image, i) && (forall|j: int|
        i < j && #[trigger] is_undefined(image, j) ==> image.symbols[j].name
            != image.symbols[i].name) {
        first_address(symbols, image.symbols[i].name->0)
    } else {
        None
    }
}

/// Linking a module makes each undefined symbol that the kernel defines an absolute
/// one at the kernel's address and keeps the rest of its entry; every other entry
/// of the symbol table, and every byte outside of it, stays as it was.
pub proof fn law_linking_binds_undefined_symbols(
    bytes: Seq<u8>,
    image: ElfView,
    symbols: Seq<(Seq<char>, u64)>,
)
    requires
        bytes.len() <= usize::MAX,
        holds_symbols(bytes, image),
    ensures
        ({
            let linked = bind_all(
                bytes,
                undefined_symbols(image),
                symbols,
                image.is_64,
                image.little_endian,
            ).0;
            &&& linked.len() == bytes.len()
            &&& forall|i: int|
                0 <= i < image.symbols.len() ==> (#[trigger] address_of(image, symbols, i)
                    matches Some(address) ==> {
                    &&& linked.subrange(
                        symbol_offset(image, i),
                        symbol_offset(image, i) + symbol_len(image.is_64),
                    ) == encode_symbol(
                        bound(image.symbols[i].record, address),
                        image.is_64,
                        image.little_endian,
                    )
                    &&& image.is_64 || address <= u32::MAX ==> decode_symbol(
                        linked.subrange(
                            symbol_offset(image, i),
                            symbol_offset(image, i) + symbol_len(image.is_64),
                        ),
                        image.is_64,
                        image.little_endian,
                    ) == bound(image.symbols[i].record, address)
                })
            &&& forall|i: int|
                0 <= i < image.symbols.len() && #[trigger] address_of(image, symbols, i) is None
                    ==> linked.subrange(
                    symbol_offset(image, i),
                    symbol_offset(image, i) + symbol_len(image.is_64),
                ) == bytes.subrange(
                    symbol_offset(image, i),
                    symbol_offset(image, i) + symbol_len(image.is_64),
                )
            &&& forall|k: int|
                0 <= k < bytes.len() && !(symbol_offset(image, 0) <= k < symbol_offset(
                    image,
                    image.symbols.len() as int,
                )) ==> #[trigger] linked[k] == bytes[k]
        }),
{
    let n = image.symbols.len() as int;
    let is_64 = image.is_64;
    let le = image.little_endian;
    let pending = undefined_symbols(image);
    let linked = bind_all(bytes, pending, symbols, is_64, le).0;
    lemma_undefined_laid_out(image, bytes.len());
    law_first_address_is_bound(bytes, pending, symbols, is_64, le);
    assert forall|i: int| 0 <= i < n implies (#[trigger] address_of(image, symbols, i) matches Some(
        address,
    ) ==> {
        &&& linked.subrange(symbol_offset(image, i), symbol_offset(image, i) + symbol_len(is_64))
            == encode_symbol(bound(image.symbols[i].record, address), is_64, le)
        &&& is_64 || address <= u32::MAX ==> decode_symbol(
            linked.subrange(symbol_offset(image, i), symbol_offset(image, i) + symbol_len(is_64)),
            is_64,
            le,
        ) == bound(image.symbols[i].record, address)
    }) by {
        if address_of(image, symbols, i) is Some {
            lemma_last_undefined(image, n, i);
            lemma_symbol_offsets(image, i, n);
            let address = address_of(image, symbols, i)->0;
            law_symbol_stored_back(
                bytes.subrange(symbol_offset(image, i), symbol_offset(image, i) + symbol_len(is_64)),
                is_64,
                le,
            );
            if is_64 || address <= u32::MAX {
                law_symbol_read_back(bound(image.symbols[i].record, address), is_64, le);
            }
        }
    }
    assert forall|i: int|
        0 <= i < n && #[trigger] address_of(image, symbols, i) is None implies linked.subrange(
        symbol_offset(image, i),
        symbol_offset(image, i) + symbol_len(is_64),
    ) == bytes.subrange(symbol_offset(image, i), symbol_offset(image, i) + symbol_len(is_64)) by {
        lemma_symbol_offsets(image, i, n);
        assert forall|k: int|
            symbol_offset(image, i) <= k < symbol_offset(image, i) + symbol_len(
                is_64,
            ) implies linked[k] == bytes[k] by {
            if is_rewritten(pending, symbols, is_64, k) {
                lemma_rewritten(image, symbols, k);
                let j = choose|j: int|
                    0 <= j < n && #[trigger] address_of(image, symbols, j) is Some
                        && symbol_offset(image, j) <= k < symbol_offset(image, j) + symbol_len(
                        is_64,
                    );
                if i < j {
                    lemma_symbol_offsets(image, i, j);
                } else if j < i {
                    lemma_symbol_offsets(image, j, i);
                }
            }
        }
        assert(linked.subrange(symbol_offset(image, i), symbol_offset(image, i) + symbol_len(is_64))
            =~= bytes.subrange(symbol_offset(image, i), symbol_offset(image, i) + symbol_len(is_64)));
    }
    assert forall|k: int|
        0 <= k < bytes.len() && !(symbol_offset(image, 0) <= k < symbol_offset(
            image,
            n,
        )) implies #[trigger] linked[k] == bytes[k] by {
        if is_rewritten(pending, symbols, is_64, k) {
            lemma_rewritten(image, symbols, k);
            let j = choose|j: int|
                0 <= j < n && #[trigger] address_of(image, symbols, j) is Some && symbol_offset(
                    image,
                    j,
                ) <= k < symbol_offset(image, j) + symbol_len(is_64);
            lemma_symbol_offsets(image, j, n);
        }
    }
}

/// An undefined symbol is to be linked unless a later one has the same name.
proof fn lemma_last_undefined(image: ElfView, n: int, i: int)
    requires
        0 <= i < n <= image.symbols.len(),
        is_undefined(image, i),
        forall|j: int|
            i < j && #[trigger] is_undefined(image, j) ==> image.symbols[j].name
                != image.symbols[i].name,
    ensures
        undefined_before(image, n).contains_key(image.symbols[i].name->0),
        undefined_before(image, n)[image.symbols[i].name->0] == pending_entry(image, i),
    decreases n,
{
    if i < n - 1 {
        lemma_last_undefined(image, n - 1, i);
        if is_undefined(image, n - 1) {
            assert(image.symbols[n - 1].name != image.symbols[i].name);
        }
    }
}

/// The symbol to be linked under a name is the last undefined one with that name.
proof fn lemma_undefined_is_last(image: ElfView, n: int, name: Seq<char>)
    requires
        n <= image.symbols.len(),
        undefined_before(image, n).contains_key(name),
    ensures
        exists|i: int|
            #![trigger is_undefined(image, i)]
            0 <= i < n && is_undefined(image, i) && image.symbols[i].name == Some(name)
                && undefined_before(image, n)[name] == pending_entry(image, i) && forall|j: int|
                i < j < n && #[trigger] is_undefined(image, j) ==> image.symbols[j].name
                    != image.symbols[i].name,
    decreases n,
{
    if is_undefined(image, n - 1) && image.symbols[n - 1].name == Some(name) {
    } else {
        lemma_undefined_is_last(image, n - 1, name);
        let i = choose|i: int|
            #![trigger is_undefined(image, i)]
            0 <= i < n - 1 && is_undefined(image, i) && image.symbols[i].name == Some(name)
                && undefined_before(image, n - 1)[name] == pending_entry(image, i) && forall|
                j: int,
            |
                i < j < n - 1 && #[trigger] is_undefined(image, j) ==> image.symbols[j].name
                    != image.symbols[i].name;
        assert(is_undefined(image, i));
        assert(undefined_before(image, n)[name] == pending_entry(image, i));
    }
}

proof fn lemma_rewritten(image: ElfView, symbols: Seq<(Seq<char>, u64)>, k: int)
    requires
        symbol_offset(image, image.symbols.len() as int) <= usize::MAX,
        is_rewritten(undefined_symbols(image), symbols, image.is_64, k),
    ensures
        exists|j: int|
            0 <= j < image.symbols.len() && #[trigger] address_of(image, symbols, j) is Some
                && symbol_offset(image, j) <= k < symbol_offset(image, j) + symbol_len(image.is_64),
{
    let n = image.symbols.len() as int;
    let pending = undefined_symbols(image);
    let name = choose|name: Seq<char>| #[trigger]
        pending.contains_key(name) && first_address(symbols, name) is Some && pending[name].offset
            <= k < pending[name].offset + symbol_len(image.is_64);
    lemma_undefined_is_last(image, n, name);
    let i = choose|i: int|
        #![trigger is_undefined(image, i)]
        0 <= i < n && is_undefined(image, i) && image.symbols[i].name == Some(name)
            && undefined_before(image, n)[name] == pending_entry(image, i) && forall|j: int|
            i < j < n && #[trigger] is_undefined(image, j) ==> image.symbols[j].name
                != image.symbols[i].name;
    lemma_symbol_offsets(image, i, n);
    assert(address_of(image, symbols, i) is Some);
}

/// Whether the symbol table is apart from what stands from `from` to `to`.
pub open spec fn is_apart(image: ElfView, from: int, to: int) -> bool {
    to <= symbol_offset(image, 0) || symbol_offset(image, image.symbols.len() as int) <= from
}

/// The symbol table overlaps neither the file header nor the section table nor the
/// string table that it is linked to, and all of these are inside the address space.
pub open spec fn symtab_apart(bytes: Seq<u8>, image: ElfView) -> bool {
    &&& image.e_shoff <= usize::MAX
    &&& stored_count(bytes, image) != 0 || image.sections[0].sh_size <= usize::MAX
    &&& is_apart(image, 0, header_len(image.is_64) as int)
    &&& is_apart(
        image,
        image.e_shoff as int,
        entry_offset(image, image.sections.len() as int),
    )
    &&& symtab_index(bytes, image, image.sections.len() as int) matches Some(t) ==> {
        let n = table_index(bytes, image, section_link(bytes, image, t));
        &&& image.sections[t].sh_offset <= usize::MAX
        &&& n < image.sections.len() ==> {
            let strings = image.sections[n];
            &&& strings.sh_offset + strings.sh_size <= bytes.len()
            &&& is_apart(image, strings.sh_offset as int, strings.sh_offset + strings.sh_size)
        }
    }
}

proof fn lemma_symtab_index(bytes: Seq<u8>, image: ElfView, n: int)
    ensures
        symtab_index(bytes, image, n) matches Some(t) ==> 0 <= t < n,
    decreases n,
{
    if n > 0 && section_kind(bytes, image, n - 1) != SHT_SYMTAB {
        lemma_symtab_index(bytes, image, n - 1);
    }
}

proof fn lemma_symtab_index_kept(
    bytes: Seq<u8>,
    image: ElfView,
    linked: Seq<u8>,
    again: ElfView,
    n: int,
)
    requires
        forall|i: int|
            0 <= i < n ==> #[trigger] section_kind(linked, again, i) == section_kind(
                bytes,
                image,
                i,
            ),
    ensures
        symtab_index(linked, again, n) == symtab_index(bytes, image, n),
    decreases n,
{
    if n > 0 {
        assert(section_kind(linked, again, n - 1) == section_kind(bytes, image, n - 1));
        lemma_symtab_index_kept(bytes, image, linked, again, n - 1);
    }
}

/// Two files that differ in nothing but their symbol tables have the same file header
/// and as many sections.
proof fn lemma_table_kept(bytes: Seq<u8>, image: ElfView, linked: Seq<u8>, again: ElfView)
    requires
        bytes.len() == linked.len(),
        symtab_apart(bytes, image),
        holds_header(bytes, image),
        holds_sections(bytes, image),
        holds_names(bytes, image),
        holds_header(linked, again),
        holds_sections(linked, again),
        holds_names(linked, again),
        forall|k: int|
            0 <= k < bytes.len() && !(symbol_offset(image, 0) <= k < symbol_offset(
                image,
                image.symbols.len() as int,
            )) ==> #[trigger] linked[k] == bytes[k],
    ensures
        again.is_64 == image.is_64,
        again.little_endian == image.little_endian,
        again.e_shoff == image.e_shoff,
        again.sections.len() == image.sections.len(),
{
    let le = image.little_endian;
    let from = symbol_offset(image, 0);
    let to = symbol_offset(image, image.symbols.len() as int);
    lemma_symbols_in_order(image);
    assert(linked[4] == bytes[4]);
    assert(linked[5] == bytes[5]);
    if image.is_64 {
        lemma_field_kept(bytes, linked, from, to, 0x28, 8, le);
        lemma_field_kept(bytes, linked, from, to, 0x3c, 2, le);
    } else {
        lemma_field_kept(bytes, linked, from, to, 0x20, 4, le);
        lemma_field_kept(bytes, linked, from, to, 0x30, 2, le);
    }
    if image.sections.len() > 0 {
        let at = entry_offset(image, 0);
        lemma_entries_in_order(image, 0);
        assert(holds_section(bytes, image, 0));
        assert(holds_section(linked, again, 0));
        if image.is_64 {
            lemma_field_kept(bytes, linked, from, to, at + 0x20, 8, le);
        } else {
            lemma_field_kept(bytes, linked, from, to, at + 0x14, 4, le);
        }
    }
}

proof fn lemma_symbols_in_order(image: ElfView)
    ensures
        0 <= symbol_offset(image, 0) <= symbol_offset(image, image.symbols.len() as int),
{
    if image.symbols.len() > 0 {
        lemma_symbol_offsets(image, 0, image.symbols.len() as int);
    }
}

proof fn lemma_entries_in_order(image: ElfView, i: int)
    requires
        0 <= i < image.sections.len(),
    ensures
        image.e_shoff <= entry_offset(image, i),
        entry_offset(image, i) + section_header_len(image.is_64) <= entry_offset(
            image,
            image.sections.len() as int,
        ),
{
    let n = image.sections.len() as int;
    if image.is_64 {
        assert(i * 64 + 64 <= n * 64);
    } else {
        assert(i * 40 + 40 <= n * 40);
    }
}

/// Two files that differ in nothing but their symbol tables agree in what their section
/// tables say of section `i`.
proof fn lemma_section_kept(
    bytes: Seq<u8>,
    image: ElfView,
    linked: Seq<u8>,
    again: ElfView,
    i: int,
)
    requires
        bytes.len() == linked.len(),
        0 <= i < image.sections.len(),
        image.e_shoff <= usize::MAX,
        is_apart(
            image,
            image.e_shoff as int,
            entry_offset(image, image.sections.len() as int),
        ),
        holds_sections(bytes, image),
        holds_sections(linked, again),
        again.is_64 == image.is_64,
        again.little_endian == image.little_endian,
        again.e_shoff == image.e_shoff,
        again.sections.len() == image.sections.len(),
        forall|k: int|
            0 <= k < bytes.len() && !(symbol_offset(image, 0) <= k < symbol_offset(
                image,
                image.symbols.len() as int,
            )) ==> #[trigger] linked[k] == bytes[k],
    ensures
        section_kind(linked, again, i) == section_kind(bytes, image, i),
        section_link(linked, again, i) == section_link(bytes, image, i),
        section_entry_len(linked, again, i) == section_entry_len(bytes, image, i),
        again.sections[i].sh_offset == image.sections[i].sh_offset,
        again.sections[i].sh_size == image.sections[i].sh_size,
{
    let le = image.little_endian;
    let from = symbol_offset(image, 0);
    let to = symbol_offset(image, image.symbols.len() as int);
    let at = entry_offset(image, i);
    lemma_symbols_in_order(image);
    lemma_entries_in_order(image, i);
    assert(holds_section(bytes, image, i));
    assert(holds_section(linked, again, i));
    lemma_field_kept(bytes, linked, from, to, at + 4, 4, le);
    if image.is_64 {
        lemma_field_kept(bytes, linked, from, to, at + 0x18, 8, le);
        lemma_field_kept(bytes, linked, from, to, at + 0x20, 8, le);
        lemma_field_kept(bytes, linked, from, to, at + 0x28, 4, le);
        lemma_field_kept(bytes, linked, from, to, at + 0x38, 8, le);
    } else {
        lemma_field_kept(bytes, linked, from, to, at + 0x10, 4, le);
        lemma_field_kept(bytes, linked, from, to, at + 0x14, 4, le);
        lemma_field_kept(bytes, linked, from, to, at + 0x18, 4, le);
        lemma_field_kept(bytes, linked, from, to, at + 0x24, 4, le);
    }
}

/// Two files that differ in nothing but their symbol tables have those at the same
/// place, as long as each other, and linked to the same strings.
proof fn lemma_symtab_kept(bytes: Seq<u8>, image: ElfView, linked: Seq<u8>, again: ElfView)
    requires
        bytes.len() == linked.len(),
        bytes.len() <= usize::MAX,
        symtab_apart(bytes, image),
        holds_header(bytes, image),
        holds_sections(bytes, image),
        holds_names(bytes, image),
        holds_symtab(bytes, image),
        holds_header(linked, again),
        holds_sections(linked, again),
        holds_names(linked, again),
        holds_symtab(linked, again),
        forall|k: int|
            0 <= k < bytes.len() && !(symbol_offset(image, 0) <= k < symbol_offset(
                image,
                image.symbols.len() as int,
            )) ==> #[trigger] linked[k] == bytes[k],
    ensures
        again.is_64 == image.is_64,
        again.little_endian == image.little_endian,
        again.symtab_offset == image.symtab_offset,
        again.symbols.len() == image.symbols.len(),
        forall|i: int|
            #![trigger image.symbols[i]]
            0 <= i < image.symbols.len() && again.symbols[i].record.st_name
                == image.symbols[i].record.st_name ==> again.symbols[i].name
                == image.symbols[i].name,
{
    let count = image.sections.len() as int;
    lemma_table_kept(bytes, image, linked, again);
    assert forall|i: int| 0 <= i < count implies #[trigger] section_kind(linked, again, i)
        == section_kind(bytes, image, i) by {
        lemma_section_kept(bytes, image, linked, again, i);
    }
    lemma_symtab_index_kept(bytes, image, linked, again, count);
    lemma_symtab_index(bytes, image, count);
    if let Some(t) = symtab_index(bytes, image, count) {
        lemma_section_kept(bytes, image, linked, again, t);
        lemma_section_kept(bytes, image, linked, again, 0);
        let n = table_index(bytes, image, section_link(bytes, image, t));
        assert(n == table_index(linked, again, section_link(linked, again, t)));
        if n < count {
            lemma_section_kept(bytes, image, linked, again, n);
            lemma_symbols_in_order(image);
            assert(section_bytes(linked, again, n) =~= section_bytes(bytes, image, n));
        }
    }
}

/// A parser that is shown a linked module finds the same symbols under the same names.
/// Each undefined one that the kernel defines is an absolute one at the kernel's
/// address now, and the others are as they were. The symbol table must not overlap what
/// it is found by, and an address must fit in the entry.
pub proof fn law_linked_symbols_are_found(
    bytes: Seq<u8>,
    image: ElfView,
    symbols: Seq<(Seq<char>, u64)>,
    again: ElfView,
)
    requires
        bytes.len() <= usize::MAX,
        holds_header(bytes, image),
        holds_sections(bytes, image),
        holds_names(bytes, image),
        holds_symtab(bytes, image),
        holds_symbols(bytes, image),
        symtab_apart(bytes, image),
        ({
            let linked = bind_all(
                bytes,
                undefined_symbols(image),
                symbols,
                image.is_64,
                image.little_endian,
            ).0;
            &&& holds_header(linked, again)
            &&& holds_sections(linked, again)
            &&& holds_names(linked, again)
            &&& holds_symtab(linked, again)
            &&& holds_symbols(linked, again)
        }),
    ensures
        again.symbols.len() == image.symbols.len(),
        forall|i: int|
            0 <= i < image.symbols.len() ==> match #[trigger] address_of(image, symbols, i) {
                Some(address) => image.is_64 || address <= u32::MAX ==> again.symbols[i]
                    == (SymbolView {
                    name: image.symbols[i].name,
                    record: bound(image.symbols[i].record, address),
                }),
                None => again.symbols[i] == image.symbols[i],
            },
{
    let linked = bind_all(
        bytes,
        undefined_symbols(image),
        symbols,
        image.is_64,
        image.little_endian,
    ).0;
    law_linking_binds_undefined_symbols(bytes, image, symbols);
    lemma_symtab_kept(bytes, image, linked, again);
    assert forall|i: int| 0 <= i < image.symbols.len() implies match #[trigger] address_of(
        image,
        symbols,
        i,
    ) {
        Some(address) => image.is_64 || address <= u32::MAX ==> again.symbols[i] == (SymbolView {
            name: image.symbols[i].name,
            record: bound(image.symbols[i].record, address),
        }),
        None => again.symbols[i] == image.symbols[i],
    } by {
        assert(image.symbols[i].record == decode_symbol(
            bytes.subrange(
                symbol_offset(image, i),
                symbol_offset(image, i) + symbol_len(image.is_64),
            ),
            image.is_64,
            image.little_endian,
        ));
        assert(again.symbols[i].record == decode_symbol(
            linked.subrange(
                symbol_offset(image, i),
                symbol_offset(image, i) + symbol_len(image.is_64),
            ),
            image.is_64,
            image.little_endian,
        ));
    }
}

/// The symbols to be linked are those, behind the first, that have a name and the section
/// index zero, whatever else their entries hold. Of several with the same name the last
/// counts, with its own entry and the place of that.
pub proof fn law_undefined_symbols_are_collected(image: ElfView, name: Seq<char>)
    ensures
        undefined_symbols(image).contains_key(name) <==> exists|i: int|
            #![trigger image.symbols[i]]
            1 <= i < image.symbols.len() && image.symbols[i].record.st_shndx == 0
                && image.symbols[i].name == Some(name),
        forall|i: int|
            #![trigger image.symbols[i]]
            1 <= i < image.symbols.len() && image.symbols[i].record.st_shndx == 0
                && image.symbols[i].name == Some(name) && (forall|j: int|
                i < j < image.symbols.len() && image.symbols[j].record.st_shndx == 0
                    ==> #[trigger] image.symbols[j].name != Some(name))
                ==> undefined_symbols(image)[name].record == image.symbols[i].record
                && undefined_symbols(image)[name].offset == (image.symtab_offset + i * (
            if image.is_64 {
                24int
            } else {
                16int
            })) as usize,
{
    let n = image.symbols.len() as int;
    if undefined_symbols(image).contains_key(name) {
        lemma_undefined_before(image, n, name);
        let i = choose|i: int|
            0 <= i < n && #[trigger] is_undefined(image, i) && image.symbols[i].name == Some(name)
                && undefined_before(image, n)[name] == pending_entry(image, i);
        assert(image.symbols[i].record.st_shndx == 0);
    }
    if exists|i: int|
        #![trigger image.symbols[i]]
        1 <= i < n && image.symbols[i].record.st_shndx == 0 && image.symbols[i].name == Some(
            name,
        ) {
        let i = choose|i: int|
            #![trigger image.symbols[i]]
            1 <= i < n && image.symbols[i].record.st_shndx == 0 && image.symbols[i].name == Some(
                name,
            );
        lemma_undefined_is_collected(image, n, i, name);
    }
    assert forall|i: int|
        #![trigger image.symbols[i]]
        1 <= i < n && image.symbols[i].record.st_shndx == 0 && image.symbols[i].name == Some(name)
            && (forall|j: int|
            i < j < n && image.symbols[j].record.st_shndx == 0
                ==> #[trigger] image.symbols[j].name != Some(
                name,
            )) implies undefined_symbols(image)[name].record == image.symbols[i].record
        && undefined_symbols(image)[name].offset == (image.symtab_offset + i * (if image.is_64 {
        24int
    } else {
        16int
    })) as usize by {
        assert(is_undefined(image, i));
        assert forall|j: int| i < j && #[trigger] is_undefined(image, j) implies image.symbols[j].name
            != image.symbols[i].name by {
            assert(image.symbols[j].name != Some(name));
        }
        lemma_last_undefined(image, n, i);
    }
}

proof fn lemma_undefined_is_collected(image: ElfView, n: int, i: int, name: Seq<char>)
    requires
        1 <= i < n <= image.symbols.len(),
        image.symbols[i].record.st_shndx == 0,
        image.symbols[i].name == Some(name),
    ensures
        undefined_before(image, n).contains_key(name),
    decreases n,
{
    if i == n - 1 {
        assert(is_undefined(image, n - 1));
    } else {
        lemma_undefined_is_collected(image, n - 1, i, name);
    }
}

proof fn lemma_first_address_at(symbols: Seq<(Seq<char>, u64)>, name: Seq<char>, k: int)
    requires
        0 <= k < symbols.len(),
        symbols[k].0 == name,
        forall|j: int| 0 <= j < k ==> (#[trigger] symbols[j]).0 != name,
    ensures
        first_address(symbols, name) == Some(symbols[k].1),
    decreases k,
{
    if k > 0 {
        let rest = symbols.drop_first();
        assert(symbols[0].0 != name);
        assert forall|j: int| 0 <= j < k - 1 implies (#[trigger] rest[j]).0 != name by {
            assert(rest[j] == symbols[j + 1]);
        }
        lemma_first_address_at(rest, name, k - 1);
    }
}

proof fn lemma_first_address_exists(symbols: Seq<(Seq<char>, u64)>, name: Seq<char>)
    ensures
        first_address(symbols, name) is Some <==> exists|k: int|
            0 <= k < symbols.len() && (#[trigger] symbols[k]).0 == name,
    decreases symbols.len(),
{
    if symbols.len() > 0 {
        let rest = symbols.drop_first();
        lemma_first_address_exists(rest, name);
        if symbols[0].0 != name {
            if exists|k: int| 0 <= k < symbols.len() && (#[trigger] symbols[k]).0 == name {
                let k = choose|k: int| 0 <= k < symbols.len() && (#[trigger] symbols[k]).0 == name;
                assert(rest[k - 1].0 == name);
            }
            if exists|k: int| 0 <= k < rest.len() && (#[trigger] rest[k]).0 == name {
                let k = choose|k: int| 0 <= k < rest.len() && (#[trigger] rest[k]).0 == name;
                assert(symbols[k + 1].0 == name);
            }
        }
    }
}

/// After linking, the entry of a symbol behind the first that has a name and the section
/// index zero, whatever else it holds, has the section index of an absolute symbol, and the
/// address that the kernel lists first under that name, in as many bytes as there is room
/// for. Its other bytes stay as they were. No later symbol of that kind may have the same
/// name, and the kernel must list the name.
#[verifier::spinoff_prover]
#[verifier::rlimit(40)]
pub proof fn law_symbol_is_linked(
    bytes: Seq<u8>,
    image: ElfView,
    symbols: Seq<(Seq<char>, u64)>,
    i: int,
    k: int,
)
    requires
        bytes.len() <= usize::MAX,
        holds_symbols(bytes, image),
        1 <= i < image.symbols.len(),
        image.symbols[i].record.st_shndx == 0,
        image.symbols[i].name is Some,
        forall|j: int|
            i < j < image.symbols.len() && image.symbols[j].record.st_shndx == 0
                ==> #[trigger] image.symbols[j].name != image.symbols[i].name,
        0 <= k < symbols.len(),
        Some(symbols[k].0) == image.symbols[i].name,
        forall|j: int| 0 <= j < k ==> Some((#[trigger] symbols[j]).0) != image.symbols[i].name,
    ensures
        ({
            let le = image.little_endian;
            let linked = bind_all(bytes, undefined_symbols(image), symbols, image.is_64, le).0;
            &&& linked.len() == bytes.len()
            &&& image.is_64 ==> {
                let at = image.symtab_offset + i * 24;
                &&& word_value(linked.subrange(at + 6, at + 8), le) == 0xfff1
                &&& word_value(linked.subrange(at + 8, at + 16), le) == symbols[k].1
                &&& forall|b: int|
                    at <= b < at + 6 || at + 16 <= b < at + 24 ==> #[trigger] linked[b] == bytes[b]
            }
            &&& !image.is_64 ==> {
                let at = image.symtab_offset + i * 16;
                &&& word_value(linked.subrange(at + 14, at + 16), le) == 0xfff1
                &&& word_value(linked.subrange(at + 4, at + 8), le) == symbols[k].1 as int % pow(
                    256,
                    4,
                )
                &&& forall|b: int|
                    at <= b < at + 4 || at + 8 <= b < at + 14 ==> #[trigger] linked[b] == bytes[b]
            }
        }),
{
    let le = image.little_endian;
    let is_64 = image.is_64;
    let linked = bind_all(bytes, undefined_symbols(image), symbols, is_64, le).0;
    let name = image.symbols[i].name->0;
    let record = image.symbols[i].record;
    let address = symbols[k].1;
    let at = symbol_offset(image, i);
    let end = at + symbol_len(is_64);
    assert forall|j: int| 0 <= j < k implies (#[trigger] symbols[j]).0 != name by {
        assert(Some(symbols[j].0) != image.symbols[i].name);
    }
    lemma_first_address_at(symbols, name, k);
    assert(is_undefined(image, i));
    assert(address_of(image, symbols, i) == Some(address));
    law_linking_binds_undefined_symbols(bytes, image, symbols);
    lemma_symbol_offsets(image, i, image.symbols.len() as int);
    let old = bytes.subrange(at, end);
    let new = linked.subrange(at, end);
    assert(new == encode_symbol(bound(record, address), is_64, le));
    law_symbol_stored_back(old, is_64, le);
    assert(old == encode_symbol(record, is_64, le));
    law_symbol_layout(record, le);
    law_symbol_layout(bound(record, address), le);
    assert(pow(256, 2) == 65536 && pow(256, 4) == 0x1_0000_0000 && pow(256, 8)
        == 0x1_0000_0000_0000_0000) by {
        reveal(pow);
        reveal_with_fuel(pow, 9);
    }
    law_low_part_is_read_back(SHN_ABS as nat, 2, le);
    if is_64 {
        law_low_part_is_read_back(address as nat, 8, le);
        assert(linked.subrange(at + 6, at + 8) =~= new.subrange(6, 8));
        assert(linked.subrange(at + 8, at + 16) =~= new.subrange(8, 16));
        assert forall|b: int|
            at <= b < at + 6 || at + 16 <= b < at + 24 implies #[trigger] linked[b] == bytes[b] by {
            assert(new[b - at] == linked[b]);
            assert(old[b - at] == bytes[b]);
            if b < at + 4 {
                assert(new.subrange(0, 4)[b - at] == old.subrange(0, 4)[b - at]);
            } else if b >= at + 16 {
                assert(new.subrange(16, 24)[b - at - 16] == old.subrange(16, 24)[b - at - 16]);
            }
        }
    } else {
        law_low_part_is_read_back(address as nat, 4, le);
        assert(linked.subrange(at + 14, at + 16) =~= new.subrange(14, 16));
        assert(linked.subrange(at + 4, at + 8) =~= new.subrange(4, 8));
        assert forall|b: int|
            at <= b < at + 4 || at + 8 <= b < at + 14 implies #[trigger] linked[b] == bytes[b] by {
            assert(new[b - at] == linked[b]);
            assert(old[b - at] == bytes[b]);
            if b < at + 4 {
                assert(new.subrange(0, 4)[b - at] == old.subrange(0, 4)[b - at]);
            } else if b < at + 12 {
                assert(new.subrange(8, 12)[b - at - 8] == old.subrange(8, 12)[b - at - 8]);
            }
        }
    }
}

/// Linking changes a byte only inside the entry of a symbol behind the first that has a
/// name and the section index zero, that is the last of that name, and that the kernel
/// lists.
pub proof fn law_linking_changes_nothing_else(
    bytes: Seq<u8>,
    image: ElfView,
    symbols: Seq<(Seq<char>, u64)>,
    b: int,
)
    requires
        bytes.len() <= usize::MAX,
        holds_symbols(bytes, image),
        0 <= b < bytes.len(),
    ensures
        ({
            let linked = bind_all(
                bytes,
                undefined_symbols(image),
                symbols,
                image.is_64,
                image.little_endian,
            ).0;
            let len = if image.is_64 {
                24int
            } else {
                16int
            };
            linked[b] != bytes[b] ==> exists|i: int, k: int|
                #![trigger image.symbols[i], symbols[k]]
                1 <= i < image.symbols.len() && image.symbols[i].record.st_shndx == 0 && 0 <= k
                    < symbols.len() && image.symbols[i].name == Some(symbols[k].0)
                    && image.symtab_offset + i * len <= b < image.symtab_offset + i * len + len
                    && forall|j: int|
                    i < j < image.symbols.len() && image.symbols[j].record.st_shndx == 0
                        ==> #[trigger] image.symbols[j].name != image.symbols[i].name
        }),
{
    let n = image.symbols.len() as int;
    let pending = undefined_symbols(image);
    let linked = bind_all(bytes, pending, symbols, image.is_64, image.little_endian).0;
    if linked[b] != bytes[b] {
        lemma_undefined_laid_out(image, bytes.len());
        law_first_address_is_bound(bytes, pending, symbols, image.is_64, image.little_endian);
        assert(is_rewritten(pending, symbols, image.is_64, b));
        lemma_rewritten(image, symbols, b);
        let i = choose|i: int|
            0 <= i < n && #[trigger] address_of(image, symbols, i) is Some && symbol_offset(
                image,
                i,
            ) <= b < symbol_offset(image, i) + symbol_len(image.is_64);
        let name = image.symbols[i].name->0;
        lemma_first_address_exists(symbols, name);
        let k = choose|k: int| 0 <= k < symbols.len() && (#[trigger] symbols[k]).0 == name;
        assert(image.symbols[i].name == Some(symbols[k].0));
        assert forall|j: int|
            i < j < n && image.symbols[j].record.st_shndx
                == 0 implies #[trigger] image.symbols[j].name != image.symbols[i].name by {
            if image.symbols[j].name is Some {
                assert(is_undefined(image, j));
            }
        }
    }
}

/// A symbol is missing after linking if and only if it was to be linked and the kernel does
/// not list it.
pub proof fn law_missing_symbols_are_unlisted(
    bytes: Seq<u8>,
    image: ElfView,
    symbols: Seq<(Seq<char>, u64)>,
    name: Seq<char>,
)
    requires
        bytes.len() <= usize::MAX,
        holds_symbols(bytes, image),
    ensures
        bind_all(
            bytes,
            undefined_symbols(image),
            symbols,
            image.is_64,
            image.little_endian,
        ).1.contains_key(name) <==> {
            &&& exists|i: int|
                #![trigger image.symbols[i]]
                1 <= i < image.symbols.len() && image.symbols[i].record.st_shndx == 0
                    && image.symbols[i].name == Some(name)
            &&& forall|k: int| 0 <= k < symbols.len() ==> (#[trigger] symbols[k]).0 != name
        },
{
    lemma_undefined_laid_out(image, bytes.len());
    law_first_address_is_bound(
        bytes,
        undefined_symbols(image),
        symbols,
        image.is_64,
        image.little_endian,
    );
    law_undefined_symbols_are_collected(image, name);
    lemma_first_address_exists(symbols, name);
}

/// A resolver that starts holds the module as it is, and waits for a symbol if and only if
/// the module has one of that name, behind the first, with the section index zero.
pub proof fn law_resolver_starts(resolver: Resolver, bytes: Seq<u8>, image: ElfView)
    requires
        resolver.starts(bytes, image),
    ensures
        resolver.buffer@ == bytes,
        resolver.is_64 == image.is_64,
        resolver.little_endian == image.little_endian,
        forall|name: Seq<char>| #[trigger]
            resolver.pending@.contains_key(name) <==> exists|i: int|
                #![trigger image.symbols[i]]
                1 <= i < image.symbols.len() && image.symbols[i].record.st_shndx == 0
                    && image.symbols[i].name == Some(name),
        forall|name: Seq<char>| #[trigger]
            resolver.pending@.contains_key(name) ==> texts(resolver.names@).contains(name),
{
    assert forall|name: Seq<char>| #[trigger]
        resolver.pending@.contains_key(name) <==> exists|i: int|
            #![trigger image.symbols[i]]
            1 <= i < image.symbols.len() && image.symbols[i].record.st_shndx == 0
                && image.symbols[i].name == Some(name) by {
        law_undefined_symbols_are_collected(image, name);
    }
}

/// A module has nothing to link if and only if no symbol behind the first has both a name
/// and the section index zero.
pub proof fn law_nothing_to_link(image: ElfView)
    ensures
        undefined_symbols(image).is_empty() <==> forall|i: int|
            #![trigger image.symbols[i]]
            1 <= i < image.symbols.len() && image.symbols[i].record.st_shndx == 0
                ==> image.symbols[i].name is None,
{
    let pending = undefined_symbols(image);
    if pending.is_empty() {
        assert forall|i: int|
            #![trigger image.symbols[i]]
            1 <= i < image.symbols.len() && image.symbols[i].record.st_shndx
                == 0 implies image.symbols[i].name is None by {
            if let Some(name) = image.symbols[i].name {
                law_undefined_symbols_are_collected(image, name);
                assert(pending.contains_key(name));
                assert(pending.dom().contains(name));
            }
        }
    } else {
        let name = pending.dom().choose();
        assert(pending.contains_key(name));
        law_undefined_symbols_are_collected(image, name);
        let i = choose|i: int|
            #![trigger image.symbols[i]]
            1 <= i < image.symbols.len() && image.symbols[i].record.st_shndx == 0
                && image.symbols[i].name == Some(name);
        assert(image.symbols[i].name is Some);
    }
}

} // verus!
