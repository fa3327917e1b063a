use modloader::elf::{ElfImage, SectionInfo, SymbolInfo, SymbolRecord};
use modloader::error::ErrorCode;
use modloader::kallsyms::{kernel_symbols_iter, KptrOwnedIter};
use modloader::loader::{
    advance, begin_linking, link_module, module_params, LoadAction, LoadEvent, LoadState,
};
use modloader::symbols::Resolver;
use modloader::vermagic::{
    locate_modinfo, move_modinfo, replace_module_vermagic, revise_module, ModinfoLocation,
    VermagicError,
};
use modloader::words::ElfError;

const MODINFO: &[u8] = b"license=GPL\0vermagic=5.4 old\0\0name=x\0";

/// A module file under construction.
struct Builder {
    is_64: bool,
    little_endian: bool,
    /// Name and section index of each symbol behind the first.
    symbols: Vec<(&'static str, u16)>,
    modinfo_name: &'static str,
    alignment: u64,
    modinfo_size: u64,
}

/// A finished module file and where its parts stand.
struct Module {
    bytes: Vec<u8>,
    symtab: usize,
    modinfo_header: usize,
}

impl Builder {
    fn new() -> Builder {
        Builder {
            is_64: true,
            little_endian: true,
            symbols: vec![("printk", 0), ("init_module", 1), ("kmalloc", 0)],
            modinfo_name: ".modinfo",
            alignment: 1,
            modinfo_size: MODINFO.len() as u64,
        }
    }

    fn put(&self, bytes: &mut Vec<u8>, value: u64, width: usize) {
        let all = value.to_le_bytes();
        let mut word = all[..width].to_vec();
        if !self.little_endian {
            word.reverse();
        }
        bytes.extend_from_slice(&word);
    }

    fn symbol(&self, name: u64, section: u64, value: u64, size: u64) -> Vec<u8> {
        let mut bytes = Vec::new();
        self.put(&mut bytes, name, 4);
        if self.is_64 {
            bytes.extend_from_slice(&[0x12, 0x03]);
            self.put(&mut bytes, section, 2);
            self.put(&mut bytes, value, 8);
            self.put(&mut bytes, size, 8);
        } else {
            self.put(&mut bytes, value, 4);
            self.put(&mut bytes, size, 4);
            bytes.extend_from_slice(&[0x12, 0x03]);
            self.put(&mut bytes, section, 2);
        }
        bytes
    }

    fn section(&self, name: u64, kind: u64, offset: u64, size: u64, link: u64, align: u64, entry: u64) -> Vec<u8> {
        let wide = if self.is_64 { 8 } else { 4 };
        let mut bytes = Vec::new();
        self.put(&mut bytes, name, 4);
        self.put(&mut bytes, kind, 4);
        self.put(&mut bytes, 0, wide);
        self.put(&mut bytes, 0, wide);
        self.put(&mut bytes, offset, wide);
        self.put(&mut bytes, size, wide);
        self.put(&mut bytes, link, 4);
        self.put(&mut bytes, 0, 4);
        self.put(&mut bytes, align, wide);
        self.put(&mut bytes, entry, wide);
        bytes
    }

    fn build(&self) -> Module {
        let wide = if self.is_64 { 8 } else { 4 };
        let header_len = if self.is_64 { 64 } else { 52 };
        let section_len = if self.is_64 { 64 } else { 40 };
        let symbol_len = if self.is_64 { 24 } else { 16 };

        let mut strtab = vec![0u8];
        let mut symtab = self.symbol(0, 0, 0, 0);
        for (name, section) in &self.symbols {
            symtab.extend(self.symbol(strtab.len() as u64, *section as u64, 0x77, 0x11));
            strtab.extend_from_slice(name.as_bytes());
            strtab.push(0);
        }
        let mut shstrtab = b"\0.symtab\0.strtab\0.shstrtab\0".to_vec();
        let modinfo_name = shstrtab.len() as u64;
        shstrtab.extend_from_slice(self.modinfo_name.as_bytes());
        shstrtab.push(0);

        let symtab_at = header_len;
        let strtab_at = symtab_at + symtab.len();
        let shstrtab_at = strtab_at + strtab.len();
        let modinfo_at = shstrtab_at + shstrtab.len();
        let table_at = (modinfo_at + MODINFO.len() + 7) / 8 * 8;

        let mut bytes = vec![0x7f, b'E', b'L', b'F'];
        bytes.push(if self.is_64 { 2 } else { 1 });
        bytes.push(if self.little_endian { 1 } else { 2 });
        bytes.push(1);
        bytes.resize(16, 0);
        self.put(&mut bytes, 1, 2);
        self.put(&mut bytes, 62, 2);
        self.put(&mut bytes, 1, 4);
        self.put(&mut bytes, 0, wide);
        self.put(&mut bytes, 0, wide);
        self.put(&mut bytes, table_at as u64, wide);
        self.put(&mut bytes, 0, 4);
        self.put(&mut bytes, header_len as u64, 2);
        self.put(&mut bytes, 0, 2);
        self.put(&mut bytes, 0, 2);
        self.put(&mut bytes, section_len as u64, 2);
        self.put(&mut bytes, 5, 2);
        self.put(&mut bytes, 3, 2);
        assert_eq!(bytes.len(), header_len);
        bytes.extend_from_slice(&symtab);
        bytes.extend_from_slice(&strtab);
        bytes.extend_from_slice(&shstrtab);
        bytes.extend_from_slice(MODINFO);
        bytes.resize(table_at, 0);
        bytes.extend(self.section(0, 0, 0, 0, 0, 0, 0));
        bytes.extend(self.section(1, 2, symtab_at as u64, symtab.len() as u64, 2, 8, symbol_len));
        bytes.extend(self.section(9, 3, strtab_at as u64, strtab.len() as u64, 0, 1, 0));
        bytes.extend(self.section(17, 3, shstrtab_at as u64, shstrtab.len() as u64, 0, 1, 0));
        bytes.extend(self.section(
            modinfo_name,
            1,
            modinfo_at as u64,
            self.modinfo_size,
            0,
            self.alignment,
            0,
        ));
        Module {
            bytes,
            symtab: symtab_at,
            modinfo_header: table_at + 4 * section_len,
        }
    }

    /// The entry of symbol `index` once it stands at an absolute address.
    fn bound(&self, name: u64, address: u64) -> Vec<u8> {
        self.symbol(name, 0xfff1, address, 0x11)
    }
}

fn kernel(text: &str) -> Result<KptrOwnedIter<(), std::vec::IntoIter<String>>, String> {
    let lines: Vec<String> = text.lines().map(|line| line.to_string()).collect();
    Ok(kernel_symbols_iter((), lines.into_iter()))
}

fn parsed(bytes: &[u8]) -> Resolver {
    match advance(LoadState::Reading, LoadEvent::File(Ok(bytes.to_vec()))) {
        (LoadState::Linking(resolver), LoadAction::ReadKallsyms) => resolver,
        _ => panic!("nothing to link"),
    }
}

/// The module after linking, and the symbols that are missing.
fn linked(bytes: &[u8], symbols: &str) -> (Vec<u8>, Vec<String>) {
    match link_module(parsed(bytes), kernel(symbols)) {
        (LoadState::OpeningLog { buffer }, LoadAction::OpenLog { missing }) => (buffer, missing),
        _ => panic!("not linked"),
    }
}

fn failure(step: (LoadState, LoadAction)) -> (ErrorCode, String) {
    match step {
        (LoadState::Finished, LoadAction::Finish(Err(error))) => error,
        _ => panic!("no failure"),
    }
}

fn is_success(step: &(LoadState, LoadAction)) -> bool {
    matches!(step, (LoadState::Finished, LoadAction::Finish(Ok(()))))
}

fn splice(bytes: &[u8], at: usize, piece: &[u8]) -> Vec<u8> {
    let mut result = bytes.to_vec();
    result[at..at + piece.len()].copy_from_slice(piece);
    result
}

#[test]
fn undefined_symbols_are_bound_to_the_kernel_addresses() {
    let builder = Builder::new();
    let module = builder.build();
    let (buffer, missing) = linked(
        &module.bytes,
        "ffffffff81000000 T _text\nffffffff81001000 T kmalloc\nffffffff81002000 T init_module\nffffffff81003000 T printk",
    );
    assert!(missing.is_empty());
    let expected = splice(&module.bytes, module.symtab + 24, &builder.bound(1, 0xffffffff81003000));
    let expected = splice(&expected, module.symtab + 3 * 24, &builder.bound(20, 0xffffffff81001000));
    assert_eq!(buffer, expected);
    assert_ne!(buffer, module.bytes);
}

#[test]
fn linking_works_in_the_other_byte_order() {
    let builder = Builder { little_endian: false, ..Builder::new() };
    let module = builder.build();
    let (buffer, missing) = linked(&module.bytes, "1122334455667788 T printk");
    assert_eq!(missing, vec!["kmalloc"]);
    assert_eq!(
        buffer,
        splice(&module.bytes, module.symtab + 24, &builder.bound(1, 0x1122334455667788))
    );
}

#[test]
fn linking_works_on_32_bit_modules() {
    let builder = Builder { is_64: false, ..Builder::new() };
    let module = builder.build();
    let (buffer, missing) = linked(&module.bytes, "c0001000 T kmalloc\nc0002000 T printk");
    assert!(missing.is_empty());
    let expected = splice(&module.bytes, module.symtab + 16, &builder.bound(1, 0xc0002000));
    let expected = splice(&expected, module.symtab + 3 * 16, &builder.bound(20, 0xc0001000));
    assert_eq!(buffer, expected);
}

#[test]
fn the_first_address_counts() {
    let builder = Builder::new();
    let module = builder.build();
    let (buffer, _) = linked(&module.bytes, "10 t printk$a\n20 T printk\n30 T other");
    assert_eq!(buffer, splice(&module.bytes, module.symtab + 24, &builder.bound(1, 0x10)));
}

#[test]
fn symbols_of_modules_are_not_linked_against() {
    let module = Builder::new().build();
    let (buffer, missing) = linked(&module.bytes, "10 T other\n20 t printk [m]\n30 T kmalloc");
    assert_eq!(buffer, module.bytes);
    assert_eq!(missing, vec!["printk", "kmalloc"]);
}

#[test]
fn of_two_undefined_symbols_with_one_name_the_last_is_linked() {
    let builder = Builder { symbols: vec![("same", 0), ("same", 0)], ..Builder::new() };
    let module = builder.build();
    let (buffer, missing) = linked(&module.bytes, "10 T same\n20 T same");
    assert!(missing.is_empty());
    assert_eq!(buffer, splice(&module.bytes, module.symtab + 2 * 24, &builder.bound(6, 0x10)));
}

#[test]
fn linked_symbols_are_read_back_by_a_parser() {
    let module = Builder::new().build();
    let (buffer, _) = linked(&module.bytes, "1000 T printk\n2000 T kmalloc");
    let elf = goblin::elf::Elf::parse(&buffer).unwrap();
    let symbols: Vec<(usize, u64)> = elf.syms.iter().map(|s| (s.st_shndx, s.st_value)).collect();
    assert_eq!(symbols, vec![(0, 0), (0xfff1, 0x1000), (1, 0x77), (0xfff1, 0x2000)]);
}

#[test]
fn a_linked_module_has_nothing_left_to_link() {
    for is_64 in [true, false] {
        let module = Builder { is_64, ..Builder::new() }.build();
        let (buffer, missing) = linked(&module.bytes, "1000 T kmalloc");
        assert_eq!(missing, vec!["printk"]);
        assert_eq!(parsed(&buffer).missing(), vec!["printk"]);
        let (buffer, missing) = linked(&buffer, "2000 T printk\n3000 T kmalloc");
        assert!(missing.is_empty());
        let elf = goblin::elf::Elf::parse(&buffer).unwrap();
        let values: Vec<u64> = elf.syms.iter().map(|s| s.st_value).collect();
        assert_eq!(values, vec![0, 0x2000, 0x77, 0x1000]);
        assert!(matches!(
            advance(LoadState::Reading, LoadEvent::File(Ok(buffer))),
            (LoadState::OpeningLog { .. }, LoadAction::OpenLog { .. })
        ));
    }
}

#[test]
fn a_symbol_name_may_be_the_end_of_a_longer_string() {
    let builder = Builder { symbols: vec![("__printk", 0)], ..Builder::new() };
    let mut bytes = builder.build().bytes;
    bytes[64 + 24] += 2;
    assert_eq!(parsed(&bytes).missing(), vec!["printk"]);
    bytes[64 + 24] = 0xff;
    assert!(matches!(
        advance(LoadState::Reading, LoadEvent::File(Ok(bytes))),
        (LoadState::OpeningLog { .. }, LoadAction::OpenLog { .. })
    ));
}

#[test]
fn the_last_symbol_table_counts() {
    let module = Builder::new().build();
    let mut bytes = module.bytes.clone();
    // The last section becomes a symbol table without entries.
    bytes[module.modinfo_header + 4] = 2;
    assert!(matches!(
        advance(LoadState::Reading, LoadEvent::File(Ok(bytes))),
        (LoadState::OpeningLog { .. }, LoadAction::OpenLog { .. })
    ));
}

#[test]
fn the_kernel_symbols_are_not_needed_without_undefined_symbols() {
    let module = Builder { symbols: vec![("init_module", 1)], ..Builder::new() }.build();
    match advance(LoadState::Reading, LoadEvent::File(Ok(module.bytes.clone()))) {
        (LoadState::OpeningLog { buffer }, LoadAction::OpenLog { missing }) => {
            assert_eq!(buffer, module.bytes);
            assert!(missing.is_empty());
        }
        _ => panic!("nothing should be linked"),
    }
}

#[test]
fn a_module_that_cannot_be_read_is_an_error() {
    let step = advance(LoadState::Reading, LoadEvent::File(Err("No such file".to_string())));
    assert_eq!(failure(step), (ErrorCode::ReadFileFailed, "No such file".to_string()));
}

#[test]
fn a_file_that_is_no_module_is_an_error() {
    let junk = b"#!/bin/sh\nexit 0\n".to_vec();
    let text = goblin::elf::Elf::parse(&junk).unwrap_err().to_string();
    let step = advance(LoadState::Reading, LoadEvent::File(Ok(junk)));
    assert_eq!(failure(step), (ErrorCode::ReadElfFailed, text));
}

#[test]
fn a_rejected_parse_ends_the_load() {
    let step = begin_linking(vec![1, 2, 3], Err("no".to_string()));
    assert_eq!(failure(step), (ErrorCode::ReadElfFailed, "no".to_string()));
}

#[test]
fn kernel_symbols_that_cannot_be_read_are_an_error() {
    let module = Builder::new().build();
    let unreadable: Result<KptrOwnedIter<(), std::vec::IntoIter<String>>, String> =
        Err("Permission denied".to_string());
    let step = link_module(parsed(&module.bytes), unreadable);
    assert_eq!(
        failure(step),
        (ErrorCode::ParseKallsymsFailed, "Permission denied".to_string())
    );
}

#[test]
fn a_symbol_table_of_which_nothing_can_be_told_is_an_error() {
    let module = Builder::new().build();
    for symbols in ["", "\n1 T printk", "  \t\n", "printk T 1", "T", "10000000000000000 T printk"] {
        assert_eq!(
            failure(link_module(parsed(&module.bytes), kernel(symbols))),
            (
                ErrorCode::ParseKallsymsFailed,
                "/proc/kallsyms does not begin with an address".to_string()
            )
        );
    }
    assert_eq!(ErrorCode::ParseKallsymsFailed.exit_code(), 20);
}

#[test]
fn a_symbol_table_that_begins_with_an_address_is_no_error() {
    let module = Builder::new().build();
    for symbols in ["1 t printk [m]\n2 T kmalloc", "1", "1 T other", "1 T other\nnoise\n2 T printk"] {
        let (buffer, missing) = linked(&module.bytes, symbols);
        assert_eq!(buffer, module.bytes);
        assert_eq!(missing, vec!["printk", "kmalloc"]);
    }
}

#[test]
fn linking_ends_once_nothing_is_missing() {
    let builder = Builder { symbols: vec![("printk", 0)], ..Builder::new() };
    let module = builder.build();
    let (buffer, missing) = linked(&module.bytes, "10 T printk\n20 T printk");
    assert!(missing.is_empty());
    assert_eq!(buffer, splice(&module.bytes, module.symtab + 24, &builder.bound(1, 0x10)));
}

#[test]
fn the_later_of_two_replacements_decides() {
    let module = Builder { alignment: 16, ..Builder::new() }.build();
    let mut twice = module.bytes.clone();
    replace_module_vermagic(&mut twice, "a much longer first vermagic").unwrap();
    replace_module_vermagic(&mut twice, "second").unwrap();
    let mut once = module.bytes.clone();
    replace_module_vermagic(&mut once, "second").unwrap();
    let section = |buffer: &[u8]| {
        let word = |at: usize| {
            let mut bytes = [0u8; 8];
            bytes.copy_from_slice(&buffer[at..at + 8]);
            u64::from_le_bytes(bytes) as usize
        };
        let start = word(module.modinfo_header + 0x18);
        let size = word(module.modinfo_header + 0x20);
        buffer[start..start + size].to_vec()
    };
    assert_eq!(section(&twice), section(&once));
    assert_eq!(section(&twice), b"license=GPL\0vermagic=second\0name=x\0".to_vec());
}

#[test]
fn the_kernel_is_given_the_module_once_the_log_was_tried() {
    for open in [false, true] {
        let state = LoadState::OpeningLog { buffer: vec![1, 2] };
        match advance(state, LoadEvent::Log(open)) {
            (LoadState::Loading { buffer, log }, LoadAction::Init) => {
                assert_eq!(buffer, vec![1, 2]);
                assert_eq!(log, open);
            }
            _ => panic!("the module should be loaded"),
        }
    }
}

#[test]
fn an_accepted_module_ends_the_load() {
    let first = LoadState::Loading { buffer: vec![], log: true };
    assert!(is_success(&advance(first, LoadEvent::Init(Ok(())))));
    let second = LoadState::Retrying { buffer: vec![] };
    assert!(is_success(&advance(second, LoadEvent::Init(Ok(())))));
}

#[test]
fn a_rejected_module_is_an_error_without_a_log() {
    let state = LoadState::Loading { buffer: vec![], log: false };
    let step = advance(state, LoadEvent::Init(Err("Exec format error".to_string())));
    assert_eq!(
        failure(step),
        (
            ErrorCode::InitModuleFailed,
            "init_module failed without vermagic mismatch: Exec format error".to_string()
        )
    );
}

#[test]
fn a_rejected_module_is_diagnosed_from_the_log() {
    let state = LoadState::Loading { buffer: vec![7], log: true };
    match advance(state, LoadEvent::Init(Err("Exec format error".to_string()))) {
        (LoadState::Diagnosing { buffer, error }, LoadAction::ReadLog) => {
            assert_eq!(buffer, vec![7]);
            assert_eq!(error, "Exec format error");
        }
        _ => panic!("the log should be read"),
    }
}

#[test]
fn a_log_without_a_mismatch_ends_the_load() {
    for log in [
        Err("Cannot read /dev/kmsg: why not".to_string()),
        Ok(String::new()),
        Ok("6;noise\n".to_string()),
    ] {
        let state = LoadState::Diagnosing { buffer: vec![7], error: "why".to_string() };
        assert_eq!(
            failure(advance(state, LoadEvent::Records(log))),
            (
                ErrorCode::InitModuleFailed,
                "init_module failed without vermagic mismatch: why".to_string()
            )
        );
    }
}

#[test]
fn a_mismatch_leads_to_a_second_attempt() {
    let module = Builder::new().build();
    let state = LoadState::Diagnosing { buffer: module.bytes.clone(), error: "why".to_string() };
    let log = "3,1,1,-;x: version magic '5.4 old' should be '6.1 new'\n".to_string();
    let announced = match advance(state, LoadEvent::Records(Ok(log))) {
        (LoadState::Revising { buffer, vermagic }, LoadAction::Announce { vermagic: announced }) => {
            assert_eq!(buffer, module.bytes);
            assert_eq!(announced, "6.1 new");
            LoadState::Revising { buffer, vermagic }
        }
        _ => panic!("the vermagic should be announced"),
    };
    match advance(announced, LoadEvent::Announced) {
        (LoadState::Retrying { buffer }, LoadAction::Retry { vermagic }) => {
            assert_eq!(vermagic, "6.1 new");
            let mut expected = module.bytes.clone();
            replace_module_vermagic(&mut expected, "6.1 new").unwrap();
            assert_eq!(buffer, expected);
        }
        _ => panic!("there should be a second attempt"),
    }
}

#[test]
fn a_vermagic_that_cannot_be_replaced_is_an_error() {
    let module = Builder { modinfo_name: ".other", ..Builder::new() }.build();
    let state = LoadState::Revising { buffer: module.bytes, vermagic: "b".to_string() };
    assert_eq!(
        failure(advance(state, LoadEvent::Announced)),
        (ErrorCode::ReplaceVermagicFailed, "Module has no .modinfo section".to_string())
    );
    let text = goblin::elf::Elf::parse(b"junk").unwrap_err().to_string();
    let state = LoadState::Revising { buffer: b"junk".to_vec(), vermagic: "b".to_string() };
    assert_eq!(
        failure(advance(state, LoadEvent::Announced)),
        (ErrorCode::ReplaceVermagicFailed, text)
    );
}

#[test]
fn a_second_rejection_is_an_error() {
    let state = LoadState::Retrying { buffer: vec![] };
    let step = advance(state, LoadEvent::Init(Err("Exec format error".to_string())));
    assert_eq!(failure(step), (ErrorCode::InitModuleFailed, "Exec format error".to_string()));
}

#[test]
fn a_load_gives_the_module_to_the_kernel_at_most_twice() {
    let module = Builder::new().build();
    let mut attempts = 0;
    let mut state = LoadState::Reading;
    let mut event = LoadEvent::File(Ok(module.bytes));
    loop {
        let (next, action) = advance(state, event);
        let (next, action) = match next {
            LoadState::Linking(resolver) => link_module(resolver, kernel("1 T printk")),
            other => (other, action),
        };
        state = next;
        event = match action {
            LoadAction::OpenLog { .. } => LoadEvent::Log(true),
            LoadAction::Init | LoadAction::Retry { .. } => {
                attempts += 1;
                LoadEvent::Init(Err("no".to_string()))
            }
            LoadAction::ReadLog => {
                LoadEvent::Records(Ok("version magic 'a' should be 'b'".to_string()))
            }
            LoadAction::Announce { .. } => LoadEvent::Announced,
            LoadAction::Finish(outcome) => {
                assert_eq!(outcome, Err((ErrorCode::InitModuleFailed, "no".to_string())));
                break;
            }
            LoadAction::ReadKallsyms => unreachable!(),
        };
    }
    assert_eq!(attempts, 2);
}

#[test]
fn parameters_with_a_zero_character_are_dropped() {
    assert_eq!(module_params(Some("a=1 b=2")), "a=1 b=2");
    assert_eq!(module_params(Some("")), "");
    assert_eq!(module_params(Some("a=\0")), "");
    assert_eq!(module_params(None), "");
}

#[test]
fn the_new_modinfo_is_appended_and_pointed_at() {
    for little_endian in [true, false] {
        let module = Builder { little_endian, alignment: 64, ..Builder::new() }.build();
        let mut buffer = module.bytes.clone();
        assert!(replace_module_vermagic(&mut buffer, "6.1 new").is_ok());

        let new = b"license=GPL\0vermagic=6.1 new\0name=x\0";
        let offset = (module.bytes.len() + 63) / 64 * 64;
        let mut expected = module.bytes.clone();
        expected.resize(offset, 0);
        expected.extend_from_slice(new);
        let words = |value: usize| {
            if little_endian {
                (value as u64).to_le_bytes()
            } else {
                (value as u64).to_be_bytes()
            }
        };
        let expected = splice(&expected, module.modinfo_header + 0x18, &words(offset));
        let expected = splice(&expected, module.modinfo_header + 0x20, &words(new.len()));
        assert_eq!(buffer, expected);

        let elf = goblin::elf::Elf::parse(&buffer).unwrap();
        let section = &elf.section_headers[4];
        assert_eq!(&buffer[section.file_range().unwrap()], &new[..]);
    }
}

#[test]
fn a_replaced_vermagic_can_be_replaced_again() {
    let module = Builder::new().build();
    let mut buffer = module.bytes;
    replace_module_vermagic(&mut buffer, "first").unwrap();
    replace_module_vermagic(&mut buffer, "second").unwrap();
    let elf = goblin::elf::Elf::parse(&buffer).unwrap();
    let section = &elf.section_headers[4];
    assert_eq!(
        &buffer[section.file_range().unwrap()],
        &b"license=GPL\0vermagic=second\0name=x\0"[..]
    );
}

#[test]
fn a_section_name_may_be_the_end_of_a_longer_string() {
    let module = Builder { modinfo_name: ".rela.modinfo", ..Builder::new() }.build();
    let mut buffer = module.bytes.clone();
    assert!(replace_module_vermagic(&mut buffer, "v").is_err());
    buffer[module.modinfo_header] += 5;
    assert!(replace_module_vermagic(&mut buffer, "v").is_ok());
    assert!(replace_module_vermagic(&mut buffer, "w").is_ok());
    assert!(buffer.ends_with(b"license=GPL\0vermagic=w\0name=x\0"));
}

#[test]
fn a_file_that_cannot_be_parsed_keeps_its_bytes() {
    let mut buffer = b"junk".to_vec();
    let text = goblin::elf::Elf::parse(b"junk").unwrap_err().to_string();
    match replace_module_vermagic(&mut buffer, "v") {
        Err(VermagicError::Parse(message)) => assert_eq!(message, text),
        other => panic!("{:?}", other),
    }
    assert_eq!(buffer, b"junk".to_vec());
}

fn layout_error(builder: Builder) -> ElfError {
    let module = builder.build();
    let mut buffer = module.bytes.clone();
    match replace_module_vermagic(&mut buffer, "v") {
        Err(VermagicError::Layout(error)) => {
            assert_eq!(buffer, module.bytes);
            error
        }
        other => panic!("{:?}", other),
    }
}

#[test]
fn a_vermagic_is_replaced_in_64_bit_modules_only() {
    assert_eq!(layout_error(Builder { is_64: false, ..Builder::new() }), ElfError::NotElf64);
}

#[test]
fn a_module_without_modinfo_is_an_error() {
    assert_eq!(
        layout_error(Builder { modinfo_name: ".modinf", ..Builder::new() }),
        ElfError::NoModinfo
    );
}

#[test]
fn a_modinfo_behind_the_module_is_an_error() {
    assert_eq!(
        layout_error(Builder { modinfo_size: 0x1000_0000, ..Builder::new() }),
        ElfError::ModinfoOutsideBuffer
    );
    assert_eq!(
        layout_error(Builder { modinfo_size: u64::MAX, ..Builder::new() }),
        ElfError::ModinfoRangeOverflow
    );
}

#[test]
fn an_alignment_that_is_no_power_of_two_is_an_error() {
    assert_eq!(
        layout_error(Builder { alignment: 12, ..Builder::new() }),
        ElfError::InvalidAlignment(12)
    );
    assert_eq!(
        layout_error(Builder { alignment: u64::MAX, ..Builder::new() }),
        ElfError::InvalidAlignment(usize::MAX)
    );
}

fn image(sections: Vec<SectionInfo>) -> ElfImage {
    ElfImage {
        is_64: true,
        little_endian: true,
        e_shoff: 64,
        e_shentsize: 64,
        sections,
        symtab_offset: 0,
        symbols: vec![],
    }
}

fn section(name: Option<&str>, sh_offset: u64, sh_size: u64, sh_addralign: u64) -> SectionInfo {
    SectionInfo { name: name.map(|name| name.to_string()), sh_offset, sh_size, sh_addralign }
}

#[test]
fn the_first_modinfo_section_is_located() {
    let found = image(vec![
        section(None, 0, 0, 0),
        section(Some(".text"), 1, 2, 4),
        section(Some(".modinfo"), 10, 20, 8),
        section(Some(".modinfo"), 40, 5, 1),
    ]);
    assert_eq!(
        locate_modinfo(&found, 30),
        Ok(ModinfoLocation {
            offset: 10,
            size: 20,
            section_header_offset: 64 + 2 * 64,
            alignment: 8,
            little_endian: true,
        })
    );
    assert_eq!(locate_modinfo(&found, 29), Err(ElfError::ModinfoOutsideBuffer));
}

#[test]
fn a_modinfo_section_without_alignment_is_aligned_to_bytes() {
    let found = image(vec![section(Some(".modinfo"), 0, 0, 0)]);
    assert_eq!(locate_modinfo(&found, 0).unwrap().alignment, 1);
}

#[test]
fn a_section_header_beyond_the_address_space_is_an_error() {
    let mut found = image(vec![section(None, 0, 0, 0), section(Some(".modinfo"), 0, 4, 1)]);
    found.e_shoff = usize::MAX as u64 - 10;
    assert_eq!(locate_modinfo(&found, 8), Err(ElfError::SectionHeaderOffsetOverflow));
}

#[test]
fn a_section_header_behind_the_module_keeps_the_new_section() {
    let mut buffer = b"vermagic=a\0".to_vec();
    let mut found = image(vec![section(Some(".modinfo"), 0, 11, 1)]);
    found.e_shoff = 4096;
    assert_eq!(revise_module(&mut buffer, &found, "b"), Err(ElfError::WriteOutsideBuffer));
    assert_eq!(buffer, b"vermagic=a\0vermagic=b\0".to_vec());
}

#[test]
fn a_section_header_at_the_end_of_the_address_space_is_an_error() {
    let mut buffer = b"vermagic=a\0".to_vec();
    let location = ModinfoLocation {
        offset: 0,
        size: 11,
        section_header_offset: usize::MAX - 4,
        alignment: 1,
        little_endian: true,
    };
    assert_eq!(move_modinfo(&mut buffer, location, "b"), Err(ElfError::WriteOverflow));
}

#[test]
fn the_first_and_the_nameless_symbols_are_not_linked() {
    let record = SymbolRecord {
        st_name: 1,
        st_info: 0,
        st_other: 0,
        st_shndx: 0,
        st_value: 0,
        st_size: 0,
    };
    let mut found = image(vec![]);
    found.symbols = vec![
        SymbolInfo { name: Some("first".to_string()), record },
        SymbolInfo { name: None, record },
        SymbolInfo { name: Some("second".to_string()), record },
    ];
    let resolver = Resolver::new(vec![0; 72], &found);
    assert_eq!(resolver.missing(), vec!["second"]);
}
