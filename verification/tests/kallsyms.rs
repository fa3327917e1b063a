use modloader::kallsyms::{
    begins_with_address, for_each_kernel_symbols, kernel_symbols_iter, parse_symbol_line,
    SymbolVisitor,
};

fn symbol(name: &str, address: u64) -> Option<(String, u64)> {
    Some((name.to_string(), address))
}

fn lines(text: &str) -> std::vec::IntoIter<String> {
    text.lines().map(|line| line.to_string()).collect::<Vec<String>>().into_iter()
}

struct Collector {
    seen: Vec<(String, u64)>,
    wanted: usize,
    fails_at: Option<usize>,
}

impl SymbolVisitor for Collector {
    type Error = String;

    fn visit(&mut self, symbol: &(String, u64)) -> Result<bool, String> {
        if self.fails_at == Some(self.seen.len()) {
            return Err("enough".to_string());
        }
        self.seen.push(symbol.clone());
        Ok(self.seen.len() < self.wanted)
    }
}

#[test]
fn a_line_names_a_symbol_and_its_address() {
    assert_eq!(
        parse_symbol_line("ffffffff81000000 T _text"),
        symbol("_text", 0xffffffff81000000)
    );
    assert_eq!(
        parse_symbol_line("0000000000000000 A fixed_percpu_data"),
        symbol("fixed_percpu_data", 0)
    );
    assert_eq!(parse_symbol_line("  1f\tt   spaced\u{2003}"), symbol("spaced", 0x1f));
}

#[test]
fn a_line_of_a_module_symbol_is_no_kernel_symbol() {
    assert_eq!(parse_symbol_line("ffffffffc0000000 t helper\t[some_module]"), None);
}

#[test]
fn a_line_with_parts_missing_names_nothing() {
    assert_eq!(parse_symbol_line(""), None);
    assert_eq!(parse_symbol_line("ffffffff81000000"), None);
    assert_eq!(parse_symbol_line("ffffffff81000000 T"), None);
}

#[test]
fn an_address_is_a_hexadecimal_number() {
    assert_eq!(parse_symbol_line("fFfFfFfFfFfFfFfF T top"), symbol("top", u64::MAX));
    assert_eq!(parse_symbol_line("+10 T plus"), symbol("plus", 16));
    assert_eq!(parse_symbol_line("00000000000000000000010 T zeros"), symbol("zeros", 16));
    assert_eq!(parse_symbol_line("10000000000000000 T wide"), None);
    assert_eq!(parse_symbol_line("+ T sign"), None);
    assert_eq!(parse_symbol_line("-10 T minus"), None);
    assert_eq!(parse_symbol_line("0x10 T prefixed"), None);
    assert_eq!(parse_symbol_line("1g T letter"), None);
}

#[test]
fn a_suffix_of_the_compiler_is_cut_off() {
    assert_eq!(parse_symbol_line("1 t name$abcdef"), symbol("name", 1));
    assert_eq!(parse_symbol_line("1 t name.llvm.12345"), symbol("name", 1));
    assert_eq!(parse_symbol_line("1 t name.llvm.1$2"), symbol("name.llvm.1", 1));
    assert_eq!(parse_symbol_line("1 t name.llvm"), symbol("name.llvm", 1));
    assert_eq!(parse_symbol_line("1 t a.llvm.b.llvm.c"), symbol("a", 1));
    assert_eq!(parse_symbol_line("1 t $x"), symbol("", 1));
}

#[test]
fn a_line_may_begin_with_an_address() {
    assert!(begins_with_address("1f T name"));
    assert!(begins_with_address("\t+1f"));
    assert!(!begins_with_address(""));
    assert!(!begins_with_address("   "));
    assert!(!begins_with_address("name 1f"));
}

#[test]
fn lines_are_read_one_by_one() {
    let mut symbols = kernel_symbols_iter((), lines("noise\n1 T a"));
    assert_eq!(symbols.next_line(), Some("noise".to_string()));
    assert_eq!(symbols.next(), symbol("a", 1));
    assert_eq!(symbols.next_line(), None);
}

#[test]
fn reading_stops_at_the_first_line_that_names_no_kernel_symbol() {
    let mut symbols = kernel_symbols_iter((), lines("1 T a\n2 T b\n3 t c [m]\n4 T d"));
    assert_eq!(symbols.next(), symbol("a", 1));
    assert_eq!(symbols.next(), symbol("b", 2));
    assert_eq!(symbols.next(), None);
}

#[test]
fn every_symbol_is_visited_in_order() {
    let mut all = Collector { seen: vec![], wanted: 10, fails_at: None };
    let result = for_each_kernel_symbols(
        kernel_symbols_iter((), lines("1 T a\n2 T b.llvm.7\nnot a symbol line\n4 T d")),
        &mut all,
    );
    assert_eq!(result, Ok(()));
    assert_eq!(all.seen, vec![("a".to_string(), 1), ("b".to_string(), 2)]);
}

#[test]
fn visiting_ends_when_no_more_symbols_are_wanted() {
    let mut two = Collector { seen: vec![], wanted: 2, fails_at: None };
    let result =
        for_each_kernel_symbols(kernel_symbols_iter((), lines("1 T a\n2 T b\n3 T c")), &mut two);
    assert_eq!(result, Ok(()));
    assert_eq!(two.seen, vec![("a".to_string(), 1), ("b".to_string(), 2)]);
}

#[test]
fn visiting_ends_with_the_error_of_a_visit() {
    let mut failing = Collector { seen: vec![], wanted: 10, fails_at: Some(1) };
    let symbols = kernel_symbols_iter((), lines("1 T a\n2 T b\n3 T c"));
    let result = for_each_kernel_symbols(symbols, &mut failing);
    assert_eq!(result, Err("enough".to_string()));
    assert_eq!(failing.seen, vec![("a".to_string(), 1)]);
}

#[test]
fn the_guard_is_held_while_symbols_are_read() {
    let guard = std::rc::Rc::new(());
    let mut symbols = kernel_symbols_iter(guard.clone(), lines("1 T a"));
    assert_eq!(std::rc::Rc::strong_count(&guard), 2);
    assert_eq!(symbols.next(), symbol("a", 1));
    assert_eq!(std::rc::Rc::strong_count(&guard), 2);
    let mut all = Collector { seen: vec![], wanted: 10, fails_at: None };
    assert_eq!(for_each_kernel_symbols(symbols, &mut all), Ok(()));
    assert_eq!(std::rc::Rc::strong_count(&guard), 1);
}
