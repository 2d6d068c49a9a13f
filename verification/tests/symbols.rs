//! The functions of a program, and which of them match some patterns.

use jeprofl::session::{clean_patterns, match_symbols, resolve_matches, MatchError};
use jeprofl::symbols::{
    do_addresses_fit, filter_symbols, list_text_symbols, select_hits, select_unmatched, sym_entry, unmatched_patterns,
    usable_symbols, MatchMode, RawSymbol, SymEntry, SymbolError,
};
use object::write::{Object, StandardSection, Symbol, SymbolSection};
use object::{Architecture, BinaryFormat, Endianness, SymbolFlags, SymbolKind, SymbolScope};

fn function(name: &str, value: u64) -> (String, u64, bool) {
    (String::from(name), value, true)
}

fn elf(symbols: &[(String, u64, bool)]) -> Vec<u8> {
    let mut obj = Object::new(BinaryFormat::Elf, Architecture::X86_64, Endianness::Little);
    let text = obj.section_id(StandardSection::Text);
    obj.append_section_data(text, &[0xc3; 256], 16);
    for (name, value, is_text) in symbols {
        obj.add_symbol(Symbol {
            name: name.as_bytes().to_vec(),
            value: *value,
            size: 1,
            kind: if *is_text { SymbolKind::Text } else { SymbolKind::Data },
            scope: SymbolScope::Dynamic,
            weak: false,
            section: SymbolSection::Section(text),
            flags: SymbolFlags::None,
        });
    }
    obj.write().expect("write object")
}

fn program_with_marker() -> Vec<u8> {
    elf(&[
        function("other_function", 32),
        function("jeprofl_symbols_test_marker", 16),
        function("_ZN3foo3barE", 48),
    ])
}

#[test]
fn list_symbols_in_proc_self_includes_marker() {
    let symbols = list_text_symbols(&program_with_marker()).expect("load program");
    let marker = symbols
        .iter()
        .find(|sym| sym.mangled == "jeprofl_symbols_test_marker")
        .expect("marker present");
    assert_eq!(marker.demangled, "jeprofl_symbols_test_marker");
}

#[test]
fn filter_exact_matches_marker() {
    let symbols = list_text_symbols(&program_with_marker()).expect("load program");
    let matches = filter_symbols(
        &symbols,
        &[String::from("jeprofl_symbols_test_marker")],
        MatchMode::Exact,
    )
    .expect("filter exact");
    assert!(
        matches
            .iter()
            .any(|sym| sym.mangled == "jeprofl_symbols_test_marker"),
        "exact match returns marker"
    );
}

#[test]
fn filter_contains_matches_marker() {
    let symbols = list_text_symbols(&program_with_marker()).expect("load program");
    let matches = filter_symbols(
        &symbols,
        &[String::from("symbols_test_marker")],
        MatchMode::Contains,
    )
    .expect("filter contains");
    assert!(
        matches
            .iter()
            .any(|sym| sym.mangled == "jeprofl_symbols_test_marker"),
        "contains match returns marker"
    );
}

#[test]
fn filter_regex_matches_marker() {
    let symbols = list_text_symbols(&program_with_marker()).expect("load program");
    let matches = filter_symbols(
        &symbols,
        &[String::from(r"jeprofl_symbols_test_.*")],
        MatchMode::Regex,
    )
    .expect("filter regex");
    assert!(
        matches
            .iter()
            .any(|sym| sym.mangled == "jeprofl_symbols_test_marker"),
        "regex match returns marker"
    );
}

#[test]
fn mangled_names_are_demangled() {
    let symbols = list_text_symbols(&program_with_marker()).expect("load program");
    let bar = symbols
        .iter()
        .find(|sym| sym.mangled == "_ZN3foo3barE")
        .expect("function present");
    assert_eq!(bar.demangled, "foo::bar");
    assert_eq!(bar.addr, 48);
}

#[test]
fn addresses_come_from_the_symbol_table() {
    let symbols = list_text_symbols(&program_with_marker()).expect("load program");
    let mut found: Vec<(String, u64)> =
        symbols.into_iter().map(|sym| (sym.mangled, sym.addr)).collect();
    found.sort();
    assert_eq!(
        found,
        vec![
            (String::from("_ZN3foo3barE"), 48),
            (String::from("jeprofl_symbols_test_marker"), 16),
            (String::from("other_function"), 32),
        ]
    );
}

#[test]
fn data_and_functions_at_zero_are_not_listed() {
    let data = elf(&[
        (String::from("a_table"), 64, false),
        function("at_zero", 0),
        function("kept", 80),
    ]);
    let symbols = list_text_symbols(&data).expect("load program");
    assert_eq!(symbols.len(), 1);
    assert_eq!(symbols[0].mangled, "kept");
}

#[test]
fn bytes_that_are_no_object_file_are_refused() {
    assert!(matches!(list_text_symbols(b"no object file"), Err(SymbolError::Parse(_))));
    assert!(matches!(list_text_symbols(&[]), Err(SymbolError::Parse(_))));
}

#[test]
fn a_program_without_functions_is_refused() {
    let data = elf(&[(String::from("a_table"), 64, false)]);
    assert!(matches!(list_text_symbols(&data), Err(SymbolError::NoTextSymbols)));
}

fn raw(text: bool, undefined: bool, name: Option<&str>, address: u64) -> RawSymbol {
    RawSymbol { text, undefined, name: name.map(String::from), address }
}

#[test]
fn only_defined_named_functions_are_usable() {
    let table = vec![
        raw(false, false, Some("data"), 1),
        raw(true, true, Some("imported"), 1),
        raw(true, false, None, 1),
        raw(true, false, Some("at_zero"), 0),
        raw(true, false, Some(""), 1),
        raw(true, false, Some("first"), 7),
        raw(true, false, Some("second"), 9),
    ];
    assert_eq!(
        usable_symbols(&table),
        vec![(String::from("first"), 7), (String::from("second"), 9)]
    );
}

#[test]
fn a_name_that_is_not_mangled_stays_as_it_is() {
    let plain = sym_entry(&String::from("malloc"), None, 3);
    assert_eq!((plain.mangled.as_str(), plain.demangled.as_str(), plain.addr), ("malloc", "malloc", 3));
    let mangled = sym_entry(&String::from("_Zx"), Some(String::from("x::y")), 4);
    assert_eq!((mangled.mangled.as_str(), mangled.demangled.as_str(), mangled.addr), ("_Zx", "x::y", 4));
}

fn entry(mangled: &str, demangled: &str, addr: u64) -> SymEntry {
    SymEntry { mangled: String::from(mangled), demangled: String::from(demangled), addr }
}

fn names(symbols: &[&SymEntry]) -> Vec<String> {
    symbols.iter().map(|sym| sym.mangled.clone()).collect()
}

fn texts(patterns: &[&str]) -> Vec<String> {
    patterns.iter().map(|pattern| String::from(*pattern)).collect()
}

fn three() -> Vec<SymEntry> {
    vec![
        entry("m1", "je::malloc", 1),
        entry("m2", "je::calloc", 2),
        entry("m1", "je::malloc", 3),
        entry("m3", "malloc", 4),
    ]
}

#[test]
fn selection_keeps_the_order_and_each_mangled_name_once() {
    let all = three();
    let found = filter_symbols(&all, &texts(&["alloc"]), MatchMode::Contains).unwrap();
    assert_eq!(names(&found), texts(&["m1", "m2", "m3"]));
    assert_eq!(found[0].addr, 1);
    let found = filter_symbols(&all, &texts(&["malloc", "calloc"]), MatchMode::Contains).unwrap();
    assert_eq!(names(&found), texts(&["m1", "m2", "m3"]));
}

#[test]
fn exact_patterns_match_the_whole_name() {
    let all = three();
    let found = filter_symbols(&all, &texts(&["malloc"]), MatchMode::Exact).unwrap();
    assert_eq!(names(&found), texts(&["m3"]));
    assert!(filter_symbols(&all, &texts(&["alloc"]), MatchMode::Exact).unwrap().is_empty());
}

#[test]
fn regular_expressions_match_anywhere() {
    let all = three();
    let found = filter_symbols(&all, &texts(&["^je::.a"]), MatchMode::Regex).unwrap();
    assert_eq!(names(&found), texts(&["m1", "m2"]));
    let found = filter_symbols(&all, &texts(&["^m"]), MatchMode::Regex).unwrap();
    assert_eq!(names(&found), texts(&["m3"]));
}

#[test]
fn no_pattern_and_empty_patterns_select_nothing() {
    let all = three();
    for mode in [MatchMode::Contains, MatchMode::Exact, MatchMode::Regex] {
        assert!(filter_symbols(&all, &[], mode).unwrap().is_empty());
        assert!(filter_symbols(&all, &texts(&["", ""]), mode).unwrap().is_empty());
    }
}

#[test]
fn a_pattern_that_does_not_compile_is_refused() {
    let all = three();
    assert!(matches!(
        filter_symbols(&all, &texts(&["malloc", "("]), MatchMode::Regex),
        Err(SymbolError::InvalidRegex(_))
    ));
    assert!(matches!(
        unmatched_patterns(&all, &texts(&["("]), MatchMode::Regex),
        Err(SymbolError::InvalidRegex(_))
    ));
    assert!(filter_symbols(&all, &texts(&["("]), MatchMode::Contains).unwrap().is_empty());
}

#[test]
fn unmatched_patterns_are_those_that_match_nothing() {
    let all = three();
    let patterns = texts(&["malloc", "free", "je::", "realloc"]);
    assert_eq!(
        unmatched_patterns(&all, &patterns, MatchMode::Contains).unwrap(),
        vec!["free", "realloc"]
    );
    assert_eq!(
        unmatched_patterns(&all, &patterns, MatchMode::Exact).unwrap(),
        vec!["free", "je::", "realloc"]
    );
    assert_eq!(
        unmatched_patterns(&all, &texts(&["^mal", "^cal"]), MatchMode::Regex).unwrap(),
        vec!["^cal"]
    );
}

#[test]
fn an_empty_pattern_matches_as_text() {
    let all = three();
    assert!(unmatched_patterns(&all, &texts(&[""]), MatchMode::Contains).unwrap().is_empty());
    assert!(unmatched_patterns(&all, &texts(&[""]), MatchMode::Regex).unwrap().is_empty());
    assert_eq!(unmatched_patterns(&all, &texts(&[""]), MatchMode::Exact).unwrap(), vec![""]);
}

#[test]
fn flags_decide_what_is_selected() {
    let all = three();
    assert_eq!(names(&select_hits(&all, &vec![true, false, true, true])), texts(&["m1", "m3"]));
    assert_eq!(select_hits(&all, &vec![false, false, true, false])[0].addr, 3);
    let patterns = texts(&["a", "b", "c"]);
    assert_eq!(select_unmatched(&patterns, &vec![false, true, false]), vec!["a", "c"]);
}

#[test]
fn nothing_is_selected_exactly_when_every_pattern_is_unmatched() {
    let all = three();
    for patterns in [texts(&["free", "mmap"]), texts(&["free", "malloc"])] {
        let selected = filter_symbols(&all, &patterns, MatchMode::Contains).unwrap();
        let unmatched = unmatched_patterns(&all, &patterns, MatchMode::Contains).unwrap();
        assert_eq!(selected.is_empty(), unmatched.len() == patterns.len());
    }
}

#[test]
fn matching_gives_the_functions_and_the_missing_patterns() {
    let all = three();
    let found = match_symbols(&all, &texts(&["calloc", "free"]), MatchMode::Contains).unwrap();
    assert_eq!(found.matches.len(), 1);
    assert_eq!(found.matches[0].mangled, "m2");
    assert_eq!(found.matches[0].demangled, "je::calloc");
    assert_eq!(found.matches[0].addr, 2);
    assert_eq!(found.missing, texts(&["free"]));
    assert!(matches!(
        match_symbols(&all, &texts(&["free"]), MatchMode::Contains),
        Err(MatchError::NoMatch)
    ));
    assert!(matches!(
        match_symbols(&all, &texts(&["["]), MatchMode::Regex),
        Err(MatchError::Symbols(SymbolError::InvalidRegex(_)))
    ));
}

#[test]
fn functions_of_a_program_are_matched() {
    let data = program_with_marker();
    let patterns = clean_patterns(&texts(&[" foo::bar ", "nothing"])).unwrap();
    let found = resolve_matches(&data, &patterns, MatchMode::Exact).unwrap();
    assert_eq!(found.matches.len(), 1);
    assert_eq!(found.matches[0].mangled, "_ZN3foo3barE");
    assert_eq!(found.missing, texts(&["nothing"]));
    assert!(matches!(
        resolve_matches(&data, &texts(&["nothing"]), MatchMode::Exact),
        Err(MatchError::NoMatch)
    ));
    assert!(matches!(
        resolve_matches(b"", &texts(&["nothing"]), MatchMode::Exact),
        Err(MatchError::Symbols(SymbolError::Parse(_)))
    ));
}

/// The 64-bit image of a Windows program with one section and one function in it.
fn windows_image(image_base: u64, section_address: u32, value: u32) -> Vec<u8> {
    let headers: usize = 0x40;
    let symbols: usize = headers + 24 + 112 + 40;
    let mut data = vec![0u8; symbols + 18 + 4];
    let mut put = |at: usize, bytes: &[u8]| data[at..at + bytes.len()].copy_from_slice(bytes);
    put(0, b"MZ");
    put(0x3c, &(headers as u32).to_le_bytes());
    put(headers, b"PE\0\0");
    put(headers + 4, &0x8664u16.to_le_bytes());
    put(headers + 6, &1u16.to_le_bytes());
    put(headers + 12, &(symbols as u32).to_le_bytes());
    put(headers + 16, &1u32.to_le_bytes());
    put(headers + 20, &112u16.to_le_bytes());
    put(headers + 24, &0x20bu16.to_le_bytes());
    put(headers + 48, &image_base.to_le_bytes());
    put(headers + 136, b".text");
    put(headers + 148, &section_address.to_le_bytes());
    put(symbols, b"marker");
    put(symbols + 8, &value.to_le_bytes());
    put(symbols + 12, &1u16.to_le_bytes());
    put(symbols + 14, &0x20u16.to_le_bytes());
    put(symbols + 16, &[2]);
    put(symbols + 18, &4u32.to_le_bytes());
    data
}

#[test]
fn an_address_in_a_windows_image_is_a_sum() {
    let data = windows_image(0x1_4000_0000, 0x1000, 0x20);
    assert!(do_addresses_fit(&data));
    let symbols = list_text_symbols(&data).expect("load program");
    assert_eq!(symbols.len(), 1);
    assert_eq!(symbols[0].mangled, "marker");
    assert_eq!(symbols[0].addr, 0x1_4000_1020);
}

#[test]
fn the_largest_base_of_an_image_leaves_room_for_every_address() {
    let limit = u64::MAX - 2 * u32::MAX as u64;
    let data = windows_image(limit, u32::MAX, u32::MAX);
    assert!(do_addresses_fit(&data));
    let symbols = list_text_symbols(&data).expect("load program");
    assert_eq!(symbols[0].addr, u64::MAX);
    assert!(!do_addresses_fit(&windows_image(limit + 1, 0, 0)));
    assert!(!do_addresses_fit(&windows_image(u64::MAX, 0, 0)));
}

#[test]
fn addresses_of_other_files_fit() {
    let image = windows_image(u64::MAX, 0, 0);
    assert!(do_addresses_fit(&program_with_marker()));
    assert!(do_addresses_fit(b""));
    assert!(do_addresses_fit(b"MZ"));
    assert!(do_addresses_fit(&image[..0x40]));
    assert!(do_addresses_fit(&image[..0x40 + 55]));
    assert!(!do_addresses_fit(&image[..0x40 + 56]));
    let mut narrow = image.clone();
    narrow[0x40 + 25] = 1;
    assert!(do_addresses_fit(&narrow));
    let mut unmarked = image.clone();
    unmarked[0] = b'N';
    assert!(do_addresses_fit(&unmarked));
    let mut away = image.clone();
    away[0x3f] = 0xff;
    assert!(do_addresses_fit(&away));
}
