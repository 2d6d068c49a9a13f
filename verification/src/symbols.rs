//! The functions of a program, and which of them match some patterns.

use object::{Object, ObjectSymbol};
use vstd::hash_set::StringHashSet;
use vstd::prelude::*;

verus! {

/// A function of a program.
#[derive(Clone, Debug)]
pub struct SymEntry {
    pub mangled: String,
    pub demangled: String,
    pub addr: u64,
}

/// A `SymEntry` as mathematics.
pub struct Symbol {
    pub mangled: Seq<char>,
    pub demangled: Seq<char>,
    pub addr: u64,
}

impl View for SymEntry {
    type V = Symbol;

    open spec fn view(&self) -> Symbol {
        Symbol { mangled: self.mangled@, demangled: self.demangled@, addr: self.addr }
    }
}

/// How a pattern is compared with a demangled name.
#[derive(Clone, Copy, Debug, PartialEq, Eq, Structural)]
pub enum MatchMode {
    Contains,
    Exact,
    Regex,
}

/// An entry of the symbol tables of an object file.
#[derive(Clone, Debug)]
pub struct RawSymbol {
    /// Whether it is for executable code.
    pub text: bool,
    /// Whether it is defined elsewhere.
    pub undefined: bool,
    /// The name, where it is valid text.
    pub name: Option<String>,
    pub address: u64,
}

/// A `RawSymbol` as mathematics.
pub struct TableEntry {
    pub text: bool,
    pub undefined: bool,
    pub name: Option<Seq<char>>,
    pub address: u64,
}

impl View for RawSymbol {
    type V = TableEntry;

    open spec fn view(&self) -> TableEntry {
        TableEntry {
            text: self.text,
            undefined: self.undefined,
            name: match self.name {
                Some(name) => Some(name@),
                None => None,
            },
            address: self.address,
        }
    }
}

/// Why there are no symbols, or none was selected.
#[derive(Debug)]
pub enum SymbolError {
    /// The file is no object file.
    Parse(object::read::Error),
    /// The object file holds no function.
    NoTextSymbols,
    /// A pattern is no regular expression.
    InvalidRegex(regex::Error),
}

/// The error of `object`.
#[verifier::external_type_specification]
#[verifier::external_body]
pub struct ExObjectError(object::read::Error);

/// The error of `regex`.
#[verifier::external_type_specification]
#[verifier::external_body]
pub struct ExRegexError(regex::Error);

/// A compiled regular expression.
#[verifier::external_type_specification]
#[verifier::external_body]
pub struct ExRegex(regex::Regex);

/// The number in the two bytes from `at` on, the low one first.
pub open spec fn number_16(data: Seq<u8>, at: int) -> int {
    data[at] + 0x100 * data[at + 1]
}

/// The number in the four bytes from `at` on, the low ones first.
pub open spec fn number_32(data: Seq<u8>, at: int) -> int {
    number_16(data, at) + 0x1_0000 * number_16(data, at + 2)
}

/// The number in the eight bytes from `at` on, the low ones first.
pub open spec fn number_64(data: Seq<u8>, at: int) -> int {
    number_32(data, at) + 0x1_0000_0000 * number_32(data, at + 4)
}

/// Where the 64-bit image of a Windows program is to be loaded. Its file begins with `MZ`,
/// and says at `0x3c` where its headers begin; they hold the mark of such an image and, after
/// that, its base. Nothing for any other file.
pub open spec fn wide_image_base(data: Seq<u8>) -> Option<int> {
    let headers = number_32(data, 0x3c);
    if data.len() >= 0x40 && data[0] == 0x4d && data[1] == 0x5a && headers + 56 <= data.len()
        && number_16(data, headers + 24) == 0x20b {
        Some(number_64(data, headers + 48))
    } else {
        None
    }
}

/// Whether the addresses in an object file are sure to fit in 64 bits. An address in the
/// 64-bit image of a Windows program is its base and two numbers of 32 bits added up; those
/// of other files are 64 bits wide at most.
pub open spec fn addresses_fit(data: Seq<u8>) -> bool {
    wide_image_base(data) matches Some(base) ==> base <= u64::MAX - 2 * u32::MAX
}

fn read_16(data: &[u8], at: usize) -> (number: u64)
    requires
        at + 2 <= data@.len(),
    ensures
        number == number_16(data@, at as int),
        number < 0x1_0000,
{
    data[at] as u64 + 0x100 * data[at + 1] as u64
}

fn read_32(data: &[u8], at: usize) -> (number: u64)
    requires
        at + 4 <= data@.len(),
    ensures
        number == number_32(data@, at as int),
        number < 0x1_0000_0000,
{
    assert(data@.len() == data.len());
    read_16(data, at) + 0x1_0000 * read_16(data, at + 2)
}

fn read_64(data: &[u8], at: usize) -> (number: u64)
    requires
        at + 8 <= data@.len(),
    ensures
        number == number_64(data@, at as int),
{
    assert(data@.len() == data.len());
    read_32(data, at) + 0x1_0000_0000 * read_32(data, at + 4)
}

/// Whether the addresses in an object file are sure to fit in 64 bits.
pub fn do_addresses_fit(data: &[u8]) -> (fits: bool)
    ensures
        fits == addresses_fit(data@),
{
    let len: usize = data.len();
    if len < 0x40 || data[0] != 0x4d || data[1] != 0x5a {
        return true;
    }
    let headers: u64 = read_32(data, 0x3c);
    if headers + 56 > len as u64 {
        return true;
    }
    let at: usize = headers as usize;
    if read_16(data, at + 24) != 0x20b {
        return true;
    }
    read_64(data, at + 48) <= u64::MAX - 2 * u32::MAX as u64
}

/// The entries of the symbol table and then of the dynamic symbol table that `object`
/// reads in the bytes of a file; nothing where it cannot parse them.
pub uninterp spec fn object_symbols(data: Seq<u8>) -> Option<Seq<TableEntry>>;

/// `object::File::parse`, `symbols` and `dynamic_symbols` read the entries of both symbol
/// tables, one after the other. What they read is a function of the bytes, under a name.
/// `ObjectSymbol::address` adds up without a check, so the sum has to fit. It is taken of
/// every entry, since which of them are of use is decided afterwards; as no sum is too large,
/// no entry fails by that.
#[verifier::external_body]
fn read_symbols(data: &[u8]) -> (symbols: Result<Vec<RawSymbol>, object::read::Error>)
    requires
        addresses_fit(data@),
    ensures
        match symbols {
            Ok(symbols) => object_symbols(data@) == Some(
                symbols@.map_values(|symbol: RawSymbol| symbol@),
            ),
            Err(_) => object_symbols(data@) is None,
        },
{
    let file = object::File::parse(data)?;
    Ok(
        file.symbols().chain(file.dynamic_symbols()).map(
            |symbol|
                RawSymbol {
                    text: matches!(symbol.kind(), object::SymbolKind::Text),
                    undefined: symbol.is_undefined(),
                    name: symbol.name().ok().map(String::from),
                    address: symbol.address(),
                },
        ).collect(),
    )
}

/// The text that `rustc_demangle` makes of a mangled name; nothing where it is none.
pub uninterp spec fn demangled_name(name: Seq<char>) -> Option<Seq<char>>;

/// `rustc_demangle::try_demangle` gives the name as it stands in the source, where the
/// given one is a mangled Rust name. What it gives is a function of the name, under a name.
#[verifier::external_body]
fn demangle(name: &str) -> (demangled: Option<String>)
    ensures
        match demangled {
            Some(text) => demangled_name(name@) == Some(text@),
            None => demangled_name(name@) is None,
        },
{
    match rustc_demangle::try_demangle(name) {
        Ok(value) => Some(format!("{value}")),
        Err(_) => None,
    }
}

/// Whether `Regex::new` compiles a pattern on a machine with addresses of so many bits: the
/// limit of the compiled size counts bytes.
pub uninterp spec fn regex_compiles(pattern: Seq<char>, address_bits: nat) -> bool;

/// The pattern of a regex that `Regex::new` compiled; nothing for one with other options.
pub uninterp spec fn regex_pattern(regex: regex::Regex) -> Option<Seq<char>>;

/// Whether the regex that `Regex::new` makes of a pattern matches anywhere in a text.
pub uninterp spec fn regex_is_match(pattern: Seq<char>, text: Seq<char>) -> bool;

/// `Regex::new` compiles a pattern, or fails, as the pattern and the size of an address say.
pub assume_specification[ regex::Regex::new ](re: &str) -> (compiled: Result<
    regex::Regex,
    regex::Error,
>)
    ensures
        match compiled {
            Ok(compiled) => regex_compiles(re@, usize::BITS as nat) && regex_pattern(compiled)
                == Some(re@),
            Err(_) => !regex_compiles(re@, usize::BITS as nat),
        },
;

/// `Regex::is_match` says whether the regex matches anywhere in the text.
pub assume_specification[ regex::Regex::is_match ](re: &regex::Regex, haystack: &str) -> (found:
    bool)
    ensures
        regex_pattern(*re) matches Some(pattern) ==> found == regex_is_match(pattern, haystack@),
;

/// Whether `pattern` stands somewhere in `text`.
pub open spec fn contains_text(text: Seq<char>, pattern: Seq<char>) -> bool {
    exists|i: int|
        0 <= i <= text.len() - pattern.len() && #[trigger] text.subrange(i, i + pattern.len())
            == pattern
}

/// `str::contains` says whether the pattern stands somewhere in the text.
#[verifier::external_body]
fn str_contains(text: &str, pattern: &str) -> (found: bool)
    ensures
        found == contains_text(text@, pattern@),
{
    text.contains(pattern)
}

/// Whether an entry stands for a function that can be probed: executable code that is
/// defined here, with an address and a name.
pub open spec fn usable(entry: TableEntry) -> bool {
    &&& entry.text
    &&& !entry.undefined
    &&& entry.name is Some
    &&& entry.address != 0
    &&& entry.name->0.len() > 0
}

/// The names and addresses of the first `n` entries, without those that are not usable.
pub open spec fn usable_names(table: Seq<TableEntry>, n: int) -> Seq<(Seq<char>, u64)>
    decreases n,
{
    if n <= 0 {
        seq![]
    } else if usable(table[n - 1]) {
        usable_names(table, n - 1).push((table[n - 1].name->0, table[n - 1].address))
    } else {
        usable_names(table, n - 1)
    }
}

/// The names and addresses of the functions in a symbol table.
pub fn usable_symbols(table: &Vec<RawSymbol>) -> (names: Vec<(String, u64)>)
    ensures
        names@.map_values(|name: (String, u64)| (name.0@, name.1)) == usable_names(
            table@.map_values(|symbol: RawSymbol| symbol@),
            table@.len() as int,
        ),
{
    let ghost view = |name: (String, u64)| (name.0@, name.1);
    let ghost entries = table@.map_values(|symbol: RawSymbol| symbol@);
    let mut names: Vec<(String, u64)> = Vec::new();
    let mut i: usize = 0;
    assert(names@.map_values(view) =~= usable_names(entries, 0));
    while i < table.len()
        invariant
            i <= table@.len(),
            entries == table@.map_values(|symbol: RawSymbol| symbol@),
            view == (|name: (String, u64)| (name.0@, name.1)),
            names@.map_values(view) == usable_names(entries, i as int),
        decreases table@.len() - i,
    {
        let symbol = &table[i];
        let ghost before = names@;
        assert(entries[i as int] == symbol@);
        i += 1;
        if !symbol.text || symbol.undefined {
            continue;
        }
        if let Some(name) = &symbol.name {
            if symbol.address == 0 {
                continue;
            }
            if name.as_str().is_empty() {
                continue;
            }
            names.push((name.clone(), symbol.address));
            assert(names@.map_values(view) =~= before.map_values(view).push(
                (name@, symbol.address),
            ));
        }
    }
    names
}

/// The symbol of a function: its name as it stands in the source, or as it is where it is
/// not mangled.
pub open spec fn symbol_of(name: Seq<char>, demangled: Option<Seq<char>>, addr: u64) -> Symbol {
    Symbol {
        mangled: name,
        demangled: match demangled {
            Some(text) => text,
            None => name,
        },
        addr,
    }
}

/// The symbol of a function whose name was demangled, or is not mangled.
pub fn sym_entry(name: &String, demangled: Option<String>, addr: u64) -> (entry: SymEntry)
    ensures
        entry@ == symbol_of(
            name@,
            match demangled {
                Some(text) => Some(text@),
                None => None,
            },
            addr,
        ),
{
    let demangled = match demangled {
        Some(value) => value,
        None => name.clone(),
    };
    SymEntry { mangled: name.clone(), demangled, addr }
}

/// The functions in a symbol table.
pub open spec fn text_symbols(table: Seq<TableEntry>) -> Seq<Symbol> {
    usable_names(table, table.len() as int).map_values(
        |name: (Seq<char>, u64)| symbol_of(name.0, demangled_name(name.0), name.1),
    )
}

proof fn lemma_usable_names(table: Seq<TableEntry>, n: int, i: int) -> (k: int)
    requires
        0 <= n <= table.len(),
        0 <= i < usable_names(table, n).len(),
    ensures
        0 <= k < n,
        usable(table[k]),
        usable_names(table, n)[i] == (table[k].name->0, table[k].address),
    decreases n,
{
    if i < usable_names(table, n - 1).len() {
        lemma_usable_names(table, n - 1, i)
    } else {
        n - 1
    }
}

/// A function that is listed has a name and an address, and stands in the table.
pub proof fn law_listed_symbols_can_be_probed(table: Seq<TableEntry>, i: int)
    requires
        0 <= i < text_symbols(table).len(),
    ensures
        text_symbols(table)[i].mangled.len() > 0,
        text_symbols(table)[i].addr != 0,
        exists|k: int|
            0 <= k < table.len() && usable(#[trigger] table[k]) && table[k].name == Some(
                text_symbols(table)[i].mangled,
            ) && table[k].address == text_symbols(table)[i].addr,
{
    let k = lemma_usable_names(table, table.len() as int, i);
    assert(usable(table[k]));
}

/// The functions of the program in an object file.
pub fn list_text_symbols(data: &[u8]) -> (symbols: Result<Vec<SymEntry>, SymbolError>)
    requires
        addresses_fit(data@),
    ensures
        match object_symbols(data@) {
            None => symbols matches Err(SymbolError::Parse(_)),
            Some(table) => if text_symbols(table).len() == 0 {
                symbols == Err::<Vec<SymEntry>, SymbolError>(SymbolError::NoTextSymbols)
            } else {
                &&& symbols is Ok
                &&& symbols->Ok_0@.map_values(|symbol: SymEntry| symbol@) == text_symbols(table)
            },
        },
{
    let table = match read_symbols(data) {
        Ok(table) => table,
        Err(err) => {
            return Err(SymbolError::Parse(err));
        },
    };
    let names = usable_symbols(&table);
    let ghost all = text_symbols(table@.map_values(|symbol: RawSymbol| symbol@));
    let ghost view = |symbol: SymEntry| symbol@;
    let mut out: Vec<SymEntry> = Vec::new();
    let mut i: usize = 0;
    assert(out@.map_values(view) =~= all.take(0));
    while i < names.len()
        invariant
            i <= names@.len(),
            names@.len() == all.len(),
            view == (|symbol: SymEntry| symbol@),
            forall|j: int|
                0 <= j < names@.len() ==> #[trigger] all[j] == symbol_of(
                    names@[j].0@,
                    demangled_name(names@[j].0@),
                    names@[j].1,
                ),
            out@.map_values(view) == all.take(i as int),
        decreases names@.len() - i,
    {
        let ghost before = out@;
        let demangled = demangle(names[i].0.as_str());
        let entry = sym_entry(&names[i].0, demangled, names[i].1);
        assert(entry@ == all[i as int]);
        out.push(entry);
        i += 1;
        assert(out@.map_values(view) =~= before.map_values(view).push(all[i - 1]));
        assert(all.take(i as int) =~= all.take(i - 1).push(all[i - 1]));
    }
    assert(all.take(i as int) =~= all);
    if out.is_empty() {
        return Err(SymbolError::NoTextSymbols);
    }
    Ok(out)
}

/// The names in some entries.
pub open spec fn symbols_of(all: Seq<SymEntry>) -> Seq<Symbol> {
    all.map_values(|symbol: SymEntry| symbol@)
}

/// The texts of some patterns.
pub open spec fn texts_of(patterns: Seq<String>) -> Seq<Seq<char>> {
    patterns.map_values(|pattern: String| pattern@)
}

/// Whether a pattern matches a demangled name.
pub open spec fn pattern_matches(mode: MatchMode, demangled: Seq<char>, pattern: Seq<char>) -> bool {
    match mode {
        MatchMode::Contains => contains_text(demangled, pattern),
        MatchMode::Exact => demangled == pattern,
        MatchMode::Regex => regex_is_match(pattern, demangled),
    }
}

/// Whether a pattern that is not empty matches a demangled name.
pub open spec fn any_matches(
    mode: MatchMode,
    demangled: Seq<char>,
    patterns: Seq<Seq<char>>,
) -> bool {
    exists|j: int|
        0 <= j < patterns.len() && (#[trigger] patterns[j]).len() > 0 && pattern_matches(
            mode,
            demangled,
            patterns[j],
        )
}

/// Whether each pattern that is not empty compiles.
pub open spec fn all_compile(patterns: Seq<Seq<char>>) -> bool {
    forall|j: int|
        0 <= j < patterns.len() && (#[trigger] patterns[j]).len() > 0 ==> regex_compiles(
            patterns[j],
            usize::BITS as nat,
        )
}

/// Whether symbol `i` is a hit, and no hit before it has the same mangled name.
pub open spec fn first_hit(all: Seq<Symbol>, hits: Seq<bool>, i: int) -> bool {
    &&& hits[i]
    &&& forall|k: int|
        0 <= k < i && #[trigger] hits[k] ==> all[k].mangled != all[i].mangled
}

/// Of the first `n` symbols the hits, in order, each mangled name once.
pub open spec fn first_hits(all: Seq<Symbol>, hits: Seq<bool>, n: int) -> Seq<Symbol>
    decreases n,
{
    if n <= 0 {
        seq![]
    } else if first_hit(all, hits, n - 1) {
        first_hits(all, hits, n - 1).push(all[n - 1])
    } else {
        first_hits(all, hits, n - 1)
    }
}

/// Which symbols the patterns match.
pub open spec fn hits_of(mode: MatchMode, all: Seq<Symbol>, patterns: Seq<Seq<char>>) -> Seq<bool> {
    all.map_values(|symbol: Symbol| any_matches(mode, symbol.demangled, patterns))
}

/// The symbols that the patterns select: those that a pattern matches, in order, each
/// mangled name once.
pub open spec fn selection(
    mode: MatchMode,
    all: Seq<Symbol>,
    patterns: Seq<Seq<char>>,
) -> Seq<Symbol> {
    first_hits(all, hits_of(mode, all, patterns), all.len() as int)
}

/// The hits among some symbols, in order, each mangled name once.
pub fn select_hits<'a>(all: &'a [SymEntry], hits: &Vec<bool>) -> (out: Vec<&'a SymEntry>)
    requires
        hits@.len() == all@.len(),
    ensures
        out@.map_values(|symbol: &SymEntry| symbol@) == first_hits(
            symbols_of(all@),
            hits@,
            all@.len() as int,
        ),
{
    let ghost view = |symbol: &SymEntry| symbol@;
    let ghost symbols = symbols_of(all@);
    let mut out: Vec<&'a SymEntry> = Vec::new();
    let mut seen = StringHashSet::new();
    let mut i: usize = 0;
    assert(out@.map_values(view) =~= first_hits(symbols, hits@, 0));
    while i < all.len()
        invariant
            i <= all@.len(),
            hits@.len() == all@.len(),
            symbols == symbols_of(all@),
            view == (|symbol: &SymEntry| symbol@),
            out@.map_values(view) == first_hits(symbols, hits@, i as int),
            forall|name: Seq<char>| #[trigger]
                seen@.contains(name) <==> exists|k: int|
                    0 <= k < i && #[trigger] hits@[k] && symbols[k].mangled == name,
        decreases all@.len() - i,
    {
        let ghost before = out@;
        let ghost seen_before = seen@;
        let name = all[i].mangled.clone();
        assert(symbols[i as int] == all@[i as int]@);
        if hits[i] && seen.insert(name) {
            assert(first_hit(symbols, hits@, i as int)) by {
                assert(!seen_before.contains(name@));
            }
            out.push(&all[i]);
            assert(out@.map_values(view) =~= before.map_values(view).push(symbols[i as int]));
        } else {
            proof {
                if hits@[i as int] {
                    assert(seen_before.contains(name@));
                }
                assert(!first_hit(symbols, hits@, i as int));
            }
        }
        assert forall|other: Seq<char>| #[trigger] seen@.contains(other) <==> exists|k: int|
            0 <= k < i + 1 && #[trigger] hits@[k] && symbols[k].mangled == other by {
            if hits@[i as int] && symbols[i as int].mangled == other {
                assert(seen@.contains(other));
            }
            if seen@.contains(other) && !seen_before.contains(other) {
                assert(hits@[i as int] && symbols[i as int].mangled == other);
            }
            if seen_before.contains(other) {
                let k = choose|k: int|
                    0 <= k < i && #[trigger] hits@[k] && symbols[k].mangled == other;
                assert(hits@[k] && symbols[k].mangled == other);
            }
        }
        i += 1;
    }
    out
}

/// Whether each pattern that is not empty was compiled, in its place.
pub open spec fn compiled_in_place(
    compiled: Seq<Option<regex::Regex>>,
    patterns: Seq<Seq<char>>,
) -> bool {
    &&& compiled.len() == patterns.len()
    &&& forall|j: int|
        0 <= j < patterns.len() ==> match #[trigger] compiled[j] {
            Some(regex) => patterns[j].len() > 0 && regex_pattern(regex) == Some(patterns[j]),
            None => patterns[j].len() == 0,
        }
}

fn compile_non_empty(patterns: &[String]) -> (compiled: Result<
    Vec<Option<regex::Regex>>,
    SymbolError,
>)
    ensures
        match compiled {
            Ok(compiled) => {
                &&& all_compile(texts_of(patterns@))
                &&& compiled_in_place(compiled@, texts_of(patterns@))
            },
            Err(err) => !all_compile(texts_of(patterns@)) && err is InvalidRegex,
        },
{
    let ghost texts = texts_of(patterns@);
    let mut compiled: Vec<Option<regex::Regex>> = Vec::new();
    let mut i: usize = 0;
    while i < patterns.len()
        invariant
            i <= patterns@.len(),
            texts == texts_of(patterns@),
            compiled_in_place(compiled@, texts.take(i as int)),
            all_compile(texts.take(i as int)),
        decreases patterns@.len() - i,
    {
        assert(texts[i as int] == patterns@[i as int]@);
        if patterns[i].as_str().is_empty() {
            compiled.push(None);
        } else {
            match regex::Regex::new(patterns[i].as_str()) {
                Ok(regex) => {
                    compiled.push(Some(regex));
                },
                Err(err) => {
                    assert(texts[i as int].len() > 0);
                    return Err(SymbolError::InvalidRegex(err));
                },
            }
        }
        i += 1;
    }
    assert(texts.take(i as int) =~= texts);
    Ok(compiled)
}

fn is_hit(
    mode: MatchMode,
    demangled: &String,
    patterns: &[String],
    compiled: &Vec<Option<regex::Regex>>,
) -> (hit: bool)
    requires
        mode == MatchMode::Regex ==> compiled_in_place(compiled@, texts_of(patterns@)),
    ensures
        hit == any_matches(mode, demangled@, texts_of(patterns@)),
{
    let ghost texts = texts_of(patterns@);
    let mut i: usize = 0;
    while i < patterns.len()
        invariant
            i <= patterns@.len(),
            texts == texts_of(patterns@),
            mode == MatchMode::Regex ==> compiled_in_place(compiled@, texts),
            forall|j: int|
                0 <= j < i ==> !((#[trigger] texts[j]).len() > 0 && pattern_matches(
                    mode,
                    demangled@,
                    texts[j],
                )),
        decreases patterns@.len() - i,
    {
        let pattern = &patterns[i];
        assert(texts[i as int] == pattern@);
        let found: bool = match mode {
            MatchMode::Contains => !pattern.as_str().is_empty() && str_contains(
                demangled.as_str(),
                pattern.as_str(),
            ),
            MatchMode::Exact => !pattern.as_str().is_empty() && *demangled == *pattern,
            MatchMode::Regex => match &compiled[i] {
                Some(regex) => regex.is_match(demangled.as_str()),
                None => false,
            },
        };
        if found {
            assert(texts[i as int].len() > 0);
            return true;
        }
        i += 1;
    }
    false
}

/// The symbols that the patterns select: those that a pattern matches, in order, each
/// mangled name once. An empty pattern selects nothing.
pub fn filter_symbols<'a>(all: &'a [SymEntry], patterns: &[String], mode: MatchMode) -> (out:
    Result<Vec<&'a SymEntry>, SymbolError>)
    ensures
        if mode == MatchMode::Regex && !all_compile(texts_of(patterns@)) {
            out matches Err(SymbolError::InvalidRegex(_))
        } else {
            &&& out is Ok
            &&& out->Ok_0@.map_values(|symbol: &SymEntry| symbol@) == selection(
                mode,
                symbols_of(all@),
                texts_of(patterns@),
            )
        },
{
    let ghost symbols = symbols_of(all@);
    let ghost texts = texts_of(patterns@);
    let compiled = match mode {
        MatchMode::Regex => match compile_non_empty(patterns) {
            Ok(compiled) => compiled,
            Err(err) => {
                return Err(err);
            },
        },
        _ => Vec::new(),
    };
    let mut hits: Vec<bool> = Vec::new();
    let mut i: usize = 0;
    while i < all.len()
        invariant
            i <= all@.len(),
            symbols == symbols_of(all@),
            texts == texts_of(patterns@),
            mode == MatchMode::Regex ==> compiled_in_place(compiled@, texts),
            hits@ == hits_of(mode, symbols, texts).take(i as int),
        decreases all@.len() - i,
    {
        let hit = is_hit(mode, &all[i].demangled, patterns, &compiled);
        assert(hit == hits_of(mode, symbols, texts)[i as int]);
        hits.push(hit);
        i += 1;
        assert(hits@ =~= hits_of(mode, symbols, texts).take(i as int));
    }
    assert(hits@ =~= hits_of(mode, symbols, texts));
    Ok(select_hits(all, &hits))
}

/// Whether a pattern matches some symbol.
pub open spec fn matches_some(mode: MatchMode, all: Seq<Symbol>, pattern: Seq<char>) -> bool {
    exists|i: int|
        0 <= i < all.len() && pattern_matches(mode, (#[trigger] all[i]).demangled, pattern)
}

/// Of the first `n` texts those whose flag is not set, in order.
pub open spec fn unflagged(texts: Seq<Seq<char>>, flags: Seq<bool>, n: int) -> Seq<Seq<char>>
    decreases n,
{
    if n <= 0 {
        seq![]
    } else if flags[n - 1] {
        unflagged(texts, flags, n - 1)
    } else {
        unflagged(texts, flags, n - 1).push(texts[n - 1])
    }
}

/// Which patterns match some symbol.
pub open spec fn matched_of(
    mode: MatchMode,
    all: Seq<Symbol>,
    patterns: Seq<Seq<char>>,
) -> Seq<bool> {
    patterns.map_values(|pattern: Seq<char>| matches_some(mode, all, pattern))
}

/// The patterns that match no symbol, in order.
pub open spec fn unmatched(
    mode: MatchMode,
    all: Seq<Symbol>,
    patterns: Seq<Seq<char>>,
) -> Seq<Seq<char>> {
    unflagged(patterns, matched_of(mode, all, patterns), patterns.len() as int)
}

/// Whether every pattern compiles.
pub open spec fn every_compiles(patterns: Seq<Seq<char>>) -> bool {
    forall|j: int|
        0 <= j < patterns.len() ==> regex_compiles(#[trigger] patterns[j], usize::BITS as nat)
}

/// The patterns whose flag is not set, in order.
pub fn select_unmatched<'a>(patterns: &'a [String], matched: &Vec<bool>) -> (missing: Vec<&'a str>)
    requires
        matched@.len() == patterns@.len(),
    ensures
        missing@.map_values(|pattern: &str| pattern@) == unflagged(
            texts_of(patterns@),
            matched@,
            patterns@.len() as int,
        ),
{
    let ghost view = |pattern: &str| pattern@;
    let ghost texts = texts_of(patterns@);
    let mut missing: Vec<&'a str> = Vec::new();
    let mut i: usize = 0;
    assert(missing@.map_values(view) =~= unflagged(texts, matched@, 0));
    while i < patterns.len()
        invariant
            i <= patterns@.len(),
            matched@.len() == patterns@.len(),
            texts == texts_of(patterns@),
            view == (|pattern: &str| pattern@),
            missing@.map_values(view) == unflagged(texts, matched@, i as int),
        decreases patterns@.len() - i,
    {
        let ghost before = missing@;
        assert(texts[i as int] == patterns@[i as int]@);
        if !matched[i] {
            missing.push(patterns[i].as_str());
            assert(missing@.map_values(view) =~= before.map_values(view).push(texts[i as int]));
        }
        i += 1;
    }
    missing
}

fn has_match(
    mode: MatchMode,
    symbols: &[SymEntry],
    pattern: &String,
    compiled: &Option<regex::Regex>,
) -> (found: bool)
    requires
        mode == MatchMode::Regex ==> compiled is Some && regex_pattern(compiled->0) == Some(
            pattern@,
        ),
    ensures
        found == matches_some(mode, symbols_of(symbols@), pattern@),
{
    let ghost all = symbols_of(symbols@);
    let mut i: usize = 0;
    while i < symbols.len()
        invariant
            i <= symbols@.len(),
            all == symbols_of(symbols@),
            mode == MatchMode::Regex ==> compiled is Some && regex_pattern(compiled->0) == Some(
                pattern@,
            ),
            forall|j: int|
                0 <= j < i ==> !pattern_matches(mode, (#[trigger] all[j]).demangled, pattern@),
        decreases symbols@.len() - i,
    {
        let demangled = &symbols[i].demangled;
        assert(all[i as int].demangled == demangled@);
        let found: bool = match mode {
            MatchMode::Contains => str_contains(demangled.as_str(), pattern.as_str()),
            MatchMode::Exact => *demangled == *pattern,
            MatchMode::Regex => match compiled {
                Some(regex) => regex.is_match(demangled.as_str()),
                None => false,
            },
        };
        if found {
            return true;
        }
        i += 1;
    }
    false
}

fn compile_every(patterns: &[String]) -> (compiled: Result<Vec<Option<regex::Regex>>, SymbolError>)
    ensures
        match compiled {
            Ok(compiled) => {
                &&& every_compiles(texts_of(patterns@))
                &&& compiled@.len() == patterns@.len()
                &&& forall|j: int|
                    0 <= j < patterns@.len() ==> (#[trigger] compiled@[j]) is Some && regex_pattern(
                        compiled@[j]->0,
                    ) == Some(patterns@[j]@)
            },
            Err(err) => !every_compiles(texts_of(patterns@)) && err is InvalidRegex,
        },
{
    let ghost texts = texts_of(patterns@);
    let mut compiled: Vec<Option<regex::Regex>> = Vec::new();
    let mut i: usize = 0;
    while i < patterns.len()
        invariant
            i <= patterns@.len(),
            texts == texts_of(patterns@),
            compiled@.len() == i,
            forall|j: int|
                0 <= j < i ==> (#[trigger] compiled@[j]) is Some && regex_pattern(compiled@[j]->0)
                    == Some(patterns@[j]@),
            every_compiles(texts.take(i as int)),
        decreases patterns@.len() - i,
    {
        assert(texts[i as int] == patterns@[i as int]@);
        match regex::Regex::new(patterns[i].as_str()) {
            Ok(regex) => {
                compiled.push(Some(regex));
            },
            Err(err) => {
                return Err(SymbolError::InvalidRegex(err));
            },
        }
        i += 1;
    }
    assert(texts.take(i as int) =~= texts);
    Ok(compiled)
}

/// The patterns that match no symbol, in order.
pub fn unmatched_patterns<'a>(
    symbols: &[SymEntry],
    patterns: &'a [String],
    mode: MatchMode,
) -> (missing: Result<Vec<&'a str>, SymbolError>)
    ensures
        if mode == MatchMode::Regex && !every_compiles(texts_of(patterns@)) {
            missing matches Err(SymbolError::InvalidRegex(_))
        } else {
            &&& missing is Ok
            &&& missing->Ok_0@.map_values(|pattern: &str| pattern@) == unmatched(
                mode,
                symbols_of(symbols@),
                texts_of(patterns@),
            )
        },
{
    let ghost all = symbols_of(symbols@);
    let ghost texts = texts_of(patterns@);
    let compiled = match mode {
        MatchMode::Regex => match compile_every(patterns) {
            Ok(compiled) => compiled,
            Err(err) => {
                return Err(err);
            },
        },
        _ => Vec::new(),
    };
    let mut matched: Vec<bool> = Vec::new();
    let mut i: usize = 0;
    while i < patterns.len()
        invariant
            i <= patterns@.len(),
            all == symbols_of(symbols@),
            texts == texts_of(patterns@),
            mode == MatchMode::Regex ==> compiled@.len() == patterns@.len() && forall|j: int|
                0 <= j < patterns@.len() ==> (#[trigger] compiled@[j]) is Some && regex_pattern(
                    compiled@[j]->0,
                ) == Some(patterns@[j]@),
            matched@ == matched_of(mode, all, texts).take(i as int),
        decreases patterns@.len() - i,
    {
        let found: bool = match mode {
            MatchMode::Regex => has_match(mode, symbols, &patterns[i], &compiled[i]),
            _ => has_match(mode, symbols, &patterns[i], &None),
        };
        assert(found == matched_of(mode, all, texts)[i as int]);
        matched.push(found);
        i += 1;
        assert(matched@ =~= matched_of(mode, all, texts).take(i as int));
    }
    assert(matched@ =~= matched_of(mode, all, texts));
    Ok(select_unmatched(patterns, &matched))
}

proof fn lemma_hit_origin(all: Seq<Symbol>, hits: Seq<bool>, n: int, x: int) -> (k: int)
    requires
        0 <= n <= all.len(),
        hits.len() == all.len(),
        0 <= x < first_hits(all, hits, n).len(),
    ensures
        0 <= k < n,
        hits[k],
        all[k] == first_hits(all, hits, n)[x],
    decreases n,
{
    if x < first_hits(all, hits, n - 1).len() {
        lemma_hit_origin(all, hits, n - 1, x)
    } else {
        n - 1
    }
}

proof fn lemma_hit_is_kept(all: Seq<Symbol>, hits: Seq<bool>, n: int, k: int) -> (x: int)
    requires
        0 <= k < n <= all.len(),
        hits.len() == all.len(),
        hits[k],
    ensures
        0 <= x < first_hits(all, hits, n).len(),
        first_hits(all, hits, n)[x].mangled == all[k].mangled,
    decreases n,
{
    if k < n - 1 {
        lemma_hit_is_kept(all, hits, n - 1, k)
    } else if first_hit(all, hits, k) {
        first_hits(all, hits, n).len() - 1
    } else {
        let j = choose|j: int|
            0 <= j < k && #[trigger] hits[j] && all[j].mangled == all[k].mangled;
        lemma_hit_is_kept(all, hits, n - 1, j)
    }
}

proof fn lemma_kept_hits_differ(all: Seq<Symbol>, hits: Seq<bool>, n: int, x: int, y: int)
    requires
        0 <= n <= all.len(),
        hits.len() == all.len(),
        0 <= x < y < first_hits(all, hits, n).len(),
    ensures
        first_hits(all, hits, n)[x].mangled != first_hits(all, hits, n)[y].mangled,
    decreases n,
{
    if y < first_hits(all, hits, n - 1).len() {
        lemma_kept_hits_differ(all, hits, n - 1, x, y);
    } else {
        let k = lemma_hit_origin(all, hits, n - 1, x);
        assert(hits[k]);
    }
}

/// A symbol is selected only if a pattern matches it and it is among the given ones.
pub proof fn law_selected_symbols_match(
    mode: MatchMode,
    all: Seq<Symbol>,
    patterns: Seq<Seq<char>>,
    x: int,
)
    requires
        0 <= x < selection(mode, all, patterns).len(),
    ensures
        any_matches(mode, selection(mode, all, patterns)[x].demangled, patterns),
        all.contains(selection(mode, all, patterns)[x]),
{
    let k = lemma_hit_origin(all, hits_of(mode, all, patterns), all.len() as int, x);
    assert(all.contains(all[k]));
}

/// Every symbol that a pattern matches is selected under its mangled name.
pub proof fn law_matching_symbols_are_selected(
    mode: MatchMode,
    all: Seq<Symbol>,
    patterns: Seq<Seq<char>>,
    i: int,
)
    requires
        0 <= i < all.len(),
        any_matches(mode, all[i].demangled, patterns),
    ensures
        exists|x: int|
            0 <= x < selection(mode, all, patterns).len() && (#[trigger] selection(
                mode,
                all,
                patterns,
            )[x]).mangled == all[i].mangled,
{
    let x = lemma_hit_is_kept(all, hits_of(mode, all, patterns), all.len() as int, i);
    assert(selection(mode, all, patterns)[x].mangled == all[i].mangled);
}

/// No mangled name is selected twice.
pub proof fn law_selected_names_are_distinct(
    mode: MatchMode,
    all: Seq<Symbol>,
    patterns: Seq<Seq<char>>,
    x: int,
    y: int,
)
    requires
        0 <= x < y < selection(mode, all, patterns).len(),
    ensures
        selection(mode, all, patterns)[x].mangled != selection(mode, all, patterns)[y].mangled,
{
    lemma_kept_hits_differ(all, hits_of(mode, all, patterns), all.len() as int, x, y);
}

proof fn lemma_unflagged(texts: Seq<Seq<char>>, flags: Seq<bool>, n: int)
    requires
        0 <= n <= texts.len(),
        flags.len() == texts.len(),
    ensures
        forall|text: Seq<char>| #[trigger]
            unflagged(texts, flags, n).contains(text) <==> exists|j: int|
                0 <= j < n && !(#[trigger] flags[j]) && texts[j] == text,
    decreases n,
{
    if n > 0 {
        lemma_unflagged(texts, flags, n - 1);
        let before = unflagged(texts, flags, n - 1);
        let now = unflagged(texts, flags, n);
        assert forall|text: Seq<char>| #[trigger] now.contains(text) <==> exists|j: int|
            0 <= j < n && !(#[trigger] flags[j]) && texts[j] == text by {
            if now.contains(text) {
                let x = choose|x: int| 0 <= x < now.len() && now[x] == text;
                if x < before.len() {
                    assert(before[x] == text);
                    assert(before.contains(text));
                } else {
                    assert(!flags[n - 1] && texts[n - 1] == text);
                }
            }
            if exists|j: int| 0 <= j < n && !(#[trigger] flags[j]) && texts[j] == text {
                let j = choose|j: int| 0 <= j < n && !(#[trigger] flags[j]) && texts[j] == text;
                if j < n - 1 {
                    assert(before.contains(text));
                    let x = choose|x: int| 0 <= x < before.len() && before[x] == text;
                    assert(now[x] == text);
                } else {
                    assert(now[now.len() - 1] == text);
                }
            }
        }
    }
}

/// A pattern is reported as unmatched if and only if it was given and matches no symbol.
pub proof fn law_unmatched_patterns_match_nothing(
    mode: MatchMode,
    all: Seq<Symbol>,
    patterns: Seq<Seq<char>>,
    pattern: Seq<char>,
)
    ensures
        unmatched(mode, all, patterns).contains(pattern) <==> patterns.contains(pattern)
            && !matches_some(mode, all, pattern),
{
    let flags = matched_of(mode, all, patterns);
    lemma_unflagged(patterns, flags, patterns.len() as int);
    if patterns.contains(pattern) && !matches_some(mode, all, pattern) {
        let j = choose|j: int| 0 <= j < patterns.len() && patterns[j] == pattern;
        assert(!flags[j] && patterns[j] == pattern);
    }
    if unmatched(mode, all, patterns).contains(pattern) {
        let j = choose|j: int|
            0 <= j < patterns.len() && !(#[trigger] flags[j]) && patterns[j] == pattern;
        assert(patterns.contains(pattern));
    }
}

/// Where no pattern is empty, nothing is selected if and only if every pattern is unmatched.
pub proof fn law_nothing_selected_iff_all_unmatched(
    mode: MatchMode,
    all: Seq<Symbol>,
    patterns: Seq<Seq<char>>,
)
    requires
        forall|j: int| 0 <= j < patterns.len() ==> (#[trigger] patterns[j]).len() > 0,
    ensures
        selection(mode, all, patterns).len() == 0 <==> unmatched(mode, all, patterns) == patterns,
{
    let flags = matched_of(mode, all, patterns);
    let hits = hits_of(mode, all, patterns);
    if selection(mode, all, patterns).len() == 0 {
        assert forall|j: int| 0 <= j < patterns.len() implies !#[trigger] flags[j] by {
            if flags[j] {
                let i = choose|i: int|
                    0 <= i < all.len() && pattern_matches(
                        mode,
                        (#[trigger] all[i]).demangled,
                        patterns[j],
                    );
                assert(patterns[j].len() > 0);
                let x = lemma_hit_is_kept(all, hits, all.len() as int, i);
            }
        }
        lemma_none_flagged(patterns, flags, patterns.len() as int);
        assert(patterns.take(patterns.len() as int) =~= patterns);
    }
    if unmatched(mode, all, patterns) == patterns {
        lemma_fewer_unflagged(patterns, flags, patterns.len() as int);
        if selection(mode, all, patterns).len() > 0 {
            let k = lemma_hit_origin(all, hits, all.len() as int, 0);
            assert(any_matches(mode, all[k].demangled, patterns));
            let j = choose|j: int|
                0 <= j < patterns.len() && (#[trigger] patterns[j]).len() > 0 && pattern_matches(
                    mode,
                    all[k].demangled,
                    patterns[j],
                );
            assert(flags[j]);
        }
    }
}

proof fn lemma_none_flagged(texts: Seq<Seq<char>>, flags: Seq<bool>, n: int)
    requires
        0 <= n <= texts.len(),
        flags.len() == texts.len(),
        forall|j: int| 0 <= j < n ==> !#[trigger] flags[j],
    ensures
        unflagged(texts, flags, n) == texts.take(n),
    decreases n,
{
    if n > 0 {
        lemma_none_flagged(texts, flags, n - 1);
        assert(texts.take(n) =~= texts.take(n - 1).push(texts[n - 1]));
    } else {
        assert(unflagged(texts, flags, n) =~= texts.take(n));
    }
}

proof fn lemma_fewer_unflagged(texts: Seq<Seq<char>>, flags: Seq<bool>, n: int)
    requires
        0 <= n <= texts.len(),
        flags.len() == texts.len(),
    ensures
        unflagged(texts, flags, n).len() <= n,
        unflagged(texts, flags, n).len() == n ==> forall|j: int|
            0 <= j < n ==> !#[trigger] flags[j],
    decreases n,
{
    if n > 0 {
        lemma_fewer_unflagged(texts, flags, n - 1);
    }
}

/// Of the entries of a table those are usable that are executable code, defined, not at address
/// zero, and have a name that is not empty: all of them, in order, and no other.
pub proof fn law_usable_entries_are_all_kept(table: Seq<TableEntry>, n: int)
    requires
        0 <= n <= table.len(),
    ensures
        usable_names(table, n) == table.take(n).filter(
            |entry: TableEntry|
                entry.text && !entry.undefined && entry.address != 0 && entry.name is Some
                    && entry.name->0.len() > 0,
        ).map_values(|entry: TableEntry| (entry.name->0, entry.address)),
    decreases n,
{
    let is_kept = |entry: TableEntry|
        entry.text && !entry.undefined && entry.address != 0 && entry.name is Some
            && entry.name->0.len() > 0;
    let shown = |entry: TableEntry| (entry.name->0, entry.address);
    reveal(Seq::filter);
    if n > 0 {
        law_usable_entries_are_all_kept(table, n - 1);
        assert(table.take(n).drop_last() =~= table.take(n - 1));
        let before = table.take(n - 1).filter(is_kept);
        if is_kept(table[n - 1]) {
            assert(before.push(table[n - 1]).map_values(shown) =~= before.map_values(shown).push(
                shown(table[n - 1]),
            ));
        }
    }
    assert(usable_names(table, n) =~= table.take(n).filter(is_kept).map_values(shown));
}

/// Every entry that is executable code, defined, not at address zero and has a name is listed,
/// under that name and address; as many functions are listed as there are such entries, so that
/// two names of one function are both listed.
pub proof fn law_every_function_is_listed(table: Seq<TableEntry>, k: int) -> (i: int)
    requires
        0 <= k < table.len(),
        table[k].text,
        !table[k].undefined,
        table[k].address != 0,
        table[k].name matches Some(name) && name.len() > 0,
    ensures
        0 <= i < text_symbols(table).len(),
        table[k].name == Some(text_symbols(table)[i].mangled),
        text_symbols(table)[i].addr == table[k].address,
        text_symbols(table).len() == table.filter(
            |entry: TableEntry|
                entry.text && !entry.undefined && entry.address != 0 && entry.name is Some
                    && entry.name->0.len() > 0,
        ).len(),
{
    law_usable_entries_are_all_kept(table, table.len() as int);
    assert(table.take(table.len() as int) =~= table);
    lemma_usable_is_kept(table, table.len() as int, k)
}

proof fn lemma_usable_is_kept(table: Seq<TableEntry>, n: int, k: int) -> (i: int)
    requires
        0 <= k < n <= table.len(),
        usable(table[k]),
    ensures
        0 <= i < usable_names(table, n).len(),
        usable_names(table, n)[i] == (table[k].name->0, table[k].address),
    decreases n,
{
    if k < n - 1 {
        lemma_usable_is_kept(table, n - 1, k)
    } else {
        usable_names(table, n).len() - 1
    }
}

/// A function that is listed is shown under its name as it stands in the source, where the name
/// is mangled, and as it is where it is not.
pub proof fn law_listed_names_are_demangled(table: Seq<TableEntry>, i: int)
    requires
        0 <= i < text_symbols(table).len(),
    ensures
        demangled_name(text_symbols(table)[i].mangled) matches Some(text) ==> text_symbols(
            table,
        )[i].demangled == text,
        demangled_name(text_symbols(table)[i].mangled) is None ==> text_symbols(table)[i].demangled
            == text_symbols(table)[i].mangled,
{
}

/// A symbol keeps its name and its address; its other name is the demangled one, where there is
/// one.
pub proof fn law_symbol_keeps_name_and_address(
    name: Seq<char>,
    demangled: Option<Seq<char>>,
    addr: u64,
)
    ensures
        symbol_of(name, demangled, addr).mangled == name,
        symbol_of(name, demangled, addr).addr == addr,
        demangled is Some ==> symbol_of(name, demangled, addr).demangled == demangled->0,
        demangled is None ==> symbol_of(name, demangled, addr).demangled == name,
{
}

/// A pattern matches a name that it stands in, that is the same, or in which the regex that it
/// is finds a match; as the mode says.
pub proof fn law_pattern_matches_by_mode(demangled: Seq<char>, pattern: Seq<char>)
    ensures
        pattern_matches(MatchMode::Contains, demangled, pattern) <==> exists|before: Seq<char>,
            after: Seq<char>| #[trigger] (before + pattern + after) == demangled,
        pattern_matches(MatchMode::Exact, demangled, pattern) <==> demangled == pattern,
        pattern_matches(MatchMode::Regex, demangled, pattern) <==> regex_is_match(
            pattern,
            demangled,
        ),
{
    if contains_text(demangled, pattern) {
        let i = choose|i: int|
            0 <= i <= demangled.len() - pattern.len() && #[trigger] demangled.subrange(
                i,
                i + pattern.len(),
            ) == pattern;
        let before = demangled.take(i);
        let after = demangled.skip(i + pattern.len());
        assert(before + demangled.subrange(i, i + pattern.len()) + after =~= demangled);
        assert((before + pattern + after) == demangled);
    }
    if exists|before: Seq<char>, after: Seq<char>| #[trigger] (before + pattern + after)
        == demangled {
        let (before, after) = choose|before: Seq<char>, after: Seq<char>| #[trigger]
            (before + pattern + after) == demangled;
        let i = before.len() as int;
        assert(demangled.subrange(i, i + pattern.len()) =~= pattern);
    }
}

/// Some patterns match a name if and only if one of them does that is not empty.
pub proof fn law_any_pattern_matches(
    mode: MatchMode,
    demangled: Seq<char>,
    patterns: Seq<Seq<char>>,
)
    ensures
        any_matches(mode, demangled, patterns) <==> exists|pattern: Seq<char>| #[trigger]
            patterns.contains(pattern) && pattern.len() > 0 && pattern_matches(
                mode,
                demangled,
                pattern,
            ),
{
    if any_matches(mode, demangled, patterns) {
        let j = choose|j: int|
            0 <= j < patterns.len() && (#[trigger] patterns[j]).len() > 0 && pattern_matches(
                mode,
                demangled,
                patterns[j],
            );
        assert(patterns.contains(patterns[j]));
    }
    if exists|pattern: Seq<char>| #[trigger]
        patterns.contains(pattern) && pattern.len() > 0 && pattern_matches(
            mode,
            demangled,
            pattern,
        ) {
        let pattern = choose|pattern: Seq<char>| #[trigger]
            patterns.contains(pattern) && pattern.len() > 0 && pattern_matches(
                mode,
                demangled,
                pattern,
            );
        let j = choose|j: int| 0 <= j < patterns.len() && patterns[j] == pattern;
        assert(patterns[j].len() > 0);
    }
}

proof fn lemma_first_hits(all: Seq<Symbol>, hits: Seq<bool>, n: int)
    requires
        0 <= n <= all.len(),
        hits.len() == all.len(),
    ensures
        first_hits(all, hits, n) == Seq::new(n as nat, |i: int| i).filter(
            |i: int| first_hit(all, hits, i),
        ).map_values(|i: int| all[i]),
    decreases n,
{
    let is_kept = |i: int| first_hit(all, hits, i);
    let shown = |i: int| all[i];
    let indices = Seq::new(n as nat, |i: int| i);
    reveal(Seq::filter);
    if n > 0 {
        lemma_first_hits(all, hits, n - 1);
        let earlier = Seq::new((n - 1) as nat, |i: int| i);
        assert(indices.drop_last() =~= earlier);
        if is_kept(n - 1) {
            assert(earlier.filter(is_kept).push(n - 1).map_values(shown) =~= earlier.filter(
                is_kept,
            ).map_values(shown).push(shown(n - 1)));
        }
    }
    assert(first_hits(all, hits, n) =~= indices.filter(is_kept).map_values(shown));
}

/// The symbols that are selected are those that a pattern matches and that no earlier one with
/// the same mangled name was selected for: all of them, in order, and no other.
pub proof fn law_selected_are_all_first_matches(
    mode: MatchMode,
    all: Seq<Symbol>,
    patterns: Seq<Seq<char>>,
)
    ensures
        selection(mode, all, patterns) == Seq::new(all.len(), |i: int| i).filter(
            |i: int|
                any_matches(mode, all[i].demangled, patterns) && !exists|k: int|
                    0 <= k < i && any_matches(mode, (#[trigger] all[k]).demangled, patterns)
                        && all[k].mangled == all[i].mangled,
        ).map_values(|i: int| all[i]),
{
    let hits = hits_of(mode, all, patterns);
    lemma_first_hits(all, hits, all.len() as int);
    let one = |i: int| first_hit(all, hits, i);
    let other = |i: int|
        any_matches(mode, all[i].demangled, patterns) && !exists|k: int|
            0 <= k < i && any_matches(mode, (#[trigger] all[k]).demangled, patterns)
                && all[k].mangled == all[i].mangled;
    let indices = Seq::new(all.len(), |i: int| i);
    assert forall|i: int| 0 <= i < indices.len() implies #[trigger] one(indices[i]) == other(
        indices[i],
    ) by {
        assert(hits[i] == any_matches(mode, all[i].demangled, patterns));
        if one(i) {
            assert forall|k: int| 0 <= k < i && any_matches(
                mode,
                (#[trigger] all[k]).demangled,
                patterns,
            ) implies all[k].mangled != all[i].mangled by {
                assert(hits[k]);
            }
        }
        if other(i) {
            assert forall|k: int| 0 <= k < i && #[trigger] hits[k] implies all[k].mangled
                != all[i].mangled by {
                assert(any_matches(mode, all[k].demangled, patterns));
            }
        }
    }
    lemma_same_filter(indices, one, other);
}

proof fn lemma_same_filter<A>(items: Seq<A>, one: spec_fn(A) -> bool, other: spec_fn(A) -> bool)
    requires
        forall|i: int| 0 <= i < items.len() ==> one(#[trigger] items[i]) == other(items[i]),
    ensures
        items.filter(one) == items.filter(other),
    decreases items.len(),
{
    reveal(Seq::filter);
    if items.len() > 0 {
        let front = items.drop_last();
        assert forall|i: int| 0 <= i < front.len() implies one(#[trigger] front[i]) == other(
            front[i],
        ) by {
            assert(one(items[i]) == other(items[i]));
        }
        lemma_same_filter(front, one, other);
        assert(one(items[items.len() - 1]) == other(items[items.len() - 1]));
    }
}

/// Where a pattern that is not empty matches a symbol, and no symbol before has the same mangled
/// name, that very symbol is selected.
pub proof fn law_first_match_is_selected(
    mode: MatchMode,
    all: Seq<Symbol>,
    patterns: Seq<Seq<char>>,
    i: int,
    j: int,
) -> (x: int)
    requires
        0 <= i < all.len(),
        0 <= j < patterns.len(),
        patterns[j].len() > 0,
        pattern_matches(mode, all[i].demangled, patterns[j]),
        forall|k: int| 0 <= k < i ==> (#[trigger] all[k]).mangled != all[i].mangled,
    ensures
        0 <= x < selection(mode, all, patterns).len(),
        selection(mode, all, patterns)[x] == all[i],
{
    let hits = hits_of(mode, all, patterns);
    assert(hits[i]);
    lemma_first_hit_is_kept(all, hits, all.len() as int, i)
}

proof fn lemma_first_hit_is_kept(all: Seq<Symbol>, hits: Seq<bool>, n: int, i: int) -> (x: int)
    requires
        0 <= i < n <= all.len(),
        hits.len() == all.len(),
        first_hit(all, hits, i),
    ensures
        0 <= x < first_hits(all, hits, n).len(),
        first_hits(all, hits, n)[x] == all[i],
    decreases n,
{
    if i < n - 1 {
        lemma_first_hit_is_kept(all, hits, n - 1, i)
    } else {
        first_hits(all, hits, n).len() - 1
    }
}

/// More patterns select no fewer names.
pub proof fn law_more_patterns_select_more(
    mode: MatchMode,
    all: Seq<Symbol>,
    few: Seq<Seq<char>>,
    many: Seq<Seq<char>>,
    x: int,
)
    requires
        forall|j: int| 0 <= j < few.len() ==> many.contains(#[trigger] few[j]),
        0 <= x < selection(mode, all, few).len(),
    ensures
        exists|y: int|
            0 <= y < selection(mode, all, many).len() && (#[trigger] selection(
                mode,
                all,
                many,
            )[y]).mangled == selection(mode, all, few)[x].mangled,
{
    let k = lemma_hit_origin(all, hits_of(mode, all, few), all.len() as int, x);
    assert(any_matches(mode, all[k].demangled, few));
    let j = choose|j: int|
        0 <= j < few.len() && (#[trigger] few[j]).len() > 0 && pattern_matches(
            mode,
            all[k].demangled,
            few[j],
        );
    assert(many.contains(few[j]));
    let l = choose|l: int| 0 <= l < many.len() && many[l] == few[j];
    assert(many[l].len() > 0);
    assert(any_matches(mode, all[k].demangled, many));
    law_matching_symbols_are_selected(mode, all, many, k);
}

/// A pattern matches something if and only if it matches the name of some symbol.
pub proof fn law_pattern_matches_some_symbol(
    mode: MatchMode,
    all: Seq<Symbol>,
    pattern: Seq<char>,
)
    ensures
        matches_some(mode, all, pattern) <==> exists|symbol: Symbol| #[trigger]
            all.contains(symbol) && pattern_matches(mode, symbol.demangled, pattern),
{
    if matches_some(mode, all, pattern) {
        let i = choose|i: int|
            0 <= i < all.len() && pattern_matches(mode, (#[trigger] all[i]).demangled, pattern);
        assert(all.contains(all[i]));
    }
    if exists|symbol: Symbol| #[trigger]
        all.contains(symbol) && pattern_matches(mode, symbol.demangled, pattern) {
        let symbol = choose|symbol: Symbol| #[trigger]
            all.contains(symbol) && pattern_matches(mode, symbol.demangled, pattern);
        let i = choose|i: int| 0 <= i < all.len() && all[i] == symbol;
        assert(pattern_matches(mode, all[i].demangled, pattern));
    }
}

/// The patterns that are reported as unmatched are those that match no symbol: all of them, in
/// order, and no other.
pub proof fn law_unmatched_are_all_without_match(
    mode: MatchMode,
    all: Seq<Symbol>,
    patterns: Seq<Seq<char>>,
)
    ensures
        unmatched(mode, all, patterns) == patterns.filter(
            |pattern: Seq<char>| !matches_some(mode, all, pattern),
        ),
{
    lemma_unflagged_is_filter(
        patterns,
        matched_of(mode, all, patterns),
        |pattern: Seq<char>| !matches_some(mode, all, pattern),
        patterns.len() as int,
    );
    assert(patterns.take(patterns.len() as int) =~= patterns);
}

proof fn lemma_unflagged_is_filter(
    texts: Seq<Seq<char>>,
    flags: Seq<bool>,
    is_kept: spec_fn(Seq<char>) -> bool,
    n: int,
)
    requires
        0 <= n <= texts.len(),
        flags.len() == texts.len(),
        forall|i: int| 0 <= i < texts.len() ==> is_kept(#[trigger] texts[i]) == !flags[i],
    ensures
        unflagged(texts, flags, n) == texts.take(n).filter(is_kept),
    decreases n,
{
    reveal(Seq::filter);
    if n > 0 {
        lemma_unflagged_is_filter(texts, flags, is_kept, n - 1);
        assert(texts.take(n).drop_last() =~= texts.take(n - 1));
        assert(is_kept(texts[n - 1]) == !flags[n - 1]);
    } else {
        assert(unflagged(texts, flags, n) =~= texts.take(n));
    }
}

/// Patterns compile if and only if each of them does on this machine; empty ones need not where
/// they are passed over.
pub proof fn law_patterns_compile_one_by_one(patterns: Seq<Seq<char>>)
    ensures
        every_compiles(patterns) <==> !exists|pattern: Seq<char>| #[trigger]
            patterns.contains(pattern) && !regex_compiles(pattern, usize::BITS as nat),
        all_compile(patterns) <==> !exists|pattern: Seq<char>| #[trigger]
            patterns.contains(pattern) && pattern.len() > 0 && !regex_compiles(
                pattern,
                usize::BITS as nat,
            ),
{
    if !every_compiles(patterns) {
        let j = choose|j: int|
            0 <= j < patterns.len() && !regex_compiles(#[trigger] patterns[j], usize::BITS as nat);
        assert(patterns.contains(patterns[j]));
    }
    if !all_compile(patterns) {
        let j = choose|j: int|
            0 <= j < patterns.len() && (#[trigger] patterns[j]).len() > 0 && !regex_compiles(
                patterns[j],
                usize::BITS as nat,
            );
        assert(patterns.contains(patterns[j]));
    }
}

/// Where the addresses of an image fit, its base can have any two numbers of 32 bits added.
pub proof fn law_fitting_addresses_can_be_added(data: Seq<u8>, address: u32, value: u32)
    requires
        addresses_fit(data),
    ensures
        wide_image_base(data) matches Some(base) ==> 0 <= base && base + address + value
            <= u64::MAX,
{
}

/// The addresses fit in every file that does not begin with the mark of a Windows program, or
/// whose base leaves room for two numbers of 32 bits.
pub proof fn law_addresses_of_other_files_fit(data: Seq<u8>)
    ensures
        data.len() < 64 || data[0] != 0x4d || data[1] != 0x5a ==> addresses_fit(data),
        wide_image_base(data) matches Some(base) ==> (addresses_fit(data) <==> base + u32::MAX
            + u32::MAX <= u64::MAX),
{
}

/// Numbers have their low bytes first: each byte counts 256 times the one before.
pub proof fn law_numbers_have_low_bytes_first(data: Seq<u8>, at: int)
    ensures
        number_16(data, at) == data[at] + 0x100 * data[at + 1],
        number_32(data, at) == data[at] + 0x100 * data[at + 1] + 0x1_0000 * data[at + 2]
            + 0x100_0000 * data[at + 3],
        number_64(data, at) == number_32(data, at) + 0x1_0000_0000 * data[at + 4]
            + 0x100_0000_0000 * data[at + 5] + 0x1_0000_0000_0000 * data[at + 6]
            + 0x100_0000_0000_0000 * data[at + 7],
{
}

/// Symbols and patterns keep their texts and addresses, each in its place.
pub proof fn law_symbols_and_patterns_keep_their_texts(
    all: Seq<SymEntry>,
    patterns: Seq<String>,
    i: int,
)
    ensures
        symbols_of(all).len() == all.len(),
        texts_of(patterns).len() == patterns.len(),
        0 <= i < all.len() ==> {
            &&& symbols_of(all)[i].mangled == all[i].mangled@
            &&& symbols_of(all)[i].demangled == all[i].demangled@
            &&& symbols_of(all)[i].addr == all[i].addr
        },
        0 <= i < patterns.len() ==> texts_of(patterns)[i] == patterns[i]@,
{
}

} // verus!
