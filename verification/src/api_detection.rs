//! Function discovery from symbol-table entries, name normalisation, and
//! matching of discovered functions against requested names.

use vstd::prelude::*;
use crate::error::Error;
use crate::syscall_set::SyscallSet;

verus! {

/// Symbol type code of a function.
pub const STT_FUNC: u8 = 2;

/// One symbol-table entry, with its name already looked up in the string
/// table (`None` where the table holds none at the entry's offset).
#[derive(Debug, Clone, PartialEq, Eq)]
pub struct SymbolEntry {
    pub info: u8,
    pub shndx: usize,
    pub value: u64,
    pub size: u64,
    pub name: Option<String>,
}

/// The mathematical content of a [`SymbolEntry`].
pub struct SymbolView {
    pub info: u8,
    pub shndx: usize,
    pub value: u64,
    pub size: u64,
    pub name: Option<Seq<char>>,
}

impl View for SymbolEntry {
    type V = SymbolView;

    open spec fn view(&self) -> SymbolView {
        SymbolView {
            info: self.info,
            shndx: self.shndx,
            value: self.value,
            size: self.size,
            name: match self.name {
                Some(text) => Some(text@),
                None => None,
            },
        }
    }
}

/// The views of a symbol table's entries, in order.
pub open spec fn symbol_views(symbols: Seq<SymbolEntry>) -> Seq<SymbolView> {
    Seq::new(symbols.len(), |i: int| symbols[i]@)
}

/// One analysis target: a function's canonical name, its half-open address
/// range, and the system calls found for it.
pub struct API {
    pub name: String,
    pub start_addr: u64,
    pub end_addr: u64,
    pub syscalls: SyscallSet,
}

/// The mathematical content of an [`API`].
pub struct ApiView {
    pub name: Seq<char>,
    pub start_addr: u64,
    pub end_addr: u64,
    pub syscalls: Set<u64>,
}

impl View for API {
    type V = ApiView;

    open spec fn view(&self) -> ApiView {
        ApiView {
            name: self.name@,
            start_addr: self.start_addr,
            end_addr: self.end_addr,
            syscalls: self.syscalls@,
        }
    }
}

impl API {
    /// The range is well ordered and the set holds nothing twice.
    pub open spec fn wf(&self) -> bool {
        self.start_addr <= self.end_addr && self.syscalls.wf()
    }

    /// A descriptor with an empty system-call set.
    pub fn new(name: String, start_addr: u64, end_addr: u64) -> (api: API)
        requires
            start_addr <= end_addr,
        ensures
            api.wf(),
            api@ == (ApiView { name: name@, start_addr, end_addr, syscalls: Set::empty() }),
    {
        API { name, start_addr, end_addr, syscalls: SyscallSet::new() }
    }

    /// Attaches the system-call set found for this function; name and range
    /// stay as they are.
    pub fn set_syscalls(&mut self, syscalls: SyscallSet)
        requires
            syscalls.wf(),
            old(self).wf(),
        ensures
            final(self).wf(),
            final(self)@ == (ApiView { syscalls: syscalls@, ..old(self)@ }),
    {
        self.syscalls = syscalls;
    }

    /// Whether the range holds no address.
    pub fn is_empty_range(&self) -> (empty: bool)
        ensures
            empty == (self.start_addr >= self.end_addr),
    {
        self.start_addr >= self.end_addr
    }
}

impl Clone for API {
    fn clone(&self) -> (copy: API)
        ensures
            copy@ == self@,
            copy.wf() == self.wf(),
    {
        API {
            name: self.name.clone(),
            start_addr: self.start_addr,
            end_addr: self.end_addr,
            syscalls: self.syscalls.clone(),
        }
    }
}

/// The views of a list of descriptors, in order.
pub open spec fn api_views(apis: Seq<API>) -> Seq<ApiView> {
    Seq::new(apis.len(), |i: int| apis[i]@)
}

/// What the Rust demangler makes of a symbol name.
pub uninterp spec fn rustc_demangled(name: Seq<char>) -> Seq<char>;

/// Calls `rustc_demangle::demangle` and renders the result in its plain
/// form. The result is a function of the name alone; the contract only gives
/// it a name.
#[verifier::external_body]
fn rust_demangle(name: &str) -> (plain: String)
    ensures
        plain@ == rustc_demangled(name@),
{
    rustc_demangle::demangle(name).to_string()
}

/// `needle` occurs in `haystack` as a run of consecutive characters.
pub open spec fn is_substring(needle: Seq<char>, haystack: Seq<char>) -> bool {
    exists|i: int|
        0 <= i && i + needle.len() <= haystack.len() && #[trigger] haystack.subrange(
            i,
            i + needle.len(),
        ) == needle
}

/// Calls `str::contains` with a string pattern, which holds exactly when the
/// pattern occurs somewhere in the string.
#[verifier::external_body]
fn name_contains(haystack: &str, needle: &str) -> (found: bool)
    ensures
        found == is_substring(needle@, haystack@),
{
    haystack.contains(needle)
}

/// The canonical name of a symbol in a binary of the given language: Rust
/// names go through the Rust demangler, all others stay as they are.
pub open spec fn normalized_name(name: Seq<char>, language: Seq<char>) -> Seq<char> {
    if language == "Rust"@ {
        rustc_demangled(name)
    } else {
        name
    }
}

/// The canonical name of a symbol, by the language's demangling rule.
pub fn demangle_func_name(name: &str, language: &str) -> (canonical: String)
    ensures
        canonical@ == normalized_name(name@, language@),
{
    if language.to_owned() == "Rust".to_owned() {
        rust_demangle(name)
    } else {
        name.to_owned()
    }
}

/// The entry is a function that this binary defines, with a name, and its
/// range ends inside the address space.
pub open spec fn is_defined_function(sym: SymbolView) -> bool {
    &&& sym.info & 0xf == STT_FUNC
    &&& sym.shndx != 0
    &&& sym.name is Some
    &&& sym.value + sym.size <= u64::MAX
}

/// The descriptor that discovery makes of a qualifying entry.
pub open spec fn descriptor_of(sym: SymbolView, language: Seq<char>) -> ApiView {
    ApiView {
        name: normalized_name(sym.name.unwrap(), language),
        start_addr: sym.value,
        end_addr: (sym.value + sym.size) as u64,
        syscalls: Set::empty(),
    }
}

/// The descriptors of all qualifying entries, in symbol-table order.
pub open spec fn discovered(symbols: Seq<SymbolView>, language: Seq<char>) -> Seq<ApiView>
    decreases symbols.len(),
{
    if symbols.len() == 0 {
        Seq::empty()
    } else if is_defined_function(symbols.last()) {
        discovered(symbols.drop_last(), language).push(descriptor_of(symbols.last(), language))
    } else {
        discovered(symbols.drop_last(), language)
    }
}

/// Function discovery: one descriptor for each defined, named function
/// symbol, in table order; an empty outcome is an error.
pub fn func_search(symbols: &Vec<SymbolEntry>, language: &str) -> (found: Result<Vec<API>, Error>)
    ensures
        match found {
            Ok(apis) => apis@.len() > 0 && api_views(apis@) == discovered(
                symbol_views(symbols@),
                language@,
            ) && forall|k: int| 0 <= k < apis@.len() ==> (#[trigger] apis@[k]).wf(),
            Err(e) => e == Error::FuncListEmpty && discovered(
                symbol_views(symbols@),
                language@,
            ).len() == 0,
        },
{
    let mut func_found: Vec<API> = Vec::new();
    let mut i: usize = 0;
    while i < symbols.len()
        invariant
            i <= symbols.len(),
            api_views(func_found@) == discovered(
                symbol_views(symbols@).take(i as int),
                language@,
            ),
            forall|k: int| 0 <= k < func_found@.len() ==> (#[trigger] func_found@[k]).wf(),
        decreases symbols.len() - i,
    {
        let symbol = &symbols[i];
        let ghost before = func_found@;
        proof {
            let views = symbol_views(symbols@);
            assert(views.take(i + 1).drop_last() == views.take(i as int));
            assert(views.take(i + 1).last() == symbol@);
        }
        if symbol.info & 0xf == STT_FUNC && symbol.shndx != 0 {
            match &symbol.name {
                Some(function_name) => {
                    match symbol.value.checked_add(symbol.size) {
                        Some(end_addr) => {
                            let demangled_name = demangle_func_name(function_name.as_str(), language);
                            let api = API::new(demangled_name, symbol.value, end_addr);
                            func_found.push(api);
                            proof {
                                assert(api_views(func_found@) =~= api_views(before).push(
                                    descriptor_of(symbol@, language@),
                                ));
                            }
                        },
                        None => {},
                    }
                },
                None => {},
            }
        }
        i += 1;
    }
    proof {
        assert(symbol_views(symbols@).take(i as int) == symbol_views(symbols@));
    }
    if func_found.len() == 0 {
        Err(Error::FuncListEmpty)
    } else {
        Ok(func_found)
    }
}

/// Descriptor `k` is the first whose name holds `name`.
pub open spec fn is_first_match(name: Seq<char>, apis: Seq<ApiView>, k: int) -> bool {
    &&& 0 <= k < apis.len()
    &&& is_substring(name, apis[k].name)
    &&& forall|j: int| 0 <= j < k ==> !is_substring(name, (#[trigger] apis[j]).name)
}

/// No descriptor's name holds `name`.
pub open spec fn is_unmatched(name: Seq<char>, apis: Seq<ApiView>) -> bool {
    forall|j: int| 0 <= j < apis.len() ==> !is_substring(name, (#[trigger] apis[j]).name)
}

/// Position of the first descriptor whose name holds `name`.
pub fn find_api(name: &str, func_found: &Vec<API>) -> (at: Option<usize>)
    ensures
        match at {
            Some(k) => is_first_match(name@, api_views(func_found@), k as int),
            None => is_unmatched(name@, api_views(func_found@)),
        },
{
    let mut i: usize = 0;
    while i < func_found.len()
        invariant
            i <= func_found.len(),
            forall|j: int|
                0 <= j < i ==> !is_substring(name@, (#[trigger] api_views(func_found@)[j]).name),
        decreases func_found.len() - i,
    {
        if name_contains(func_found[i].name.as_str(), name) {
            return Some(i);
        }
        i += 1;
    }
    None
}

/// The first descriptor whose name holds `name`, if there is one.
pub fn extract_api(name: &str, func_found: Vec<API>) -> (api: Option<API>)
    ensures
        match api {
            Some(a) => exists|k: int| #[trigger]
                is_first_match(name@, api_views(func_found@), k) && a@ == func_found@[k]@
                    && a.wf() == func_found@[k].wf(),
            None => is_unmatched(name@, api_views(func_found@)),
        },
{
    match find_api(name, &func_found) {
        Some(k) => Some(func_found[k].clone()),
        None => None,
    }
}

/// For each requested name, in order, the position of its first match, or
/// `None` where no discovered function matches it.
pub fn match_names(names: &Vec<String>, func_found: &Vec<API>) -> (matches: Vec<Option<usize>>)
    ensures
        matches@.len() == names@.len(),
        forall|i: int|
            0 <= i < names@.len() ==> match #[trigger] matches@[i] {
                Some(k) => is_first_match(names@[i]@, api_views(func_found@), k as int),
                None => is_unmatched(names@[i]@, api_views(func_found@)),
            },
{
    let mut matches: Vec<Option<usize>> = Vec::new();
    let mut i: usize = 0;
    while i < names.len()
        invariant
            i <= names.len(),
            matches@.len() == i,
            forall|j: int|
                0 <= j < i ==> match #[trigger] matches@[j] {
                    Some(k) => is_first_match(names@[j]@, api_views(func_found@), k as int),
                    None => is_unmatched(names@[j]@, api_views(func_found@)),
                },
        decreases names.len() - i,
    {
        let at = find_api(names[i].as_str(), func_found);
        matches.push(at);
        i += 1;
    }
    matches
}

/// A name has at most one first match: which descriptor answers a request is
/// fixed by the discovery order alone.
pub proof fn law_first_match_unique(name: Seq<char>, apis: Seq<ApiView>, j: int, k: int)
    requires
        is_first_match(name, apis, j),
        is_first_match(name, apis, k),
    ensures
        j == k,
{
}

} // verus!
