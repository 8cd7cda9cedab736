use manifest_producer::api_detection::{
    demangle_func_name, extract_api, find_api, func_search, match_names, SymbolEntry, API,
};
use manifest_producer::error::Error;

fn lamp_functions() -> Vec<API> {
    vec![
        API::new("turnLampOn".to_string(), 0x1000, 0x1010),
        API::new("turnLampOff".to_string(), 0x1010, 0x1020),
        API::new("writeOnDrive".to_string(), 0x1020, 0x1040),
    ]
}

fn symbol(info: u8, shndx: usize, value: u64, size: u64, name: Option<&str>) -> SymbolEntry {
    SymbolEntry { info, shndx, value, size, name: name.map(|n| n.to_string()) }
}

#[test]
fn lamp_matches_the_first_lamp_function() {
    let api = extract_api("Lamp", lamp_functions()).unwrap();
    assert_eq!(api.name, "turnLampOn");
    assert_eq!(api.start_addr, 0x1000);
    assert_eq!(api.end_addr, 0x1010);
    assert!(api.syscalls.is_empty());
    assert_eq!(find_api("Lamp", &lamp_functions()), Some(0));
    assert_eq!(find_api("LampOff", &lamp_functions()), Some(1));
}

#[test]
fn unrelated_names_are_unmatched() {
    assert!(extract_api("Webcam", lamp_functions()).is_none());
    assert!(extract_api("lamp", lamp_functions()).is_none());
    let names = vec!["Lamp".to_string(), "accessNetwork".to_string(), "Drive".to_string()];
    assert_eq!(match_names(&names, &lamp_functions()), vec![Some(0), None, Some(2)]);
}

#[test]
fn empty_name_matches_the_first_function() {
    assert_eq!(find_api("", &lamp_functions()), Some(0));
    assert_eq!(find_api("", &Vec::new()), None);
}

#[test]
fn discovery_keeps_defined_named_functions() {
    let symbols = vec![
        symbol(0, 0, 0, 0, Some("")),
        symbol(0x12, 1, 0x1000, 0x10, Some("turnLampOn")),
        symbol(0x11, 1, 0x2000, 8, Some("some_object")),
        symbol(0x12, 0, 0, 0, Some("printf")),
        symbol(0x12, 1, 0x3000, 4, None),
        symbol(0x02, 2, 0x1010, 0, Some("marker")),
    ];
    let found = func_search(&symbols, "C99").unwrap();
    assert_eq!(found.len(), 2);
    assert_eq!(found[0].name, "turnLampOn");
    assert_eq!((found[0].start_addr, found[0].end_addr), (0x1000, 0x1010));
    assert!(!found[0].is_empty_range());
    assert_eq!(found[1].name, "marker");
    assert_eq!((found[1].start_addr, found[1].end_addr), (0x1010, 0x1010));
    assert!(found[1].is_empty_range());
}

#[test]
fn discovery_skips_ranges_past_the_address_space() {
    let symbols = vec![
        symbol(0x12, 1, u64::MAX, 1, Some("past_the_end")),
        symbol(0x12, 1, u64::MAX - 1, 1, Some("last")),
    ];
    let found = func_search(&symbols, "C99").unwrap();
    assert_eq!(found.len(), 1);
    assert_eq!(found[0].name, "last");
    assert_eq!(found[0].end_addr, u64::MAX);
}

#[test]
fn discovery_of_nothing_is_an_error() {
    assert_eq!(func_search(&Vec::new(), "C99").err(), Some(Error::FuncListEmpty));
    let symbols = vec![symbol(0x11, 1, 0x2000, 8, Some("some_object"))];
    assert_eq!(func_search(&symbols, "Rust").err(), Some(Error::FuncListEmpty));
}

#[test]
fn rust_names_are_demangled() {
    assert_eq!(demangle_func_name("_ZN3foo3barE", "Rust"), "foo::bar");
    assert_eq!(demangle_func_name("turnLampOn", "Rust"), "turnLampOn");
    let symbols = vec![symbol(0x12, 1, 0x1000, 0x10, Some("_ZN3foo3barE"))];
    assert_eq!(func_search(&symbols, "Rust").unwrap()[0].name, "foo::bar");
}

#[test]
fn other_languages_keep_the_symbol_name() {
    assert_eq!(demangle_func_name("_ZN3foo3barE", "C99"), "_ZN3foo3barE");
    assert_eq!(demangle_func_name("turnLampOn", "C_plus_plus"), "turnLampOn");
}
