use manifest_producer::analysis::{
    analyze_functions, assemble, build_program, discover, elf_analysis, function_reports,
};
use manifest_producer::api_detection::SymbolEntry;
use manifest_producer::dwarf_analysis::{analyze_elf_file, dwarf_analysis, DebugSection, DebugSections};
use manifest_producer::elf_utils::{
    code_region, is_pie, is_static, is_stripped, read_layout, read_symbols, region_bytes,
    CodeRegion, ElfLayout, SectionEntry,
};
use manifest_producer::error::Error;
use manifest_producer::syscall_flow::{
    linux_table, syscall_flow, CallEdge, FunctionCode, ImportEntry, ImportStub, Instruction,
};

struct Section {
    name: &'static str,
    kind: u32,
    addr: u64,
    link: u32,
    info: u32,
    entsize: u64,
    data: Vec<u8>,
}

fn section(name: &'static str, kind: u32, addr: u64, data: Vec<u8>) -> Section {
    Section { name, kind, addr, link: 0, info: 0, entsize: 0, data }
}

fn symbol_record(name: u32, info: u8, shndx: u16, value: u64, size: u64) -> Vec<u8> {
    let mut out = Vec::new();
    out.extend_from_slice(&name.to_le_bytes());
    out.push(info);
    out.push(0);
    out.extend_from_slice(&shndx.to_le_bytes());
    out.extend_from_slice(&value.to_le_bytes());
    out.extend_from_slice(&size.to_le_bytes());
    out
}

// One compilation unit (DWARF 4) per language code, each with a single entry
// that carries only the language attribute.
fn debug_info(languages: &[u16]) -> Vec<u8> {
    let mut out = Vec::new();
    for language in languages {
        out.extend_from_slice(&10u32.to_le_bytes());
        out.extend_from_slice(&4u16.to_le_bytes());
        out.extend_from_slice(&0u32.to_le_bytes());
        out.push(8);
        out.push(1);
        out.extend_from_slice(&language.to_le_bytes());
    }
    out
}

fn debug_abbrev() -> Vec<u8> {
    // code 1, DW_TAG_compile_unit, no children, DW_AT_language as DW_FORM_data2
    vec![0x01, 0x11, 0x00, 0x13, 0x05, 0x00, 0x00, 0x00]
}

// A little-endian ELF64 file for x86-64 with the given sections behind the
// null section and the section-name table.
fn elf_file(e_type: u16, sections: Vec<Section>) -> Vec<u8> {
    let mut names = vec![0u8];
    let mut name_offsets = Vec::new();
    let shstrtab_name = names.len() as u32;
    names.extend_from_slice(b".shstrtab\0");
    for s in &sections {
        name_offsets.push(names.len() as u32);
        names.extend_from_slice(s.name.as_bytes());
        names.push(0);
    }
    let mut body = Vec::new();
    let mut headers = vec![vec![0u8; 64]];
    let mut push_header = |name: u32, s: &Section, offset: u64, size: u64| {
        let mut h = Vec::new();
        h.extend_from_slice(&name.to_le_bytes());
        h.extend_from_slice(&s.kind.to_le_bytes());
        h.extend_from_slice(&0u64.to_le_bytes());
        h.extend_from_slice(&s.addr.to_le_bytes());
        h.extend_from_slice(&offset.to_le_bytes());
        h.extend_from_slice(&size.to_le_bytes());
        h.extend_from_slice(&s.link.to_le_bytes());
        h.extend_from_slice(&s.info.to_le_bytes());
        h.extend_from_slice(&1u64.to_le_bytes());
        h.extend_from_slice(&s.entsize.to_le_bytes());
        headers.push(h);
    };
    let names_section = section(".shstrtab", 3, 0, names.clone());
    push_header(shstrtab_name, &names_section, 64, names.len() as u64);
    body.extend_from_slice(&names);
    for (s, name) in sections.iter().zip(name_offsets) {
        push_header(name, s, 64 + body.len() as u64, s.data.len() as u64);
        body.extend_from_slice(&s.data);
    }
    let mut file = vec![0x7f, b'E', b'L', b'F', 2, 1, 1, 0, 0, 0, 0, 0, 0, 0, 0, 0];
    file.extend_from_slice(&e_type.to_le_bytes());
    file.extend_from_slice(&62u16.to_le_bytes());
    file.extend_from_slice(&1u32.to_le_bytes());
    file.extend_from_slice(&0x1000u64.to_le_bytes());
    file.extend_from_slice(&0u64.to_le_bytes());
    file.extend_from_slice(&(64 + body.len() as u64).to_le_bytes());
    file.extend_from_slice(&0u32.to_le_bytes());
    file.extend_from_slice(&64u16.to_le_bytes());
    file.extend_from_slice(&56u16.to_le_bytes());
    file.extend_from_slice(&0u16.to_le_bytes());
    file.extend_from_slice(&64u16.to_le_bytes());
    file.extend_from_slice(&(headers.len() as u16).to_le_bytes());
    file.extend_from_slice(&1u16.to_le_bytes());
    file.extend_from_slice(&body);
    for h in headers {
        file.extend_from_slice(&h);
    }
    file
}

// Sections 2 .text, 3 .symtab, 4 .strtab, then the debug sections if any.
fn firmware(e_type: u16, languages: Option<&[u16]>, with_functions: bool) -> Vec<u8> {
    let strtab = b"\0turnLampOn\0turnLampOff\0counter\0printf\0".to_vec();
    let mut symtab = symbol_record(0, 0, 0, 0, 0);
    if with_functions {
        symtab.extend(symbol_record(1, 0x12, 2, 0x1000, 0x10));
        symtab.extend(symbol_record(12, 0x12, 2, 0x1010, 0x08));
    }
    symtab.extend(symbol_record(24, 0x11, 2, 0x1018, 8));
    symtab.extend(symbol_record(32, 0x12, 0, 0, 0));
    let mut sections = vec![
        section(".text", 1, 0x1000, vec![0x90; 0x20]),
        Section { name: ".symtab", kind: 2, addr: 0, link: 4, info: 1, entsize: 24, data: symtab },
        section(".strtab", 3, 0, strtab),
    ];
    if let Some(languages) = languages {
        sections.push(section(".debug_abbrev", 1, 0, debug_abbrev()));
        sections.push(section(".debug_info", 1, 0, debug_info(languages)));
    }
    elf_file(e_type, sections)
}

#[test]
fn test_dwarf_analysis() {
    let file = firmware(3, Some(&[0x1c, 0x0c, 0x0c, 0x1c, 0x0c]), true);
    let result = dwarf_analysis(&file).unwrap();
    assert_eq!(result, "DW_LANG_Rust".to_string());
}

#[test]
fn test_analyze_elf_file() {
    let sections = DebugSections {
        little_endian: true,
        sections: vec![
            DebugSection { name: ".debug_abbrev".to_string(), data: debug_abbrev() },
            DebugSection { name: ".debug_info".to_string(), data: debug_info(&[0x1c, 0x0c]) },
        ],
    };
    let result = analyze_elf_file(&sections).unwrap();
    assert_eq!(result, "DW_LANG_Rust");
}

#[test]
fn sections_are_found_by_name() {
    let sections = DebugSections {
        little_endian: true,
        sections: vec![
            DebugSection { name: ".debug_info".to_string(), data: vec![1, 2] },
            DebugSection { name: ".debug_str".to_string(), data: vec![3] },
            DebugSection { name: ".debug_info".to_string(), data: vec![4] },
        ],
    };
    assert_eq!(sections.find(".debug_str"), Some(1));
    assert_eq!(sections.section_data(".debug_info"), &[1, 2]);
    assert_eq!(sections.section_data(".debug_line"), &[] as &[u8]);
    assert_eq!(analyze_elf_file(&sections), Err(Error::Load));
}

#[test]
fn big_endian_units_are_read() {
    let mut info = Vec::new();
    info.extend_from_slice(&10u32.to_be_bytes());
    info.extend_from_slice(&4u16.to_be_bytes());
    info.extend_from_slice(&0u32.to_be_bytes());
    info.extend_from_slice(&[8, 1, 0x00, 0x1c]);
    let sections = DebugSections {
        little_endian: false,
        sections: vec![
            DebugSection { name: ".debug_abbrev".to_string(), data: debug_abbrev() },
            DebugSection { name: ".debug_info".to_string(), data: info },
        ],
    };
    assert_eq!(analyze_elf_file(&sections), Ok("DW_LANG_Rust".to_string()));
}

#[test]
fn dwarf_analysis_of_c_units() {
    let file = firmware(2, Some(&[0x0c, 0x0c, 0x01]), true);
    assert_eq!(dwarf_analysis(&file), Ok("DW_LANG_C99".to_string()));
}

#[test]
fn dwarf_analysis_without_units_finds_no_language() {
    let file = firmware(2, None, true);
    assert_eq!(dwarf_analysis(&file), Err(Error::LangNotFound));
}

#[test]
fn dwarf_analysis_rejects_other_files() {
    assert_eq!(dwarf_analysis(b"not an object file"), Err(Error::Load));
    assert_eq!(dwarf_analysis(&[]), Err(Error::Load));
}

#[test]
fn layout_facts_of_an_executable() {
    let file = firmware(2, Some(&[0x0c]), true);
    let layout = read_layout(&file).unwrap();
    assert!(!is_stripped(&layout));
    assert!(is_static(&layout));
    assert!(!is_pie(&layout));
    assert_eq!(layout.sections.len(), 7);
    assert_eq!(layout.sections[2].name, Some(".text".to_string()));
    assert_eq!(layout.sections[2].addr, 0x1000);
    assert_eq!(layout.sections[2].size, 0x20);
    let shared = read_layout(&firmware(3, None, true)).unwrap();
    assert!(is_stripped(&shared));
    assert!(is_pie(&shared));
}

#[test]
fn symbols_are_read_with_their_names() {
    let symbols = read_symbols(&firmware(2, None, true)).unwrap();
    assert_eq!(symbols.len(), 5);
    assert_eq!(
        symbols[1],
        SymbolEntry {
            info: 0x12,
            shndx: 2,
            value: 0x1000,
            size: 0x10,
            name: Some("turnLampOn".to_string()),
        }
    );
    assert_eq!(symbols[4].name, Some("printf".to_string()));
    assert_eq!(symbols[4].shndx, 0);
}

#[test]
fn unparseable_file_is_a_load_error() {
    assert_eq!(read_layout(b"\x7fELF").err(), Some(Error::Load));
    assert_eq!(read_symbols(b"").err(), Some(Error::Load));
    assert_eq!(discover(b"MZ").err(), Some(Error::Load));
}

#[test]
fn stripped_binary_fails_first() {
    assert_eq!(discover(&firmware(2, None, true)).err(), Some(Error::DebugInfo));
    assert_eq!(discover(&firmware(2, None, false)).err(), Some(Error::DebugInfo));
    let layout = ElfLayout { e_type: 2, has_interpreter: false, sections: Vec::new() };
    assert_eq!(
        assemble(&layout, Ok("DW_LANG_C99".to_string()), &Vec::new()).err(),
        Some(Error::DebugInfo)
    );
    assert_eq!(assemble(&layout, Err(Error::Load), &Vec::new()).err(), Some(Error::DebugInfo));
}

#[test]
fn analysis_discovers_the_functions() {
    let found = discover(&firmware(2, Some(&[0x0c, 0x0c]), true)).unwrap();
    assert_eq!(found.language, "C99");
    assert!(found.is_static);
    assert!(!found.is_pie);
    assert_eq!(found.functions.len(), 2);
    assert_eq!(found.functions[0].name, "turnLampOn");
    assert_eq!(found.functions[0].start_addr, 0x1000);
    assert_eq!(found.functions[0].end_addr, 0x1010);
    assert_eq!(found.functions[1].name, "turnLampOff");
    assert_eq!(found.functions[1].end_addr, 0x1018);
}

#[test]
fn analysis_without_language_or_functions_fails() {
    assert_eq!(
        discover(&firmware(2, Some(&[]), true)).err(),
        Some(Error::LangNotFound)
    );
    assert_eq!(
        discover(&firmware(2, Some(&[0x7777]), true)).err(),
        Some(Error::LangNotFound)
    );
    assert_eq!(
        discover(&firmware(2, Some(&[0x1c]), false)).err(),
        Some(Error::FuncListEmpty)
    );
}

#[test]
fn code_region_translates_addresses() {
    let sections = vec![
        SectionEntry { name: None, addr: 0, offset: 0, size: 0 },
        SectionEntry { name: Some(".text".to_string()), addr: 0x401000, offset: 0x1000, size: 0x200 },
        SectionEntry { name: Some(".fini".to_string()), addr: 0x401200, offset: 0x1200, size: 0x10 },
    ];
    assert_eq!(
        code_region(&sections, 0x401010, 0x401030),
        Ok(CodeRegion { offset: 0x1010, len: 0x20 })
    );
    assert_eq!(
        code_region(&sections, 0x401200, 0x401210),
        Ok(CodeRegion { offset: 0x1200, len: 0x10 })
    );
    assert_eq!(code_region(&sections, 0x401100, 0x401100), Ok(CodeRegion { offset: 0x1100, len: 0 }));
    assert_eq!(code_region(&sections, 0x4011f0, 0x401208), Err(Error::Region));
    assert_eq!(code_region(&sections, 0x500000, 0x500010), Err(Error::Region));
    assert_eq!(code_region(&sections, 0x401030, 0x401010), Err(Error::Region));
    assert_eq!(code_region(&Vec::new(), 0, 0), Err(Error::Region));
}

#[test]
fn static_lamp_function_reports_write() {
    let file = firmware(2, Some(&[0x0c]), true);
    let mut found = discover(&file).unwrap();
    let prog: Vec<FunctionCode> = found
        .functions
        .iter()
        .map(|api| FunctionCode {
            start: api.start_addr,
            end: api.end_addr,
            edges: if api.name == "turnLampOn" { vec![CallEdge::Syscall(1)] } else { Vec::new() },
            truncated: false,
        })
        .collect();
    let flow = syscall_flow(&prog, &Vec::new(), 0);
    assert!(!flow.partial);
    assert!(!flow.unresolved);
    found.functions[0].set_syscalls(flow.syscalls);
    assert_eq!(found.functions[0].name, "turnLampOn");
    assert_eq!(found.functions[0].syscalls.to_vec(), vec![1]);
    assert!(found.is_static);
    assert!(found.functions[1].syscalls.is_empty());
}

#[test]
fn function_code_is_cut_from_the_file() {
    let mut file = firmware(2, Some(&[0x0c]), true);
    let layout = read_layout(&file).unwrap();
    let region = code_region(&layout.sections, 0x1010, 0x1018).unwrap();
    assert_eq!(region.len, 8);
    let at = region.offset as usize;
    file[at] = 0x0f;
    file[at + 1] = 0x05;
    assert_eq!(
        region_bytes(&file, region),
        Ok(vec![0x0f, 0x05, 0x90, 0x90, 0x90, 0x90, 0x90, 0x90])
    );
    assert_eq!(region_bytes(&file, CodeRegion { offset: at as u64, len: 0 }), Ok(Vec::new()));
    let size = file.len() as u64;
    assert_eq!(region_bytes(&file, CodeRegion { offset: size, len: 0 }), Ok(Vec::new()));
    assert_eq!(region_bytes(&file, CodeRegion { offset: size - 1, len: 2 }), Err(Error::Region));
    assert_eq!(region_bytes(&file, CodeRegion { offset: u64::MAX, len: 2 }), Err(Error::Region));
    assert_eq!(code_region(&layout.sections, 0x1010, 0x1021), Err(Error::Region));
}

#[test]
fn reports_name_each_function_with_its_set() {
    let found = discover(&firmware(3, Some(&[0x0c]), true)).unwrap();
    let prog = vec![
        FunctionCode {
            start: 0x1000,
            end: 0x1010,
            edges: vec![CallEdge::LocalCall(0x1010), CallEdge::ImportCall("socket".to_string())],
            truncated: false,
        },
        FunctionCode {
            start: 0x1010,
            end: 0x1018,
            edges: vec![CallEdge::Syscall(1), CallEdge::Unresolved],
            truncated: true,
        },
    ];
    let table = vec![ImportEntry { name: "socket".to_string(), syscall: 41 }];
    let reports = function_reports(&found.functions, &prog, &table);
    assert_eq!(reports.len(), 2);
    assert_eq!(reports[0].name, "turnLampOn");
    assert_eq!((reports[0].start_addr, reports[0].end_addr), (0x1000, 0x1010));
    assert_eq!(reports[0].flow.syscalls.to_vec(), vec![41, 1]);
    assert!(reports[0].flow.partial);
    assert!(reports[0].flow.unresolved);
    assert_eq!(reports[1].name, "turnLampOff");
    assert_eq!(reports[1].flow.syscalls.to_vec(), vec![1]);
    assert!(found.is_pie);
}

fn no_stubs() -> Vec<ImportStub> {
    Vec::new()
}

#[test]
fn whole_run_reports_a_raw_write_of_a_static_binary() {
    let file = firmware(2, Some(&[0x0c]), true);
    let decoded = vec![
        vec![Instruction::SetSyscallNumber(1), Instruction::Trap],
        vec![Instruction::Other],
    ];
    let manifest = elf_analysis(&file, &decoded, &no_stubs(), &linux_table()).unwrap();
    assert_eq!(manifest.discovery.language, "C99");
    assert!(manifest.discovery.is_static);
    assert_eq!(manifest.reports.len(), 2);
    assert_eq!(manifest.reports[0].name, "turnLampOn");
    assert_eq!(manifest.reports[0].flow.syscalls.to_vec(), vec![1]);
    assert!(!manifest.reports[0].flow.partial);
    assert!(!manifest.reports[0].flow.unresolved);
    assert_eq!(manifest.reports[1].name, "turnLampOff");
    assert!(manifest.reports[1].flow.syscalls.is_empty());
    assert_eq!(manifest.program[0].edges, vec![CallEdge::Syscall(1)]);
    assert_eq!((manifest.program[1].start, manifest.program[1].end), (0x1010, 0x1018));
}

#[test]
fn whole_run_fails_as_discovery_does() {
    let decoded = vec![vec![Instruction::Trap]];
    let table = linux_table();
    assert_eq!(elf_analysis(b"MZ", &decoded, &no_stubs(), &table).err(), Some(Error::Load));
    assert_eq!(
        elf_analysis(&firmware(2, None, true), &decoded, &no_stubs(), &table).err(),
        Some(Error::DebugInfo)
    );
    assert_eq!(
        elf_analysis(&firmware(2, Some(&[]), true), &decoded, &no_stubs(), &table).err(),
        Some(Error::LangNotFound)
    );
    assert_eq!(
        elf_analysis(&firmware(2, Some(&[0x1c]), false), &decoded, &no_stubs(), &table).err(),
        Some(Error::FuncListEmpty)
    );
}

fn layout_with_text() -> ElfLayout {
    ElfLayout {
        e_type: 3,
        has_interpreter: true,
        sections: vec![SectionEntry {
            name: Some(".text".to_string()),
            addr: 0x1000,
            offset: 0x1000,
            size: 0x100,
        }],
    }
}

fn symbols_of(ranges: &[(&str, u64, u64)]) -> Vec<SymbolEntry> {
    let mut symbols: Vec<SymbolEntry> = ranges
        .iter()
        .map(|(name, value, size)| SymbolEntry {
            info: 0x12,
            shndx: 1,
            value: *value,
            size: *size,
            name: Some(name.to_string()),
        })
        .collect();
    symbols.push(SymbolEntry { info: 0, shndx: 0, value: 0, size: 0, name: None });
    symbols
}

fn dynamic_discovery(ranges: &[(&str, u64, u64)]) -> manifest_producer::analysis::Discovery {
    let mut layout = layout_with_text();
    layout.sections.push(SectionEntry {
        name: Some(".debug_info".to_string()),
        addr: 0,
        offset: 0x2000,
        size: 0x10,
    });
    assemble(&layout, Ok("DW_LANG_C99".to_string()), &symbols_of(ranges)).unwrap()
}

#[test]
fn dynamic_imports_are_reported_through_stubs_and_table() {
    let found = dynamic_discovery(&[("accessNetwork", 0x1000, 0x40), ("turnLampOn", 0x1040, 0x10)]);
    assert!(!found.is_static);
    let stubs = vec![
        ImportStub { addr: 0x500, name: "socket".to_string() },
        ImportStub { addr: 0x510, name: "connect".to_string() },
    ];
    let decoded = vec![
        vec![Instruction::Call(0x500), Instruction::Call(0x510)],
        vec![Instruction::SetSyscallNumber(1), Instruction::Trap],
    ];
    let (prog, reports) =
        analyze_functions(&found, &layout_with_text(), &decoded, &stubs, &linux_table());
    assert_eq!(
        prog[0].edges,
        vec![
            CallEdge::ImportCall("socket".to_string()),
            CallEdge::ImportCall("connect".to_string()),
        ]
    );
    assert_eq!(reports[0].name, "accessNetwork");
    assert_eq!(reports[0].flow.syscalls.to_vec(), vec![41, 42]);
    assert!(!reports[0].flow.partial);
    assert!(!reports[0].flow.unresolved);
    assert_eq!(reports[1].flow.syscalls.to_vec(), vec![1]);
}

#[test]
fn one_bad_function_is_marked_and_the_rest_goes_on() {
    let found = dynamic_discovery(&[
        ("outside", 0x9000, 0x10),
        ("broken", 0x1000, 0x10),
        ("empty", 0x1010, 0),
        ("caller", 0x1020, 0x10),
        ("undecoded", 0x1030, 0x10),
    ]);
    let decoded = vec![
        vec![Instruction::SetSyscallNumber(2), Instruction::Trap],
        vec![
            Instruction::SetSyscallNumber(1),
            Instruction::Trap,
            Instruction::Invalid,
            Instruction::SetSyscallNumber(3),
            Instruction::Trap,
        ],
        vec![Instruction::SetSyscallNumber(4), Instruction::Trap],
        vec![Instruction::Call(0x1000), Instruction::Call(0x1020), Instruction::Call(0x9000)],
    ];
    let (prog, reports) =
        analyze_functions(&found, &layout_with_text(), &decoded, &no_stubs(), &linux_table());
    assert_eq!(reports.len(), 5);
    // unmapped range: unresolved, nothing read from it
    assert_eq!(prog[0].edges, vec![CallEdge::Unresolved]);
    assert!(reports[0].flow.syscalls.is_empty());
    assert!(reports[0].flow.unresolved);
    assert!(!reports[0].flow.partial);
    // bytes that stop decoding: what was found before, and the partial mark
    assert_eq!(reports[1].flow.syscalls.to_vec(), vec![1]);
    assert!(reports[1].flow.partial);
    assert!(!reports[1].flow.unresolved);
    // empty range: nothing, whatever was handed in for it
    assert!(prog[2].edges.is_empty());
    assert!(reports[2].flow.syscalls.is_empty());
    assert!(!reports[2].flow.partial);
    assert!(!reports[2].flow.unresolved);
    // the caller reaches the broken function, itself, and the unmapped one
    assert_eq!(
        prog[3].edges,
        vec![
            CallEdge::LocalCall(0x1000),
            CallEdge::LocalCall(0x1020),
            CallEdge::LocalCall(0x9000),
        ]
    );
    assert_eq!(reports[3].flow.syscalls.to_vec(), vec![1]);
    assert!(reports[3].flow.partial);
    assert!(reports[3].flow.unresolved);
    // no instructions handed in: nothing found, decoded in part
    assert!(reports[4].flow.syscalls.is_empty());
    assert!(reports[4].flow.partial);
    assert_eq!(reports[4].name, "undecoded");
}

#[test]
fn recursion_changes_no_report() {
    let found = dynamic_discovery(&[("ping", 0x1000, 0x10), ("pong", 0x1010, 0x10)]);
    let with_cycle = vec![
        vec![
            Instruction::Call(0x1000),
            Instruction::SetSyscallNumber(1),
            Instruction::Trap,
            Instruction::Call(0x1010),
        ],
        vec![Instruction::SetSyscallNumber(2), Instruction::Trap, Instruction::Call(0x1000)],
    ];
    let without_cycle = vec![
        vec![
            Instruction::ClobberSyscallNumber,
            Instruction::SetSyscallNumber(1),
            Instruction::Trap,
            Instruction::Call(0x1010),
        ],
        vec![
            Instruction::SetSyscallNumber(2),
            Instruction::Trap,
            Instruction::ClobberSyscallNumber,
        ],
    ];
    let table = linux_table();
    let layout = layout_with_text();
    let (_, cyclic) = analyze_functions(&found, &layout, &with_cycle, &no_stubs(), &table);
    let (_, plain) = analyze_functions(&found, &layout, &without_cycle, &no_stubs(), &table);
    assert_eq!(cyclic[0].flow.syscalls.to_vec(), vec![1, 2]);
    assert_eq!(cyclic[0].flow.syscalls.to_vec(), plain[0].flow.syscalls.to_vec());
    assert_eq!(cyclic[0].flow.syscalls.len(), 2);
    assert_eq!(plain[1].flow.syscalls.to_vec(), vec![2]);
    assert_eq!(cyclic[1].flow.syscalls.to_vec(), vec![2, 1]);
}

#[test]
fn program_takes_each_range_from_its_descriptor() {
    let found = dynamic_discovery(&[("a", 0x1000, 0x10), ("b", 0x1010, 0x20)]);
    let decoded = vec![vec![Instruction::IndirectCall], vec![Instruction::Trap]];
    let layout = layout_with_text();
    let prog = build_program(&found.functions, &layout.sections, &decoded, &no_stubs(), false);
    assert_eq!((prog[0].start, prog[0].end), (0x1000, 0x1010));
    assert_eq!((prog[1].start, prog[1].end), (0x1010, 0x1030));
    assert_eq!(prog[0].edges, vec![CallEdge::Unresolved]);
    assert_eq!(prog[1].edges, vec![CallEdge::IndeterminateSyscall]);
    assert!(!prog[0].truncated);
}

#[test]
fn linux_table_names_the_network_calls() {
    let table = linux_table();
    assert_eq!(table.len(), 12);
    assert!(table.contains(&ImportEntry { name: "write".to_string(), syscall: 1 }));
    assert!(table.contains(&ImportEntry { name: "socket".to_string(), syscall: 41 }));
    assert!(table.contains(&ImportEntry { name: "connect".to_string(), syscall: 42 }));
    assert_eq!(table[0], ImportEntry { name: "read".to_string(), syscall: 0 });
}
