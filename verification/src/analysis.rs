//! The pipeline from an ELF file's bytes to its classified language, its
//! discovered functions, and one report for each of them.

use vstd::prelude::*;
use crate::api_detection::{
    api_views, discovered, func_search, symbol_views, SymbolEntry, SymbolView, API,
};
use crate::dwarf_analysis::{dwarf_analysis, language_of_file, language_tag, tag_of};
use crate::elf_utils::{
    code_region, first_mapping, goblin_layout, goblin_symbols, is_pie, is_static, is_stripped,
    read_layout, read_symbols, section_maps, section_views, stripped, ElfLayout, ElfLayoutView,
    SectionEntry, SectionView, ET_DYN,
};
use crate::error::Error;
use crate::syscall_flow::{
    call_kind, calls, closed_under_calls, edge_calls, edge_emits, edges_differ_by, edges_of,
    emits, first_stub_at, function_edges, holds_unresolved, is_flow_of, is_truncated,
    law_call_gives_edge, law_callee_subset, law_callee_syscall, law_edges_by_ranges,
    law_edges_without_call, law_empty_region, law_own_syscall, law_recursive_call_removed,
    law_recursive_edge, law_trap_gives_syscall, reachable, resolves_to, same_ranges,
    syscall_flow, transitive_syscalls, without_call, CallEdge, FlowResult, FunctionCode,
    ImportEntry, ImportStub, Instruction,
};

verus! {

/// What the pipeline finds out about a binary before any code is decoded.
pub struct Discovery {
    pub language: String,
    pub is_static: bool,
    pub is_pie: bool,
    pub functions: Vec<API>,
}

/// The first failure among the stages, if any: a stripped image, then a
/// language that cannot be named, then an empty function list.
pub open spec fn staged_error(
    layout: ElfLayoutView,
    language: Result<Seq<char>, Error>,
    symbols: Seq<SymbolView>,
) -> Option<Error> {
    if stripped(layout) {
        Some(Error::DebugInfo)
    } else {
        match language {
            Err(e) => Some(e),
            Ok(name) => match tag_of(name) {
                Err(e) => Some(e),
                Ok(tag) => if discovered(symbols, tag).len() == 0 {
                    Some(Error::FuncListEmpty)
                } else {
                    None
                },
            },
        }
    }
}

/// The same for a whole file, where a file that cannot be parsed fails first.
pub open spec fn analysis_error(data: Seq<u8>) -> Option<Error> {
    match goblin_layout(data) {
        None => Some(Error::Load),
        Some(layout) => if stripped(layout) {
            Some(Error::DebugInfo)
        } else {
            match language_of_file(data) {
                Err(e) => Some(e),
                Ok(name) => match goblin_symbols(data) {
                    None => Some(Error::Load),
                    Some(symbols) => staged_error(layout, Ok(name), symbols),
                },
            }
        },
    }
}

/// A stripped image fails with the stripped-binary error whatever the later
/// stages would have found.
pub proof fn law_stripped_fails(
    layout: ElfLayoutView,
    language: Result<Seq<char>, Error>,
    symbols: Seq<SymbolView>,
)
    requires
        stripped(layout),
    ensures
        staged_error(layout, language, symbols) == Some(Error::DebugInfo),
{
}

/// A file whose image is stripped fails with the stripped-binary error,
/// whatever its debug sections and symbol table hold.
pub proof fn law_stripped_file_fails(data: Seq<u8>)
    requires
        goblin_layout(data) is Some,
        stripped(goblin_layout(data).unwrap()),
    ensures
        analysis_error(data) == Some(Error::DebugInfo),
{
}

/// Whether `found` is what discovery owes for this layout, language name and
/// symbol table.
pub open spec fn is_discovery_of(
    found: Discovery,
    layout: ElfLayoutView,
    name: Seq<char>,
    symbols: Seq<SymbolView>,
) -> bool {
    &&& tag_of(name) == Ok::<Seq<char>, Error>(found.language@)
    &&& found.is_static == !layout.has_interpreter
    &&& found.is_pie == (layout.e_type == ET_DYN)
    &&& api_views(found.functions@) == discovered(symbols, found.language@)
    &&& forall|k: int| 0 <= k < found.functions@.len() ==> (#[trigger] found.functions@[k]).wf()
}

/// Runs the stages on values already read: the stripped check, the language
/// tag, function discovery. A stripped image fails whatever the other
/// arguments hold.
pub fn assemble(layout: &ElfLayout, language: Result<String, Error>, symbols: &Vec<SymbolEntry>) -> (found:
    Result<Discovery, Error>)
    ensures
        match found {
            Ok(d) => match language {
                Ok(name) => staged_error(layout@, Ok(name@), symbol_views(symbols@)) is None
                    && is_discovery_of(d, layout@, name@, symbol_views(symbols@)),
                Err(_) => false,
            },
            Err(e) => match language {
                Ok(name) => staged_error(layout@, Ok(name@), symbol_views(symbols@)) == Some(e),
                Err(le) => staged_error(layout@, Err(le), symbol_views(symbols@)) == Some(e),
            },
        },
{
    if is_stripped(layout) {
        return Err(Error::DebugInfo);
    }
    let name = match language {
        Ok(name) => name,
        Err(e) => {
            return Err(e);
        },
    };
    let tag = match language_tag(name.as_str()) {
        Ok(tag) => tag,
        Err(e) => {
            return Err(e);
        },
    };
    match func_search(symbols, tag.as_str()) {
        Ok(functions) => Ok(
            Discovery { language: tag, is_static: is_static(layout), is_pie: is_pie(layout), functions },
        ),
        Err(e) => Err(e),
    }
}

/// Loads, classifies and discovers, and hands back the layout with what was
/// found.
fn discover_in(data: &[u8]) -> (found: Result<(ElfLayout, Discovery), Error>)
    ensures
        match found {
            Ok(pair) => analysis_error(data@) is None && goblin_layout(data@) == Some(pair.0@)
                && is_discovery_of(
                pair.1,
                pair.0@,
                language_of_file(data@).unwrap(),
                goblin_symbols(data@).unwrap(),
            ),
            Err(e) => analysis_error(data@) == Some(e),
        },
{
    let layout = match read_layout(data) {
        Ok(layout) => layout,
        Err(e) => {
            return Err(e);
        },
    };
    if is_stripped(&layout) {
        return Err(Error::DebugInfo);
    }
    let language = dwarf_analysis(data);
    if let Err(e) = language {
        return Err(e);
    }
    let symbols = match read_symbols(data) {
        Ok(symbols) => symbols,
        Err(e) => {
            return Err(e);
        },
    };
    match assemble(&layout, language, &symbols) {
        Ok(found) => Ok((layout, found)),
        Err(e) => Err(e),
    }
}

/// Loads, classifies and discovers: the fatal stages of one analysis run on
/// the bytes of an ELF file, before any code is decoded.
pub fn discover(data: &[u8]) -> (found: Result<Discovery, Error>)
    ensures
        match found {
            Ok(d) => analysis_error(data@) is None && is_discovery_of(
                d,
                goblin_layout(data@).unwrap(),
                language_of_file(data@).unwrap(),
                goblin_symbols(data@).unwrap(),
            ),
            Err(e) => analysis_error(data@) == Some(e),
        },
{
    match discover_in(data) {
        Ok(pair) => Ok(pair.1),
        Err(e) => Err(e),
    }
}

/// What the manifest says of one function: its identity and what its
/// analysis found.
pub struct FunctionReport {
    pub name: String,
    pub start_addr: u64,
    pub end_addr: u64,
    pub flow: FlowResult,
}

/// Report `k` speaks of function `k` and holds the outcome of its analysis.
pub open spec fn is_report_of(
    report: FunctionReport,
    functions: Seq<API>,
    prog: Seq<FunctionCode>,
    table: Seq<ImportEntry>,
    k: int,
) -> bool {
    &&& report.name@ == functions[k].name@
    &&& report.start_addr == functions[k].start_addr
    &&& report.end_addr == functions[k].end_addr
    &&& is_flow_of(report.flow, prog, table, k)
}

/// Function `k` of the program has the address range of descriptor `k`.
pub open spec fn ranges_agree(prog: Seq<FunctionCode>, functions: Seq<API>) -> bool {
    &&& prog.len() == functions.len()
    &&& forall|k: int|
        0 <= k < prog.len() ==> (#[trigger] prog[k]).start == functions[k].start_addr
            && prog[k].end == functions[k].end_addr
}

/// One report for each discovered function, in discovery order, where
/// `prog[k]` is the decoded code of `functions[k]`.
pub fn function_reports(
    functions: &Vec<API>,
    prog: &Vec<FunctionCode>,
    table: &Vec<ImportEntry>,
) -> (reports: Vec<FunctionReport>)
    requires
        ranges_agree(prog@, functions@),
    ensures
        reports@.len() == functions@.len(),
        forall|k: int|
            0 <= k < functions@.len() ==> is_report_of(
                #[trigger] reports@[k],
                functions@,
                prog@,
                table@,
                k,
            ),
{
    let mut reports: Vec<FunctionReport> = Vec::new();
    let mut i: usize = 0;
    while i < functions.len()
        invariant
            i <= functions.len(),
            functions@.len() == prog@.len(),
            reports@.len() == i,
            forall|k: int|
                0 <= k < i ==> is_report_of(#[trigger] reports@[k], functions@, prog@, table@, k),
        decreases functions.len() - i,
    {
        let flow = syscall_flow(prog, table, i);
        reports.push(
            FunctionReport {
                name: functions[i].name.clone(),
                start_addr: functions[i].start_addr,
                end_addr: functions[i].end_addr,
                flow,
            },
        );
        i += 1;
    }
    reports
}

/// Some section maps the range `[start, end)`.
pub open spec fn is_mapped(sections: Seq<SectionView>, start: u64, end: u64) -> bool {
    exists|j: int| 0 <= j < sections.len() && section_maps(#[trigger] sections[j], start, end)
}

/// The instructions handed in for function `k`, if any were.
pub open spec fn run_of(decoded: Seq<Vec<Instruction>>, k: int) -> Option<Seq<Instruction>> {
    if 0 <= k < decoded.len() {
        Some(decoded[k]@)
    } else {
        None
    }
}

/// The edges of one function. An empty range has none. A range that no
/// section maps cannot be read: the function holds one unresolved edge and
/// nothing else. Otherwise the edges are those of the instructions handed in.
pub open spec fn edges_for(
    prog: Seq<FunctionCode>,
    api: API,
    sections: Seq<SectionView>,
    run: Option<Seq<Instruction>>,
    stubs: Seq<ImportStub>,
    is_static: bool,
) -> Seq<CallEdge> {
    if api.start_addr == api.end_addr {
        Seq::empty()
    } else if !is_mapped(sections, api.start_addr, api.end_addr) {
        seq![CallEdge::Unresolved]
    } else {
        match run {
            Some(instrs) => edges_of(instrs, None, prog, stubs, is_static),
            None => Seq::empty(),
        }
    }
}

/// Whether one function counts as decoded in part: its range is mapped and
/// not empty, and its instructions hold an invalid one or were not handed in.
pub open spec fn truncated_for(
    api: API,
    sections: Seq<SectionView>,
    run: Option<Seq<Instruction>>,
) -> bool {
    &&& api.start_addr != api.end_addr
    &&& is_mapped(sections, api.start_addr, api.end_addr)
    &&& match run {
        Some(instrs) => is_truncated(instrs),
        None => true,
    }
}

/// `prog` is the program that the descriptors, the section table and the
/// decoded instructions give: function `k` has the range of descriptor `k`
/// and the edges and mark that its instructions give.
pub open spec fn is_program_of(
    prog: Seq<FunctionCode>,
    functions: Seq<API>,
    sections: Seq<SectionView>,
    decoded: Seq<Vec<Instruction>>,
    stubs: Seq<ImportStub>,
    is_static: bool,
) -> bool {
    &&& ranges_agree(prog, functions)
    &&& forall|k: int|
        0 <= k < prog.len() ==> (#[trigger] prog[k]).edges@ == edges_for(
            prog,
            functions[k],
            sections,
            run_of(decoded, k),
            stubs,
            is_static,
        ) && prog[k].truncated == truncated_for(functions[k], sections, run_of(decoded, k))
}

/// Builds the program of the discovered functions from the instructions
/// decoded for each of them. One function whose range is unmapped or whose
/// bytes stop decoding is marked, and the others are built as usual.
pub fn build_program(
    functions: &Vec<API>,
    sections: &Vec<SectionEntry>,
    decoded: &Vec<Vec<Instruction>>,
    stubs: &Vec<ImportStub>,
    is_static: bool,
) -> (prog: Vec<FunctionCode>)
    ensures
        is_program_of(
            prog@,
            functions@,
            section_views(sections@),
            decoded@,
            stubs@,
            is_static,
        ),
{
    let mut ranges: Vec<FunctionCode> = Vec::new();
    let mut i: usize = 0;
    while i < functions.len()
        invariant
            i <= functions.len(),
            ranges@.len() == i,
            forall|k: int|
                0 <= k < i ==> (#[trigger] ranges@[k]).start == functions@[k].start_addr
                    && ranges@[k].end == functions@[k].end_addr,
        decreases functions.len() - i,
    {
        ranges.push(
            FunctionCode {
                start: functions[i].start_addr,
                end: functions[i].end_addr,
                edges: Vec::new(),
                truncated: false,
            },
        );
        i += 1;
    }
    let ghost views = section_views(sections@);
    let mut prog: Vec<FunctionCode> = Vec::new();
    let mut k: usize = 0;
    while k < functions.len()
        invariant
            k <= functions.len(),
            prog@.len() == k,
            views == section_views(sections@),
            ranges_agree(ranges@, functions@),
            forall|j: int|
                0 <= j < k ==> (#[trigger] prog@[j]).start == functions@[j].start_addr
                    && prog@[j].end == functions@[j].end_addr && prog@[j].edges@ == edges_for(
                    ranges@,
                    functions@[j],
                    views,
                    run_of(decoded@, j),
                    stubs@,
                    is_static,
                ) && prog@[j].truncated == truncated_for(functions@[j], views, run_of(decoded@, j)),
        decreases functions.len() - k,
    {
        let start = functions[k].start_addr;
        let end = functions[k].end_addr;
        let mut edges: Vec<CallEdge> = Vec::new();
        let mut truncated = false;
        if start != end {
            match code_region(sections, start, end) {
                Err(_) => {
                    edges.push(CallEdge::Unresolved);
                    assert(edges@ == seq![CallEdge::Unresolved]);
                    assert(!is_mapped(views, start, end));
                },
                Ok(_) => {
                    assert(is_mapped(views, start, end)) by {
                        let at = choose|at: int| #[trigger]
                            first_mapping(views, start, end, at);
                        assert(section_maps(views[at], start, end));
                    }
                    if k < decoded.len() {
                        let found = function_edges(&decoded[k], &ranges, stubs, is_static);
                        edges = found.0;
                        truncated = found.1;
                    } else {
                        truncated = true;
                    }
                },
            }
        }
        prog.push(FunctionCode { start, end, edges, truncated });
        k += 1;
    }
    proof {
        assert(same_ranges(ranges@, prog@));
        assert forall|j: int| 0 <= j < prog@.len() implies (#[trigger] prog@[j]).edges@
            == edges_for(prog@, functions@[j], views, run_of(decoded@, j), stubs@, is_static) by {
            match run_of(decoded@, j) {
                Some(instrs) => {
                    law_edges_by_ranges(instrs, None, ranges@, prog@, stubs@, is_static);
                },
                None => {},
            }
        }
    }
    prog
}

/// The per-function stage: builds the program of the discovered functions
/// and analyses each of them. Nothing here can fail: what goes wrong with
/// one function is marked in its own report.
pub fn analyze_functions(
    found: &Discovery,
    layout: &ElfLayout,
    decoded: &Vec<Vec<Instruction>>,
    stubs: &Vec<ImportStub>,
    table: &Vec<ImportEntry>,
) -> (done: (Vec<FunctionCode>, Vec<FunctionReport>))
    ensures
        is_analysis_of(
            done.0@,
            done.1@,
            found.functions@,
            layout@.sections,
            decoded@,
            stubs@,
            table@,
            found.is_static,
        ),
{
    let prog = build_program(&found.functions, &layout.sections, decoded, stubs, found.is_static);
    let reports = function_reports(&found.functions, &prog, table);
    (prog, reports)
}

/// `prog` is the program of the functions, and report `k` is the outcome of
/// the analysis of function `k` in it.
pub open spec fn is_analysis_of(
    prog: Seq<FunctionCode>,
    reports: Seq<FunctionReport>,
    functions: Seq<API>,
    sections: Seq<SectionView>,
    decoded: Seq<Vec<Instruction>>,
    stubs: Seq<ImportStub>,
    table: Seq<ImportEntry>,
    is_static: bool,
) -> bool {
    &&& is_program_of(prog, functions, sections, decoded, stubs, is_static)
    &&& reports.len() == functions.len()
    &&& forall|k: int|
        0 <= k < functions.len() ==> is_report_of(#[trigger] reports[k], functions, prog, table, k)
}

/// The outcome of a whole run: what was discovered, the program built from
/// the decoded instructions, and one report for each function.
pub struct Manifest {
    pub discovery: Discovery,
    pub program: Vec<FunctionCode>,
    pub reports: Vec<FunctionReport>,
}

/// One analysis run on the bytes of an ELF file: the fatal stages first, then
/// the analysis of every discovered function. `decoded[k]` holds the
/// instructions decoded from the code of the `k`-th discovered function,
/// `stubs` the import stubs of the binary, `table` the system calls that the
/// imports stand for.
pub fn elf_analysis(
    data: &[u8],
    decoded: &Vec<Vec<Instruction>>,
    stubs: &Vec<ImportStub>,
    table: &Vec<ImportEntry>,
) -> (outcome: Result<Manifest, Error>)
    ensures
        match outcome {
            Ok(m) => analysis_error(data@) is None && is_discovery_of(
                m.discovery,
                goblin_layout(data@).unwrap(),
                language_of_file(data@).unwrap(),
                goblin_symbols(data@).unwrap(),
            ) && is_analysis_of(
                m.program@,
                m.reports@,
                m.discovery.functions@,
                goblin_layout(data@).unwrap().sections,
                decoded@,
                stubs@,
                table@,
                m.discovery.is_static,
            ),
            Err(e) => analysis_error(data@) == Some(e),
        },
{
    match discover_in(data) {
        Ok(pair) => {
            let done = analyze_functions(&pair.1, &pair.0, decoded, stubs, table);
            Ok(Manifest { discovery: pair.1, program: done.0, reports: done.1 })
        },
        Err(e) => Err(e),
    }
}

/// A function whose address range is empty is reported with an empty
/// system-call set and without any mark, whatever the rest of the run holds.
pub proof fn law_report_of_empty_region(
    prog: Seq<FunctionCode>,
    reports: Seq<FunctionReport>,
    functions: Seq<API>,
    sections: Seq<SectionView>,
    decoded: Seq<Vec<Instruction>>,
    stubs: Seq<ImportStub>,
    table: Seq<ImportEntry>,
    is_static: bool,
    k: int,
)
    requires
        is_analysis_of(prog, reports, functions, sections, decoded, stubs, table, is_static),
        0 <= k < functions.len(),
        functions[k].start_addr == functions[k].end_addr,
    ensures
        reports[k].flow.syscalls@ == Set::<u64>::empty(),
        !reports[k].flow.partial,
        !reports[k].flow.unresolved,
{
    assert(prog[k].edges@.len() == 0);
    law_empty_region(prog, table, k);
    assert(is_report_of(reports[k], functions, prog, table, k));
}

/// A function whose range no section maps is reported as unresolved, with an
/// empty system-call set and no partial mark; the other reports are what the
/// analysis of their functions owes.
pub proof fn law_report_of_unmapped_region(
    prog: Seq<FunctionCode>,
    reports: Seq<FunctionReport>,
    functions: Seq<API>,
    sections: Seq<SectionView>,
    decoded: Seq<Vec<Instruction>>,
    stubs: Seq<ImportStub>,
    table: Seq<ImportEntry>,
    is_static: bool,
    k: int,
)
    requires
        is_analysis_of(prog, reports, functions, sections, decoded, stubs, table, is_static),
        0 <= k < functions.len(),
        functions[k].start_addr != functions[k].end_addr,
        !is_mapped(sections, functions[k].start_addr, functions[k].end_addr),
    ensures
        reports[k].flow.unresolved,
        !reports[k].flow.partial,
        reports[k].flow.syscalls@ == Set::<u64>::empty(),
        forall|j: int|
            0 <= j < functions.len() ==> is_flow_of((#[trigger] reports[j]).flow, prog, table, j),
{
    assert(is_report_of(reports[k], functions, prog, table, k));
    assert(prog[k].edges@ == seq![CallEdge::Unresolved]);
    assert(prog[k].edges@[0] == CallEdge::Unresolved);
    lemma_single_function_reaches_itself(prog, k);
    assert(reachable(prog, k, k)) by {
        assert forall|members: Set<int>| #[trigger]
            closed_under_calls(prog, k, members) implies members.contains(
            k,
        ) by {}
    }
    assert(holds_unresolved(prog[k]));
    assert(transitive_syscalls(prog, table, k) =~= Set::<u64>::empty());
    assert forall|j: int| 0 <= j < functions.len() implies is_flow_of(
        (#[trigger] reports[j]).flow,
        prog,
        table,
        j,
    ) by {
        assert(is_report_of(reports[j], functions, prog, table, j));
    }
}

/// A function that holds no local call reaches only itself.
proof fn lemma_single_function_reaches_itself(prog: Seq<FunctionCode>, k: int)
    requires
        0 <= k < prog.len(),
        forall|e: int| 0 <= e < prog[k].edges@.len() ==> !(#[trigger] prog[k].edges@[e] is LocalCall),
    ensures
        forall|f: int| #[trigger] reachable(prog, k, f) ==> f == k,
{
    let members = Set::<int>::empty().insert(k);
    assert(closed_under_calls(prog, k, members)) by {
        assert forall|f: int, c: int| members.contains(f) && #[trigger] calls(prog, f, c) implies members.contains(c) by {
            let e = choose|e: int|
                0 <= e < prog[f].edges@.len() && edge_calls(
                    prog,
                    #[trigger] prog[f].edges@[e],
                    c,
                );
            assert(prog[k].edges@[e] is LocalCall);
        }
    }
    assert forall|f: int| #[trigger] reachable(prog, k, f) implies f == k by {
        assert(members.contains(f));
    }
}

/// If the decoded code of function `a` holds a direct call into function
/// `b`, and that of `b` loads the number `s` and traps, then `s` is in the
/// set reported for `a`.
pub proof fn law_report_holds_callee_syscall(
    prog: Seq<FunctionCode>,
    reports: Seq<FunctionReport>,
    functions: Seq<API>,
    sections: Seq<SectionView>,
    decoded: Seq<Vec<Instruction>>,
    stubs: Seq<ImportStub>,
    table: Seq<ImportEntry>,
    is_static: bool,
    a: int,
    b: int,
    call_at: int,
    target: u64,
    load_at: int,
    s: u64,
)
    requires
        is_analysis_of(prog, reports, functions, sections, decoded, stubs, table, is_static),
        0 <= a < functions.len() && a < decoded.len(),
        0 <= b < functions.len() && b < decoded.len(),
        functions[a].start_addr != functions[a].end_addr,
        functions[b].start_addr != functions[b].end_addr,
        is_mapped(sections, functions[a].start_addr, functions[a].end_addr),
        is_mapped(sections, functions[b].start_addr, functions[b].end_addr),
        0 <= call_at < decoded[a]@.len(),
        decoded[a]@[call_at] == Instruction::Call(target),
        forall|j: int| 0 <= j <= call_at ==> !(#[trigger] decoded[a]@[j] is Invalid),
        resolves_to(prog, target, b),
        0 <= load_at && load_at + 1 < decoded[b]@.len(),
        decoded[b]@[load_at] == Instruction::SetSyscallNumber(s),
        decoded[b]@[load_at + 1] == Instruction::Trap,
        forall|j: int| 0 <= j <= load_at + 1 ==> !(#[trigger] decoded[b]@[j] is Invalid),
    ensures
        reports[a].flow.syscalls@.contains(s),
        reports[b].flow.syscalls@.contains(s),
        reports[b].flow.syscalls@.subset_of(reports[a].flow.syscalls@),
{
    assert(is_report_of(reports[a], functions, prog, table, a));
    assert(is_report_of(reports[b], functions, prog, table, b));
    law_call_gives_edge(decoded[a]@, None, prog, stubs, is_static, call_at, target);
    law_trap_gives_syscall(decoded[b]@, None, prog, stubs, is_static, load_at, s);
    let edges_a = prog[a].edges@;
    let edges_b = prog[b].edges@;
    assert(call_kind(prog, stubs, is_static, target) == CallEdge::LocalCall(target));
    let ia = choose|ia: int| 0 <= ia < edges_a.len() && edges_a[ia] == CallEdge::LocalCall(target);
    assert(edge_calls(prog, prog[a].edges@[ia], b));
    assert(calls(prog, a, b));
    let ib = choose|ib: int| 0 <= ib < edges_b.len() && edges_b[ib] == CallEdge::Syscall(s);
    assert(edge_emits(prog[b].edges@[ib], table, s));
    assert(emits(prog[b], table, s));
    law_callee_syscall(prog, table, a, b, s);
    law_own_syscall(prog, table, b, s);
    law_callee_subset(prog, table, a, b);
}

/// Calls that lead back into the function under analysis add nothing to its
/// report: two runs whose programs differ only in calls into function `k`
/// report the same set and the same marks for it.
pub proof fn law_report_ignores_recursion(
    first: Seq<FunctionCode>,
    second: Seq<FunctionCode>,
    first_report: FunctionReport,
    second_report: FunctionReport,
    functions: Seq<API>,
    table: Seq<ImportEntry>,
    k: int,
)
    requires
        ranges_agree(first, functions),
        ranges_agree(second, functions),
        0 <= k < functions.len(),
        is_report_of(first_report, functions, first, table, k),
        is_report_of(second_report, functions, second, table, k),
        forall|f: int, c: int| c != k ==> calls(first, f, c) == calls(second, f, c),
        forall|f: int, s: u64|
            0 <= f < first.len() ==> emits(first[f], table, s) == emits(second[f], table, s),
        forall|f: int| 0 <= f < first.len() ==> first[f].truncated == second[f].truncated,
        forall|f: int|
            0 <= f < first.len() ==> holds_unresolved(first[f])
                == holds_unresolved(second[f]),
    ensures
        first_report.flow.syscalls@ == second_report.flow.syscalls@,
        first_report.flow.syscalls@.len() == second_report.flow.syscalls@.len(),
        first_report.flow.partial == second_report.flow.partial,
        first_report.flow.unresolved == second_report.flow.unresolved,
{
    law_recursive_edge(first, second, table, k);
}

/// In a program where function `k` holds no local call, what is reported
/// for `k` is what its own code contributes.
proof fn lemma_report_of_leaf(
    prog: Seq<FunctionCode>,
    table: Seq<ImportEntry>,
    flow: FlowResult,
    k: int,
)
    requires
        0 <= k < prog.len(),
        is_flow_of(flow, prog, table, k),
        forall|e: int| 0 <= e < prog[k].edges@.len() ==> !(#[trigger] prog[k].edges@[e] is LocalCall),
    ensures
        forall|s: u64| flow.syscalls@.contains(s) <==> emits(prog[k], table, s),
        flow.partial == prog[k].truncated,
        flow.unresolved == holds_unresolved(prog[k]),
{
    lemma_single_function_reaches_itself(prog, k);
    assert(reachable(prog, k, k)) by {
        assert forall|members: Set<int>| #[trigger]
            closed_under_calls(prog, k, members) implies members.contains(
            k,
        ) by {}
    }
}

/// A function whose code loads the number `s`, traps, and does nothing else
/// is reported with exactly the set `{s}` and without any mark.
pub proof fn law_report_of_raw_syscall(
    prog: Seq<FunctionCode>,
    reports: Seq<FunctionReport>,
    functions: Seq<API>,
    sections: Seq<SectionView>,
    decoded: Seq<Vec<Instruction>>,
    stubs: Seq<ImportStub>,
    table: Seq<ImportEntry>,
    is_static: bool,
    k: int,
    s: u64,
)
    requires
        is_analysis_of(prog, reports, functions, sections, decoded, stubs, table, is_static),
        0 <= k < functions.len() && k < decoded.len(),
        functions[k].start_addr != functions[k].end_addr,
        is_mapped(sections, functions[k].start_addr, functions[k].end_addr),
        decoded[k]@ == seq![Instruction::SetSyscallNumber(s), Instruction::Trap],
    ensures
        reports[k].flow.syscalls@ == Set::<u64>::empty().insert(s),
        reports[k].flow.syscalls@.len() == 1,
        !reports[k].flow.partial,
        !reports[k].flow.unresolved,
{
    let instrs = decoded[k]@;
    let one = instrs.skip(1);
    let none = one.skip(1);
    assert(instrs[0] == Instruction::SetSyscallNumber(s));
    assert(one[0] == Instruction::Trap);
    assert(none.len() == 0);
    assert(edges_of(none, None, prog, stubs, is_static) == Seq::<CallEdge>::empty());
    assert(edges_of(one, Some(s), prog, stubs, is_static) == seq![CallEdge::Syscall(s)]);
    assert(edges_of(instrs, None, prog, stubs, is_static) == seq![CallEdge::Syscall(s)]);
    assert(!is_truncated(instrs)) by {
        assert forall|j: int| 0 <= j < instrs.len() implies !(#[trigger] instrs[j] is Invalid) by {
            if j == 0 {
            } else {
                assert(j == 1);
            }
        }
    }
    assert(is_report_of(reports[k], functions, prog, table, k));
    assert(prog[k].edges@ == seq![CallEdge::Syscall(s)]);
    lemma_report_of_leaf(prog, table, reports[k].flow, k);
    assert forall|x: u64| reports[k].flow.syscalls@.contains(x) <==> x == s by {
        if x == s {
            assert(edge_emits(prog[k].edges@[0], table, s));
        }
    }
    assert(reports[k].flow.syscalls@ =~= Set::<u64>::empty().insert(s));
    assert(!holds_unresolved(prog[k]));
}

/// A function of a dynamically linked binary whose code calls two import
/// stubs and does nothing else is reported with exactly the system calls
/// that the table gives for the two imports' names, and without any mark.
pub proof fn law_report_of_import_calls(
    prog: Seq<FunctionCode>,
    reports: Seq<FunctionReport>,
    functions: Seq<API>,
    sections: Seq<SectionView>,
    decoded: Seq<Vec<Instruction>>,
    stubs: Seq<ImportStub>,
    table: Seq<ImportEntry>,
    k: int,
    first_target: u64,
    second_target: u64,
    first_stub: int,
    second_stub: int,
)
    requires
        is_analysis_of(prog, reports, functions, sections, decoded, stubs, table, false),
        0 <= k < functions.len() && k < decoded.len(),
        functions[k].start_addr != functions[k].end_addr,
        is_mapped(sections, functions[k].start_addr, functions[k].end_addr),
        decoded[k]@ == seq![Instruction::Call(first_target), Instruction::Call(second_target)],
        forall|c: int| !resolves_to(prog, first_target, c),
        forall|c: int| !resolves_to(prog, second_target, c),
        first_stub_at(stubs, first_target, first_stub),
        first_stub_at(stubs, second_target, second_stub),
    ensures
        forall|x: u64|
            reports[k].flow.syscalls@.contains(x) <==> exists|t: int|
                0 <= t < table.len() && ((#[trigger] table[t]).name@ == stubs[first_stub].name@
                    || table[t].name@ == stubs[second_stub].name@) && table[t].syscall == x,
        !reports[k].flow.partial,
        !reports[k].flow.unresolved,
{
    let instrs = decoded[k]@;
    let one = instrs.skip(1);
    let none = one.skip(1);
    lemma_first_stub_unique(stubs, first_target, first_stub);
    lemma_first_stub_unique(stubs, second_target, second_stub);
    let first_edge = CallEdge::ImportCall(stubs[first_stub].name);
    let second_edge = CallEdge::ImportCall(stubs[second_stub].name);
    assert(call_kind(prog, stubs, false, first_target) == first_edge);
    assert(call_kind(prog, stubs, false, second_target) == second_edge);
    assert(instrs[0] == Instruction::Call(first_target));
    assert(one[0] == Instruction::Call(second_target));
    assert(none.len() == 0);
    assert(edges_of(none, None, prog, stubs, false) == Seq::<CallEdge>::empty());
    assert(edges_of(one, None, prog, stubs, false) == seq![second_edge]);
    assert(edges_of(instrs, None, prog, stubs, false) == seq![first_edge, second_edge]);
    assert(!is_truncated(instrs)) by {
        assert forall|j: int| 0 <= j < instrs.len() implies !(#[trigger] instrs[j] is Invalid) by {
            if j == 0 {
            } else {
                assert(j == 1);
            }
        }
    }
    assert(is_report_of(reports[k], functions, prog, table, k));
    let edges = prog[k].edges@;
    assert(edges == seq![first_edge, second_edge]);
    assert(edges[0] == first_edge && edges[1] == second_edge);
    lemma_report_of_leaf(prog, table, reports[k].flow, k);
    assert forall|x: u64|
        reports[k].flow.syscalls@.contains(x) <==> exists|t: int|
            0 <= t < table.len() && ((#[trigger] table[t]).name@ == stubs[first_stub].name@
                || table[t].name@ == stubs[second_stub].name@) && table[t].syscall == x by {
        if emits(prog[k], table, x) {
            let e = choose|e: int|
                0 <= e < edges.len() && edge_emits(
                    #[trigger] prog[k].edges@[e],
                    table,
                    x,
                );
            if e == 0 {
                let t = choose|t: int|
                    0 <= t < table.len() && (#[trigger] table[t]).name@ == stubs[first_stub].name@
                        && table[t].syscall == x;
                assert(table[t].syscall == x);
            } else {
                assert(e == 1);
                let t = choose|t: int|
                    0 <= t < table.len() && (#[trigger] table[t]).name@
                        == stubs[second_stub].name@ && table[t].syscall == x;
                assert(table[t].syscall == x);
            }
        }
        if exists|t: int|
            0 <= t < table.len() && ((#[trigger] table[t]).name@ == stubs[first_stub].name@
                || table[t].name@ == stubs[second_stub].name@) && table[t].syscall == x {
            let t = choose|t: int|
                0 <= t < table.len() && ((#[trigger] table[t]).name@ == stubs[first_stub].name@
                    || table[t].name@ == stubs[second_stub].name@) && table[t].syscall == x;
            if table[t].name@ == stubs[first_stub].name@ {
                assert(edge_emits(prog[k].edges@[0], table, x));
            } else {
                assert(edge_emits(prog[k].edges@[1], table, x));
            }
        }
    }
    assert(!holds_unresolved(prog[k]));
}

/// The first stub at an address is the only one that is first there.
proof fn lemma_first_stub_unique(stubs: Seq<ImportStub>, addr: u64, k: int)
    requires
        first_stub_at(stubs, addr, k),
    ensures
        (choose|j: int| first_stub_at(stubs, addr, j)) == k,
{
    let j = choose|j: int| first_stub_at(stubs, addr, j);
    assert(first_stub_at(stubs, addr, j));
    if j < k {
        assert(stubs[j].addr != addr);
    } else if k < j {
        assert(stubs[k].addr != addr);
    }
}

/// A call back into the function under analysis adds nothing to its report:
/// a second run, on instructions that differ from the first only in that one
/// call into function `k` is taken out, reports for `k` the same system-call
/// set, with as many elements, and the same marks.
pub proof fn law_report_without_recursive_call(
    first: Seq<FunctionCode>,
    second: Seq<FunctionCode>,
    first_reports: Seq<FunctionReport>,
    second_reports: Seq<FunctionReport>,
    functions: Seq<API>,
    sections: Seq<SectionView>,
    decoded: Seq<Vec<Instruction>>,
    changed: Seq<Vec<Instruction>>,
    stubs: Seq<ImportStub>,
    table: Seq<ImportEntry>,
    is_static: bool,
    k: int,
    a: int,
    i: int,
    target: u64,
)
    requires
        is_analysis_of(first, first_reports, functions, sections, decoded, stubs, table, is_static),
        is_analysis_of(
            second,
            second_reports,
            functions,
            sections,
            changed,
            stubs,
            table,
            is_static,
        ),
        decoded.len() == changed.len(),
        0 <= k < functions.len(),
        0 <= a < functions.len() && a < decoded.len(),
        0 <= i < decoded[a]@.len(),
        decoded[a]@[i] == Instruction::Call(target),
        resolves_to(first, target, k),
        changed[a]@ == without_call(decoded[a]@, i),
        forall|f: int| 0 <= f < decoded.len() && f != a ==> (#[trigger] changed[f])@ == decoded[f]@,
    ensures
        first_reports[k].flow.syscalls@ == second_reports[k].flow.syscalls@,
        first_reports[k].flow.syscalls@.len() == second_reports[k].flow.syscalls@.len(),
        first_reports[k].flow.partial == second_reports[k].flow.partial,
        first_reports[k].flow.unresolved == second_reports[k].flow.unresolved,
{
    let extra = CallEdge::LocalCall(target);
    assert(same_ranges(first, second));
    assert forall|f: int| 0 <= f < first.len() implies edges_differ_by(
        (#[trigger] first[f]).edges@,
        second[f].edges@,
        extra,
    ) && first[f].truncated == second[f].truncated by {
        let api = functions[f];
        assert(second[f].edges@ == edges_for(
            second,
            api,
            sections,
            run_of(changed, f),
            stubs,
            is_static,
        ));
        if api.start_addr != api.end_addr && is_mapped(sections, api.start_addr, api.end_addr) {
            match run_of(decoded, f) {
                Some(instrs) => {
                    let other = changed[f]@;
                    law_edges_by_ranges(other, None, first, second, stubs, is_static);
                    if f == a {
                        law_edges_without_call(instrs, None, first, stubs, is_static, i, target);
                        assert(call_kind(first, stubs, is_static, target) == extra);
                    } else {
                        assert(other == instrs);
                    }
                },
                None => {},
            }
        }
    }
    law_recursive_call_removed(first, second, table, k, target);
    assert(is_report_of(first_reports[k], functions, first, table, k));
    assert(is_report_of(second_reports[k], functions, second, table, k));
}

/// A function whose bytes stop decoding part-way is reported as decoded in
/// part, with the system calls found before that point; every report of the
/// run is still the outcome of its function's analysis.
pub proof fn law_report_of_partial_decoding(
    prog: Seq<FunctionCode>,
    reports: Seq<FunctionReport>,
    functions: Seq<API>,
    sections: Seq<SectionView>,
    decoded: Seq<Vec<Instruction>>,
    stubs: Seq<ImportStub>,
    table: Seq<ImportEntry>,
    is_static: bool,
    k: int,
    load_at: int,
    s: u64,
)
    requires
        is_analysis_of(prog, reports, functions, sections, decoded, stubs, table, is_static),
        0 <= k < functions.len() && k < decoded.len(),
        functions[k].start_addr != functions[k].end_addr,
        is_mapped(sections, functions[k].start_addr, functions[k].end_addr),
        is_truncated(decoded[k]@),
        0 <= load_at && load_at + 1 < decoded[k]@.len(),
        decoded[k]@[load_at] == Instruction::SetSyscallNumber(s),
        decoded[k]@[load_at + 1] == Instruction::Trap,
        forall|j: int| 0 <= j <= load_at + 1 ==> !(#[trigger] decoded[k]@[j] is Invalid),
    ensures
        reports[k].flow.partial,
        reports[k].flow.syscalls@.contains(s),
        forall|j: int|
            0 <= j < functions.len() ==> is_flow_of((#[trigger] reports[j]).flow, prog, table, j),
{
    assert(is_report_of(reports[k], functions, prog, table, k));
    assert(prog[k].truncated);
    assert(reachable(prog, k, k)) by {
        assert forall|members: Set<int>| #[trigger]
            closed_under_calls(prog, k, members) implies members.contains(
            k,
        ) by {}
    }
    law_trap_gives_syscall(decoded[k]@, None, prog, stubs, is_static, load_at, s);
    let edges = prog[k].edges@;
    let at = choose|at: int| 0 <= at < edges.len() && edges[at] == CallEdge::Syscall(s);
    assert(edge_emits(prog[k].edges@[at], table, s));
    law_own_syscall(prog, table, k, s);
    assert forall|j: int| 0 <= j < functions.len() implies is_flow_of(
        (#[trigger] reports[j]).flow,
        prog,
        table,
        j,
    ) by {
        assert(is_report_of(reports[j], functions, prog, table, j));
    }
}

} // verus!
