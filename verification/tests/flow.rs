use manifest_producer::syscall_flow::{
    classify_call, direct_syscalls, function_edges, has_unresolved, import_at,
    reachable_functions, resolve, syscall_flow, syscall_flows, CallEdge, FunctionCode,
    ImportEntry, ImportStub, Instruction,
};
use manifest_producer::syscall_set::SyscallSet;

const WRITE: u64 = 1;
const OPEN: u64 = 2;
const SOCKET: u64 = 41;
const CONNECT: u64 = 42;

fn function(start: u64, end: u64, edges: Vec<CallEdge>) -> FunctionCode {
    FunctionCode { start, end, edges, truncated: false }
}

fn libc_table() -> Vec<ImportEntry> {
    vec![
        ImportEntry { name: "socket".to_string(), syscall: SOCKET },
        ImportEntry { name: "connect".to_string(), syscall: CONNECT },
        ImportEntry { name: "fopen".to_string(), syscall: OPEN },
    ]
}

#[test]
fn direct_write_gives_write_only() {
    let prog = vec![function(0x1000, 0x1010, vec![CallEdge::Syscall(WRITE)])];
    let flow = syscall_flow(&prog, &Vec::new(), 0);
    assert_eq!(flow.syscalls.to_vec(), vec![WRITE]);
    assert!(!flow.partial);
    assert!(!flow.unresolved);
}

#[test]
fn imports_resolve_through_the_table() {
    let prog = vec![function(
        0x1000,
        0x1040,
        vec![
            CallEdge::ImportCall("socket".to_string()),
            CallEdge::ImportCall("connect".to_string()),
            CallEdge::ImportCall("puts".to_string()),
        ],
    )];
    let flow = syscall_flow(&prog, &libc_table(), 0);
    assert_eq!(flow.syscalls.to_vec(), vec![SOCKET, CONNECT]);
    assert!(!flow.unresolved);
    assert!(syscall_flow(&prog, &Vec::new(), 0).syscalls.is_empty());
}

#[test]
fn empty_region_gives_empty_set() {
    let prog = vec![
        function(0x1000, 0x1000, Vec::new()),
        function(0x1000, 0x1010, vec![CallEdge::Syscall(WRITE)]),
    ];
    let flow = syscall_flow(&prog, &libc_table(), 0);
    assert!(flow.syscalls.is_empty());
    assert_eq!(flow.syscalls.len(), 0);
    assert!(!flow.partial);
    assert!(!flow.unresolved);
}

#[test]
fn callee_syscalls_reach_the_caller() {
    let prog = vec![
        function(0x1000, 0x1010, vec![CallEdge::LocalCall(0x2000)]),
        function(0x2000, 0x2010, vec![CallEdge::LocalCall(0x3004), CallEdge::Syscall(OPEN)]),
        function(0x3000, 0x3010, vec![CallEdge::Syscall(WRITE)]),
        function(0x4000, 0x4010, vec![CallEdge::Syscall(SOCKET)]),
    ];
    let flow = syscall_flow(&prog, &Vec::new(), 0);
    assert_eq!(flow.syscalls.to_vec(), vec![OPEN, WRITE]);
    assert_eq!(reachable_functions(&prog, 0), vec![0, 1, 2]);
    assert_eq!(syscall_flow(&prog, &Vec::new(), 2).syscalls.to_vec(), vec![WRITE]);
    assert_eq!(syscall_flow(&prog, &Vec::new(), 3).syscalls.to_vec(), vec![SOCKET]);
}

#[test]
fn recursion_ends_and_adds_nothing() {
    let with_cycle = vec![
        function(
            0x1000,
            0x1010,
            vec![CallEdge::LocalCall(0x1000), CallEdge::Syscall(WRITE), CallEdge::LocalCall(0x2000)],
        ),
        function(0x2000, 0x2010, vec![CallEdge::Syscall(OPEN), CallEdge::LocalCall(0x1000)]),
    ];
    let without_cycle = vec![
        function(0x1000, 0x1010, vec![CallEdge::Syscall(WRITE), CallEdge::LocalCall(0x2000)]),
        function(0x2000, 0x2010, vec![CallEdge::Syscall(OPEN)]),
    ];
    let cyclic = syscall_flow(&with_cycle, &Vec::new(), 0);
    let plain = syscall_flow(&without_cycle, &Vec::new(), 0);
    assert_eq!(cyclic.syscalls.to_vec(), vec![WRITE, OPEN]);
    assert_eq!(cyclic.syscalls.to_vec(), plain.syscalls.to_vec());
    assert_eq!(reachable_functions(&with_cycle, 0), vec![0, 1]);
    assert_eq!(reachable_functions(&with_cycle, 1), vec![1, 0]);
}

#[test]
fn analysing_twice_gives_the_same_set() {
    let prog = vec![
        function(0x1000, 0x1010, vec![CallEdge::Syscall(WRITE), CallEdge::Syscall(WRITE)]),
    ];
    let first = syscall_flow(&prog, &Vec::new(), 0);
    let second = syscall_flow(&prog, &Vec::new(), 0);
    assert_eq!(first.syscalls.to_vec(), vec![WRITE]);
    assert_eq!(first.syscalls.to_vec(), second.syscalls.to_vec());
}

#[test]
fn unresolved_and_partial_marks() {
    let mut callee = function(0x2000, 0x2010, vec![CallEdge::Syscall(OPEN)]);
    callee.truncated = true;
    let prog = vec![
        function(0x1000, 0x1010, vec![CallEdge::LocalCall(0x2000), CallEdge::Unresolved]),
        callee,
        function(0x3000, 0x3010, vec![CallEdge::IndeterminateSyscall]),
        function(0x4000, 0x4010, vec![CallEdge::LocalCall(0x9000)]),
    ];
    let flow = syscall_flow(&prog, &Vec::new(), 0);
    assert_eq!(flow.syscalls.to_vec(), vec![OPEN]);
    assert!(flow.partial);
    assert!(flow.unresolved);
    let trap = syscall_flow(&prog, &Vec::new(), 2);
    assert!(trap.syscalls.is_empty());
    assert!(!trap.partial);
    assert!(trap.unresolved);
    let stray = syscall_flow(&prog, &Vec::new(), 3);
    assert!(stray.syscalls.is_empty());
    assert!(!stray.unresolved);
    assert!(has_unresolved(&prog[0]));
    assert!(!has_unresolved(&prog[1]));
}

#[test]
fn resolve_finds_the_first_covering_function() {
    let prog = vec![
        function(0x1000, 0x1000, Vec::new()),
        function(0x1000, 0x1010, Vec::new()),
        function(0x1008, 0x1020, Vec::new()),
    ];
    assert_eq!(resolve(&prog, 0x1000), Some(1));
    assert_eq!(resolve(&prog, 0x100f), Some(1));
    assert_eq!(resolve(&prog, 0x1010), Some(2));
    assert_eq!(resolve(&prog, 0x1020), None);
    assert_eq!(resolve(&prog, 0xfff), None);
}

#[test]
fn direct_syscalls_do_not_follow_calls() {
    let prog = vec![
        function(0x1000, 0x1010, vec![CallEdge::LocalCall(0x2000), CallEdge::Syscall(WRITE)]),
        function(0x2000, 0x2010, vec![CallEdge::Syscall(OPEN)]),
    ];
    assert_eq!(direct_syscalls(&prog[0], &Vec::new()).to_vec(), vec![WRITE]);
}

#[test]
fn merge_is_a_union_without_duplicates() {
    let mut a = SyscallSet::new();
    a.insert(WRITE);
    a.insert(OPEN);
    a.insert(WRITE);
    assert_eq!(a.to_vec(), vec![WRITE, OPEN]);
    let mut b = SyscallSet::new();
    b.insert(OPEN);
    b.insert(SOCKET);
    let copy = a.clone();
    a.merge(&copy);
    assert_eq!(a.to_vec(), vec![WRITE, OPEN]);
    a.merge(&b);
    assert_eq!(a.to_vec(), vec![WRITE, OPEN, SOCKET]);
    assert_eq!(a.len(), 3);
    assert!(a.contains(SOCKET));
    assert!(!a.contains(CONNECT));
    b.merge(&copy);
    assert_eq!(b.to_vec(), vec![OPEN, SOCKET, WRITE]);
}

#[test]
fn calls_are_classified_by_target_and_linkage() {
    let prog = vec![function(0x1000, 0x1010, Vec::new())];
    let stubs = vec![
        ImportStub { addr: 0x500, name: "socket".to_string() },
        ImportStub { addr: 0x510, name: "connect".to_string() },
        ImportStub { addr: 0x500, name: "shadowed".to_string() },
        ImportStub { addr: 0x1008, name: "inside".to_string() },
    ];
    assert_eq!(classify_call(&prog, &stubs, false, 0x1008), CallEdge::LocalCall(0x1008));
    assert_eq!(classify_call(&prog, &stubs, true, 0x1000), CallEdge::LocalCall(0x1000));
    assert_eq!(
        classify_call(&prog, &stubs, false, 0x500),
        CallEdge::ImportCall("socket".to_string())
    );
    assert_eq!(
        classify_call(&prog, &stubs, false, 0x510),
        CallEdge::ImportCall("connect".to_string())
    );
    assert_eq!(classify_call(&prog, &stubs, true, 0x510), CallEdge::Unresolved);
    assert_eq!(classify_call(&prog, &stubs, false, 0x520), CallEdge::Unresolved);
    assert_eq!(import_at(&stubs, 0x500), Some(0));
    assert_eq!(import_at(&stubs, 0x1010), None);
}

#[test]
fn dynamic_imports_through_stubs_reach_the_table() {
    let stubs = vec![
        ImportStub { addr: 0x500, name: "socket".to_string() },
        ImportStub { addr: 0x510, name: "connect".to_string() },
    ];
    let mut prog = vec![function(0x1000, 0x1040, Vec::new())];
    let edges = vec![
        classify_call(&prog, &stubs, false, 0x500),
        classify_call(&prog, &stubs, false, 0x510),
    ];
    prog[0].edges = edges;
    let flow = syscall_flow(&prog, &libc_table(), 0);
    assert_eq!(flow.syscalls.to_vec(), vec![SOCKET, CONNECT]);
    assert!(!flow.partial);
    assert!(!flow.unresolved);
}

#[test]
fn every_function_is_analysed_on_its_own() {
    let prog = vec![
        function(0x1000, 0x1010, vec![CallEdge::LocalCall(0x2000)]),
        function(0x2000, 0x2010, vec![CallEdge::Syscall(OPEN)]),
        function(0x3000, 0x3000, Vec::new()),
    ];
    let flows = syscall_flows(&prog, &Vec::new());
    assert_eq!(flows.len(), 3);
    assert_eq!(flows[0].syscalls.to_vec(), vec![OPEN]);
    assert_eq!(flows[1].syscalls.to_vec(), vec![OPEN]);
    assert!(flows[2].syscalls.is_empty());
}

#[test]
fn trap_takes_the_number_loaded_before_it() {
    let prog = vec![function(0x1000, 0x1010, Vec::new())];
    let none = Vec::new();
    let run = vec![Instruction::SetSyscallNumber(WRITE), Instruction::Other, Instruction::Trap];
    assert_eq!(function_edges(&run, &prog, &none, true), (vec![CallEdge::Syscall(WRITE)], false));
    let run = vec![Instruction::Trap];
    assert_eq!(
        function_edges(&run, &prog, &none, true),
        (vec![CallEdge::IndeterminateSyscall], false)
    );
    let run = vec![
        Instruction::SetSyscallNumber(WRITE),
        Instruction::ClobberSyscallNumber,
        Instruction::Trap,
    ];
    assert_eq!(
        function_edges(&run, &prog, &none, true),
        (vec![CallEdge::IndeterminateSyscall], false)
    );
    let run = vec![
        Instruction::SetSyscallNumber(OPEN),
        Instruction::SetSyscallNumber(WRITE),
        Instruction::Trap,
        Instruction::Trap,
        Instruction::SetSyscallNumber(OPEN),
        Instruction::Call(0x1000),
        Instruction::Trap,
        Instruction::IndirectCall,
    ];
    assert_eq!(
        function_edges(&run, &prog, &none, true),
        (
            vec![
                CallEdge::Syscall(WRITE),
                CallEdge::IndeterminateSyscall,
                CallEdge::LocalCall(0x1000),
                CallEdge::IndeterminateSyscall,
                CallEdge::Unresolved,
            ],
            false
        )
    );
    assert_eq!(function_edges(&Vec::new(), &prog, &none, true), (Vec::new(), false));
}

#[test]
fn invalid_instruction_ends_the_run() {
    let prog = vec![function(0x1000, 0x1010, Vec::new())];
    let run = vec![
        Instruction::SetSyscallNumber(WRITE),
        Instruction::Trap,
        Instruction::Invalid,
        Instruction::SetSyscallNumber(OPEN),
        Instruction::Trap,
    ];
    let (edges, truncated) = function_edges(&run, &prog, &Vec::new(), true);
    assert_eq!(edges, vec![CallEdge::Syscall(WRITE)]);
    assert!(truncated);
    let code = vec![FunctionCode { start: 0x1000, end: 0x1010, edges, truncated }];
    let flow = syscall_flow(&code, &Vec::new(), 0);
    assert_eq!(flow.syscalls.to_vec(), vec![WRITE]);
    assert!(flow.partial);
    assert_eq!(
        function_edges(&vec![Instruction::Invalid], &prog, &Vec::new(), false),
        (Vec::new(), true)
    );
}

#[test]
fn static_function_with_a_raw_write() {
    let mut prog = vec![function(0x1000, 0x1010, Vec::new())];
    let run = vec![Instruction::Other, Instruction::SetSyscallNumber(WRITE), Instruction::Trap];
    let (edges, truncated) = function_edges(&run, &prog, &Vec::new(), true);
    prog[0].edges = edges;
    prog[0].truncated = truncated;
    let flow = syscall_flow(&prog, &libc_table(), 0);
    assert_eq!(flow.syscalls.to_vec(), vec![WRITE]);
    assert!(!flow.partial);
    assert!(!flow.unresolved);
}

#[test]
fn dynamic_function_calling_socket_and_connect() {
    let stubs = vec![
        ImportStub { addr: 0x500, name: "socket".to_string() },
        ImportStub { addr: 0x510, name: "connect".to_string() },
    ];
    let mut prog = vec![function(0x1000, 0x1040, Vec::new())];
    let run = vec![Instruction::Call(0x500), Instruction::Other, Instruction::Call(0x510)];
    let (edges, truncated) = function_edges(&run, &prog, &stubs, false);
    assert_eq!(
        edges,
        vec![
            CallEdge::ImportCall("socket".to_string()),
            CallEdge::ImportCall("connect".to_string()),
        ]
    );
    prog[0].edges = edges;
    prog[0].truncated = truncated;
    let flow = syscall_flow(&prog, &libc_table(), 0);
    assert_eq!(flow.syscalls.to_vec(), vec![SOCKET, CONNECT]);
    assert!(!flow.unresolved);
    // the same calls in a statically linked binary cannot go through stubs
    let (edges, _) = function_edges(&run, &prog, &stubs, true);
    assert_eq!(edges, vec![CallEdge::Unresolved, CallEdge::Unresolved]);
}
