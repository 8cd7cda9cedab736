//! The transitive system-call set of one function: what it traps into
//! directly, what its dynamic imports stand for, and what the local functions
//! it calls reach in turn.

use vstd::prelude::*;
use crate::syscall_set::SyscallSet;

verus! {

/// One control transfer found in a function's code.
#[derive(Debug, Clone, PartialEq, Eq)]
pub enum CallEdge {
    /// A trap instruction whose system-call number is known.
    Syscall(u64),
    /// A trap instruction whose number cannot be determined statically.
    IndeterminateSyscall,
    /// A direct call to an address of this binary.
    LocalCall(u64),
    /// A call through the dynamic-import mechanism, by the import's name.
    ImportCall(String),
    /// A computed call whose target is unknown.
    Unresolved,
}

/// One decoded function: its half-open address range and its edges in code
/// order. `truncated` says that decoding stopped before the range's end.
#[derive(Debug, Clone, PartialEq, Eq)]
pub struct FunctionCode {
    pub start: u64,
    pub end: u64,
    pub edges: Vec<CallEdge>,
    pub truncated: bool,
}

/// One line of the wrapper table: the import `name` performs `syscall`.
#[derive(Debug, Clone, PartialEq, Eq)]
pub struct ImportEntry {
    pub name: String,
    pub syscall: u64,
}

/// One entry of the dynamic-import lookup: a call to `addr` goes through the
/// stub of the import `name`.
#[derive(Debug, Clone, PartialEq, Eq)]
pub struct ImportStub {
    pub addr: u64,
    pub name: String,
}

/// What the analysis of one function yields.
pub struct FlowResult {
    pub syscalls: SyscallSet,
    /// Some function on the way could be decoded only in part.
    pub partial: bool,
    /// Some call or trap on the way could not be resolved.
    pub unresolved: bool,
}

/// The C library wrappers of Linux on x86-64 that the analysis knows, each
/// with the number of the system call that it performs.
pub open spec fn linux_wrappers() -> Seq<(Seq<char>, u64)> {
    seq![
        ("read"@, 0u64),
        ("write"@, 1u64),
        ("open"@, 2u64),
        ("close"@, 3u64),
        ("ioctl"@, 16u64),
        ("socket"@, 41u64),
        ("connect"@, 42u64),
        ("accept"@, 43u64),
        ("sendto"@, 44u64),
        ("recvfrom"@, 45u64),
        ("bind"@, 49u64),
        ("listen"@, 50u64),
    ]
}

/// The name table for binaries linked against the C library of Linux on
/// x86-64.
pub fn linux_table() -> (table: Vec<ImportEntry>)
    ensures
        table@.len() == linux_wrappers().len(),
        forall|t: int|
            0 <= t < table@.len() ==> (#[trigger] table@[t]).name@ == linux_wrappers()[t].0
                && table@[t].syscall == linux_wrappers()[t].1,
{
    let mut table: Vec<ImportEntry> = Vec::new();
    table.push(ImportEntry { name: "read".to_owned(), syscall: 0 });
    table.push(ImportEntry { name: "write".to_owned(), syscall: 1 });
    table.push(ImportEntry { name: "open".to_owned(), syscall: 2 });
    table.push(ImportEntry { name: "close".to_owned(), syscall: 3 });
    table.push(ImportEntry { name: "ioctl".to_owned(), syscall: 16 });
    table.push(ImportEntry { name: "socket".to_owned(), syscall: 41 });
    table.push(ImportEntry { name: "connect".to_owned(), syscall: 42 });
    table.push(ImportEntry { name: "accept".to_owned(), syscall: 43 });
    table.push(ImportEntry { name: "sendto".to_owned(), syscall: 44 });
    table.push(ImportEntry { name: "recvfrom".to_owned(), syscall: 45 });
    table.push(ImportEntry { name: "bind".to_owned(), syscall: 49 });
    table.push(ImportEntry { name: "listen".to_owned(), syscall: 50 });
    table
}

/// `addr` lies in the function's half-open range.
pub open spec fn covers(func: FunctionCode, addr: u64) -> bool {
    func.start <= addr < func.end
}

/// `c` is the first function whose range holds `addr`.
pub open spec fn resolves_to(prog: Seq<FunctionCode>, addr: u64, c: int) -> bool {
    &&& 0 <= c < prog.len()
    &&& covers(prog[c], addr)
    &&& forall|j: int| 0 <= j < c ==> !covers(#[trigger] prog[j], addr)
}

/// The edge is a local call that lands in function `c`.
pub open spec fn edge_calls(prog: Seq<FunctionCode>, edge: CallEdge, c: int) -> bool {
    match edge {
        CallEdge::LocalCall(addr) => resolves_to(prog, addr, c),
        _ => false,
    }
}

/// Function `f` holds a local call into function `c`.
pub open spec fn calls(prog: Seq<FunctionCode>, f: int, c: int) -> bool {
    &&& 0 <= f < prog.len()
    &&& exists|k: int|
        0 <= k < prog[f].edges@.len() && edge_calls(prog, #[trigger] prog[f].edges@[k], c)
}

/// `members` holds `root` and every local callee of each of its members.
pub open spec fn closed_under_calls(prog: Seq<FunctionCode>, root: int, members: Set<int>) -> bool {
    &&& members.contains(root)
    &&& forall|f: int, c: int|
        members.contains(f) && #[trigger] calls(prog, f, c) ==> members.contains(c)
}

/// `f` can be reached from `root` over local calls: it lies in every set
/// that is closed under calls.
pub open spec fn reachable(prog: Seq<FunctionCode>, root: int, f: int) -> bool {
    &&& 0 <= f < prog.len()
    &&& forall|members: Set<int>| #[trigger]
        closed_under_calls(prog, root, members) ==> members.contains(f)
}

/// The edge by itself contributes system call `s`.
pub open spec fn edge_emits(edge: CallEdge, table: Seq<ImportEntry>, s: u64) -> bool {
    match edge {
        CallEdge::Syscall(n) => n == s,
        CallEdge::ImportCall(name) => exists|t: int|
            0 <= t < table.len() && (#[trigger] table[t]).name@ == name@ && table[t].syscall == s,
        _ => false,
    }
}

/// The function's own code contributes system call `s`.
pub open spec fn emits(func: FunctionCode, table: Seq<ImportEntry>, s: u64) -> bool {
    exists|k: int| 0 <= k < func.edges@.len() && edge_emits(#[trigger] func.edges@[k], table, s)
}

/// The edge could not be resolved.
pub open spec fn edge_unresolved(edge: CallEdge) -> bool {
    edge is Unresolved || edge is IndeterminateSyscall
}

/// The function's own code holds an unresolved edge.
pub open spec fn holds_unresolved(func: FunctionCode) -> bool {
    exists|k: int| 0 <= k < func.edges@.len() && edge_unresolved(#[trigger] func.edges@[k])
}

/// The transitive system-call set of `root`.
pub open spec fn transitive_syscalls(
    prog: Seq<FunctionCode>,
    table: Seq<ImportEntry>,
    root: int,
) -> Set<u64> {
    Set::new(|s: u64| exists|f: int| #[trigger] reachable(prog, root, f) && emits(prog[f], table, s))
}

/// Some function reachable from `root` was decoded only in part.
pub open spec fn transitive_partial(prog: Seq<FunctionCode>, root: int) -> bool {
    exists|f: int| #[trigger] reachable(prog, root, f) && prog[f].truncated
}

/// Some function reachable from `root` holds an unresolved edge.
pub open spec fn transitive_unresolved(prog: Seq<FunctionCode>, root: int) -> bool {
    exists|f: int| #[trigger] reachable(prog, root, f) && holds_unresolved(prog[f])
}

/// `flow` is what the analysis of function `root` owes.
pub open spec fn is_flow_of(
    flow: FlowResult,
    prog: Seq<FunctionCode>,
    table: Seq<ImportEntry>,
    root: int,
) -> bool {
    &&& flow.syscalls.wf()
    &&& flow.syscalls@ == transitive_syscalls(prog, table, root)
    &&& flow.partial == transitive_partial(prog, root)
    &&& flow.unresolved == transitive_unresolved(prog, root)
}

/// `f` stands in `order`.
pub open spec fn listed(order: Seq<usize>, f: int) -> bool {
    exists|j: int| 0 <= j < order.len() && #[trigger] order[j] == f
}

/// The function that a call to `addr` lands in, if any.
pub fn resolve(prog: &Vec<FunctionCode>, addr: u64) -> (target: Option<usize>)
    ensures
        target.is_some() ==> resolves_to(prog@, addr, target.unwrap() as int),
        target.is_none() ==> forall|c: int| !resolves_to(prog@, addr, c),
{
    let mut i: usize = 0;
    while i < prog.len()
        invariant
            i <= prog.len(),
            forall|j: int| 0 <= j < i ==> !covers(#[trigger] prog@[j], addr),
        decreases prog.len() - i,
    {
        if prog[i].start <= addr && addr < prog[i].end {
            return Some(i);
        }
        i += 1;
    }
    None
}

/// Stub `k` is the first at address `addr`.
pub open spec fn first_stub_at(stubs: Seq<ImportStub>, addr: u64, k: int) -> bool {
    &&& 0 <= k < stubs.len()
    &&& stubs[k].addr == addr
    &&& forall|j: int| 0 <= j < k ==> (#[trigger] stubs[j]).addr != addr
}

/// The first import stub at `addr`, if any.
pub fn import_at(stubs: &Vec<ImportStub>, addr: u64) -> (at: Option<usize>)
    ensures
        match at {
            Some(k) => first_stub_at(stubs@, addr, k as int),
            None => forall|j: int| 0 <= j < stubs@.len() ==> (#[trigger] stubs@[j]).addr != addr,
        },
{
    let mut i: usize = 0;
    while i < stubs.len()
        invariant
            i <= stubs.len(),
            forall|j: int| 0 <= j < i ==> (#[trigger] stubs@[j]).addr != addr,
        decreases stubs.len() - i,
    {
        if stubs[i].addr == addr {
            return Some(i);
        }
        i += 1;
    }
    None
}

/// What a call to `target` is classified as: a local call where a function
/// of the binary covers the target; otherwise, in a dynamically linked
/// binary, a call of the import whose stub stands there; otherwise
/// unresolved.
pub open spec fn call_kind(
    prog: Seq<FunctionCode>,
    stubs: Seq<ImportStub>,
    is_static: bool,
    target: u64,
) -> CallEdge {
    if exists|c: int| resolves_to(prog, target, c) {
        CallEdge::LocalCall(target)
    } else if !is_static && exists|k: int| first_stub_at(stubs, target, k) {
        CallEdge::ImportCall(stubs[choose|k: int| first_stub_at(stubs, target, k)].name)
    } else {
        CallEdge::Unresolved
    }
}

/// Classifies a call by its target address and the binary's linkage.
pub fn classify_call(
    prog: &Vec<FunctionCode>,
    stubs: &Vec<ImportStub>,
    is_static: bool,
    target: u64,
) -> (edge: CallEdge)
    ensures
        edge == call_kind(prog@, stubs@, is_static, target),
{
    if resolve(prog, target).is_some() {
        return CallEdge::LocalCall(target);
    }
    if !is_static {
        match import_at(stubs, target) {
            Some(k) => {
                proof {
                    let chosen = choose|j: int| first_stub_at(stubs@, target, j);
                    assert(first_stub_at(stubs@, target, k as int));
                    assert(first_stub_at(stubs@, target, chosen));
                    if chosen < k {
                        assert(stubs@[chosen].addr != target);
                    } else if k < chosen {
                        assert(stubs@[k as int].addr != target);
                    }
                }
                return CallEdge::ImportCall(stubs[k].name.clone());
            },
            None => {
                assert(forall|k: int| !first_stub_at(stubs@, target, k));
            },
        }
    }
    CallEdge::Unresolved
}

/// One decoded instruction, as far as the analysis tells instructions apart.
#[derive(Debug, Clone, Copy, PartialEq, Eq)]
pub enum Instruction {
    /// Loads a constant into the register that carries the system-call number.
    SetSyscallNumber(u64),
    /// Writes something else into that register.
    ClobberSyscallNumber,
    /// Transfers control to the kernel.
    Trap,
    /// Calls the given address.
    Call(u64),
    /// Calls a computed address.
    IndirectCall,
    /// Anything else.
    Other,
    /// Bytes that decode to no instruction.
    Invalid,
}

/// The edge that one instruction contributes, given what is known of the
/// system-call number at that point.
pub open spec fn edge_of(
    ins: Instruction,
    known: Option<u64>,
    prog: Seq<FunctionCode>,
    stubs: Seq<ImportStub>,
    is_static: bool,
) -> Option<CallEdge> {
    match ins {
        Instruction::Trap => Some(
            match known {
                Some(n) => CallEdge::Syscall(n),
                None => CallEdge::IndeterminateSyscall,
            },
        ),
        Instruction::Call(target) => Some(call_kind(prog, stubs, is_static, target)),
        Instruction::IndirectCall => Some(CallEdge::Unresolved),
        _ => None,
    }
}

/// What is known of the system-call number behind one instruction: a loaded
/// constant is known, an instruction that leaves the register alone keeps
/// what was known, and every other one leaves nothing known.
pub open spec fn known_after(ins: Instruction, known: Option<u64>) -> Option<u64> {
    match ins {
        Instruction::SetSyscallNumber(n) => Some(n),
        Instruction::Other => known,
        _ => None,
    }
}

/// The edges of an instruction run, in code order, up to the first invalid
/// instruction.
pub open spec fn edges_of(
    instrs: Seq<Instruction>,
    known: Option<u64>,
    prog: Seq<FunctionCode>,
    stubs: Seq<ImportStub>,
    is_static: bool,
) -> Seq<CallEdge>
    decreases instrs.len(),
{
    if instrs.len() == 0 || instrs[0] is Invalid {
        Seq::empty()
    } else {
        let rest = edges_of(
            instrs.skip(1),
            known_after(instrs[0], known),
            prog,
            stubs,
            is_static,
        );
        match edge_of(instrs[0], known, prog, stubs, is_static) {
            Some(edge) => seq![edge] + rest,
            None => rest,
        }
    }
}

/// The run holds an invalid instruction.
pub open spec fn is_truncated(instrs: Seq<Instruction>) -> bool {
    exists|i: int| 0 <= i < instrs.len() && #[trigger] instrs[i] is Invalid
}

/// Two programs agree on every function's address range.
pub open spec fn same_ranges(p: Seq<FunctionCode>, q: Seq<FunctionCode>) -> bool {
    &&& p.len() == q.len()
    &&& forall|k: int|
        0 <= k < p.len() ==> (#[trigger] p[k]).start == q[k].start && p[k].end == q[k].end
}

/// Where a call lands depends on the functions' address ranges alone.
pub proof fn law_resolution_by_ranges(p: Seq<FunctionCode>, q: Seq<FunctionCode>, addr: u64, c: int)
    requires
        same_ranges(p, q),
    ensures
        resolves_to(p, addr, c) == resolves_to(q, addr, c),
{
    if resolves_to(p, addr, c) {
        assert(covers(q[c], addr));
        assert forall|j: int| 0 <= j < c implies !covers(#[trigger] q[j], addr) by {
            assert(!covers(p[j], addr));
        }
    }
    if resolves_to(q, addr, c) {
        assert(covers(p[c], addr));
        assert forall|j: int| 0 <= j < c implies !covers(#[trigger] p[j], addr) by {
            assert(!covers(q[j], addr));
        }
    }
}

/// The edges of an instruction run depend on the program only through its
/// functions' address ranges.
pub proof fn law_edges_by_ranges(
    instrs: Seq<Instruction>,
    known: Option<u64>,
    p: Seq<FunctionCode>,
    q: Seq<FunctionCode>,
    stubs: Seq<ImportStub>,
    is_static: bool,
)
    requires
        same_ranges(p, q),
    ensures
        edges_of(instrs, known, p, stubs, is_static) == edges_of(instrs, known, q, stubs, is_static),
    decreases instrs.len(),
{
    if instrs.len() > 0 && !(instrs[0] is Invalid) {
        law_edges_by_ranges(instrs.skip(1), known_after(instrs[0], known), p, q, stubs, is_static);
        match instrs[0] {
            Instruction::Call(target) => {
                assert forall|c: int| resolves_to(p, target, c) == resolves_to(q, target, c) by {
                    law_resolution_by_ranges(p, q, target, c);
                }
                assert(call_kind(p, stubs, is_static, target) == call_kind(
                    q,
                    stubs,
                    is_static,
                    target,
                ));
            },
            _ => {},
        }
    }
}

/// A call that is decoded before any invalid instruction gives its edge.
pub proof fn law_call_gives_edge(
    instrs: Seq<Instruction>,
    known: Option<u64>,
    prog: Seq<FunctionCode>,
    stubs: Seq<ImportStub>,
    is_static: bool,
    i: int,
    target: u64,
)
    requires
        0 <= i < instrs.len(),
        instrs[i] == Instruction::Call(target),
        forall|j: int| 0 <= j <= i ==> !(#[trigger] instrs[j] is Invalid),
    ensures
        edges_of(instrs, known, prog, stubs, is_static).contains(
            call_kind(prog, stubs, is_static, target),
        ),
    decreases i,
{
    let all = edges_of(instrs, known, prog, stubs, is_static);
    let rest = edges_of(instrs.skip(1), known_after(instrs[0], known), prog, stubs, is_static);
    assert(!(instrs[0] is Invalid));
    if i == 0 {
        assert(all == seq![call_kind(prog, stubs, is_static, target)] + rest);
        assert(all[0] == call_kind(prog, stubs, is_static, target));
    } else {
        let tail = instrs.skip(1);
        assert(tail[i - 1] == instrs[i]);
        assert forall|j: int| 0 <= j <= i - 1 implies !(#[trigger] tail[j] is Invalid) by {
            assert(tail[j] == instrs[j + 1]);
        }
        law_call_gives_edge(tail, known_after(instrs[0], known), prog, stubs, is_static, i - 1, target);
        let at = choose|at: int|
            0 <= at < rest.len() && rest[at] == call_kind(prog, stubs, is_static, target);
        match edge_of(instrs[0], known, prog, stubs, is_static) {
            Some(edge) => {
                assert(all == seq![edge] + rest);
                assert(all[at + 1] == rest[at]);
            },
            None => {
                assert(all == rest);
            },
        }
    }
}

/// A trap that directly follows the load of a number, both decoded before
/// any invalid instruction, gives the direct system call of that number.
pub proof fn law_trap_gives_syscall(
    instrs: Seq<Instruction>,
    known: Option<u64>,
    prog: Seq<FunctionCode>,
    stubs: Seq<ImportStub>,
    is_static: bool,
    i: int,
    number: u64,
)
    requires
        0 <= i && i + 1 < instrs.len(),
        instrs[i] == Instruction::SetSyscallNumber(number),
        instrs[i + 1] == Instruction::Trap,
        forall|j: int| 0 <= j <= i + 1 ==> !(#[trigger] instrs[j] is Invalid),
    ensures
        edges_of(instrs, known, prog, stubs, is_static).contains(CallEdge::Syscall(number)),
    decreases i,
{
    let all = edges_of(instrs, known, prog, stubs, is_static);
    let tail = instrs.skip(1);
    let rest = edges_of(tail, known_after(instrs[0], known), prog, stubs, is_static);
    assert(!(instrs[0] is Invalid));
    if i == 0 {
        assert(tail[0] == instrs[1]);
        assert(!(instrs[1] is Invalid));
        let after = edges_of(tail.skip(1), None, prog, stubs, is_static);
        assert(rest == seq![CallEdge::Syscall(number)] + after);
        assert(all == rest);
        assert(all[0] == CallEdge::Syscall(number));
    } else {
        assert(tail[i - 1] == instrs[i]);
        assert(tail[i] == instrs[i + 1]);
        assert forall|j: int| 0 <= j <= i implies !(#[trigger] tail[j] is Invalid) by {
            assert(tail[j] == instrs[j + 1]);
        }
        law_trap_gives_syscall(
            tail,
            known_after(instrs[0], known),
            prog,
            stubs,
            is_static,
            i - 1,
            number,
        );
        let at = choose|at: int| 0 <= at < rest.len() && rest[at] == CallEdge::Syscall(number);
        match edge_of(instrs[0], known, prog, stubs, is_static) {
            Some(edge) => {
                assert(all == seq![edge] + rest);
                assert(all[at + 1] == rest[at]);
            },
            None => {
                assert(all == rest);
            },
        }
    }
}

/// The run with the call at `i` taken out; what was known of the system-call
/// number is lost there as before.
pub open spec fn without_call(instrs: Seq<Instruction>, i: int) -> Seq<Instruction> {
    instrs.update(i, Instruction::ClobberSyscallNumber)
}

proof fn lemma_cons_contains(first: CallEdge, rest: Seq<CallEdge>, e: CallEdge)
    ensures
        (seq![first] + rest).contains(e) <==> (e == first || rest.contains(e)),
{
    let all = seq![first] + rest;
    if all.contains(e) {
        let at = choose|at: int| 0 <= at < all.len() && all[at] == e;
        if at > 0 {
            assert(rest[at - 1] == e);
        }
    }
    if e == first {
        assert(all[0] == e);
    }
    if rest.contains(e) {
        let at = choose|at: int| 0 <= at < rest.len() && rest[at] == e;
        assert(all[at + 1] == e);
    }
}

/// Taking a call out of a run takes out at most the edge of that call: every
/// other edge stays, and none is added.
pub proof fn law_edges_without_call(
    instrs: Seq<Instruction>,
    known: Option<u64>,
    prog: Seq<FunctionCode>,
    stubs: Seq<ImportStub>,
    is_static: bool,
    i: int,
    target: u64,
)
    requires
        0 <= i < instrs.len(),
        instrs[i] == Instruction::Call(target),
    ensures
        forall|e: CallEdge|
            edges_of(without_call(instrs, i), known, prog, stubs, is_static).contains(e)
                ==> edges_of(instrs, known, prog, stubs, is_static).contains(e),
        forall|e: CallEdge|
            edges_of(instrs, known, prog, stubs, is_static).contains(e) ==> e == call_kind(
                prog,
                stubs,
                is_static,
                target,
            ) || edges_of(without_call(instrs, i), known, prog, stubs, is_static).contains(e),
        is_truncated(without_call(instrs, i)) == is_truncated(instrs),
    decreases i,
{
    let changed = without_call(instrs, i);
    let all = edges_of(instrs, known, prog, stubs, is_static);
    let fewer = edges_of(changed, known, prog, stubs, is_static);
    assert(is_truncated(changed) == is_truncated(instrs)) by {
        if is_truncated(changed) {
            let j = choose|j: int| 0 <= j < changed.len() && #[trigger] changed[j] is Invalid;
            assert(instrs[j] is Invalid);
        }
        if is_truncated(instrs) {
            let j = choose|j: int| 0 <= j < instrs.len() && #[trigger] instrs[j] is Invalid;
            assert(changed[j] is Invalid);
        }
    }
    if i == 0 {
        let rest = edges_of(instrs.skip(1), None, prog, stubs, is_static);
        assert(changed.skip(1) == instrs.skip(1));
        assert(fewer == rest);
        assert(all == seq![call_kind(prog, stubs, is_static, target)] + rest);
        assert forall|e: CallEdge| all.contains(e) <==> (e == call_kind(
            prog,
            stubs,
            is_static,
            target,
        ) || rest.contains(e)) by {
            lemma_cons_contains(call_kind(prog, stubs, is_static, target), rest, e);
        }
    } else if instrs[0] is Invalid {
        assert(changed[0] is Invalid);
    } else {
        assert(changed[0] == instrs[0]);
        let next = known_after(instrs[0], known);
        let tail = instrs.skip(1);
        assert(tail[i - 1] == instrs[i]);
        assert(changed.skip(1) == without_call(tail, i - 1));
        law_edges_without_call(tail, next, prog, stubs, is_static, i - 1, target);
        let rest = edges_of(tail, next, prog, stubs, is_static);
        let rest_fewer = edges_of(without_call(tail, i - 1), next, prog, stubs, is_static);
        match edge_of(instrs[0], known, prog, stubs, is_static) {
            Some(edge) => {
                assert(all == seq![edge] + rest);
                assert(fewer == seq![edge] + rest_fewer);
                assert forall|e: CallEdge| all.contains(e) <==> (e == edge || rest.contains(e)) by {
                    lemma_cons_contains(edge, rest, e);
                }
                assert forall|e: CallEdge| fewer.contains(e) <==> (e == edge
                    || rest_fewer.contains(e)) by {
                    lemma_cons_contains(edge, rest_fewer, e);
                }
            },
            None => {
                assert(all == rest);
                assert(fewer == rest_fewer);
            },
        }
    }
}

/// Turns the instructions decoded from one function's code region into its
/// edges. An invalid instruction ends the run: the edges found before it
/// stay, and the function is marked as decoded in part.
pub fn function_edges(
    instrs: &Vec<Instruction>,
    prog: &Vec<FunctionCode>,
    stubs: &Vec<ImportStub>,
    is_static: bool,
) -> (found: (Vec<CallEdge>, bool))
    ensures
        found.0@ == edges_of(instrs@, None, prog@, stubs@, is_static),
        found.1 == is_truncated(instrs@),
{
    let ghost total = edges_of(instrs@, None, prog@, stubs@, is_static);
    let mut edges: Vec<CallEdge> = Vec::new();
    let mut known: Option<u64> = None;
    let mut i: usize = 0;
    proof {
        assert(instrs@.skip(0) == instrs@);
        assert(edges@ + total == total);
    }
    while i < instrs.len()
        invariant
            i <= instrs.len(),
            total == edges_of(instrs@, None, prog@, stubs@, is_static),
            edges@ + edges_of(instrs@.skip(i as int), known, prog@, stubs@, is_static) == total,
            forall|j: int| 0 <= j < i ==> !(#[trigger] instrs@[j] is Invalid),
        decreases instrs.len() - i,
    {
        let ins = instrs[i];
        let ghost before = edges@;
        let ghost tail = instrs@.skip(i as int);
        let ghost rest = edges_of(
            tail.skip(1),
            known_after(ins, known),
            prog@,
            stubs@,
            is_static,
        );
        proof {
            assert(tail[0] == ins);
            assert(tail.skip(1) == instrs@.skip(i + 1));
        }
        let edge: Option<CallEdge> = match ins {
            Instruction::Invalid => {
                proof {
                    assert(before + Seq::<CallEdge>::empty() == before);
                }
                return (edges, true);
            },
            Instruction::Trap => Some(
                match known {
                    Some(n) => CallEdge::Syscall(n),
                    None => CallEdge::IndeterminateSyscall,
                },
            ),
            Instruction::Call(target) => Some(classify_call(prog, stubs, is_static, target)),
            Instruction::IndirectCall => Some(CallEdge::Unresolved),
            _ => None,
        };
        known =
        match ins {
            Instruction::SetSyscallNumber(n) => Some(n),
            Instruction::Other => known,
            _ => None,
        };
        match edge {
            Some(e) => {
                edges.push(e);
                proof {
                    assert(before.push(e) + rest == before + (seq![e] + rest));
                }
            },
            None => {},
        }
        i += 1;
    }
    proof {
        assert(instrs@.skip(i as int).len() == 0);
        assert(edges@ + Seq::<CallEdge>::empty() == edges@);
    }
    (edges, false)
}

proof fn lemma_distinct_bounded(s: Seq<usize>, n: nat)
    requires
        s.no_duplicates(),
        forall|j: int| 0 <= j < s.len() ==> #[trigger] s[j] < n,
    ensures
        s.len() <= n,
    decreases n,
{
    if n == 0 {
        if s.len() > 0 {
            assert(s[0] < n);
        }
    } else if exists|j: int| 0 <= j < s.len() && s[j] == n - 1 {
        let j = choose|j: int| 0 <= j < s.len() && s[j] == n - 1;
        let t = s.remove(j);
        assert forall|i: int| 0 <= i < t.len() implies #[trigger] t[i] < (n - 1) as nat by {
            if i < j {
                assert(t[i] == s[i]);
            } else {
                assert(t[i] == s[i + 1]);
            }
        }
        assert(t.no_duplicates()) by {
            assert forall|a: int, b: int| 0 <= a < t.len() && 0 <= b < t.len() && a != b implies t[a]
                != t[b] by {
                let a2 = if a < j { a } else { a + 1 };
                let b2 = if b < j { b } else { b + 1 };
                assert(t[a] == s[a2] && t[b] == s[b2]);
            }
        }
        lemma_distinct_bounded(t, (n - 1) as nat);
    } else {
        lemma_distinct_bounded(s, (n - 1) as nat);
    }
}

/// What holds of the search at every step: `order` lists, once each, functions
/// that are reachable, and `visited` flags exactly those.
spec fn search_inv(prog: Seq<FunctionCode>, root: int, visited: Seq<bool>, order: Seq<usize>) -> bool {
    &&& visited.len() == prog.len()
    &&& 0 <= root < prog.len()
    &&& order.no_duplicates()
    &&& forall|j: int| 0 <= j < order.len() ==> #[trigger] order[j] < prog.len()
    &&& forall|j: int| 0 <= j < order.len() ==> reachable(prog, root, #[trigger] order[j] as int)
    &&& forall|f: int| 0 <= f < prog.len() ==> visited[f] == #[trigger] listed(order, f)
    &&& listed(order, root)
}

/// The callees of the first `upto` functions of `order` are all listed.
spec fn expanded(prog: Seq<FunctionCode>, order: Seq<usize>, upto: int) -> bool {
    forall|j: int, c: int|
        0 <= j < upto && j < order.len() && #[trigger] calls(prog, order[j] as int, c) ==> listed(
            order,
            c,
        )
}

proof fn lemma_root_reachable(prog: Seq<FunctionCode>, root: int)
    requires
        0 <= root < prog.len(),
    ensures
        reachable(prog, root, root),
{
}

proof fn lemma_callee_reachable(prog: Seq<FunctionCode>, root: int, f: int, c: int)
    requires
        reachable(prog, root, f),
        calls(prog, f, c),
    ensures
        reachable(prog, root, c),
{
    assert forall|members: Set<int>| #[trigger]
        closed_under_calls(prog, root, members) implies members.contains(c) by {
        assert(members.contains(f));
    }
    let k = choose|k: int|
        0 <= k < prog[f].edges@.len() && edge_calls(prog, #[trigger] prog[f].edges@[k], c);
    assert(0 <= c < prog.len());
}

proof fn lemma_listed_push(order: Seq<usize>, c: usize)
    ensures
        forall|f: int| #[trigger] listed(order.push(c), f) <==> (listed(order, f) || f == c),
{
    let grown = order.push(c);
    assert forall|f: int| #[trigger] listed(grown, f) <==> (listed(order, f) || f == c) by {
        if listed(order, f) {
            let j = choose|j: int| 0 <= j < order.len() && #[trigger] order[j] == f;
            assert(grown[j] == f);
        }
        if f == c {
            assert(grown[order.len() as int] == f);
        }
        if listed(grown, f) {
            let j = choose|j: int| 0 <= j < grown.len() && #[trigger] grown[j] == f;
            if j < order.len() {
                assert(order[j] == f);
            }
        }
    }
}

/// The functions reachable from `root` over local calls, each once, `root`
/// first. A function already listed is not entered again, so recursion ends.
pub fn reachable_functions(prog: &Vec<FunctionCode>, root: usize) -> (order: Vec<usize>)
    requires
        root < prog.len(),
    ensures
        order@.no_duplicates(),
        order@.len() >= 1 && order@[0] == root,
        forall|j: int| 0 <= j < order@.len() ==> #[trigger] order@[j] < prog.len(),
        forall|f: int| #[trigger] reachable(prog@, root as int, f) <==> listed(order@, f),
{
    let n = prog.len();
    let mut visited: Vec<bool> = Vec::new();
    let mut i: usize = 0;
    while i < n
        invariant
            i <= n,
            visited.len() == i,
            forall|k: int| 0 <= k < i ==> !visited@[k],
        decreases n - i,
    {
        visited.push(false);
        i += 1;
    }
    let mut order: Vec<usize> = Vec::new();
    visited.set(root, true);
    order.push(root);
    proof {
        lemma_root_reachable(prog@, root as int);
        lemma_listed_push(Seq::<usize>::empty(), root);
        assert(order@ == Seq::<usize>::empty().push(root));
        assert(forall|f: int| !listed(Seq::<usize>::empty(), f));
    }
    let mut head: usize = 0;
    while head < order.len()
        invariant
            n == prog.len(),
            head <= order.len(),
            order@.len() >= 1 && order@[0] == root,
            search_inv(prog@, root as int, visited@, order@),
            expanded(prog@, order@, head as int),
        decreases n - head,
    {
        proof {
            lemma_distinct_bounded(order@, n as nat);
        }
        let f = order[head];
        let mut k: usize = 0;
        while k < prog[f].edges.len()
            invariant
                n == prog.len(),
                head < order.len(),
                f == order@[head as int],
                f < n,
                k <= prog@[f as int].edges@.len(),
                order@.len() >= 1 && order@[0] == root,
                search_inv(prog@, root as int, visited@, order@),
                expanded(prog@, order@, head as int),
                forall|e: int, c: int|
                    0 <= e < k && edge_calls(prog@, #[trigger] prog@[f as int].edges@[e], c)
                        ==> #[trigger] listed(order@, c),
            decreases prog@[f as int].edges@.len() - k,
        {
            match &prog[f].edges[k] {
                CallEdge::LocalCall(addr) => {
                    match resolve(prog, *addr) {
                        Some(c) => {
                            if !visited[c] {
                                let ghost before = order@;
                                visited.set(c, true);
                                order.push(c);
                                proof {
                                    lemma_listed_push(before, c);
                                    assert(calls(prog@, f as int, c as int));
                                    lemma_callee_reachable(prog@, root as int, f as int, c as int);
                                    assert(!listed(before, c as int));
                                    assert(order@.no_duplicates());
                                    assert(search_inv(prog@, root as int, visited@, order@));
                                    assert(expanded(prog@, order@, head as int));
                                }
                            }
                            assert(listed(order@, c as int));
                            assert(forall|c2: int|
                                resolves_to(prog@, *addr, c2) ==> c2 == c);
                        },
                        None => {},
                    }
                },
                _ => {},
            }
            k += 1;
        }
        proof {
            assert forall|j: int, c: int|
                0 <= j < head + 1 && j < order@.len() && #[trigger] calls(
                    prog@,
                    order@[j] as int,
                    c,
                ) implies listed(order@, c) by {
                if j == head {
                    let e = choose|e: int|
                        0 <= e < prog@[f as int].edges@.len() && edge_calls(
                            prog@,
                            #[trigger] prog@[f as int].edges@[e],
                            c,
                        );
                    assert(listed(order@, c));
                }
            }
        }
        head += 1;
    }
    proof {
        let members = Set::new(|f: int| listed(order@, f));
        assert(closed_under_calls(prog@, root as int, members)) by {
            assert forall|f: int, c: int|
                members.contains(f) && #[trigger] calls(prog@, f, c) implies members.contains(
                c,
            ) by {
                let j = choose|j: int| 0 <= j < order@.len() && #[trigger] order@[j] == f;
                assert(calls(prog@, order@[j] as int, c));
            }
        }
        assert forall|f: int| #[trigger] reachable(prog@, root as int, f) implies listed(
            order@,
            f,
        ) by {
            assert(members.contains(f));
        }
        assert forall|f: int| listed(order@, f) implies #[trigger] reachable(
            prog@,
            root as int,
            f,
        ) by {
            let j = choose|j: int| 0 <= j < order@.len() && #[trigger] order@[j] == f;
            assert(reachable(prog@, root as int, order@[j] as int));
        }
    }
    order
}

fn add_import_syscalls(set: &mut SyscallSet, table: &Vec<ImportEntry>, name: &String)
    requires
        old(set).wf(),
    ensures
        final(set).wf(),
        forall|s: u64|
            final(set)@.contains(s) <==> (old(set)@.contains(s) || edge_emits(
                CallEdge::ImportCall(*name),
                table@,
                s,
            )),
{
    let mut t: usize = 0;
    while t < table.len()
        invariant
            t <= table.len(),
            set.wf(),
            forall|s: u64|
                set@.contains(s) <==> (old(set)@.contains(s) || exists|u: int|
                    0 <= u < t && (#[trigger] table@[u]).name@ == name@ && table@[u].syscall == s),
        decreases table.len() - t,
    {
        if table[t].name == *name {
            set.insert(table[t].syscall);
        }
        t += 1;
    }
}

fn add_edge_syscalls(set: &mut SyscallSet, table: &Vec<ImportEntry>, edge: &CallEdge)
    requires
        old(set).wf(),
    ensures
        final(set).wf(),
        forall|s: u64|
            final(set)@.contains(s) <==> (old(set)@.contains(s) || edge_emits(*edge, table@, s)),
{
    match edge {
        CallEdge::Syscall(n) => {
            set.insert(*n);
        },
        CallEdge::ImportCall(name) => {
            add_import_syscalls(set, table, name);
        },
        _ => {},
    }
}

fn add_function_syscalls(set: &mut SyscallSet, table: &Vec<ImportEntry>, func: &FunctionCode)
    requires
        old(set).wf(),
    ensures
        final(set).wf(),
        forall|s: u64|
            final(set)@.contains(s) <==> (old(set)@.contains(s) || emits(*func, table@, s)),
{
    let mut k: usize = 0;
    while k < func.edges.len()
        invariant
            k <= func.edges.len(),
            set.wf(),
            forall|s: u64|
                set@.contains(s) <==> (old(set)@.contains(s) || exists|e: int|
                    0 <= e < k && edge_emits(#[trigger] func.edges@[e], table@, s)),
        decreases func.edges.len() - k,
    {
        add_edge_syscalls(set, table, &func.edges[k]);
        k += 1;
    }
}

/// Whether the function's own code holds an edge that could not be resolved.
pub fn has_unresolved(func: &FunctionCode) -> (found: bool)
    ensures
        found == holds_unresolved(*func),
{
    let mut k: usize = 0;
    while k < func.edges.len()
        invariant
            k <= func.edges.len(),
            forall|e: int| 0 <= e < k ==> !edge_unresolved(#[trigger] func.edges@[e]),
        decreases func.edges.len() - k,
    {
        match &func.edges[k] {
            CallEdge::Unresolved => {
                return true;
            },
            CallEdge::IndeterminateSyscall => {
                return true;
            },
            _ => {},
        }
        k += 1;
    }
    false
}

/// The system calls that the function's own code contributes, without
/// following any local call.
pub fn direct_syscalls(func: &FunctionCode, table: &Vec<ImportEntry>) -> (set: SyscallSet)
    ensures
        set.wf(),
        forall|s: u64| set@.contains(s) <==> emits(*func, table@, s),
{
    let mut set = SyscallSet::new();
    add_function_syscalls(&mut set, table, func);
    set
}

/// The transitive system-call set of function `root` of `prog`, with the
/// marks for partial decoding and unresolved edges met on the way.
pub fn syscall_flow(prog: &Vec<FunctionCode>, table: &Vec<ImportEntry>, root: usize) -> (flow:
    FlowResult)
    requires
        root < prog.len(),
    ensures
        is_flow_of(flow, prog@, table@, root as int),
{
    let order = reachable_functions(prog, root);
    let mut syscalls = SyscallSet::new();
    let mut partial = false;
    let mut unresolved = false;
    let mut j: usize = 0;
    while j < order.len()
        invariant
            j <= order.len(),
            syscalls.wf(),
            forall|i: int| 0 <= i < order@.len() ==> #[trigger] order@[i] < prog.len(),
            forall|s: u64|
                syscalls@.contains(s) <==> exists|i: int|
                    0 <= i < j && emits(prog@[#[trigger] order@[i] as int], table@, s),
            partial == exists|i: int| 0 <= i < j && prog@[#[trigger] order@[i] as int].truncated,
            unresolved == exists|i: int|
                0 <= i < j && holds_unresolved(prog@[#[trigger] order@[i] as int]),
        decreases order.len() - j,
    {
        let f = order[j];
        add_function_syscalls(&mut syscalls, table, &prog[f]);
        if prog[f].truncated {
            partial = true;
        }
        if has_unresolved(&prog[f]) {
            unresolved = true;
        }
        j += 1;
    }
    proof {
        let p = prog@;
        let r = root as int;
        assert forall|s: u64| syscalls@.contains(s) <==> transitive_syscalls(
            p,
            table@,
            r,
        ).contains(s) by {
            if syscalls@.contains(s) {
                let i = choose|i: int|
                    0 <= i < j && emits(p[#[trigger] order@[i] as int], table@, s);
                assert(listed(order@, order@[i] as int));
                assert(reachable(p, r, order@[i] as int));
            }
            if transitive_syscalls(p, table@, r).contains(s) {
                let f = choose|f: int| #[trigger] reachable(p, r, f) && emits(p[f], table@, s);
                assert(listed(order@, f));
                let i = choose|i: int| 0 <= i < order@.len() && #[trigger] order@[i] == f;
                assert(emits(p[order@[i] as int], table@, s));
            }
        }
        assert(syscalls@ =~= transitive_syscalls(p, table@, r));
        if partial {
            let i = choose|i: int| 0 <= i < j && p[#[trigger] order@[i] as int].truncated;
            assert(listed(order@, order@[i] as int));
            assert(reachable(p, r, order@[i] as int));
        }
        if transitive_partial(p, r) {
            let f = choose|f: int| #[trigger] reachable(p, r, f) && p[f].truncated;
            assert(listed(order@, f));
            let i = choose|i: int| 0 <= i < order@.len() && #[trigger] order@[i] == f;
            assert(p[order@[i] as int].truncated);
        }
        if unresolved {
            let i = choose|i: int|
                0 <= i < j && holds_unresolved(p[#[trigger] order@[i] as int]);
            assert(listed(order@, order@[i] as int));
            assert(reachable(p, r, order@[i] as int));
        }
        if transitive_unresolved(p, r) {
            let f = choose|f: int| #[trigger] reachable(p, r, f) && holds_unresolved(p[f]);
            assert(listed(order@, f));
            let i = choose|i: int| 0 <= i < order@.len() && #[trigger] order@[i] == f;
            assert(holds_unresolved(p[order@[i] as int]));
        }
    }
    FlowResult { syscalls, partial, unresolved }
}

/// The analysis of every function of `prog`, in order: the unit of work is
/// one function, and no result depends on another.
pub fn syscall_flows(prog: &Vec<FunctionCode>, table: &Vec<ImportEntry>) -> (flows: Vec<FlowResult>)
    ensures
        flows@.len() == prog@.len(),
        forall|i: int| 0 <= i < prog@.len() ==> is_flow_of(#[trigger] flows@[i], prog@, table@, i),
{
    let mut flows: Vec<FlowResult> = Vec::new();
    let mut i: usize = 0;
    while i < prog.len()
        invariant
            i <= prog.len(),
            flows@.len() == i,
            forall|j: int| 0 <= j < i ==> is_flow_of(#[trigger] flows@[j], prog@, table@, j),
        decreases prog.len() - i,
    {
        let flow = syscall_flow(prog, table, i);
        flows.push(flow);
        i += 1;
    }
    flows
}

/// Two analyses of the same function agree: the set and both marks are fixed
/// by the program, the table and the function alone.
pub proof fn law_flow_determined(
    first: FlowResult,
    second: FlowResult,
    prog: Seq<FunctionCode>,
    table: Seq<ImportEntry>,
    root: int,
)
    requires
        is_flow_of(first, prog, table, root),
        is_flow_of(second, prog, table, root),
    ensures
        first.syscalls@ == second.syscalls@,
        first.partial == second.partial,
        first.unresolved == second.unresolved,
{
}

/// A function without any edge reaches only itself.
proof fn lemma_leaf_reaches_itself(prog: Seq<FunctionCode>, root: int, f: int)
    requires
        0 <= root < prog.len(),
        prog[root].edges@.len() == 0,
        reachable(prog, root, f),
    ensures
        f == root,
{
    let members = Set::<int>::empty().insert(root);
    assert(closed_under_calls(prog, root, members));
    assert(members.contains(f));
}

/// A function whose code region is empty has an empty system-call set, and
/// neither mark is set.
pub proof fn law_empty_region(prog: Seq<FunctionCode>, table: Seq<ImportEntry>, root: int)
    requires
        0 <= root < prog.len(),
        prog[root].edges@.len() == 0,
        !prog[root].truncated,
    ensures
        transitive_syscalls(prog, table, root) == Set::<u64>::empty(),
        !transitive_partial(prog, root),
        !transitive_unresolved(prog, root),
{
    assert forall|f: int| #[trigger] reachable(prog, root, f) implies f == root by {
        lemma_leaf_reaches_itself(prog, root, f);
    }
    assert(transitive_syscalls(prog, table, root) =~= Set::<u64>::empty());
}

/// Whatever a function contributes itself is in its transitive set.
pub proof fn law_own_syscall(prog: Seq<FunctionCode>, table: Seq<ImportEntry>, a: int, s: u64)
    requires
        0 <= a < prog.len(),
        emits(prog[a], table, s),
    ensures
        transitive_syscalls(prog, table, a).contains(s),
{
    lemma_root_reachable(prog, a);
}

/// If `a` calls the local function `b`, whatever `b` contributes is in the
/// transitive set of `a`.
pub proof fn law_callee_syscall(
    prog: Seq<FunctionCode>,
    table: Seq<ImportEntry>,
    a: int,
    b: int,
    s: u64,
)
    requires
        calls(prog, a, b),
        emits(prog[b], table, s),
    ensures
        transitive_syscalls(prog, table, a).contains(s),
{
    lemma_root_reachable(prog, a);
    lemma_callee_reachable(prog, a, a, b);
}

/// The transitive set of a callee is part of the caller's.
pub proof fn law_callee_subset(prog: Seq<FunctionCode>, table: Seq<ImportEntry>, a: int, b: int)
    requires
        calls(prog, a, b),
    ensures
        transitive_syscalls(prog, table, b).subset_of(transitive_syscalls(prog, table, a)),
{
    lemma_root_reachable(prog, a);
    lemma_callee_reachable(prog, a, a, b);
    assert forall|f: int| #[trigger] reachable(prog, b, f) implies reachable(prog, a, f) by {
        assert forall|members: Set<int>| #[trigger]
            closed_under_calls(prog, a, members) implies members.contains(f) by {
            assert(members.contains(b));
            assert(closed_under_calls(prog, b, members));
        }
    }
}

/// Calls that lead back to the function under analysis add nothing: two
/// programs that differ only in their calls into `root` give `root` the same
/// functions to reach, hence the same system-call set and marks.
pub proof fn law_recursive_edge(
    p: Seq<FunctionCode>,
    q: Seq<FunctionCode>,
    table: Seq<ImportEntry>,
    root: int,
)
    requires
        p.len() == q.len(),
        0 <= root < p.len(),
        forall|f: int, c: int| c != root ==> calls(p, f, c) == calls(q, f, c),
        forall|f: int, s: u64|
            0 <= f < p.len() ==> emits(p[f], table, s) == emits(q[f], table, s),
        forall|f: int| 0 <= f < p.len() ==> p[f].truncated == q[f].truncated,
        forall|f: int| 0 <= f < p.len() ==> holds_unresolved(p[f]) == holds_unresolved(q[f]),
    ensures
        forall|f: int| reachable(p, root, f) == reachable(q, root, f),
        transitive_syscalls(p, table, root) == transitive_syscalls(q, table, root),
        transitive_partial(p, root) == transitive_partial(q, root),
        transitive_unresolved(p, root) == transitive_unresolved(q, root),
{
    assert forall|members: Set<int>|
        closed_under_calls(p, root, members) == closed_under_calls(q, root, members) by {
        if closed_under_calls(p, root, members) {
            assert forall|f: int, c: int|
                members.contains(f) && #[trigger] calls(q, f, c) implies members.contains(c) by {
                if c != root {
                    assert(calls(p, f, c));
                }
            }
        }
        if closed_under_calls(q, root, members) {
            assert forall|f: int, c: int|
                members.contains(f) && #[trigger] calls(p, f, c) implies members.contains(c) by {
                if c != root {
                    assert(calls(q, f, c));
                }
            }
        }
    }
    assert forall|f: int| reachable(p, root, f) == reachable(q, root, f) by {
        if reachable(p, root, f) {
            assert forall|members: Set<int>| #[trigger]
                closed_under_calls(q, root, members) implies members.contains(f) by {
                assert(closed_under_calls(p, root, members));
            }
        }
        if reachable(q, root, f) {
            assert forall|members: Set<int>| #[trigger]
                closed_under_calls(p, root, members) implies members.contains(f) by {
                assert(closed_under_calls(q, root, members));
            }
        }
    }
    assert(transitive_syscalls(p, table, root) =~= transitive_syscalls(q, table, root)) by {
        assert forall|s: u64|
            transitive_syscalls(p, table, root).contains(s) == transitive_syscalls(
                q,
                table,
                root,
            ).contains(s) by {
            if transitive_syscalls(p, table, root).contains(s) {
                let f = choose|f: int| #[trigger] reachable(p, root, f) && emits(p[f], table, s);
                assert(reachable(q, root, f) && emits(q[f], table, s));
            }
            if transitive_syscalls(q, table, root).contains(s) {
                let f = choose|f: int| #[trigger] reachable(q, root, f) && emits(q[f], table, s);
                assert(reachable(p, root, f) && emits(p[f], table, s));
            }
        }
    }
    if transitive_partial(p, root) {
        let f = choose|f: int| #[trigger] reachable(p, root, f) && p[f].truncated;
        assert(reachable(q, root, f) && q[f].truncated);
    }
    if transitive_partial(q, root) {
        let f = choose|f: int| #[trigger] reachable(q, root, f) && q[f].truncated;
        assert(reachable(p, root, f) && p[f].truncated);
    }
    if transitive_unresolved(p, root) {
        let f = choose|f: int| #[trigger] reachable(p, root, f) && holds_unresolved(p[f]);
        assert(reachable(q, root, f) && holds_unresolved(q[f]));
    }
    if transitive_unresolved(q, root) {
        let f = choose|f: int| #[trigger] reachable(q, root, f) && holds_unresolved(q[f]);
        assert(reachable(p, root, f) && holds_unresolved(p[f]));
    }
}

/// `fewer` holds every edge of `all` but, at most, `extra`, and nothing
/// else.
pub open spec fn edges_differ_by(all: Seq<CallEdge>, fewer: Seq<CallEdge>, extra: CallEdge) -> bool {
    &&& forall|e: CallEdge| fewer.contains(e) ==> all.contains(e)
    &&& forall|e: CallEdge| all.contains(e) ==> e == extra || fewer.contains(e)
}

/// Taking local calls that land in `root` out of a program changes nothing
/// of what `root` reaches: the same functions, the same system-call set, the
/// same marks.
pub proof fn law_recursive_call_removed(
    p: Seq<FunctionCode>,
    q: Seq<FunctionCode>,
    table: Seq<ImportEntry>,
    root: int,
    target: u64,
)
    requires
        same_ranges(p, q),
        resolves_to(p, target, root),
        forall|f: int|
            0 <= f < p.len() ==> edges_differ_by(
                (#[trigger] p[f]).edges@,
                q[f].edges@,
                CallEdge::LocalCall(target),
            ) && p[f].truncated == q[f].truncated,
    ensures
        transitive_syscalls(p, table, root) == transitive_syscalls(q, table, root),
        transitive_partial(p, root) == transitive_partial(q, root),
        transitive_unresolved(p, root) == transitive_unresolved(q, root),
{
    let extra = CallEdge::LocalCall(target);
    assert forall|f: int, c: int| c != root implies calls(p, f, c) == calls(q, f, c) by {
        if calls(p, f, c) {
            let e = choose|e: int|
                0 <= e < p[f].edges@.len() && edge_calls(p, #[trigger] p[f].edges@[e], c);
            let edge = p[f].edges@[e];
            assert(p[f].edges@.contains(edge));
            assert(edges_differ_by(p[f].edges@, q[f].edges@, extra));
            if edge == extra {
                assert(resolves_to(p, target, c));
                if c < root {
                    assert(!covers(p[c], target));
                } else {
                    assert(!covers(p[root], target));
                }
            }
            assert(q[f].edges@.contains(edge));
            let e2 = choose|e2: int| 0 <= e2 < q[f].edges@.len() && q[f].edges@[e2] == edge;
            match edge {
                CallEdge::LocalCall(addr) => {
                    law_resolution_by_ranges(p, q, addr, c);
                },
                _ => {},
            }
            assert(edge_calls(q, q[f].edges@[e2], c));
        }
        if calls(q, f, c) {
            let e = choose|e: int|
                0 <= e < q[f].edges@.len() && edge_calls(q, #[trigger] q[f].edges@[e], c);
            let edge = q[f].edges@[e];
            assert(q[f].edges@.contains(edge));
            assert(edges_differ_by(p[f].edges@, q[f].edges@, extra));
            assert(p[f].edges@.contains(edge));
            let e1 = choose|e1: int| 0 <= e1 < p[f].edges@.len() && p[f].edges@[e1] == edge;
            match edge {
                CallEdge::LocalCall(addr) => {
                    law_resolution_by_ranges(p, q, addr, c);
                },
                _ => {},
            }
            assert(edge_calls(p, p[f].edges@[e1], c));
        }
    }
    assert forall|f: int, s: u64| 0 <= f < p.len() implies emits(p[f], table, s) == emits(
        q[f],
        table,
        s,
    ) by {
        assert(edges_differ_by(p[f].edges@, q[f].edges@, extra));
        if emits(p[f], table, s) {
            let e = choose|e: int|
                0 <= e < p[f].edges@.len() && edge_emits(#[trigger] p[f].edges@[e], table, s);
            let edge = p[f].edges@[e];
            assert(p[f].edges@.contains(edge));
            assert(q[f].edges@.contains(edge));
            let e2 = choose|e2: int| 0 <= e2 < q[f].edges@.len() && q[f].edges@[e2] == edge;
            assert(edge_emits(q[f].edges@[e2], table, s));
        }
        if emits(q[f], table, s) {
            let e = choose|e: int|
                0 <= e < q[f].edges@.len() && edge_emits(#[trigger] q[f].edges@[e], table, s);
            let edge = q[f].edges@[e];
            assert(q[f].edges@.contains(edge));
            assert(p[f].edges@.contains(edge));
            let e1 = choose|e1: int| 0 <= e1 < p[f].edges@.len() && p[f].edges@[e1] == edge;
            assert(edge_emits(p[f].edges@[e1], table, s));
        }
    }
    assert forall|f: int| 0 <= f < p.len() implies holds_unresolved(p[f]) == holds_unresolved(
        q[f],
    ) by {
        assert(edges_differ_by(p[f].edges@, q[f].edges@, extra));
        if holds_unresolved(p[f]) {
            let e = choose|e: int|
                0 <= e < p[f].edges@.len() && edge_unresolved(#[trigger] p[f].edges@[e]);
            let edge = p[f].edges@[e];
            assert(p[f].edges@.contains(edge));
            assert(q[f].edges@.contains(edge));
            let e2 = choose|e2: int| 0 <= e2 < q[f].edges@.len() && q[f].edges@[e2] == edge;
            assert(edge_unresolved(q[f].edges@[e2]));
        }
        if holds_unresolved(q[f]) {
            let e = choose|e: int|
                0 <= e < q[f].edges@.len() && edge_unresolved(#[trigger] q[f].edges@[e]);
            let edge = q[f].edges@[e];
            assert(q[f].edges@.contains(edge));
            assert(p[f].edges@.contains(edge));
            let e1 = choose|e1: int| 0 <= e1 < p[f].edges@.len() && p[f].edges@[e1] == edge;
            assert(edge_unresolved(p[f].edges@[e1]));
        }
    }
    law_recursive_edge(p, q, table, root);
}

} // verus!
