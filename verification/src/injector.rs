//! The decisions of the DLL injector: which process is the game, how the DLL's
//! path is handed to the loader, and what each step of an injection leads to.
//!
//! The system calls themselves (process snapshots, remote memory, remote
//! threads) are made by the program around this module; it reports each step's
//! outcome back and is told what to do next.
use crate::text::{
    ascii_lower, chars_of, has_prefix, lemma_ascii_lower_idempotent, lower_char, starts_with,
    substring,
};
use vstd::prelude::*;

verus! {

/// One process of a system snapshot: its executable's file name as the raw,
/// NUL-padded bytes the snapshot holds, and its process id.
#[derive(Debug, Clone, PartialEq, Eq)]
pub struct ProcessEntry {
    pub exe_file: Vec<u8>,
    pub process_id: u32,
}

/// The bytes before the first NUL.
pub open spec fn before_nul(raw: Seq<u8>) -> Seq<u8>
    decreases raw.len(),
{
    if raw.len() == 0 {
        raw
    } else if raw[0] == 0 {
        Seq::empty()
    } else {
        seq![raw[0]] + before_nul(raw.drop_first())
    }
}

/// The executable name a snapshot entry holds: the bytes before the first NUL,
/// each taken as the character with that code.
pub open spec fn exe_name(raw: Seq<u8>) -> Seq<char> {
    before_nul(raw).map_values(|b: u8| (b as u32) as char)
}

/// Index of the first entry whose executable name equals `name`, ASCII case
/// folded.
pub open spec fn first_process(entries: Seq<ProcessEntry>, name: Seq<char>) -> Option<int>
    decreases entries.len(),
{
    if entries.len() == 0 {
        None
    } else {
        match first_process(entries.drop_last(), name) {
            Some(i) => Some(i),
            None => if ascii_lower(exe_name(entries.last().exe_file@)) == ascii_lower(name) {
                Some(entries.len() - 1)
            } else {
                None
            },
        }
    }
}

proof fn lemma_first_process_prefix(entries: Seq<ProcessEntry>, name: Seq<char>, k: int)
    requires
        0 <= k <= entries.len(),
        first_process(entries.take(k), name) is Some,
    ensures
        first_process(entries, name) == first_process(entries.take(k), name),
    decreases entries.len() - k,
{
    if k < entries.len() {
        assert(entries.take(k + 1).drop_last() =~= entries.take(k));
        lemma_first_process_prefix(entries, name, k + 1);
    } else {
        assert(entries.take(k) =~= entries);
    }
}

/// The process found is the first in the snapshot whose executable name equals
/// the name asked for, ignoring ASCII case; nothing is found only when no entry
/// has that name. Asking in another case finds the same process.
pub proof fn law_find_process_picks_the_first_match(entries: Seq<ProcessEntry>, name: Seq<char>)
    ensures
        match first_process(entries, name) {
            Some(i) => 0 <= i < entries.len() && ascii_lower(exe_name(entries[i].exe_file@))
                == ascii_lower(name) && forall|j: int|
                0 <= j < i ==> ascii_lower(exe_name(#[trigger] entries[j].exe_file@)) != ascii_lower(
                    name,
                ),
            None => forall|j: int|
                0 <= j < entries.len() ==> ascii_lower(exe_name(#[trigger] entries[j].exe_file@))
                    != ascii_lower(name),
        },
        first_process(entries, name) == first_process(entries, ascii_lower(name)),
    decreases entries.len(),
{
    lemma_ascii_lower_idempotent(name);
    if entries.len() > 0 {
        law_find_process_picks_the_first_match(entries.drop_last(), name);
        assert forall|j: int| 0 <= j < entries.len() - 1 implies #[trigger] entries[j]
            == entries.drop_last()[j] by {}
    }
}

/// `byte as char`.
fn byte_char(b: u8) -> (c: char)
    ensures
        c == (b as u32) as char,
{
    b as char
}

/// The lowercased executable name of a snapshot entry.
fn lowered_exe_name(raw: &Vec<u8>) -> (name: Vec<char>)
    ensures
        name@ == ascii_lower(exe_name(raw@)),
{
    let mut name: Vec<char> = Vec::new();
    let mut i: usize = 0;
    assert(raw@.skip(0) =~= raw@);
    while i < raw.len() && raw[i] != 0
        invariant
            i <= raw@.len(),
            forall|j: int| 0 <= j < i ==> raw@[j] != 0,
            before_nul(raw@) == raw@.take(i as int) + before_nul(raw@.skip(i as int)),
            name@ == ascii_lower(exe_name(raw@.take(i as int))),
        decreases raw@.len() - i,
    {
        let c = lower_char(byte_char(raw[i]));
        proof {
            let rest = raw@.skip(i as int);
            assert(rest[0] == raw@[i as int]);
            assert(rest.drop_first() =~= raw@.skip(i + 1));
            assert(raw@.take(i + 1) =~= raw@.take(i as int).push(raw@[i as int]));
            assert(before_nul(raw@.take(i as int)) =~= raw@.take(i as int)) by {
                lemma_before_nul_clean(raw@.take(i as int));
            }
            assert(before_nul(raw@.take(i + 1)) =~= raw@.take(i + 1)) by {
                lemma_before_nul_clean(raw@.take(i + 1));
            }
        }
        name.push(c);
        i += 1;
        assert(name@ =~= ascii_lower(exe_name(raw@.take(i as int))));
    }
    proof {
        lemma_before_nul_clean(raw@.take(i as int));
        if i < raw@.len() {
            assert(raw@.skip(i as int)[0] == 0);
        } else {
            assert(raw@.skip(i as int) =~= Seq::<u8>::empty());
        }
        assert(before_nul(raw@) =~= raw@.take(i as int));
    }
    name
}

proof fn lemma_before_nul_clean(s: Seq<u8>)
    requires
        forall|j: int| 0 <= j < s.len() ==> s[j] != 0,
    ensures
        before_nul(s) == s,
    decreases s.len(),
{
    if s.len() > 0 {
        lemma_before_nul_clean(s.drop_first());
        assert(seq![s[0]] + s.drop_first() =~= s);
    }
}

fn same_chars(a: &Vec<char>, b: &Vec<char>) -> (r: bool)
    ensures
        r == (a@ == b@),
{
    if a.len() != b.len() {
        return false;
    }
    let mut i: usize = 0;
    while i < a.len()
        invariant
            a@.len() == b@.len(),
            i <= a@.len(),
            forall|j: int| 0 <= j < i ==> a@[j] == b@[j],
        decreases a@.len() - i,
    {
        if a[i] != b[i] {
            return false;
        }
        i += 1;
    }
    assert(a@ =~= b@);
    true
}

/// The id of the first process in the snapshot whose executable name equals
/// `name`, ignoring ASCII case.
pub fn find_process(entries: &Vec<ProcessEntry>, name: &str) -> (r: Option<u32>)
    ensures
        match first_process(entries@, name@) {
            Some(i) => r == Some(entries@[i].process_id),
            None => r is None,
        },
{
    let target = chars_of(name);
    let mut wanted: Vec<char> = Vec::new();
    let mut k: usize = 0;
    while k < target.len()
        invariant
            k <= target@.len(),
            wanted@ == ascii_lower(target@).take(k as int),
        decreases target@.len() - k,
    {
        wanted.push(lower_char(target[k]));
        k += 1;
        assert(wanted@ =~= ascii_lower(target@).take(k as int));
    }
    assert(ascii_lower(target@).take(k as int) =~= ascii_lower(target@));
    let ghost es = entries@;
    let mut i: usize = 0;
    assert(es.take(0) =~= Seq::<ProcessEntry>::empty());
    while i < entries.len()
        invariant
            es == entries@,
            target@ == name@,
            wanted@ == ascii_lower(name@),
            i <= es.len(),
            first_process(es.take(i as int), name@) is None,
        decreases es.len() - i,
    {
        assert(es.take(i + 1).drop_last() =~= es.take(i as int));
        let found = lowered_exe_name(&entries[i].exe_file);
        if same_chars(&found, &wanted) {
            proof {
                assert(es.take(i + 1).last() == es[i as int]);
                lemma_first_process_prefix(es, name@, i + 1);
            }
            return Some(entries[i].process_id);
        }
        i += 1;
    }
    assert(es.take(i as int) =~= es);
    None
}

/// The prefix `\\?\` that marks a verbatim Windows path.
pub open spec fn verbatim_prefix() -> Seq<char> {
    seq!['\\', '\\', '?', '\\']
}

/// A canonical path without its verbatim prefix, so the loader normalises it
/// as usual.
pub open spec fn loader_path_spec(path: Seq<char>) -> Seq<char> {
    if has_prefix(path, verbatim_prefix()) {
        path.skip(4)
    } else {
        path
    }
}

/// Drop a leading `\\?\` from a canonical path.
pub fn loader_path(path: &str) -> (r: String)
    ensures
        r@ == loader_path_spec(path@),
{
    let cs = chars_of(path);
    let prefix: Vec<char> = vec!['\\', '\\', '?', '\\'];
    assert(prefix@ =~= verbatim_prefix());
    if starts_with(cs.as_slice(), prefix.as_slice()) {
        let r = substring(cs.as_slice(), 4, cs.len());
        assert(cs@.subrange(4, cs@.len() as int) =~= path@.skip(4));
        r
    } else {
        substring(cs.as_slice(), 0, cs.len())
    }
}

/// UTF-16 code units of one character.
pub open spec fn utf16_units(c: char) -> Seq<u16> {
    let v = c as u32;
    if v < 0x10000 {
        seq![v as u16]
    } else {
        let w = (v - 0x10000) as u32;
        seq![(0xD800 + w / 0x400) as u16, (0xDC00 + w % 0x400) as u16]
    }
}

/// UTF-16 encoding of a character sequence.
pub open spec fn utf16(s: Seq<char>) -> Seq<u16>
    decreases s.len(),
{
    if s.len() == 0 {
        Seq::empty()
    } else {
        utf16(s.drop_last()) + utf16_units(s.last())
    }
}

/// A path whose characters all lie in the Basic Multilingual Plane is written as
/// one UTF-16 unit per character, each the character's own code; a character
/// beyond it takes two units.
pub proof fn law_wide_path_keeps_each_character(path: Seq<char>)
    ensures
        (forall|i: int| 0 <= i < path.len() ==> (path[i] as u32) < 0x10000) ==> utf16(path).len()
            == path.len() && forall|i: int|
            0 <= i < path.len() ==> #[trigger] utf16(path)[i] == (path[i] as u32) as u16,
        forall|c: char| (c as u32) >= 0x10000 ==> #[trigger] utf16_units(c).len() == 2,
    decreases path.len(),
{
    if path.len() > 0 {
        let rest = path.drop_last();
        law_wide_path_keeps_each_character(rest);
        if forall|i: int| 0 <= i < path.len() ==> (path[i] as u32) < 0x10000 {
            assert forall|i: int| 0 <= i < rest.len() implies (rest[i] as u32) < 0x10000 by {
                assert(rest[i] == path[i]);
            }
            assert forall|i: int| 0 <= i < path.len() implies #[trigger] utf16(path)[i] == (
            path[i] as u32) as u16 by {
                if i < rest.len() {
                    assert(rest[i] == path[i]);
                }
            }
        }
    }
}

/// The DLL path as the loader reads it from the target's memory: UTF-16 code
/// units followed by a terminating zero.
pub fn wide_path(path: &str) -> (w: Vec<u16>)
    ensures
        w@ == utf16(path@).push(0u16),
{
    let cs = chars_of(path);
    let mut w: Vec<u16> = Vec::new();
    let mut i: usize = 0;
    assert(cs@.take(0) =~= Seq::<char>::empty());
    while i < cs.len()
        invariant
            cs@ == path@,
            i <= cs@.len(),
            w@ == utf16(cs@.take(i as int)),
        decreases cs@.len() - i,
    {
        let v: u32 = cs[i] as u32;
        assert(cs@.take(i + 1).drop_last() =~= cs@.take(i as int));
        assert(cs@.take(i + 1).last() == cs@[i as int]);
        if v < 0x10000 {
            w.push(v as u16);
        } else {
            let x: u32 = v - 0x10000;
            w.push((0xD800 + x / 0x400) as u16);
            w.push((0xDC00 + x % 0x400) as u16);
        }
        i += 1;
        assert(w@ =~= utf16(cs@.take(i as int)));
    }
    assert(cs@.take(i as int) =~= cs@);
    w.push(0u16);
    w
}

/// The size in bytes of a wide path of `units` code units.
pub fn wide_byte_len(units: usize) -> (n: usize)
    requires
        units * 2 <= usize::MAX,
    ensures
        n == units * 2,
{
    units * 2
}

/// One step of an injection, in the order they are taken.
#[derive(Debug, Clone, Copy, PartialEq, Eq)]
pub enum InjectStep {
    /// Open the target process for thread creation and memory access.
    OpenProcess,
    /// Reserve memory in the target for the DLL path.
    Allocate,
    /// Copy the DLL path into that memory.
    WritePath,
    /// Find `kernel32.dll` in this process.
    FindKernel32,
    /// Find `LoadLibraryW` in it.
    FindLoadLibrary,
    /// Start a thread in the target that loads the DLL.
    StartThread,
    /// Wait for that thread and read its exit code.
    AwaitThread,
}

/// What to release before stopping.
#[derive(Debug, Clone, Copy, PartialEq, Eq)]
pub struct Cleanup {
    pub close_thread: bool,
    pub free_memory: bool,
    pub close_process: bool,
}

/// What follows a step.
#[derive(Debug, Clone, PartialEq, Eq)]
pub enum InjectNext {
    /// Take this step next.
    Run(InjectStep),
    /// Release what `cleanup` says and report the injection failed with `message`.
    Fail { cleanup: Cleanup, message: String },
    /// Release what `cleanup` says; the DLL is loaded.
    Finish { cleanup: Cleanup },
}

/// What an injection holds once `step` has been taken: the process handle
/// from `Allocate` on, the remote memory from `WritePath` on, the thread
/// after `AwaitThread`.
pub open spec fn held_after(step: InjectStep) -> Cleanup {
    match step {
        InjectStep::OpenProcess => Cleanup { close_thread: false, free_memory: false, close_process: false },
        InjectStep::Allocate => Cleanup { close_thread: false, free_memory: false, close_process: true },
        InjectStep::AwaitThread => Cleanup { close_thread: true, free_memory: true, close_process: true },
        _ => Cleanup { close_thread: false, free_memory: true, close_process: true },
    }
}

/// The step after `step` when it succeeds, if any.
pub open spec fn step_after(step: InjectStep) -> Option<InjectStep> {
    match step {
        InjectStep::OpenProcess => Some(InjectStep::Allocate),
        InjectStep::Allocate => Some(InjectStep::WritePath),
        InjectStep::WritePath => Some(InjectStep::FindKernel32),
        InjectStep::FindKernel32 => Some(InjectStep::FindLoadLibrary),
        InjectStep::FindLoadLibrary => Some(InjectStep::StartThread),
        InjectStep::StartThread => Some(InjectStep::AwaitThread),
        InjectStep::AwaitThread => None,
    }
}

/// The message reported when `step` fails.
pub open spec fn failure_message(step: InjectStep) -> Seq<char> {
    match step {
        InjectStep::OpenProcess => "failed to open target process"@,
        InjectStep::Allocate => "failed to allocate memory in target process"@,
        InjectStep::WritePath => "failed to write DLL path into target process memory"@,
        InjectStep::FindKernel32 => "failed to locate kernel32.dll module"@,
        InjectStep::FindLoadLibrary => "failed to resolve address of LoadLibraryW"@,
        InjectStep::StartThread => "failed to spawn remote thread in target process"@,
        InjectStep::AwaitThread => "LoadLibraryW call in target process returned failure (0)"@,
    }
}

/// What follows `step`, given whether it succeeded: the next step; or, when it
/// failed, releasing what was taken before it (everything, after the thread
/// ran) and reporting the failure; or, after the thread loaded the DLL,
/// releasing everything.
pub fn inject_next(step: InjectStep, succeeded: bool) -> (next: InjectNext)
    ensures
        !succeeded ==> (next matches InjectNext::Fail { cleanup, message } && cleanup
            == held_after(step) && message@ == failure_message(step)),
        succeeded ==> match step_after(step) {
            Some(s) => next == InjectNext::Run(s),
            None => next == InjectNext::Finish { cleanup: held_after(step) },
        },
{
    let nothing = Cleanup { close_thread: false, free_memory: false, close_process: false };
    let process = Cleanup { close_thread: false, free_memory: false, close_process: true };
    let memory = Cleanup { close_thread: false, free_memory: true, close_process: true };
    let all = Cleanup { close_thread: true, free_memory: true, close_process: true };
    if succeeded {
        match step {
            InjectStep::OpenProcess => InjectNext::Run(InjectStep::Allocate),
            InjectStep::Allocate => InjectNext::Run(InjectStep::WritePath),
            InjectStep::WritePath => InjectNext::Run(InjectStep::FindKernel32),
            InjectStep::FindKernel32 => InjectNext::Run(InjectStep::FindLoadLibrary),
            InjectStep::FindLoadLibrary => InjectNext::Run(InjectStep::StartThread),
            InjectStep::StartThread => InjectNext::Run(InjectStep::AwaitThread),
            InjectStep::AwaitThread => InjectNext::Finish { cleanup: all },
        }
    } else {
        match step {
            InjectStep::OpenProcess => InjectNext::Fail {
                cleanup: nothing,
                message: "failed to open target process".to_string(),
            },
            InjectStep::Allocate => InjectNext::Fail {
                cleanup: process,
                message: "failed to allocate memory in target process".to_string(),
            },
            InjectStep::WritePath => InjectNext::Fail {
                cleanup: memory,
                message: "failed to write DLL path into target process memory".to_string(),
            },
            InjectStep::FindKernel32 => InjectNext::Fail {
                cleanup: memory,
                message: "failed to locate kernel32.dll module".to_string(),
            },
            InjectStep::FindLoadLibrary => InjectNext::Fail {
                cleanup: memory,
                message: "failed to resolve address of LoadLibraryW".to_string(),
            },
            InjectStep::StartThread => InjectNext::Fail {
                cleanup: memory,
                message: "failed to spawn remote thread in target process".to_string(),
            },
            InjectStep::AwaitThread => InjectNext::Fail {
                cleanup: all,
                message: "LoadLibraryW call in target process returned failure (0)".to_string(),
            },
        }
    }
}

/// The place of a step in the order steps are taken.
pub open spec fn step_index(step: InjectStep) -> int {
    match step {
        InjectStep::OpenProcess => 0,
        InjectStep::Allocate => 1,
        InjectStep::WritePath => 2,
        InjectStep::FindKernel32 => 3,
        InjectStep::FindLoadLibrary => 4,
        InjectStep::StartThread => 5,
        InjectStep::AwaitThread => 6,
    }
}

/// Steps follow one another in order, and what an injection releases when it
/// stops at a step is exactly what the steps before it took: the process
/// handle once it was opened, the remote memory once it was reserved, the
/// thread once it was started.
pub proof fn law_release_what_was_taken(step: InjectStep)
    ensures
        step_after(step) matches Some(next) ==> step_index(next) == step_index(step) + 1,
        step_after(step) is None <==> step == InjectStep::AwaitThread,
        held_after(step).close_process == (step_index(step) > step_index(InjectStep::OpenProcess)),
        held_after(step).free_memory == (step_index(step) > step_index(InjectStep::Allocate)),
        held_after(step).close_thread == (step_index(step) > step_index(InjectStep::StartThread)),
{
}

/// Whether copying the path succeeded: the call reported success and wrote
/// every byte.
pub fn write_succeeded(call_ok: bool, written: usize, expected: usize) -> (b: bool)
    ensures
        b == (call_ok && written == expected),
{
    call_ok && written == expected
}

/// Whether the remote `LoadLibraryW` succeeded: its exit code could be read and
/// is not zero.
pub fn load_succeeded(exit_code_read: bool, exit_code: u32) -> (b: bool)
    ensures
        b == (exit_code_read && exit_code != 0),
{
    exit_code_read && exit_code != 0
}

/// What the watcher does after a look at the process list.
#[derive(Debug, Clone, Copy, PartialEq, Eq)]
pub enum WatchNext {
    /// The game is running under this id: inject into it.
    Inject(u32),
    /// Not yet: sleep for the interval and look again.
    Wait,
}

/// The watcher's decision on what a snapshot found.
pub fn watch_next(found: Option<u32>) -> (next: WatchNext)
    ensures
        match found {
            Some(pid) => next == WatchNext::Inject(pid),
            None => next == WatchNext::Wait,
        },
{
    match found {
        Some(pid) => WatchNext::Inject(pid),
        None => WatchNext::Wait,
    }
}

} // verus!
