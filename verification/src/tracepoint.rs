//! What the probes at the scheduler's trace points report of threads that are
//! made, renamed, replaced or ended.
use vstd::prelude::*;

use crate::parcel;

verus! {

/// A thread has been made.
pub const EVENT_FORK: u32 = 1;

/// A thread runs another program.
pub const EVENT_EXEC: u32 = 2;

/// A thread has another name.
pub const EVENT_RENAME: u32 = 3;

/// A thread has ended.
pub const EVENT_EXIT: u32 = 4;

/// Where the fields of the trace points lie, which differs from kernel to
/// kernel.
#[derive(Clone, Copy, Debug, PartialEq, Eq, Structural)]
pub struct TracepointOffsets {
    pub fork_child_pid: u32,
    pub fork_child_comm: u32,
    pub rename_newcomm: u32,
}

/// What is reported.
#[derive(Clone, Copy)]
pub struct ProcEvent {
    pub pid: i32,
    pub tid: i32,
    pub comm: [u8; 16],
    pub event_type: u32,
}

/// What is known of a thread when one is made or runs another program.
#[derive(Clone, Copy)]
pub struct EventMeta {
    pub pid: i32,
    pub tid: i32,
    pub comm: [u8; 16],
    pub parent_tid: u32,
    pub parent_tgid: u32,
}

/// The thread in the two halves of what the kernel says of the current one.
pub open spec fn thread_half(pid_tgid: u64) -> nat {
    (pid_tgid % 0x1_0000_0000) as nat
}

/// The process in the two halves of what the kernel says of the current thread.
pub open spec fn process_half(pid_tgid: u64) -> nat {
    (pid_tgid / 0x1_0000_0000) as nat
}

/// The offsets, once they have been set: before that the first is zero.
pub fn offsets_load(o: Option<TracepointOffsets>) -> (r: Option<TracepointOffsets>)
    ensures
        r == (match o {
            Some(x) => if x.fork_child_pid != 0 {
                Some(x)
            } else {
                None
            },
            None => None,
        }),
{
    match o {
        Some(x) => if x.fork_child_pid != 0 {
            Some(x)
        } else {
            None
        },
        None => None,
    }
}

/// The eight bytes of a name from `p` on are one of the keys.
pub open spec fn window_listed(comm: Seq<u8>, p: int, targets: Seq<[u8; 8]>) -> bool {
    exists|k: int| 0 <= k < targets.len() && comm.subrange(p, p + 8) == (#[trigger] targets[k])@
}

/// Some eight bytes of a name are one of the keys.
pub open spec fn name_listed(comm: Seq<u8>, targets: Seq<[u8; 8]>) -> bool {
    exists|p: int| 0 <= p <= 8 && #[trigger] window_listed(comm, p, targets)
}

fn window_is(comm: &[u8; 16], p: usize, key: &[u8; 8]) -> (r: bool)
    requires
        p <= 8,
    ensures
        r == (comm@.subrange(p as int, p + 8) == key@),
{
    let mut i: usize = 0;
    while i < 8
        invariant
            i <= 8,
            p <= 8,
            forall|j: int| 0 <= j < i ==> comm@[p + j] == #[trigger] key@[j],
        decreases 8 - i,
    {
        if comm[p + i] != key[i] {
            assert(comm@.subrange(p as int, p + 8)[i as int] == comm@[p + i]);
            return false;
        }
        i += 1;
    }
    assert(comm@.subrange(p as int, p + 8) =~= key@);
    true
}

/// Whether some eight bytes of a name are one of the keys.
pub fn whitelist_matched(comm: &[u8; 16], targets: &Vec<[u8; 8]>) -> (r: bool)
    ensures
        r == name_listed(comm@, targets@),
{
    let mut p: usize = 0;
    while p <= 8
        invariant
            p <= 9,
            forall|q: int| 0 <= q < p ==> !#[trigger] window_listed(comm@, q, targets@),
        decreases 9 - p,
    {
        let mut k: usize = 0;
        while k < targets.len()
            invariant
                p <= 8,
                k <= targets.len(),
                forall|j: int|
                    0 <= j < k ==> comm@.subrange(p as int, p + 8) != (#[trigger] targets@[j])@,
            decreases targets.len() - k,
        {
            if window_is(comm, p, &targets[k]) {
                assert(comm@.subrange(p as int, p + 8) == targets@[k as int]@);
                assert(window_listed(comm@, p as int, targets@));
                return true;
            }
            k += 1;
        }
        assert(!window_listed(comm@, p as int, targets@));
        p += 1;
    }
    false
}

/// A name of zeros.
pub open spec fn no_name() -> Seq<u8> {
    Seq::new(16, |i: int| 0u8)
}

fn name_or_zeros(comm: Option<[u8; 16]>) -> (r: [u8; 16])
    ensures
        r@ == (match comm {
            Some(c) => c@,
            None => no_name(),
        }),
{
    match comm {
        Some(c) => c,
        None => {
            let z: [u8; 16] = [0u8; 16];
            assert(z@ =~= no_name());
            z
        },
    }
}

/// What is known of a thread that has just been made. Its process is that of
/// its parent.
pub fn fork_parse(pid_tgid: u64, child_pid: Option<i32>, child_comm: Option<[u8; 16]>) -> (r:
    EventMeta)
    ensures
        r.pid == parcel::signed32(process_half(pid_tgid)),
        r.tid == (match child_pid {
            Some(p) => p,
            None => 0,
        }),
        r.comm@ == (match child_comm {
            Some(c) => c@,
            None => no_name(),
        }),
        r.parent_tid == thread_half(pid_tgid),
        r.parent_tgid == process_half(pid_tgid),
{
    let tid: u32 = (pid_tgid % 0x1_0000_0000) as u32;
    let tgid: u32 = (pid_tgid / 0x1_0000_0000) as u32;
    EventMeta {
        pid: parcel::signed_of(tgid),
        tid: match child_pid {
            Some(p) => p,
            None => 0,
        },
        comm: name_or_zeros(child_comm),
        parent_tid: tid,
        parent_tgid: tgid,
    }
}

/// What is known of a thread that runs another program.
pub fn exec_parse(pid_tgid: u64, comm: Option<[u8; 16]>) -> (r: EventMeta)
    ensures
        r.pid == parcel::signed32(process_half(pid_tgid)),
        r.tid == parcel::signed32(thread_half(pid_tgid)),
        r.comm@ == (match comm {
            Some(c) => c@,
            None => no_name(),
        }),
        r.parent_tid == 0,
        r.parent_tgid == 0,
{
    EventMeta {
        pid: parcel::signed_of((pid_tgid / 0x1_0000_0000) as u32),
        tid: parcel::signed_of((pid_tgid % 0x1_0000_0000) as u32),
        comm: name_or_zeros(comm),
        parent_tid: 0,
        parent_tgid: 0,
    }
}

/// The thread whose place decides whether an event is reported without a look
/// at the name: the parent of a new thread, else the thread itself.
pub fn lookup_key(meta: &EventMeta, event_type: u32) -> (r: u32)
    ensures
        r == (if event_type == EVENT_FORK {
            meta.parent_tid as nat
        } else {
            parcel::bits32(meta.tid as int)
        }),
{
    if event_type == EVENT_FORK {
        meta.parent_tid
    } else {
        parcel::bits_of(meta.tid)
    }
}

/// The report is that of the thread, and the mark that of a new thread that is
/// reported.
pub open spec fn is_report(
    meta: EventMeta,
    event_type: u32,
    placed: bool,
    listed: bool,
    report: Option<ProcEvent>,
    mark: Option<u32>,
) -> bool {
    &&& report is Some == (placed || listed)
    &&& report matches Some(e) ==> e.pid == meta.pid && e.tid == meta.tid && e.comm@ == meta.comm@
        && e.event_type == event_type
    &&& match mark {
        Some(t) => event_type == EVENT_FORK && (placed || listed) && t == parcel::bits32(
            meta.tid as int,
        ),
        None => !(event_type == EVENT_FORK && (placed || listed)),
    }
}

/// A thread is reported if it has been placed or its name is on the list, with
/// its own numbers and name; of the threads that are reported the new ones are
/// marked, under their own number.
pub proof fn placed_and_listed_threads_are_reported(
    meta: EventMeta,
    event_type: u32,
    placed: bool,
    listed: bool,
    report: Option<ProcEvent>,
    mark: Option<u32>,
)
    requires
        is_report(meta, event_type, placed, listed, report, mark),
    ensures
        placed ==> report is Some,
        listed ==> report is Some,
        !placed && !listed ==> report is None && mark is None,
        report matches Some(e) ==> e.tid == meta.tid && e.pid == meta.pid,
        event_type == 1 && report is Some && meta.tid >= 0 ==> mark == Some(meta.tid as u32),
        event_type != 1 ==> mark is None,
{
}

/// A name is on the list if it holds one of the keys, at whatever place.
pub proof fn names_with_keys_are_listed(
    comm: Seq<u8>,
    targets: Seq<[u8; 8]>,
    p: int,
    k: int,
)
    requires
        comm.len() == 16,
        0 <= p <= 8,
        0 <= k < targets.len(),
        forall|i: int| 0 <= i < 8 ==> comm[p + i] == #[trigger] targets[k]@[i],
    ensures
        name_listed(comm, targets),
{
    assert(comm.subrange(p, p + 8) =~= targets[k]@);
    assert(window_listed(comm, p, targets));
}

/// What is reported of a thread, and which thread is marked as placed so that
/// its next name is reported, too: a new thread that is reported. `placed` tells whether the deciding thread
/// has been placed, `listed` whether the name is on the list.
pub fn report_named_event(meta: &EventMeta, event_type: u32, placed: bool, listed: bool) -> (r: (
    Option<ProcEvent>,
    Option<u32>,
))
    ensures
        is_report(*meta, event_type, placed, listed, r.0, r.1),
{
    if !placed && !listed {
        return (None, None);
    }
    let mark: Option<u32> = if event_type == EVENT_FORK {
        Some(parcel::bits_of(meta.tid))
    } else {
        None
    };
    (Some(ProcEvent { pid: meta.pid, tid: meta.tid, comm: meta.comm, event_type }), mark)
}

/// The event of the current thread.
fn own_event(pid_tgid: u64, comm: [u8; 16], event_type: u32) -> (r: ProcEvent)
    ensures
        r.pid == parcel::signed32(process_half(pid_tgid)),
        r.tid == parcel::signed32(thread_half(pid_tgid)),
        r.comm@ == comm@,
        r.event_type == event_type,
{
    ProcEvent {
        pid: parcel::signed_of((pid_tgid / 0x1_0000_0000) as u32),
        tid: parcel::signed_of((pid_tgid % 0x1_0000_0000) as u32),
        comm,
        event_type,
    }
}

/// What is reported of a thread that gets another name: nothing of the idle
/// thread, nothing before the offsets are set, and otherwise what is placed or
/// has a name on the list.
pub fn task_rename(
    pid_tgid: u64,
    offsets: Option<TracepointOffsets>,
    new_comm: [u8; 16],
    placed: bool,
    listed: bool,
) -> (r: Option<ProcEvent>)
    ensures
        r is Some == (thread_half(pid_tgid) != 0 && (offsets matches Some(o) && o.fork_child_pid
            != 0) && (placed || listed)),
        r matches Some(e) ==> e.pid == parcel::signed32(process_half(pid_tgid)) && e.tid
            == parcel::signed32(thread_half(pid_tgid)) && e.comm@ == new_comm@ && e.event_type
            == EVENT_RENAME,
{
    if pid_tgid % 0x1_0000_0000 == 0 {
        return None;
    }
    if offsets_load(offsets).is_none() {
        return None;
    }
    if !placed && !listed {
        return None;
    }
    Some(own_event(pid_tgid, new_comm, EVENT_RENAME))
}

/// What is reported of a thread that ends: only what has been placed, which
/// then counts as placed no more.
pub fn sched_process_exit(pid_tgid: u64, placed: bool) -> (r: Option<ProcEvent>)
    ensures
        r is Some == placed,
        r matches Some(e) ==> e.pid == parcel::signed32(process_half(pid_tgid)) && e.tid
            == parcel::signed32(thread_half(pid_tgid)) && e.comm@ == no_name() && e.event_type
            == EVENT_EXIT,
{
    if !placed {
        return None;
    }
    Some(own_event(pid_tgid, name_or_zeros(None), EVENT_EXIT))
}

} // verus!
