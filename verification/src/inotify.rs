//! What the events of a file watch mean for the rule file and the package list.
use vstd::prelude::*;

use crate::parcel;

verus! {

/// A file that was open for writing has been closed.
pub const IN_CLOSE_WRITE: u32 = 0x8;

/// A file has come into the directory.
pub const IN_MOVED_TO: u32 = 0x80;

/// The file itself has been deleted.
pub const IN_DELETE_SELF: u32 = 0x400;

/// The file itself has been moved away.
pub const IN_MOVE_SELF: u32 = 0x800;

/// Nothing to read at the moment.
pub const EAGAIN: i32 = 11;

/// A signal came in between.
pub const EINTR: i32 = 4;

/// The bytes in front of the name in an event.
pub const HEADER: usize = 16;

/// What a watch on the rule file waits for.
pub const CONFIG_MASK: u32 = 0xC08;

/// What a watch on the package list waits for.
pub const PACKAGES_MASK: u32 = 0xC88;

/// The event says that the file has changed.
pub open spec fn is_change(mask: u32) -> bool {
    mask & 0xC08u32 != 0
}

/// The event says that there is another file in its place, or none.
pub open spec fn is_replaced(mask: u32) -> bool {
    mask & 0xC00u32 != 0
}

/// The kinds of the events in a buffer, from `p` on: each has its kind at four,
/// and at twelve the number of bytes of the name that follows.
pub open spec fn masks(b: Seq<u8>, p: int) -> Seq<u32>
    decreases b.len() - p,
{
    if p + 16 > b.len() {
        seq![]
    } else {
        let next = p + 16 + parcel::le_at(b, p + 12, 4);
        seq![parcel::le_at(b, p + 4, 4) as u32] + (if next <= b.len() {
            masks(b, next)
        } else {
            seq![]
        })
    }
}

/// The kinds of the events in a buffer.
pub fn event_masks(b: &Vec<u8>) -> (r: Vec<u32>)
    ensures
        r@ == masks(b@, 0),
{
    let n: usize = b.len();
    let mut r: Vec<u32> = Vec::new();
    let mut p: usize = 0;
    let mut go: bool = true;
    while go && n - p >= 16
        invariant
            p <= n,
            n == b.len(),
            go ==> masks(b@, 0) == r@ + masks(b@, p as int),
            !go ==> masks(b@, 0) == r@,
        decreases n - p + (if go { 1int } else { 0 }),
    {
        let mask: u32 = parcel::u32_at(b, p + 4);
        let name: u32 = parcel::u32_at(b, p + 12);
        let ghost before = r@;
        let ghost q = p + 16 + name;
        r.push(mask);
        proof {
            assert(before + (seq![mask] + masks(b@, q)) =~= r@ + masks(b@, q));
            assert(before + (seq![mask] + Seq::<u32>::empty()) =~= r@);
        }
        let rest: usize = n - p - 16;
        if rest as u64 >= name as u64 {
            p = p + 16 + name as usize;
        } else {
            go = false;
        }
    }
    proof {
        assert(r@ + Seq::<u32>::empty() =~= r@);
    }
    r
}

/// The watch on the rule file.
#[derive(Clone, Copy, Debug, PartialEq, Eq, Structural)]
pub struct Watch {
    /// Changes are reported; otherwise the file has to be looked at.
    pub supported: bool,
    pub fd: i32,
    pub wd: i32,
}

/// There is no watch.
pub open spec fn no_watch() -> Watch {
    Watch { supported: false, fd: -1i32, wd: -1i32 }
}

impl Watch {
    /// There is no watch.
    pub fn none() -> (r: Watch)
        ensures
            r == no_watch(),
    {
        Watch { supported: false, fd: -1, wd: -1 }
    }
}

/// The watch after an attempt to set one up: what opening it gave, and what
/// adding the file gave. The second result is a descriptor to close.
pub fn init_inotify(fd: i32, wd: Option<i32>) -> (r: (Watch, Option<i32>))
    ensures
        r == (if fd < 0 {
            (no_watch(), None)
        } else {
            match wd {
                Some(w) => if w >= 0 {
                    (Watch { supported: true, fd, wd: w }, None)
                } else {
                    (no_watch(), Some(fd))
                },
                None => (no_watch(), Some(fd)),
            }
        }),
{
    if fd < 0 {
        return (Watch::none(), None);
    }
    match wd {
        Some(w) => if w >= 0 {
            (Watch { supported: true, fd, wd: w }, None)
        } else {
            (Watch::none(), Some(fd))
        },
        None => (Watch::none(), Some(fd)),
    }
}

/// Gives the watch up; the descriptor to close.
pub fn disable_inotify(watch: &mut Watch) -> (fd: i32)
    ensures
        fd == old(watch).fd,
        *final(watch) == no_watch(),
{
    let fd: i32 = watch.fd;
    *watch = Watch::none();
    fd
}

/// The file has been added again, with that result: whether that worked.
/// Otherwise the watch is given up, and the second result is the descriptor to
/// close.
pub fn inotify_rewatch(watch: &mut Watch, wd: Option<i32>) -> (r: (bool, Option<i32>))
    ensures
        match wd {
            Some(w) => if w >= 0 {
                r == (true, None::<i32>) && *final(watch) == (Watch { wd: w, ..*old(watch) })
            } else {
                r == (false, Some(old(watch).fd)) && *final(watch) == no_watch()
            },
            None => r == (false, Some(old(watch).fd)) && *final(watch) == no_watch(),
        },
{
    match wd {
        Some(w) => if w >= 0 {
            watch.wd = w;
            (true, None)
        } else {
            (false, Some(disable_inotify(watch)))
        },
        None => (false, Some(disable_inotify(watch))),
    }
}

/// What has been read of the events so far.
#[derive(Clone, Copy, Debug, PartialEq, Eq, Structural)]
pub struct Drained {
    /// The file has changed.
    pub reload: bool,
    /// The file has to be added to the watch again.
    pub rewatch: bool,
}

/// Some event in a row says that the file has changed.
pub open spec fn any_change(ms: Seq<u32>) -> bool {
    exists|i: int| 0 <= i < ms.len() && is_change(#[trigger] ms[i])
}

/// Some event in a row says that there is another file in its place.
pub open spec fn any_replaced(ms: Seq<u32>) -> bool {
    exists|i: int| 0 <= i < ms.len() && is_replaced(#[trigger] ms[i])
}

/// A replaced file is a changed one.
pub proof fn replaced_is_changed(mask: u32)
    requires
        is_replaced(mask),
    ensures
        is_change(mask),
{
    assert(mask & 0xC00u32 != 0 ==> mask & 0xC08u32 != 0) by (bit_vector);
}

impl Drained {
    /// Nothing has been read.
    pub fn new() -> (r: Drained)
        ensures
            r == (Drained { reload: false, rewatch: false }),
    {
        Drained { reload: false, rewatch: false }
    }

    /// Takes up a buffer of events.
    pub fn take(&mut self, b: &Vec<u8>)
        ensures
            final(self).reload == (old(self).reload || any_change(masks(b@, 0))),
            final(self).rewatch == (old(self).rewatch || any_replaced(masks(b@, 0))),
    {
        let ms = event_masks(b);
        let mut i: usize = 0;
        while i < ms.len()
            invariant
                i <= ms.len(),
                self.reload == (old(self).reload || any_change(ms@.take(i as int))),
                self.rewatch == (old(self).rewatch || any_replaced(ms@.take(i as int))),
            decreases ms.len() - i,
        {
            let m: u32 = ms[i];
            let ghost a = ms@.take(i as int);
            let ghost b = ms@.take(i + 1);
            proof {
                assert(b[i as int] == m);
                if any_change(a) {
                    let k = choose|k: int| 0 <= k < a.len() && is_change(#[trigger] a[k]);
                    assert(b[k] == a[k]);
                }
                if any_replaced(a) {
                    let k = choose|k: int| 0 <= k < a.len() && is_replaced(#[trigger] a[k]);
                    assert(b[k] == a[k]);
                }
                if any_change(b) {
                    let k = choose|k: int| 0 <= k < b.len() && is_change(#[trigger] b[k]);
                    assert(k == i || a[k] == b[k]);
                }
                if any_replaced(b) {
                    let k = choose|k: int| 0 <= k < b.len() && is_replaced(#[trigger] b[k]);
                    assert(k == i || a[k] == b[k]);
                }
            }
            if m & 0xC08 != 0 {
                self.reload = true;
                if m & 0xC00 != 0 {
                    self.rewatch = true;
                }
            } else {
                proof {
                    if is_replaced(m) {
                        replaced_is_changed(m);
                    }
                }
            }
            i += 1;
        }
        proof {
            assert(ms@.take(i as int) =~= ms@);
        }
    }
}

/// Reading has failed: whether the watch is to be given up. It is not where
/// there was nothing to read, or a signal came in between.
pub fn read_gives_up(errno: Option<i32>) -> (r: bool)
    ensures
        r == (errno != Some(EAGAIN) && errno != Some(EINTR)),
{
    match errno {
        Some(e) => e != EAGAIN && e != EINTR,
        None => true,
    }
}

/// All events have been read: whether the rule file is to be reloaded.
/// `rewatched` is the result of adding the file again, where that was due.
pub fn inotify_drain(drained: Drained, rewatched: bool) -> (r: bool)
    ensures
        r == (drained.reload && (!drained.rewatch || rewatched)),
{
    if drained.rewatch && !rewatched {
        return false;
    }
    drained.reload
}

/// The events of the rule file, one after the other, where the file is added
/// again as soon as an event says that it has been replaced.
pub struct EventWalk {
    pub masks: Vec<u32>,
    pub next: usize,
    /// The file has changed.
    pub reload: bool,
    /// Adding the file again has failed.
    pub stopped: bool,
}

/// Where the next event stands, from `i` on, that says the file has been
/// replaced.
pub open spec fn next_replaced(ms: Seq<u32>, i: int) -> int
    decreases ms.len() - i,
{
    if i >= ms.len() {
        ms.len() as int
    } else if is_replaced(ms[i]) {
        i
    } else {
        next_replaced(ms, i + 1)
    }
}

impl EventWalk {
    /// A walk stands at an event, or at the end.
    pub open spec fn wf(self) -> bool {
        self.next <= self.masks@.len()
    }

    /// Before the first event.
    pub fn new(b: &Vec<u8>) -> (r: EventWalk)
        ensures
            r.wf(),
            r.masks@ == masks(b@, 0),
            r.next == 0,
            !r.reload,
            !r.stopped,
    {
        EventWalk { masks: event_masks(b), next: 0, reload: false, stopped: false }
    }

    /// Goes on to the next event that says the file has been replaced: whether
    /// there is one, and the file is to be added again.
    pub fn advance(&mut self) -> (r: bool)
        requires
            old(self).wf(),
        ensures
            final(self).wf(),
            final(self).masks == old(self).masks,
            final(self).stopped == old(self).stopped,
            ({
                let ms = old(self).masks@;
                let k = next_replaced(ms, old(self).next as int);
                if old(self).stopped {
                    !r && final(self).next == old(self).next && final(self).reload == old(
                        self,
                    ).reload
                } else {
                    &&& r == (k < ms.len())
                    &&& final(self).next == (if r {
                        k + 1
                    } else {
                        k
                    })
                    &&& final(self).reload == (old(self).reload || any_change(
                        ms.subrange(old(self).next as int, final(self).next as int),
                    ))
                }
            }),
    {
        if self.stopped {
            return false;
        }
        let ghost from = self.next as int;
        while self.next < self.masks.len()
            invariant
                0 <= from <= self.next <= self.masks@.len(),
                self.masks == old(self).masks,
                !self.stopped,
                !old(self).stopped,
                from == old(self).next,
                next_replaced(self.masks@, from) == next_replaced(self.masks@, self.next as int),
                self.reload == (old(self).reload || any_change(
                    self.masks@.subrange(from, self.next as int),
                )),
            decreases self.masks@.len() - self.next,
        {
            let m: u32 = self.masks[self.next];
            proof {
                let a = self.masks@.subrange(from, self.next as int);
                let b = self.masks@.subrange(from, self.next + 1);
                assert(b[self.next - from] == m);
                if any_change(a) {
                    let k = choose|k: int| 0 <= k < a.len() && is_change(#[trigger] a[k]);
                    assert(b[k] == a[k]);
                }
                if any_change(b) {
                    let k = choose|k: int| 0 <= k < b.len() && is_change(#[trigger] b[k]);
                    assert(k == self.next - from || a[k] == b[k]);
                }
                if is_replaced(m) {
                    replaced_is_changed(m);
                }
            }
            self.next = self.next + 1;
            if m & 0xC08 != 0 {
                self.reload = true;
                if m & 0xC00 != 0 {
                    return true;
                }
            }
        }
        false
    }

    /// The file has been added again, or that has failed and the rest of the
    /// events is left.
    pub fn rewatched(&mut self, ok: bool)
        ensures
            *final(self) == (EventWalk { stopped: !ok, ..*old(self) }),
    {
        self.stopped = !ok;
    }
}

/// How waiting for events has ended.
#[derive(Clone, Copy, Debug, PartialEq, Eq, Structural)]
pub enum Polled {
    /// There are events to read.
    Ready,
    /// Nothing has happened.
    Again,
    /// The watch is to be given up.
    GiveUp,
}

/// How waiting for events has ended, by the number of descriptors that are
/// ready, or by the error.
pub fn polled(ready: i32, errno: Option<i32>) -> (r: Polled)
    ensures
        r == (if ready < 0 {
            if errno == Some(EINTR) {
                Polled::Again
            } else {
                Polled::GiveUp
            }
        } else if ready == 0 {
            Polled::Again
        } else {
            Polled::Ready
        }),
{
    if ready < 0 {
        match errno {
            Some(e) => if e == EINTR {
                Polled::Again
            } else {
                Polled::GiveUp
            },
            None => Polled::GiveUp,
        }
    } else if ready == 0 {
        Polled::Again
    } else {
        Polled::Ready
    }
}

/// Reading after a wait has failed: whether the watch is to be given up. It is
/// not where there was nothing to read.
pub fn poll_read_gives_up(errno: Option<i32>) -> (r: bool)
    ensures
        r == (errno != Some(EAGAIN)),
{
    match errno {
        Some(e) => e != EAGAIN,
        None => true,
    }
}

/// An event in a buffer gives its kind, and what stands behind its name is read
/// on.
pub proof fn events_are_read(
    wd: nat,
    mask: nat,
    cookie: nat,
    name: Seq<u8>,
    rest: Seq<u8>,
)
    requires
        wd < 0x1_0000_0000,
        mask < 0x1_0000_0000,
        cookie < 0x1_0000_0000,
        name.len() < 0x1_0000_0000,
    ensures
        ({
            let e = parcel::le_bytes(wd, 4) + parcel::le_bytes(mask, 4) + parcel::le_bytes(
                cookie,
                4,
            ) + parcel::le_bytes(name.len(), 4) + name;
            masks(e + rest, 0) == seq![mask as u32] + masks(e + rest, e.len() as int)
        }),
        masks(seq![], 0) == Seq::<u32>::empty(),
{
    let a = parcel::le_bytes(wd, 4);
    let m = parcel::le_bytes(mask, 4);
    let c = parcel::le_bytes(cookie, 4);
    let n = parcel::le_bytes(name.len(), 4);
    parcel::lemma_le_bytes_len(wd, 4);
    parcel::lemma_le_bytes_len(mask, 4);
    parcel::lemma_le_bytes_len(cookie, 4);
    parcel::lemma_le_bytes_len(name.len(), 4);
    let b = a + m + c + n + name + rest;
    assert(b.subrange(4, 8) =~= m);
    assert(b.subrange(12, 16) =~= n);
    assert(parcel::past(4) == 0x1_0000_0000) by {
        reveal_with_fuel(parcel::past, 5);
    }
    parcel::number_reads_back(b, 4, mask, 4);
    parcel::number_reads_back(b, 12, name.len(), 4);
}

/// A file that was written and closed has changed; one that was deleted or moved
/// has been replaced, too. Other events say nothing of it.
pub proof fn kinds_of_events()
    ensures
        is_change(0x8) && !is_replaced(0x8),
        is_change(0x400) && is_replaced(0x400),
        is_change(0x800) && is_replaced(0x800),
        !is_change(0x2) && !is_replaced(0x2),
        !is_change(0x1) && !is_change(0x20),
{
    assert(0x8u32 & 0xC08u32 != 0 && 0x8u32 & 0xC00u32 == 0) by (bit_vector);
    assert(0x400u32 & 0xC08u32 != 0 && 0x400u32 & 0xC00u32 != 0) by (bit_vector);
    assert(0x800u32 & 0xC08u32 != 0 && 0x800u32 & 0xC00u32 != 0) by (bit_vector);
    assert(0x2u32 & 0xC08u32 == 0 && 0x2u32 & 0xC00u32 == 0) by (bit_vector);
    assert(0x1u32 & 0xC08u32 == 0 && 0x20u32 & 0xC08u32 == 0) by (bit_vector);
}

/// The next replacement is the first from there on.
pub proof fn replacements_are_met_in_order(ms: Seq<u32>, i: int)
    requires
        0 <= i <= ms.len(),
    ensures
        i <= next_replaced(ms, i) <= ms.len(),
        next_replaced(ms, i) < ms.len() ==> is_replaced(ms[next_replaced(ms, i)]),
        forall|j: int| i <= j < next_replaced(ms, i) ==> !is_replaced(#[trigger] ms[j]),
    decreases ms.len() - i,
{
    if i < ms.len() && !is_replaced(ms[i]) {
        replacements_are_met_in_order(ms, i + 1);
    }
}

} // verus!
