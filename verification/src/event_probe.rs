//! What the thread does that watches for touches and for processes that end.
use std::collections::HashMap;
use vstd::prelude::*;

use crate::number;
use crate::parcel;
use crate::text;

verus! {

broadcast use {vstd::string::group_string_axioms, vstd::std_specs::hash::group_hash_axioms};

/// The mark of an event on the control channel.
pub const TAG_CTRL: u64 = 0xFFFF_FFFF_FFFF_FFFF;

/// The mark of an event of the touch screen.
pub const TAG_TOUCH: u64 = 0xFFFF_FFFF_FFFF_FFFE;

/// For so many nanoseconds after a touch no further one is listened for.
pub const TOUCH_THROTTLE: u64 = 2_000_000_000;

/// The longest time, in milliseconds, that is waited while touches are held
/// back.
pub const MAX_WAIT_MS: u64 = 2000;

/// How many input devices are looked at.
pub const INPUT_DEVICES: usize = 32;

/// The name of an input device, as in `event5`; empty where there is none.
pub fn touch_event_name(event: i32) -> (r: String)
    ensures
        r@ == (if event >= 0 {
            "event"@ + number::dec_int(event as int)
        } else {
            Seq::<char>::empty()
        }),
{
    let mut r = String::new();
    proof {
        assert(r@ =~= Seq::<char>::empty());
    }
    if event >= 0 {
        r.append("event");
        number::push_i32(&mut r, event);
        proof {
            assert(r@ =~= "event"@ + number::dec_int(event as int));
        }
    }
    r
}

/// Bit `k` of a number.
pub open spec fn bit(x: u64, k: u64) -> bool {
    (x >> k) & 1 == 1
}

/// The first word of a text as a hexadecimal number; zero where it is none.
pub open spec fn hex_word(s: Seq<char>, i: int) -> u64 {
    if i < text::words(s).len() {
        match number::hexadecimal(text::words(s)[i]) {
            Some(n) => n as u64,
            None => 0,
        }
    } else {
        0
    }
}

/// Reads the word with that number as a hexadecimal number.
pub fn hex_word_of(words: &Vec<&str>, i: usize) -> (r: u64)
    ensures
        r == (if i < words@.len() {
            match number::hexadecimal(words@[i as int]@) {
                Some(n) => n as u64,
                None => 0,
            }
        } else {
            0
        }),
{
    if i < words.len() {
        match number::parse_hex(words[i]) {
            Some(n) => n,
            None => 0,
        }
    } else {
        0
    }
}

/// Whether a device with those axes is a touch screen: it reports the place of
/// several fingers.
pub fn is_touch_abs(abs: &str) -> (r: bool)
    ensures
        r == bit(hex_word(abs@, 0), 0x35),
{
    let words = text::split_whitespace(abs);
    let w: u64 = hex_word_of(&words, 0);
    proof {
        if words@.len() > 0 {
            assert(text::views(words@)[0] == words@[0]@);
        }
        assert(w == hex_word(abs@, 0));
        assert((w & (1u64 << 0x35u64) != 0) == ((w >> 0x35u64) & 1 == 1)) by (bit_vector);
    }
    (w & (1u64 << 0x35u64)) != 0
}

/// The path of an input device.
pub open spec fn device_path(i: int) -> Seq<char> {
    "/dev/input/event"@ + number::dec_int(i)
}

pub(crate) fn path_of(i: i32) -> (r: String)
    ensures
        r@ == device_path(i as int),
{
    let mut r = String::from_str("/dev/input/event");
    number::push_i32(&mut r, i);
    r
}

/// The first device in a row that is a touch screen; those without an entry
/// cannot be asked.
pub open spec fn first_touch(found: Seq<bool>, i: int) -> int
    decreases found.len() - i,
{
    if i >= found.len() {
        found.len() as int
    } else if found[i] {
        i
    } else {
        first_touch(found, i + 1)
    }
}

/// Which of the devices are touch screens.
pub open spec fn touch_flags(abs: Seq<Option<String>>) -> Seq<bool> {
    abs.map_values(
        |a: Option<String>|
            match a {
                Some(t) => bit(hex_word(t@, 0), 0x35),
                None => false,
            },
    )
}

/// The device to listen to: the first touch screen, else the first device if
/// there is one.
pub fn event_for_touch(abs: &Vec<Option<String>>, has_first: bool) -> (r: Option<(i32, String)>)
    requires
        abs.len() <= INPUT_DEVICES,
    ensures
        ({
            let k = first_touch(touch_flags(abs@), 0);
            match r {
                Some((i, p)) => p@ == device_path(i as int) && (if k < abs@.len() {
                    i == k
                } else {
                    i == 0 && has_first
                }),
                None => k == abs@.len() && !has_first,
            }
        }),
{
    let mut i: usize = 0;
    while i < abs.len()
        invariant
            i <= abs.len(),
            abs.len() <= INPUT_DEVICES,
            first_touch(touch_flags(abs@), 0) == first_touch(touch_flags(abs@), i as int),
        decreases abs.len() - i,
    {
        let hit: bool = match &abs[i] {
            Some(t) => is_touch_abs(t.as_str()),
            None => false,
        };
        assert(hit == touch_flags(abs@)[i as int]);
        if hit {
            return Some((i as i32, path_of(i as i32)));
        }
        i += 1;
    }
    if has_first {
        Some((0, path_of(0)))
    } else {
        None
    }
}

/// The processes whose end is waited for, with the descriptor of each.
pub struct Watched {
    pub fds: HashMap<i32, i32>,
}

/// The process that an event of the wait set stands for.
pub open spec fn tag_pid(tag: u64) -> int {
    parcel::signed32((tag % 0x1_0000_0000) as nat)
}

impl Watched {
    /// Nothing is waited for.
    pub fn new() -> (r: Watched)
        ensures
            r.fds@ == Map::<i32, i32>::empty(),
    {
        Watched { fds: HashMap::new() }
    }

    /// Whether the end of `pid` is to be waited for now: it is a process, it is
    /// not waited for yet, and the wait set is `ready`.
    pub fn watch(&self, pid: i32, ready: bool) -> (r: bool)
        ensures
            r == (pid > 0 && !self.fds@.contains_key(pid) && ready),
    {
        pid > 0 && !self.fds.contains_key(&pid) && ready
    }

    /// The end of `pid` is waited for with that descriptor.
    pub fn added(&mut self, pid: i32, fd: i32)
        ensures
            final(self).fds@ == old(self).fds@.insert(pid, fd),
    {
        self.fds.insert(pid, fd);
    }

    /// An event with that mark: the process that has ended, and the descriptor
    /// to close.
    pub fn ended(&mut self, tag: u64) -> (r: Option<(i32, Option<i32>)>)
        ensures
            match r {
                Some((pid, fd)) => pid == tag_pid(tag) && pid > 0 && final(self).fds@ == old(
                    self,
                ).fds@.remove(pid) && fd == (if old(self).fds@.contains_key(pid) {
                    Some(old(self).fds@[pid])
                } else {
                    None
                }),
                None => tag_pid(tag) <= 0 && final(self).fds@ == old(self).fds@,
            },
    {
        let pid: i32 = parcel::signed_of((tag % 0x1_0000_0000) as u32);
        if pid <= 0 {
            return None;
        }
        let fd = self.fds.remove(&pid);
        Some((pid, fd))
    }
}

/// The state of the probe.
pub struct EventProbe {
    /// There is a touch screen.
    pub touch: bool,
    /// The touch screen is listened to.
    pub listening: bool,
    /// Until when touches are held back.
    pub throttle_until: Option<u64>,
    /// There was a touch among the events at hand.
    pub activity: bool,
    pub watched: Watched,
}

/// What an event asks for.
#[derive(Clone, Copy, Debug, PartialEq, Eq, Structural)]
pub enum ProbeAction {
    Nothing,
    /// Listen to the touch screen; whether that works is reported.
    Listen,
    /// Listen to the touch screen no more.
    Unlisten,
    /// Read what the touch screen has to say, and drop it.
    Drain,
    /// A process has ended: report it, and close that descriptor.
    Ended(i32, Option<i32>),
}

/// What the end of a row of events asks for.
#[derive(Clone, Copy, Debug, PartialEq, Eq, Structural)]
pub struct BatchEnd {
    /// Report a touch.
    pub notify: bool,
    /// Listen to the touch screen no more.
    pub unlisten: bool,
}

/// How long to wait for events, in milliseconds, while touches are held back;
/// negative without end.
pub open spec fn wait_of(throttle_until: Option<u64>, now: u64) -> int {
    match throttle_until {
        Some(t) => {
            let ms = if t <= now {
                0
            } else {
                (t - now) / 1_000_000
            };
            if ms <= MAX_WAIT_MS {
                ms
            } else {
                MAX_WAIT_MS as int
            }
        },
        None => -1,
    }
}

/// What an event does to the probe, and what it asks for.
pub open spec fn is_event(
    before: EventProbe,
    tag: u64,
    cmd: u8,
    after: EventProbe,
    r: ProbeAction,
) -> bool {
    &&& tag == TAG_CTRL ==> {
        &&& r == (if cmd == 1 && !before.listening && before.touch {
            ProbeAction::Listen
        } else if cmd != 1 && before.listening {
            ProbeAction::Unlisten
        } else {
            ProbeAction::Nothing
        })
        &&& after == (EventProbe {
            listening: before.listening && r != ProbeAction::Unlisten,
            ..before
        })
    }
    &&& tag == TAG_TOUCH ==> {
        &&& r == ProbeAction::Drain
        &&& after == (EventProbe { activity: true, ..before })
    }
    &&& tag != TAG_CTRL && tag != TAG_TOUCH ==> {
        let pid = tag_pid(tag) as i32;
        &&& after.touch == before.touch
        &&& after.listening == before.listening
        &&& after.throttle_until == before.throttle_until
        &&& after.activity == before.activity
        &&& tag_pid(tag) <= 0 ==> r == ProbeAction::Nothing && after.watched.fds@
            == before.watched.fds@
        &&& tag_pid(tag) > 0 ==> after.watched.fds@ == before.watched.fds@.remove(pid) && r
            == ProbeAction::Ended(
            pid,
            if before.watched.fds@.contains_key(pid) {
                Some(before.watched.fds@[pid])
            } else {
                None
            },
        )
    }
}

/// What the end of a row of events does to the probe, and what it asks for.
pub open spec fn is_batch_end(
    before: EventProbe,
    now: u64,
    after: EventProbe,
    r: BatchEnd,
) -> bool {
    &&& r.notify == before.activity
    &&& r.unlisten == (before.activity && before.listening)
    &&& before.activity ==> after == (EventProbe {
        activity: false,
        listening: false,
        throttle_until: Some((now + TOUCH_THROTTLE) as u64),
        ..before
    })
    &&& !before.activity ==> after == before
}

impl EventProbe {
    /// The state at the start.
    pub fn new(touch: bool) -> (r: EventProbe)
        ensures
            r.touch == touch,
            !r.listening,
            r.throttle_until is None,
            !r.activity,
            r.watched.fds@ == Map::<i32, i32>::empty(),
    {
        EventProbe {
            touch,
            listening: false,
            throttle_until: None,
            activity: false,
            watched: Watched::new(),
        }
    }

    /// Whether to try and listen to the touch screen, at the start.
    pub fn start(&self, enabled: bool) -> (r: bool)
        ensures
            r == (self.touch && enabled),
    {
        self.touch && enabled
    }

    /// How long to wait for events, in milliseconds; negative without end.
    pub fn wait(&self, now: u64) -> (r: i32)
        ensures
            r == wait_of(self.throttle_until, now),
    {
        match self.throttle_until {
            Some(t) => {
                let ms: u64 = if t <= now {
                    0
                } else {
                    (t - now) / 1_000_000
                };
                if ms <= MAX_WAIT_MS {
                    ms as i32
                } else {
                    MAX_WAIT_MS as i32
                }
            },
            None => -1,
        }
    }

    /// No event came in that time: whether to try and listen to the touch
    /// screen again.
    pub fn idle(&mut self, enabled: bool) -> (r: bool)
        ensures
            *final(self) == (EventProbe { throttle_until: None, ..*old(self) }),
            r == (old(self).touch && enabled && !old(self).listening),
    {
        self.throttle_until = None;
        self.touch && enabled && !self.listening
    }

    /// Whether listening to the touch screen has worked.
    pub fn listens(&mut self, worked: bool)
        ensures
            *final(self) == (EventProbe { listening: worked, ..*old(self) }),
    {
        self.listening = worked;
    }

    /// An event; `cmd` is the byte read from the control channel, one for
    /// listening.
    pub fn event(&mut self, tag: u64, cmd: u8) -> (r: ProbeAction)
        ensures
            is_event(*old(self), tag, cmd, *final(self), r),
    {
        if tag == TAG_CTRL {
            let want: bool = cmd == 1;
            if want && !self.listening && self.touch {
                ProbeAction::Listen
            } else if !want && self.listening {
                self.listening = false;
                ProbeAction::Unlisten
            } else {
                ProbeAction::Nothing
            }
        } else if tag == TAG_TOUCH {
            self.activity = true;
            ProbeAction::Drain
        } else {
            match self.watched.ended(tag) {
                Some((pid, fd)) => ProbeAction::Ended(pid, fd),
                None => ProbeAction::Nothing,
            }
        }
    }

    /// All events at hand have been looked at. After a touch the screen is not
    /// listened to for a while.
    pub fn batch_end(&mut self, now: u64) -> (r: BatchEnd)
        requires
            now + TOUCH_THROTTLE <= u64::MAX,
        ensures
            is_batch_end(*old(self), now, *final(self), r),
    {
        if !self.activity {
            return BatchEnd { notify: false, unlisten: false };
        }
        let unlisten: bool = self.listening;
        self.activity = false;
        self.listening = false;
        self.throttle_until = Some(now + TOUCH_THROTTLE);
        BatchEnd { notify: true, unlisten }
    }
}

/// A touch is reported once, and then the screen is not listened to for two
/// seconds: that long is waited, and no longer.
pub proof fn touches_are_reported_and_then_held_back(
    a: EventProbe,
    b: EventProbe,
    c: EventProbe,
    r: ProbeAction,
    end: BatchEnd,
    cmd: u8,
    now: u64,
    later: u64,
)
    requires
        is_event(a, 0xFFFF_FFFF_FFFF_FFFE, cmd, b, r),
        is_batch_end(b, now, c, end),
        now + 2_000_000_000 <= u64::MAX,
        now <= later,
    ensures
        r == ProbeAction::Drain,
        end.notify,
        end.unlisten == a.listening,
        !c.listening && !c.activity,
        c.throttle_until == Some((now + 2_000_000_000) as u64),
        wait_of(c.throttle_until, now) == 2000,
        later - now < 2_000_000_000 ==> wait_of(c.throttle_until, later) == (2_000_000_000 - (later
            - now)) / 1_000_000,
        later - now >= 2_000_000_000 ==> wait_of(c.throttle_until, later) == 0,
        wait_of(None, now) == -1,
        c.watched == a.watched,
{
}

/// The end of a process that is waited for is reported, with the descriptor that
/// it was waited for with, and it is waited for no longer; others still are.
pub proof fn ended_processes_are_reported(
    a: EventProbe,
    b: EventProbe,
    r: ProbeAction,
    cmd: u8,
    pid: i32,
    other: i32,
)
    requires
        pid > 0,
        other != pid,
        is_event(a, pid as u64, cmd, b, r),
        a.watched.fds@.contains_key(pid),
    ensures
        r == ProbeAction::Ended(pid, Some(a.watched.fds@[pid])),
        !b.watched.fds@.contains_key(pid),
        b.watched.fds@.contains_key(other) == a.watched.fds@.contains_key(other),
        b.listening == a.listening,
{
    assert(pid as u64 % 0x1_0000_0000 == pid);
    assert(tag_pid(pid as u64) == pid);
}

/// The screen is listened to when that is asked for and there is one, and no more
/// when it is asked to stop.
pub proof fn listening_follows_the_requests(
    a: EventProbe,
    b: EventProbe,
    r: ProbeAction,
    cmd: u8,
)
    requires
        is_event(a, 0xFFFF_FFFF_FFFF_FFFF, cmd, b, r),
    ensures
        cmd == 1 && a.touch && !a.listening ==> r == ProbeAction::Listen,
        cmd == 0 && a.listening ==> r == ProbeAction::Unlisten && !b.listening,
        cmd == 1 && a.listening ==> r == ProbeAction::Nothing && b.listening,
        cmd == 0 && !a.listening ==> r == ProbeAction::Nothing,
        b.activity == a.activity,
{
}

/// The device to listen to is the first that is a touch screen.
pub proof fn first_touch_screens_are_taken(found: Seq<bool>, i: int)
    requires
        0 <= i <= found.len(),
    ensures
        i <= first_touch(found, i) <= found.len(),
        first_touch(found, i) < found.len() ==> found[first_touch(found, i)],
        forall|j: int| i <= j < first_touch(found, i) ==> !#[trigger] found[j],
    decreases found.len() - i,
{
    if i < found.len() && !found[i] {
        first_touch_screens_are_taken(found, i + 1);
    }
}

} // verus!
