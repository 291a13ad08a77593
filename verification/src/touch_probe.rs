//! A probe for touches alone.
use vstd::prelude::*;

use crate::event_probe;
use crate::text;

verus! {

broadcast use vstd::string::group_string_axioms;

/// The mark of an event of the touch screen.
pub const TAG_TOUCH: u64 = 1;

/// The mark of an event on the control channel.
pub const TAG_CTRL: u64 = 2;

/// For so many milliseconds after a touch nothing is read.
pub const PAUSE_MS: u64 = 2000;

/// A device with those axes is a touch screen: it reports the place of several
/// fingers, or of one. The axes stand in one word of 64 bits or in two of 32.
pub open spec fn is_touch_screen(abs: Seq<char>) -> bool {
    let w0 = event_probe::hex_word(abs, 0);
    let w1 = event_probe::hex_word(abs, 1);
    event_probe::bit(w0, 0x35) || event_probe::bit(w1, 0x15) || event_probe::bit(w0, 0)
        || event_probe::bit(w0, 1)
}

/// Whether a device with those axes is a touch screen.
pub fn is_touch_abs(abs: &str) -> (r: bool)
    ensures
        r == is_touch_screen(abs@),
{
    let words = text::split_whitespace(abs);
    let w0: u64 = event_probe::hex_word_of(&words, 0);
    let w1: u64 = event_probe::hex_word_of(&words, 1);
    let mask: u64 = w0 | (w1 << 32u64);
    proof {
        if words@.len() > 0 {
            assert(text::views(words@)[0] == words@[0]@);
        }
        if words@.len() > 1 {
            assert(text::views(words@)[1] == words@[1]@);
        }
        assert(w0 == event_probe::hex_word(abs@, 0));
        assert(w1 == event_probe::hex_word(abs@, 1));
        assert((mask & (1u64 << 0x35u64) != 0) == ((w0 >> 0x35u64) & 1 == 1 || (w1 >> 0x15u64) & 1
            == 1)) by (bit_vector)
            requires
                mask == w0 | (w1 << 32u64),
        ;
        assert((mask & 3 != 0) == ((w0 >> 0u64) & 1 == 1 || (w0 >> 1u64) & 1 == 1)) by (bit_vector)
            requires
                mask == w0 | (w1 << 32u64),
        ;
    }
    (mask & (1u64 << 0x35u64)) != 0 || (mask & 3) != 0
}

/// Which of the devices are touch screens.
pub open spec fn touch_flags(abs: Seq<Option<String>>) -> Seq<bool> {
    abs.map_values(
        |a: Option<String>|
            match a {
                Some(t) => is_touch_screen(t@),
                None => false,
            },
    )
}

/// The device to listen to, with its path: the first touch screen, else the
/// first device if there is one. `abs` holds the axes of the devices, as far as
/// they could be read.
pub fn event_for_touch(abs: &Vec<Option<String>>, has_first: bool) -> (r: Option<(i32, String)>)
    requires
        abs.len() <= event_probe::INPUT_DEVICES,
    ensures
        ({
            let k = event_probe::first_touch(touch_flags(abs@), 0);
            match r {
                Some((i, p)) => p@ == event_probe::device_path(i as int) && (if k < abs@.len() {
                    i == k
                } else {
                    i == 0 && has_first
                }),
                None => k == abs@.len() && !has_first,
            }
        }),
{
    let mut i: usize = 0;
    while i < abs.len()
        invariant
            i <= abs.len(),
            abs.len() <= event_probe::INPUT_DEVICES,
            event_probe::first_touch(touch_flags(abs@), 0) == event_probe::first_touch(
                touch_flags(abs@),
                i as int,
            ),
        decreases abs.len() - i,
    {
        let hit: bool = match &abs[i] {
            Some(t) => is_touch_abs(t.as_str()),
            None => false,
        };
        assert(hit == touch_flags(abs@)[i as int]);
        if hit {
            return Some((i as i32, event_probe::path_of(i as i32)));
        }
        i += 1;
    }
    if has_first {
        Some((0, event_probe::path_of(0)))
    } else {
        None
    }
}

/// The state of the probe.
pub struct TouchProbe {
    /// The touch screen is listened to.
    pub listening: bool,
    /// What is shown of it.
    pub shown: bool,
    /// There was a touch among the events at hand.
    pub activity: bool,
}

/// What an event asks for.
#[derive(Clone, Copy, Debug, PartialEq, Eq, Structural)]
pub enum TouchAction {
    Nothing,
    /// Listen to the touch screen; whether that works is reported.
    Listen,
    /// Listen to the touch screen no more.
    Unlisten,
    /// Read what the touch screen has to say, and drop it.
    Drain,
}

impl TouchProbe {
    /// The state once the touch screen has been opened; `worked` tells whether
    /// listening to it has worked, if it is `enabled`.
    pub fn new(enabled: bool, worked: bool) -> (r: TouchProbe)
        ensures
            r == (TouchProbe { listening: enabled && worked, shown: true, activity: false }),
    {
        TouchProbe { listening: enabled && worked, shown: true, activity: false }
    }

    /// An event; `cmd` is the byte read from the control channel, one for
    /// listening.
    pub fn event(&mut self, tag: u64, cmd: u8) -> (r: TouchAction)
        ensures
            tag == TAG_CTRL ==> r == (if cmd == 1 && !old(self).listening {
                TouchAction::Listen
            } else if cmd != 1 && old(self).listening {
                TouchAction::Unlisten
            } else {
                TouchAction::Nothing
            }),
            tag != TAG_CTRL ==> r == TouchAction::Drain,
            *final(self) == (match r {
                TouchAction::Unlisten => TouchProbe { listening: false, shown: false, ..*old(self) },
                TouchAction::Drain => TouchProbe { activity: true, ..*old(self) },
                _ => *old(self),
            }),
    {
        if tag == TAG_CTRL {
            let want: bool = cmd == 1;
            if want && !self.listening {
                TouchAction::Listen
            } else if !want && self.listening {
                self.listening = false;
                self.shown = false;
                TouchAction::Unlisten
            } else {
                TouchAction::Nothing
            }
        } else {
            self.activity = true;
            TouchAction::Drain
        }
    }

    /// Whether listening to the touch screen has worked.
    pub fn listens(&mut self, worked: bool)
        ensures
            *final(self) == (if worked {
                TouchProbe { listening: true, shown: true, ..*old(self) }
            } else {
                *old(self)
            }),
    {
        if worked {
            self.listening = true;
            self.shown = true;
        }
    }

    /// All events at hand have been looked at: whether to report a touch and
    /// pause.
    pub fn batch_end(&mut self) -> (r: bool)
        ensures
            r == old(self).activity,
            *final(self) == (TouchProbe { activity: false, ..*old(self) }),
    {
        let r: bool = self.activity;
        self.activity = false;
        r
    }
}

} // verus!
