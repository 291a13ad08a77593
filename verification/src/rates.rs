//! What the display shows and when the idle timer runs, after whatever the
//! refresh-rate worker has asked of the system.
use vstd::prelude::*;

use crate::config::AppConfig;
use crate::display;
use crate::display::DisplayMode;
use crate::refresh;
use crate::refresh::{RefreshAction, StateView};
use crate::refresh_lines;
use crate::refresh_lines::RefreshTriple;

verus! {

broadcast use vstd::string::group_string_axioms;

/// The display mode that is shown after some actions: the one that was asked
/// for last.
pub open spec fn shown(before: Option<i32>, acts: Seq<RefreshAction>) -> Option<i32>
    decreases acts.len(),
{
    if acts.len() == 0 {
        before
    } else {
        match acts.last() {
            RefreshAction::SetMode(id) => Some(id),
            _ => shown(before, acts.drop_last()),
        }
    }
}

/// The seconds of the idle timer that runs after some actions, if one does.
pub open spec fn ticking(before: Option<i32>, acts: Seq<RefreshAction>) -> Option<i32>
    decreases acts.len(),
{
    if acts.len() == 0 {
        before
    } else {
        match acts.last() {
            RefreshAction::StartTimer(t) => Some(t),
            RefreshAction::StopTimer => None,
            _ => ticking(before, acts.drop_last()),
        }
    }
}

/// Whether the kernel reports touches after some actions.
pub open spec fn hooked(before: bool, acts: Seq<RefreshAction>) -> bool
    decreases acts.len(),
{
    if acts.len() == 0 {
        before
    } else {
        match acts.last() {
            RefreshAction::InputHook(on) => on,
            _ => hooked(before, acts.drop_last()),
        }
    }
}

/// What the system does.
#[verifier::ext_equal]
pub ghost struct Device {
    pub mode: Option<i32>,
    pub timer: Option<i32>,
    pub hook: bool,
}

/// The system after some actions.
pub open spec fn after(d: Device, acts: Seq<RefreshAction>) -> Device {
    Device {
        mode: shown(d.mode, acts),
        timer: ticking(d.timer, acts),
        hook: hooked(d.hook, acts),
    }
}

/// A display mode that the rate of 120 Hz, 90 Hz or 60 Hz stands for: of the
/// highest rate of the device, of the one nearest to 90 Hz, or of the lowest. Of
/// several modes with that rate it is the one with the lowest number.
pub open spec fn stands_for(ms: Seq<DisplayMode>, hz: int, id: i32) -> bool {
    exists|i: int|
        0 <= i < ms.len() && (#[trigger] ms[i]).id == id && (forall|j: int|
            0 <= j < ms.len() ==> if hz == 120 {
                (#[trigger] ms[j]).hz <= ms[i].hz
            } else if hz == 90 {
                abs(ms[i].hz - 90) <= abs(ms[j].hz - 90)
            } else {
                ms[i].hz <= ms[j].hz
            }) && forall|j: int|
            0 <= j < ms.len() && (#[trigger] ms[j]).hz == ms[i].hz ==> ms[i].id <= ms[j].id
}

/// The distance of a number from 0.
pub open spec fn abs(x: int) -> int {
    if x < 0 {
        -x
    } else {
        x
    }
}

/// The worker knows the modes of this device, whose numbers are small enough.
pub open spec fn knows(st: StateView, ms: Seq<DisplayMode>) -> bool {
    &&& ms.len() > 0
    &&& forall|i: int| 0 <= i < ms.len() ==> (#[trigger] ms[i]).id <= i32::MAX
    &&& display::is_rate_args(ms, st.rate_args)
}

/// The mode code of a rate in Hz.
pub open spec fn code(hz: int) -> i32 {
    if hz == 120 {
        refresh_lines::mode_code("120"@)
    } else if hz == 90 {
        refresh_lines::mode_code("90"@)
    } else {
        refresh_lines::mode_code("60"@)
    }
}

/// What is in force is what the device shows, and the hook is as it is known.
pub open spec fn in_step(st: StateView, ms: Seq<DisplayMode>, d: Device) -> bool {
    &&& knows(st, ms)
    &&& d.hook == st.hook
    &&& forall|hz: int|
        (hz == 120 || hz == 90 || hz == 60) && st.applied == #[trigger] code(hz) ==> (
        d.mode matches Some(id) && stands_for(ms, hz, id))
}

/// The codes of the three rates differ.
pub proof fn rates_have_their_codes()
    ensures
        code(120) != code(90),
        code(90) != code(60),
        code(120) != code(60),
        code(120) >= 0,
        code(90) >= 0,
        code(60) >= 0,
{
    reveal_strlit("120");
    reveal_strlit("90");
    reveal_strlit("60");
    assert("120"@.len() == 3 && "90"@.len() == 2 && "60"@.len() == 2);
    assert("90"@[0] != "60"@[0]);
}

/// Bringing a rate into force asks for a display mode that stands for it: 120
/// for the highest rate that the device has, 60 for the lowest, and 90 for the
/// nearest to 90 Hz.
pub proof fn rates_ask_for_their_modes(st: StateView, ms: Seq<DisplayMode>, hz: int)
    requires
        knows(st, ms),
        hz == 120 || hz == 90 || hz == 60,
    ensures
        ({
            let o = refresh::rate_set(st, code(hz));
            &&& o.st == StateView { applied: code(hz), ..st }
            &&& if st.applied == code(hz) {
                o.acts.len() == 0
            } else {
                o.acts.len() == 1 && (o.acts[0] matches RefreshAction::SetMode(id) && stands_for(
                    ms,
                    hz,
                    id,
                ))
            }
        }),
{
    rates_have_their_codes();
    if hz == 120 {
        let (top, id) = choose|top: u32, id: u32|
            display::is_top(ms, top) && #[trigger] display::is_first_id(ms, top, id)
                && st.rate_args[0] == display::mode_arg(id);
        let i = choose|i: int| 0 <= i < ms.len() && (#[trigger] ms[i]).hz == top && ms[i].id == id;
        assert(ms[i].id == id as i32);
    } else if hz == 90 {
        let (mid, id) = choose|mid: u32, id: u32|
            display::is_middle(ms, mid) && #[trigger] display::is_first_id(ms, mid, id)
                && st.rate_args[1] == display::mode_arg(id);
        let i = choose|i: int| 0 <= i < ms.len() && (#[trigger] ms[i]).hz == mid && ms[i].id == id;
        assert(ms[i].id == id as i32);
        assert forall|j: int| 0 <= j < ms.len() implies abs(ms[i].hz - 90) <= abs(
            (#[trigger] ms[j]).hz - 90,
        ) by {
            assert(display::off_90(mid) <= display::off_90(ms[j].hz));
        }
    } else {
        let (low, id) = choose|low: u32, id: u32|
            display::is_bottom(ms, low) && #[trigger] display::is_first_id(ms, low, id)
                && st.rate_args[2] == display::mode_arg(id);
        let i = choose|i: int| 0 <= i < ms.len() && (#[trigger] ms[i]).hz == low && ms[i].id == id;
        assert(ms[i].id == id as i32);
    }
}

/// On a device that has the three rates and no others, each rate asks for a
/// mode of just that rate.
pub proof fn three_rates_are_exact(st: StateView, ms: Seq<DisplayMode>, hz: int)
    requires
        knows(st, ms),
        hz == 120 || hz == 90 || hz == 60,
        forall|i: int|
            0 <= i < ms.len() ==> (#[trigger] ms[i]).hz == 120 || ms[i].hz == 90 || ms[i].hz == 60,
        exists|i: int| 0 <= i < ms.len() && (#[trigger] ms[i]).hz == 120,
        exists|i: int| 0 <= i < ms.len() && (#[trigger] ms[i]).hz == 90,
        exists|i: int| 0 <= i < ms.len() && (#[trigger] ms[i]).hz == 60,
        st.applied != code(hz),
    ensures
        refresh::rate_set(st, code(hz)).acts.len() == 1,
        refresh::rate_set(st, code(hz)).acts[0] matches RefreshAction::SetMode(id) && exists|i: int|
            0 <= i < ms.len() && (#[trigger] ms[i]).id == id && ms[i].hz == hz,
{
    rates_ask_for_their_modes(st, ms, hz);
    let id = refresh::rate_set(st, code(hz)).acts[0]->SetMode_0;
    let k = choose|k: int| 0 <= k < ms.len() && (#[trigger] ms[k]).hz == hz;
    let i = choose|i: int|
        0 <= i < ms.len() && (#[trigger] ms[i]).id == id && forall|j: int|
            0 <= j < ms.len() ==> if hz == 120 {
                (#[trigger] ms[j]).hz <= ms[i].hz
            } else if hz == 90 {
                abs(ms[i].hz - 90) <= abs(ms[j].hz - 90)
            } else {
                ms[i].hz <= ms[j].hz
            };
    assert(ms[k].hz == hz);
    assert(ms[i].hz == hz);
}

proof fn lemma_after(d: Device, a: Seq<RefreshAction>, b: Seq<RefreshAction>)
    ensures
        after(d, a + b) == after(after(d, a), b),
    decreases b.len(),
{
    if b.len() == 0 {
        assert(a + b =~= a);
    } else {
        lemma_after(d, a, b.drop_last());
        assert((a + b).drop_last() =~= a + b.drop_last());
    }
}

proof fn lemma_after_one(d: Device, x: RefreshAction)
    ensures
        after(d, seq![x]) == (match x {
            RefreshAction::SetMode(id) => Device { mode: Some(id), ..d },
            RefreshAction::StartTimer(t) => Device { timer: Some(t), ..d },
            RefreshAction::StopTimer => Device { timer: None, ..d },
            RefreshAction::InputHook(on) => Device { hook: on, ..d },
            RefreshAction::TouchProbe(_) => d,
        }),
        after(d, seq![]) == d,
{
    let s = seq![x];
    assert(s.drop_last() =~= Seq::<RefreshAction>::empty());
    reveal_with_fuel(shown, 2);
    reveal_with_fuel(ticking, 2);
    reveal_with_fuel(hooked, 2);
}

proof fn lemma_rate_set(st: StateView, ms: Seq<DisplayMode>, d: Device, hz: int)
    requires
        in_step(st, ms, d),
        hz == 120 || hz == 90 || hz == 60,
    ensures
        ({
            let o = refresh::rate_set(st, code(hz));
            let e = after(d, o.acts);
            &&& in_step(o.st, ms, e)
            &&& e.mode matches Some(id) && stands_for(ms, hz, id)
            &&& e == Device { mode: e.mode, ..d }
            &&& o.st == StateView { applied: code(hz), ..st }
        }),
{
    rates_have_their_codes();
    rates_ask_for_their_modes(st, ms, hz);
    let o = refresh::rate_set(st, code(hz));
    if st.applied == code(hz) {
        assert(o.acts =~= Seq::<RefreshAction>::empty());
        lemma_after_one(d, RefreshAction::StopTimer);
    } else {
        assert(o.acts =~= seq![o.acts[0]]);
        lemma_after_one(d, o.acts[0]);
    }
    let e = after(d, o.acts);
    assert forall|h: int|
        (h == 120 || h == 90 || h == 60) && o.st.applied == #[trigger] code(h) implies (
    e.mode matches Some(id) && stands_for(ms, h, id)) by {
        assert(h == hz);
    }
}

/// The settings of a package that has some of its own, by rates in Hz.
pub open spec fn has_settings(st: StateView, pkg: Seq<char>, t: i32, active: int, idle: int) -> bool {
    &&& pkg.len() > 0
    &&& pkg != "com.android.launcher3"@
    &&& st.apps.contains_key(pkg)
    &&& st.apps[pkg] == (t, code(active), code(idle))
}

/// When an application with settings of its own comes to the foreground, the
/// display shows its active rate. Where its idle rate is another one, the timer
/// starts with its seconds and touches are reported; otherwise neither is.
#[verifier::rlimit(50)]
pub proof fn foreground_shows_its_rate(
    st: StateView,
    ms: Seq<DisplayMode>,
    d: Device,
    pkg: Seq<char>,
    t: i32,
    active: int,
    idle: int,
    now: u64,
)
    requires
        in_step(st, ms, d),
        has_settings(st, pkg, t, active, idle),
        active == 120 || active == 90 || active == 60,
        idle == 120 || idle == 90 || idle == 60,
    ensures
        ({
            let o = refresh::fg_applied(st, pkg, now);
            let e = after(d, o.acts);
            &&& in_step(o.st, ms, e)
            &&& e.mode matches Some(id) && stands_for(ms, active, id)
            &&& e.timer == if active != idle {
                Some(t)
            } else {
                None
            }
            &&& e.hook == (active != idle)
            &&& o.st.package == pkg
            &&& o.st.current == (t, code(active), code(idle))
            &&& o.st.apps == st.apps && o.st.global == st.global
            &&& o.st.timer_enabled == (active != idle)
            &&& active != idle ==> o.st.last_reset == Some(now)
        }),
{
    rates_have_their_codes();
    let s0 = StateView { package: pkg, ..st };
    let a = refresh::app_applied(s0, pkg);
    lemma_hook(s0, ms, d, pkg);
    let d1 = after(d, a.acts);
    lemma_rate_set(a.st, ms, d1, active);
    let r = refresh::rate_set(a.st, a.st.current.1);
    let b = a.and(|s: StateView| refresh::rate_set(s, s.current.1));
    assert(b.st == r.st && b.acts == a.acts + r.acts);
    lemma_after(d, a.acts, r.acts);
    let d2 = after(d, b.acts);
    let c = refresh::timer_reset(b.st, true, now);
    let o = b.and(|s: StateView| refresh::timer_reset(s, true, now));
    assert(o.st == c.st && o.acts == b.acts + c.acts);
    assert(refresh::fg_applied(st, pkg, now) == o);
    lemma_after(d, b.acts, c.acts);
    lemma_timer(b.st, ms, d2, true, now);
}

proof fn lemma_hook(st: StateView, ms: Seq<DisplayMode>, d: Device, pkg: Seq<char>)
    requires
        in_step(st, ms, d),
    ensures
        ({
            let o = refresh::app_applied(st, pkg);
            let e = after(d, o.acts);
            let on = o.st.current.1 != o.st.current.2;
            &&& in_step(o.st, ms, e)
            &&& e == Device { hook: on, ..d }
            &&& o.st == StateView {
                current: refresh::settings_for(st, pkg),
                timer_enabled: on,
                hook: on,
                ..st
            }
        }),
{
    let o = refresh::app_applied(st, pkg);
    let on = o.st.current.1 != o.st.current.2;
    lemma_after_one(d, RefreshAction::InputHook(on));
    let e = after(d, o.acts);
    assert(e =~= Device { hook: on, ..d });
    assert(o.st =~= StateView {
        current: refresh::settings_for(st, pkg),
        timer_enabled: on,
        hook: on,
        ..st
    });
}

proof fn lemma_timer(st: StateView, ms: Seq<DisplayMode>, d: Device, force: bool, now: u64)
    requires
        in_step(st, ms, d),
    ensures
        ({
            let o = refresh::timer_reset(st, force, now);
            let e = after(d, o.acts);
            &&& in_step(o.st, ms, e)
            &&& e.mode == d.mode && e.hook == d.hook
            &&& !st.timer_enabled ==> e.timer is None && o.st.last_reset is None
            &&& st.timer_enabled && force ==> e.timer == Some(st.current.0) && o.st.last_reset
                == Some(now) && !o.st.is_paused
            &&& o.st == StateView { last_reset: o.st.last_reset, is_paused: o.st.is_paused, ..st }
        }),
{
    let o = refresh::timer_reset(st, force, now);
    lemma_after_one(d, RefreshAction::StopTimer);
    lemma_after_one(d, RefreshAction::StartTimer(st.current.0));
    assert(o.st =~= StateView { last_reset: o.st.last_reset, is_paused: o.st.is_paused, ..st });
}

/// When the idle timer runs out the display shows the idle rate and the timer is
/// stopped; where there is no use for the timer nothing happens.
pub proof fn idleness_shows_the_idle_rate(
    st: StateView,
    ms: Seq<DisplayMode>,
    d: Device,
    idle: int,
)
    requires
        in_step(st, ms, d),
        idle == 120 || idle == 90 || idle == 60,
        st.current.2 == code(idle),
    ensures
        ({
            let o = refresh::went_idle(st);
            let e = after(d, o.acts);
            &&& in_step(o.st, ms, e)
            &&& st.timer_enabled ==> {
                &&& e.mode matches Some(id) && stands_for(ms, idle, id)
                &&& e.timer is None
                &&& o.st.is_paused
                &&& o.st.last_reset is None
                &&& o.st.current == st.current
                &&& o.st.package == st.package
            }
            &&& !st.timer_enabled ==> o.st == st && e == d
        }),
{
    lemma_rate_set(st, ms, d, idle);
    let r = refresh::rate_set(st, st.current.2);
    let o = refresh::went_idle(st);
    if st.timer_enabled {
        assert(o.acts =~= r.acts + seq![RefreshAction::StopTimer]);
        lemma_after(d, r.acts, seq![RefreshAction::StopTimer]);
        lemma_after_one(after(d, r.acts), RefreshAction::StopTimer);
    } else {
        lemma_after_one(d, RefreshAction::StopTimer);
        assert(o.acts =~= Seq::<RefreshAction>::empty());
    }
}

/// A touch, a second or more after the last one, brings the active rate back
/// where the timer has run out, and starts the timer anew.
pub proof fn touches_show_the_active_rate(
    st: StateView,
    ms: Seq<DisplayMode>,
    d: Device,
    active: int,
    now: u64,
)
    requires
        in_step(st, ms, d),
        active == 120 || active == 90 || active == 60,
        st.current.1 == code(active),
        st.last_input matches Some(last) ==> now >= last + 1000,
        st.last_reset is None,
    ensures
        ({
            let o = refresh::input_handled(st, now);
            let e = after(d, o.acts);
            &&& in_step(o.st, ms, e)
            &&& e.mode matches Some(id) && stands_for(ms, active, id)
            &&& e.timer == if st.timer_enabled {
                Some(st.current.0)
            } else {
                None
            }
            &&& !o.st.is_paused
            &&& o.st.last_input == Some(now)
            &&& o.st.current == st.current
            &&& st.timer_enabled ==> o.st.last_reset == Some(now)
        }),
{
    let s = StateView { last_input: Some(now), ..st };
    assert(in_step(s, ms, d));
    lemma_rate_set(s, ms, d, active);
    let r = refresh::rate_set(s, s.current.1);
    let p = refresh::Outcome { st: StateView { is_paused: false, ..r.st }, acts: r.acts };
    let c = refresh::timer_reset(p.st, true, now);
    let o = p.and(|x: StateView| refresh::timer_reset(x, true, now));
    assert(o.st == c.st && o.acts == p.acts + c.acts);
    assert(refresh::input_handled(st, now) == o);
    lemma_after(d, p.acts, c.acts);
    lemma_timer(p.st, ms, after(d, p.acts), true, now);
}

/// While the timer runs and the active rate is shown, a touch a second or more
/// after the last one starts the timer anew, but not until the timer has run for
/// its seconds less ten.
pub proof fn touches_prolong_the_timer(st: StateView, d: Device, last: u64, now: u64)
    requires
        st.timer_enabled,
        st.applied == st.current.1,
        st.current.1 != st.current.2,
        st.last_reset == Some(last),
        last <= now,
        st.last_input matches Some(touch) ==> now >= touch + 1000,
    ensures
        ({
            let o = refresh::input_handled(st, now);
            &&& now - last < (st.current.0 - 10) * 1000 ==> o.acts.len() == 0 && o.st.last_reset
                == Some(last)
            &&& now - last >= (st.current.0 - 10) * 1000 ==> o.acts == seq![
                RefreshAction::StartTimer(st.current.0),
            ] && o.st.last_reset == Some(now)
            &&& o.st.last_input == Some(now)
            &&& o.st.applied == st.applied
        }),
{
}

/// A touch within a second of the last one does nothing.
pub proof fn hasty_touches_do_nothing(st: StateView, last: u64, now: u64)
    requires
        st.last_input == Some(last),
        last <= now < last + 1000,
    ensures
        refresh::input_handled(st, now).st == st,
        refresh::input_handled(st, now).acts.len() == 0,
{
}

/// Changed settings come into force at once: the application in the foreground
/// has its own, if the file gives it some, or the global ones, and the display
/// shows the active rate of these. Where the timer ran it starts with the new
/// seconds.
#[verifier::rlimit(50)]
pub proof fn changed_settings_are_shown(
    st: StateView,
    ms: Seq<DisplayMode>,
    d: Device,
    cfg: AppConfig,
    active: int,
    now: u64,
)
    requires
        in_step(st, ms, d),
        active == 120 || active == 90 || active == 60,
        ({
            let own = st.package != "com.android.launcher3"@
                && cfg.app_refresh_configs@.contains_key(st.package);
            code(active) == if own {
                cfg.app_refresh_configs@[st.package].1
            } else {
                cfg.refresh_active
            }
        }),
    ensures
        ({
            let own = st.package != "com.android.launcher3"@
                && cfg.app_refresh_configs@.contains_key(st.package);
            let o = refresh::config_checked(st, Some(cfg), true, now);
            let e = after(d, o.acts);
            let current: RefreshTriple = if own {
                cfg.app_refresh_configs@[st.package]
            } else {
                (cfg.refresh_timeout, cfg.refresh_active, cfg.refresh_idle)
            };
            &&& in_step(o.st, ms, e)
            &&& e.mode matches Some(id) && stands_for(ms, active, id)
            &&& o.st.global == (cfg.refresh_timeout, cfg.refresh_active, cfg.refresh_idle)
            &&& o.st.apps == cfg.app_refresh_configs@
            &&& o.st.current == current
            &&& o.st.package == st.package
            &&& e.hook == (current.1 != current.2)
            &&& st.last_reset is Some ==> e.timer == if current.1 != current.2 {
                Some(current.0)
            } else {
                None
            }
        }),
{
    rates_have_their_codes();
    let g = refresh::global_loaded(st, Some(cfg));
    let on = cfg.refresh_idle != cfg.refresh_active;
    let hook_acts = if st.hook != on {
        seq![RefreshAction::InputHook(on)]
    } else {
        seq![]
    };
    assert(g.acts =~= hook_acts + seq![RefreshAction::TouchProbe(on)]);
    lemma_after(d, hook_acts, seq![RefreshAction::TouchProbe(on)]);
    lemma_after_one(d, RefreshAction::InputHook(on));
    lemma_after_one(after(d, hook_acts), RefreshAction::TouchProbe(on));
    let d1 = after(d, g.acts);
    assert(in_step(g.st, ms, d1));
    let s1 = refresh::apps_loaded(g.st, Some(cfg));
    assert(in_step(s1, ms, d1));
    let a = refresh::app_applied(s1, s1.package);
    lemma_hook(s1, ms, d1, s1.package);
    let ga = g.and(|s: StateView| refresh::app_applied(refresh::apps_loaded(s, Some(cfg)), s.package));
    assert(ga.st == a.st && ga.acts == g.acts + a.acts);
    lemma_after(d, g.acts, a.acts);
    let d2 = after(d, ga.acts);
    lemma_rate_set(a.st, ms, d2, active);
    let r = refresh::rate_set(a.st, a.st.current.1);
    let gar = ga.and(|s: StateView| refresh::rate_set(s, s.current.1));
    assert(gar.st == r.st && gar.acts == ga.acts + r.acts);
    lemma_after(d, ga.acts, r.acts);
    let d3 = after(d, gar.acts);
    let t = if r.st.last_reset is Some {
        refresh::timer_reset(r.st, true, now)
    } else {
        refresh::quiet(r.st)
    };
    let o = refresh::config_checked(st, Some(cfg), true, now);
    assert(o.st == t.st && o.acts == gar.acts + t.acts);
    lemma_after(d, gar.acts, t.acts);
    lemma_timer(r.st, ms, d3, true, now);
    lemma_after_one(d3, RefreshAction::StopTimer);
}

/// Where nothing has changed nothing happens.
pub proof fn unchanged_settings_are_quiet(st: StateView, cfg: Option<AppConfig>, now: u64)
    ensures
        refresh::config_checked(st, cfg, false, now).st == st,
        refresh::config_checked(st, cfg, false, now).acts.len() == 0,
{
}

/// The home screen, and an application without settings of its own, has the
/// global rates.
pub proof fn others_have_the_global_rates(
    st: StateView,
    ms: Seq<DisplayMode>,
    d: Device,
    pkg: Seq<char>,
    active: int,
    now: u64,
)
    requires
        in_step(st, ms, d),
        pkg.len() > 0,
        pkg == "com.android.launcher3"@ || !st.apps.contains_key(pkg),
        active == 120 || active == 90 || active == 60,
        st.global.1 == code(active),
    ensures
        ({
            let o = refresh::fg_applied(st, pkg, now);
            let e = after(d, o.acts);
            &&& in_step(o.st, ms, e)
            &&& e.mode matches Some(id) && stands_for(ms, active, id)
            &&& o.st.current == st.global
            &&& e.timer == if st.global.1 != st.global.2 {
                Some(st.global.0)
            } else {
                None
            }
        }),
{
    let s0 = StateView { package: pkg, ..st };
    let a = refresh::app_applied(s0, pkg);
    lemma_hook(s0, ms, d, pkg);
    let d1 = after(d, a.acts);
    lemma_rate_set(a.st, ms, d1, active);
    let r = refresh::rate_set(a.st, a.st.current.1);
    let b = a.and(|s: StateView| refresh::rate_set(s, s.current.1));
    assert(b.st == r.st && b.acts == a.acts + r.acts);
    lemma_after(d, a.acts, r.acts);
    let c = refresh::timer_reset(b.st, true, now);
    let o = b.and(|s: StateView| refresh::timer_reset(s, true, now));
    assert(o.st == c.st && o.acts == b.acts + c.acts);
    assert(refresh::fg_applied(st, pkg, now) == o);
    lemma_after(d, b.acts, c.acts);
    lemma_timer(b.st, ms, after(d, b.acts), true, now);
}

/// Without a configuration no application has settings of its own, and the
/// global ones stay.
pub proof fn without_a_configuration_nothing_is_set(st: StateView, now: u64)
    ensures
        refresh::config_checked(st, None, true, now).st.apps == Map::<
            Seq<char>,
            RefreshTriple,
        >::empty(),
        refresh::config_checked(st, None, true, now).st.global == st.global,
        refresh::config_checked(st, None, true, now).st.current == st.global,
{
    let g = refresh::global_loaded(st, None);
    let ga = g.and(|s: StateView| refresh::app_applied(refresh::apps_loaded(s, None), s.package));
    assert(ga.st.current == st.global);
    let gar = ga.and(|s: StateView| refresh::rate_set(s, s.current.1));
    assert(gar.st.current == st.global && gar.st.global == st.global);
}

/// Touches are listened for just where the global rates need them.
pub proof fn touches_are_listened_for_where_needed(st: StateView, cfg: AppConfig)
    ensures
        refresh::global_loaded(st, Some(cfg)).acts.last() == RefreshAction::TouchProbe(
            cfg.refresh_active != cfg.refresh_idle,
        ),
        refresh::global_loaded(st, Some(cfg)).st.global == (
            cfg.refresh_timeout,
            cfg.refresh_active,
            cfg.refresh_idle,
        ),
{
}

} // verus!
