//! The refresh-rate worker: which rate is in force, when the idle rate takes
//! over, and what each event asks of the system.
use vstd::prelude::*;

use crate::config::{AppConfig, ConfigStore};
use crate::display;
use crate::display::DisplayMode;
use crate::names::NameMap;
use crate::refresh_lines;
use crate::refresh_lines::{
    RefreshTriple, DEFAULT_REFRESH_PACKAGE, REFRESH_MODE_120, REFRESH_MODE_60, REFRESH_MODE_90,
};
use crate::text;

verus! {

broadcast use vstd::string::group_string_axioms;

/// The kind of a kernel event that reports a touch.
pub const EVENT_INPUT: u32 = 5;

/// How much earlier than its end a running timer may be started anew, in
/// seconds.
pub const DEBOUNCE_SLACK: i64 = 10;

/// What the worker asks of the system.
#[derive(Clone, Copy, PartialEq, Eq, Structural, Debug)]
pub enum RefreshAction {
    /// Switch to the display mode with this number.
    SetMode(i32),
    /// Start the idle timer, in seconds.
    StartTimer(i32),
    /// Stop the idle timer.
    StopTimer,
    /// Turn the kernel's touch hook on or off.
    InputHook(bool),
    /// Turn the touch listener on or off.
    TouchProbe(bool),
}

/// An event for the worker.
pub enum RefreshEvent {
    /// The screen was touched.
    Input,
    /// A package with settings of its own, or the home screen, came to the
    /// foreground.
    FgPkg(String),
}

/// The state of the worker. Times are in milliseconds.
pub struct RefreshState {
    /// The display modes for the high, middle and low rate; negative where the
    /// device has none.
    pub rate_args: [i32; 3],
    pub available_modes: [bool; 3],
    pub device_modes: Vec<String>,
    pub timeout_seconds: i32,
    pub active_mode: i32,
    pub idle_mode: i32,
    pub app_configs: NameMap<RefreshTriple>,
    pub current_active: i32,
    pub current_idle: i32,
    pub current_timeout: i32,
    pub current_applied_mode: i32,
    pub is_paused: bool,
    pub timer_enabled: bool,
    pub last_reset_time: Option<u64>,
    pub current_package: String,
    pub last_input_time: Option<u64>,
    pub input_hook_on: bool,
}

/// The contents of a [`RefreshState`], as far as events change it.
#[verifier::ext_equal]
pub ghost struct StateView {
    pub rate_args: Seq<i32>,
    pub global: RefreshTriple,
    pub apps: Map<Seq<char>, RefreshTriple>,
    /// Timeout, active and idle mode in force.
    pub current: RefreshTriple,
    pub applied: i32,
    pub is_paused: bool,
    pub timer_enabled: bool,
    pub last_reset: Option<u64>,
    pub package: Seq<char>,
    pub last_input: Option<u64>,
    pub hook: bool,
}

impl View for RefreshState {
    type V = StateView;

    open spec fn view(&self) -> StateView {
        StateView {
            rate_args: self.rate_args@,
            global: (self.timeout_seconds, self.active_mode, self.idle_mode),
            apps: self.app_configs@,
            current: (self.current_timeout, self.current_active, self.current_idle),
            applied: self.current_applied_mode,
            is_paused: self.is_paused,
            timer_enabled: self.timer_enabled,
            last_reset: self.last_reset_time,
            package: self.current_package@,
            last_input: self.last_input_time,
            hook: self.input_hook_on,
        }
    }
}

/// A state, and what the way to it asks of the system.
pub ghost struct Outcome {
    pub st: StateView,
    pub acts: Seq<RefreshAction>,
}

impl Outcome {
    /// One step after the other.
    pub open spec fn and(self, next: spec_fn(StateView) -> Outcome) -> Outcome {
        let o = next(self.st);
        Outcome { st: o.st, acts: self.acts + o.acts }
    }
}

/// Nothing is asked.
pub open spec fn quiet(st: StateView) -> Outcome {
    Outcome { st, acts: seq![] }
}

/// The display mode for a mode code.
pub open spec fn arg_for(st: StateView, mode: i32) -> i32 {
    if mode == REFRESH_MODE_120 {
        st.rate_args[0]
    } else if mode == REFRESH_MODE_90 {
        st.rate_args[1]
    } else if mode == REFRESH_MODE_60 {
        st.rate_args[2]
    } else {
        mode
    }
}

/// A mode comes into force; one that is in force already, or that the device
/// does not have, asks nothing of the system.
pub open spec fn rate_set(st: StateView, mode: i32) -> Outcome {
    if mode == st.applied {
        quiet(st)
    } else if arg_for(st, mode) < 0 {
        quiet(StateView { applied: mode, ..st })
    } else {
        Outcome {
            st: StateView { applied: mode, ..st },
            acts: seq![RefreshAction::SetMode(arg_for(st, mode))],
        }
    }
}

/// The settings for a package: its own, but the global ones for the home screen
/// and for packages without their own.
pub open spec fn settings_for(st: StateView, pkg: Seq<char>) -> RefreshTriple {
    if pkg != "com.android.launcher3"@ && st.apps.contains_key(pkg) {
        st.apps[pkg]
    } else {
        st.global
    }
}

/// The idle timer is needed just where the idle mode is not the active one; the
/// touch hook follows it.
pub open spec fn hook_synced(st: StateView) -> Outcome {
    let on = st.current.2 != st.current.1;
    Outcome {
        st: StateView { timer_enabled: on, hook: on, ..st },
        acts: if st.hook != on {
            seq![RefreshAction::InputHook(on)]
        } else {
            seq![]
        },
    }
}

/// The settings of a package come into force.
pub open spec fn app_applied(st: StateView, pkg: Seq<char>) -> Outcome {
    hook_synced(StateView { current: settings_for(st, pkg), ..st })
}

/// How long a running timer is left alone, in milliseconds.
pub open spec fn debounce_ms(timeout: i32) -> int {
    if timeout > DEBOUNCE_SLACK {
        (timeout - DEBOUNCE_SLACK) * 1000
    } else {
        0
    }
}

/// The time since `last`, in milliseconds.
pub open spec fn since(now: u64, last: u64) -> int {
    if now >= last {
        now - last
    } else {
        0
    }
}

/// The timer runs and has been started too recently to be started anew.
pub open spec fn is_debounced(st: StateView, now: u64) -> bool {
    &&& st.applied == st.current.1
    &&& st.current.1 != st.current.2
    &&& st.last_reset matches Some(last) && since(now, last) < debounce_ms(st.current.0)
}

/// The idle timer is started anew, unless it is not needed or `force` is false
/// and it was started recently.
pub open spec fn timer_reset(st: StateView, force: bool, now: u64) -> Outcome {
    if !st.timer_enabled {
        Outcome {
            st: StateView { last_reset: None, ..st },
            acts: seq![RefreshAction::StopTimer],
        }
    } else {
        let awake = StateView { is_paused: false, ..st };
        if !force && is_debounced(awake, now) {
            quiet(awake)
        } else {
            Outcome {
                st: StateView { last_reset: Some(now), ..awake },
                acts: seq![RefreshAction::StartTimer(st.current.0)],
            }
        }
    }
}

/// The idle timer ran out.
pub open spec fn went_idle(st: StateView) -> Outcome {
    if !st.timer_enabled {
        quiet(st)
    } else {
        let o = rate_set(st, st.current.2);
        Outcome {
            st: StateView { is_paused: true, last_reset: None, ..o.st },
            acts: o.acts.push(RefreshAction::StopTimer),
        }
    }
}

/// A package came to the foreground; no name is no package.
pub open spec fn fg_applied(st: StateView, pkg: Seq<char>, now: u64) -> Outcome {
    if pkg.len() == 0 {
        quiet(st)
    } else {
        app_applied(StateView { package: pkg, ..st }, pkg).and(
            |s: StateView| rate_set(s, s.current.1),
        ).and(|s: StateView| timer_reset(s, true, now))
    }
}

/// Touches count once a second.
pub open spec fn is_throttled(st: StateView, now: u64) -> bool {
    st.last_input matches Some(last) && since(now, last) < 1000
}

/// The screen was touched.
pub open spec fn input_handled(st: StateView, now: u64) -> Outcome {
    if is_throttled(st, now) {
        quiet(st)
    } else {
        let s = StateView { last_input: Some(now), ..st };
        if s.last_reset is None {
            let o = rate_set(s, s.current.1);
            Outcome { st: StateView { is_paused: false, ..o.st }, acts: o.acts }.and(
                |x: StateView| timer_reset(x, true, now),
            )
        } else {
            timer_reset(s, false, now)
        }
    }
}

/// The global settings of a configuration come into force; the touch listener
/// follows the timer.
pub open spec fn global_loaded(st: StateView, cfg: Option<AppConfig>) -> Outcome {
    match cfg {
        Some(c) => {
            let o = hook_synced(StateView { global: c.globals(), current: c.globals(), ..st });
            Outcome { st: o.st, acts: o.acts.push(RefreshAction::TouchProbe(o.st.timer_enabled)) }
        },
        None => quiet(st),
    }
}

/// The settings of the applications are those of a configuration.
pub open spec fn apps_loaded(st: StateView, cfg: Option<AppConfig>) -> StateView {
    StateView {
        apps: match cfg {
            Some(c) => c.app_refresh_configs@,
            None => Map::empty(),
        },
        ..st
    }
}

/// The settings have changed: they are loaded and come into force for the
/// package in the foreground.
pub open spec fn config_checked(
    st: StateView,
    cfg: Option<AppConfig>,
    reload: bool,
    now: u64,
) -> Outcome {
    if !reload {
        quiet(st)
    } else {
        global_loaded(st, cfg).and(
            |s: StateView| app_applied(apps_loaded(s, cfg), s.package),
        ).and(|s: StateView| rate_set(s, s.current.1)).and(
            |s: StateView|
                if s.last_reset is Some {
                    timer_reset(s, true, now)
                } else {
                    quiet(s)
                },
        )
    }
}

/// The value of an optional reference.
pub open spec fn deref_opt(c: Option<&AppConfig>) -> Option<AppConfig> {
    match c {
        Some(x) => Some(*x),
        None => None,
    }
}

/// A copy of the settings of the applications.
fn copy_apps(m: &NameMap<RefreshTriple>) -> (r: NameMap<RefreshTriple>)
    requires
        m.wf(),
    ensures
        r.wf(),
        r@ == m@,
{
    let mut r: NameMap<RefreshTriple> = NameMap::new();
    let mut i: usize = 0;
    while i < m.entries.len()
        invariant
            i <= m.entries.len(),
            m.wf(),
            r.wf(),
            forall|k: Seq<char>|
                #![trigger r@.contains_key(k)]
                r@.contains_key(k) <==> m.keys().take(i as int).contains(k),
            forall|k: Seq<char>| #![trigger r@[k]] r@.contains_key(k) ==> r@[k] == m@[k],
        decreases m.entries.len() - i,
    {
        let ghost before = r@;
        let e = &m.entries[i];
        r.insert(e.0.as_str(), e.1);
        proof {
            m.lemma_entry(i as int);
            let a = m.keys().take(i as int);
            let b = m.keys().take(i + 1);
            assert(b =~= a.push(e.0@));
            assert forall|k: Seq<char>|
                #![trigger r@.contains_key(k)]
                r@.contains_key(k) <==> b.contains(k) by {
                if a.contains(k) {
                    let x = a.index_of(k);
                    assert(b[x] == k);
                }
                assert(b[i as int] == e.0@);
                assert(before.contains_key(k) <==> a.contains(k));
            }
        }
        i += 1;
    }
    proof {
        assert(m.keys().take(m.keys().len() as int) =~= m.keys());
        assert(r@ =~= m@);
    }
    r
}

impl RefreshState {
    /// The settings of the applications are a map.
    pub open spec fn wf(self) -> bool {
        self.app_configs.wf()
    }

    /// What stays as the device has it.
    pub open spec fn same_device(self, other: RefreshState) -> bool {
        &&& self.available_modes == other.available_modes
        &&& self.device_modes == other.device_modes
        &&& self.rate_args == other.rate_args
    }

    /// The state before the first event, for a device with these modes.
    pub fn new(modes: &Vec<DisplayMode>) -> (r: RefreshState)
        ensures
            r.wf(),
            r@.global == refresh_lines::default_globals(),
            r@.current == refresh_lines::default_globals(),
            r@.apps == Map::<Seq<char>, RefreshTriple>::empty(),
            r@.applied == -1,
            !r@.is_paused,
            r@.timer_enabled,
            r@.last_reset is None,
            r@.package == Seq::<char>::empty(),
            r@.last_input is None,
            !r@.hook,
            text::owned(r.device_modes@) == modes@.map_values(
                |m: DisplayMode| display::mode_label(m),
            ),
            r.available_modes@ == seq![
                modes@.len() == 0 || display::has_rate(modes@, 120),
                modes@.len() == 0 || display::has_rate(modes@, 90),
                modes@.len() == 0 || display::has_rate(modes@, 60),
            ],
            display::is_rate_args(modes@, r@.rate_args),
    {
        let package = String::new();
        assert(package@ =~= Seq::<char>::empty());
        RefreshState {
            rate_args: display::detect_rate_args(modes),
            available_modes: display::detect_available_modes(modes),
            device_modes: display::fmt_device_modes(modes),
            timeout_seconds: 30,
            active_mode: REFRESH_MODE_120,
            idle_mode: REFRESH_MODE_60,
            app_configs: NameMap::new(),
            current_active: REFRESH_MODE_120,
            current_idle: REFRESH_MODE_60,
            current_timeout: 30,
            current_applied_mode: -1,
            is_paused: false,
            timer_enabled: true,
            last_reset_time: None,
            current_package: package,
            last_input_time: None,
            input_hook_on: false,
        }
    }

    /// Brings a mode into force.
    pub fn set_refresh_rate(&mut self, mode: i32, acts: &mut Vec<RefreshAction>)
        requires
            old(self).wf(),
        ensures
            final(self).wf(),
            final(self).same_device(*old(self)),
            final(self)@ == rate_set(old(self)@, mode).st,
            final(acts)@ == old(acts)@ + rate_set(old(self)@, mode).acts,
    {
        if mode == self.current_applied_mode {
            assert(acts@ + Seq::<RefreshAction>::empty() =~= acts@);
            return ;
        }
        let arg: i32 = if mode == REFRESH_MODE_120 {
            self.rate_args[0]
        } else if mode == REFRESH_MODE_90 {
            self.rate_args[1]
        } else if mode == REFRESH_MODE_60 {
            self.rate_args[2]
        } else {
            mode
        };
        self.current_applied_mode = mode;
        if arg < 0 {
            assert(acts@ + Seq::<RefreshAction>::empty() =~= acts@);
            return ;
        }
        acts.push(RefreshAction::SetMode(arg));
        assert(acts@ =~= old(acts)@ + seq![RefreshAction::SetMode(arg)]);
    }

    /// Lets the timer and the touch hook follow the modes in force.
    fn sync_input_hook(&mut self, acts: &mut Vec<RefreshAction>)
        requires
            old(self).wf(),
        ensures
            final(self).wf(),
            final(self).same_device(*old(self)),
            final(self)@ == hook_synced(old(self)@).st,
            final(acts)@ == old(acts)@ + hook_synced(old(self)@).acts,
    {
        let on: bool = self.current_idle != self.current_active;
        let was: bool = self.input_hook_on;
        self.timer_enabled = on;
        self.input_hook_on = on;
        if was != on {
            acts.push(RefreshAction::InputHook(on));
        }
        assert(acts@ =~= old(acts)@ + hook_synced(old(self)@).acts);
    }

    /// Brings the settings of a package into force.
    pub fn apply_app_config(&mut self, pkg: &str, acts: &mut Vec<RefreshAction>)
        requires
            old(self).wf(),
        ensures
            final(self).wf(),
            final(self).same_device(*old(self)),
            final(self)@ == app_applied(old(self)@, pkg@).st,
            final(acts)@ == old(acts)@ + app_applied(old(self)@, pkg@).acts,
    {
        let mut t: RefreshTriple = (self.timeout_seconds, self.active_mode, self.idle_mode);
        if !text::same(pkg, DEFAULT_REFRESH_PACKAGE) {
            if let Some(own) = self.app_configs.get(pkg) {
                t = *own;
            }
        }
        self.current_timeout = t.0;
        self.current_active = t.1;
        self.current_idle = t.2;
        self.sync_input_hook(acts);
    }

    /// Starts the idle timer anew where it is needed.
    pub fn reset_timer(&mut self, force: bool, now: u64, acts: &mut Vec<RefreshAction>)
        requires
            old(self).wf(),
        ensures
            final(self).wf(),
            final(self).same_device(*old(self)),
            final(self)@ == timer_reset(old(self)@, force, now).st,
            final(acts)@ == old(acts)@ + timer_reset(old(self)@, force, now).acts,
    {
        if !self.timer_enabled {
            acts.push(RefreshAction::StopTimer);
            self.last_reset_time = None;
            assert(acts@ =~= old(acts)@ + seq![RefreshAction::StopTimer]);
            return ;
        }
        self.is_paused = false;
        if !force && self.current_applied_mode == self.current_active && self.current_active
            != self.current_idle {
            if let Some(last) = self.last_reset_time {
                let left: i64 = self.current_timeout as i64 - DEBOUNCE_SLACK;
                let debounce: u64 = if left > 0 {
                    (left as u64) * 1000
                } else {
                    0
                };
                let gone: u64 = if now >= last {
                    now - last
                } else {
                    0
                };
                assert(debounce == debounce_ms(self.current_timeout));
                if gone < debounce {
                    assert(acts@ + Seq::<RefreshAction>::empty() =~= acts@);
                    return ;
                }
            }
        }
        acts.push(RefreshAction::StartTimer(self.current_timeout));
        self.last_reset_time = Some(now);
        assert(acts@ =~= old(acts)@ + seq![RefreshAction::StartTimer(self.current_timeout)]);
    }

    /// Takes the end of the idle timer in.
    pub fn switch_to_idle(&mut self, acts: &mut Vec<RefreshAction>)
        requires
            old(self).wf(),
        ensures
            final(self).wf(),
            final(self).same_device(*old(self)),
            final(self)@ == went_idle(old(self)@).st,
            final(acts)@ == old(acts)@ + went_idle(old(self)@).acts,
    {
        if !self.timer_enabled {
            assert(acts@ + Seq::<RefreshAction>::empty() =~= acts@);
            return ;
        }
        let idle: i32 = self.current_idle;
        self.set_refresh_rate(idle, acts);
        self.is_paused = true;
        acts.push(RefreshAction::StopTimer);
        self.last_reset_time = None;
        assert(acts@ =~= old(acts)@ + went_idle(old(self)@).acts);
    }

    /// Takes a package in that came to the foreground; whether it is one.
    pub fn try_apply_fg_pkg(&mut self, pkg: &str, now: u64, acts: &mut Vec<RefreshAction>) -> (r:
        bool)
        requires
            old(self).wf(),
        ensures
            final(self).wf(),
            final(self).same_device(*old(self)),
            r == (pkg@.len() > 0),
            final(self)@ == fg_applied(old(self)@, pkg@, now).st,
            final(acts)@ == old(acts)@ + fg_applied(old(self)@, pkg@, now).acts,
    {
        if pkg.is_empty() {
            assert(acts@ + Seq::<RefreshAction>::empty() =~= acts@);
            return false;
        }
        self.current_package = pkg.to_owned();
        self.apply_app_config(pkg, acts);
        let active: i32 = self.current_active;
        self.set_refresh_rate(active, acts);
        self.reset_timer(true, now, acts);
        assert(acts@ =~= old(acts)@ + fg_applied(old(self)@, pkg@, now).acts);
        true
    }

    /// Takes a touch in.
    pub fn handle_input(&mut self, now: u64, acts: &mut Vec<RefreshAction>)
        requires
            old(self).wf(),
        ensures
            final(self).wf(),
            final(self).same_device(*old(self)),
            final(self)@ == input_handled(old(self)@, now).st,
            final(acts)@ == old(acts)@ + input_handled(old(self)@, now).acts,
    {
        if let Some(last) = self.last_input_time {
            let gone: u64 = if now >= last {
                now - last
            } else {
                0
            };
            if gone < 1000 {
                assert(acts@ + Seq::<RefreshAction>::empty() =~= acts@);
                return ;
            }
        }
        self.last_input_time = Some(now);
        if self.last_reset_time.is_none() {
            let active: i32 = self.current_active;
            self.set_refresh_rate(active, acts);
            self.is_paused = false;
            self.reset_timer(true, now, acts);
            assert(acts@ =~= old(acts)@ + input_handled(old(self)@, now).acts);
        } else {
            self.reset_timer(false, now, acts);
        }
    }

    /// Brings the global settings of a configuration into force.
    pub fn load_global_config(&mut self, cfg: Option<&AppConfig>, acts: &mut Vec<RefreshAction>)
        requires
            old(self).wf(),
        ensures
            final(self).wf(),
            final(self).same_device(*old(self)),
            final(self)@ == global_loaded(old(self)@, deref_opt(cfg)).st,
            final(acts)@ == old(acts)@ + global_loaded(old(self)@, deref_opt(cfg)).acts,
    {
        match cfg {
            Some(c) => {
                self.timeout_seconds = c.refresh_timeout;
                self.active_mode = c.refresh_active;
                self.idle_mode = c.refresh_idle;
                self.current_timeout = c.refresh_timeout;
                self.current_active = c.refresh_active;
                self.current_idle = c.refresh_idle;
                self.sync_input_hook(acts);
                acts.push(RefreshAction::TouchProbe(self.timer_enabled));
                assert(acts@ =~= old(acts)@ + global_loaded(old(self)@, deref_opt(cfg)).acts);
            },
            None => {
                assert(acts@ + Seq::<RefreshAction>::empty() =~= acts@);
            },
        }
    }

    /// Takes the settings of the applications over from a configuration.
    pub fn load_app_configs(&mut self, cfg: Option<&AppConfig>)
        requires
            old(self).wf(),
            cfg matches Some(c) ==> c.wf(),
        ensures
            final(self).wf(),
            final(self).same_device(*old(self)),
            final(self)@ == apps_loaded(old(self)@, deref_opt(cfg)),
    {
        match cfg {
            Some(c) => {
                self.app_configs = copy_apps(&c.app_refresh_configs);
            },
            None => {
                self.app_configs = NameMap::new();
            },
        }
    }

    /// Takes changed settings in, where `reload` says that they have changed.
    pub fn check_config(
        &mut self,
        cfg: Option<&AppConfig>,
        reload: bool,
        now: u64,
        acts: &mut Vec<RefreshAction>,
    )
        requires
            old(self).wf(),
            cfg matches Some(c) ==> c.wf(),
        ensures
            final(self).wf(),
            final(self).same_device(*old(self)),
            final(self)@ == config_checked(old(self)@, deref_opt(cfg), reload, now).st,
            final(acts)@ == old(acts)@ + config_checked(
                old(self)@,
                deref_opt(cfg),
                reload,
                now,
            ).acts,
    {
        if !reload {
            assert(acts@ + Seq::<RefreshAction>::empty() =~= acts@);
            return ;
        }
        self.load_global_config(cfg, acts);
        self.load_app_configs(cfg);
        let pkg = self.current_package.clone();
        self.apply_app_config(pkg.as_str(), acts);
        let active: i32 = self.current_active;
        self.set_refresh_rate(active, acts);
        if self.last_reset_time.is_some() {
            self.reset_timer(true, now, acts);
        }
        assert(acts@ =~= old(acts)@ + config_checked(
            old(self)@,
            deref_opt(cfg),
            reload,
            now,
        ).acts);
    }

    /// Takes an event in.
    pub fn handle_event(&mut self, event: RefreshEvent, now: u64, acts: &mut Vec<RefreshAction>)
        requires
            old(self).wf(),
        ensures
            final(self).wf(),
            final(self).same_device(*old(self)),
            ({
                let o = match event {
                    RefreshEvent::Input => input_handled(old(self)@, now),
                    RefreshEvent::FgPkg(pkg) => fg_applied(old(self)@, pkg@, now),
                };
                final(self)@ == o.st && final(acts)@ == old(acts)@ + o.acts
            }),
    {
        match event {
            RefreshEvent::Input => {
                self.handle_input(now, acts);
            },
            RefreshEvent::FgPkg(pkg) => {
                let _ = self.try_apply_fg_pkg(pkg.as_str(), now, acts);
            },
        }
    }
}

/// What the worker tells others of its state.
pub struct RefreshStatus {
    pub current_mode: i32,
    pub is_paused: bool,
    pub timer_enabled: bool,
    pub timer_running: bool,
    pub current_package: String,
    pub timeout: i32,
    pub active_mode: i32,
    pub idle_mode: i32,
    /// The rates that the device has, in Hz.
    pub available: Vec<i32>,
    pub device_modes: Vec<String>,
    pub input_hooked: bool,
    /// Seconds since the last touch; -1 where there was none.
    pub last_input_secs: i64,
}

/// The rates that stand for three flags.
pub open spec fn rates_of(flags: Seq<bool>) -> Seq<i32> {
    (if flags[0] {
        seq![120i32]
    } else {
        seq![]
    }) + (if flags[1] {
        seq![90i32]
    } else {
        seq![]
    }) + (if flags[2] {
        seq![60i32]
    } else {
        seq![]
    })
}

/// The status tells the state.
pub open spec fn status_tells(s: RefreshStatus, st: RefreshState, now: u64) -> bool {
    &&& s.current_mode == st.current_applied_mode
    &&& s.is_paused == st.is_paused
    &&& s.timer_enabled == st.timer_enabled
    &&& s.timer_running == (st.last_reset_time is Some)
    &&& s.current_package@ == st.current_package@
    &&& s.timeout == st.current_timeout
    &&& s.active_mode == st.current_active
    &&& s.idle_mode == st.current_idle
    &&& s.available@ == rates_of(st.available_modes@)
    &&& text::owned(s.device_modes@) == text::owned(st.device_modes@)
    &&& s.input_hooked == st.input_hook_on
    &&& s.last_input_secs == (match st.last_input_time {
        Some(t) => since(now, t) / 1000,
        None => -1,
    })
}

/// A copy of a list of strings.
fn copy_strings(v: &Vec<String>) -> (r: Vec<String>)
    ensures
        text::owned(r@) == text::owned(v@),
{
    let mut r: Vec<String> = Vec::new();
    let ghost all = text::owned(v@);
    let mut i: usize = 0;
    while i < v.len()
        invariant
            i <= v.len(),
            all == text::owned(v@),
            text::owned(r@) == all.take(i as int),
        decreases v.len() - i,
    {
        let ghost before = text::owned(r@);
        r.push(v[i].clone());
        assert(text::owned(r@) =~= before.push(all[i as int]));
        i += 1;
        assert(all.take(i as int) =~= all.take(i - 1).push(all[i - 1]));
    }
    assert(all.take(all.len() as int) =~= all);
    r
}

/// Tells the state at a time.
pub fn update_status(state: &RefreshState, now: u64) -> (r: RefreshStatus)
    ensures
        status_tells(r, *state, now),
{
    let secs: i64 = match state.last_input_time {
        Some(t) => {
            let gone: u64 = if now >= t {
                now - t
            } else {
                0
            };
            (gone / 1000) as i64
        },
        None => -1,
    };
    RefreshStatus {
        current_mode: state.current_applied_mode,
        is_paused: state.is_paused,
        timer_enabled: state.timer_enabled,
        timer_running: state.last_reset_time.is_some(),
        current_package: state.current_package.clone(),
        timeout: state.current_timeout,
        active_mode: state.current_active,
        idle_mode: state.current_idle,
        available: display::available_rates(&state.available_modes),
        device_modes: copy_strings(&state.device_modes),
        input_hooked: state.input_hook_on,
        last_input_secs: secs,
    }
}

/// A status that was published, if one was.
pub fn refresh_get_status(published: &Option<RefreshStatus>) -> (r: Option<RefreshStatus>)
    ensures
        match (*published, r) {
            (Some(a), Some(b)) => {
                &&& b.current_mode == a.current_mode
                &&& b.is_paused == a.is_paused
                &&& b.timer_enabled == a.timer_enabled
                &&& b.timer_running == a.timer_running
                &&& b.current_package@ == a.current_package@
                &&& b.timeout == a.timeout
                &&& b.active_mode == a.active_mode
                &&& b.idle_mode == a.idle_mode
                &&& b.available@ == a.available@
                &&& text::owned(b.device_modes@) == text::owned(a.device_modes@)
                &&& b.input_hooked == a.input_hooked
                &&& b.last_input_secs == a.last_input_secs
            },
            (None, None) => true,
            _ => false,
        },
{
    match published {
        Some(s) => {
            let mut available: Vec<i32> = Vec::new();
            let mut i: usize = 0;
            while i < s.available.len()
                invariant
                    i <= s.available.len(),
                    available@ == s.available@.take(i as int),
                decreases s.available.len() - i,
            {
                available.push(s.available[i]);
                i += 1;
                assert(s.available@.take(i as int) =~= s.available@.take(i - 1).push(
                    s.available@[i - 1],
                ));
            }
            assert(s.available@.take(s.available@.len() as int) =~= s.available@);
            Some(
                RefreshStatus {
                    current_mode: s.current_mode,
                    is_paused: s.is_paused,
                    timer_enabled: s.timer_enabled,
                    timer_running: s.timer_running,
                    current_package: s.current_package.clone(),
                    timeout: s.timeout,
                    active_mode: s.active_mode,
                    idle_mode: s.idle_mode,
                    available,
                    device_modes: copy_strings(&s.device_modes),
                    input_hooked: s.input_hooked,
                    last_input_secs: s.last_input_secs,
                },
            )
        },
        None => None,
    }
}

/// `hi` and `lo` are the highest and the lowest of some rates.
pub open spec fn are_extremes(rates: Seq<i32>, hi: i32, lo: i32) -> bool {
    &&& rates.contains(hi) && rates.contains(lo)
    &&& forall|i: int| 0 <= i < rates.len() ==> lo <= #[trigger] rates[i] <= hi
}

/// The default rates for the active and the idle mode: the highest and the
/// lowest that the device has; 120 and 60 where that is not known.
pub fn refresh_device_default_rates(status: Option<&RefreshStatus>) -> (r: (i32, i32))
    ensures
        match status {
            Some(s) => if s.available@.len() > 0 {
                are_extremes(s.available@, r.0, r.1)
            } else {
                r == (120i32, 60i32)
            },
            None => r == (120i32, 60i32),
        },
{
    match status {
        Some(s) => {
            if s.available.len() == 0 {
                return (120, 60);
            }
            let mut hi: i32 = s.available[0];
            let mut lo: i32 = s.available[0];
            let mut i: usize = 1;
            assert(s.available@.contains(s.available@[0]));
            while i < s.available.len()
                invariant
                    1 <= i <= s.available.len(),
                    s.available@.contains(hi),
                    s.available@.contains(lo),
                    forall|j: int| 0 <= j < i ==> lo <= #[trigger] s.available@[j] <= hi,
                decreases s.available.len() - i,
            {
                let v: i32 = s.available[i];
                assert(s.available@.contains(s.available@[i as int]));
                if v > hi {
                    hi = v;
                }
                if v < lo {
                    lo = v;
                }
                i += 1;
            }
            (hi, lo)
        },
        None => (120, 60),
    }
}

/// The event for a package in the foreground, where there is a worker.
pub fn refresh_send_fg_pkg(pkg: String, connected: bool) -> (r: Option<RefreshEvent>)
    ensures
        match r {
            Some(e) => connected && (e matches RefreshEvent::FgPkg(p) && p@ == pkg@),
            None => !connected,
        },
{
    if connected {
        Some(RefreshEvent::FgPkg(pkg))
    } else {
        None
    }
}

/// The event for a kernel event, where there is a worker and the event is a touch.
pub fn refresh_on_event(event_type: u32, connected: bool) -> (r: Option<RefreshEvent>)
    ensures
        match r {
            Some(e) => connected && event_type == EVENT_INPUT && e is Input,
            None => !connected || event_type != EVENT_INPUT,
        },
{
    if connected && event_type == EVENT_INPUT {
        Some(RefreshEvent::Input)
    } else {
        None
    }
}

/// The global settings in force: timeout, and the two rates as text.
pub fn refresh_get_config(store: &ConfigStore) -> (r: (i32, String, String))
    ensures
        ({
            let g = match store.current {
                Some(c) => c.globals(),
                None => refresh_lines::default_globals(),
            };
            r.0 == g.0 && r.1@ == refresh_lines::mode_text(g.1) && r.2@ == refresh_lines::mode_text(
                g.2,
            )
        }),
{
    let g: RefreshTriple = match &store.current {
        Some(c) => (c.refresh_timeout, c.refresh_active, c.refresh_idle),
        None => (30, REFRESH_MODE_120, REFRESH_MODE_60),
    };
    (
        g.0,
        refresh_lines::refresh_mode_str(g.1).to_owned(),
        refresh_lines::refresh_mode_str(g.2).to_owned(),
    )
}

/// The settings of an application as text.
pub open spec fn app_row(e: (String, RefreshTriple)) -> (Seq<char>, i32, Seq<char>, Seq<char>) {
    (e.0@, e.1.0, refresh_lines::mode_text(e.1.1), refresh_lines::mode_text(e.1.2))
}

/// The contents of rows.
pub open spec fn row_views(v: Seq<(String, i32, String, String)>) -> Seq<
    (Seq<char>, i32, Seq<char>, Seq<char>),
> {
    v.map_values(|e: (String, i32, String, String)| (e.0@, e.1, e.2@, e.3@))
}

/// The applications with settings of their own: package, timeout, and the two
/// rates as text.
pub fn refresh_get_apps(store: &ConfigStore) -> (r: Vec<(String, i32, String, String)>)
    ensures
        match store.current {
            Some(c) => row_views(r@) == c.app_refresh_configs.entries@.map_values(
                |e: (String, RefreshTriple)| app_row(e),
            ),
            None => r@.len() == 0,
        },
{
    let mut r: Vec<(String, i32, String, String)> = Vec::new();
    if let Some(c) = &store.current {
        let m = &c.app_refresh_configs;
        let ghost all = m.entries@.map_values(|e: (String, RefreshTriple)| app_row(e));
        let mut i: usize = 0;
        assert(row_views(r@) =~= all.take(0));
        while i < m.entries.len()
            invariant
                i <= m.entries.len(),
                all == m.entries@.map_values(|e: (String, RefreshTriple)| app_row(e)),
                row_views(r@) == all.take(i as int),
            decreases m.entries.len() - i,
        {
            let e = &m.entries[i];
            let t: RefreshTriple = e.1;
            let ghost before = row_views(r@);
            r.push(
                (
                    e.0.clone(),
                    t.0,
                    refresh_lines::refresh_mode_str(t.1).to_owned(),
                    refresh_lines::refresh_mode_str(t.2).to_owned(),
                ),
            );
            assert(row_views(r@) =~= before.push(all[i as int]));
            i += 1;
            assert(all.take(i as int) =~= all.take(i - 1).push(all[i - 1]));
        }
        assert(all.take(all.len() as int) =~= all);
    }
    r
}

/// The home screen always has the global settings, whatever the file says.
pub proof fn home_screen_has_global_settings(st: StateView, now: u64)
    ensures
        app_applied(st, "com.android.launcher3"@).st.current == st.global,
        fg_applied(st, "com.android.launcher3"@, now).st.current == st.global,
{
    reveal_strlit("com.android.launcher3");
    let pkg = "com.android.launcher3"@;
    assert(pkg.len() > 0);
    let a = app_applied(StateView { package: pkg, ..st }, pkg);
    assert(a.st.current == st.global);
    let b = a.and(|s: StateView| rate_set(s, s.current.1));
    assert(b.st.current == st.global);
}

/// After a package came to the foreground its active mode is in force, the
/// timer runs if and only if it is needed, and the worker is not paused by it.
pub proof fn foreground_brings_active_mode(st: StateView, pkg: Seq<char>, now: u64)
    requires
        pkg.len() > 0,
    ensures
        ({
            let o = fg_applied(st, pkg, now);
            &&& o.st.package == pkg
            &&& o.st.current == settings_for(st, pkg)
            &&& o.st.applied == o.st.current.1
            &&& o.st.timer_enabled == (o.st.current.1 != o.st.current.2)
            &&& o.st.timer_enabled ==> o.st.last_reset == Some(now) && !o.st.is_paused
            &&& !o.st.timer_enabled ==> o.st.last_reset is None
            &&& o.st.hook == o.st.timer_enabled
        }),
{
    let a = app_applied(StateView { package: pkg, ..st }, pkg);
    assert(settings_for(StateView { package: pkg, ..st }, pkg) == settings_for(st, pkg));
    let b = a.and(|s: StateView| rate_set(s, s.current.1));
    assert(b.st.applied == b.st.current.1);
}

/// A second touch within a second of the first changes nothing.
pub proof fn touches_are_throttled(st: StateView, now: u64, later: u64)
    requires
        !is_throttled(st, now),
        now <= later,
        later - now < 1000,
    ensures
        input_handled(input_handled(st, now).st, later) == quiet(input_handled(st, now).st),
{
    let s = StateView { last_input: Some(now), ..st };
    assert(input_handled(st, now).st.last_input == Some(now)) by {
        if s.last_reset is None {
            let o = rate_set(s, s.current.1);
            let p = Outcome { st: StateView { is_paused: false, ..o.st }, acts: o.acts };
            assert(p.st.last_input == Some(now));
            assert(p.and(|x: StateView| timer_reset(x, true, now)).st.last_input == Some(now));
        }
    }
}

/// Bringing a mode into force twice asks for it only once.
pub proof fn mode_is_asked_once(st: StateView, mode: i32)
    ensures
        rate_set(rate_set(st, mode).st, mode) == quiet(rate_set(st, mode).st),
{
}

/// When the timer runs out the idle mode is in force and the timer stopped; the
/// next touch that counts brings the active mode back.
pub proof fn touch_ends_idle(st: StateView, now: u64)
    requires
        st.timer_enabled,
        !is_throttled(st, now),
    ensures
        ({
            let idle = went_idle(st).st;
            let back = input_handled(idle, now).st;
            &&& idle.applied == st.current.2
            &&& idle.is_paused
            &&& idle.last_reset is None
            &&& back.applied == st.current.1
            &&& !back.is_paused
            &&& back.last_reset == Some(now)
        }),
{
    let idle = went_idle(st).st;
    let s = StateView { last_input: Some(now), ..idle };
    let o = rate_set(s, s.current.1);
    let p = Outcome { st: StateView { is_paused: false, ..o.st }, acts: o.acts };
    assert(p.st.applied == st.current.1);
    assert(p.and(|x: StateView| timer_reset(x, true, now)).st.last_reset == Some(now));
}

/// Where the active and the idle mode are the same, the worker never goes idle
/// and needs no touches.
pub proof fn one_mode_needs_no_timer(st: StateView, pkg: Seq<char>)
    requires
        settings_for(st, pkg).1 == settings_for(st, pkg).2,
    ensures
        !app_applied(st, pkg).st.timer_enabled,
        !app_applied(st, pkg).st.hook,
        went_idle(app_applied(st, pkg).st) == quiet(app_applied(st, pkg).st),
{
}

/// At the start the global settings are those of a file that has none: 30
/// seconds, 120 Hz in use and 60 Hz at rest.
pub proof fn settings_at_the_start()
    ensures
        refresh_lines::default_globals() == (
            30i32,
            refresh_lines::mode_code("120"@),
            refresh_lines::mode_code("60"@),
        ),
{
    reveal_strlit("120");
    reveal_strlit("90");
    reveal_strlit("60");
    assert("60"@.len() == 2 && "90"@.len() == 2 && "120"@.len() == 3);
    assert("60"@[0] != "90"@[0]);
}

/// The status tells the state: the mode in force, whether the timer runs, and
/// the settings of the application in the foreground.
pub proof fn the_status_tells_the_state(s: RefreshStatus, st: RefreshState, now: u64)
    requires
        status_tells(s, st, now),
    ensures
        s.current_mode == st@.applied,
        s.timer_running == st@.last_reset is Some,
        s.timer_enabled == st@.timer_enabled,
        s.is_paused == st@.is_paused,
        (s.timeout, s.active_mode, s.idle_mode) == st@.current,
        s.current_package@ == st@.package,
        s.input_hooked == st@.hook,
        s.available@.contains(120i32) <==> st.available_modes@[0],
        s.available@.contains(90i32) <==> st.available_modes@[1],
        s.available@.contains(60i32) <==> st.available_modes@[2],
        st@.last_input is None ==> s.last_input_secs == -1,
        st@.last_input matches Some(t) ==> now >= t ==> s.last_input_secs == (now - t) / 1000,
{
    let f = st.available_modes@;
    let r = rates_of(f);
    let a = if f[0] {
        seq![120i32]
    } else {
        seq![]
    };
    let b = if f[1] {
        seq![90i32]
    } else {
        seq![]
    };
    let c = if f[2] {
        seq![60i32]
    } else {
        seq![]
    };
    assert(r == a + b + c);
    if f[0] {
        assert(r[0] == 120);
    }
    if f[1] {
        assert(r[a.len() as int] == 90);
    }
    if f[2] {
        assert(r[(a + b).len() as int] == 60);
    }
    if r.contains(120i32) {
        let k = r.index_of(120i32);
        assert(k < a.len() || r[k] == 90 || r[k] == 60);
    }
    if r.contains(90i32) {
        let k = r.index_of(90i32);
        assert(r[k] == 90);
        if k < a.len() {
            assert(r[k] == 120);
        } else if k >= (a + b).len() {
            assert(r[k] == 60);
        }
    }
    if r.contains(60i32) {
        let k = r.index_of(60i32);
        assert(r[k] == 60);
        if k < a.len() {
            assert(r[k] == 120);
        } else if k < (a + b).len() {
            assert(r[k] == 90);
        }
    }
}

/// Settings are shown as they stand in the file: seconds, and rates in Hz.
pub proof fn rates_are_shown_in_hz(name: String, t: i32)
    ensures
        refresh_lines::mode_text(refresh_lines::mode_code("120"@)) == "120"@,
        refresh_lines::mode_text(refresh_lines::mode_code("90"@)) == "90"@,
        refresh_lines::mode_text(refresh_lines::mode_code("60"@)) == "60"@,
        app_row(
            (name, (t, refresh_lines::mode_code("90"@), refresh_lines::mode_code("60"@))),
        ) == (name@, t, "90"@, "60"@),
{
    reveal_strlit("120");
    reveal_strlit("90");
    reveal_strlit("60");
    assert("60"@.len() == 2 && "90"@.len() == 2 && "120"@.len() == 3);
    assert("60"@[0] != "90"@[0]);
}

} // verus!
