//! The settings of the daemon that outlive it.
use vstd::prelude::*;

use crate::cpuset::DEFAULT_CPUSET_NAME;
use crate::json;
use crate::json::Field;
use crate::text;

verus! {

broadcast use vstd::string::group_string_axioms;

/// The rule file where none is given.
pub const DEFAULT_CONFIG_FILE: &'static str = "./applist.conf";

/// The longest time, in seconds, between two looks.
pub const MAX_INTERVAL: u64 = 3600;

/// The settings.
pub struct Settings {
    pub web_enable: bool,
    /// 0, 1 or 2: chosen by the daemon, or forced.
    pub mode: u8,
    /// Seconds between two looks.
    pub check_interval: u64,
    pub cpuset_name: String,
    pub config_file: String,
}

/// The contents of the settings.
#[verifier::ext_equal]
pub ghost struct SettingsView {
    pub web_enable: bool,
    pub mode: u8,
    pub check_interval: u64,
    pub cpuset_name: Seq<char>,
    pub config_file: Seq<char>,
}

impl View for Settings {
    type V = SettingsView;

    open spec fn view(&self) -> SettingsView {
        SettingsView {
            web_enable: self.web_enable,
            mode: self.mode,
            check_interval: self.check_interval,
            cpuset_name: self.cpuset_name@,
            config_file: self.config_file@,
        }
    }
}

/// The settings of a daemon that was never told otherwise.
pub open spec fn default_settings() -> SettingsView {
    SettingsView {
        web_enable: false,
        mode: 0,
        check_interval: 2,
        cpuset_name: DEFAULT_CPUSET_NAME@,
        config_file: DEFAULT_CONFIG_FILE@,
    }
}

/// White space or a control character, as far as ASCII goes.
pub open spec fn is_blank(c: char) -> bool {
    c as u32 <= 0x20
}

/// A name that a cpuset directory can have.
pub open spec fn is_valid_name(s: Seq<char>) -> bool {
    &&& 0 < s.len()
    &&& text::byte_len(s) < 64
    &&& !s.contains('/')
    &&& forall|i: int| 0 <= i < s.len() ==> !is_blank(#[trigger] s[i])
}

/// A path that a rule file can have.
pub open spec fn is_valid_path(s: Seq<char>) -> bool {
    0 < s.len() && text::byte_len(s) < 256 && crate::config::is_printable(s)
}

/// Whether no character is white space or a control character.
fn no_blanks(s: &str) -> (r: bool)
    ensures
        r == (forall|i: int| 0 <= i < s@.len() ==> !is_blank(#[trigger] s@[i])),
{
    let cs = text::chars_of(s);
    let mut i: usize = 0;
    while i < cs.len()
        invariant
            i <= cs.len(),
            cs@ == s@,
            forall|j: int| 0 <= j < i ==> !is_blank(#[trigger] s@[j]),
        decreases cs.len() - i,
    {
        if cs[i] as u32 <= 0x20 {
            assert(is_blank(s@[i as int]));
            return false;
        }
        i += 1;
    }
    true
}

/// Whether a cpuset directory can have that name.
pub fn valid_name(s: &str) -> (r: bool)
    ensures
        r == is_valid_name(s@),
{
    !s.is_empty() && text::byte_length(s) < 64 && !text::has_char(s, '/') && no_blanks(s)
}

/// Whether a rule file can have that path.
pub fn valid_path(s: &str) -> (r: bool)
    ensures
        r == is_valid_path(s@),
{
    !s.is_empty() && text::byte_length(s) < 256 && crate::config::printable(s)
}

/// The settings that the members of an object give; what is missing or makes no
/// sense has its default, and numbers are brought into their range.
pub open spec fn settings_of(m: Map<Seq<char>, Field>) -> SettingsView {
    let d = default_settings();
    SettingsView {
        web_enable: match json::flag_of(m, "web_enable"@) {
            Some(b) => b,
            None => d.web_enable,
        },
        mode: match json::number_of(m, "mode"@) {
            Some(n) => if n <= 2 {
                n as u8
            } else {
                2
            },
            None => d.mode,
        },
        check_interval: match json::number_of(m, "check_interval"@) {
            Some(n) => if n < 1 {
                1
            } else if n > MAX_INTERVAL {
                MAX_INTERVAL
            } else {
                n
            },
            None => d.check_interval,
        },
        cpuset_name: match json::text_of(m, "cpuset_name"@) {
            Some(s) => if is_valid_name(s) {
                s
            } else {
                d.cpuset_name
            },
            None => d.cpuset_name,
        },
        config_file: match json::text_of(m, "config_file"@) {
            Some(s) => if is_valid_path(s) {
                s
            } else {
                d.config_file
            },
            None => d.config_file,
        },
    }
}

/// The settings as the members of an object.
pub open spec fn settings_fields(v: SettingsView) -> Map<Seq<char>, Field> {
    Map::<Seq<char>, Field>::empty().insert("web_enable"@, Field::Flag(v.web_enable)).insert(
        "mode"@,
        Field::Number(v.mode as u64),
    ).insert("check_interval"@, Field::Number(v.check_interval)).insert(
        "cpuset_name"@,
        Field::Text(v.cpuset_name),
    ).insert("config_file"@, Field::Text(v.config_file))
}

impl Default for Settings {
    fn default() -> (r: Settings)
        ensures
            r@ == default_settings(),
    {
        Settings {
            web_enable: false,
            mode: 0,
            check_interval: 2,
            cpuset_name: DEFAULT_CPUSET_NAME.to_owned(),
            config_file: DEFAULT_CONFIG_FILE.to_owned(),
        }
    }
}

/// The fields of the settings, where they are given.
pub struct GivenSettings<'a> {
    pub web_enable: Option<bool>,
    pub mode: Option<u64>,
    pub check_interval: Option<u64>,
    pub cpuset_name: Option<&'a str>,
    pub config_file: Option<&'a str>,
}

/// The text that is given under a name.
pub open spec fn given_text(s: Option<&str>) -> Option<Seq<char>> {
    match s {
        Some(t) => Some(t@),
        None => None,
    }
}

impl<'a> GivenSettings<'a> {
    /// The object has these members.
    pub open spec fn matches(self, m: Map<Seq<char>, Field>) -> bool {
        &&& json::flag_of(m, "web_enable"@) == self.web_enable
        &&& json::number_of(m, "mode"@) == self.mode
        &&& json::number_of(m, "check_interval"@) == self.check_interval
        &&& json::text_of(m, "cpuset_name"@) == given_text(self.cpuset_name)
        &&& json::text_of(m, "config_file"@) == given_text(self.config_file)
    }
}

impl Settings {
    /// The settings that the given fields make; what is missing or makes no
    /// sense has its default.
    pub fn from_given(g: &GivenSettings) -> (r: Settings)
        ensures
            forall|m: Map<Seq<char>, Field>| #[trigger] g.matches(m) ==> r@ == settings_of(m),
            r@.web_enable == (match g.web_enable {
                Some(b) => b,
                None => false,
            }),
            r@.mode == (match g.mode {
                Some(n) => if n <= 2 {
                    n as int
                } else {
                    2
                },
                None => 0,
            }),
            r@.check_interval == (match g.check_interval {
                Some(n) => if n < 1 {
                    1
                } else if n > MAX_INTERVAL {
                    MAX_INTERVAL
                } else {
                    n
                },
                None => 2,
            }),
            r@.cpuset_name == (match g.cpuset_name {
                Some(s) => if is_valid_name(s@) {
                    s@
                } else {
                    DEFAULT_CPUSET_NAME@
                },
                None => DEFAULT_CPUSET_NAME@,
            }),
            r@.config_file == (match g.config_file {
                Some(s) => if is_valid_path(s@) {
                    s@
                } else {
                    DEFAULT_CONFIG_FILE@
                },
                None => DEFAULT_CONFIG_FILE@,
            }),
    {
        let d = Settings::default();
        let mode: u8 = match g.mode {
            Some(n) => if n <= 2 {
                n as u8
            } else {
                2
            },
            None => d.mode,
        };
        let check_interval: u64 = match g.check_interval {
            Some(n) => if n < 1 {
                1
            } else if n > MAX_INTERVAL {
                MAX_INTERVAL
            } else {
                n
            },
            None => d.check_interval,
        };
        let cpuset_name: String = match g.cpuset_name {
            Some(s) => if valid_name(s) {
                s.to_owned()
            } else {
                d.cpuset_name
            },
            None => d.cpuset_name,
        };
        let config_file: String = match g.config_file {
            Some(s) => if valid_path(s) {
                s.to_owned()
            } else {
                d.config_file
            },
            None => d.config_file,
        };
        Settings {
            web_enable: match g.web_enable {
                Some(b) => b,
                None => d.web_enable,
            },
            mode,
            check_interval,
            cpuset_name,
            config_file,
        }
    }

    /// The settings in a JSON value.
    fn from_json(v: &serde_json::Value) -> (r: Settings)
        ensures
            r@ == settings_of(json::members(*v)),
    {
        let g = GivenSettings {
            web_enable: json::flag_member(v, "web_enable"),
            mode: json::number_member(v, "mode"),
            check_interval: json::number_member(v, "check_interval"),
            cpuset_name: json::text_member(v, "cpuset_name"),
            config_file: json::text_member(v, "config_file"),
        };
        assert(g.matches(json::members(*v)));
        Settings::from_given(&g)
    }

    /// The text of the settings file; it is read as these settings.
    pub fn to_text(&self) -> (r: String)
        ensures
            r@ == json::pretty_json(settings_fields(self@)).push('\n'),
            json::json_text_members(r@) == Some(settings_fields(self@)),
    {
        let mut m = json::new_object();
        json::put_flag(&mut m, "web_enable", self.web_enable);
        json::put_number(&mut m, "mode", self.mode as u64);
        json::put_number(&mut m, "check_interval", self.check_interval);
        json::put_text(&mut m, "cpuset_name", self.cpuset_name.as_str());
        json::put_text(&mut m, "config_file", self.config_file.as_str());
        let mut r = json::pretty(&m);
        r.push('\n');
        r
    }
}

/// What became of reading the settings file.
pub enum FileRead {
    Text(String),
    /// There is no such file.
    Missing,
    Failed,
}

/// The settings of a text; the default ones where it is no JSON.
pub open spec fn settings_in(t: Seq<char>) -> SettingsView {
    match json::json_text_members(t) {
        Some(m) => settings_of(m),
        None => default_settings(),
    }
}

/// The settings to start with, and whether they are to be saved because there
/// was no file.
pub fn settings_load(read: &FileRead) -> (r: (Settings, bool))
    ensures
        r.1 == (*read is Missing),
        r.0@ == (match *read {
            FileRead::Text(t) => settings_in(t@),
            _ => default_settings(),
        }),
{
    match read {
        FileRead::Text(t) => match json::json_of_text(t.as_str()) {
            Some(v) => (Settings::from_json(&v), false),
            None => (Settings::default(), false),
        },
        FileRead::Missing => (Settings::default(), true),
        FileRead::Failed => (Settings::default(), false),
    }
}

/// The settings of the running daemon, to be saved: the name of the cpuset
/// directory is the last part of its path.
pub fn settings_save(web: bool, mode: u8, interval: u64, base: &str, config_file: &str) -> (r:
    Settings)
    ensures
        r@ == (SettingsView {
            web_enable: web,
            mode,
            check_interval: if interval >= 1 {
                interval
            } else {
                1
            },
            cpuset_name: text::after_last(base@, '/'),
            config_file: config_file@,
        }),
{
    Settings {
        web_enable: web,
        mode,
        check_interval: if interval >= 1 {
            interval
        } else {
            1
        },
        cpuset_name: text::tail_after_last(base, '/').to_owned(),
        config_file: config_file.to_owned(),
    }
}

/// Settings that are in their ranges.
pub open spec fn are_valid(v: SettingsView) -> bool {
    &&& v.mode <= 2
    &&& 1 <= v.check_interval <= MAX_INTERVAL
    &&& is_valid_name(v.cpuset_name)
    &&& is_valid_path(v.config_file)
}

/// Settings that were saved are loaded as they were.
pub proof fn settings_read_back(v: SettingsView)
    requires
        are_valid(v),
    ensures
        settings_of(settings_fields(v)) == v,
{
    reveal_strlit("web_enable");
    reveal_strlit("mode");
    reveal_strlit("check_interval");
    reveal_strlit("cpuset_name");
    reveal_strlit("config_file");
    assert("cpuset_name"@[0] != "config_file"@[0] || "cpuset_name"@[1] != "config_file"@[1]);
    assert("web_enable"@.len() != "mode"@.len());
    assert("check_interval"@.len() == 14);
    let m = settings_fields(v);
    assert(m["web_enable"@] == Field::Flag(v.web_enable));
    assert(m["mode"@] == Field::Number(v.mode as u64));
    assert(m["check_interval"@] == Field::Number(v.check_interval));
    assert(m["cpuset_name"@] == Field::Text(v.cpuset_name));
    assert(m["config_file"@] == Field::Text(v.config_file));
}

/// Whatever the file says, the settings that are loaded are in their ranges.
pub proof fn loaded_settings_are_valid(m: Map<Seq<char>, Field>)
    ensures
        settings_of(m).mode <= 2,
        1 <= settings_of(m).check_interval <= MAX_INTERVAL,
        is_valid_name(settings_of(m).cpuset_name) || settings_of(m).cpuset_name
            == DEFAULT_CPUSET_NAME@,
        is_valid_path(settings_of(m).config_file) || settings_of(m).config_file
            == DEFAULT_CONFIG_FILE@,
{
}

/// Every setting is read under its own name, and a daemon that was never told
/// otherwise has the defaults: no front end, the mode of its choice, two
/// seconds, its own cpuset directory and the rule file beside it.
pub proof fn settings_are_read_by_name(
    m: Map<Seq<char>, Field>,
    web: bool,
    mode: u64,
    interval: u64,
    name: Seq<char>,
    path: Seq<char>,
)
    ensures
        m.contains_key("web_enable"@) && m["web_enable"@] == Field::Flag(web) ==> settings_of(
            m,
        ).web_enable == web,
        m.contains_key("mode"@) && m["mode"@] == Field::Number(mode) && mode <= 2 ==> settings_of(
            m,
        ).mode == mode,
        m.contains_key("check_interval"@) && m["check_interval"@] == Field::Number(interval) && 1
            <= interval <= 3600 ==> settings_of(m).check_interval == interval,
        m.contains_key("check_interval"@) && m["check_interval"@] == Field::Number(interval)
            && interval > 3600 ==> settings_of(m).check_interval == 3600,
        m.contains_key("cpuset_name"@) && m["cpuset_name"@] == Field::Text(name) && is_valid_name(
            name,
        ) ==> settings_of(m).cpuset_name == name,
        m.contains_key("config_file"@) && m["config_file"@] == Field::Text(path) && is_valid_path(
            path,
        ) ==> settings_of(m).config_file == path,
        settings_of(Map::empty()) == (SettingsView {
            web_enable: false,
            mode: 0,
            check_interval: 2,
            cpuset_name: "AppOpt"@,
            config_file: "./applist.conf"@,
        }),
        name.len() == 0 || name.contains('/') ==> !is_valid_name(name),
        path.len() == 0 ==> !is_valid_path(path),
{
}

} // verus!
