//! The command line.
use vstd::prelude::*;

use crate::number;
use crate::settings::{Settings, SettingsView};
use crate::text;

verus! {

broadcast use vstd::string::group_string_axioms;

/// What the command line sets.
pub struct CliOptions {
    pub config_file: Option<String>,
    pub cpuset_name: Option<String>,
    /// Seconds between two looks.
    pub interval: Option<u64>,
    pub web: bool,
}

/// What the command line comes to.
pub enum Cli {
    Run(CliOptions),
    /// Show the version.
    Version,
    /// Show the help.
    Help,
    /// `-c` without a file.
    MissingConfig,
    /// `-b` without a name.
    MissingCpuset,
    /// `-b` with a name that no directory can have.
    BadCpuset(String),
    /// `-s` without a number.
    MissingInterval,
    /// `-s` with something that is no number of seconds.
    BadInterval(String),
    /// There is no such option.
    Unknown(String),
}

/// What the command line sets, as contracts speak of it.
#[verifier::ext_equal]
pub ghost struct OptionsView {
    pub config_file: Option<Seq<char>>,
    pub cpuset_name: Option<Seq<char>>,
    pub interval: Option<nat>,
    pub web: bool,
}

/// What the command line comes to, as contracts speak of it.
#[verifier::ext_equal]
pub ghost enum CliView {
    Run(OptionsView),
    Version,
    Help,
    MissingConfig,
    MissingCpuset,
    BadCpuset(Seq<char>),
    MissingInterval,
    BadInterval(Seq<char>),
    Unknown(Seq<char>),
}

/// A text that may be missing.
pub open spec fn opt_view(s: Option<String>) -> Option<Seq<char>> {
    match s {
        Some(t) => Some(t@),
        None => None,
    }
}

impl View for CliOptions {
    type V = OptionsView;

    open spec fn view(&self) -> OptionsView {
        OptionsView {
            config_file: opt_view(self.config_file),
            cpuset_name: opt_view(self.cpuset_name),
            interval: match self.interval {
                Some(n) => Some(n as nat),
                None => None,
            },
            web: self.web,
        }
    }
}

impl View for Cli {
    type V = CliView;

    open spec fn view(&self) -> CliView {
        match self {
            Cli::Run(o) => CliView::Run(o@),
            Cli::Version => CliView::Version,
            Cli::Help => CliView::Help,
            Cli::MissingConfig => CliView::MissingConfig,
            Cli::MissingCpuset => CliView::MissingCpuset,
            Cli::BadCpuset(s) => CliView::BadCpuset(s@),
            Cli::MissingInterval => CliView::MissingInterval,
            Cli::BadInterval(s) => CliView::BadInterval(s@),
            Cli::Unknown(s) => CliView::Unknown(s@),
        }
    }
}

/// What the arguments from `i` on come to; the first that ends the daemon
/// decides.
pub open spec fn cli_from(args: Seq<Seq<char>>, i: int, o: OptionsView) -> CliView
    decreases args.len() - i,
{
    if i >= args.len() {
        CliView::Run(o)
    } else if args[i] == "-c"@ {
        if i + 1 < args.len() {
            cli_from(args, i + 2, OptionsView { config_file: Some(args[i + 1]), ..o })
        } else {
            CliView::MissingConfig
        }
    } else if args[i] == "-w"@ {
        cli_from(args, i + 1, OptionsView { web: true, ..o })
    } else if args[i] == "-b"@ {
        if i + 1 >= args.len() {
            CliView::MissingCpuset
        } else if args[i + 1].len() == 0 || args[i + 1].contains('/') {
            CliView::BadCpuset(args[i + 1])
        } else {
            cli_from(args, i + 2, OptionsView { cpuset_name: Some(args[i + 1]), ..o })
        }
    } else if args[i] == "-s"@ {
        if i + 1 >= args.len() {
            CliView::MissingInterval
        } else {
            match number::unsigned(args[i + 1], u64::MAX as nat) {
                Some(n) => if n >= 1 {
                    cli_from(args, i + 2, OptionsView { interval: Some(n), ..o })
                } else {
                    CliView::BadInterval(args[i + 1])
                },
                None => CliView::BadInterval(args[i + 1]),
            }
        }
    } else if args[i] == "-v"@ {
        CliView::Version
    } else if args[i] == "-h"@ {
        CliView::Help
    } else {
        CliView::Unknown(args[i])
    }
}

/// Nothing is set.
pub open spec fn no_options() -> OptionsView {
    OptionsView { config_file: None, cpuset_name: None, interval: None, web: false }
}

/// Reads the arguments, without the name of the program.
pub fn parse_args(args: &Vec<String>) -> (r: Cli)
    ensures
        r@ == cli_from(text::owned(args@), 0, no_options()),
{
    let ghost all = text::owned(args@);
    let mut o = CliOptions { config_file: None, cpuset_name: None, interval: None, web: false };
    let n: usize = args.len();
    let mut i: usize = 0;
    proof {
        assert(o@ =~= no_options());
    }
    while i < n
        invariant
            i <= n,
            n == args.len(),
            all == text::owned(args@),
            cli_from(all, 0, no_options()) == cli_from(all, i as int, o@),
        decreases n - i,
    {
        let a = args[i].as_str();
        assert(all[i as int] == a@);
        let last: bool = n - i < 2;
        if !last {
            assert(all[i + 1] == args@[i + 1]@);
        }
        if text::same(a, "-c") {
            if last {
                return Cli::MissingConfig;
            }
            o.config_file = Some(args[i + 1].clone());
            i = i + 2;
        } else if text::same(a, "-w") {
            o.web = true;
            i = i + 1;
        } else if text::same(a, "-b") {
            if last {
                return Cli::MissingCpuset;
            }
            let name = args[i + 1].as_str();
            if name.is_empty() || text::has_char(name, '/') {
                return Cli::BadCpuset(name.to_owned());
            }
            o.cpuset_name = Some(name.to_owned());
            i = i + 2;
        } else if text::same(a, "-s") {
            if last {
                return Cli::MissingInterval;
            }
            let v = args[i + 1].as_str();
            match number::parse_u64(v) {
                Some(x) => {
                    if x < 1 {
                        return Cli::BadInterval(v.to_owned());
                    }
                    o.interval = Some(x);
                },
                None => {
                    return Cli::BadInterval(v.to_owned());
                },
            }
            i = i + 2;
        } else if text::same(a, "-v") {
            return Cli::Version;
        } else if text::same(a, "-h") {
            return Cli::Help;
        } else {
            return Cli::Unknown(a.to_owned());
        }
    }
    Cli::Run(o)
}

/// The settings in force: the command line comes before the settings file.
pub open spec fn in_force(o: OptionsView, st: SettingsView) -> SettingsView {
    SettingsView {
        web_enable: o.web || st.web_enable,
        mode: st.mode,
        check_interval: match o.interval {
            Some(n) => n as u64,
            None => st.check_interval,
        },
        cpuset_name: match o.cpuset_name {
            Some(n) => n,
            None => st.cpuset_name,
        },
        config_file: match o.config_file {
            Some(f) => f,
            None => st.config_file,
        },
    }
}

/// Without options the settings are in force as they are, and what an option
/// sets is in force in their place.
pub proof fn options_come_before_settings(o: OptionsView, st: SettingsView, x: Seq<char>, n: u64)
    ensures
        in_force(no_options(), st) == st,
        in_force(OptionsView { config_file: Some(x), ..o }, st).config_file == x,
        in_force(OptionsView { cpuset_name: Some(x), ..o }, st).cpuset_name == x,
        in_force(OptionsView { interval: Some(n as nat), ..o }, st).check_interval == n,
        in_force(OptionsView { web: true, ..o }, st).web_enable,
        o.config_file is None ==> in_force(o, st).config_file == st.config_file,
        o.cpuset_name is None ==> in_force(o, st).cpuset_name == st.cpuset_name,
        o.interval is None ==> in_force(o, st).check_interval == st.check_interval,
        !o.web ==> in_force(o, st).web_enable == st.web_enable,
        in_force(o, st).mode == st.mode,
{
}

/// The settings in force: the command line comes before the settings file.
pub fn merge(o: &CliOptions, st: &Settings) -> (r: Settings)
    ensures
        r@ == in_force(o@, st@),
{
    Settings {
        web_enable: o.web || st.web_enable,
        mode: st.mode,
        check_interval: match o.interval {
            Some(n) => n,
            None => st.check_interval,
        },
        cpuset_name: match &o.cpuset_name {
            Some(n) => n.clone(),
            None => st.cpuset_name.clone(),
        },
        config_file: match &o.config_file {
            Some(f) => f.clone(),
            None => st.config_file.clone(),
        },
    }
}

/// The options differ.
proof fn lemma_options()
    ensures
        "-c"@ != "-w"@ && "-c"@ != "-b"@ && "-c"@ != "-s"@ && "-c"@ != "-v"@ && "-c"@ != "-h"@,
        "-w"@ != "-b"@ && "-w"@ != "-s"@ && "-w"@ != "-v"@ && "-w"@ != "-h"@,
        "-b"@ != "-s"@ && "-b"@ != "-v"@ && "-b"@ != "-h"@,
        "-s"@ != "-v"@ && "-s"@ != "-h"@,
        "-v"@ != "-h"@,
{
    reveal_strlit("-c");
    reveal_strlit("-w");
    reveal_strlit("-b");
    reveal_strlit("-s");
    reveal_strlit("-v");
    reveal_strlit("-h");
    assert("-c"@[1] == 'c');
    assert("-w"@[1] == 'w');
    assert("-b"@[1] == 'b');
    assert("-s"@[1] == 's');
    assert("-v"@[1] == 'v');
    assert("-h"@[1] == 'h');
}

/// Each option sets what it names: `-c` the rule file, `-b` the cpuset
/// directory, `-s` the seconds, and `-w` the front end; what stands behind it is
/// read on. `-v` and `-h` end the daemon, and so does an option that is not
/// known.
pub proof fn options_set_what_they_name(
    rest: Seq<Seq<char>>,
    x: Seq<char>,
    n: nat,
    o: OptionsView,
)
    requires
        1 <= n <= u64::MAX,
    ensures
        cli_from(seq!["-c"@, x] + rest, 0, o) == cli_from(
            rest,
            0,
            OptionsView { config_file: Some(x), ..o },
        ),
        x.len() > 0 && !x.contains('/') ==> cli_from(seq!["-b"@, x] + rest, 0, o) == cli_from(
            rest,
            0,
            OptionsView { cpuset_name: Some(x), ..o },
        ),
        x.len() == 0 || x.contains('/') ==> cli_from(seq!["-b"@, x] + rest, 0, o)
            == CliView::BadCpuset(x),
        cli_from(seq!["-s"@, number::dec(n)] + rest, 0, o) == cli_from(
            rest,
            0,
            OptionsView { interval: Some(n), ..o },
        ),
        cli_from(seq!["-s"@, "0"@] + rest, 0, o) == CliView::BadInterval("0"@),
        cli_from(seq!["-w"@] + rest, 0, o) == cli_from(rest, 0, OptionsView { web: true, ..o }),
        cli_from(seq!["-v"@] + rest, 0, o) == CliView::Version,
        cli_from(seq!["-h"@] + rest, 0, o) == CliView::Help,
        cli_from(seq![], 0, o) == CliView::Run(o),
        cli_from(seq!["-c"@], 0, o) == CliView::MissingConfig,
        cli_from(seq!["-b"@], 0, o) == CliView::MissingCpuset,
        cli_from(seq!["-s"@], 0, o) == CliView::MissingInterval,
        x != "-c"@ && x != "-w"@ && x != "-b"@ && x != "-s"@ && x != "-v"@ && x != "-h"@ ==> cli_from(
            seq![x] + rest,
            0,
            o,
        ) == CliView::Unknown(x),
{
    lemma_options();
    number::unsigned_reads_dec(n, u64::MAX as nat);
    number::unsigned_reads_dec(0, u64::MAX as nat);
    reveal_strlit("0");
    assert(number::dec(0) =~= "0"@);
    let c = seq!["-c"@, x];
    let b = seq!["-b"@, x];
    let s = seq!["-s"@, number::dec(n)];
    let z = seq!["-s"@, "0"@];
    let w = seq!["-w"@];
    lemma_read_on(c, rest, 0, OptionsView { config_file: Some(x), ..o });
    lemma_read_on(b, rest, 0, OptionsView { cpuset_name: Some(x), ..o });
    lemma_read_on(s, rest, 0, OptionsView { interval: Some(n), ..o });
    lemma_read_on(w, rest, 0, OptionsView { web: true, ..o });
    assert((c + rest)[0] == "-c"@ && (c + rest)[1] == x);
    assert((b + rest)[0] == "-b"@ && (b + rest)[1] == x);
    assert((s + rest)[0] == "-s"@ && (s + rest)[1] == number::dec(n));
    assert((z + rest)[0] == "-s"@ && (z + rest)[1] == "0"@);
    assert((w + rest)[0] == "-w"@);
    assert((seq!["-v"@] + rest)[0] == "-v"@);
    assert((seq!["-h"@] + rest)[0] == "-h"@);
    assert((seq![x] + rest)[0] == x);
}

/// What stands before the place where reading goes on makes no difference.
proof fn lemma_read_on(a: Seq<Seq<char>>, rest: Seq<Seq<char>>, i: int, o: OptionsView)
    requires
        0 <= i,
    ensures
        cli_from(a + rest, a.len() + i, o) == cli_from(rest, i, o),
    decreases rest.len() - i,
{
    let all = a + rest;
    if i < rest.len() {
        assert(all[a.len() + i] == rest[i]);
        if i + 1 < rest.len() {
            assert(all[a.len() + i + 1] == rest[i + 1]);
            lemma_read_on(a, rest, i + 2, OptionsView { config_file: Some(rest[i + 1]), ..o });
            lemma_read_on(a, rest, i + 2, OptionsView { cpuset_name: Some(rest[i + 1]), ..o });
            if let Some(n) = number::unsigned(rest[i + 1], u64::MAX as nat) {
                lemma_read_on(a, rest, i + 2, OptionsView { interval: Some(n), ..o });
            }
        }
        lemma_read_on(a, rest, i + 1, OptionsView { web: true, ..o });
    }
}

} // verus!
