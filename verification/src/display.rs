//! The display modes of a device: what the display service reports, and which
//! modes stand for the high, middle and low refresh rate.
use vstd::prelude::*;

use crate::http;
use crate::number;
use crate::text;

verus! {

broadcast use vstd::string::group_string_axioms;

/// A display mode: its number, its size, and its refresh rate in whole Hz.
#[derive(Clone, Copy, PartialEq, Eq, Structural, Debug)]
pub struct DisplayMode {
    pub id: u32,
    pub width: u32,
    pub height: u32,
    pub hz: u32,
}

/// One of the characters that part the fields of a report line.
pub open spec fn is_field_end(c: char) -> bool {
    c == ',' || c == '{' || c == '}'
}

/// How many characters stand before the first field end.
pub open spec fn field_len(s: Seq<char>) -> nat
    decreases s.len(),
{
    if s.len() == 0 || is_field_end(s[0]) {
        0
    } else {
        1 + field_len(s.skip(1))
    }
}

/// The fields of a report line.
pub open spec fn fields(s: Seq<char>) -> Seq<Seq<char>>
    decreases s.len(),
{
    let k = field_len(s) as int;
    if k >= s.len() {
        seq![s]
    } else {
        seq![s.take(k)] + fields(s.skip(k + 1))
    }
}

proof fn lemma_field_len(s: Seq<char>, k: int)
    requires
        0 <= k <= s.len(),
        forall|j: int| 0 <= j < k ==> !is_field_end(s[j]),
        k < s.len() ==> is_field_end(s[k]),
    ensures
        field_len(s) == k,
    decreases k,
{
    if k > 0 {
        let t = s.skip(1);
        assert(!is_field_end(s[0]));
        assert forall|j: int| 0 <= j < k - 1 implies !is_field_end(t[j]) by {
            assert(t[j] == s[j + 1]);
        }
        if k < s.len() {
            assert(t[k - 1] == s[k]);
        }
        lemma_field_len(t, k - 1);
    }
}

/// Splits a report line into its fields.
fn split_fields<'a>(s: &'a str) -> (r: Vec<&'a str>)
    ensures
        text::views(r@) == fields(s@),
{
    let cs = text::chars_of(s);
    let n: usize = cs.len();
    let mut r: Vec<&'a str> = Vec::new();
    let mut start: usize = 0;
    assert(s@.skip(0) =~= s@);
    assert(text::views(r@) + fields(s@) =~= fields(s@));
    loop
        invariant_except_break
            start <= n,
            n == cs.len(),
            cs@ == s@,
            fields(s@) == text::views(r@) + fields(s@.skip(start as int)),
        ensures
            fields(s@) == text::views(r@),
        decreases n - start,
    {
        let mut i: usize = start;
        while i < n && !(cs[i] == ',' || cs[i] == '{' || cs[i] == '}')
            invariant
                start <= i <= n,
                n == cs.len(),
                cs@ == s@,
                forall|j: int| start <= j < i ==> !is_field_end(s@[j]),
            decreases n - i,
        {
            i += 1;
        }
        let ghost rest = s@.skip(start as int);
        proof {
            let k = i - start;
            assert forall|j: int| 0 <= j < k implies !is_field_end(rest[j]) by {
                assert(rest[j] == s@[start + j]);
            }
            if k < rest.len() {
                assert(rest[k] == s@[i as int]);
            }
            lemma_field_len(rest, k);
        }
        let part = s.substring_char(start, i);
        let ghost before = text::views(r@);
        r.push(part);
        assert(text::views(r@) =~= before.push(part@));
        if i == n {
            assert(part@ =~= rest);
            assert(before + seq![rest] =~= before.push(part@));
            break;
        }
        proof {
            assert(part@ =~= rest.take(i - start));
            assert(rest.skip(i - start + 1) =~= s@.skip(i + 1));
            let after = fields(s@.skip(i + 1));
            assert(before + (seq![part@] + after) =~= before.push(part@) + after);
        }
        start = i + 1;
    }
    r
}

/// What has been read of a display mode so far.
#[derive(Clone, Copy, PartialEq, Eq, Structural, Debug)]
pub struct ModeFields {
    pub id: Option<u32>,
    pub width: Option<u32>,
    pub height: Option<u32>,
    pub hz: Option<u32>,
}

/// A number of 32 bits, as far as the text is one.
pub open spec fn field_number(s: Seq<char>) -> Option<u32> {
    match number::unsigned(text::trimmed(s), u32::MAX as nat) {
        Some(v) => Some(v as u32),
        None => None,
    }
}

/// The whole Hz of a rate: what stands before its point.
pub open spec fn whole_hz(s: Seq<char>) -> Option<u32> {
    field_number(s.take(text::first(s, '.') as int))
}

/// What has been read of a display mode after one more field. A field for the
/// peak rate counts more than the others for a rate.
pub open spec fn field_step(m: ModeFields, field: Seq<char>) -> ModeFields {
    let c = text::trimmed(field);
    if text::starts(c, "id="@) {
        ModeFields { id: field_number(c.skip(3)), ..m }
    } else if text::starts(c, "width="@) {
        ModeFields { width: field_number(c.skip(6)), ..m }
    } else if text::starts(c, "height="@) {
        ModeFields { height: field_number(c.skip(7)), ..m }
    } else if text::starts(c, "peakRefreshRate="@) {
        ModeFields { hz: whole_hz(c.skip(16)), ..m }
    } else if m.hz is None && text::starts(c, "refreshRate="@) {
        ModeFields { hz: whole_hz(c.skip(12)), ..m }
    } else if m.hz is None && text::starts(c, "vsyncRate="@) {
        ModeFields { hz: whole_hz(c.skip(10)), ..m }
    } else if m.hz is None && text::starts(c, "fps="@) {
        ModeFields { hz: whole_hz(c.skip(4)), ..m }
    } else {
        m
    }
}

/// Nothing read yet.
pub open spec fn no_fields() -> ModeFields {
    ModeFields { id: None, width: None, height: None, hz: None }
}

/// What has been read after the first `n` fields.
pub open spec fn fields_after(fs: Seq<Seq<char>>, n: nat) -> ModeFields
    decreases n,
{
    if n == 0 {
        no_fields()
    } else {
        field_step(fields_after(fs, (n - 1) as nat), fs[n - 1])
    }
}

/// The mode that a report line describes, if it describes one completely.
pub open spec fn mode_of(line: Seq<char>) -> Option<DisplayMode> {
    let fs = fields(line);
    let m = fields_after(fs, fs.len());
    if !text::holds(line, "DisplayMode{id="@) {
        None
    } else {
        match (m.id, m.width, m.height, m.hz) {
            (Some(id), Some(width), Some(height), Some(hz)) => Some(
                DisplayMode { id, width, height, hz },
            ),
            _ => None,
        }
    }
}

/// Reads a number of 32 bits.
fn parse_field(s: &str) -> (r: Option<u32>)
    ensures
        r == field_number(s@),
{
    number::parse_u32(text::trim(s))
}

/// Reads the whole Hz of a rate.
fn parse_hz(s: &str) -> (r: Option<u32>)
    ensures
        r == whole_hz(s@),
{
    match text::find(s, '.') {
        Some(k) => parse_field(text::head(s, k)),
        None => {
            assert(s@.take(s@.len() as int) =~= s@);
            parse_field(s)
        },
    }
}

/// Takes one more field of a display mode in.
fn read_field(m: ModeFields, field: &str) -> (r: ModeFields)
    ensures
        r == field_step(m, field@),
{
    let c = text::trim(field);
    proof {
        reveal_strlit("id=");
        reveal_strlit("width=");
        reveal_strlit("height=");
        reveal_strlit("peakRefreshRate=");
        reveal_strlit("refreshRate=");
        reveal_strlit("vsyncRate=");
        reveal_strlit("fps=");
    }
    if text::starts_with(c, "id=") {
        ModeFields { id: parse_field(text::tail(c, 3)), ..m }
    } else if text::starts_with(c, "width=") {
        ModeFields { width: parse_field(text::tail(c, 6)), ..m }
    } else if text::starts_with(c, "height=") {
        ModeFields { height: parse_field(text::tail(c, 7)), ..m }
    } else if text::starts_with(c, "peakRefreshRate=") {
        ModeFields { hz: parse_hz(text::tail(c, 16)), ..m }
    } else if m.hz.is_none() && text::starts_with(c, "refreshRate=") {
        ModeFields { hz: parse_hz(text::tail(c, 12)), ..m }
    } else if m.hz.is_none() && text::starts_with(c, "vsyncRate=") {
        ModeFields { hz: parse_hz(text::tail(c, 10)), ..m }
    } else if m.hz.is_none() && text::starts_with(c, "fps=") {
        ModeFields { hz: parse_hz(text::tail(c, 4)), ..m }
    } else {
        m
    }
}

/// Reads the mode that a report line describes.
fn parse_mode(line: &str) -> (r: Option<DisplayMode>)
    ensures
        r == mode_of(line@),
{
    if !text::contains(line, "DisplayMode{id=") {
        return None;
    }
    let cols = split_fields(line);
    let ghost fs = fields(line@);
    let mut m = ModeFields { id: None, width: None, height: None, hz: None };
    let mut i: usize = 0;
    while i < cols.len()
        invariant
            i <= cols.len(),
            text::views(cols@) == fs,
            m == fields_after(fs, i as nat),
        decreases cols.len() - i,
    {
        assert(cols@[i as int]@ == fs[i as int]);
        m = read_field(m, cols[i]);
        i += 1;
    }
    match (m.id, m.width, m.height, m.hz) {
        (Some(id), Some(width), Some(height), Some(hz)) => Some(
            DisplayMode { id, width, height, hz },
        ),
        _ => None,
    }
}

/// The modes that the lines of a report describe, in their order.
pub open spec fn modes_of(lines: Seq<Seq<char>>) -> Seq<DisplayMode>
    decreases lines.len(),
{
    if lines.len() == 0 {
        seq![]
    } else {
        let rest = modes_of(lines.drop_last());
        match mode_of(lines.last()) {
            Some(m) => rest.push(m),
            None => rest,
        }
    }
}

/// Reads the modes that the text of a report describes.
pub fn parse_mode_lines(report: &str) -> (r: Vec<DisplayMode>)
    ensures
        r@ == modes_of(text::line_seq(report@)),
{
    let lines = text::lines(report);
    let ghost all = text::line_seq(report@);
    let mut r: Vec<DisplayMode> = Vec::new();
    let mut i: usize = 0;
    assert(all.take(0) =~= Seq::<Seq<char>>::empty());
    while i < lines.len()
        invariant
            i <= lines.len(),
            text::views(lines@) == all,
            r@ == modes_of(all.take(i as int)),
        decreases lines.len() - i,
    {
        let line = lines[i];
        assert(line@ == all[i as int]);
        proof {
            let b = all.take(i + 1);
            assert(b.drop_last() =~= all.take(i as int));
            assert(b.last() == line@);
        }
        if let Some(m) = parse_mode(line) {
            r.push(m);
        }
        i += 1;
    }
    assert(all.take(all.len() as int) =~= all);
    r
}

/// Reads the modes that the display service reports.
pub fn parse_display_modes(output: &[u8]) -> (r: Vec<DisplayMode>)
    ensures
        r@ == modes_of(text::line_seq(text::lossy(output@))),
{
    let t = text::lossy_text(output);
    parse_mode_lines(t.as_str())
}

/// How far a rate is from 90 Hz.
pub open spec fn off_90(hz: u32) -> int {
    if hz < 90 {
        90 - hz
    } else {
        hz - 90
    }
}

/// `hz` is the highest rate of a mode.
pub open spec fn is_top(ms: Seq<DisplayMode>, hz: u32) -> bool {
    &&& exists|i: int| 0 <= i < ms.len() && (#[trigger] ms[i]).hz == hz
    &&& forall|i: int| 0 <= i < ms.len() ==> (#[trigger] ms[i]).hz <= hz
}

/// `hz` is the lowest rate of a mode.
pub open spec fn is_bottom(ms: Seq<DisplayMode>, hz: u32) -> bool {
    &&& exists|i: int| 0 <= i < ms.len() && (#[trigger] ms[i]).hz == hz
    &&& forall|i: int| 0 <= i < ms.len() ==> hz <= (#[trigger] ms[i]).hz
}

/// `hz` is the rate nearest to 90 Hz, and that of the first such mode.
pub open spec fn is_middle(ms: Seq<DisplayMode>, hz: u32) -> bool {
    exists|i: int|
        0 <= i < ms.len() && (#[trigger] ms[i]).hz == hz && (forall|j: int|
            0 <= j < ms.len() ==> off_90(hz) <= off_90((#[trigger] ms[j]).hz)) && (forall|j: int|
            0 <= j < i ==> off_90(hz) < off_90((#[trigger] ms[j]).hz))
}

/// `id` is the lowest number of a mode with rate `hz`.
pub open spec fn is_first_id(ms: Seq<DisplayMode>, hz: u32, id: u32) -> bool {
    &&& exists|i: int| 0 <= i < ms.len() && (#[trigger] ms[i]).hz == hz && ms[i].id == id
    &&& forall|i: int| 0 <= i < ms.len() && (#[trigger] ms[i]).hz == hz ==> id <= ms[i].id
}

/// The lowest number of a mode with the given rate.
fn first_id(ms: &Vec<DisplayMode>, hz: u32) -> (r: u32)
    requires
        exists|i: int| 0 <= i < ms@.len() && (#[trigger] ms@[i]).hz == hz,
    ensures
        is_first_id(ms@, hz, r),
{
    let mut best: Option<u32> = None;
    let mut i: usize = 0;
    while i < ms.len()
        invariant
            i <= ms.len(),
            best is None ==> forall|j: int| 0 <= j < i ==> (#[trigger] ms@[j]).hz != hz,
            best matches Some(b) ==> (exists|j: int|
                0 <= j < i && (#[trigger] ms@[j]).hz == hz && ms@[j].id == b) && (forall|j: int|
                0 <= j < i && (#[trigger] ms@[j]).hz == hz ==> b <= ms@[j].id),
        decreases ms.len() - i,
    {
        let m = ms[i];
        if m.hz == hz {
            let lower: bool = match best {
                Some(b) => m.id < b,
                None => true,
            };
            if lower {
                best = Some(m.id);
                assert(ms@[i as int].id == m.id);
            }
        }
        i += 1;
    }
    match best {
        Some(b) => b,
        None => 0,
    }
}

/// The number of a mode as the display service takes it.
pub open spec fn mode_arg(id: u32) -> i32 {
    id as i32
}

/// The arguments stand for the highest rate, the one nearest to 90 Hz and the
/// lowest; without modes they are -1.
pub open spec fn is_rate_args(ms: Seq<DisplayMode>, args: Seq<i32>) -> bool {
    if ms.len() == 0 {
        args == seq![-1i32, -1i32, -1i32]
    } else {
        &&& exists|hz: u32, id: u32|
            is_top(ms, hz) && #[trigger] is_first_id(ms, hz, id) && args[0] == mode_arg(id)
        &&& exists|hz: u32, id: u32|
            is_middle(ms, hz) && #[trigger] is_first_id(ms, hz, id) && args[1] == mode_arg(id)
        &&& exists|hz: u32, id: u32|
            is_bottom(ms, hz) && #[trigger] is_first_id(ms, hz, id) && args[2] == mode_arg(id)
    }
}

/// Finds the modes for the high, the middle and the low rate: the highest and
/// the lowest that the device has, and the one nearest to 90 Hz. Of several
/// modes with the same rate the one with the lowest number counts. Without
/// modes all three are -1.
pub fn detect_rate_args(modes: &Vec<DisplayMode>) -> (r: [i32; 3])
    ensures
        is_rate_args(modes@, r@),
{
    if modes.len() == 0 {
        let r: [i32; 3] = [-1, -1, -1];
        assert(r@ =~= seq![-1i32, -1i32, -1i32]);
        return r;
    }
    let mut top: u32 = modes[0].hz;
    let mut bottom: u32 = modes[0].hz;
    let mut mid: u32 = modes[0].hz;
    let mut i: usize = 1;
    while i < modes.len()
        invariant
            1 <= i <= modes.len(),
            exists|j: int| 0 <= j < i && (#[trigger] modes@[j]).hz == top,
            exists|j: int| 0 <= j < i && (#[trigger] modes@[j]).hz == bottom,
            forall|j: int| 0 <= j < i ==> (#[trigger] modes@[j]).hz <= top,
            forall|j: int| 0 <= j < i ==> bottom <= (#[trigger] modes@[j]).hz,
            exists|k: int|
                0 <= k < i && (#[trigger] modes@[k]).hz == mid && (forall|j: int|
                    0 <= j < i ==> off_90(mid) <= off_90((#[trigger] modes@[j]).hz)) && (forall|
                    j: int,
                |
                    0 <= j < k ==> off_90(mid) < off_90((#[trigger] modes@[j]).hz)),
        decreases modes.len() - i,
    {
        let hz: u32 = modes[i].hz;
        assert(modes@[i as int].hz == hz);
        if hz > top {
            top = hz;
        }
        if hz < bottom {
            bottom = hz;
        }
        let d: u32 = if hz < 90 {
            90 - hz
        } else {
            hz - 90
        };
        let m: u32 = if mid < 90 {
            90 - mid
        } else {
            mid - 90
        };
        if d < m {
            mid = hz;
        }
        i += 1;
    }
    let high: u32 = first_id(modes, top);
    let middle: u32 = first_id(modes, mid);
    let low: u32 = first_id(modes, bottom);
    assert(is_top(modes@, top) && is_first_id(modes@, top, high));
    assert(is_middle(modes@, mid) && is_first_id(modes@, mid, middle));
    assert(is_bottom(modes@, bottom) && is_first_id(modes@, bottom, low));
    [
        #[verifier::truncate]
        (high as i32),
        #[verifier::truncate]
        (middle as i32),
        #[verifier::truncate]
        (low as i32),
    ]
}

/// Some mode has the rate `hz`.
pub open spec fn has_rate(ms: Seq<DisplayMode>, hz: u32) -> bool {
    exists|i: int| 0 <= i < ms.len() && (#[trigger] ms[i]).hz == hz
}

/// Whether some mode has a given rate.
fn any_rate(ms: &Vec<DisplayMode>, hz: u32) -> (r: bool)
    ensures
        r == has_rate(ms@, hz),
{
    let mut i: usize = 0;
    while i < ms.len()
        invariant
            i <= ms.len(),
            forall|j: int| 0 <= j < i ==> (#[trigger] ms@[j]).hz != hz,
        decreases ms.len() - i,
    {
        if ms[i].hz == hz {
            assert(ms@[i as int].hz == hz);
            return true;
        }
        i += 1;
    }
    false
}

/// Whether the device has 120, 90 and 60 Hz. Without modes it is taken to have
/// all three.
pub fn detect_available_modes(modes: &Vec<DisplayMode>) -> (r: [bool; 3])
    ensures
        r@ == seq![
            modes@.len() == 0 || has_rate(modes@, 120),
            modes@.len() == 0 || has_rate(modes@, 90),
            modes@.len() == 0 || has_rate(modes@, 60),
        ],
{
    let r: [bool; 3] = if modes.len() == 0 {
        [true, true, true]
    } else {
        [any_rate(modes, 120), any_rate(modes, 90), any_rate(modes, 60)]
    };
    assert(r@ =~= seq![
        modes@.len() == 0 || has_rate(modes@, 120),
        modes@.len() == 0 || has_rate(modes@, 90),
        modes@.len() == 0 || has_rate(modes@, 60),
    ]);
    r
}

/// A mode as text, such as `1|1080x2400 120Hz`.
pub open spec fn mode_label(m: DisplayMode) -> Seq<char> {
    number::dec(m.id as nat) + seq!['|'] + number::dec(m.width as nat) + seq!['x'] + number::dec(
        m.height as nat,
    ) + seq![' '] + number::dec(m.hz as nat) + "Hz"@
}

/// The modes as text.
pub fn fmt_device_modes(modes: &Vec<DisplayMode>) -> (r: Vec<String>)
    ensures
        text::owned(r@) == modes@.map_values(|m: DisplayMode| mode_label(m)),
{
    let mut r: Vec<String> = Vec::new();
    let ghost all = modes@.map_values(|m: DisplayMode| mode_label(m));
    let mut i: usize = 0;
    while i < modes.len()
        invariant
            i <= modes.len(),
            all == modes@.map_values(|m: DisplayMode| mode_label(m)),
            text::owned(r@) == all.take(i as int),
        decreases modes.len() - i,
    {
        let m = modes[i];
        let mut s = String::new();
        number::push_u64(&mut s, m.id as u64);
        s.push('|');
        number::push_u64(&mut s, m.width as u64);
        s.push('x');
        number::push_u64(&mut s, m.height as u64);
        s.push(' ');
        number::push_u64(&mut s, m.hz as u64);
        s.append("Hz");
        assert(s@ =~= mode_label(m));
        let ghost before = text::owned(r@);
        r.push(s);
        assert(text::owned(r@) =~= before.push(mode_label(m)));
        i += 1;
        assert(all.take(i as int) =~= all.take(i - 1).push(all[i - 1]));
    }
    assert(all.take(all.len() as int) =~= all);
    r
}

/// The default rates of a device: the highest that it has when active, and the
/// lowest when idle; 120 and 60 where it has none of the three.
pub open spec fn default_rates(avail: Seq<bool>) -> (int, int) {
    let any = avail[0] || avail[1] || avail[2];
    (
        if avail[0] || !any {
            120
        } else if avail[1] {
            90
        } else {
            60
        },
        if avail[2] || !any {
            60
        } else if avail[1] {
            90
        } else {
            120
        },
    )
}

/// The default rates of a device, in Hz.
pub fn default_rates_from_modes(available: &[bool; 3]) -> (r: (i32, i32))
    ensures
        (r.0 as int, r.1 as int) == default_rates(available@),
        r.0 >= r.1,
{
    let any: bool = available[0] || available[1] || available[2];
    let active: i32 = if available[0] || !any {
        120
    } else if available[1] {
        90
    } else {
        60
    };
    let idle: i32 = if available[2] || !any {
        60
    } else if available[1] {
        90
    } else {
        120
    };
    (active, idle)
}

/// The rates that a device has, in Hz, from the highest on.
pub fn available_rates(available: &[bool; 3]) -> (r: Vec<i32>)
    ensures
        r@ == (if available@[0] {
            seq![120i32]
        } else {
            seq![]
        }) + (if available@[1] {
            seq![90i32]
        } else {
            seq![]
        }) + (if available@[2] {
            seq![60i32]
        } else {
            seq![]
        }),
{
    let mut r: Vec<i32> = Vec::new();
    if available[0] {
        r.push(120);
    }
    if available[1] {
        r.push(90);
    }
    if available[2] {
        r.push(60);
    }
    r
}

/// The default rates of a device are the highest of the three that it has in
/// use, and the lowest at rest.
pub proof fn default_rates_are_extremes(avail: Seq<bool>)
    requires
        avail.len() == 3,
        avail[0] || avail[1] || avail[2],
    ensures
        avail[0] ==> default_rates(avail).0 == 120,
        !avail[0] && avail[1] ==> default_rates(avail).0 == 90,
        !avail[0] && !avail[1] ==> default_rates(avail).0 == 60,
        avail[2] ==> default_rates(avail).1 == 60,
        !avail[2] && avail[1] ==> default_rates(avail).1 == 90,
        !avail[2] && !avail[1] ==> default_rates(avail).1 == 120,
{
}

/// The fields of a report line are read under their names; the rate is in whole
/// Hz, and the peak rate counts more than the others.
#[verifier::rlimit(50)]
pub proof fn fields_are_read_by_name(m: ModeFields, n: nat, frac: Seq<char>)
    requires
        n <= u32::MAX,
    ensures
        field_step(m, "id="@ + number::dec(n)) == (ModeFields { id: Some(n as u32), ..m }),
        field_step(m, "width="@ + number::dec(n)) == (ModeFields { width: Some(n as u32), ..m }),
        field_step(m, "height="@ + number::dec(n)) == (ModeFields { height: Some(n as u32), ..m }),
        http::is_visible(frac) ==> field_step(
            m,
            "peakRefreshRate="@ + number::dec(n) + seq!['.'] + frac,
        ) == (ModeFields { hz: Some(n as u32), ..m }),
        http::is_visible(frac) && m.hz is None ==> field_step(
            m,
            "refreshRate="@ + number::dec(n) + seq!['.'] + frac,
        ) == (ModeFields { hz: Some(n as u32), ..m }),
        http::is_visible(frac) && m.hz is Some ==> field_step(
            m,
            "refreshRate="@ + number::dec(n) + seq!['.'] + frac,
        ) == m,
{
    lemma_field_names();
    let d = number::dec(n);
    number::dec_reads_back(n);
    number::unsigned_reads_dec(n, u32::MAX as nat);
    assert(number::is_digit(d[0]) && number::is_digit(d[d.len() - 1]));
    text::lemma_trimmed_id(d);
    reveal_strlit("id=");
    reveal_strlit("width=");
    reveal_strlit("height=");
    reveal_strlit("peakRefreshRate=");
    reveal_strlit("refreshRate=");
    lemma_named("id="@, d);
    lemma_named("width="@, d);
    lemma_named("height="@, d);
    lemma_starts_apart("width="@, d, "id="@);
    lemma_starts_apart("height="@, d, "id="@);
    lemma_starts_apart("height="@, d, "width="@);
    if http::is_visible(frac) {
        let f = d + seq!['.'] + frac;
        assert(f[0] == d[0]);
        assert(f.last() == frac[frac.len() - 1]);
        lemma_named("peakRefreshRate="@, f);
        lemma_named("refreshRate="@, f);
        lemma_starts_apart("peakRefreshRate="@, f, "id="@);
        lemma_starts_apart("peakRefreshRate="@, f, "width="@);
        lemma_starts_apart("peakRefreshRate="@, f, "height="@);
        lemma_starts_apart("refreshRate="@, f, "id="@);
        lemma_starts_apart("refreshRate="@, f, "width="@);
        lemma_starts_apart("refreshRate="@, f, "height="@);
        lemma_starts_apart("refreshRate="@, f, "peakRefreshRate="@);
        assert("peakRefreshRate="@ + d + seq!['.'] + frac =~= "peakRefreshRate="@ + f);
        assert("refreshRate="@ + d + seq!['.'] + frac =~= "refreshRate="@ + f);
        let k = d.len() as int;
        assert forall|j: int| 0 <= j < k implies f[j] != '.' by {
            assert(f[j] == d[j]);
            assert(number::is_digit(d[j]));
        }
        text::lemma_first_at(f, '.', k);
        assert(f.take(k) =~= d);
        lemma_starts_apart("refreshRate="@, f, "vsyncRate="@);
        lemma_starts_apart("refreshRate="@, f, "fps="@);
    }
}

/// The names of the fields start apart.
proof fn lemma_field_names()
    ensures
        "id="@.len() == 3,
        "width="@.len() == 6,
        "height="@.len() == 7,
        "peakRefreshRate="@.len() == 16,
        "refreshRate="@.len() == 12,
        "id="@[0] == 'i',
        "width="@[0] == 'w',
        "height="@[0] == 'h',
        "peakRefreshRate="@[0] == 'p',
        "refreshRate="@[0] == 'r',
        "vsyncRate="@.len() == 10,
        "vsyncRate="@[0] == 'v',
        "fps="@.len() == 4,
        "fps="@[0] == 'f',
{
    reveal_strlit("id=");
    reveal_strlit("width=");
    reveal_strlit("height=");
    reveal_strlit("peakRefreshRate=");
    reveal_strlit("refreshRate=");
    reveal_strlit("vsyncRate=");
    reveal_strlit("fps=");
}

proof fn lemma_named(name: Seq<char>, v: Seq<char>)
    requires
        name.len() > 0,
        !text::is_space(name[0]),
        v.len() > 0,
        !text::is_space(v.last()),
    ensures
        text::trimmed(name + v) == name + v,
        text::starts(name + v, name),
        (name + v).skip(name.len() as int) == v,
{
    let s = name + v;
    assert(s[0] == name[0]);
    assert(s.last() == v.last());
    text::lemma_trimmed_id(s);
    assert(s.take(name.len() as int) =~= name);
    assert(s.skip(name.len() as int) =~= v);
}

proof fn lemma_starts_apart(name: Seq<char>, v: Seq<char>, other: Seq<char>)
    requires
        name.len() > 0,
        other.len() > 0,
        name[0] != other[0],
    ensures
        !text::starts(name + v, other),
{
    let s = name + v;
    if text::starts(s, other) {
        assert(s.take(other.len() as int)[0] == s[0]);
        assert(s[0] == name[0]);
    }
}

/// A line that describes a mode completely is read as that mode, whatever else
/// it says; a line that lacks a part is read as none.
pub proof fn modes_are_read_from_their_fields(line: Seq<char>, m: ModeFields)
    requires
        fields_after(fields(line), fields(line).len()) == m,
    ensures
        mode_of(line) matches Some(d) ==> text::holds(line, "DisplayMode{id="@) && m.id == Some(
            d.id,
        ) && m.width == Some(d.width) && m.height == Some(d.height) && m.hz == Some(d.hz),
        text::holds(line, "DisplayMode{id="@) && m.id is Some && m.width is Some && m.height is Some
            && m.hz is Some ==> mode_of(line) is Some,
{
}

} // verus!
