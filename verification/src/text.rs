//! Text as sequences of characters: the vocabulary the grammars are stated in,
//! and the string operations they are built from.
use vstd::prelude::*;

verus! {

broadcast use vstd::string::group_string_axioms;

/// Appends one character to a `String`.
///
/// `String::push` adds the character at the end and changes nothing else.
pub assume_specification[ String::push ](s: &mut String, c: char)
    ensures
        final(s)@ == old(s)@.push(c),
;

/// A character with the Unicode `White_Space` property.
pub open spec fn is_space(c: char) -> bool {
    let u = c as u32;
    ||| 9 <= u <= 13
    ||| u == 0x20
    ||| u == 0x85
    ||| u == 0xa0
    ||| u == 0x1680
    ||| 0x2000 <= u <= 0x200a
    ||| u == 0x2028
    ||| u == 0x2029
    ||| u == 0x202f
    ||| u == 0x205f
    ||| u == 0x3000
}

/// The text without its leading white space.
pub open spec fn trimmed_start(s: Seq<char>) -> Seq<char>
    decreases s.len(),
{
    if s.len() > 0 && is_space(s[0]) {
        trimmed_start(s.skip(1))
    } else {
        s
    }
}

/// The text without its trailing white space.
pub open spec fn trimmed_end(s: Seq<char>) -> Seq<char>
    decreases s.len(),
{
    if s.len() > 0 && is_space(s.last()) {
        trimmed_end(s.drop_last())
    } else {
        s
    }
}

/// The text without white space at either end.
pub open spec fn trimmed(s: Seq<char>) -> Seq<char> {
    trimmed_end(trimmed_start(s))
}

/// The position of the first `c`, or the length of the text if there is none.
pub open spec fn first(s: Seq<char>, c: char) -> nat
    decreases s.len(),
{
    if s.len() == 0 || s[0] == c {
        0
    } else {
        1 + first(s.skip(1), c)
    }
}

/// `p` stands at the start of `s`.
pub open spec fn starts(s: Seq<char>, p: Seq<char>) -> bool {
    p.len() <= s.len() && s.take(p.len() as int) == p
}

/// `p` stands at the end of `s`.
pub open spec fn ends(s: Seq<char>, p: Seq<char>) -> bool {
    p.len() <= s.len() && s.skip(s.len() - p.len()) == p
}

/// `p` stands somewhere in `s`.
pub open spec fn holds(s: Seq<char>, p: Seq<char>) -> bool {
    exists|i: int| 0 <= i <= s.len() && starts(#[trigger] s.skip(i), p)
}

/// The parts of `s` between the occurrences of `c`.
pub open spec fn pieces(s: Seq<char>, c: char) -> Seq<Seq<char>>
    decreases s.len(),
{
    let k = first(s, c) as int;
    if k >= s.len() {
        seq![s]
    } else {
        seq![s.take(k)] + pieces(s.skip(k + 1), c)
    }
}

/// The parts put together with `sep` between neighbours.
pub open spec fn joined(parts: Seq<Seq<char>>, sep: Seq<char>) -> Seq<char>
    decreases parts.len(),
{
    if parts.len() == 0 {
        seq![]
    } else if parts.len() == 1 {
        parts[0]
    } else {
        joined(parts.drop_last(), sep) + sep + parts.last()
    }
}

/// A line without the carriage return that may end it.
pub open spec fn without_cr(s: Seq<char>) -> Seq<char> {
    if s.len() > 0 && s.last() == '\r' {
        s.drop_last()
    } else {
        s
    }
}

/// The lines of a text: each ends at a line feed, with or without a carriage
/// return before it; what follows the last line feed is a line unless empty.
pub open spec fn line_seq(s: Seq<char>) -> Seq<Seq<char>> {
    let ps = pieces(s, '\n');
    let ended = ps.drop_last().map_values(|p: Seq<char>| without_cr(p));
    if ps.last().len() == 0 {
        ended
    } else {
        ended.push(ps.last())
    }
}

/// The maximal runs of characters that are not white space.
pub open spec fn words(s: Seq<char>) -> Seq<Seq<char>>
    decreases s.len(),
{
    if s.len() == 0 {
        seq![]
    } else if is_space(s[0]) {
        words(s.skip(1))
    } else {
        let k = word_len(s) as int;
        if 0 < k <= s.len() {
            seq![s.take(k)] + words(s.skip(k))
        } else {
            seq![]
        }
    }
}

/// How many characters stand before the first white space.
pub open spec fn word_len(s: Seq<char>) -> nat
    decreases s.len(),
{
    if s.len() == 0 || is_space(s[0]) {
        0
    } else {
        1 + word_len(s.skip(1))
    }
}

/// The number of bytes of the text in UTF-8.
pub open spec fn byte_len(s: Seq<char>) -> nat {
    vstd::utf8::encode_utf8(s).len()
}

/// The contents of a sequence of string slices.
pub open spec fn views(v: Seq<&str>) -> Seq<Seq<char>> {
    v.map_values(|s: &str| s@)
}

/// The contents of a sequence of strings.
pub open spec fn owned(v: Seq<String>) -> Seq<Seq<char>> {
    v.map_values(|s: String| s@)
}

pub proof fn lemma_first(s: Seq<char>, c: char)
    ensures
        first(s, c) <= s.len(),
        first(s, c) < s.len() ==> s[first(s, c) as int] == c,
        forall|j: int| 0 <= j < first(s, c) ==> s[j] != c,
        s.contains(c) <==> first(s, c) < s.len(),
    decreases s.len(),
{
    if s.len() > 0 && s[0] != c {
        let t = s.skip(1);
        lemma_first(t, c);
        assert forall|j: int| 0 <= j < first(s, c) implies s[j] != c by {
            if j > 0 {
                assert(t[j - 1] == s[j]);
            }
        }
        if s.contains(c) {
            let i = choose|i: int| 0 <= i < s.len() && s[i] == c;
            assert(t[i - 1] == c);
        }
    }
}

/// The first occurrence is the position with `c` that has none before it.
pub proof fn lemma_first_at(s: Seq<char>, c: char, k: int)
    requires
        0 <= k <= s.len(),
        k < s.len() ==> s[k] == c,
        forall|j: int| 0 <= j < k ==> s[j] != c,
    ensures
        first(s, c) == k,
{
    lemma_first(s, c);
    let f = first(s, c) as int;
    if f < k {
        assert(s[f] == c);
    }
}

pub proof fn lemma_trimmed_start(s: Seq<char>, k: int)
    requires
        0 <= k <= s.len(),
        forall|j: int| 0 <= j < k ==> is_space(s[j]),
    ensures
        trimmed_start(s) == trimmed_start(s.skip(k)),
    decreases k,
{
    if k > 0 {
        let t = s.skip(1);
        assert forall|j: int| 0 <= j < k - 1 implies is_space(t[j]) by {
            assert(t[j] == s[j + 1]);
        }
        assert(is_space(s[0]));
        lemma_trimmed_start(t, k - 1);
        assert(t.skip(k - 1) == s.skip(k));
    } else {
        assert(s.skip(0) == s);
    }
}

pub proof fn lemma_trimmed_end(s: Seq<char>, k: int)
    requires
        0 <= k <= s.len(),
        forall|j: int| k <= j < s.len() ==> is_space(s[j]),
    ensures
        trimmed_end(s) == trimmed_end(s.take(k)),
    decreases s.len() - k,
{
    if k < s.len() {
        let t = s.drop_last();
        assert(is_space(s[s.len() - 1]));
        lemma_trimmed_end(t, k);
        assert(t.take(k) == s.take(k));
    } else {
        assert(s.take(k) == s);
    }
}

/// Whether a character is white space.
pub fn space(c: char) -> (r: bool)
    ensures
        r == is_space(c),
{
    let u: u32 = c as u32;
    (9 <= u && u <= 13) || u == 0x20 || u == 0x85 || u == 0xa0 || u == 0x1680 || (0x2000 <= u && u
        <= 0x200a) || u == 0x2028 || u == 0x2029 || u == 0x202f || u == 0x205f || u == 0x3000
}

/// The characters of a string slice.
pub fn chars_of(s: &str) -> (r: Vec<char>)
    ensures
        r@ == s@,
{
    let mut r: Vec<char> = Vec::new();
    for c in it: s.chars()
        invariant
            it.seq() == s@,
            r@ == s@.take(it.index()),
    {
        r.push(c);
    }
    r
}

/// The text without white space at its start.
pub fn trim_start<'a>(s: &'a str) -> (r: &'a str)
    ensures
        r@ == trimmed_start(s@),
{
    let cs = chars_of(s);
    let mut lo: usize = 0;
    while lo < cs.len() && space(cs[lo])
        invariant
            lo <= cs.len(),
            cs@ == s@,
            forall|j: int| 0 <= j < lo ==> is_space(s@[j]),
        decreases cs.len() - lo,
    {
        lo += 1;
    }
    proof {
        lemma_trimmed_start(s@, lo as int);
        if lo < cs.len() {
            assert(s@.skip(lo as int)[0] == s@[lo as int]);
        }
    }
    s.substring_char(lo, cs.len())
}

/// The text without white space at its end.
pub fn trim_end<'a>(s: &'a str) -> (r: &'a str)
    ensures
        r@ == trimmed_end(s@),
{
    let cs = chars_of(s);
    let mut hi: usize = cs.len();
    while hi > 0 && space(cs[hi - 1])
        invariant
            hi <= cs.len(),
            cs@ == s@,
            forall|j: int| hi <= j < s@.len() ==> is_space(s@[j]),
        decreases hi,
    {
        hi -= 1;
    }
    proof {
        lemma_trimmed_end(s@, hi as int);
        if hi > 0 {
            assert(s@.take(hi as int).last() == s@[hi - 1]);
        }
    }
    s.substring_char(0, hi)
}

/// The text without white space at either end.
pub fn trim<'a>(s: &'a str) -> (r: &'a str)
    ensures
        r@ == trimmed(s@),
{
    trim_end(trim_start(s))
}

/// The position, in characters, of the first `c`.
pub fn find(s: &str, c: char) -> (r: Option<usize>)
    ensures
        match r {
            Some(i) => s@.contains(c) && i == first(s@, c) && i < s@.len() && i < usize::MAX,
            None => !s@.contains(c) && first(s@, c) == s@.len(),
        },
{
    let cs = chars_of(s);
    let mut i: usize = 0;
    while i < cs.len()
        invariant
            i <= cs.len(),
            cs@ == s@,
            forall|j: int| 0 <= j < i ==> s@[j] != c,
        decreases cs.len() - i,
    {
        if cs[i] == c {
            proof {
                lemma_first_at(s@, c, i as int);
            }
            return Some(i);
        }
        i += 1;
    }
    proof {
        lemma_first_at(s@, c, i as int);
    }
    None
}

/// The first `n` characters.
pub fn head<'a>(s: &'a str, n: usize) -> (r: &'a str)
    requires
        n <= s@.len(),
    ensures
        r@ == s@.take(n as int),
{
    s.substring_char(0, n)
}

/// What follows the first `n` characters.
pub fn tail<'a>(s: &'a str, n: usize) -> (r: &'a str)
    requires
        n <= s@.len(),
    ensures
        r@ == s@.skip(n as int),
{
    let len: usize = s.unicode_len();
    s.substring_char(n, len)
}

/// Whether two texts are the same.
pub fn same(a: &str, b: &str) -> (r: bool)
    ensures
        r == (a@ == b@),
{
    let x = chars_of(a);
    let y = chars_of(b);
    if x.len() != y.len() {
        return false;
    }
    let mut i: usize = 0;
    while i < x.len()
        invariant
            i <= x.len(),
            x.len() == y.len(),
            x@ == a@,
            y@ == b@,
            forall|j: int| 0 <= j < i ==> a@[j] == b@[j],
        decreases x.len() - i,
    {
        if x[i] != y[i] {
            return false;
        }
        i += 1;
    }
    assert(a@ =~= b@);
    true
}

/// Whether `p` stands at the start of `s`.
pub fn starts_with(s: &str, p: &str) -> (r: bool)
    ensures
        r == starts(s@, p@),
{
    let n: usize = p.unicode_len();
    if n > s.unicode_len() {
        return false;
    }
    same(head(s, n), p)
}

/// Whether `p` stands at the end of `s`.
pub fn ends_with(s: &str, p: &str) -> (r: bool)
    ensures
        r == ends(s@, p@),
{
    let n: usize = p.unicode_len();
    let m: usize = s.unicode_len();
    if n > m {
        return false;
    }
    same(tail(s, m - n), p)
}

/// Whether `p` stands somewhere in `s`.
pub fn contains(s: &str, p: &str) -> (r: bool)
    ensures
        r == holds(s@, p@),
{
    let m: usize = s.unicode_len();
    let mut i: usize = 0;
    while i <= m
        invariant
            m == s@.len(),
            forall|j: int| 0 <= j < i && j <= m ==> !starts(#[trigger] s@.skip(j), p@),
        decreases m + 1 - i,
    {
        if starts_with(tail(s, i), p) {
            return true;
        }
        if i == m {
            return false;
        }
        i += 1;
    }
    false
}

/// Whether the text has the character `c`.
pub fn has_char(s: &str, c: char) -> (r: bool)
    ensures
        r == s@.contains(c),
{
    find(s, c).is_some()
}

/// The parts between the occurrences of `c`.
pub fn split<'a>(s: &'a str, c: char) -> (r: Vec<&'a str>)
    ensures
        views(r@) == pieces(s@, c),
        r.len() > 0,
{
    let mut r: Vec<&'a str> = Vec::new();
    let mut rest: &'a str = s;
    loop
        invariant_except_break
            pieces(s@, c) == views(r@) + pieces(rest@, c),
        ensures
            pieces(s@, c) == views(r@),
            r@.len() > 0,
        decreases rest@.len(),
    {
        match find(rest, c) {
            Some(k) => {
                let part = head(rest, k);
                let ghost before = r@;
                let ghost old_rest = rest@;
                r.push(part);
                rest = tail(rest, k + 1);
                assert(views(r@) == views(before).push(part@));
                assert(pieces(old_rest, c) == seq![part@] + pieces(rest@, c));
                assert(views(before) + (seq![part@] + pieces(rest@, c)) == views(before).push(
                    part@,
                ) + pieces(rest@, c));
            },
            None => {
                let ghost before = r@;
                r.push(rest);
                assert(views(r@) == views(before).push(rest@));
                assert(views(before) + seq![rest@] == views(before).push(rest@));
                break;
            },
        }
    }
    r
}

/// The lines of a text.
pub fn lines<'a>(s: &'a str) -> (r: Vec<&'a str>)
    ensures
        views(r@) == line_seq(s@),
{
    let ps = split(s, '\n');
    let ghost all = pieces(s@, '\n');
    let mut r: Vec<&'a str> = Vec::new();
    let n: usize = ps.len() - 1;
    let mut i: usize = 0;
    while i < n
        invariant
            i <= n,
            n == ps.len() - 1,
            views(ps@) == all,
            views(r@) == all.take(i as int).map_values(|p: Seq<char>| without_cr(p)),
        decreases n - i,
    {
        let p = ps[i];
        assert(p@ == all[i as int]);
        let m: usize = p.unicode_len();
        let q: &'a str = if m > 0 && p.get_char(m - 1) == '\r' {
            head(p, m - 1)
        } else {
            p
        };
        assert(q@ == without_cr(p@));
        let ghost before = r@;
        r.push(q);
        assert(views(r@) == views(before).push(q@));
        i += 1;
        assert(all.take(i as int).map_values(|p: Seq<char>| without_cr(p)) == all.take(
            i - 1,
        ).map_values(|p: Seq<char>| without_cr(p)).push(q@));
    }
    assert(all.take(n as int) == all.drop_last());
    let last = ps[n];
    assert(last@ == all.last());
    if !last.is_empty() {
        let ghost before = r@;
        r.push(last);
        assert(views(r@) == views(before).push(last@));
    }
    r
}

/// The parts put together with `sep` between neighbours.
pub fn join(parts: &Vec<String>, sep: &str) -> (r: String)
    ensures
        r@ == joined(owned(parts@), sep@),
{
    let mut r = String::new();
    let mut i: usize = 0;
    while i < parts.len()
        invariant
            i <= parts.len(),
            r@ == joined(owned(parts@).take(i as int), sep@),
        decreases parts.len() - i,
    {
        if i > 0 {
            r.append(sep);
        }
        r.append(parts[i].as_str());
        i += 1;
        proof {
            let now = owned(parts@).take(i as int);
            assert(now.drop_last() == owned(parts@).take(i - 1));
            assert(now.last() == parts@[i - 1]@);
        }
    }
    assert(owned(parts@).take(parts.len() as int) == owned(parts@));
    r
}

/// A word starts a text whose first character is not white space.
pub proof fn lemma_word_len(s: Seq<char>, k: int)
    requires
        0 <= k <= s.len(),
        forall|j: int| 0 <= j < k ==> !is_space(s[j]),
        k < s.len() ==> is_space(s[k]),
    ensures
        word_len(s) == k,
    decreases k,
{
    if k > 0 {
        let t = s.skip(1);
        assert(!is_space(s[0]));
        assert forall|j: int| 0 <= j < k - 1 implies !is_space(t[j]) by {
            assert(t[j] == s[j + 1]);
        }
        if k < s.len() {
            assert(t[k - 1] == s[k]);
        }
        lemma_word_len(t, k - 1);
    }
}

/// The first word and those after it.
proof fn lemma_words(s: Seq<char>, k: int)
    requires
        0 < k <= s.len(),
        forall|j: int| 0 <= j < k ==> !is_space(s[j]),
        k < s.len() ==> is_space(s[k]),
    ensures
        words(s) == seq![s.take(k)] + words(s.skip(k)),
{
    lemma_word_len(s, k);
    assert(!is_space(s[0]));
}

/// The end of the word that starts at `start`.
fn word_end(cs: &Vec<char>, start: usize) -> (r: usize)
    requires
        start < cs.len(),
        !is_space(cs@[start as int]),
    ensures
        start < r <= cs.len(),
        words(cs@.skip(start as int)) == seq![cs@.subrange(start as int, r as int)] + words(
            cs@.skip(r as int),
        ),
{
    let mut i: usize = start + 1;
    while i < cs.len() && !space(cs[i])
        invariant
            start < i <= cs.len(),
            forall|j: int| start <= j < i ==> !is_space(cs@[j]),
        decreases cs.len() - i,
    {
        i += 1;
    }
    proof {
        let rest = cs@.skip(start as int);
        let k = i - start;
        assert forall|j: int| 0 <= j < k implies !is_space(rest[j]) by {
            assert(rest[j] == cs@[start + j]);
        }
        if k < rest.len() {
            assert(rest[k] == cs@[i as int]);
        }
        lemma_words(rest, k);
        assert(rest.skip(k) == cs@.skip(i as int));
        assert(rest.take(k) == cs@.subrange(start as int, i as int));
    }
    i
}

/// The words of a text.
pub fn split_whitespace<'a>(s: &'a str) -> (r: Vec<&'a str>)
    ensures
        views(r@) == words(s@),
{
    let cs = chars_of(s);
    let n: usize = cs.len();
    let mut r: Vec<&'a str> = Vec::new();
    let mut i: usize = 0;
    assert(s@.skip(0) == s@);
    while i < n
        invariant
            i <= n,
            n == cs.len(),
            cs@ == s@,
            words(s@) == views(r@) + words(s@.skip(i as int)),
        decreases n - i,
    {
        if space(cs[i]) {
            assert(s@.skip(i as int)[0] == cs@[i as int]);
            assert(s@.skip(i as int).skip(1) == s@.skip(i + 1));
            i += 1;
        } else {
            let end: usize = word_end(&cs, i);
            let w = s.substring_char(i, end);
            let ghost before = r@;
            r.push(w);
            proof {
                let after = words(s@.skip(end as int));
                assert(views(r@) == views(before).push(w@));
                assert(views(before) + (seq![w@] + after) == views(before).push(w@) + after);
            }
            i = end;
        }
    }
    assert(words(s@.skip(n as int)) == Seq::<Seq<char>>::empty());
    r
}

/// A text without the separator is its own only part.
pub proof fn lemma_pieces_single(s: Seq<char>, c: char)
    requires
        !s.contains(c),
    ensures
        pieces(s, c) == seq![s],
{
    lemma_first(s, c);
}

/// What follows the first separator is split on its own.
pub proof fn lemma_pieces_step(a: Seq<char>, c: char, b: Seq<char>)
    requires
        !a.contains(c),
    ensures
        pieces(a + seq![c] + b, c) == seq![a] + pieces(b, c),
{
    let s = a + seq![c] + b;
    assert forall|j: int| 0 <= j < a.len() implies s[j] != c by {
        assert(s[j] == a[j]);
    }
    lemma_first_at(s, c, a.len() as int);
    assert(s.take(a.len() as int) == a);
    assert(s.skip(a.len() as int + 1) == b);
}

/// Splitting before the last separator.
pub proof fn lemma_pieces_last(a: Seq<char>, c: char, b: Seq<char>)
    requires
        !b.contains(c),
    ensures
        pieces(a + seq![c] + b, c) == pieces(a, c).push(b),
    decreases a.len(),
{
    lemma_first(a, c);
    let k = first(a, c) as int;
    if k >= a.len() {
        lemma_pieces_step(a, c, b);
        lemma_pieces_single(b, c);
        assert(seq![a] + seq![b] == seq![a].push(b));
    } else {
        let h = a.take(k);
        let t = a.skip(k + 1);
        assert(a == h + seq![c] + t);
        assert(a + seq![c] + b == h + seq![c] + (t + seq![c] + b));
        assert(!h.contains(c)) by {
            assert forall|j: int| 0 <= j < h.len() implies h[j] != c by {
                assert(h[j] == a[j]);
            }
        }
        lemma_pieces_step(h, c, t + seq![c] + b);
        lemma_pieces_last(t, c, b);
        assert(pieces(a, c) == seq![h] + pieces(t, c));
        assert(seq![h] + pieces(t, c).push(b) == (seq![h] + pieces(t, c)).push(b));
    }
}

/// Joining parts with a separator that none of them holds, and splitting at
/// that separator, gives the parts back.
pub proof fn split_undoes_join(parts: Seq<Seq<char>>, c: char)
    requires
        parts.len() > 0,
        forall|i: int| 0 <= i < parts.len() ==> !(#[trigger] parts[i]).contains(c),
    ensures
        pieces(joined(parts, seq![c]), c) == parts,
    decreases parts.len(),
{
    if parts.len() == 1 {
        lemma_pieces_single(parts[0], c);
        assert(seq![parts[0]] == parts);
    } else {
        let init = parts.drop_last();
        assert forall|i: int| 0 <= i < init.len() implies !(#[trigger] init[i]).contains(c) by {
            assert(init[i] == parts[i]);
        }
        split_undoes_join(init, c);
        assert(!parts[parts.len() - 1].contains(c));
        lemma_pieces_last(joined(init, seq![c]), c, parts.last());
        assert(init.push(parts.last()) == parts);
    }
}

/// A text with no white space at its ends stays as it is.
pub proof fn lemma_trimmed_id(s: Seq<char>)
    requires
        s.len() > 0 ==> !is_space(s[0]) && !is_space(s.last()),
    ensures
        trimmed(s) == s,
{
}

/// A text made of two with the separator between them has the parts of both.
pub proof fn lemma_pieces_concat(a: Seq<char>, c: char, b: Seq<char>)
    ensures
        pieces(a + seq![c] + b, c) == pieces(a, c) + pieces(b, c),
    decreases a.len(),
{
    lemma_first(a, c);
    let k = first(a, c) as int;
    if k >= a.len() {
        lemma_pieces_step(a, c, b);
    } else {
        let h = a.take(k);
        let t = a.skip(k + 1);
        assert(a == h + seq![c] + t);
        assert(a + seq![c] + b == h + seq![c] + (t + seq![c] + b));
        assert(!h.contains(c)) by {
            assert forall|j: int| 0 <= j < h.len() implies h[j] != c by {
                assert(h[j] == a[j]);
            }
        }
        lemma_pieces_step(h, c, t + seq![c] + b);
        lemma_pieces_concat(t, c, b);
        assert(seq![h] + (pieces(t, c) + pieces(b, c)) == (seq![h] + pieces(t, c)) + pieces(b, c));
    }
}

/// The text without the run of `c` at its end.
pub open spec fn trimmed_end_of(s: Seq<char>, c: char) -> Seq<char>
    decreases s.len(),
{
    if s.len() > 0 && s.last() == c {
        trimmed_end_of(s.drop_last(), c)
    } else {
        s
    }
}

/// The number of bytes of a text in UTF-8.
pub fn byte_length(s: &str) -> (r: usize)
    ensures
        r == byte_len(s@),
{
    s.as_bytes().len()
}

/// What stands before and behind the first `c`.
pub fn split_once<'a>(s: &'a str, c: char) -> (r: Option<(&'a str, &'a str)>)
    ensures
        match r {
            Some((a, b)) => s@.contains(c) && first(s@, c) < s@.len() && a@ == s@.take(
                first(s@, c) as int,
            ) && b@ == s@.skip(first(s@, c) as int + 1),
            None => !s@.contains(c) && first(s@, c) == s@.len(),
        },
{
    match find(s, c) {
        Some(k) => Some((head(s, k), tail(s, k + 1))),
        None => None,
    }
}

/// The text without the `c` at its end, if it ends in one.
pub fn strip_last<'a>(s: &'a str, c: char) -> (r: Option<&'a str>)
    ensures
        match r {
            Some(t) => s@.len() > 0 && s@.last() == c && t@ == s@.drop_last(),
            None => !(s@.len() > 0 && s@.last() == c),
        },
{
    let n: usize = s.unicode_len();
    if n > 0 && s.get_char(n - 1) == c {
        Some(head(s, n - 1))
    } else {
        None
    }
}

/// The text without the `c` at its start, if it starts with one.
pub fn strip_first<'a>(s: &'a str, c: char) -> (r: Option<&'a str>)
    ensures
        match r {
            Some(t) => s@.len() > 0 && s@[0] == c && t@ == s@.skip(1),
            None => !(s@.len() > 0 && s@[0] == c),
        },
{
    let n: usize = s.unicode_len();
    if n > 0 && s.get_char(0) == c {
        Some(tail(s, 1))
    } else {
        None
    }
}

/// The text without the run of `c` at its end.
pub fn trim_end_of<'a>(s: &'a str, c: char) -> (r: &'a str)
    ensures
        r@ == trimmed_end_of(s@, c),
{
    let mut t: &'a str = s;
    loop
        invariant
            trimmed_end_of(s@, c) == trimmed_end_of(t@, c),
        ensures
            t@ == trimmed_end_of(s@, c),
        decreases t@.len(),
    {
        match strip_last(t, c) {
            Some(u) => {
                t = u;
            },
            None => {
                break;
            },
        }
    }
    t
}

/// The first `n` parts put together with `sep` between neighbours.
pub fn join_first(parts: &Vec<&str>, n: usize, sep: &str) -> (r: String)
    requires
        n <= parts.len(),
    ensures
        r@ == joined(views(parts@).take(n as int), sep@),
{
    let mut r = String::new();
    let mut i: usize = 0;
    while i < n
        invariant
            i <= n,
            n <= parts.len(),
            r@ == joined(views(parts@).take(i as int), sep@),
        decreases n - i,
    {
        if i > 0 {
            r.append(sep);
        }
        r.append(parts[i]);
        i += 1;
        proof {
            let now = views(parts@).take(i as int);
            assert(now.drop_last() == views(parts@).take(i - 1));
            assert(now.last() == parts@[i - 1]@);
        }
    }
    r
}

/// The lines, each with a line feed behind it.
pub open spec fn terminated(lines: Seq<Seq<char>>) -> Seq<char>
    decreases lines.len(),
{
    if lines.len() == 0 {
        seq![]
    } else {
        lines[0] + seq!['\n'] + terminated(lines.skip(1))
    }
}

/// A line that is read as it was written: without a line feed, and with no
/// carriage return at its end.
pub open spec fn is_plain_line(l: Seq<char>) -> bool {
    !l.contains('\n') && (l.len() > 0 ==> l.last() != '\r')
}

pub proof fn lemma_terminated_push(lines: Seq<Seq<char>>, l: Seq<char>)
    ensures
        terminated(lines.push(l)) == terminated(lines) + l + seq!['\n'],
    decreases lines.len(),
{
    let all = lines.push(l);
    if lines.len() == 0 {
        assert(all.skip(1) =~= Seq::<Seq<char>>::empty());
        assert(terminated(all.skip(1)) =~= Seq::<char>::empty());
        assert(all[0] == l);
        assert(terminated(all) =~= l + seq!['\n']);
        assert(terminated(lines) + l + seq!['\n'] =~= l + seq!['\n']);
    } else {
        assert(all.skip(1) =~= lines.skip(1).push(l));
        lemma_terminated_push(lines.skip(1), l);
        assert(terminated(all) =~= lines[0] + seq!['\n'] + (terminated(lines.skip(1)) + l + seq![
            '\n',
        ]));
        assert(terminated(lines) + l + seq!['\n'] =~= lines[0] + seq!['\n'] + (terminated(
            lines.skip(1),
        ) + l + seq!['\n']));
    }
}

/// Joined lines with a line feed behind the last are lines with a line feed
/// behind each.
pub proof fn lemma_joined_terminated(lines: Seq<Seq<char>>)
    requires
        lines.len() > 0,
    ensures
        joined(lines, seq!['\n']) + seq!['\n'] == terminated(lines),
    decreases lines.len(),
{
    let init = lines.drop_last();
    assert(init.push(lines.last()) =~= lines);
    lemma_terminated_push(init, lines.last());
    if lines.len() == 1 {
        assert(init =~= Seq::<Seq<char>>::empty());
        assert(terminated(init) + lines.last() + seq!['\n'] =~= lines[0] + seq!['\n']);
    } else {
        lemma_joined_terminated(init);
        assert(joined(lines, seq!['\n']) + seq!['\n'] =~= (joined(init, seq!['\n']) + seq!['\n'])
            + lines.last() + seq!['\n']);
    }
}

proof fn lemma_pieces_terminated(lines: Seq<Seq<char>>)
    requires
        forall|i: int| 0 <= i < lines.len() ==> !(#[trigger] lines[i]).contains('\n'),
    ensures
        pieces(terminated(lines), '\n') == lines.push(Seq::<char>::empty()),
    decreases lines.len(),
{
    if lines.len() == 0 {
        lemma_pieces_single(terminated(lines), '\n');
        assert(lines.push(Seq::<char>::empty()) =~= seq![Seq::<char>::empty()]);
    } else {
        let rest = lines.skip(1);
        assert forall|i: int| 0 <= i < rest.len() implies !(#[trigger] rest[i]).contains('\n') by {
            assert(rest[i] == lines[i + 1]);
        }
        lemma_pieces_terminated(rest);
        assert(!lines[0].contains('\n'));
        lemma_pieces_step(lines[0], '\n', terminated(rest));
        assert(seq![lines[0]] + rest.push(Seq::<char>::empty()) =~= lines.push(
            Seq::<char>::empty(),
        ));
    }
}

/// Lines that were written with a line feed behind each are read back as they
/// were.
pub proof fn written_lines_read_back(lines: Seq<Seq<char>>)
    requires
        forall|i: int| 0 <= i < lines.len() ==> is_plain_line(#[trigger] lines[i]),
    ensures
        line_seq(terminated(lines)) == lines,
{
    assert forall|i: int| 0 <= i < lines.len() implies !(#[trigger] lines[i]).contains('\n') by {
        assert(is_plain_line(lines[i]));
    }
    lemma_pieces_terminated(lines);
    let ps = pieces(terminated(lines), '\n');
    assert(ps.drop_last() =~= lines);
    assert(ps.last() == Seq::<char>::empty());
    assert forall|i: int| 0 <= i < lines.len() implies without_cr(#[trigger] lines[i])
        == lines[i] by {
        assert(is_plain_line(lines[i]));
    }
    assert(line_seq(terminated(lines)) =~= lines);
}

proof fn lemma_trimmed_lens(s: Seq<char>)
    ensures
        trimmed_start(s).len() <= s.len(),
        trimmed_end(s).len() <= s.len(),
    decreases s.len(),
{
    if s.len() > 0 {
        if is_space(s[0]) {
            lemma_trimmed_lens(s.skip(1));
        }
        if is_space(s.last()) {
            lemma_trimmed_lens(s.drop_last());
        }
    }
}

/// A text that trimming leaves alone has no white space at its ends.
pub proof fn lemma_trimmed_ends(s: Seq<char>)
    requires
        trimmed(s) == s,
        s.len() > 0,
    ensures
        !is_space(s[0]),
        !is_space(s.last()),
{
    lemma_trimmed_lens(s);
    lemma_trimmed_lens(trimmed_start(s));
    if is_space(s[0]) {
        lemma_trimmed_lens(s.skip(1));
        lemma_trimmed_lens(trimmed_start(s.skip(1)));
    } else {
        assert(trimmed_start(s) == s);
        if is_space(s.last()) {
            lemma_trimmed_lens(s.drop_last());
        }
    }
}

/// The first of several parts, the separator, and the others joined.
pub proof fn lemma_joined_front(a: Seq<char>, parts: Seq<Seq<char>>, sep: Seq<char>)
    requires
        parts.len() > 0,
    ensures
        joined(seq![a] + parts, sep) == a + sep + joined(parts, sep),
    decreases parts.len(),
{
    let all = seq![a] + parts;
    assert(all.last() == parts.last());
    if parts.len() == 1 {
        assert(all.drop_last() =~= seq![a]);
        assert(joined(seq![a], sep) == a);
        assert(joined(parts, sep) == parts.last());
        assert(joined(all, sep) == joined(all.drop_last(), sep) + sep + all.last());
    } else {
        let init = parts.drop_last();
        assert(all.drop_last() =~= seq![a] + init);
        lemma_joined_front(a, init, sep);
        assert(joined(all, sep) =~= a + sep + (joined(init, sep) + sep + parts.last()));
    }
}

/// Splitting a text at a character and joining the parts with it gives the
/// text back.
pub proof fn join_undoes_split(s: Seq<char>, c: char)
    ensures
        joined(pieces(s, c), seq![c]) == s,
        pieces(s, c).len() > 0,
    decreases s.len(),
{
    lemma_first(s, c);
    let k = first(s, c) as int;
    if k < s.len() {
        let rest = s.skip(k + 1);
        join_undoes_split(rest, c);
        lemma_joined_front(s.take(k), pieces(rest, c), seq![c]);
        assert(s =~= s.take(k) + seq![c] + rest);
    } else {
        assert(joined(seq![s], seq![c]) == s);
    }
}

/// The text that some bytes encode, if they are UTF-8.
///
/// `std::str::from_utf8` accepts just the byte strings that are valid UTF-8,
/// and gives the text that they encode.
#[verifier::external_body]
pub(crate) fn utf8_text(bytes: &[u8]) -> (r: Option<&str>)
    ensures
        match r {
            Some(s) => vstd::utf8::valid_utf8(bytes@) && s@ == vstd::utf8::decode_utf8(bytes@),
            None => !vstd::utf8::valid_utf8(bytes@),
        },
{
    std::str::from_utf8(bytes).ok()
}

/// What follows the last `c`; the whole text where there is none.
pub open spec fn after_last(s: Seq<char>, c: char) -> Seq<char>
    decreases s.len(),
{
    if s.contains(c) {
        let k = first(s, c) as int;
        if 0 <= k < s.len() {
            after_last(s.skip(k + 1), c)
        } else {
            s
        }
    } else {
        s
    }
}

/// What follows the last `c`.
pub fn tail_after_last<'a>(s: &'a str, c: char) -> (r: &'a str)
    ensures
        r@ == after_last(s@, c),
{
    let mut t: &'a str = s;
    loop
        invariant
            after_last(s@, c) == after_last(t@, c),
        ensures
            t@ == after_last(s@, c),
        decreases t@.len(),
    {
        match find(t, c) {
            Some(k) => {
                t = tail(t, k + 1);
            },
            None => {
                break;
            },
        }
    }
    t
}

/// The text that `String::from_utf8_lossy` reads out of some bytes.
pub uninterp spec fn lossy(bytes: Seq<u8>) -> Seq<char>;

/// The text that some bytes encode, with replacement characters for what is no
/// UTF-8.
///
/// `String::from_utf8_lossy` depends on the bytes alone, and gives the encoded
/// text where they are valid UTF-8. What it makes of other bytes is not stated.
#[verifier::external_body]
pub(crate) fn lossy_text(bytes: &[u8]) -> (r: String)
    ensures
        r@ == lossy(bytes@),
        vstd::utf8::valid_utf8(bytes@) ==> r@ == vstd::utf8::decode_utf8(bytes@),
{
    String::from_utf8_lossy(bytes).into_owned()
}

/// The text from `lo` to `hi` is what trimming leaves of `s`.
pub open spec fn is_core(s: Seq<char>, lo: int, hi: int) -> bool {
    &&& 0 <= lo <= hi <= s.len()
    &&& forall|j: int| 0 <= j < lo ==> is_space(#[trigger] s[j])
    &&& forall|j: int| hi <= j < s.len() ==> is_space(#[trigger] s[j])
    &&& lo < hi ==> !is_space(s[lo]) && !is_space(s[hi - 1])
}

/// What has white space around it, and none at its ends, is what trimming leaves.
pub proof fn lemma_trimmed_is(s: Seq<char>, lo: int, hi: int)
    requires
        is_core(s, lo, hi),
    ensures
        trimmed(s) == s.subrange(lo, hi),
{
    lemma_trimmed_start(s, lo);
    let a = s.skip(lo);
    if lo < hi {
        assert(a[0] == s[lo]);
        assert(trimmed_start(s) == a);
        assert forall|j: int| hi - lo <= j < a.len() implies is_space(a[j]) by {
            assert(a[j] == s[lo + j]);
        }
        lemma_trimmed_end(a, hi - lo);
        let b = a.take(hi - lo);
        assert(b.last() == s[hi - 1]);
        assert(trimmed_end(a) == b);
        assert(b =~= s.subrange(lo, hi));
    } else {
        assert forall|j: int| 0 <= j < a.len() implies is_space(a[j]) by {
            assert(a[j] == s[lo + j]);
        }
        lemma_trimmed_start(a, a.len() as int);
        assert(a.skip(a.len() as int) =~= Seq::<char>::empty());
        assert(trimmed_start(s) =~= Seq::<char>::empty());
        assert(s.subrange(lo, hi) =~= Seq::<char>::empty());
    }
}

/// Trimming leaves a part of the text.
pub proof fn lemma_core(s: Seq<char>) -> (r: (int, int))
    ensures
        is_core(s, r.0, r.1),
        trimmed(s) == s.subrange(r.0, r.1),
    decreases s.len(),
{
    if s.len() > 0 && is_space(s[0]) {
        let t = s.skip(1);
        let (a, b) = lemma_core(t);
        assert forall|j: int| 0 <= j < a + 1 implies is_space(#[trigger] s[j]) by {
            if j > 0 {
                assert(t[j - 1] == s[j]);
            }
        }
        assert forall|j: int| b + 1 <= j < s.len() implies is_space(#[trigger] s[j]) by {
            assert(t[j - 1] == s[j]);
        }
        if a < b {
            assert(t[a] == s[a + 1]);
            assert(t[b - 1] == s[b]);
        }
        lemma_trimmed_is(s, a + 1, b + 1);
        (a + 1, b + 1)
    } else if s.len() > 0 && is_space(s.last()) {
        let t = s.drop_last();
        let (a, b) = lemma_core(t);
        assert forall|j: int| 0 <= j < a implies is_space(#[trigger] s[j]) by {
            assert(t[j] == s[j]);
        }
        assert forall|j: int| b <= j < s.len() implies is_space(#[trigger] s[j]) by {
            if j < t.len() {
                assert(t[j] == s[j]);
            }
        }
        if a < b {
            assert(t[a] == s[a]);
            assert(t[b - 1] == s[b - 1]);
        }
        lemma_trimmed_is(s, a, b);
        (a, b)
    } else {
        let n = s.len() as int;
        lemma_trimmed_is(s, 0, n);
        (0, n)
    }
}

/// Trimming twice is trimming once.
pub proof fn trimming_twice(s: Seq<char>)
    ensures
        trimmed(trimmed(s)) == trimmed(s),
{
    let (a, b) = lemma_core(s);
    let t = trimmed(s);
    assert(t =~= s.subrange(a, b));
    if a < b {
        assert(t[0] == s[a]);
        assert(t.last() == s[b - 1]);
    }
    lemma_trimmed_id(t);
}

/// White space at the end makes no difference to trimming.
pub proof fn lemma_trimmed_drop_end(s: Seq<char>, k: int)
    requires
        0 <= k <= s.len(),
        forall|j: int| k <= j < s.len() ==> is_space(#[trigger] s[j]),
    ensures
        trimmed(s) == trimmed(s.take(k)),
{
    let t = s.take(k);
    let (a, b) = lemma_core(t);
    assert forall|j: int| 0 <= j < a implies is_space(#[trigger] s[j]) by {
        assert(t[j] == s[j]);
    }
    assert forall|j: int| b <= j < s.len() implies is_space(#[trigger] s[j]) by {
        if j < k {
            assert(t[j] == s[j]);
        }
    }
    if a < b {
        assert(t[a] == s[a]);
        assert(t[b - 1] == s[b - 1]);
    }
    lemma_trimmed_is(s, a, b);
    assert(t.subrange(a, b) =~= s.subrange(a, b));
}

/// Trimming the end first makes no difference to trimming.
pub proof fn lemma_trimmed_of_trimmed_end(s: Seq<char>)
    ensures
        trimmed(trimmed_end(s)) == trimmed(s),
    decreases s.len(),
{
    if s.len() > 0 && is_space(s.last()) {
        lemma_trimmed_of_trimmed_end(s.drop_last());
        assert(s.drop_last() =~= s.take(s.len() - 1));
        lemma_trimmed_drop_end(s, s.len() - 1);
    }
}

/// What stands before the first `c` of a trimmed text is, trimmed, what stands
/// before the first `c` of the text.
pub proof fn lemma_key_of_trimmed(s: Seq<char>, c: char)
    requires
        !is_space(c),
    ensures
        s.contains(c) <==> trimmed(s).contains(c),
        s.contains(c) ==> trimmed(trimmed(s).take(first(trimmed(s), c) as int)) == trimmed(
            s.take(first(s, c) as int),
        ),
{
    let (a, b) = lemma_core(s);
    let t = trimmed(s);
    assert(t =~= s.subrange(a, b));
    if t.contains(c) {
        let j = t.index_of(c);
        assert(s[a + j] == c);
    }
    if s.contains(c) {
        lemma_first(s, c);
        let e = first(s, c) as int;
        assert(s[e] == c);
        if e < a {
            assert(is_space(s[e]));
        }
        if e >= b {
            assert(is_space(s[e]));
        }
        assert(t[e - a] == c);
        assert forall|j: int| 0 <= j < e - a implies t[j] != c by {
            assert(t[j] == s[a + j]);
        }
        lemma_first_at(t, c, e - a);
        let x = s.take(e);
        let y = t.take(e - a);
        assert(y =~= s.subrange(a, e));
        let (p, q) = lemma_core(y);
        if p < q {
            assert forall|j: int| 0 <= j < a + p implies is_space(#[trigger] x[j]) by {
                assert(x[j] == s[j]);
                if j >= a {
                    assert(y[j - a] == s[j]);
                }
            }
            assert forall|j: int| a + q <= j < x.len() implies is_space(#[trigger] x[j]) by {
                assert(y[j - a] == x[j]);
            }
            assert(y[p] == x[a + p]);
            assert(y[q - 1] == x[a + q - 1]);
            lemma_trimmed_is(x, a + p, a + q);
            assert(x.subrange(a + p, a + q) =~= y.subrange(p, q));
        } else {
            assert forall|j: int| 0 <= j < x.len() implies is_space(#[trigger] x[j]) by {
                assert(x[j] == s[j]);
                if j >= a {
                    assert(y[j - a] == s[j]);
                    if j - a < p {
                        assert(is_space(y[j - a]));
                    } else {
                        assert(is_space(y[j - a]));
                    }
                }
            }
            lemma_trimmed_is(x, x.len() as int, x.len() as int);
            assert(x.subrange(x.len() as int, x.len() as int) =~= y.subrange(p, q));
        }
    }
}

/// What is no white space survives trimming.
pub proof fn lemma_trimmed_keeps(s: Seq<char>, k: int)
    requires
        0 <= k < s.len(),
        !is_space(s[k]),
    ensures
        trimmed(s).contains(s[k]),
{
    let (a, b) = lemma_core(s);
    if k < a {
        assert(is_space(s[k]));
    }
    if k >= b {
        assert(is_space(s[k]));
    }
    assert(s.subrange(a, b)[k - a] == s[k]);
}

/// Lines without line feeds, written with a line feed behind each, are read
/// back but for a carriage return at the end of each.
pub proof fn written_lines_lose_cr(lines: Seq<Seq<char>>)
    requires
        forall|i: int| 0 <= i < lines.len() ==> !(#[trigger] lines[i]).contains('\n'),
    ensures
        line_seq(terminated(lines)) == lines.map_values(|l: Seq<char>| without_cr(l)),
{
    lemma_pieces_terminated(lines);
    let ps = pieces(terminated(lines), '\n');
    assert(ps.drop_last() =~= lines);
    assert(ps.last() == Seq::<char>::empty());
}

/// No part between separators holds one.
pub proof fn lemma_pieces_hold_no_separator(s: Seq<char>, c: char)
    ensures
        forall|i: int| 0 <= i < pieces(s, c).len() ==> !(#[trigger] pieces(s, c)[i]).contains(c),
    decreases s.len(),
{
    lemma_first(s, c);
    let k = first(s, c) as int;
    let ps = pieces(s, c);
    if k < s.len() {
        let rest = s.skip(k + 1);
        lemma_pieces_hold_no_separator(rest, c);
        let qs = pieces(rest, c);
        assert forall|i: int| 0 <= i < ps.len() implies !(#[trigger] ps[i]).contains(c) by {
            if i == 0 {
                assert(ps[0] == s.take(k));
                assert forall|j: int| 0 <= j < k implies s.take(k)[j] != c by {
                    assert(s.take(k)[j] == s[j]);
                }
            } else {
                assert(ps[i] == qs[i - 1]);
            }
        }
    }
}

/// No line holds a line feed.
pub proof fn lemma_lines_hold_no_feed(s: Seq<char>)
    ensures
        forall|i: int| 0 <= i < line_seq(s).len() ==> !(#[trigger] line_seq(s)[i]).contains('\n'),
{
    lemma_pieces_hold_no_separator(s, '\n');
    let ps = pieces(s, '\n');
    let ls = line_seq(s);
    assert forall|i: int| 0 <= i < ls.len() implies !(#[trigger] ls[i]).contains('\n') by {
        assert(!ps[i].contains('\n'));
        if i < ps.len() - 1 {
            assert(ls[i] == without_cr(ps[i]));
            if ls[i].contains('\n') {
                let j = ls[i].index_of('\n');
                assert(ps[i][j] == '\n');
            }
        } else {
            assert(ls[i] == ps[i]);
        }
    }
}

/// Blanks, tabs and line ends are white space; letters, digits and the marks of
/// the rule file are not.
pub proof fn white_space_is_white_space(c: char)
    ensures
        is_space(' ') && is_space('\t') && is_space('\n') && is_space('\r'),
        'a' <= c <= 'z' || 'A' <= c <= 'Z' || '0' <= c <= '9' ==> !is_space(c),
        !is_space('=') && !is_space('{') && !is_space('}') && !is_space('#') && !is_space('/'),
        !is_space('-') && !is_space(',') && !is_space('.') && !is_space(':') && !is_space('_'),
{
}

/// What stands behind the last separator is the last part.
pub proof fn last_parts_stand_behind_separators(a: Seq<char>, c: char, b: Seq<char>)
    requires
        !b.contains(c),
    ensures
        after_last(a + seq![c] + b, c) == b,
        after_last(b, c) == b,
    decreases a.len(),
{
    let s = a + seq![c] + b;
    assert(s[a.len() as int] == c);
    assert(s.contains(c));
    lemma_first(s, c);
    let k = first(s, c) as int;
    let t = s.skip(k + 1);
    if k < a.len() {
        let r = a.skip(k + 1);
        assert(t =~= r + seq![c] + b);
        last_parts_stand_behind_separators(r, c, b);
    } else {
        assert(k == a.len()) by {
            if k > a.len() {
                assert(s[a.len() as int] != c);
            }
        }
        assert(t =~= b);
        assert(after_last(b, c) == b);
    }
    assert(after_last(s, c) == after_last(t, c));
}

} // verus!
