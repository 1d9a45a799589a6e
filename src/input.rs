//! Cleaning the lines that name chosen paths: piped input and list files.
use vstd::prelude::*;

use crate::path::string_views;
use crate::text::{chars_of, string_of};

verus! {

/// The characters `char::is_whitespace` accepts (Unicode `White_Space`).
pub open spec fn is_space(c: char) -> bool {
    ('\u{9}' <= c && c <= '\u{d}') || c == ' ' || c == '\u{85}' || c == '\u{a0}' || c == '\u{1680}'
        || ('\u{2000}' <= c && c <= '\u{200a}') || c == '\u{2028}' || c == '\u{2029}' || c
        == '\u{202f}' || c == '\u{205f}' || c == '\u{3000}'
}

fn space(c: char) -> (r: bool)
    ensures
        r == is_space(c),
{
    ('\u{9}' <= c && c <= '\u{d}') || c == ' ' || c == '\u{85}' || c == '\u{a0}' || c == '\u{1680}'
        || ('\u{2000}' <= c && c <= '\u{200a}') || c == '\u{2028}' || c == '\u{2029}' || c
        == '\u{202f}' || c == '\u{205f}' || c == '\u{3000}'
}

pub open spec fn trim_front(s: Seq<char>) -> Seq<char>
    decreases s.len(),
{
    if s.len() > 0 && is_space(s[0]) {
        trim_front(s.drop_first())
    } else {
        s
    }
}

pub open spec fn trim_back(s: Seq<char>) -> Seq<char>
    decreases s.len(),
{
    if s.len() > 0 && is_space(s.last()) {
        trim_back(s.drop_last())
    } else {
        s
    }
}

/// `s` without white space at either end, as `str::trim` leaves it.
pub open spec fn trimmed(s: Seq<char>) -> Seq<char> {
    trim_back(trim_front(s))
}

/// The characters `from..to` of `s` without white space at either end.
fn trim_range(s: &Vec<char>, from: usize, to: usize) -> (r: Vec<char>)
    requires
        from <= to <= s.len(),
    ensures
        r@ == trimmed(s@.subrange(from as int, to as int)),
{
    let mut a = from;
    while a < to && space(s[a])
        invariant
            from <= a <= to <= s.len(),
            trim_front(s@.subrange(from as int, to as int)) == trim_front(
                s@.subrange(a as int, to as int),
            ),
        decreases to - a,
    {
        assert(s@.subrange(a as int, to as int).drop_first() =~= s@.subrange(a + 1, to as int));
        a = a + 1;
    }
    let mut b = to;
    assert(trim_front(s@.subrange(a as int, to as int)) == s@.subrange(a as int, to as int));
    while b > a && space(s[b - 1])
        invariant
            a <= b <= to <= s.len(),
            trim_back(s@.subrange(a as int, to as int)) == trim_back(s@.subrange(a as int, b as int)),
        decreases b - a,
    {
        assert(s@.subrange(a as int, b as int).drop_last() =~= s@.subrange(a as int, b - 1));
        b = b - 1;
    }
    let mut r: Vec<char> = Vec::new();
    let mut k = a;
    while k < b
        invariant
            a <= k <= b <= s.len(),
            r@ == s@.subrange(a as int, k as int),
        decreases b - k,
    {
        r.push(s[k]);
        assert(s@.subrange(a as int, k + 1) =~= s@.subrange(a as int, k as int).push(s@[k as int]));
        k = k + 1;
    }
    r
}

pub open spec fn esc() -> char {
    '\u{1b}'
}

pub open spec fn is_ascii_letter(c: char) -> bool {
    ('a' <= c && c <= 'z') || ('A' <= c && c <= 'Z')
}

/// The last index below `n` of an escape character.
pub open spec fn last_esc(s: Seq<char>, n: nat) -> Option<nat>
    decreases n,
{
    if n == 0 {
        None
    } else if s[n - 1] == esc() {
        Some((n - 1) as nat)
    } else {
        last_esc(s, (n - 1) as nat)
    }
}

/// The first index in `from..to` of an ASCII letter.
pub open spec fn first_letter(s: Seq<char>, from: nat, to: nat) -> Option<nat>
    decreases to - from,
{
    if from >= to {
        None
    } else if is_ascii_letter(s[from as int]) {
        Some(from)
    } else {
        first_letter(s, from + 1, to)
    }
}

/// What is left of the first `end` characters: the text after the last
/// escape sequence that is followed by some text, trimmed; where there is
/// none, the text before all escapes, trimmed.
pub open spec fn strip_from(s: Seq<char>, end: nat) -> Seq<char>
    decreases end,
{
    match last_esc(s, end) {
        None => trimmed(s.take(end as int)),
        Some(p) => if p < end {
            match first_letter(s, p, end) {
                Some(e) => if e + 1 < end {
                    trimmed(s.subrange(e + 1int, end as int))
                } else {
                    strip_from(s, p)
                },
                None => strip_from(s, p),
            }
        } else {
            s
        },
    }
}

/// A line with terminal escape sequences taken out: unchanged where it has
/// no escape character.
pub open spec fn without_escapes(s: Seq<char>) -> Seq<char> {
    if !s.contains(esc()) {
        s
    } else {
        strip_from(s, s.len())
    }
}

proof fn lemma_last_esc(s: Seq<char>, n: nat)
    requires
        n <= s.len(),
    ensures
        match last_esc(s, n) {
            Some(p) => p < n && s[p as int] == esc() && forall|j: int| p < j < n ==> s[j] != esc(),
            None => forall|j: int| 0 <= j < n ==> s[j] != esc(),
        },
    decreases n,
{
    if n > 0 {
        lemma_last_esc(s, (n - 1) as nat);
    }
}

fn find_last_esc(s: &Vec<char>, n: usize) -> (r: Option<usize>)
    requires
        n <= s.len(),
    ensures
        match last_esc(s@, n as nat) {
            Some(p) => r == Some(p as usize),
            None => r is None,
        },
{
    let mut i = n;
    while i > 0 && s[i - 1] != '\u{1b}'
        invariant
            i <= n <= s.len(),
            last_esc(s@, n as nat) == last_esc(s@, i as nat),
        decreases i,
    {
        i = i - 1;
    }
    if i == 0 {
        None
    } else {
        Some(i - 1)
    }
}

fn find_first_letter(s: &Vec<char>, from: usize, to: usize) -> (r: Option<usize>)
    requires
        from <= to <= s.len(),
    ensures
        match first_letter(s@, from as nat, to as nat) {
            Some(e) => r == Some(e as usize) && from <= e < to,
            None => r is None,
        },
{
    let mut i = from;
    while i < to && !(('a' <= s[i] && s[i] <= 'z') || ('A' <= s[i] && s[i] <= 'Z'))
        invariant
            from <= i <= to <= s.len(),
            first_letter(s@, from as nat, to as nat) == first_letter(s@, i as nat, to as nat),
            forall|j: nat| from <= j <= i ==> (#[trigger] first_letter(s@, j, to as nat)) == first_letter(s@, i as nat, to as nat),
        decreases to - i,
    {
        i = i + 1;
    }
    if i < to {
        Some(i)
    } else {
        None
    }
}

/// A line with terminal escape sequences taken out. Where it holds any, the
/// text after the last complete escape sequence is kept (trimmed), as that
/// is the path that followed other output on the line.
pub fn strip_ansi_escapes(s: &str) -> (r: String)
    ensures
        r@ == without_escapes(s@),
{
    let c = chars_of(s);
    let mut end = c.len();
    proof {
        lemma_last_esc(c@, end as nat);
    }
    match find_last_esc(&c, end) {
        None => {
            assert(!c@.contains(esc())) by {
                if c@.contains(esc()) {
                    let j = choose|j: int| 0 <= j < c@.len() && c@[j] == esc();
                }
            }
            return string_of(&c);
        },
        Some(_) => {},
    }
    assert(c@.contains(esc()));
    loop
        invariant
            end <= c.len(),
            c@ == s@,
            c@.contains(esc()),
            strip_from(c@, c.len() as nat) == strip_from(c@, end as nat),
        decreases end,
    {
        proof {
            lemma_last_esc(c@, end as nat);
        }
        match find_last_esc(&c, end) {
            None => {
                let t = trim_range(&c, 0, end);
                assert(c@.subrange(0, end as int) =~= c@.take(end as int));
                return string_of(&t);
            },
            Some(p) => {
                match find_first_letter(&c, p, end) {
                    Some(e) => {
                        if e + 1 < end {
                            let t = trim_range(&c, e + 1, end);
                            return string_of(&t);
                        }
                    },
                    None => {},
                }
                end = p;
            },
        }
    }
}

/// The byte order mark that may open piped input.
pub open spec fn bom() -> char {
    '\u{feff}'
}

/// A line of piped input as a path: escapes taken out, trimmed, and on the
/// first line a leading byte order mark dropped.
pub open spec fn cleaned_line(line: Seq<char>, first: bool) -> Seq<char> {
    let t = trimmed(without_escapes(line));
    if first && t.len() > 0 && t[0] == bom() {
        t.drop_first()
    } else {
        t
    }
}

pub fn clean_line(line: &String, first: bool) -> (r: String)
    ensures
        r@ == cleaned_line(line@, first),
{
    let stripped = strip_ansi_escapes(line.as_str());
    let c = chars_of(stripped.as_str());
    let t = trim_range(&c, 0, c.len());
    assert(c@.subrange(0, c.len() as int) =~= c@);
    if first && t.len() > 0 && t[0] == '\u{feff}' {
        let mut rest: Vec<char> = Vec::new();
        let mut i: usize = 1;
        while i < t.len()
            invariant
                1 <= i <= t.len(),
                rest@ == t@.subrange(1, i as int),
            decreases t.len() - i,
        {
            rest.push(t[i]);
            assert(t@.subrange(1, i + 1) =~= t@.subrange(1, i as int).push(t@[i as int]));
            i = i + 1;
        }
        assert(t@.subrange(1, t.len() as int) =~= t@.drop_first());
        string_of(&rest)
    } else {
        string_of(&t)
    }
}

/// The paths that piped lines name: each cleaned (the first as the first
/// line), the empty ones left out.
pub open spec fn piped_paths(lines: Seq<Seq<char>>) -> Seq<Seq<char>>
    decreases lines.len(),
{
    if lines.len() == 0 {
        seq![]
    } else {
        let prev = piped_paths(lines.drop_last());
        let c = cleaned_line(lines.last(), lines.len() == 1);
        if c.len() > 0 {
            prev.push(c)
        } else {
            prev
        }
    }
}

/// The paths that a list file's lines name: each trimmed, the empty ones left out.
pub open spec fn listed_paths(lines: Seq<Seq<char>>) -> Seq<Seq<char>>
    decreases lines.len(),
{
    if lines.len() == 0 {
        seq![]
    } else {
        let prev = listed_paths(lines.drop_last());
        let c = trimmed(lines.last());
        if c.len() > 0 {
            prev.push(c)
        } else {
            prev
        }
    }
}

/// The paths named by lines of piped input.
pub fn paths_from_piped_lines(lines: &Vec<String>) -> (r: Vec<String>)
    ensures
        string_views(r@) == piped_paths(string_views(lines@)),
{
    let ghost ls = string_views(lines@);
    let mut r: Vec<String> = Vec::new();
    let mut i: usize = 0;
    assert(ls.take(0) =~= seq![]);
    while i < lines.len()
        invariant
            i <= lines.len(),
            ls == string_views(lines@),
            string_views(r@) == piped_paths(ls.take(i as int)),
        decreases lines.len() - i,
    {
        let c = clean_line(&lines[i], i == 0);
        assert(ls.take(i + 1).drop_last() =~= ls.take(i as int));
        assert(ls.take(i + 1).last() == lines@[i as int]@);
        if c.as_str().is_empty() {
            assert(c@.len() == 0);
        } else {
            let ghost before = r@;
            r.push(c);
            assert(string_views(r@) =~= string_views(before).push(c@));
        }
        i = i + 1;
    }
    assert(ls.take(lines.len() as int) =~= ls);
    r
}

/// The paths named by the lines of a list file.
pub fn paths_from_list_lines(lines: &Vec<String>) -> (r: Vec<String>)
    ensures
        string_views(r@) == listed_paths(string_views(lines@)),
{
    let ghost ls = string_views(lines@);
    let mut r: Vec<String> = Vec::new();
    let mut i: usize = 0;
    assert(ls.take(0) =~= seq![]);
    while i < lines.len()
        invariant
            i <= lines.len(),
            ls == string_views(lines@),
            string_views(r@) == listed_paths(ls.take(i as int)),
        decreases lines.len() - i,
    {
        let c = chars_of(lines[i].as_str());
        let t = trim_range(&c, 0, c.len());
        assert(c@.subrange(0, c.len() as int) =~= c@);
        assert(ls.take(i + 1).drop_last() =~= ls.take(i as int));
        assert(ls.take(i + 1).last() == lines@[i as int]@);
        if t.len() > 0 {
            let ghost before = r@;
            let s = string_of(&t);
            r.push(s);
            assert(string_views(r@) =~= string_views(before).push(t@));
        }
        i = i + 1;
    }
    assert(ls.take(lines.len() as int) =~= ls);
    r
}

} // verus!
