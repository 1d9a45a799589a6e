//! What the screen shows of the session, computed without drawing it.
use vstd::prelude::*;

use crate::app::{item_display, item_views, selected_list, App};
use crate::file_browser::{EntryView, FileEntry};
use crate::path::{
    chars_path_starts_with, concat, is_absolute, join, join_chars, path_starts_with, string_views,
};
use crate::selection::SelectionView;
use crate::text::{chars_of, string_of};

verus! {

/// The selection pane's rows as shown, each with whether it is valid.
pub fn collect_display_paths(app: &App) -> (r: Vec<(String, bool)>)
    requires
        app.wf(),
    ensures
        item_views(r@) == selected_list(app.selection@, app.base_dir@).map_values(
            |it: (Seq<char>, bool)| (item_display(it, app.base_dir@), it.1),
        ),
{
    let items = app.get_selected_list();
    let ghost want = selected_list(app.selection@, app.base_dir@).map_values(
        |it: (Seq<char>, bool)| (item_display(it, app.base_dir@), it.1),
    );
    let mut r: Vec<(String, bool)> = Vec::new();
    let mut i: usize = 0;
    while i < items.len()
        invariant
            i <= items.len(),
            item_views(items@) == selected_list(app.selection@, app.base_dir@),
            want == selected_list(app.selection@, app.base_dir@).map_values(
                |it: (Seq<char>, bool)| (item_display(it, app.base_dir@), it.1),
            ),
            item_views(r@) == want.take(i as int),
        decreases items.len() - i,
    {
        let shown = app.format_path_for_display(&items[i].0, items[i].1);
        assert(item_views(items@)[i as int] == (items@[i as int].0@, items@[i as int].1));
        let ghost before = r@;
        r.push((shown, items[i].1));
        assert(item_views(r@) =~= item_views(before).push((shown@, items@[i as int].1)));
        assert(want.take(i + 1) =~= want.take(i as int).push(want[i as int]));
        i = i + 1;
    }
    assert(want.take(items.len() as int) =~= want);
    r
}

/// A chosen path that did not resolve, made absolute against `base`.
pub open spec fn full_path(p: Seq<char>, base: Seq<char>) -> Seq<char> {
    if is_absolute(p) {
        p
    } else {
        join(base, p)
    }
}

/// The members of `set` at or below `dir`; with `relative_to_base`, each is
/// first made absolute against `base`.
pub open spec fn members_below(
    set: Set<Seq<char>>,
    base: Seq<char>,
    dir: Seq<char>,
    relative_to_base: bool,
) -> Set<Seq<char>> {
    set.filter(
        |p: Seq<char>|
            path_starts_with(
                if relative_to_base {
                    full_path(p, base)
                } else {
                    p
                },
                dir,
            ),
    )
}

/// The number of chosen paths at or below `dir`: valid ones as they are,
/// the others made absolute against `base`.
pub open spec fn selected_below(s: SelectionView, base: Seq<char>, dir: Seq<char>) -> nat {
    members_below(s.valid, base, dir, false).len() + members_below(s.invalid, base, dir, true).len()
}

proof fn lemma_count_step(sv: Seq<Seq<char>>, i: int, f: spec_fn(Seq<char>) -> bool)
    requires
        0 <= i < sv.len(),
        sv.no_duplicates(),
    ensures
        sv.take(i + 1).to_set().filter(f).len() == sv.take(i).to_set().filter(f).len() + (if f(
            sv[i],
        ) {
            1int
        } else {
            0int
        }),
{
    let a = sv.take(i).to_set();
    assert(sv.take(i + 1) =~= sv.take(i) + seq![sv[i]]);
    Seq::lemma_to_set_insert_commutes(sv.take(i), sv[i]);
    assert(!a.contains(sv[i])) by {
        if a.contains(sv[i]) {
            let k = choose|k: int| 0 <= k < i && sv.take(i)[k] == sv[i];
            assert(sv[k] == sv[i]);
        }
    }
    sv.take(i).lemma_cardinality_of_set();
    vstd::seq_lib::seq_to_set_is_finite(sv.take(i));
    a.lemma_len_filter(f);
    if f(sv[i]) {
        assert(a.insert(sv[i]).filter(f) =~= a.filter(f).insert(sv[i]));
    } else {
        assert(a.insert(sv[i]).filter(f) =~= a.filter(f));
    }
}

/// How many of `strings` lie at or below `dir`; with `relative_to_base`,
/// each is first made absolute against `base`.
fn count_matching(
    strings: &Vec<String>,
    dir: &Vec<char>,
    base: &Vec<char>,
    relative_to_base: bool,
) -> (r: usize)
    requires
        string_views(strings@).no_duplicates(),
    ensures
        r == members_below(string_views(strings@).to_set(), base@, dir@, relative_to_base).len(),
{
    let ghost sv = string_views(strings@);
    let ghost f = |p: Seq<char>|
        path_starts_with(
            if relative_to_base {
                full_path(p, base@)
            } else {
                p
            },
            dir@,
        );
    assert(members_below(sv.to_set(), base@, dir@, relative_to_base) == sv.to_set().filter(f));
    let mut n: usize = 0;
    let mut i: usize = 0;
    assert(sv.take(0).to_set().filter(f) =~= Set::empty());
    while i < strings.len()
        invariant
            i <= strings.len(),
            sv == string_views(strings@),
            sv.no_duplicates(),
            n <= i,
            f == (|p: Seq<char>|
                path_starts_with(
                    if relative_to_base {
                        full_path(p, base@)
                    } else {
                        p
                    },
                    dir@,
                )),
            n == sv.take(i as int).to_set().filter(f).len(),
        decreases strings.len() - i,
    {
        let p = chars_of(strings[i].as_str());
        let q = if relative_to_base && !(p.len() > 0 && p[0] == '/') {
            join_chars(base, &p)
        } else {
            p
        };
        proof {
            lemma_count_step(sv, i as int, f);
        }
        if chars_path_starts_with(&q, dir) {
            n = n + 1;
        }
        i = i + 1;
    }
    assert(sv.take(strings.len() as int) =~= sv);
    n
}

/// How many chosen paths lie at or below the directory whose canonical
/// form is `dir_canonical`; none where it did not resolve.
pub fn count_selected_in_dir(dir_canonical: Option<&String>, app: &App) -> (r: usize)
    requires
        app.wf(),
    ensures
        r == match dir_canonical {
            Some(d) => {
                let c = selected_below(app.selection@, app.base_dir@, d@);
                if c > usize::MAX {
                    usize::MAX as int
                } else {
                    c as int
                }
            },
            None => 0,
        },
{
    let d = match dir_canonical {
        Some(d) => d,
        None => {
            return 0;
        },
    };
    let dir = chars_of(d.as_str());
    let base = chars_of(app.base_dir.as_str());
    let vs = app.selection.iter_valid();
    let is = app.selection.iter_invalid();
    let valid = count_matching(vs, &dir, &base, false);
    let invalid = count_matching(is, &dir, &base, true);
    valid.saturating_add(invalid)
}

pub open spec fn digit_of(d: nat) -> char {
    if d == 0 {
        '0'
    } else if d == 1 {
        '1'
    } else if d == 2 {
        '2'
    } else if d == 3 {
        '3'
    } else if d == 4 {
        '4'
    } else if d == 5 {
        '5'
    } else if d == 6 {
        '6'
    } else if d == 7 {
        '7'
    } else if d == 8 {
        '8'
    } else {
        '9'
    }
}

/// The decimal digits of `n`.
pub open spec fn decimal(n: nat) -> Seq<char>
    decreases n,
{
    if n < 10 {
        seq![digit_of(n)]
    } else {
        decimal(n / 10).push(digit_of(n % 10))
    }
}

fn digit(d: usize) -> (c: char)
    requires
        d < 10,
    ensures
        c == digit_of(d as nat),
{
    if d == 0 {
        '0'
    } else if d == 1 {
        '1'
    } else if d == 2 {
        '2'
    } else if d == 3 {
        '3'
    } else if d == 4 {
        '4'
    } else if d == 5 {
        '5'
    } else if d == 6 {
        '6'
    } else if d == 7 {
        '7'
    } else if d == 8 {
        '8'
    } else {
        '9'
    }
}

fn decimal_chars(n: usize) -> (r: Vec<char>)
    ensures
        r@ == decimal(n as nat),
    decreases n,
{
    if n < 10 {
        let mut r: Vec<char> = Vec::new();
        r.push(digit(n));
        assert(r@ =~= seq![digit_of(n as nat)]);
        r
    } else {
        let mut r = decimal_chars(n / 10);
        r.push(digit(n % 10));
        r
    }
}

/// How a row is labelled in the file pane: a directory's name with `/`, and
/// the number of chosen paths below it in parentheses where there are any.
pub open spec fn entry_label(e: EntryView, count: nat) -> Seq<char> {
    if e.is_dir {
        if count > 0 {
            e.name + seq!['/', ' ', '('] + decimal(count) + seq![')']
        } else {
            e.name.push('/')
        }
    } else {
        e.name
    }
}

/// The label of `entry`, given how many chosen paths lie below it.
pub fn format_entry_name(entry: &FileEntry, selected_below: usize) -> (r: String)
    ensures
        r@ == entry_label(entry@, selected_below as nat),
{
    if !entry.is_dir {
        return entry.name.clone();
    }
    let name = chars_of(entry.name.as_str());
    let mut tail: Vec<char> = Vec::new();
    tail.push('/');
    if selected_below > 0 {
        tail.push(' ');
        tail.push('(');
        let digits = decimal_chars(selected_below);
        let mut t = concat(&tail, &digits);
        t.push(')');
        let r = concat(&name, &t);
        assert(r@ =~= entry.name@ + seq!['/', ' ', '('] + decimal(selected_below as nat) + seq![')']);
        string_of(&r)
    } else {
        let r = concat(&name, &tail);
        assert(r@ =~= entry.name@.push('/'));
        string_of(&r)
    }
}

} // verus!
