//! The session: the browser, the chosen paths, the pane in focus and the
//! search, driven one key at a time.
use vstd::prelude::*;

use crate::file_browser::{
    enter_post, entry_views, go_parent_post, BrowserState, EntryView,
};
use crate::path::{name_chars, name_of, string_views};
use crate::selection::{
    output_set, add_spec, classified_views, remove_spec, selected_spec, shown_invalid, shown_invalid_chars,
    shown_valid, shown_valid_chars, toggle_invalid_spec, toggle_spec, Classified,
    ClassifiedView, SelectionState, SelectionView,
};
use crate::text::{
    chars_contain, chars_eq, chars_lt, chars_of, chars_start_with, has_infix, has_prefix,
    lemma_lt_asymmetric, lemma_lt_irreflexive, lemma_lt_total, lemma_lt_transitive,
    lemma_sorted_unique_by, lower_of, seq_lt, string_of, strictly_sorted, strictly_sorted_by,
    to_lower,
};

verus! {

/// A chosen path in the selection pane: its text, and whether it is valid.
pub open spec fn item_display(it: (Seq<char>, bool), base: Seq<char>) -> Seq<char> {
    if it.1 {
        shown_valid(it.0, base)
    } else {
        shown_invalid(it.0)
    }
}

/// The order of the selection pane: by the text shown, then valid paths
/// first, then by the path itself.
pub open spec fn item_lt(a: (Seq<char>, bool), b: (Seq<char>, bool), base: Seq<char>) -> bool {
    let (da, db) = (item_display(a, base), item_display(b, base));
    seq_lt(da, db) || (da == db && ((a.1 && !b.1) || (a.1 == b.1 && seq_lt(a.0, b.0))))
}

pub open spec fn selection_items(s: SelectionView) -> Set<(Seq<char>, bool)> {
    s.valid.map(|p: Seq<char>| (p, true)) + s.invalid.map(|p: Seq<char>| (p, false))
}

pub open spec fn items_sorted(l: Seq<(Seq<char>, bool)>, base: Seq<char>) -> bool {
    strictly_sorted_by(l, |a: (Seq<char>, bool), b: (Seq<char>, bool)| item_lt(a, b, base))
}

/// The selection pane's rows: every chosen path once, in pane order.
pub open spec fn selected_list(s: SelectionView, base: Seq<char>) -> Seq<(Seq<char>, bool)> {
    choose|l: Seq<(Seq<char>, bool)>| items_sorted(l, base) && l.to_set() == selection_items(s)
}

pub open spec fn item_views(l: Seq<(String, bool)>) -> Seq<(Seq<char>, bool)> {
    l.map_values(|it: (String, bool)| (it.0@, it.1))
}

proof fn lemma_item_lt_asymmetric(a: (Seq<char>, bool), b: (Seq<char>, bool), base: Seq<char>)
    ensures
        !(item_lt(a, b, base) && item_lt(b, a, base)),
        !item_lt(a, a, base),
{
    lemma_lt_asymmetric(item_display(a, base), item_display(b, base));
    lemma_lt_asymmetric(a.0, b.0);
    lemma_lt_irreflexive(item_display(a, base));
    lemma_lt_irreflexive(a.0);
}

proof fn lemma_item_lt_transitive(
    a: (Seq<char>, bool),
    b: (Seq<char>, bool),
    c: (Seq<char>, bool),
    base: Seq<char>,
)
    requires
        item_lt(a, b, base),
        item_lt(b, c, base),
    ensures
        item_lt(a, c, base),
{
    let (da, db, dc) = (item_display(a, base), item_display(b, base), item_display(c, base));
    if seq_lt(da, db) && seq_lt(db, dc) {
        lemma_lt_transitive(da, db, dc);
    }
    if a.1 == b.1 && b.1 == c.1 && seq_lt(a.0, b.0) && seq_lt(b.0, c.0) {
        lemma_lt_transitive(a.0, b.0, c.0);
    }
}

proof fn lemma_item_lt_total(a: (Seq<char>, bool), b: (Seq<char>, bool), base: Seq<char>)
    ensures
        a == b || item_lt(a, b, base) || item_lt(b, a, base),
{
    lemma_lt_total(item_display(a, base), item_display(b, base));
    lemma_lt_total(a.0, b.0);
}

/// A row being sorted: the text shown, the path, and whether it is valid.
struct SortRow {
    shown: Vec<char>,
    path: Vec<char>,
    valid: bool,
}

spec fn row_item(r: SortRow) -> (Seq<char>, bool) {
    (r.path@, r.valid)
}

spec fn row_items(v: Seq<SortRow>) -> Seq<(Seq<char>, bool)> {
    v.map_values(|r: SortRow| row_item(r))
}

spec fn rows_ok(v: Seq<SortRow>, base: Seq<char>) -> bool {
    forall|i: int| 0 <= i < v.len() ==> (#[trigger] v[i]).shown@ == item_display(row_item(v[i]), base)
}

fn row_lt(a: &SortRow, b: &SortRow, base: Ghost<Seq<char>>) -> (r: bool)
    requires
        a.shown@ == item_display(row_item(*a), base@),
        b.shown@ == item_display(row_item(*b), base@),
    ensures
        r == item_lt(row_item(*a), row_item(*b), base@),
{
    chars_lt(&a.shown, &b.shown) || (chars_eq(&a.shown, &b.shown) && ((a.valid && !b.valid) || (
    a.valid == b.valid && chars_lt(&a.path, &b.path))))
}

/// Puts `x` into the strictly sorted rows `v`, where it is not already.
fn insert_row(v: &mut Vec<SortRow>, x: SortRow, base: Ghost<Seq<char>>)
    requires
        items_sorted(row_items(old(v)@), base@),
        rows_ok(old(v)@, base@),
        x.shown@ == item_display(row_item(x), base@),
    ensures
        items_sorted(row_items(final(v)@), base@),
        rows_ok(final(v)@, base@),
        row_items(final(v)@).to_set() == row_items(old(v)@).to_set().insert(row_item(x)),
{
    let ghost s = row_items(v@);
    let ghost xi = row_item(x);
    let mut i: usize = 0;
    while i < v.len() && row_lt(&v[i], &x, base)
        invariant
            i <= v.len(),
            s == row_items(v@),
            rows_ok(v@, base@),
            x.shown@ == item_display(row_item(x), base@),
            xi == row_item(x),
            forall|j: int| 0 <= j < i ==> item_lt(#[trigger] s[j], xi, base@),
        decreases v.len() - i,
    {
        assert(s[i as int] == row_item(v@[i as int]));
        i = i + 1;
    }
    if i < v.len() && v[i].valid == x.valid && chars_eq(&v[i].path, &x.path) {
        assert(s[i as int] == xi);
        assert(s.to_set().insert(xi) =~= s.to_set());
        return;
    }
    proof {
        if i < v.len() {
            assert(s[i as int] == row_item(v@[i as int]));
            assert(s[i as int] != xi);
            lemma_item_lt_total(s[i as int], xi, base@);
        }
    }
    let ghost ov = v@;
    v.insert(i, x);
    let ghost t = row_items(v@);
    assert(t =~= s.insert(i as int, xi));
    assert forall|j: int| 0 <= j < v@.len() implies (#[trigger] v@[j]).shown@ == item_display(
        row_item(v@[j]),
        base@,
    ) by {
        if j < i {
            assert(v@[j] == ov[j]);
        } else if j > i {
            assert(v@[j] == ov[j - 1]);
        }
    }
    assert forall|a: int, b: int| 0 <= a < b < t.len() implies item_lt(
        #[trigger] t[a],
        #[trigger] t[b],
        base@,
    ) by {
        if b < i {
        } else if a < i && b == i {
        } else if a < i {
            assert(t[b] == s[b - 1]);
            if b - 1 > i {
                assert(item_lt(s[i as int], s[b - 1], base@));
                lemma_item_lt_transitive(xi, s[i as int], s[b - 1], base@);
            }
            lemma_item_lt_transitive(s[a], xi, s[b - 1], base@);
        } else if a == i {
            if b - 1 > i {
                assert(item_lt(s[i as int], s[b - 1], base@));
                lemma_item_lt_transitive(xi, s[i as int], s[b - 1], base@);
            }
        } else {
            assert(t[a] == s[a - 1]);
            assert(t[b] == s[b - 1]);
        }
    }
    assert(t.to_set() =~= s.to_set().insert(xi)) by {
        assert forall|e: (Seq<char>, bool)| t.to_set().contains(e) implies s.to_set().insert(
            xi,
        ).contains(e) by {
            let k = choose|k: int| 0 <= k < t.len() && t[k] == e;
            if k < i {
                assert(s[k] == e);
            } else if k > i {
                assert(s[k - 1] == e);
            }
        }
        assert forall|e: (Seq<char>, bool)| s.to_set().insert(xi).contains(e) implies t.to_set().contains(
            e,
        ) by {
            if e == xi {
                assert(t[i as int] == e);
            } else {
                let k = choose|k: int| 0 <= k < s.len() && s[k] == e;
                if k < i {
                    assert(t[k] == e);
                } else {
                    assert(t[k + 1] == e);
                }
            }
        }
    }
}

proof fn lemma_selected_list_is(l: Seq<(Seq<char>, bool)>, s: SelectionView, base: Seq<char>)
    requires
        items_sorted(l, base),
        l.to_set() == selection_items(s),
    ensures
        selected_list(s, base) == l,
{
    let lt = |a: (Seq<char>, bool), b: (Seq<char>, bool)| item_lt(a, b, base);
    let c = selected_list(s, base);
    assert(items_sorted(c, base) && c.to_set() == selection_items(s));
    assert forall|x: (Seq<char>, bool), y: (Seq<char>, bool)| !(#[trigger] lt(x, y) && lt(y, x)) by {
        lemma_item_lt_asymmetric(x, y, base);
    }
    assert forall|x: (Seq<char>, bool)| !#[trigger] lt(x, x) by {
        lemma_item_lt_asymmetric(x, x, base);
    }
    lemma_sorted_unique_by(c, l, lt);
}

proof fn lemma_take_insert<T>(s: Seq<T>, i: int)
    requires
        0 <= i < s.len(),
    ensures
        s.take(i + 1).to_set() == s.take(i).to_set().insert(s[i]),
{
    assert(s.take(i + 1) =~= s.take(i) + seq![s[i]]);
    Seq::lemma_to_set_insert_commutes(s.take(i), s[i]);
}

proof fn lemma_map_insert_pair(a: Set<Seq<char>>, x: Seq<char>, flag: bool)
    ensures
        a.insert(x).map(|p: Seq<char>| (p, flag)) == a.map(|p: Seq<char>| (p, flag)).insert(
            (x, flag),
        ),
{
    let f = |p: Seq<char>| (p, flag);
    assert forall|y: (Seq<char>, bool)| #[trigger] a.insert(x).map(f).contains(y) implies a.map(
        f,
    ).insert((x, flag)).contains(y) by {
        let z = choose|z: Seq<char>| a.insert(x).contains(z) && y == f(z);
        if z != x {
            assert(a.contains(z));
        }
    }
    assert forall|y: (Seq<char>, bool)| #[trigger] a.map(f).insert((x, flag)).contains(y) implies a.insert(
        x,
    ).map(f).contains(y) by {
        if y == (x, flag) {
            assert(a.insert(x).contains(x));
        } else {
            let z = choose|z: Seq<char>| a.contains(z) && y == f(z);
            assert(a.insert(x).contains(z));
        }
    }
    assert(a.insert(x).map(f) =~= a.map(f).insert((x, flag)));
}

/// The selection pane's rows, built from the selection's two sets.
fn sorted_items(selection: &SelectionState, base_dir: &String) -> (r: Vec<(String, bool)>)
    requires
        selection.wf(),
    ensures
        item_views(r@) == selected_list(selection@, base_dir@),
{
    let base = chars_of(base_dir.as_str());
    let ghost b = base_dir@;
    let valid = selection.iter_valid();
    let invalid = selection.iter_invalid();
    let ghost sv = string_views(valid@);
    let ghost si = string_views(invalid@);
    let mut rows: Vec<SortRow> = Vec::new();
    assert(row_items(rows@).to_set() =~= sv.take(0).to_set().map(|p: Seq<char>| (p, true))) by {
        assert(sv.take(0).to_set() =~= Set::empty());
    }
    let mut i: usize = 0;
    while i < valid.len()
        invariant
            i <= valid.len(),
            base@ == b,
            sv == string_views(valid@),
            items_sorted(row_items(rows@), b),
            rows_ok(rows@, b),
            row_items(rows@).to_set() == sv.take(i as int).to_set().map(|p: Seq<char>| (p, true)),
        decreases valid.len() - i,
    {
        let p = chars_of(valid[i].as_str());
        let shown = shown_valid_chars(&p, &base);
        proof {
            lemma_take_insert(sv, i as int);
            lemma_map_insert_pair(sv.take(i as int).to_set(), sv[i as int], true);
        }
        insert_row(&mut rows, SortRow { shown, path: p, valid: true }, Ghost(b));
        i = i + 1;
    }
    assert(sv.take(valid.len() as int) =~= sv);
    let ghost valid_part = row_items(rows@).to_set();
    assert(row_items(rows@).to_set() =~= valid_part + si.take(0).to_set().map(
        |p: Seq<char>| (p, false),
    )) by {
        assert(si.take(0).to_set() =~= Set::empty());
    }
    let mut j: usize = 0;
    while j < invalid.len()
        invariant
            j <= invalid.len(),
            base@ == b,
            si == string_views(invalid@),
            items_sorted(row_items(rows@), b),
            rows_ok(rows@, b),
            row_items(rows@).to_set() == valid_part + si.take(j as int).to_set().map(
                |p: Seq<char>| (p, false),
            ),
        decreases invalid.len() - j,
    {
        let p = chars_of(invalid[j].as_str());
        let shown = shown_invalid_chars(&p);
        proof {
            lemma_take_insert(si, j as int);
            lemma_map_insert_pair(si.take(j as int).to_set(), si[j as int], false);
        }
        insert_row(&mut rows, SortRow { shown, path: p, valid: false }, Ghost(b));
        assert(row_items(rows@).to_set() =~= valid_part + si.take(j + 1).to_set().map(
            |p: Seq<char>| (p, false),
        ));
        j = j + 1;
    }
    assert(si.take(invalid.len() as int) =~= si);
    let mut r: Vec<(String, bool)> = Vec::new();
    let mut k: usize = 0;
    while k < rows.len()
        invariant
            k <= rows.len(),
            item_views(r@) == row_items(rows@).take(k as int),
        decreases rows.len() - k,
    {
        let s = string_of(&rows[k].path);
        let ghost before = r@;
        r.push((s, rows[k].valid));
        assert(item_views(r@) =~= item_views(before).push((s@, rows@[k as int].valid)));
        assert(row_items(rows@).take(k + 1) =~= row_items(rows@).take(k as int).push(
            row_item(rows@[k as int]),
        ));
        k = k + 1;
    }
    assert(row_items(rows@).take(rows.len() as int) =~= row_items(rows@));
    proof {
        lemma_selected_list_is(row_items(rows@), selection@, b);
    }
    r
}

/// What the caller is asked to do after a key.
#[derive(Clone, Copy, Debug, PartialEq, Eq, Structural)]
pub enum AppAction {
    Continue,
    Quit,
    Confirm,
    Save,
}

#[derive(Clone, Copy, Debug, PartialEq, Eq, Structural)]
pub enum FocusedPane {
    Files,
    Selected,
}

pub open spec fn other_pane(p: FocusedPane) -> FocusedPane {
    match p {
        FocusedPane::Files => FocusedPane::Selected,
        FocusedPane::Selected => FocusedPane::Files,
    }
}

impl FocusedPane {
    pub fn toggle(self) -> (r: Self)
        ensures
            r == other_pane(self),
    {
        match self {
            FocusedPane::Files => FocusedPane::Selected,
            FocusedPane::Selected => FocusedPane::Files,
        }
    }
}

impl Default for FocusedPane {
    fn default() -> (r: Self)
        ensures
            r == FocusedPane::Files,
    {
        FocusedPane::Files
    }
}

/// A key press, as far as the session tells keys apart.
#[derive(Clone, Copy, Debug, PartialEq, Eq, Structural)]
pub enum Key {
    Char(char),
    Esc,
    Enter,
    Tab,
    Up,
    Down,
    Left,
    Right,
    Backspace,
    Other,
}

/// What a key leaves for the caller to do.
#[derive(Debug)]
pub enum Effect {
    /// Nothing more; the action to take.
    Done(AppAction),
    /// The browser moved or changed its filter: read the current directory's
    /// listing and the probes of its tracked missing paths, and hand them to
    /// `BrowserState::refresh`.
    Reload,
    /// Classify each of these paths, in order, and hand them to `App::resume`.
    Classify(Vec<String>),
    /// Collect every non-directory below this directory, descending into
    /// every subdirectory, classify each, and hand them to `App::resume`.
    CollectFiles(String),
}

/// What `App::resume` does with the classified paths it is handed.
#[derive(Clone, Copy, Debug, PartialEq, Eq, Structural)]
pub enum Pending {
    Nothing,
    /// Flip the first path.
    Flip,
    /// Take the paths out of the valid set.
    Deselect,
    /// Choose all the paths, or none where all are chosen already.
    Batch,
    /// As `Batch`, leaving out hidden files unless hidden rows are shown.
    Tree,
}

/// The session.
#[derive(Debug)]
pub struct App {
    pub browser: BrowserState,
    pub selection: SelectionState,
    pub base_dir: String,
    pub focused_pane: FocusedPane,
    pub selected_cursor: usize,
    pub selected_scroll_offset: usize,
    pub search_mode: bool,
    pub search_query: String,
    pub use_absolute: bool,
    pub selections_file: Option<String>,
    pub pending: Pending,
}

/// The number of chosen paths, as `SelectionState::count` gives it.
pub open spec fn sel_count(s: SelectionView) -> int {
    if s.valid.len() + s.invalid.len() > usize::MAX {
        usize::MAX as int
    } else {
        (s.valid.len() + s.invalid.len()) as int
    }
}

/// `cursor` kept on a row of a pane of `count` rows.
pub open spec fn clamped(cursor: int, count: int) -> int {
    if count == 0 {
        0
    } else if cursor >= count {
        count - 1
    } else {
        cursor
    }
}

/// Whether `name` starts with (or, with `prefix` false, contains) `q`.
pub open spec fn name_matches(name: Seq<char>, q: Seq<char>, prefix: bool) -> bool {
    if prefix {
        has_prefix(name, q)
    } else {
        has_infix(name, q)
    }
}

/// The least index below `n` of a matching name, or `n`.
pub open spec fn first_match(names: Seq<Seq<char>>, q: Seq<char>, prefix: bool, n: nat) -> nat
    decreases n,
{
    if n == 0 {
        0
    } else {
        let f = first_match(names, q, prefix, (n - 1) as nat);
        if f < n - 1 {
            f
        } else if name_matches(names[n - 1], q, prefix) {
            (n - 1) as nat
        } else {
            n
        }
    }
}

/// The first of `names` that starts with `q`, else the first that contains it.
pub open spec fn pick_row(names: Seq<Seq<char>>, q: Seq<char>) -> Option<int> {
    let p = first_match(names, q, true, names.len());
    let c = first_match(names, q, false, names.len());
    if p < names.len() {
        Some(p as int)
    } else if c < names.len() {
        Some(c as int)
    } else {
        None
    }
}

/// The row a search for `query` lands on: the first whose lower-cased name
/// starts with the lower-cased query, else the first that contains it.
pub open spec fn search_target(es: Seq<EntryView>, query: Seq<char>) -> Option<int> {
    if query.len() == 0 {
        None
    } else {
        pick_row(es.map_values(|e: EntryView| lower_of(e.name)), lower_of(query))
    }
}

/// `a` after a search for `query`: the cursor on the row found, with the
/// view scrolled up to it where it lies above.
pub open spec fn jumped(a: App, query: Seq<char>) -> App {
    match search_target(entry_views(a.browser.entries@), query) {
        Some(i) => App {
            browser: BrowserState {
                cursor: i as usize,
                scroll_offset: if a.browser.scroll_offset > i {
                    i as usize
                } else {
                    a.browser.scroll_offset
                },
                ..a.browser
            },
            ..a
        },
        None => a,
    }
}

proof fn lemma_first_match(names: Seq<Seq<char>>, q: Seq<char>, prefix: bool, n: nat)
    requires
        n <= names.len(),
    ensures
        first_match(names, q, prefix, n) <= n,
        forall|j: int|
            0 <= j < first_match(names, q, prefix, n) ==> !name_matches(#[trigger] names[j], q, prefix),
        first_match(names, q, prefix, n) < n ==> name_matches(
            names[first_match(names, q, prefix, n) as int],
            q,
            prefix,
        ),
    decreases n,
{
    if n > 0 {
        lemma_first_match(names, q, prefix, (n - 1) as nat);
    }
}

/// The index of the first of `names` that starts with `query`, else of the
/// first that contains it; none where no name contains it.
pub fn pick_match(names: &Vec<String>, query: &String) -> (r: Option<usize>)
    ensures
        match pick_row(string_views(names@), query@) {
            Some(i) => r == Some(i as usize),
            None => r is None,
        },
{
    let q = chars_of(query.as_str());
    let p = find_name(names, &q, true);
    if p < names.len() {
        return Some(p);
    }
    let c = find_name(names, &q, false);
    if c < names.len() {
        Some(c)
    } else {
        None
    }
}

/// The index of the first of `names` that starts with (or, with `prefix`
/// false, contains) `q`, or the number of names.
fn find_name(names: &Vec<String>, q: &Vec<char>, prefix: bool) -> (r: usize)
    ensures
        r == first_match(string_views(names@), q@, prefix, names.len() as nat),
{
    let ghost ns = string_views(names@);
    let mut i: usize = 0;
    while i < names.len()
        invariant
            i <= names.len(),
            ns == string_views(names@),
            forall|j: int| 0 <= j < i ==> !name_matches(#[trigger] ns[j], q@, prefix),
        decreases names.len() - i,
    {
        let name = chars_of(names[i].as_str());
        assert(ns[i as int] == names@[i as int]@);
        let hit = if prefix {
            chars_start_with(&name, q)
        } else {
            chars_contain(&name, q)
        };
        if hit {
            proof {
                lemma_first_match(ns, q@, prefix, ns.len());
                let f = first_match(ns, q@, prefix, ns.len());
                if f < i {
                    assert(name_matches(ns[f as int], q@, prefix));
                }
            }
            return i;
        }
        i = i + 1;
    }
    proof {
        lemma_first_match(ns, q@, prefix, ns.len());
        let f = first_match(ns, q@, prefix, ns.len());
        if f < ns.len() {
            assert(name_matches(ns[f as int], q@, prefix));
        }
    }
    i
}

impl App {
    pub open spec fn wf(&self) -> bool {
        &&& self.browser.wf()
        &&& self.selection.wf()
    }

    /// A session at `start_dir` (a canonical directory, also the base for
    /// relative paths) with `pre_selected` chosen; the missing ones among
    /// them are tracked by the browser. The listing is read by a refresh.
    pub fn new(
        start_dir: String,
        show_hidden: bool,
        use_absolute: bool,
        pre_selected: Vec<Classified>,
        selections_file: Option<String>,
    ) -> (r: Self)
        ensures
            r.wf(),
            r.base_dir == start_dir,
            r.browser.current_dir == start_dir,
            r.browser.base_dir == start_dir,
            r.browser.show_hidden == show_hidden,
            r.browser.entries@.len() == 0,
            r.browser.cursor == 0,
            r.browser.scroll_offset == 0,
            r.browser.return_to is None,
            r.browser.tracked_invalid().to_set() == r.selection@.invalid,
            r.selection@ == add_spec(
                SelectionView { valid: Set::empty(), invalid: Set::empty() },
                classified_views(pre_selected@),
            ),
            r.use_absolute == use_absolute,
            r.selections_file == selections_file,
            r.focused_pane == FocusedPane::Files,
            r.selected_cursor == 0,
            r.selected_scroll_offset == 0,
            !r.search_mode,
            r.search_query@.len() == 0,
            r.pending == Pending::Nothing,
    {
        let mut browser = BrowserState::new(start_dir.clone(), show_hidden);
        let mut selection = SelectionState::new();
        proof {
            assert(selection@ == SelectionView { valid: Set::empty(), invalid: Set::empty() });
        }
        selection.add_paths(pre_selected);
        let invalid = selection.iter_invalid();
        let mut copied: Vec<String> = Vec::new();
        let mut i: usize = 0;
        while i < invalid.len()
            invariant
                i <= invalid.len(),
                string_views(copied@) == string_views(invalid@).take(i as int),
            decreases invalid.len() - i,
        {
            let ghost before = copied@;
            copied.push(invalid[i].clone());
            assert(string_views(copied@) =~= string_views(before).push(invalid@[i as int]@));
            assert(string_views(invalid@).take(i + 1) =~= string_views(invalid@).take(i as int).push(
                invalid@[i as int]@,
            ));
            i = i + 1;
        }
        assert(string_views(invalid@).take(invalid.len() as int) =~= string_views(invalid@));
        browser.add_invalid_paths(copied);
        assert(browser.tracked_invalid().to_set() =~= selection@.invalid);
        App {
            browser,
            selection,
            base_dir: start_dir,
            focused_pane: FocusedPane::Files,
            selected_cursor: 0,
            selected_scroll_offset: 0,
            search_mode: false,
            search_query: String::new(),
            use_absolute,
            selections_file,
            pending: Pending::Nothing,
        }
    }

    pub fn can_save(&self) -> (r: bool)
        ensures
            r == self.selections_file is Some,
    {
        self.selections_file.is_some()
    }

    pub fn selections_file(&self) -> (r: Option<&String>)
        ensures
            match self.selections_file {
                Some(f) => r == Some(&f),
                None => r is None,
            },
    {
        match &self.selections_file {
            Some(f) => Some(f),
            None => None,
        }
    }

    /// Moves the cursor onto the row that a search for the current query
    /// lands on; an empty query, or one that matches no row, moves nothing.
    pub fn jump_to_match(&mut self)
        ensures
            *final(self) == jumped(*old(self), old(self).search_query@),
    {
        if self.search_query.as_str().is_empty() {
            proof {
                assert(self.search_query@.len() == 0);
            }
            return;
        }
        proof {
            assert(self.search_query@.len() != 0);
        }
        let query = to_lower(self.search_query.as_str());
        let ghost es = entry_views(self.browser.entries@);
        let mut names: Vec<String> = Vec::new();
        let mut i: usize = 0;
        while i < self.browser.entries.len()
            invariant
                i <= self.browser.entries.len(),
                es == entry_views(self.browser.entries@),
                string_views(names@) == es.map_values(|e: EntryView| lower_of(e.name)).take(i as int),
            decreases self.browser.entries.len() - i,
        {
            let name = to_lower(self.browser.entries[i].name.as_str());
            let ghost before = names@;
            names.push(name);
            assert(string_views(names@) =~= string_views(before).push(name@));
            assert(es.map_values(|e: EntryView| lower_of(e.name)).take(i + 1) =~= es.map_values(
                |e: EntryView| lower_of(e.name),
            ).take(i as int).push(lower_of(self.browser.entries@[i as int].name@)));
            i = i + 1;
        }
        assert(es.map_values(|e: EntryView| lower_of(e.name)).take(i as int) =~= es.map_values(
            |e: EntryView| lower_of(e.name),
        ));
        match pick_match(&names, &query) {
            Some(found) => {
                self.browser.cursor = found;
                if self.browser.scroll_offset > found {
                    self.browser.scroll_offset = found;
                }
            },
            None => {},
        }
    }

    fn move_up(&mut self)
        requires
            old(self).wf(),
        ensures
            final(self).wf(),
            *final(self) == pane_up(*old(self)),
    {
        match self.focused_pane {
            FocusedPane::Files => {
                self.browser.move_up();
            },
            FocusedPane::Selected => {
                if self.selected_cursor > 0 {
                    self.selected_cursor = self.selected_cursor - 1;
                    if self.selected_scroll_offset > self.selected_cursor {
                        self.selected_scroll_offset = self.selected_cursor;
                    }
                }
            },
        }
    }

    fn move_down(&mut self)
        requires
            old(self).wf(),
        ensures
            final(self).wf(),
            *final(self) == pane_down(*old(self)),
    {
        match self.focused_pane {
            FocusedPane::Files => {
                self.browser.move_down();
            },
            FocusedPane::Selected => {
                let count = self.selection.count();
                if count > 0 && self.selected_cursor < count - 1 {
                    self.selected_cursor = self.selected_cursor + 1;
                }
            },
        }
    }

    /// Scrolls the selection pane down just enough that its cursor is within
    /// `visible_height` rows from the top of the view.
    pub fn adjust_selected_scroll(&mut self, visible_height: usize)
        ensures
            *final(self) == (App {
                selected_scroll_offset: if visible_height > 0 && old(self).selected_cursor
                    >= old(self).selected_scroll_offset + visible_height {
                    (old(self).selected_cursor - visible_height + 1) as usize
                } else {
                    old(self).selected_scroll_offset
                },
                ..*old(self)
            }),
    {
        if visible_height == 0 {
            return;
        }
        if self.selected_cursor >= self.selected_scroll_offset && self.selected_cursor
            - self.selected_scroll_offset >= visible_height {
            self.selected_scroll_offset = self.selected_cursor - visible_height + 1;
        }
    }

    fn clamp_selected_cursor(&mut self)
        requires
            old(self).wf(),
        ensures
            *final(self) == (App {
                selected_cursor: clamped(
                    old(self).selected_cursor as int,
                    sel_count(old(self).selection@),
                ) as usize,
                ..*old(self)
            }),
    {
        let count = self.selection.count();
        if count == 0 {
            self.selected_cursor = 0;
        } else if self.selected_cursor >= count {
            self.selected_cursor = count - 1;
        }
    }

    /// The selection pane's rows: each chosen path with whether it is valid.
    pub fn get_selected_list(&self) -> (r: Vec<(String, bool)>)
        requires
            self.wf(),
        ensures
            item_views(r@) == selected_list(self.selection@, self.base_dir@),
    {
        sorted_items(&self.selection, &self.base_dir)
    }

    /// How the selection pane shows a chosen path.
    pub fn format_path_for_display(&self, path: &String, is_valid: bool) -> (r: String)
        ensures
            r@ == item_display((path@, is_valid), self.base_dir@),
    {
        let p = chars_of(path.as_str());
        if is_valid {
            let base = chars_of(self.base_dir.as_str());
            string_of(&shown_valid_chars(&p, &base))
        } else {
            string_of(&shown_invalid_chars(&p))
        }
    }

    /// The chosen paths as written out on confirming.
    pub fn get_output(&self) -> (r: Vec<String>)
        ensures
            strictly_sorted(string_views(r@)),
            string_views(r@).to_set() == output_set(self.selection@, self.use_absolute, self.base_dir@),
    {
        self.selection.to_output(self.use_absolute, &self.base_dir)
    }

    fn toggle_current_entry(&mut self) -> (r: Effect)
        requires
            old(self).wf(),
        ensures
            final(self).wf(),
            space_files_post(*old(self), *final(self), r),
    {
        if self.browser.cursor < self.browser.entries.len() {
            if self.browser.entries[self.browser.cursor].is_invalid {
                self.selection.toggle_invalid(&self.browser.entries[self.browser.cursor].path);
                Effect::Done(AppAction::Continue)
            } else {
                let p = self.browser.entries[self.browser.cursor].path.clone();
                self.pending = Pending::Flip;
                let mut v: Vec<String> = Vec::new();
                v.push(p);
                assert(string_views(v@) =~= seq![p@]);
                Effect::Classify(v)
            }
        } else {
            Effect::Done(AppAction::Continue)
        }
    }

    fn deselect_at_cursor(&mut self) -> (r: Effect)
        requires
            old(self).wf(),
        ensures
            final(self).wf(),
            space_selected_post(*old(self), *final(self), r),
    {
        let items = self.get_selected_list();
        if self.selected_cursor < items.len() {
            let path = items[self.selected_cursor].0.clone();
            let valid = items[self.selected_cursor].1;
            assert(item_views(items@)[self.selected_cursor as int] == (path@, valid));
            if valid {
                self.pending = Pending::Deselect;
                let mut v: Vec<String> = Vec::new();
                v.push(path);
                assert(string_views(v@) =~= seq![path@]);
                Effect::Classify(v)
            } else {
                self.selection.toggle_invalid(&path);
                self.clamp_selected_cursor();
                Effect::Done(AppAction::Continue)
            }
        } else {
            Effect::Done(AppAction::Continue)
        }
    }

    fn handle_space(&mut self) -> (r: Effect)
        requires
            old(self).wf(),
        ensures
            final(self).wf(),
            old(self).focused_pane == FocusedPane::Files ==> space_files_post(*old(self), *final(self), r),
            old(self).focused_pane == FocusedPane::Selected ==> space_selected_post(
                *old(self),
                *final(self),
                r,
            ),
    {
        match self.focused_pane {
            FocusedPane::Files => self.toggle_current_entry(),
            FocusedPane::Selected => self.deselect_at_cursor(),
        }
    }

    fn toggle_recursive(&mut self) -> (r: Effect)
        requires
            old(self).wf(),
        ensures
            final(self).wf(),
            recursive_post(*old(self), *final(self), r),
    {
        if self.browser.cursor < self.browser.entries.len() {
            let e = &self.browser.entries[self.browser.cursor];
            if e.is_dir && !e.is_invalid {
                let d = e.path.clone();
                self.pending = Pending::Tree;
                return Effect::CollectFiles(d);
            }
        }
        Effect::Done(AppAction::Continue)
    }

    fn toggle_all_in_current(&mut self) -> (r: Effect)
        requires
            old(self).wf(),
        ensures
            final(self).wf(),
            all_in_current_post(*old(self), *final(self), r),
    {
        let ghost es = entry_views(self.browser.entries@);
        let mut paths: Vec<String> = Vec::new();
        let mut i: usize = 0;
        assert(es.take(0) =~= seq![]);
        while i < self.browser.entries.len()
            invariant
                i <= self.browser.entries.len(),
                es == entry_views(self.browser.entries@),
                string_views(paths@) == real_paths(es.take(i as int)),
            decreases self.browser.entries.len() - i,
        {
            assert(es.take(i + 1).drop_last() =~= es.take(i as int));
            assert(es.take(i + 1).last() == self.browser.entries@[i as int]@);
            if !self.browser.entries[i].is_invalid {
                let ghost before = paths@;
                paths.push(self.browser.entries[i].path.clone());
                assert(string_views(paths@) =~= string_views(before).push(
                    self.browser.entries@[i as int].path@,
                ));
            }
            i = i + 1;
        }
        assert(es.take(self.browser.entries.len() as int) =~= es);
        if paths.len() == 0 {
            return Effect::Done(AppAction::Continue);
        }
        self.pending = Pending::Batch;
        Effect::Classify(paths)
    }

    /// Chooses all of `files`, or none where all are chosen already.
    fn toggle_batch(&mut self, files: Vec<Classified>)
        requires
            old(self).wf(),
        ensures
            final(self).wf(),
            reselected(*old(self), *final(self), batch_spec(old(self).selection@, classified_views(files@))),
    {
        let ghost cs = classified_views(files@);
        if files.len() == 0 {
            return;
        }
        let mut all = true;
        let mut i: usize = 0;
        while i < files.len()
            invariant
                i <= files.len(),
                cs == classified_views(files@),
                self.selection.wf(),
                all == forall|j: int| 0 <= j < i ==> selected_spec(self.selection@, #[trigger] cs[j]),
            decreases files.len() - i,
        {
            let hit = self.selection.is_selected(&files[i]);
            assert(cs[i as int] == files@[i as int]@);
            proof {
                if !hit {
                    assert(!selected_spec(self.selection@, cs[i as int]));
                }
            }
            all = all && hit;
            i = i + 1;
        }
        if all {
            self.selection.remove_paths(&files);
        } else {
            self.selection.add_paths(files);
        }
    }

    /// Completes the key that asked for classified paths, with `found`, the
    /// paths asked for, each with its classification (for a directory's
    /// files: every file below it).
    pub fn resume(&mut self, found: Vec<Classified>)
        requires
            old(self).wf(),
        ensures
            final(self).wf(),
            resume_post(*old(self), *final(self), classified_views(found@)),
    {
        let pending = self.pending;
        if pending != Pending::Nothing {
            self.pending = Pending::Nothing;
        }
        match pending {
            Pending::Nothing => {},
            Pending::Flip => {
                if found.len() > 0 {
                    self.selection.toggle(&found[0]);
                    assert(classified_views(found@)[0] == found@[0]@);
                }
            },
            Pending::Deselect => {
                self.selection.remove_paths(&found);
                self.clamp_selected_cursor();
            },
            Pending::Batch => {
                self.toggle_batch(found);
            },
            Pending::Tree => {
                let kept = keep_files(&found, self.browser.show_hidden);
                self.toggle_batch(kept);
            },
        }
    }

    fn handle_search_key(&mut self, key: Key) -> (r: Effect)
        requires
            old(self).wf(),
        ensures
            final(self).wf(),
            search_key_post(*old(self), *final(self), key, r),
    {
        match key {
            Key::Esc => {
                self.search_mode = false;
                self.search_query = String::new();
            },
            Key::Enter => {
                self.search_mode = false;
            },
            Key::Backspace => {
                let mut q = chars_of(self.search_query.as_str());
                if q.len() > 0 {
                    q.pop();
                }
                self.search_query = string_of(&q);
                self.jump_to_match();
            },
            Key::Char(c) => {
                let mut q = chars_of(self.search_query.as_str());
                q.push(c);
                self.search_query = string_of(&q);
                self.jump_to_match();
            },
            _ => {},
        }
        Effect::Done(AppAction::Continue)
    }

    /// Handles one key: in a search, it edits the query and moves the cursor
    /// to the first match; otherwise it moves, descends, ascends, chooses,
    /// searches, saves, confirms or quits, as the focused pane allows.
    pub fn handle_key(&mut self, key: Key) -> (r: Effect)
        requires
            old(self).wf(),
        ensures
            final(self).wf(),
            old(self).search_mode ==> search_key_post(*old(self), *final(self), key, r),
            !old(self).search_mode ==> key_post(*old(self), *final(self), key, r),
    {
        if self.search_mode {
            return self.handle_search_key(key);
        }
        let files = self.focused_pane == FocusedPane::Files;
        match key {
            Key::Char('q') | Key::Esc => Effect::Done(AppAction::Quit),
            Key::Enter => Effect::Done(AppAction::Confirm),
            Key::Tab => {
                self.focused_pane = self.focused_pane.toggle();
                self.clamp_selected_cursor();
                Effect::Done(AppAction::Continue)
            },
            Key::Char('k') | Key::Up => {
                self.move_up();
                Effect::Done(AppAction::Continue)
            },
            Key::Char('j') | Key::Down => {
                self.move_down();
                Effect::Done(AppAction::Continue)
            },
            Key::Char('h') | Key::Left => {
                if files {
                    if self.browser.go_parent() {
                        return Effect::Reload;
                    }
                }
                Effect::Done(AppAction::Continue)
            },
            Key::Char('l') | Key::Right => {
                if files {
                    if self.browser.enter_directory() {
                        return Effect::Reload;
                    }
                }
                Effect::Done(AppAction::Continue)
            },
            Key::Char(' ') => self.handle_space(),
            Key::Char('r') => {
                if files {
                    self.toggle_recursive()
                } else {
                    Effect::Done(AppAction::Continue)
                }
            },
            Key::Char('a') => {
                if files {
                    self.toggle_all_in_current()
                } else {
                    Effect::Done(AppAction::Continue)
                }
            },
            Key::Char('.') => {
                self.browser.toggle_hidden();
                Effect::Reload
            },
            Key::Char('s') => {
                if self.can_save() {
                    Effect::Done(AppAction::Save)
                } else {
                    Effect::Done(AppAction::Continue)
                }
            },
            Key::Char('/') => {
                if files {
                    self.search_mode = true;
                    self.search_query = String::new();
                }
                Effect::Done(AppAction::Continue)
            },
            _ => Effect::Done(AppAction::Continue),
        }
    }
}

/// `a` after the cursor of the focused pane moved up a row.
pub open spec fn pane_up(a: App) -> App {
    match a.focused_pane {
        FocusedPane::Files => if a.browser.cursor > 0 {
            let c = (a.browser.cursor - 1) as usize;
            App {
                browser: BrowserState {
                    cursor: c,
                    scroll_offset: if a.browser.scroll_offset > c {
                        c
                    } else {
                        a.browser.scroll_offset
                    },
                    ..a.browser
                },
                ..a
            }
        } else {
            a
        },
        FocusedPane::Selected => if a.selected_cursor > 0 {
            let c = (a.selected_cursor - 1) as usize;
            App {
                selected_cursor: c,
                selected_scroll_offset: if a.selected_scroll_offset > c {
                    c
                } else {
                    a.selected_scroll_offset
                },
                ..a
            }
        } else {
            a
        },
    }
}

/// `a` after the cursor of the focused pane moved down a row.
pub open spec fn pane_down(a: App) -> App {
    match a.focused_pane {
        FocusedPane::Files => if a.browser.cursor + 1 < a.browser.entries.len() {
            App { browser: BrowserState { cursor: (a.browser.cursor + 1) as usize, ..a.browser }, ..a }
        } else {
            a
        },
        FocusedPane::Selected => if a.selected_cursor + 1 < sel_count(a.selection@) {
            App { selected_cursor: (a.selected_cursor + 1) as usize, ..a }
        } else {
            a
        },
    }
}

/// `r` asks for exactly `paths` to be classified.
pub open spec fn classifies(r: Effect, paths: Seq<Seq<char>>) -> bool {
    match r {
        Effect::Classify(v) => string_views(v@) == paths,
        _ => false,
    }
}

/// The paths of the rows that are not missing paths, in order.
pub open spec fn real_paths(es: Seq<EntryView>) -> Seq<Seq<char>>
    decreases es.len(),
{
    if es.len() == 0 {
        seq![]
    } else if es.last().is_invalid {
        real_paths(es.drop_last())
    } else {
        real_paths(es.drop_last()).push(es.last().path)
    }
}

/// All of `cs` become chosen, or, where all are chosen already, none.
pub open spec fn batch_spec(s: SelectionView, cs: Seq<ClassifiedView>) -> SelectionView {
    if cs.len() == 0 {
        s
    } else if forall|i: int| 0 <= i < cs.len() ==> selected_spec(s, #[trigger] cs[i]) {
        remove_spec(s, cs)
    } else {
        add_spec(s, cs)
    }
}

/// A file counted by a recursive toggle: hidden files only where shown.
pub open spec fn keeps_file(c: ClassifiedView, show_hidden: bool) -> bool {
    show_hidden || !(name_of(c.path).len() > 0 && name_of(c.path)[0] == '.')
}

pub open spec fn tree_files(cs: Seq<ClassifiedView>, show_hidden: bool) -> Seq<ClassifiedView>
    decreases cs.len(),
{
    if cs.len() == 0 {
        seq![]
    } else if keeps_file(cs.last(), show_hidden) {
        tree_files(cs.drop_last(), show_hidden).push(cs.last())
    } else {
        tree_files(cs.drop_last(), show_hidden)
    }
}

/// `n` differs from `o` only in its selection, now `v`.
pub open spec fn reselected(o: App, n: App, v: SelectionView) -> bool {
    &&& n == App { selection: n.selection, ..o }
    &&& n.selection.wf()
    &&& n.selection@ == v
}

/// Space in the file pane: a missing path's row flips at once; another row
/// is classified first.
pub open spec fn space_files_post(o: App, n: App, r: Effect) -> bool {
    if o.browser.cursor < o.browser.entries.len() {
        let e = o.browser.entries@[o.browser.cursor as int];
        if e.is_invalid {
            reselected(o, n, toggle_invalid_spec(o.selection@, e.path@)) && r == Effect::Done(
                AppAction::Continue,
            )
        } else {
            n == App { pending: Pending::Flip, ..o } && classifies(r, seq![e.path@])
        }
    } else {
        n == o && r == Effect::Done(AppAction::Continue)
    }
}

/// Space in the selection pane: the row under the cursor is deselected; a
/// valid path is classified first.
pub open spec fn space_selected_post(o: App, n: App, r: Effect) -> bool {
    let l = selected_list(o.selection@, o.base_dir@);
    if o.selected_cursor < l.len() {
        let it = l[o.selected_cursor as int];
        if it.1 {
            n == App { pending: Pending::Deselect, ..o } && classifies(r, seq![it.0])
        } else {
            let v = toggle_invalid_spec(o.selection@, it.0);
            &&& n == App {
                selection: n.selection,
                selected_cursor: clamped(o.selected_cursor as int, sel_count(v)) as usize,
                ..o
            }
            &&& n.selection.wf()
            &&& n.selection@ == v
            &&& r == Effect::Done(AppAction::Continue)
        }
    } else {
        n == o && r == Effect::Done(AppAction::Continue)
    }
}

/// `r` in the file pane: the directory under the cursor is collected.
pub open spec fn recursive_post(o: App, n: App, r: Effect) -> bool {
    if o.browser.cursor < o.browser.entries.len() && o.browser.entries@[o.browser.cursor as int].is_dir
        && !o.browser.entries@[o.browser.cursor as int].is_invalid {
        &&& n == App { pending: Pending::Tree, ..o }
        &&& match r {
            Effect::CollectFiles(d) => d@ == o.browser.entries@[o.browser.cursor as int].path@,
            _ => false,
        }
    } else {
        n == o && r == Effect::Done(AppAction::Continue)
    }
}

/// `a` in the file pane: the rows that are not missing paths are classified.
pub open spec fn all_in_current_post(o: App, n: App, r: Effect) -> bool {
    let paths = real_paths(entry_views(o.browser.entries@));
    if paths.len() == 0 {
        n == o && r == Effect::Done(AppAction::Continue)
    } else {
        n == App { pending: Pending::Batch, ..o } && classifies(r, paths)
    }
}

/// What `resume` does with the classified paths `cs`.
pub open spec fn resume_post(o: App, n: App, cs: Seq<ClassifiedView>) -> bool {
    match o.pending {
        Pending::Nothing => n == o,
        Pending::Flip => reselected(
            App { pending: Pending::Nothing, ..o },
            n,
            if cs.len() > 0 {
                toggle_spec(o.selection@, cs[0])
            } else {
                o.selection@
            },
        ),
        Pending::Deselect => {
            let v = remove_spec(o.selection@, cs);
            &&& n == App {
                selection: n.selection,
                selected_cursor: clamped(o.selected_cursor as int, sel_count(v)) as usize,
                pending: Pending::Nothing,
                ..o
            }
            &&& n.selection.wf()
            &&& n.selection@ == v
        },
        Pending::Batch => reselected(
            App { pending: Pending::Nothing, ..o },
            n,
            batch_spec(o.selection@, cs),
        ),
        Pending::Tree => reselected(
            App { pending: Pending::Nothing, ..o },
            n,
            batch_spec(o.selection@, tree_files(cs, o.browser.show_hidden)),
        ),
    }
}

/// A key while searching.
pub open spec fn search_key_post(o: App, n: App, key: Key, r: Effect) -> bool {
    &&& r == Effect::Done(AppAction::Continue)
    &&& if key == Key::Esc {
        n == App { search_mode: false, search_query: n.search_query, ..o } && n.search_query@.len() == 0
    } else if key == Key::Enter {
        n == App { search_mode: false, ..o }
    } else if key == Key::Backspace {
        let q = if o.search_query@.len() > 0 {
            o.search_query@.drop_last()
        } else {
            o.search_query@
        };
        n == App { search_query: n.search_query, ..jumped(o, q) } && n.search_query@ == q
    } else if key is Char {
        let q = o.search_query@.push(key->Char_0);
        n == App { search_query: n.search_query, ..jumped(o, q) } && n.search_query@ == q
    } else {
        n == o
    }
}

/// A key outside a search.
pub open spec fn key_post(o: App, n: App, key: Key, r: Effect) -> bool {
    let files = o.focused_pane == FocusedPane::Files;
    if key == Key::Char('q') || key == Key::Esc {
        n == o && r == Effect::Done(AppAction::Quit)
    } else if key == Key::Enter {
        n == o && r == Effect::Done(AppAction::Confirm)
    } else if key == Key::Tab {
        &&& n == App {
            focused_pane: other_pane(o.focused_pane),
            selected_cursor: clamped(o.selected_cursor as int, sel_count(o.selection@)) as usize,
            ..o
        }
        &&& r == Effect::Done(AppAction::Continue)
    } else if key == Key::Char('k') || key == Key::Up {
        n == pane_up(o) && r == Effect::Done(AppAction::Continue)
    } else if key == Key::Char('j') || key == Key::Down {
        n == pane_down(o) && r == Effect::Done(AppAction::Continue)
    } else if (key == Key::Char('h') || key == Key::Left) && files {
        exists|up: bool|
            go_parent_post(o.browser, n.browser, up) && n == App { browser: n.browser, ..o } && r == (
            if up {
                Effect::Reload
            } else {
                Effect::Done(AppAction::Continue)
            })
    } else if (key == Key::Char('l') || key == Key::Right) && files {
        exists|down: bool|
            enter_post(o.browser, n.browser, down) && n == App { browser: n.browser, ..o } && r == (
            if down {
                Effect::Reload
            } else {
                Effect::Done(AppAction::Continue)
            })
    } else if key == Key::Char(' ') {
        if files {
            space_files_post(o, n, r)
        } else {
            space_selected_post(o, n, r)
        }
    } else if key == Key::Char('r') && files {
        recursive_post(o, n, r)
    } else if key == Key::Char('a') && files {
        all_in_current_post(o, n, r)
    } else if key == Key::Char('.') {
        n == App { browser: BrowserState { show_hidden: !o.browser.show_hidden, ..o.browser }, ..o }
            && r == Effect::Reload
    } else if key == Key::Char('s') {
        n == o && r == Effect::Done(
            if o.selections_file is Some {
                AppAction::Save
            } else {
                AppAction::Continue
            },
        )
    } else if key == Key::Char('/') && files {
        &&& n == App { search_mode: true, search_query: n.search_query, ..o }
        &&& n.search_query@.len() == 0
        &&& r == Effect::Done(AppAction::Continue)
    } else {
        n == o && r == Effect::Done(AppAction::Continue)
    }
}

/// The files of `found` that a recursive toggle counts.
fn keep_files(found: &Vec<Classified>, show_hidden: bool) -> (r: Vec<Classified>)
    ensures
        classified_views(r@) == tree_files(classified_views(found@), show_hidden),
{
    let ghost cs = classified_views(found@);
    let mut r: Vec<Classified> = Vec::new();
    let mut i: usize = 0;
    assert(cs.take(0) =~= seq![]);
    while i < found.len()
        invariant
            i <= found.len(),
            cs == classified_views(found@),
            classified_views(r@) == tree_files(cs.take(i as int), show_hidden),
        decreases found.len() - i,
    {
        let p = chars_of(found[i].path.as_str());
        let name = name_chars(&p);
        let keep = show_hidden || !(name.len() > 0 && name[0] == '.');
        assert(cs.take(i + 1).drop_last() =~= cs.take(i as int));
        assert(cs.take(i + 1).last() == found@[i as int]@);
        if keep {
            let ghost before = r@;
            r.push(found[i].duplicate());
            assert(classified_views(r@) =~= classified_views(before).push(found@[i as int]@));
        }
        i = i + 1;
    }
    assert(cs.take(found.len() as int) =~= cs);
    r
}

/// A bulk toggle over files that all resolve, not all of them chosen,
/// chooses every one of them; a second bulk toggle over the same files then
/// leaves none of them chosen.
pub proof fn lemma_batch_all_or_nothing(s: SelectionView, cs: Seq<ClassifiedView>)
    requires
        forall|i: int| 0 <= i < cs.len() ==> (#[trigger] cs[i]).canonical is Some,
        exists|i: int| 0 <= i < cs.len() && !selected_spec(s, #[trigger] cs[i]),
    ensures
        forall|i: int| 0 <= i < cs.len() ==> selected_spec(batch_spec(s, cs), #[trigger] cs[i]),
        forall|i: int|
            0 <= i < cs.len() ==> !selected_spec(batch_spec(batch_spec(s, cs), cs), #[trigger] cs[i]),
{
    let s1 = batch_spec(s, cs);
    assert(s1 == add_spec(s, cs));
    assert forall|i: int| 0 <= i < cs.len() implies selected_spec(s1, #[trigger] cs[i]) by {
        let k = cs[i].canonical->0;
        assert(cs[i].canonical == Some(k));
        assert(crate::selection::canonicals(cs).contains(k));
    }
    let s2 = batch_spec(s1, cs);
    assert(s2 == remove_spec(s1, cs));
    assert forall|i: int| 0 <= i < cs.len() implies !selected_spec(s2, #[trigger] cs[i]) by {
        let k = cs[i].canonical->0;
        assert(cs[i].canonical == Some(k));
        assert(crate::selection::canonicals(cs).contains(k));
    }
}

} // verus!
