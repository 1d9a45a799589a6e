//! The directory being browsed: its listing, the cursor over it, and the rows
//! shown for chosen paths that do not exist.
use vstd::prelude::*;

use crate::path::{
    chars_absolute, chars_path_starts_with, components, components_of, is_absolute, join,
    join_chars, join_parts, join_slash, name_chars, name_of, parent_chars, parent_of,
    path_starts_with, string_views, views,
};
use crate::selection::insert_string;
use crate::text::{
    chars_lt, chars_of, lemma_lt_asymmetric, lemma_lt_irreflexive, lemma_lt_total,
    lemma_lt_transitive, lower_of, seq_lt, string_of, to_lower,
};

verus! {

/// One row of the listing: a child of the current directory, or a chosen
/// path that does not exist, shown where its existing part ends.
#[derive(Clone, Debug)]
pub struct FileEntry {
    pub path: String,
    pub name: String,
    pub is_dir: bool,
    pub is_invalid: bool,
}

pub ghost struct EntryView {
    pub path: Seq<char>,
    pub name: Seq<char>,
    pub is_dir: bool,
    pub is_invalid: bool,
}

impl View for FileEntry {
    type V = EntryView;

    open spec fn view(&self) -> EntryView {
        EntryView {
            path: self.path@,
            name: self.name@,
            is_dir: self.is_dir,
            is_invalid: self.is_invalid,
        }
    }
}

pub open spec fn entry_views(es: Seq<FileEntry>) -> Seq<EntryView> {
    es.map_values(|e: FileEntry| e@)
}

/// The final component of `path`, or the whole path where it has none.
pub fn extract_name(path: &String) -> (r: String)
    ensures
        r@ == name_of(path@),
{
    let p = chars_of(path.as_str());
    let n = name_chars(&p);
    string_of(&n)
}

impl FileEntry {
    /// A row for an existing child; `is_dir` says whether it is a directory.
    pub fn from_path(path: String, is_dir: bool) -> (r: Self)
        ensures
            r@ == (EntryView { path: path@, name: name_of(path@), is_dir, is_invalid: false }),
    {
        let name = extract_name(&path);
        FileEntry { path, name, is_dir, is_invalid: false }
    }

    /// A row for a chosen path that does not exist, shown as `display_name`.
    pub fn invalid(path: String, display_name: String) -> (r: Self)
        ensures
            r@ == (EntryView { path: path@, name: display_name@, is_dir: false, is_invalid: true }),
    {
        FileEntry { path, name: display_name, is_dir: false, is_invalid: true }
    }

    /// The same row.
    pub(crate) fn duplicate(&self) -> (r: Self)
        ensures
            r@ == self@,
    {
        FileEntry {
            path: self.path.clone(),
            name: self.name.clone(),
            is_dir: self.is_dir,
            is_invalid: self.is_invalid,
        }
    }
}

/// The group of a row: directories, then files, then rows for missing paths.
pub open spec fn rank(e: EntryView) -> int {
    (if e.is_invalid { 2int } else { 0int }) + (if e.is_dir { 0int } else { 1int })
}

/// `a` comes strictly before `b`: by group, then by lower-cased name.
pub open spec fn sorts_before(a: EntryView, b: EntryView) -> bool {
    rank(a) < rank(b) || (rank(a) == rank(b) && seq_lt(lower_of(a.name), lower_of(b.name)))
}

pub open spec fn listing_sorted(es: Seq<EntryView>) -> bool {
    forall|i: int, j: int| 0 <= i < j < es.len() ==> !sorts_before(#[trigger] es[j], #[trigger] es[i])
}

pub open spec fn keyed_views(v: Seq<(FileEntry, String)>) -> Seq<(EntryView, Seq<char>)> {
    v.map_values(|p: (FileEntry, String)| (p.0@, p.1@))
}

pub open spec fn firsts(v: Seq<(FileEntry, String)>) -> Seq<EntryView> {
    v.map_values(|p: (FileEntry, String)| p.0@)
}

/// `a` comes strictly before `b`: by group, then by the key beside each.
pub open spec fn key_before(a: (EntryView, Seq<char>), b: (EntryView, Seq<char>)) -> bool {
    rank(a.0) < rank(b.0) || (rank(a.0) == rank(b.0) && seq_lt(a.1, b.1))
}

pub open spec fn keyed_sorted(s: Seq<(EntryView, Seq<char>)>) -> bool {
    forall|i: int, j: int| 0 <= i < j < s.len() ==> !key_before(#[trigger] s[j], #[trigger] s[i])
}

proof fn lemma_key_before_asymmetric(a: (EntryView, Seq<char>), b: (EntryView, Seq<char>))
    ensures
        !(key_before(a, b) && key_before(b, a)),
{
    lemma_lt_asymmetric(a.1, b.1);
}

/// Not before, then not before, gives not before.
proof fn lemma_not_key_before_transitive(
    a: (EntryView, Seq<char>),
    b: (EntryView, Seq<char>),
    c: (EntryView, Seq<char>),
)
    requires
        !key_before(a, b),
        !key_before(b, c),
    ensures
        !key_before(a, c),
{
    let (la, lb, lc) = (a.1, b.1, c.1);
    lemma_lt_total(la, lb);
    lemma_lt_total(lb, lc);
    if rank(a.0) == rank(c.0) && seq_lt(la, lc) {
        if seq_lt(lb, la) && seq_lt(lc, lb) {
            lemma_lt_transitive(lc, lb, la);
            lemma_lt_asymmetric(la, lc);
        } else if seq_lt(lb, la) {
            lemma_lt_asymmetric(la, lc);
        } else if seq_lt(lc, lb) {
            lemma_lt_asymmetric(la, lc);
        } else {
            lemma_lt_irreflexive(la);
        }
    }
}

fn rank_of(e: &FileEntry) -> (r: u8)
    ensures
        r as int == rank(e@),
{
    (if e.is_invalid { 2u8 } else { 0u8 }) + (if e.is_dir { 0u8 } else { 1u8 })
}

/// The rows, each with its sort key (its lower-cased name in a listing),
/// ordered by group (directories, files, missing paths), then by key.
pub fn sort_keyed(rows: Vec<(FileEntry, String)>) -> (r: Vec<(FileEntry, String)>)
    ensures
        keyed_sorted(keyed_views(r@)),
        keyed_views(r@).to_multiset() == keyed_views(rows@).to_multiset(),
        firsts(r@).to_multiset() == firsts(rows@).to_multiset(),
        forall|i: int| 0 <= i < r@.len() ==> keyed_views(rows@).contains(#[trigger] keyed_views(r@)[i]),
{
    let ghost all = keyed_views(rows@);
    let ghost all_firsts = firsts(rows@);
    let mut rest = rows;
    let mut out: Vec<(FileEntry, String)> = Vec::new();
    let mut keys: Vec<Vec<char>> = Vec::new();
    proof {
        broadcast use vstd::seq_lib::group_to_multiset_ensures;
        assert(keyed_views(out@) =~= seq![]);
        assert(firsts(out@) =~= seq![]);
        assert(keyed_views(out@).to_multiset() =~= vstd::multiset::Multiset::empty());
        assert(firsts(out@).to_multiset() =~= vstd::multiset::Multiset::empty());
        assert(keyed_views(rest@) =~= all.take(rest.len() as int));
    }
    while rest.len() > 0
        invariant
            keyed_sorted(keyed_views(out@)),
            keys.len() == out.len(),
            forall|j: int| 0 <= j < out.len() ==> (#[trigger] keys@[j])@ == out@[j].1@,
            keyed_views(out@).to_multiset().add(keyed_views(rest@).to_multiset()) == all.to_multiset(),
            firsts(out@).to_multiset().add(firsts(rest@).to_multiset()) == all_firsts.to_multiset(),
            rest.len() <= all.len(),
            keyed_views(rest@) == all.take(rest.len() as int),
            forall|j: int| 0 <= j < out.len() ==> all.contains(#[trigger] keyed_views(out@)[j]),
        decreases rest.len(),
    {
        broadcast use vstd::seq_lib::group_to_multiset_ensures;

        let ghost before = keyed_views(rest@);
        let ghost before_f = firsts(rest@);
        let x = rest.pop().unwrap();
        let ghost xv = (x.0@, x.1@);
        assert(before =~= keyed_views(rest@).push(xv));
        assert(before_f =~= firsts(rest@).push(x.0@));
        assert(before == all.take(rest.len() + 1));
        assert(before[rest.len() as int] == xv);
        assert(all[rest.len() as int] == xv);
        assert(keyed_views(rest@) =~= all.take(rest.len() as int));
        let xk = chars_of(x.1.as_str());
        let xr = rank_of(&x.0);
        let ghost o = keyed_views(out@);
        let ghost of = firsts(out@);
        let mut i: usize = 0;
        while i < out.len() && (rank_of(&out[i].0) < xr || (rank_of(&out[i].0) == xr && chars_lt(
            &keys[i],
            &xk,
        )))
            invariant
                i <= out.len(),
                o == keyed_views(out@),
                keys.len() == out.len(),
                forall|j: int| 0 <= j < out.len() ==> (#[trigger] keys@[j])@ == out@[j].1@,
                xk@ == xv.1,
                xr as int == rank(xv.0),
                forall|j: int| 0 <= j < i ==> key_before(#[trigger] o[j], xv),
            decreases out.len() - i,
        {
            assert(o[i as int] == (out@[i as int].0@, out@[i as int].1@));
            i = i + 1;
        }
        proof {
            if i < out.len() {
                assert(o[i as int] == (out@[i as int].0@, out@[i as int].1@));
                assert(!key_before(o[i as int], xv));
            }
        }
        let ghost oo = out@;
        let ghost ko = keys@;
        out.insert(i, x);
        keys.insert(i, xk);
        let ghost t = keyed_views(out@);
        let ghost tf = firsts(out@);
        assert(t =~= o.insert(i as int, xv));
        assert(tf =~= of.insert(i as int, xv.0));
        assert forall|a: int, b: int| 0 <= a < b < t.len() implies !key_before(
            #[trigger] t[b],
            #[trigger] t[a],
        ) by {
            if b < i {
                assert(t[a] == o[a] && t[b] == o[b]);
            } else if b == i {
                assert(t[a] == o[a]);
                lemma_key_before_asymmetric(o[a], xv);
            } else if a == i {
                assert(t[b] == o[b - 1]);
                if b - 1 > i {
                    assert(!key_before(o[b - 1], o[i as int]));
                    lemma_not_key_before_transitive(o[b - 1], o[i as int], xv);
                }
            } else if a < i {
                assert(t[a] == o[a] && t[b] == o[b - 1]);
            } else {
                assert(t[a] == o[a - 1] && t[b] == o[b - 1]);
            }
        }
        assert forall|j: int| 0 <= j < out.len() implies (#[trigger] keys@[j])@ == out@[j].1@ by {
            if j < i {
                assert(out@[j] == oo[j] && keys@[j] == ko[j]);
            } else if j > i {
                assert(out@[j] == oo[j - 1] && keys@[j] == ko[j - 1]);
            }
        }
        assert forall|j: int| 0 <= j < out.len() implies all.contains(#[trigger] keyed_views(out@)[j]) by {
            if j < i {
                assert(t[j] == o[j]);
            } else if j > i {
                assert(t[j] == o[j - 1]);
            } else {
                assert(all[rest.len() as int] == t[j]);
            }
        }
        proof {
            assert(t.remove(i as int) =~= o);
            assert(t.to_multiset().remove(xv) == o.to_multiset());
            assert(t.to_multiset().count(xv) > 0) by {
                assert(t.contains(xv)) by {
                    assert(t[i as int] == xv);
                }
            }
            assert(t.to_multiset() =~= o.to_multiset().insert(xv));
            assert(before.to_multiset() =~= keyed_views(rest@).to_multiset().insert(xv));
            assert(t.to_multiset().add(keyed_views(rest@).to_multiset()) =~= o.to_multiset().add(
                before.to_multiset(),
            ));
            assert(tf.remove(i as int) =~= of);
            assert(tf.to_multiset().remove(xv.0) == of.to_multiset());
            assert(tf.to_multiset().count(xv.0) > 0) by {
                assert(tf.contains(xv.0)) by {
                    assert(tf[i as int] == xv.0);
                }
            }
            assert(tf.to_multiset() =~= of.to_multiset().insert(xv.0));
            assert(before_f.to_multiset() =~= firsts(rest@).to_multiset().insert(xv.0));
            assert(tf.to_multiset().add(firsts(rest@).to_multiset()) =~= of.to_multiset().add(
                before_f.to_multiset(),
            ));
        }
    }
    proof {
        broadcast use vstd::seq_lib::group_to_multiset_ensures;
        assert(keyed_views(rest@) =~= seq![]);
        assert(firsts(rest@) =~= seq![]);
        assert(keyed_views(out@).to_multiset().add(keyed_views(rest@).to_multiset()) =~= keyed_views(
            out@,
        ).to_multiset());
        assert(firsts(out@).to_multiset().add(firsts(rest@).to_multiset()) =~= firsts(
            out@,
        ).to_multiset());
    }
    out
}

/// The rows ordered by group, then by lower-cased name.
fn sort_listing(rows: Vec<FileEntry>) -> (r: Vec<FileEntry>)
    ensures
        listing_sorted(entry_views(r@)),
        entry_views(r@).to_multiset() == entry_views(rows@).to_multiset(),
{
    let ghost rv = entry_views(rows@);
    let mut keyed: Vec<(FileEntry, String)> = Vec::new();
    let mut i: usize = 0;
    while i < rows.len()
        invariant
            i <= rows.len(),
            rv == entry_views(rows@),
            firsts(keyed@) == rv.take(i as int),
            forall|j: int| 0 <= j < keyed.len() ==> (#[trigger] keyed@[j]).1@ == lower_of(keyed@[j].0.name@),
        decreases rows.len() - i,
    {
        let key = to_lower(rows[i].name.as_str());
        let ghost before = keyed@;
        keyed.push((rows[i].duplicate(), key));
        assert(firsts(keyed@) =~= firsts(before).push(rows@[i as int]@));
        assert(rv.take(i + 1) =~= rv.take(i as int).push(rv[i as int]));
        i = i + 1;
    }
    assert(rv.take(rows.len() as int) =~= rv);
    let ghost kin = keyed_views(keyed@);
    proof {
        assert forall|j: int| 0 <= j < kin.len() implies (#[trigger] kin[j]).1 == lower_of(kin[j].0.name) by {
            assert(kin[j] == (keyed@[j].0@, keyed@[j].1@));
        }
    }
    let sorted = sort_keyed(keyed);
    let ghost ks = keyed_views(sorted@);
    let mut r: Vec<FileEntry> = Vec::new();
    let mut k: usize = 0;
    while k < sorted.len()
        invariant
            k <= sorted.len(),
            ks == keyed_views(sorted@),
            entry_views(r@) == firsts(sorted@).take(k as int),
        decreases sorted.len() - k,
    {
        let ghost before = r@;
        r.push(sorted[k].0.duplicate());
        assert(entry_views(r@) =~= entry_views(before).push(sorted@[k as int].0@));
        assert(firsts(sorted@).take(k + 1) =~= firsts(sorted@).take(k as int).push(sorted@[k as int].0@));
        k = k + 1;
    }
    assert(firsts(sorted@).take(sorted.len() as int) =~= firsts(sorted@));
    assert forall|a: int, b: int| 0 <= a < b < entry_views(r@).len() implies !sorts_before(
        #[trigger] entry_views(r@)[b],
        #[trigger] entry_views(r@)[a],
    ) by {
        assert(kin.contains(ks[a]));
        assert(kin.contains(ks[b]));
        let ia = choose|ia: int| 0 <= ia < kin.len() && kin[ia] == ks[a];
        let ib = choose|ib: int| 0 <= ib < kin.len() && kin[ib] == ks[b];
        assert(ks[a].1 == lower_of(ks[a].0.name));
        assert(ks[b].1 == lower_of(ks[b].0.name));
        assert(!key_before(ks[b], ks[a]));
        assert(ks[a].0 == entry_views(r@)[a]);
        assert(ks[b].0 == entry_views(r@)[b]);
    }
    r
}

pub open spec fn opt_views(ps: Seq<Option<String>>) -> Seq<Option<Seq<char>>> {
    ps.map_values(
        |o: Option<String>|
            match o {
                Some(x) => Some(x@),
                None => None,
            },
    )
}

pub open spec fn probe_views(ps: Seq<Vec<Option<String>>>) -> Seq<Seq<Option<Seq<char>>>> {
    ps.map_values(|v: Vec<Option<String>>| opt_views(v@))
}

/// The components of `path` below `base`: all of them for a relative path,
/// those after `base`'s own for an absolute path that lies below `base`.
pub open spec fn rel_components(base: Seq<char>, path: Seq<char>) -> Option<Seq<Seq<char>>> {
    if !is_absolute(path) {
        Some(components(path))
    } else if path_starts_with(path, base) {
        Some(components(path).skip(components(base).len() as int))
    } else {
        None
    }
}

/// `base` joined with the first `k + 1` of `rel`.
pub open spec fn probe_path(base: Seq<char>, rel: Seq<Seq<char>>, k: int) -> Seq<char> {
    join(base, join_slash(rel.take(k + 1)))
}

/// The probe at `i`; a missing one counts as a path that does not resolve.
pub open spec fn probe_at(ps: Seq<Option<Seq<char>>>, i: int) -> Option<Seq<char>> {
    if 0 <= i < ps.len() {
        ps[i]
    } else {
        None
    }
}

/// The least index below `n` whose probe did not resolve, or `n`.
pub open spec fn first_missing(ps: Seq<Option<Seq<char>>>, n: nat) -> nat
    decreases n,
{
    if n == 0 {
        0
    } else {
        let f = first_missing(ps, (n - 1) as nat);
        if f < n - 1 {
            f
        } else if probe_at(ps, n - 1) is None {
            (n - 1) as nat
        } else {
            n
        }
    }
}

/// Where a missing path is shown, given `probes[k]`, the canonical form of
/// `probe_path(base, rel, k)` or none where it does not exist: in the last
/// existing directory on the way down from `base`, labelled with the rest
/// of the path. None where the path is not below `base`, or exists in full.
pub open spec fn display_location(base: Seq<char>, path: Seq<char>, probes: Seq<Option<Seq<char>>>) -> Option<
    (Seq<char>, Seq<char>),
> {
    match rel_components(base, path) {
        None => None,
        Some(rel) => {
            let i = first_missing(probes, rel.len());
            if i >= rel.len() {
                None
            } else {
                Some(
                    (
                        if i == 0 {
                            base
                        } else {
                            probe_at(probes, i - 1)->0
                        },
                        join_slash(rel.skip(i as int)),
                    ),
                )
            }
        },
    }
}

proof fn lemma_first_missing(ps: Seq<Option<Seq<char>>>, n: nat)
    ensures
        first_missing(ps, n) <= n,
        forall|j: int| 0 <= j < first_missing(ps, n) ==> probe_at(ps, j) is Some,
        first_missing(ps, n) < n ==> probe_at(ps, first_missing(ps, n) as int) is None,
    decreases n,
{
    if n > 0 {
        lemma_first_missing(ps, (n - 1) as nat);
    }
}

fn rel_components_of(base: &Vec<char>, path: &Vec<char>) -> (r: Option<Vec<Vec<char>>>)
    ensures
        match rel_components(base@, path@) {
            Some(rel) => r is Some && views(r->0@) == rel,
            None => r is None,
        },
{
    if !chars_absolute(path) {
        return Some(components_of(path));
    }
    if !chars_path_starts_with(path, base) {
        return None;
    }
    let c = components_of(path);
    let d = components_of(base);
    let mut rest: Vec<Vec<char>> = Vec::new();
    let mut i: usize = d.len();
    assert(views(c@).skip(d.len() as int).take(0) =~= views(rest@));
    while i < c.len()
        invariant
            d.len() <= i <= c.len(),
            views(rest@) == views(c@).skip(d.len() as int).take(i - d.len()),
        decreases c.len() - i,
    {
        let ghost before = rest@;
        rest.push(c[i].clone());
        assert(views(rest@) =~= views(before).push(c@[i as int]@));
        assert(views(c@).skip(d.len() as int).take(i + 1 - d.len()) =~= views(c@).skip(
            d.len() as int,
        ).take(i - d.len()).push(views(c@)[i as int]));
        i = i + 1;
    }
    assert(views(c@).skip(d.len() as int).take(c.len() - d.len()) =~= views(c@).skip(
        d.len() as int,
    ));
    Some(rest)
}

/// `old` followed by each of `new` that is not already there, in order.
pub open spec fn merged(old: Seq<Seq<char>>, new: Seq<Seq<char>>) -> Seq<Seq<char>>
    decreases new.len(),
{
    if new.len() == 0 {
        old
    } else {
        let m = merged(old, new.drop_last());
        if m.contains(new.last()) {
            m
        } else {
            m.push(new.last())
        }
    }
}

/// The directory being browsed, its listing and the cursor over it.
///
/// After `enter_directory`, `go_parent` or `toggle_hidden` report a change,
/// the caller reads the new listing and hands it to `refresh`.
#[derive(Debug)]
pub struct BrowserState {
    pub current_dir: String,
    pub entries: Vec<FileEntry>,
    pub cursor: usize,
    pub scroll_offset: usize,
    pub show_hidden: bool,
    pub base_dir: String,
    pub invalid_paths: Vec<String>,
    pub return_to: Option<String>,
}

/// Rows whose name starts with `.` are hidden unless hidden rows are shown.
pub open spec fn keeps_row(e: EntryView, show_hidden: bool) -> bool {
    show_hidden || !(e.name.len() > 0 && e.name[0] == '.')
}

/// The rows of `listing` that are shown, in order.
pub open spec fn shown_rows(listing: Seq<EntryView>, show_hidden: bool) -> Seq<EntryView>
    decreases listing.len(),
{
    if listing.len() == 0 {
        seq![]
    } else {
        let prev = shown_rows(listing.drop_last(), show_hidden);
        if keeps_row(listing.last(), show_hidden) {
            prev.push(listing.last())
        } else {
            prev
        }
    }
}

pub open spec fn probes_for(probes: Seq<Seq<Option<Seq<char>>>>, i: int) -> Seq<Option<Seq<char>>> {
    if 0 <= i < probes.len() {
        probes[i]
    } else {
        seq![]
    }
}

/// `rows` with a row for each of the first `n` missing paths that is shown in
/// `dir`, unless a row of that name is there already.
pub open spec fn with_missing(
    rows: Seq<EntryView>,
    base: Seq<char>,
    dir: Seq<char>,
    paths: Seq<Seq<char>>,
    probes: Seq<Seq<Option<Seq<char>>>>,
    n: nat,
) -> Seq<EntryView>
    decreases n,
{
    if n == 0 {
        rows
    } else {
        let prev = with_missing(rows, base, dir, paths, probes, (n - 1) as nat);
        let i = n - 1;
        match display_location(base, paths[i], probes_for(probes, i)) {
            Some((d, label)) => if d == dir && !(exists|j: int|
                0 <= j < prev.len() && (#[trigger] prev[j]).name == label) {
                prev.push(EntryView { path: paths[i], name: label, is_dir: false, is_invalid: true })
            } else {
                prev
            },
            None => prev,
        }
    }
}

/// The least index below `n` of a row with path `p`, or `n`.
pub open spec fn position_of(es: Seq<EntryView>, p: Seq<char>, n: nat) -> nat
    decreases n,
{
    if n == 0 {
        0
    } else {
        let f = position_of(es, p, (n - 1) as nat);
        if f < n - 1 {
            f
        } else if es[n - 1].path == p {
            (n - 1) as nat
        } else {
            n
        }
    }
}

proof fn lemma_position_of(es: Seq<EntryView>, p: Seq<char>, n: nat)
    requires
        n <= es.len(),
    ensures
        position_of(es, p, n) <= n,
        forall|j: int| 0 <= j < position_of(es, p, n) ==> (#[trigger] es[j]).path != p,
        position_of(es, p, n) < n ==> es[position_of(es, p, n) as int].path == p,
    decreases n,
{
    if n > 0 {
        lemma_position_of(es, p, (n - 1) as nat);
    }
}

/// The rows a refresh gathers before sorting them.
pub open spec fn gathered(
    s: BrowserState,
    listing: Seq<EntryView>,
    probes: Seq<Seq<Option<Seq<char>>>>,
) -> Seq<EntryView> {
    with_missing(
        shown_rows(listing, s.show_hidden),
        s.base_view(),
        s.current_dir@,
        s.tracked_invalid(),
        probes,
        s.tracked_invalid().len(),
    )
}

/// `refresh` took `old` to `new`, reading `listing` and `probes`.
pub open spec fn refresh_post(
    old: BrowserState,
    new: BrowserState,
    listing: Seq<EntryView>,
    probes: Seq<Seq<Option<Seq<char>>>>,
) -> bool {
    let es = entry_views(new.entries@);
    &&& new.wf()
    &&& new.current_dir == old.current_dir
    &&& new.show_hidden == old.show_hidden
    &&& new.base_view() == old.base_view()
    &&& new.tracked_invalid() == old.tracked_invalid()
    &&& new.pending_return() is None
    &&& listing_sorted(es)
    &&& es.to_multiset() == gathered(old, listing, probes).to_multiset()
    &&& match old.pending_return() {
        Some(d) => {
            let k = position_of(es, d, es.len());
            &&& new.cursor == (if k < es.len() { k as int } else { 0 })
            &&& new.scroll_offset == new.cursor
        },
        None => {
            &&& new.cursor == (if old.cursor < es.len() { old.cursor as int } else if es.len()
                == 0 { 0 } else { es.len() - 1 })
            &&& new.scroll_offset == old.scroll_offset
        },
    }
}

/// `go_parent` took `old` to `new` and returned `r`.
pub open spec fn go_parent_post(old: BrowserState, new: BrowserState, r: bool) -> bool {
    &&& r == parent_of(old.current_dir@) is Some
    &&& new.wf()
    &&& new.entries == old.entries
    &&& new.cursor == old.cursor
    &&& new.scroll_offset == old.scroll_offset
    &&& new.show_hidden == old.show_hidden
    &&& new.base_view() == old.base_view()
    &&& new.tracked_invalid() == old.tracked_invalid()
    &&& if r {
        &&& new.current_dir@ == parent_of(old.current_dir@)->0
        &&& new.pending_return() == Some(old.current_dir@)
    } else {
        &&& new.current_dir == old.current_dir
        &&& new.pending_return() == old.pending_return()
    }
}

/// `enter_directory` took `old` to `new` and returned `r`.
pub open spec fn enter_post(old: BrowserState, new: BrowserState, r: bool) -> bool {
    &&& r == (old.cursor < old.entries.len() && old.entries@[old.cursor as int].is_dir)
    &&& new.wf()
    &&& new.entries == old.entries
    &&& new.show_hidden == old.show_hidden
    &&& new.base_view() == old.base_view()
    &&& new.tracked_invalid() == old.tracked_invalid()
    &&& if r {
        &&& new.current_dir == old.entries@[old.cursor as int].path
        &&& new.cursor == 0
        &&& new.scroll_offset == 0
        &&& new.pending_return() is None
    } else {
        &&& new.current_dir == old.current_dir
        &&& new.cursor == old.cursor
        &&& new.scroll_offset == old.scroll_offset
        &&& new.pending_return() == old.pending_return()
    }
}

impl BrowserState {
    /// The cursor is on a row, or at 0 over an empty listing; each missing
    /// path is tracked once.
    pub open spec fn wf(&self) -> bool {
        &&& (self.cursor < self.entries.len() || (self.cursor == 0 && self.entries.len() == 0))
        &&& string_views(self.invalid_paths@).no_duplicates()
    }

    /// The directory that relative chosen paths are taken from.
    pub open spec fn base_view(&self) -> Seq<char> {
        self.base_dir@
    }

    /// The missing chosen paths that may be shown as rows, in order.
    pub open spec fn tracked_invalid(&self) -> Seq<Seq<char>> {
        string_views(self.invalid_paths@)
    }

    /// The directory just left by `go_parent`, whose row the next refresh puts the cursor on.
    pub open spec fn pending_return(&self) -> Option<Seq<char>> {
        match self.return_to {
            Some(d) => Some(d@),
            None => None,
        }
    }

    /// A browser at `start_dir`, a canonical directory, which is also the
    /// base for relative paths. Its listing is empty until refreshed.
    pub fn new(start_dir: String, show_hidden: bool) -> (r: Self)
        ensures
            r.wf(),
            r.current_dir == start_dir,
            r.base_dir == start_dir,
            r.entries@.len() == 0,
            r.cursor == 0,
            r.scroll_offset == 0,
            r.show_hidden == show_hidden,
            r.tracked_invalid().len() == 0,
            r.pending_return() is None,
    {
        let r = BrowserState {
            base_dir: start_dir.clone(),
            current_dir: start_dir,
            entries: Vec::new(),
            cursor: 0,
            scroll_offset: 0,
            show_hidden,
            invalid_paths: Vec::new(),
            return_to: None,
        };
        assert(string_views(r.invalid_paths@) =~= seq![]);
        r
    }

    /// Tracks each of `paths` that is not tracked already.
    pub fn add_invalid_paths(&mut self, paths: Vec<String>)
        requires
            old(self).wf(),
        ensures
            final(self).wf(),
            final(self).tracked_invalid() == merged(
                old(self).tracked_invalid(),
                string_views(paths@),
            ),
            final(self).tracked_invalid().to_set() == old(self).tracked_invalid().to_set()
                + string_views(paths@).to_set(),
            final(self).current_dir == old(self).current_dir,
            final(self).entries == old(self).entries,
            final(self).cursor == old(self).cursor,
            final(self).scroll_offset == old(self).scroll_offset,
            final(self).show_hidden == old(self).show_hidden,
            final(self).base_dir == old(self).base_dir,
            final(self).return_to == old(self).return_to,
    {
        let ghost start = string_views(self.invalid_paths@).to_set();
        let ghost added = string_views(paths@);
        let mut i: usize = 0;
        assert(start + added.take(0).to_set() =~= start);
        assert(added.take(0) =~= seq![]);
        while i < paths.len()
            invariant
                i <= paths.len(),
                added == string_views(paths@),
                self.current_dir == old(self).current_dir,
                self.entries == old(self).entries,
                self.cursor == old(self).cursor,
                self.scroll_offset == old(self).scroll_offset,
                self.show_hidden == old(self).show_hidden,
                self.base_dir == old(self).base_dir,
                self.return_to == old(self).return_to,
                old(self).wf(),
                string_views(self.invalid_paths@).no_duplicates(),
                string_views(self.invalid_paths@).to_set() == start + added.take(i as int).to_set(),
                string_views(self.invalid_paths@) == merged(
                    string_views(old(self).invalid_paths@),
                    added.take(i as int),
                ),
            decreases paths.len() - i,
        {
            insert_string(&mut self.invalid_paths, paths[i].clone());
            assert(added.take(i + 1) =~= added.take(i as int) + seq![added[i as int]]);
            assert(added.take(i + 1).drop_last() =~= added.take(i as int));
            proof {
                Seq::lemma_to_set_insert_commutes(added.take(i as int), added[i as int]);
            }
            assert(string_views(self.invalid_paths@).to_set() =~= start + added.take(i + 1).to_set());
            i = i + 1;
        }
        assert(added.take(paths.len() as int) =~= added);
    }

    /// The probe paths for a missing `path`: `base_dir` joined with its first
    /// one, two, ... components below `base_dir`. Empty where it is not below.
    pub fn display_probes(&self, path: &String) -> (r: Vec<String>)
        ensures
            match rel_components(self.base_view(), path@) {
                Some(rel) => string_views(r@) == Seq::new(
                    rel.len(),
                    |k: int| probe_path(self.base_view(), rel, k),
                ),
                None => r@.len() == 0,
            },
    {
        let base = chars_of(self.base_dir.as_str());
        let p = chars_of(path.as_str());
        let mut r: Vec<String> = Vec::new();
        match rel_components_of(&base, &p) {
            None => r,
            Some(rel) => {
                let ghost want = Seq::new(
                    views(rel@).len(),
                    |k: int| probe_path(self.base_view(), views(rel@), k),
                );
                let mut k: usize = 0;
                while k < rel.len()
                    invariant
                        k <= rel.len(),
                        base@ == self.base_view(),
                        want == Seq::new(
                            views(rel@).len(),
                            |k: int| probe_path(self.base_view(), views(rel@), k),
                        ),
                        string_views(r@) == want.take(k as int),
                    decreases rel.len() - k,
                {
                    let part = join_parts(&rel, 0, k + 1);
                    assert(views(rel@).subrange(0, k + 1) =~= views(rel@).take(k + 1));
                    let full = join_chars(&base, &part);
                    let ghost before = r@;
                    r.push(string_of(&full));
                    assert(string_views(r@) =~= want.take(k + 1)) by {
                        assert(string_views(r@) =~= string_views(before).push(full@));
                    }
                    k = k + 1;
                }
                assert(want.take(rel.len() as int) =~= want);
                r
            },
        }
    }

    /// Where the missing `path` is shown, and with which label, given the
    /// classification of each of its probe paths.
    pub fn find_display_location(&self, path: &String, probes: &Vec<Option<String>>) -> (r: Option<
        (String, String),
    >)
        ensures
            match display_location(self.base_view(), path@, opt_views(probes@)) {
                Some((d, label)) => match r {
                    Some((rd, rl)) => rd@ == d && rl@ == label,
                    None => false,
                },
                None => r is None,
            },
    {
        let base = chars_of(self.base_dir.as_str());
        let p = chars_of(path.as_str());
        let ghost ps = opt_views(probes@);
        let rel = match rel_components_of(&base, &p) {
            None => {
                return None;
            },
            Some(rel) => rel,
        };
        proof {
            lemma_first_missing(ps, rel@.len());
        }
        let mut i: usize = 0;
        while i < rel.len() && i < probes.len() && probes[i].is_some()
            invariant
                i <= rel.len(),
                ps == opt_views(probes@),
                forall|j: int| 0 <= j < i ==> probe_at(ps, j) is Some,
            decreases rel.len() - i,
        {
            i = i + 1;
        }
        proof {
            lemma_first_missing(ps, rel@.len());
            let f = first_missing(ps, rel@.len());
            if f < i {
                assert(probe_at(ps, f as int) is Some);
            }
            if i < rel.len() {
                assert(probe_at(ps, i as int) is None);
            }
        }
        if i >= rel.len() {
            return None;
        }
        let label = join_parts(&rel, i, rel.len());
        assert(views(rel@).subrange(i as int, rel.len() as int) =~= views(rel@).skip(i as int));
        let dir = if i == 0 {
            self.base_dir.clone()
        } else {
            match &probes[i - 1] {
                Some(d) => d.clone(),
                None => self.base_dir.clone(),
            }
        };
        Some((dir, string_of(&label)))
    }

    /// Re-reads the listing: the rows of `listing` that are shown, a row for
    /// each tracked missing path that `probes` place in the current
    /// directory (`probes[i]` classifies the probe paths of the i-th tracked
    /// path), all sorted; then the cursor goes onto the directory just left
    /// by `go_parent`, or is kept within the listing.
    pub fn refresh(&mut self, listing: Vec<FileEntry>, probes: Vec<Vec<Option<String>>>)
        requires
            old(self).wf(),
        ensures
            refresh_post(*old(self), *final(self), entry_views(listing@), probe_views(probes@)),
    {
        let mut rows = self.shown_children(&listing);
        self.add_invalid_entries(&mut rows, &probes);
        self.entries = sort_listing(rows);
        let ghost es = entry_views(self.entries@);
        match self.return_to.take() {
            Some(d) => {
                let mut j: usize = 0;
                while j < self.entries.len() && self.entries[j].path != d
                    invariant
                        j <= self.entries.len(),
                        es == entry_views(self.entries@),
                        forall|m: int| 0 <= m < j ==> (#[trigger] es[m]).path != d@,
                    decreases self.entries.len() - j,
                {
                    assert(es[j as int] == self.entries@[j as int]@);
                    j = j + 1;
                }
                proof {
                    lemma_position_of(es, d@, es.len());
                    let f = position_of(es, d@, es.len());
                    if j < es.len() {
                        assert(es[j as int] == self.entries@[j as int]@);
                        if f < j {
                            assert(es[f as int].path == d@);
                        }
                    } else if f < es.len() {
                        assert(es[f as int].path == d@);
                    }
                }
                self.cursor = if j < self.entries.len() {
                    j
                } else {
                    0
                };
                self.scroll_offset = self.cursor;
            },
            None => {
                self.clamp_cursor();
            },
        }
    }

    /// The rows of `listing` that are shown: all, or without hidden ones.
    fn shown_children(&self, listing: &Vec<FileEntry>) -> (r: Vec<FileEntry>)
        ensures
            entry_views(r@) == shown_rows(entry_views(listing@), self.show_hidden),
    {
        let ghost lv = entry_views(listing@);
        let mut rows: Vec<FileEntry> = Vec::new();
        let mut i: usize = 0;
        assert(entry_views(rows@) =~= shown_rows(lv.take(0), self.show_hidden));
        while i < listing.len()
            invariant
                i <= listing.len(),
                lv == entry_views(listing@),
                entry_views(rows@) == shown_rows(lv.take(i as int), self.show_hidden),
            decreases listing.len() - i,
        {
            let e = &listing[i];
            let name = chars_of(e.name.as_str());
            let keep = self.show_hidden || !(name.len() > 0 && name[0] == '.');
            assert(lv.take(i + 1).drop_last() =~= lv.take(i as int));
            assert(lv.take(i + 1).last() == e@);
            let ghost before = rows@;
            if keep {
                rows.push(e.duplicate());
                assert(entry_views(rows@) =~= entry_views(before).push(e@));
            }
            i = i + 1;
        }
        assert(lv.take(listing.len() as int) =~= lv);
        rows
    }

    /// Where the tracked missing `path` is shown, if that is the current
    /// directory: the path with its label.
    fn resolve_invalid_for_current_dir(&self, path: &String, probes: &Vec<Option<String>>) -> (r:
        Option<(String, String)>)
        ensures
            match display_location(self.base_dir@, path@, opt_views(probes@)) {
                Some((d, label)) => if d == self.current_dir@ {
                    match r {
                        Some((rp, rl)) => rp@ == path@ && rl@ == label,
                        None => false,
                    }
                } else {
                    r is None
                },
                None => r is None,
            },
    {
        match self.find_display_location(path, probes) {
            Some((d, label)) => {
                if d == self.current_dir {
                    Some((path.clone(), label))
                } else {
                    None
                }
            },
            None => None,
        }
    }

    /// Adds to `rows` a row for each tracked missing path shown in the
    /// current directory, unless a row of that name is there already
    /// (`probes[i]` classifies the probe paths of the i-th tracked path).
    fn add_invalid_entries(&self, rows: &mut Vec<FileEntry>, probes: &Vec<Vec<Option<String>>>)
        ensures
            entry_views(final(rows)@) == with_missing(
                entry_views(old(rows)@),
                self.base_dir@,
                self.current_dir@,
                self.tracked_invalid(),
                probe_views(probes@),
                self.tracked_invalid().len(),
            ),
    {
        let ghost shown = entry_views(rows@);
        let ghost paths = string_views(self.invalid_paths@);
        let ghost pv = probe_views(probes@);
        let empty: Vec<Option<String>> = Vec::new();
        let mut k: usize = 0;
        while k < self.invalid_paths.len()
            invariant
                k <= self.invalid_paths.len(),
                paths == string_views(self.invalid_paths@),
                pv == probe_views(probes@),
                empty@.len() == 0,
                entry_views(rows@) == with_missing(
                    shown,
                    self.base_dir@,
                    self.current_dir@,
                    paths,
                    pv,
                    k as nat,
                ),
            decreases self.invalid_paths.len() - k,
        {
            let ps = if k < probes.len() {
                &probes[k]
            } else {
                &empty
            };
            assert(opt_views(ps@) =~= probes_for(pv, k as int));
            assert(paths[k as int] == self.invalid_paths@[k as int]@);
            let ghost before = rows@;
            match self.resolve_invalid_for_current_dir(&self.invalid_paths[k], ps) {
                Some((path, label)) => {
                    if !has_name(rows, &label) {
                        rows.push(FileEntry::invalid(path, label));
                        assert(entry_views(rows@) =~= entry_views(before).push(rows@.last()@));
                    }
                },
                None => {},
            }
            k = k + 1;
        }
    }

    fn clamp_cursor(&mut self)
        ensures
            final(self).cursor == (if old(self).cursor < old(self).entries.len() {
                old(self).cursor as int
            } else if old(self).entries.len() == 0 {
                0
            } else {
                old(self).entries.len() - 1
            }),
            final(self).entries == old(self).entries,
            final(self).scroll_offset == old(self).scroll_offset,
            final(self).current_dir == old(self).current_dir,
            final(self).show_hidden == old(self).show_hidden,
            final(self).base_dir == old(self).base_dir,
            final(self).invalid_paths == old(self).invalid_paths,
            final(self).return_to == old(self).return_to,
    {
        if self.cursor >= self.entries.len() {
            self.cursor = self.entries.len().saturating_sub(1);
        }
    }

    /// One row up, staying at the top; the view scrolls up with the cursor.
    pub fn move_up(&mut self)
        requires
            old(self).wf(),
        ensures
            final(self).wf(),
            final(self).cursor == (if old(self).cursor > 0 {
                old(self).cursor - 1
            } else {
                0
            }),
            final(self).scroll_offset == (if old(self).cursor > 0 && old(self).scroll_offset
                > old(self).cursor - 1 {
                old(self).cursor - 1
            } else {
                old(self).scroll_offset as int
            }),
            final(self).entries == old(self).entries,
            final(self).current_dir == old(self).current_dir,
            final(self).show_hidden == old(self).show_hidden,
            final(self).base_dir == old(self).base_dir,
            final(self).invalid_paths == old(self).invalid_paths,
            final(self).return_to == old(self).return_to,
    {
        if self.cursor > 0 {
            self.cursor = self.cursor - 1;
            if self.scroll_offset > self.cursor {
                self.scroll_offset = self.cursor;
            }
        }
    }

    /// One row down, staying on the last row.
    pub fn move_down(&mut self)
        requires
            old(self).wf(),
        ensures
            final(self).wf(),
            final(self).cursor == (if old(self).cursor + 1 < old(self).entries.len() {
                old(self).cursor + 1
            } else {
                old(self).cursor as int
            }),
            final(self).scroll_offset == old(self).scroll_offset,
            final(self).entries == old(self).entries,
            final(self).current_dir == old(self).current_dir,
            final(self).show_hidden == old(self).show_hidden,
            final(self).base_dir == old(self).base_dir,
            final(self).invalid_paths == old(self).invalid_paths,
            final(self).return_to == old(self).return_to,
    {
        if self.cursor + 1 < self.entries.len() {
            self.cursor = self.cursor + 1;
        }
    }

    /// Scrolls down just enough that the cursor is within `visible_height`
    /// rows from the top of the view.
    pub fn adjust_scroll(&mut self, visible_height: usize)
        ensures
            final(self).scroll_offset == (if visible_height > 0 && old(self).cursor
                >= old(self).scroll_offset + visible_height {
                old(self).cursor - visible_height + 1
            } else {
                old(self).scroll_offset as int
            }),
            final(self).cursor == old(self).cursor,
            final(self).entries == old(self).entries,
            final(self).current_dir == old(self).current_dir,
            final(self).show_hidden == old(self).show_hidden,
            final(self).base_dir == old(self).base_dir,
            final(self).invalid_paths == old(self).invalid_paths,
            final(self).return_to == old(self).return_to,
    {
        if visible_height == 0 {
            return;
        }
        if self.cursor >= self.scroll_offset && self.cursor - self.scroll_offset >= visible_height {
            self.scroll_offset = self.cursor - visible_height + 1;
        }
    }

    /// Descends into the directory under the cursor, if it is one, with the
    /// cursor and view at the top; the caller then refreshes.
    pub fn enter_directory(&mut self) -> (r: bool)
        requires
            old(self).wf(),
        ensures
            enter_post(*old(self), *final(self), r),
            final(self).invalid_paths == old(self).invalid_paths,
            final(self).base_dir == old(self).base_dir,
    {
        if self.cursor < self.entries.len() && self.entries[self.cursor].is_dir {
            self.current_dir = self.entries[self.cursor].path.clone();
            self.cursor = 0;
            self.scroll_offset = 0;
            self.return_to = None;
            true
        } else {
            false
        }
    }

    /// Ascends to the parent directory, if there is one, remembering the
    /// directory left; the caller then refreshes.
    pub fn go_parent(&mut self) -> (r: bool)
        requires
            old(self).wf(),
        ensures
            go_parent_post(*old(self), *final(self), r),
            final(self).invalid_paths == old(self).invalid_paths,
            final(self).base_dir == old(self).base_dir,
    {
        let cur = chars_of(self.current_dir.as_str());
        match parent_chars(&cur) {
            Some(p) => {
                let left = self.current_dir.clone();
                self.current_dir = string_of(&p);
                self.return_to = Some(left);
                true
            },
            None => false,
        }
    }

    /// Flips whether hidden rows are shown; the caller then refreshes.
    pub fn toggle_hidden(&mut self)
        requires
            old(self).wf(),
        ensures
            final(self).wf(),
            final(self).show_hidden == !old(self).show_hidden,
            final(self).cursor == old(self).cursor,
            final(self).scroll_offset == old(self).scroll_offset,
            final(self).entries == old(self).entries,
            final(self).current_dir == old(self).current_dir,
            final(self).base_dir == old(self).base_dir,
            final(self).invalid_paths == old(self).invalid_paths,
            final(self).return_to == old(self).return_to,
    {
        self.show_hidden = !self.show_hidden;
    }

    /// The row under the cursor.
    pub fn current_entry(&self) -> (r: Option<&FileEntry>)
        ensures
            match r {
                Some(e) => self.cursor < self.entries.len() && *e == self.entries@[self.cursor as int],
                None => self.cursor >= self.entries.len(),
            },
    {
        if self.cursor < self.entries.len() {
            Some(&self.entries[self.cursor])
        } else {
            None
        }
    }
}

/// Whether a row is named `name`.
fn has_name(rows: &Vec<FileEntry>, name: &String) -> (r: bool)
    ensures
        r == exists|j: int| 0 <= j < rows.len() && (#[trigger] entry_views(rows@)[j]).name == name@,
{
    let mut j: usize = 0;
    while j < rows.len()
        invariant
            j <= rows.len(),
            forall|m: int| 0 <= m < j ==> (#[trigger] entry_views(rows@)[m]).name != name@,
        decreases rows.len() - j,
    {
        if rows[j].name == *name {
            assert(entry_views(rows@)[j as int].name == name@);
            return true;
        }
        assert(entry_views(rows@)[j as int] == rows@[j as int]@);
        j = j + 1;
    }
    false
}

/// Going up to the parent and refreshing with its listing puts the cursor on
/// the directory just left when the listing holds it (as a directory row);
/// entering from there goes back into that directory.
pub proof fn lemma_parent_then_enter(
    s0: BrowserState,
    s1: BrowserState,
    went_up: bool,
    listing: Seq<EntryView>,
    probes: Seq<Seq<Option<Seq<char>>>>,
    s2: BrowserState,
    s3: BrowserState,
    entered: bool,
)
    requires
        s0.wf(),
        go_parent_post(s0, s1, went_up),
        went_up,
        refresh_post(s1, s2, listing, probes),
        exists|k: int| 0 <= k < s2.entries.len() && (#[trigger] s2.entries@[k]).path@ == s0.current_dir@,
        forall|k: int|
            0 <= k < s2.entries.len() && (#[trigger] s2.entries@[k]).path@ == s0.current_dir@
                ==> s2.entries@[k].is_dir,
        enter_post(s2, s3, entered),
    ensures
        s2.entries@[s2.cursor as int].path@ == s0.current_dir@,
        entered,
        s3.current_dir@ == s0.current_dir@,
{
    let es = entry_views(s2.entries@);
    let d = s0.current_dir@;
    lemma_position_of(es, d, es.len());
    let k = choose|k: int| 0 <= k < s2.entries.len() && (#[trigger] s2.entries@[k]).path@ == d;
    assert(es[k].path == d);
    let f = position_of(es, d, es.len());
    assert(f < es.len());
    assert(es[f as int] == s2.entries@[f as int]@);
}

} // verus!
