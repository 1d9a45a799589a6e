//! The chosen paths: canonical forms of paths that resolved, and the
//! literal text of paths that did not.
use vstd::prelude::*;

use crate::path::{
    chars_absolute, concat, is_absolute, join, join_chars, strip_base, strip_base_chars,
    string_views, views,
};
use crate::text::{
    chars_of, chars_start_with, has_prefix, insert_sorted, lemma_sorted_unique, string_of,
    strictly_sorted,
};

verus! {

/// A path as given, with the canonical form that resolving it yielded, or
/// none where it did not resolve (it does not exist, or resolving failed).
#[derive(Clone, Debug)]
pub struct Classified {
    pub path: String,
    pub canonical: Option<String>,
}

pub ghost struct ClassifiedView {
    pub path: Seq<char>,
    pub canonical: Option<Seq<char>>,
}

impl View for Classified {
    type V = ClassifiedView;

    open spec fn view(&self) -> ClassifiedView {
        ClassifiedView {
            path: self.path@,
            canonical: match self.canonical {
                Some(k) => Some(k@),
                None => None,
            },
        }
    }
}

impl Classified {
    /// The same path and classification.
    pub(crate) fn duplicate(&self) -> (r: Self)
        ensures
            r@ == self@,
    {
        Classified {
            path: self.path.clone(),
            canonical: match &self.canonical {
                Some(k) => Some(k.clone()),
                None => None,
            },
        }
    }

    pub fn new(path: String, canonical: Option<String>) -> (r: Self)
        ensures
            r.path == path,
            r.canonical == canonical,
    {
        Classified { path, canonical }
    }
}

pub open spec fn classified_views(cs: Seq<Classified>) -> Seq<ClassifiedView> {
    cs.map_values(|c: Classified| c@)
}

/// The two sets: canonical paths, and literal paths that did not resolve.
pub ghost struct SelectionView {
    pub valid: Set<Seq<char>>,
    pub invalid: Set<Seq<char>>,
}

/// The canonical forms among `cs`.
pub open spec fn canonicals(cs: Seq<ClassifiedView>) -> Set<Seq<char>> {
    Set::new(|k: Seq<char>| exists|i: int| 0 <= i < cs.len() && #[trigger] cs[i].canonical == Some(k))
}

/// The literal paths among `cs` that did not resolve.
pub open spec fn unresolved(cs: Seq<ClassifiedView>) -> Set<Seq<char>> {
    Set::new(
        |p: Seq<char>|
            exists|i: int| 0 <= i < cs.len() && #[trigger] cs[i].canonical is None && cs[i].path == p,
    )
}

pub open spec fn add_spec(s: SelectionView, cs: Seq<ClassifiedView>) -> SelectionView {
    SelectionView { valid: s.valid + canonicals(cs), invalid: s.invalid + unresolved(cs) }
}

pub open spec fn remove_spec(s: SelectionView, cs: Seq<ClassifiedView>) -> SelectionView {
    SelectionView { valid: s.valid - canonicals(cs), invalid: s.invalid }
}

pub open spec fn toggle_spec(s: SelectionView, c: ClassifiedView) -> SelectionView {
    match c.canonical {
        Some(k) => if s.valid.contains(k) {
            SelectionView { valid: s.valid.remove(k), invalid: s.invalid }
        } else {
            SelectionView { valid: s.valid.insert(k), invalid: s.invalid }
        },
        None => s,
    }
}

pub open spec fn toggle_invalid_spec(s: SelectionView, p: Seq<char>) -> SelectionView {
    if s.invalid.contains(p) {
        SelectionView { valid: s.valid, invalid: s.invalid.remove(p) }
    } else {
        SelectionView { valid: s.valid, invalid: s.invalid.insert(p) }
    }
}

pub open spec fn selected_spec(s: SelectionView, c: ClassifiedView) -> bool {
    match c.canonical {
        Some(k) => s.valid.contains(k),
        None => false,
    }
}

pub open spec fn dot_slash() -> Seq<char> {
    seq!['.', '/']
}

/// A canonical path shown relative to `base` (`./` and the rest) where it lies below it.
pub open spec fn shown_valid(p: Seq<char>, base: Seq<char>) -> Seq<char> {
    match strip_base(p, base) {
        Some(rel) => dot_slash() + rel,
        None => p,
    }
}

/// A literal path with `./` in front, unless it already begins with `./` or `/`.
pub open spec fn shown_invalid(p: Seq<char>) -> Seq<char> {
    if has_prefix(p, dot_slash()) || is_absolute(p) {
        p
    } else {
        dot_slash() + p
    }
}

pub open spec fn rendered_valid(p: Seq<char>, absolute: bool, base: Seq<char>) -> Seq<char> {
    if absolute {
        p
    } else {
        shown_valid(p, base)
    }
}

pub open spec fn rendered_invalid(p: Seq<char>, absolute: bool, base: Seq<char>) -> Seq<char> {
    if absolute {
        join(base, p)
    } else {
        shown_invalid(p)
    }
}

/// Every chosen path as it is written out.
pub open spec fn output_set(s: SelectionView, absolute: bool, base: Seq<char>) -> Set<Seq<char>> {
    s.valid.map(|p: Seq<char>| rendered_valid(p, absolute, base)) + s.invalid.map(
        |p: Seq<char>| rendered_invalid(p, absolute, base),
    )
}

pub(crate) fn shown_valid_chars(p: &Vec<char>, base: &Vec<char>) -> (r: Vec<char>)
    ensures
        r@ == shown_valid(p@, base@),
{
    match strip_base_chars(p, base) {
        Some(rel) => {
            let mut dot: Vec<char> = Vec::new();
            dot.push('.');
            dot.push('/');
            assert(dot@ =~= dot_slash());
            concat(&dot, &rel)
        },
        None => p.clone(),
    }
}

pub(crate) fn shown_invalid_chars(p: &Vec<char>) -> (r: Vec<char>)
    ensures
        r@ == shown_invalid(p@),
{
    let mut dot: Vec<char> = Vec::new();
    dot.push('.');
    dot.push('/');
    assert(dot@ =~= dot_slash());
    if chars_start_with(p, &dot) || chars_absolute(p) {
        p.clone()
    } else {
        concat(&dot, p)
    }
}

proof fn lemma_take_to_set(s: Seq<Seq<char>>, i: int)
    requires
        0 <= i < s.len(),
    ensures
        s.take(i + 1).to_set() == s.take(i).to_set().insert(s[i]),
{
    assert(s.take(i + 1) =~= s.take(i) + seq![s[i]]);
    Seq::lemma_to_set_insert_commutes(s.take(i), s[i]);
}

proof fn lemma_map_insert(a: Set<Seq<char>>, x: Seq<char>, f: spec_fn(Seq<char>) -> Seq<char>)
    ensures
        a.insert(x).map(f) == a.map(f).insert(f(x)),
{
    assert forall|y: Seq<char>| #[trigger] a.insert(x).map(f).contains(y) implies a.map(f).insert(
        f(x),
    ).contains(y) by {
        let z = choose|z: Seq<char>| a.insert(x).contains(z) && y == f(z);
        if z != x {
            assert(a.contains(z));
        }
    }
    assert forall|y: Seq<char>| #[trigger] a.map(f).insert(f(x)).contains(y) implies a.insert(
        x,
    ).map(f).contains(y) by {
        if y == f(x) {
            assert(a.insert(x).contains(x));
        } else {
            let z = choose|z: Seq<char>| a.contains(z) && y == f(z);
            assert(a.insert(x).contains(z));
        }
    }
    assert(a.insert(x).map(f) =~= a.map(f).insert(f(x)));
}

proof fn lemma_classified_step(cs: Seq<ClassifiedView>, i: int)
    requires
        0 <= i < cs.len(),
    ensures
        canonicals(cs.take(i + 1)) == (match cs[i].canonical {
            Some(k) => canonicals(cs.take(i)).insert(k),
            None => canonicals(cs.take(i)),
        }),
        unresolved(cs.take(i + 1)) == (match cs[i].canonical {
            Some(k) => unresolved(cs.take(i)),
            None => unresolved(cs.take(i)).insert(cs[i].path),
        }),
{
    let a = cs.take(i);
    let b = cs.take(i + 1);
    assert forall|k: Seq<char>| canonicals(b).contains(k) implies (match cs[i].canonical {
        Some(x) => canonicals(a).insert(x),
        None => canonicals(a),
    }).contains(k) by {
        let j = choose|j: int| 0 <= j < b.len() && #[trigger] b[j].canonical == Some(k);
        if j < i {
            assert(a[j].canonical == Some(k));
        }
    }
    assert forall|k: Seq<char>| (match cs[i].canonical {
        Some(x) => canonicals(a).insert(x),
        None => canonicals(a),
    }).contains(k) implies canonicals(b).contains(k) by {
        if cs[i].canonical == Some(k) {
            assert(b[i].canonical == Some(k));
        } else {
            let j = choose|j: int| 0 <= j < a.len() && #[trigger] a[j].canonical == Some(k);
            assert(b[j].canonical == Some(k));
        }
    }
    assert(canonicals(b) =~= (match cs[i].canonical {
        Some(x) => canonicals(a).insert(x),
        None => canonicals(a),
    }));
    assert forall|p: Seq<char>| unresolved(b).contains(p) implies (match cs[i].canonical {
        Some(x) => unresolved(a),
        None => unresolved(a).insert(cs[i].path),
    }).contains(p) by {
        let j = choose|j: int| 0 <= j < b.len() && #[trigger] b[j].canonical is None && b[j].path == p;
        if j < i {
            assert(a[j].canonical is None && a[j].path == p);
        }
    }
    assert forall|p: Seq<char>| (match cs[i].canonical {
        Some(x) => unresolved(a),
        None => unresolved(a).insert(cs[i].path),
    }).contains(p) implies unresolved(b).contains(p) by {
        if cs[i].canonical is None && cs[i].path == p {
            assert(b[i].canonical is None && b[i].path == p);
        } else {
            let j = choose|j: int| 0 <= j < a.len() && #[trigger] a[j].canonical is None && a[j].path == p;
            assert(b[j].canonical is None && b[j].path == p);
        }
    }
    assert(unresolved(b) =~= (match cs[i].canonical {
        Some(x) => unresolved(a),
        None => unresolved(a).insert(cs[i].path),
    }));
}

/// The index of a string equal to `x` in `v`, if any.
pub(crate) fn find_string(v: &Vec<String>, x: &String) -> (r: Option<usize>)
    ensures
        match r {
            Some(i) => i < v.len() && v@[i as int]@ == x@,
            None => true,
        },
        r is Some <==> string_views(v@).to_set().contains(x@),
{
    let mut i: usize = 0;
    while i < v.len()
        invariant
            i <= v.len(),
            forall|j: int| 0 <= j < i ==> (#[trigger] v@[j])@ != x@,
        decreases v.len() - i,
    {
        if v[i] == *x {
            assert(string_views(v@)[i as int] == x@);
            return Some(i);
        }
        i = i + 1;
    }
    proof {
        if string_views(v@).to_set().contains(x@) {
            let j = choose|j: int| 0 <= j < v.len() && string_views(v@)[j] == x@;
            assert(v@[j]@ == x@);
        }
    }
    None
}

/// Adds `x` to the strings of `v`, where it is not among them already.
pub(crate) fn insert_string(v: &mut Vec<String>, x: String)
    requires
        string_views(old(v)@).no_duplicates(),
    ensures
        string_views(final(v)@).no_duplicates(),
        string_views(final(v)@).to_set() == string_views(old(v)@).to_set().insert(x@),
        string_views(final(v)@) == if string_views(old(v)@).contains(x@) {
            string_views(old(v)@)
        } else {
            string_views(old(v)@).push(x@)
        },
{
    match find_string(v, &x) {
        Some(i) => {
            assert(string_views(v@)[i as int] == x@);
            assert(string_views(v@).contains(x@));
            assert(string_views(v@).to_set().insert(x@) =~= string_views(v@).to_set());
        },
        None => {
            let ghost s = string_views(v@);
            assert(!s.contains(x@)) by {
                if s.contains(x@) {
                    let k = choose|k: int| 0 <= k < s.len() && s[k] == x@;
                    assert(s.to_set().contains(x@));
                }
            }
            v.push(x);
            assert(string_views(v@) =~= s + seq![x@]);
            proof {
                Seq::lemma_to_set_insert_commutes(s, x@);
            }
            assert(string_views(v@).no_duplicates()) by {
                assert forall|a: int, b: int|
                    0 <= a < b < string_views(v@).len() implies string_views(v@)[a] != string_views(
                    v@,
                )[b] by {
                    if b == s.len() {
                        assert(s.to_set().contains(s[a]));
                    }
                }
            }
        },
    }
}

/// Takes `x` out of the strings of `v`.
fn remove_string(v: &mut Vec<String>, x: &String)
    requires
        string_views(old(v)@).no_duplicates(),
    ensures
        string_views(final(v)@).no_duplicates(),
        string_views(final(v)@).to_set() == string_views(old(v)@).to_set().remove(x@),
{
    match find_string(v, x) {
        Some(i) => {
            let ghost s = string_views(v@);
            v.remove(i);
            let ghost t = string_views(v@);
            assert(t =~= s.remove(i as int));
            assert(s[i as int] == x@);
            assert forall|e: Seq<char>| t.to_set().contains(e) implies s.to_set().remove(x@).contains(e) by {
                let k = choose|k: int| 0 <= k < t.len() && t[k] == e;
                if k < i {
                    assert(s[k] == e);
                    assert(s[k] != s[i as int]);
                } else {
                    assert(s[k + 1] == e);
                    assert(s[k + 1] != s[i as int]);
                }
            }
            assert forall|e: Seq<char>| s.to_set().remove(x@).contains(e) implies t.to_set().contains(e) by {
                let k = choose|k: int| 0 <= k < s.len() && s[k] == e;
                if k < i {
                    assert(t[k] == e);
                } else {
                    assert(k != i);
                    assert(t[k - 1] == e);
                }
            }
            assert(t.to_set() =~= s.to_set().remove(x@));
        },
        None => {
            assert(string_views(v@).to_set().remove(x@) =~= string_views(v@).to_set());
        },
    }
}

/// The chosen paths. A canonical path lands in the first set, the literal text
/// of a path that did not resolve in the second.
#[derive(Debug)]
pub struct SelectionState {
    selected: Vec<String>,
    invalid: Vec<String>,
}

impl View for SelectionState {
    type V = SelectionView;

    closed spec fn view(&self) -> SelectionView {
        SelectionView {
            valid: string_views(self.selected@).to_set(),
            invalid: string_views(self.invalid@).to_set(),
        }
    }
}

impl SelectionState {
    /// Each set held once per member.
    pub closed spec fn wf(&self) -> bool {
        &&& string_views(self.selected@).no_duplicates()
        &&& string_views(self.invalid@).no_duplicates()
    }

    pub fn new() -> (r: Self)
        ensures
            r.wf(),
            r@.valid.is_empty(),
            r@.invalid.is_empty(),
    {
        let r = SelectionState { selected: Vec::new(), invalid: Vec::new() };
        assert(string_views(r.selected@).to_set() =~= Set::empty());
        assert(string_views(r.invalid@).to_set() =~= Set::empty());
        r
    }

    /// Adds each path: its canonical form to the valid set where it resolved,
    /// its literal text to the invalid set where it did not.
    pub fn add_paths(&mut self, paths: Vec<Classified>)
        requires
            old(self).wf(),
        ensures
            final(self).wf(),
            final(self)@ == add_spec(old(self)@, classified_views(paths@)),
    {
        let ghost cs = classified_views(paths@);
        let ghost start = self@;
        let mut i: usize = 0;
        assert(cs.take(0) =~= seq![]);
        assert(add_spec(start, cs.take(0)) == start) by {
            assert(canonicals(cs.take(0)) =~= Set::empty());
            assert(unresolved(cs.take(0)) =~= Set::empty());
            assert(start.valid + Set::empty() =~= start.valid);
            assert(start.invalid + Set::empty() =~= start.invalid);
        }
        while i < paths.len()
            invariant
                i <= paths.len(),
                cs == classified_views(paths@),
                self.wf(),
                self@ == add_spec(start, cs.take(i as int)),
            decreases paths.len() - i,
        {
            proof {
                lemma_classified_step(cs, i as int);
            }
            let c = &paths[i];
            match &c.canonical {
                Some(k) => {
                    insert_string(&mut self.selected, k.clone());
                    assert(self@.valid =~= start.valid + canonicals(cs.take(i + 1)));
                    assert(self@.invalid =~= start.invalid + unresolved(cs.take(i + 1)));
                },
                None => {
                    insert_string(&mut self.invalid, c.path.clone());
                    assert(self@.valid =~= start.valid + canonicals(cs.take(i + 1)));
                    assert(self@.invalid =~= start.invalid + unresolved(cs.take(i + 1)));
                },
            }
            i = i + 1;
        }
        assert(cs.take(paths.len() as int) =~= cs);
    }

    /// Takes the canonical form of each path that resolved out of the valid
    /// set; the invalid set is left as it is.
    pub fn remove_paths(&mut self, paths: &Vec<Classified>)
        requires
            old(self).wf(),
        ensures
            final(self).wf(),
            final(self)@ == remove_spec(old(self)@, classified_views(paths@)),
    {
        let ghost cs = classified_views(paths@);
        let ghost start = self@;
        let mut i: usize = 0;
        assert(cs.take(0) =~= seq![]);
        assert(remove_spec(start, cs.take(0)) == start) by {
            assert(canonicals(cs.take(0)) =~= Set::empty());
            assert(start.valid - Set::empty() =~= start.valid);
        }
        while i < paths.len()
            invariant
                i <= paths.len(),
                cs == classified_views(paths@),
                self.wf(),
                self@ == remove_spec(start, cs.take(i as int)),
            decreases paths.len() - i,
        {
            proof {
                lemma_classified_step(cs, i as int);
            }
            let c = &paths[i];
            match &c.canonical {
                Some(k) => {
                    remove_string(&mut self.selected, k);
                    assert(self@.valid =~= start.valid - canonicals(cs.take(i + 1)));
                },
                None => {},
            }
            i = i + 1;
        }
        assert(cs.take(paths.len() as int) =~= cs);
    }

    /// Flips the membership of the path's canonical form in the valid set;
    /// a path that did not resolve changes nothing.
    pub fn toggle(&mut self, path: &Classified)
        requires
            old(self).wf(),
        ensures
            final(self).wf(),
            final(self)@ == toggle_spec(old(self)@, path@),
    {
        match &path.canonical {
            Some(k) => {
                match find_string(&self.selected, k) {
                    Some(i) => {
                        assert(string_views(self.selected@)[i as int] == k@);
                        remove_string(&mut self.selected, k);
                    },
                    None => {
                        insert_string(&mut self.selected, k.clone());
                    },
                }
            },
            None => {},
        }
    }

    /// Flips the membership of the literal path in the invalid set.
    pub fn toggle_invalid(&mut self, path: &String)
        requires
            old(self).wf(),
        ensures
            final(self).wf(),
            final(self)@ == toggle_invalid_spec(old(self)@, path@),
    {
        match find_string(&self.invalid, path) {
            Some(i) => {
                assert(string_views(self.invalid@)[i as int] == path@);
                remove_string(&mut self.invalid, path);
            },
            None => {
                insert_string(&mut self.invalid, path.clone());
            },
        }
    }

    /// Whether the path resolved, to a canonical form that is chosen.
    pub fn is_selected(&self, path: &Classified) -> (r: bool)
        ensures
            r == selected_spec(self@, path@),
    {
        match &path.canonical {
            Some(k) => find_string(&self.selected, k).is_some(),
            None => false,
        }
    }

    pub fn is_invalid_selected(&self, path: &String) -> (r: bool)
        ensures
            r == self@.invalid.contains(path@),
    {
        find_string(&self.invalid, path).is_some()
    }

    /// The number of chosen paths in both sets (at most `usize::MAX`).
    pub fn count(&self) -> (r: usize)
        requires
            self.wf(),
        ensures
            r == if self@.valid.len() + self@.invalid.len() > usize::MAX {
                usize::MAX as int
            } else {
                (self@.valid.len() + self@.invalid.len()) as int
            },
    {
        proof {
            string_views(self.selected@).unique_seq_to_set();
            string_views(self.invalid@).unique_seq_to_set();
        }
        self.selected.len().saturating_add(self.invalid.len())
    }

    /// The canonical paths, each once, in no particular order.
    pub fn iter_valid(&self) -> (r: &Vec<String>)
        requires
            self.wf(),
        ensures
            string_views(r@).no_duplicates(),
            string_views(r@).to_set() == self@.valid,
    {
        &self.selected
    }

    /// The literal paths that did not resolve, each once, in no particular order.
    pub fn iter_invalid(&self) -> (r: &Vec<String>)
        requires
            self.wf(),
        ensures
            string_views(r@).no_duplicates(),
            string_views(r@).to_set() == self@.invalid,
    {
        &self.invalid
    }

    /// Every chosen path as written out, sorted and without duplicates:
    /// canonical paths as they are, or shown below `base_dir`; the others
    /// joined onto `base_dir`, or with `./` in front where relative.
    pub fn to_output(&self, use_absolute: bool, base_dir: &String) -> (r: Vec<String>)
        ensures
            strictly_sorted(string_views(r@)),
            string_views(r@).to_set() == output_set(self@, use_absolute, base_dir@),
    {
        let base = chars_of(base_dir.as_str());
        let ghost fv = |p: Seq<char>| rendered_valid(p, use_absolute, base_dir@);
        let ghost fi = |p: Seq<char>| rendered_invalid(p, use_absolute, base_dir@);
        let ghost sv = string_views(self.selected@);
        let ghost si = string_views(self.invalid@);
        let mut out: Vec<Vec<char>> = Vec::new();
        assert(views(out@).to_set() =~= sv.take(0).to_set().map(fv)) by {
            assert(sv.take(0).to_set() =~= Set::empty());
        }
        let mut i: usize = 0;
        while i < self.selected.len()
            invariant
                i <= self.selected.len(),
                base@ == base_dir@,
                sv == string_views(self.selected@),
                fv == (|p: Seq<char>| rendered_valid(p, use_absolute, base_dir@)),
                strictly_sorted(views(out@)),
                views(out@).to_set() == sv.take(i as int).to_set().map(fv),
            decreases self.selected.len() - i,
        {
            let p = chars_of(self.selected[i].as_str());
            let shown = if use_absolute {
                p
            } else {
                shown_valid_chars(&p, &base)
            };
            proof {
                lemma_take_to_set(sv, i as int);
                lemma_map_insert(sv.take(i as int).to_set(), sv[i as int], fv);
            }
            insert_sorted(&mut out, shown);
            i = i + 1;
        }
        assert(sv.take(self.selected.len() as int) =~= sv);
        let ghost valid_part = views(out@).to_set();
        assert(views(out@).to_set() =~= valid_part + si.take(0).to_set().map(fi)) by {
            assert(si.take(0).to_set() =~= Set::empty());
        }
        let mut j: usize = 0;
        while j < self.invalid.len()
            invariant
                j <= self.invalid.len(),
                base@ == base_dir@,
                si == string_views(self.invalid@),
                fi == (|p: Seq<char>| rendered_invalid(p, use_absolute, base_dir@)),
                strictly_sorted(views(out@)),
                views(out@).to_set() == valid_part + si.take(j as int).to_set().map(fi),
            decreases self.invalid.len() - j,
        {
            let p = chars_of(self.invalid[j].as_str());
            let shown = if use_absolute {
                join_chars(&base, &p)
            } else {
                shown_invalid_chars(&p)
            };
            proof {
                lemma_take_to_set(si, j as int);
                lemma_map_insert(si.take(j as int).to_set(), si[j as int], fi);
            }
            insert_sorted(&mut out, shown);
            assert(views(out@).to_set() =~= valid_part + si.take(j + 1).to_set().map(fi));
            j = j + 1;
        }
        assert(si.take(self.invalid.len() as int) =~= si);
        let mut r: Vec<String> = Vec::new();
        let mut k: usize = 0;
        while k < out.len()
            invariant
                k <= out.len(),
                string_views(r@) == views(out@).take(k as int),
            decreases out.len() - k,
        {
            let s = string_of(&out[k]);
            assert(views(out@)[k as int] == out@[k as int]@);
            let ghost before = r@;
            r.push(s);
            assert(r@ == before.push(s));
            assert(string_views(r@) =~= string_views(before).push(s@));
            assert(views(out@).take(k + 1) =~= views(out@).take(k as int).push(views(out@)[k as int]));
            k = k + 1;
        }
        assert(views(out@).take(out.len() as int) =~= views(out@));
        r
    }
}

impl Default for SelectionState {
    fn default() -> (r: Self)
        ensures
            r.wf(),
            r@.valid.is_empty(),
            r@.invalid.is_empty(),
    {
        SelectionState::new()
    }
}

/// One change of the chosen paths, as `add_paths`, `remove_paths` or `toggle` makes it.
pub ghost enum SelectionOp {
    Add(Seq<ClassifiedView>),
    Remove(Seq<ClassifiedView>),
    Toggle(ClassifiedView),
}

pub open spec fn apply_op(s: SelectionView, op: SelectionOp) -> SelectionView {
    match op {
        SelectionOp::Add(cs) => add_spec(s, cs),
        SelectionOp::Remove(cs) => remove_spec(s, cs),
        SelectionOp::Toggle(c) => toggle_spec(s, c),
    }
}

pub open spec fn apply_ops(s: SelectionView, ops: Seq<SelectionOp>) -> SelectionView
    decreases ops.len(),
{
    if ops.len() == 0 {
        s
    } else {
        apply_op(apply_ops(s, ops.drop_last()), ops.last())
    }
}

/// `resolve` maps a canonical form it yields to itself.
pub open spec fn resolver_stable(resolve: spec_fn(Seq<char>) -> Option<Seq<char>>) -> bool {
    forall|p: Seq<char>| (#[trigger] resolve(p)) is Some ==> resolve(resolve(p)->0) == resolve(p)
}

/// Every path that `op` carries was classified by `resolve`.
pub open spec fn op_from(resolve: spec_fn(Seq<char>) -> Option<Seq<char>>, op: SelectionOp) -> bool {
    match op {
        SelectionOp::Add(cs) => forall|i: int| 0 <= i < cs.len() ==> #[trigger] cs[i].canonical == resolve(cs[i].path),
        SelectionOp::Remove(cs) => forall|i: int| 0 <= i < cs.len() ==> #[trigger] cs[i].canonical == resolve(cs[i].path),
        SelectionOp::Toggle(c) => c.canonical == resolve(c.path),
    }
}

/// Each valid path resolves to itself and each invalid path does not resolve.
pub open spec fn agrees_with(s: SelectionView, resolve: spec_fn(Seq<char>) -> Option<Seq<char>>) -> bool {
    &&& forall|v: Seq<char>| #[trigger] s.valid.contains(v) ==> resolve(v) == Some(v)
    &&& forall|q: Seq<char>| #[trigger] s.invalid.contains(q) ==> resolve(q) is None
}

proof fn lemma_op_keeps_agreement(
    s: SelectionView,
    op: SelectionOp,
    resolve: spec_fn(Seq<char>) -> Option<Seq<char>>,
)
    requires
        resolver_stable(resolve),
        op_from(resolve, op),
        agrees_with(s, resolve),
    ensures
        agrees_with(apply_op(s, op), resolve),
{
    match op {
        SelectionOp::Add(cs) => {
            let t = apply_op(s, op);
            assert forall|v: Seq<char>| #[trigger] t.valid.contains(v) implies resolve(v) == Some(v) by {
                if !s.valid.contains(v) {
                    let i = choose|i: int| 0 <= i < cs.len() && #[trigger] cs[i].canonical == Some(v);
                    assert(resolve(cs[i].path) == Some(v));
                }
            }
            assert forall|q: Seq<char>| #[trigger] t.invalid.contains(q) implies resolve(q) is None by {
                if !s.invalid.contains(q) {
                    let i = choose|i: int| 0 <= i < cs.len() && #[trigger] cs[i].canonical is None && cs[i].path == q;
                    assert(cs[i].canonical == resolve(cs[i].path));
                }
            }
        },
        SelectionOp::Remove(cs) => {},
        SelectionOp::Toggle(c) => {
            match c.canonical {
                Some(k) => {
                    assert(resolve(c.path) == Some(k));
                },
                None => {},
            }
        },
    }
}

/// Whatever sequence of additions, removals and toggles is applied to an empty
/// selection, with every path classified by one resolver that maps its own
/// results to themselves, no path is ever in both the valid and the invalid set.
pub proof fn lemma_never_both(
    ops: Seq<SelectionOp>,
    resolve: spec_fn(Seq<char>) -> Option<Seq<char>>,
)
    requires
        resolver_stable(resolve),
        forall|i: int| 0 <= i < ops.len() ==> op_from(resolve, #[trigger] ops[i]),
    ensures
        ({
            let s = apply_ops(SelectionView { valid: Set::empty(), invalid: Set::empty() }, ops);
            forall|p: Seq<char>| !(#[trigger] s.valid.contains(p) && s.invalid.contains(p))
        }),
    decreases ops.len(),
{
    let e = SelectionView { valid: Set::empty(), invalid: Set::empty() };
    lemma_ops_keep_agreement(e, ops, resolve);
    let s = apply_ops(e, ops);
    assert forall|p: Seq<char>| !(#[trigger] s.valid.contains(p) && s.invalid.contains(p)) by {
        if s.valid.contains(p) {
            assert(resolve(p) == Some(p));
        }
    }
}

proof fn lemma_ops_keep_agreement(
    s: SelectionView,
    ops: Seq<SelectionOp>,
    resolve: spec_fn(Seq<char>) -> Option<Seq<char>>,
)
    requires
        resolver_stable(resolve),
        agrees_with(s, resolve),
        forall|i: int| 0 <= i < ops.len() ==> op_from(resolve, #[trigger] ops[i]),
    ensures
        agrees_with(apply_ops(s, ops), resolve),
    decreases ops.len(),
{
    if ops.len() > 0 {
        let init = ops.drop_last();
        assert forall|i: int| 0 <= i < init.len() implies op_from(resolve, #[trigger] init[i]) by {
            assert(init[i] == ops[i]);
        }
        lemma_ops_keep_agreement(s, init, resolve);
        assert(op_from(resolve, ops[ops.len() - 1]));
        lemma_op_keeps_agreement(apply_ops(s, init), ops.last(), resolve);
    }
}

/// Toggling the same path twice leaves the selection as it was.
pub proof fn lemma_toggle_twice(s: SelectionView, c: ClassifiedView)
    ensures
        toggle_spec(toggle_spec(s, c), c) == s,
{
    match c.canonical {
        Some(k) => {
            if s.valid.contains(k) {
                assert(s.valid.remove(k).insert(k) =~= s.valid);
            } else {
                assert(s.valid.insert(k).remove(k) =~= s.valid);
            }
        },
        None => {},
    }
}

/// Any two lists that `to_output` may return for one selection are the same
/// list: the output is a function of the selection alone.
pub proof fn lemma_output_stable(
    s: SelectionView,
    use_absolute: bool,
    base: Seq<char>,
    a: Seq<Seq<char>>,
    b: Seq<Seq<char>>,
)
    requires
        strictly_sorted(a),
        strictly_sorted(b),
        a.to_set() == output_set(s, use_absolute, base),
        b.to_set() == output_set(s, use_absolute, base),
    ensures
        a == b,
{
    lemma_sorted_unique(a, b);
}

} // verus!
