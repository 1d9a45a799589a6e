//! Paths as character sequences, split on `/` into components.
//!
//! Empty pieces and `.` pieces are not components, so `a//b/./c` has the
//! components `a`, `b`, `c`; a path is absolute when it begins with `/`.
use vstd::prelude::*;

use crate::text::chars_eq;

verus! {

/// The character sequences behind a list of character vectors.
pub open spec fn views(v: Seq<Vec<char>>) -> Seq<Seq<char>> {
    v.map_values(|x: Vec<char>| x@)
}

/// The character sequences behind a list of strings.
pub open spec fn string_views(v: Seq<String>) -> Seq<Seq<char>> {
    v.map_values(|x: String| x@)
}

pub open spec fn is_absolute(s: Seq<char>) -> bool {
    s.len() > 0 && s[0] == '/'
}

/// `done` with `piece` appended, unless the piece is empty or `.`.
pub open spec fn keep_piece(done: Seq<Seq<char>>, piece: Seq<char>) -> Seq<Seq<char>> {
    if piece.len() == 0 || piece == seq!['.'] {
        done
    } else {
        done.push(piece)
    }
}

/// The components finished and the piece under way after reading `n` characters.
pub open spec fn scan(s: Seq<char>, n: nat) -> (Seq<Seq<char>>, Seq<char>)
    decreases n,
{
    if n == 0 {
        (seq![], seq![])
    } else {
        let (done, cur) = scan(s, (n - 1) as nat);
        if s[n - 1] == '/' {
            (keep_piece(done, cur), seq![])
        } else {
            (done, cur.push(s[n - 1]))
        }
    }
}

pub open spec fn components(s: Seq<char>) -> Seq<Seq<char>> {
    keep_piece(scan(s, s.len()).0, scan(s, s.len()).1)
}

/// The parts separated by single slashes.
pub open spec fn join_slash(parts: Seq<Seq<char>>) -> Seq<char>
    decreases parts.len(),
{
    if parts.len() == 0 {
        seq![]
    } else if parts.len() == 1 {
        parts[0]
    } else {
        join_slash(parts.drop_last()) + seq!['/'] + parts.last()
    }
}

/// `p` appended to `base` as `Path::join` does: an absolute `p` replaces
/// `base`, otherwise a separator is put between them where none is.
pub open spec fn join(base: Seq<char>, p: Seq<char>) -> Seq<char> {
    if is_absolute(p) || base.len() == 0 {
        p
    } else if base.last() == '/' {
        base + p
    } else {
        base + seq!['/'] + p
    }
}

/// `p` lies at or below `dir`, compared component by component.
pub open spec fn path_starts_with(p: Seq<char>, dir: Seq<char>) -> bool {
    &&& is_absolute(p) == is_absolute(dir)
    &&& components(dir).len() <= components(p).len()
    &&& components(p).take(components(dir).len() as int) == components(dir)
}

/// What is left of `p` below `base`, when it lies there.
pub open spec fn strip_base(p: Seq<char>, base: Seq<char>) -> Option<Seq<char>> {
    if path_starts_with(p, base) {
        Some(join_slash(components(p).skip(components(base).len() as int)))
    } else {
        None
    }
}

/// The final component, or the whole path where it has none or ends in `..`.
pub open spec fn name_of(p: Seq<char>) -> Seq<char> {
    let c = components(p);
    if c.len() > 0 && c.last() != seq!['.', '.'] {
        c.last()
    } else {
        p
    }
}

/// The path without its final component; none for a root or an empty path.
pub open spec fn parent_of(p: Seq<char>) -> Option<Seq<char>> {
    let c = components(p);
    if c.len() == 0 {
        None
    } else if is_absolute(p) {
        Some(seq!['/'] + join_slash(c.drop_last()))
    } else {
        Some(join_slash(c.drop_last()))
    }
}

proof fn lemma_views_push(v: Seq<Vec<char>>, x: Vec<char>)
    ensures
        views(v.push(x)) == views(v).push(x@),
{
    assert(views(v.push(x)) =~= views(v).push(x@));
}

/// The components of `s`.
pub(crate) fn components_of(s: &Vec<char>) -> (r: Vec<Vec<char>>)
    ensures
        views(r@) == components(s@),
{
    let mut done: Vec<Vec<char>> = Vec::new();
    let mut cur: Vec<char> = Vec::new();
    let mut i: usize = 0;
    assert(views(done@) =~= seq![]);
    while i < s.len()
        invariant
            i <= s.len(),
            (views(done@), cur@) == scan(s@, i as nat),
        decreases s.len() - i,
    {
        let c = s[i];
        if c == '/' {
            let dot = cur.len() == 1 && cur[0] == '.';
            proof {
                if cur@ == seq!['.'] {
                    assert(cur@[0] == '.');
                }
                if dot {
                    assert(cur@ =~= seq!['.']);
                }
            }
            if cur.len() > 0 && !dot {
                proof {
                    lemma_views_push(done@, cur);
                }
                done.push(cur);
            }
            cur = Vec::new();
        } else {
            cur.push(c);
        }
        i = i + 1;
    }
    let dot = cur.len() == 1 && cur[0] == '.';
    proof {
        if cur@ == seq!['.'] {
            assert(cur@[0] == '.');
        }
        if dot {
            assert(cur@ =~= seq!['.']);
        }
    }
    if cur.len() > 0 && !dot {
        proof {
            lemma_views_push(done@, cur);
        }
        done.push(cur);
    }
    done
}

/// `a` followed by `b`.
pub(crate) fn concat(a: &Vec<char>, b: &Vec<char>) -> (r: Vec<char>)
    ensures
        r@ == a@ + b@,
{
    let mut r = a.clone();
    let mut i: usize = 0;
    while i < b.len()
        invariant
            i <= b.len(),
            r@ == a@ + b@.take(i as int),
        decreases b.len() - i,
    {
        r.push(b[i]);
        assert(b@.take(i + 1) == b@.take(i as int).push(b@[i as int]));
        i = i + 1;
    }
    assert(b@.take(b.len() as int) == b@);
    r
}

/// The parts `from..to` of `parts`, separated by single slashes.
pub(crate) fn join_parts(parts: &Vec<Vec<char>>, from: usize, to: usize) -> (r: Vec<char>)
    requires
        from <= to <= parts.len(),
    ensures
        r@ == join_slash(views(parts@).subrange(from as int, to as int)),
{
    let ghost all = views(parts@);
    let mut r: Vec<char> = Vec::new();
    let mut i: usize = from;
    assert(all.subrange(from as int, from as int) =~= seq![]);
    while i < to
        invariant
            from <= i <= to <= parts.len(),
            all == views(parts@),
            r@ == join_slash(all.subrange(from as int, i as int)),
        decreases to - i,
    {
        let ghost prev = all.subrange(from as int, i as int);
        let ghost next = all.subrange(from as int, i + 1);
        assert(next.drop_last() =~= prev);
        assert(next.last() == parts@[i as int]@);
        if i > from {
            r.push('/');
        } else {
            assert(r@ =~= seq![]);
        }
        r = concat(&r, &parts[i]);
        proof {
            if i == from {
                assert(next.len() == 1);
                assert(r@ =~= next[0]);
            } else {
                assert(r@ =~= join_slash(prev) + seq!['/'] + next.last());
            }
        }
        i = i + 1;
    }
    r
}

/// Whether `s` begins with `/`.
pub(crate) fn chars_absolute(s: &Vec<char>) -> (r: bool)
    ensures
        r == is_absolute(s@),
{
    s.len() > 0 && s[0] == '/'
}

/// `p` appended to `base`, as `join` states.
pub(crate) fn join_chars(base: &Vec<char>, p: &Vec<char>) -> (r: Vec<char>)
    ensures
        r@ == join(base@, p@),
{
    if chars_absolute(p) || base.len() == 0 {
        p.clone()
    } else if base[base.len() - 1] == '/' {
        concat(base, p)
    } else {
        let mut b = base.clone();
        b.push('/');
        concat(&b, p)
    }
}

/// Whether `d` is a prefix of `c`.
fn parts_prefix(c: &Vec<Vec<char>>, d: &Vec<Vec<char>>) -> (r: bool)
    ensures
        r == (views(d@).len() <= views(c@).len() && views(c@).take(views(d@).len() as int)
            == views(d@)),
{
    if d.len() > c.len() {
        return false;
    }
    let mut i: usize = 0;
    while i < d.len()
        invariant
            d.len() <= c.len(),
            i <= d.len(),
            views(c@).take(i as int) == views(d@).take(i as int),
        decreases d.len() - i,
    {
        if !chars_eq(&c[i], &d[i]) {
            assert(views(c@).take(d.len() as int)[i as int] == c@[i as int]@);
            assert(views(d@)[i as int] == d@[i as int]@);
            return false;
        }
        assert(views(c@).take(i + 1) =~= views(c@).take(i as int).push(c@[i as int]@));
        assert(views(d@).take(i + 1) =~= views(d@).take(i as int).push(d@[i as int]@));
        i = i + 1;
    }
    assert(views(d@).take(d.len() as int) =~= views(d@));
    true
}

/// Whether `p` lies at or below `dir`.
pub(crate) fn chars_path_starts_with(p: &Vec<char>, dir: &Vec<char>) -> (r: bool)
    ensures
        r == path_starts_with(p@, dir@),
{
    if chars_absolute(p) != chars_absolute(dir) {
        return false;
    }
    let c = components_of(p);
    let d = components_of(dir);
    parts_prefix(&c, &d)
}

/// What is left of `p` below `base`, when it lies there.
pub(crate) fn strip_base_chars(p: &Vec<char>, base: &Vec<char>) -> (r: Option<Vec<char>>)
    ensures
        match strip_base(p@, base@) {
            Some(rest) => r is Some && r->0@ == rest,
            None => r is None,
        },
{
    if !chars_path_starts_with(p, base) {
        return None;
    }
    let c = components_of(p);
    let d = components_of(base);
    let rest = join_parts(&c, d.len(), c.len());
    assert(views(c@).subrange(d.len() as int, c.len() as int) =~= components(p@).skip(
        components(base@).len() as int,
    ));
    Some(rest)
}

/// The final component of `p`, or `p` itself where it has none or ends in `..`.
pub(crate) fn name_chars(p: &Vec<char>) -> (r: Vec<char>)
    ensures
        r@ == name_of(p@),
{
    let c = components_of(p);
    if c.len() > 0 {
        let last = &c[c.len() - 1];
        let dotdot = last.len() == 2 && last[0] == '.' && last[1] == '.';
        proof {
            assert(views(c@).last() == last@);
            if last@ == seq!['.', '.'] {
                assert(last@[0] == '.' && last@[1] == '.');
            }
            if dotdot {
                assert(last@ =~= seq!['.', '.']);
            }
        }
        if !dotdot {
            return last.clone();
        }
    }
    p.clone()
}

/// The path without its final component; none for a root or an empty path.
pub(crate) fn parent_chars(p: &Vec<char>) -> (r: Option<Vec<char>>)
    ensures
        match parent_of(p@) {
            Some(q) => r is Some && r->0@ == q,
            None => r is None,
        },
{
    let c = components_of(p);
    if c.len() == 0 {
        return None;
    }
    let rest = join_parts(&c, 0, c.len() - 1);
    assert(views(c@).subrange(0, c.len() - 1) =~= components(p@).drop_last());
    if chars_absolute(p) {
        let mut root: Vec<char> = Vec::new();
        root.push('/');
        Some(concat(&root, &rest))
    } else {
        Some(rest)
    }
}

} // verus!
