//! Figure sources: which sources are local relative paths, and how such a path, written
//! relative to the Python file, is rewritten relative to the working directory. Paths follow
//! Unix rules: `/` separates components and a leading `/` is the root.
use vstd::prelude::*;
use crate::metadata::pieces_view;
use crate::text::{
    chars_of, contains, join, push_all, split_char, starts_with, subvec, trim,
};

verus! {

/// Whether a figure source names a local file by a relative path: not empty, not an anchor,
/// not a `data:` URI, not a URL and not absolute.
pub open spec fn is_local_relative(src: Seq<char>) -> bool {
    let t = trim(src);
    &&& t.len() > 0
    &&& !starts_with(t, seq!['#'])
    &&& !starts_with(t, "data:"@)
    &&& !contains(t, "://"@)
    &&& !starts_with(t, seq!['/'])
}

/// The pieces between separators that name something: not empty, not `.`.
pub open spec fn kept_pieces(p: Seq<Seq<char>>) -> Seq<Seq<char>>
    decreases p.len(),
{
    if p.len() == 0 {
        seq![]
    } else {
        let rest = kept_pieces(p.drop_last());
        if p.last().len() == 0 || p.last() == seq!['.'] {
            rest
        } else {
            rest.push(p.last())
        }
    }
}

/// The components of a path as `Path::components` yields them: `/` for the root, `.` only
/// first in a relative path that starts with it, then the names and `..`.
pub open spec fn path_components(s: Seq<char>) -> Seq<Seq<char>> {
    let pieces = split_char(s, '/');
    let lead = if s.len() > 0 && s[0] == '/' {
        seq![seq!['/']]
    } else if pieces.len() > 0 && pieces[0] == seq!['.'] {
        seq![seq!['.']]
    } else {
        seq![]
    };
    lead + kept_pieces(pieces)
}

/// One component applied to a normalized path: the root makes it absolute, `.` does
/// nothing, `..` removes the last name (if any), a name is appended.
pub open spec fn norm_step(st: (bool, Seq<Seq<char>>), x: Seq<char>) -> (bool, Seq<Seq<char>>) {
    if x == seq!['/'] {
        (true, st.1)
    } else if x == seq!['.'] {
        st
    } else if x == seq!['.', '.'] {
        (
            st.0,
            if st.1.len() > 0 {
                st.1.drop_last()
            } else {
                st.1
            },
        )
    } else {
        (st.0, st.1.push(x))
    }
}

/// The components applied in order to `st`.
pub open spec fn norm_fold(st: (bool, Seq<Seq<char>>), c: Seq<Seq<char>>) -> (bool, Seq<Seq<char>>)
    decreases c.len(),
{
    if c.len() == 0 {
        st
    } else {
        norm_step(norm_fold(st, c.drop_last()), c.last())
    }
}

/// Components resolved lexically: the root kept, `.` dropped, `..` removing the name before
/// it (or nothing).
pub open spec fn normalize(c: Seq<Seq<char>>) -> (bool, Seq<Seq<char>>) {
    norm_fold((false, seq![]), c)
}

/// The text of a normalized path.
pub open spec fn path_text(n: (bool, Seq<Seq<char>>)) -> Seq<char> {
    if n.0 {
        seq!['/'] + join(n.1, seq!['/'])
    } else {
        join(n.1, seq!['/'])
    }
}

/// The components of the directory that holds a path; none for the root or an empty path.
pub open spec fn parent_components(c: Seq<Seq<char>>) -> Option<Seq<Seq<char>>> {
    if c.len() == 0 || c.last() == seq!['/'] {
        None
    } else {
        Some(c.drop_last())
    }
}

/// A path made absolute against the working directory (where there is one) and normalized.
pub open spec fn absolutize(c: Seq<Seq<char>>, cwd: Option<Seq<char>>) -> (bool, Seq<Seq<char>>) {
    if c.len() > 0 && c[0] == seq!['/'] {
        normalize(c)
    } else {
        match cwd {
            Some(w) => normalize(path_components(w) + c),
            None => normalize(c),
        }
    }
}

/// The components of a normalized path, the root as `/`.
pub open spec fn full_components(n: (bool, Seq<Seq<char>>)) -> Seq<Seq<char>> {
    if n.0 {
        seq![seq!['/']] + n.1
    } else {
        n.1
    }
}

/// The length of the common prefix of `a` and `b` from `i` on.
pub open spec fn shared_from(a: Seq<Seq<char>>, b: Seq<Seq<char>>, i: int) -> int
    decreases a.len() - i,
{
    if 0 <= i < a.len() && i < b.len() && a[i] == b[i] {
        shared_from(a, b, i + 1)
    } else {
        i
    }
}

/// The path from `from` to `to`: `..` for each component of `from` past the common prefix,
/// then the rest of `to` (`.` where nothing remains); none where the first components differ.
pub open spec fn relative_components(from: (bool, Seq<Seq<char>>), to: (bool, Seq<Seq<char>>)) -> Option<
    Seq<Seq<char>>,
> {
    let f = full_components(from);
    let t = full_components(to);
    if (f.len() > 0) != (t.len() > 0) || (f.len() > 0 && f[0] != t[0]) {
        None
    } else {
        let k = shared_from(f, t, 0);
        let rel = Seq::new((f.len() - k) as nat, |i: int| seq!['.', '.']) + t.skip(k);
        Some(
            if rel.len() == 0 {
                seq![seq!['.']]
            } else {
                rel
            },
        )
    }
}

/// Where a figure source points, as it is written into the Markdown: unchanged unless it is a
/// local relative path and the source file has a directory; else the file's directory joined
/// with it, made absolute, and written relative to the working directory where both share
/// the root.
pub open spec fn resolve_figure_spec(src: Seq<char>, path: Option<Seq<char>>, cwd: Option<Seq<char>>) -> Seq<char> {
    if !is_local_relative(src) {
        src
    } else {
        match path {
            None => src,
            Some(p) => match parent_components(path_components(p)) {
                None => src,
                Some(dir) => {
                    let target = absolutize(dir + path_components(src), cwd);
                    match cwd {
                        Some(w) => match relative_components(
                            absolutize(path_components(w), cwd),
                            target,
                        ) {
                            Some(rel) => join(rel, seq!['/']),
                            None => path_text(target),
                        },
                        None => path_text(target),
                    }
                },
            },
        }
    }
}

fn is_local_relative_chars(src: &[char]) -> (r: bool)
    ensures
        r == is_local_relative(src@),
{
    let t = crate::text::trim_chars(src);
    if t.len() == 0 {
        return false;
    }
    let hash = ['#'];
    let slash = ['/'];
    assert(hash@ == seq!['#']);
    assert(slash@ == seq!['/']);
    !crate::text::starts_with_chars(&t, &hash) && !crate::text::starts_with_str(&t, "data:")
        && !crate::text::contains_str(&t, "://") && !crate::text::starts_with_chars(&t, &slash)
}

fn kept_pieces_exec(p: &Vec<Vec<char>>) -> (r: Vec<Vec<char>>)
    ensures
        pieces_view(r@) == kept_pieces(pieces_view(p@)),
{
    let ghost pv = pieces_view(p@);
    let mut r: Vec<Vec<char>> = Vec::new();
    assert(pv.take(0) =~= Seq::<Seq<char>>::empty());
    assert(pieces_view(r@) =~= Seq::<Seq<char>>::empty());
    for k in 0..p.len()
        invariant
            pv == pieces_view(p@),
            pieces_view(r@) == kept_pieces(pv.take(k as int)),
    {
        assert(pv.take(k + 1).drop_last() =~= pv.take(k as int));
        assert(pv.take(k + 1).last() == p@[k as int]@);
        let dot = ['.'];
        assert(dot@ == seq!['.']);
        if p[k].len() == 0 || crate::text::seq_eq(&p[k], &dot) {
        } else {
            let ghost before = pieces_view(r@);
            let piece = subvec(&p[k], 0, p[k].len());
            assert(piece@ =~= p@[k as int]@);
            r.push(piece);
            assert(pieces_view(r@) =~= before.push(p@[k as int]@));
        }
    }
    assert(pv.take(p@.len() as int) =~= pv);
    r
}

fn single(c: char) -> (r: Vec<char>)
    ensures
        r@ == seq![c],
{
    let mut r: Vec<char> = Vec::new();
    r.push(c);
    r
}

fn path_components_exec(s: &[char]) -> (r: Vec<Vec<char>>)
    ensures
        pieces_view(r@) == path_components(s@),
{
    let parts = crate::text::split_on_char(s, '/');
    let ghost ps = split_char(s@, '/');
    assert(pieces_view(parts@) =~= ps);
    let mut r: Vec<Vec<char>> = Vec::new();
    let dot = ['.'];
    assert(dot@ == seq!['.']);
    if s.len() > 0 && s[0] == '/' {
        r.push(single('/'));
    } else if parts.len() > 0 && crate::text::seq_eq(&parts[0], &dot) {
        r.push(single('.'));
    }
    let ghost lead = pieces_view(r@);
    let kept = kept_pieces_exec(&parts);
    let mut kept = kept;
    let ghost kv = pieces_view(kept@);
    r.append(&mut kept);
    assert(pieces_view(r@) =~= lead + kv);
    r
}

fn normalize_exec(c: &Vec<Vec<char>>) -> (r: (bool, Vec<Vec<char>>))
    ensures
        (r.0, pieces_view(r.1@)) == normalize(pieces_view(c@)),
{
    let ghost cv = pieces_view(c@);
    let mut root = false;
    let mut stack: Vec<Vec<char>> = Vec::new();
    assert(cv.take(0) =~= Seq::<Seq<char>>::empty());
    assert(pieces_view(stack@) =~= Seq::<Seq<char>>::empty());
    let slash = ['/'];
    let dot = ['.'];
    let dots = ['.', '.'];
    assert(slash@ == seq!['/']);
    assert(dot@ == seq!['.']);
    assert(dots@ == seq!['.', '.']);
    for k in 0..c.len()
        invariant
            cv == pieces_view(c@),
            slash@ == seq!['/'],
            dot@ == seq!['.'],
            dots@ == seq!['.', '.'],
            (root, pieces_view(stack@)) == norm_fold((false, seq![]), cv.take(k as int)),
    {
        assert(cv.take(k + 1).drop_last() =~= cv.take(k as int));
        assert(cv.take(k + 1).last() == c@[k as int]@);
        let ghost before = pieces_view(stack@);
        if crate::text::seq_eq(&c[k], &slash) {
            root = true;
        } else if crate::text::seq_eq(&c[k], &dot) {
        } else if crate::text::seq_eq(&c[k], &dots) {
            if stack.len() > 0 {
                stack.pop();
                assert(pieces_view(stack@) =~= before.drop_last());
            }
        } else {
            let piece = subvec(&c[k], 0, c[k].len());
            assert(piece@ =~= c@[k as int]@);
            stack.push(piece);
            assert(pieces_view(stack@) =~= before.push(c@[k as int]@));
        }
    }
    assert(cv.take(c@.len() as int) =~= cv);
    (root, stack)
}

fn path_text_exec(root: bool, stack: &Vec<Vec<char>>) -> (r: Vec<char>)
    ensures
        r@ == path_text((root, pieces_view(stack@))),
{
    let sep = ['/'];
    assert(sep@ == seq!['/']);
    let joined = crate::text::join_chars(stack, &sep);
    assert(stack@.map_values(|p: Vec<char>| p@) =~= pieces_view(stack@));
    if root {
        let mut r = single('/');
        push_all(&mut r, &joined);
        r
    } else {
        joined
    }
}

fn absolutize_exec(c: &Vec<Vec<char>>, cwd: Option<&[char]>) -> (r: (bool, Vec<Vec<char>>))
    ensures
        (r.0, pieces_view(r.1@)) == absolutize(
            pieces_view(c@),
            match cwd {
                Some(w) => Some(w@),
                None => None,
            },
        ),
{
    let slash = ['/'];
    assert(slash@ == seq!['/']);
    if c.len() > 0 && crate::text::seq_eq(&c[0], &slash) {
        return normalize_exec(c);
    }
    match cwd {
        Some(w) => {
            let mut all = path_components_exec(w);
            let ghost a = pieces_view(all@);
            let mut copy = crate::latex::copy_pieces(c);
            all.append(&mut copy);
            assert(pieces_view(all@) =~= a + pieces_view(c@));
            normalize_exec(&all)
        },
        None => normalize_exec(c),
    }
}

fn full_components_exec(root: bool, stack: &Vec<Vec<char>>) -> (r: Vec<Vec<char>>)
    ensures
        pieces_view(r@) == full_components((root, pieces_view(stack@))),
{
    let mut r: Vec<Vec<char>> = Vec::new();
    if root {
        r.push(single('/'));
    }
    let ghost lead = pieces_view(r@);
    let mut copy = crate::latex::copy_pieces(stack);
    r.append(&mut copy);
    assert(pieces_view(r@) =~= lead + pieces_view(stack@));
    assert(root ==> lead =~= seq![seq!['/']]);
    assert(!root ==> lead =~= Seq::<Seq<char>>::empty());
    r
}

fn relative_exec(from: &(bool, Vec<Vec<char>>), to: &(bool, Vec<Vec<char>>)) -> (r: Option<Vec<Vec<char>>>)
    ensures
        match r {
            Some(v) => relative_components(
                (from.0, pieces_view(from.1@)),
                (to.0, pieces_view(to.1@)),
            ) == Some(pieces_view(v@)),
            None => relative_components(
                (from.0, pieces_view(from.1@)),
                (to.0, pieces_view(to.1@)),
            ) is None,
        },
{
    let f = full_components_exec(from.0, &from.1);
    let t = full_components_exec(to.0, &to.1);
    let ghost fv = pieces_view(f@);
    let ghost tv = pieces_view(t@);
    if (f.len() > 0) != (t.len() > 0) {
        return None;
    }
    proof {
        if f@.len() > 0 {
            assert(fv[0] == f@[0]@);
            assert(tv[0] == t@[0]@);
        }
    }
    if f.len() > 0 && !crate::text::seq_eq(&f[0], &t[0]) {
        return None;
    }
    let mut k: usize = 0;
    while k < f.len() && k < t.len() && crate::text::seq_eq(&f[k], &t[k])
        invariant
            k <= f@.len(),
            k <= t@.len(),
            fv == pieces_view(f@),
            tv == pieces_view(t@),
            shared_from(fv, tv, 0) == shared_from(fv, tv, k as int),
        decreases f@.len() - k,
    {
        assert(fv[k as int] == f@[k as int]@);
        assert(tv[k as int] == t@[k as int]@);
        k = k + 1;
    }
    proof {
        if k < f@.len() && k < t@.len() {
            assert(fv[k as int] == f@[k as int]@);
            assert(tv[k as int] == t@[k as int]@);
        }
        assert(shared_from(fv, tv, k as int) == k);
    }
    let mut rel: Vec<Vec<char>> = Vec::new();
    let mut j: usize = k;
    while j < f.len()
        invariant
            k <= j <= f@.len(),
            rel@.len() == j - k,
            forall|i: int| 0 <= i < rel@.len() ==> #[trigger] rel@[i]@ == seq!['.', '.'],
        decreases f@.len() - j,
    {
        let mut dots = single('.');
        dots.push('.');
        assert(dots@ =~= seq!['.', '.']);
        rel.push(dots);
        j = j + 1;
    }
    let ghost ups = pieces_view(rel@);
    assert(ups =~= Seq::new((fv.len() - k) as nat, |i: int| seq!['.', '.']));
    let mut m: usize = k;
    while m < t.len()
        invariant
            k <= m <= t@.len(),
            rel@.len() == ups.len() + (m - k),
            forall|i: int| 0 <= i < ups.len() ==> #[trigger] rel@[i]@ == ups[i],
            forall|i: int| ups.len() <= i < rel@.len() ==> #[trigger] rel@[i]@ == tv[i - ups.len() + k],
            tv == pieces_view(t@),
        decreases t@.len() - m,
    {
        let piece = subvec(&t[m], 0, t[m].len());
        assert(piece@ =~= tv[m as int]);
        rel.push(piece);
        m = m + 1;
    }
    assert(pieces_view(rel@) =~= ups + tv.skip(k as int));
    if rel.len() == 0 {
        let mut one: Vec<Vec<char>> = Vec::new();
        one.push(single('.'));
        assert(pieces_view(one@) =~= seq![seq!['.']]);
        return Some(one);
    }
    Some(rel)
}

/// Rewrites a figure source that is a local relative path, written relative to the source
/// file at `path`, so that it is relative to the working directory `cwd`.
pub fn resolve_figure_src(src: &str, path: Option<&str>, cwd: Option<&str>) -> (r: String)
    ensures
        r@ == resolve_figure_spec(
            src@,
            match path {
                Some(p) => Some(p@),
                None => None,
            },
            match cwd {
                Some(w) => Some(w@),
                None => None,
            },
        ),
{
    let s = chars_of(src);
    if !is_local_relative_chars(&s) {
        return src.to_owned();
    }
    let p = match path {
        Some(p) => chars_of(p),
        None => return src.to_owned(),
    };
    let pc = path_components_exec(&p);
    let n = pc.len();
    if n == 0 {
        return src.to_owned();
    }
    let slash = ['/'];
    assert(slash@ == seq!['/']);
    if crate::text::seq_eq(&pc[n - 1], &slash) {
        return src.to_owned();
    }
    let mut dir = crate::latex::copy_pieces(&pc);
    dir.pop();
    assert(pieces_view(dir@) =~= pieces_view(pc@).drop_last());
    let ghost dv = pieces_view(dir@);
    let mut sc = path_components_exec(&s);
    let ghost scv = pieces_view(sc@);
    dir.append(&mut sc);
    assert(pieces_view(dir@) =~= dv + scv);
    let cwd_chars: Option<Vec<char>> = match cwd {
        Some(w) => Some(chars_of(w)),
        None => None,
    };
    let cw: Option<&[char]> = match &cwd_chars {
        Some(w) => Some(w.as_slice()),
        None => None,
    };
    let target = absolutize_exec(&dir, cw);
    match cw {
        Some(w) => {
            let wc = path_components_exec(w);
            let base = absolutize_exec(&wc, cw);
            match relative_exec(&base, &target) {
                Some(rel) => {
                    let sep = ['/'];
                    assert(sep@ == seq!['/']);
                    let joined = crate::text::join_chars(&rel, &sep);
                    assert(rel@.map_values(|p: Vec<char>| p@) =~= pieces_view(rel@));
                    crate::text::string_of(&joined)
                },
                None => crate::text::string_of(&path_text_exec(target.0, &target.1)),
            }
        },
        None => crate::text::string_of(&path_text_exec(target.0, &target.1)),
    }
}


/// A name: not empty, without a separator, neither `.` nor `..`.
pub open spec fn is_name(x: Seq<char>) -> bool {
    x.len() > 0 && !x.contains('/') && x != seq!['.'] && x != seq!['.', '.']
}

/// A component as `path_components` yields it: the root, or a piece without a separator.
pub open spec fn is_component(x: Seq<char>) -> bool {
    x == seq!['/'] || (x.len() > 0 && !x.contains('/'))
}

/// `n` times `..`.
pub open spec fn ups(n: nat) -> Seq<Seq<char>> {
    Seq::new(n, |i: int| seq!['.', '.'])
}

pub proof fn lemma_fold_append(st: (bool, Seq<Seq<char>>), a: Seq<Seq<char>>, b: Seq<Seq<char>>)
    ensures
        norm_fold(st, a + b) == norm_fold(norm_fold(st, a), b),
    decreases b.len(),
{
    if b.len() == 0 {
        assert(a + b =~= a);
    } else {
        lemma_fold_append(st, a, b.drop_last());
        assert((a + b).drop_last() =~= a + b.drop_last());
        assert((a + b).last() == b.last());
    }
}

pub proof fn lemma_fold_ups(st: (bool, Seq<Seq<char>>), n: nat)
    requires
        n <= st.1.len(),
    ensures
        norm_fold(st, ups(n)) == (st.0, st.1.take(st.1.len() - n)),
    decreases n,
{
    if n == 0 {
        assert(ups(0) =~= Seq::<Seq<char>>::empty());
        assert(st.1.take(st.1.len() as int) =~= st.1);
    } else {
        lemma_fold_ups(st, (n - 1) as nat);
        assert(ups(n).drop_last() =~= ups((n - 1) as nat));
        assert(ups(n).last() == seq!['.', '.']);
        assert(seq!['.', '.'] != seq!['/']) by {
            assert(seq!['.', '.'].len() != seq!['/'].len());
        }
        assert(seq!['.', '.'] != seq!['.']) by {
            assert(seq!['.', '.'].len() != seq!['.'].len());
        }
        assert(st.1.take(st.1.len() - (n - 1)).drop_last() =~= st.1.take(st.1.len() - n));
    }
}

proof fn lemma_name_step(x: Seq<char>)
    requires
        is_name(x),
    ensures
        x != seq!['/'],
{
    if x == seq!['/'] {
        assert(x[0] == '/');
    }
}

pub proof fn lemma_fold_names(st: (bool, Seq<Seq<char>>), names: Seq<Seq<char>>)
    requires
        forall|i: int| 0 <= i < names.len() ==> is_name(#[trigger] names[i]),
    ensures
        norm_fold(st, names) == (st.0, st.1 + names),
    decreases names.len(),
{
    if names.len() == 0 {
        assert(st.1 + names =~= st.1);
    } else {
        lemma_fold_names(st, names.drop_last());
        let x = names.last();
        assert(is_name(names[names.len() - 1]));
        lemma_name_step(x);
        assert((st.1 + names.drop_last()).push(x) =~= st.1 + names);
    }
}

proof fn lemma_fold_root_kept(st: (bool, Seq<Seq<char>>), c: Seq<Seq<char>>)
    requires
        st.0,
    ensures
        norm_fold(st, c).0,
    decreases c.len(),
{
    if c.len() > 0 {
        lemma_fold_root_kept(st, c.drop_last());
    }
}

/// Components that start at the root normalize to an absolute path.
pub proof fn lemma_root_first(st: (bool, Seq<Seq<char>>), c: Seq<Seq<char>>)
    requires
        c.len() > 0,
        c[0] == seq!['/'],
    ensures
        norm_fold(st, c).0,
{
    let first = seq![c[0]];
    assert(first + c.skip(1) =~= c);
    lemma_fold_append(st, first, c.skip(1));
    assert(first.drop_last() =~= Seq::<Seq<char>>::empty());
    lemma_fold_root_kept(norm_fold(st, first), c.skip(1));
}

/// Normalizing components keeps only names on the stack.
pub proof fn lemma_fold_keeps_names(st: (bool, Seq<Seq<char>>), c: Seq<Seq<char>>)
    requires
        forall|i: int| 0 <= i < st.1.len() ==> is_name(#[trigger] st.1[i]),
        forall|i: int| 0 <= i < c.len() ==> is_component(#[trigger] c[i]),
    ensures
        forall|i: int| 0 <= i < norm_fold(st, c).1.len() ==> is_name(#[trigger] norm_fold(st, c).1[i]),
    decreases c.len(),
{
    if c.len() > 0 {
        lemma_fold_keeps_names(st, c.drop_last());
        let prev = norm_fold(st, c.drop_last());
        let x = c.last();
        assert(is_component(c[c.len() - 1]));
        let next = norm_fold(st, c);
        assert forall|i: int| 0 <= i < next.1.len() implies is_name(#[trigger] next.1[i]) by {
            if i < prev.1.len() {
                assert(is_name(prev.1[i]));
            }
        }
    }
}

pub proof fn lemma_split_no_sep(s: Seq<char>, c: char)
    ensures
        forall|i: int|
            0 <= i < crate::text::split_char(s, c).len() ==> !(#[trigger] crate::text::split_char(
                s,
                c,
            )[i]).contains(c),
    decreases s.len(),
{
    if s.len() > 0 {
        lemma_split_no_sep(s.drop_last(), c);
        crate::scan::lemma_split_char_nonempty(s.drop_last(), c);
        let rest = crate::text::split_char(s.drop_last(), c);
        let out = crate::text::split_char(s, c);
        assert forall|i: int| 0 <= i < out.len() implies !(#[trigger] out[i]).contains(c) by {
            if s.last() == c {
                if i < rest.len() {
                    assert(out[i] == rest[i]);
                } else {
                    assert(out[i] =~= Seq::<char>::empty());
                }
            } else if i < rest.len() - 1 {
                assert(out[i] == rest[i]);
            } else {
                let r = rest.last();
                assert(out[i] == r.push(s.last()));
                assert(!r.contains(c));
                if out[i].contains(c) {
                    let j = choose|j: int| 0 <= j < out[i].len() && out[i][j] == c;
                    if j < r.len() {
                        assert(r[j] == c);
                    }
                }
            }
        }
    }
}

proof fn lemma_kept_components(p: Seq<Seq<char>>)
    requires
        forall|j: int| 0 <= j < p.len() ==> !(#[trigger] p[j]).contains('/'),
    ensures
        forall|i: int|
            0 <= i < kept_pieces(p).len() ==> is_component(#[trigger] kept_pieces(p)[i])
                && kept_pieces(p)[i] != seq!['.'],
    decreases p.len(),
{
    if p.len() > 0 {
        assert(!p[p.len() - 1].contains('/'));
        assert forall|j: int| 0 <= j < p.drop_last().len() implies !(#[trigger] p.drop_last()[j]).contains(
            '/',
        ) by {
            assert(p.drop_last()[j] == p[j]);
        }
        lemma_kept_components(p.drop_last());
        let rest = kept_pieces(p.drop_last());
        let k = kept_pieces(p);
        assert forall|i: int| 0 <= i < k.len() implies is_component(#[trigger] k[i]) && k[i] != seq![
            '.',
        ] by {
            if i < rest.len() {
                assert(k[i] == rest[i]);
            } else {
                assert(k[i] == p.last());
            }
        }
    }
}

/// Every component of a path is the root or a piece without a separator.
pub proof fn lemma_components_ok(s: Seq<char>)
    ensures
        forall|i: int| 0 <= i < path_components(s).len() ==> is_component(#[trigger] path_components(s)[i]),
{
    let pieces = crate::text::split_char(s, '/');
    lemma_split_no_sep(s, '/');
    lemma_kept_components(pieces);
    let c = path_components(s);
    let kept = kept_pieces(pieces);
    assert forall|i: int| 0 <= i < c.len() implies is_component(#[trigger] c[i]) by {
        if s.len() > 0 && s[0] == '/' {
            if i > 0 {
                assert(c[i] == kept[i - 1]);
            }
        } else if pieces.len() > 0 && pieces[0] == seq!['.'] {
            if i > 0 {
                assert(c[i] == kept[i - 1]);
            } else {
                assert(c[0] == seq!['.']);
                if c[0].contains('/') {
                    assert(c[0][0] == '.');
                }
            }
        } else {
            assert(c[i] == kept[i]);
        }
    }
}

proof fn lemma_split_single(s: Seq<char>, c: char)
    requires
        !s.contains(c),
    ensures
        crate::text::split_char(s, c) == seq![s],
    decreases s.len(),
{
    if s.len() == 0 {
        assert(s =~= Seq::<char>::empty());
        assert(crate::text::split_char(s, c) =~= seq![s]);
    } else {
        assert(!s.drop_last().contains(c)) by {
            if s.drop_last().contains(c) {
                let j = choose|j: int| 0 <= j < s.drop_last().len() && s.drop_last()[j] == c;
                assert(s[j] == c);
            }
        }
        lemma_split_single(s.drop_last(), c);
        assert(s.last() != c) by {
            assert(s[s.len() - 1] == s.last());
        }
        assert(s.drop_last().push(s.last()) =~= s);
        let rest = crate::text::split_char(s.drop_last(), c);
        assert(rest == seq![s.drop_last()]);
        assert(rest.last() == s.drop_last());
        assert(rest.update(0, s.drop_last().push(s.last())) =~= seq![s]);
    }
}

proof fn lemma_split_concat(a: Seq<char>, b: Seq<char>, c: char)
    ensures
        crate::text::split_char(a + seq![c] + b, c) == crate::text::split_char(a, c)
            + crate::text::split_char(b, c),
    decreases b.len(),
{
    let ac = a + seq![c];
    if b.len() == 0 {
        assert(ac + b =~= ac);
        assert(ac.drop_last() =~= a);
        assert(crate::text::split_char(b, c) =~= seq![Seq::<char>::empty()]);
    } else {
        lemma_split_concat(a, b.drop_last(), c);
        assert((ac + b).drop_last() =~= ac + b.drop_last());
        assert((ac + b).last() == b.last());
        crate::scan::lemma_split_char_nonempty(b.drop_last(), c);
        let sa = crate::text::split_char(a, c);
        let sb = crate::text::split_char(b.drop_last(), c);
        if b.last() == c {
            assert((sa + sb).push(Seq::<char>::empty()) =~= sa + sb.push(Seq::<char>::empty()));
        } else {
            let r = sa + sb;
            assert(r.last() == sb.last());
            assert(r.update(r.len() - 1, r.last().push(b.last())) =~= sa + sb.update(
                sb.len() - 1,
                sb.last().push(b.last()),
            ));
        }
    }
}

proof fn lemma_split_join(rel: Seq<Seq<char>>)
    requires
        rel.len() >= 1,
        forall|i: int| 0 <= i < rel.len() ==> !(#[trigger] rel[i]).contains('/'),
    ensures
        crate::text::split_char(join(rel, seq!['/']), '/') == rel,
    decreases rel.len(),
{
    if rel.len() == 1 {
        assert(!rel[0].contains('/'));
        lemma_split_single(rel[0], '/');
        assert(seq![rel[0]] =~= rel);
    } else {
        lemma_split_join(rel.drop_last());
        assert(!rel[rel.len() - 1].contains('/'));
        lemma_split_single(rel.last(), '/');
        lemma_split_concat(join(rel.drop_last(), seq!['/']), rel.last(), '/');
        assert(rel.drop_last() + seq![rel.last()] =~= rel);
    }
}

proof fn lemma_kept_all(rel: Seq<Seq<char>>)
    requires
        forall|i: int| 0 <= i < rel.len() ==> (#[trigger] rel[i]).len() > 0 && rel[i] != seq!['.'],
    ensures
        kept_pieces(rel) == rel,
    decreases rel.len(),
{
    if rel.len() > 0 {
        assert(rel[rel.len() - 1].len() > 0 && rel[rel.len() - 1] != seq!['.']);
        lemma_kept_all(rel.drop_last());
        assert(rel.drop_last().push(rel.last()) =~= rel);
    }
}

proof fn lemma_join_first(rel: Seq<Seq<char>>)
    requires
        rel.len() >= 1,
        rel[0].len() > 0,
    ensures
        join(rel, seq!['/']).len() > 0,
        join(rel, seq!['/'])[0] == rel[0][0],
    decreases rel.len(),
{
    if rel.len() > 1 {
        lemma_join_first(rel.drop_last());
    }
}

/// The components of relative pieces joined with `/` are the pieces again.
pub proof fn lemma_components_of_join(rel: Seq<Seq<char>>)
    requires
        rel.len() >= 1,
        forall|i: int| 0 <= i < rel.len() ==> (#[trigger] rel[i]).len() > 0 && !rel[i].contains('/'),
        rel == seq![seq!['.']] || forall|i: int| 0 <= i < rel.len() ==> #[trigger] rel[i] != seq!['.'],
    ensures
        path_components(join(rel, seq!['/'])) == rel,
{
    let s = join(rel, seq!['/']);
    assert(rel[0].len() > 0 && !rel[0].contains('/'));
    lemma_join_first(rel);
    assert(s[0] != '/') by {
        if s[0] == '/' {
            assert(rel[0][0] == '/');
        }
    }
    lemma_split_join(rel);
    if rel == seq![seq!['.']] {
        assert(kept_pieces(rel) =~= Seq::<Seq<char>>::empty()) by {
            assert(rel.drop_last() =~= Seq::<Seq<char>>::empty());
            assert(rel.last() == seq!['.']);
            assert(kept_pieces(rel.drop_last()) == Seq::<Seq<char>>::empty());
        }
        assert(path_components(s) =~= rel);
    } else {
        assert(rel[0] != seq!['.']);
        lemma_kept_all(rel);
        assert(path_components(s) =~= rel);
    }
}

/// The common prefix that `shared_from` counts.
pub proof fn lemma_shared(a: Seq<Seq<char>>, b: Seq<Seq<char>>, i: int)
    requires
        0 <= i <= a.len(),
        i <= b.len(),
    ensures
        i <= shared_from(a, b, i) <= a.len(),
        shared_from(a, b, i) <= b.len(),
        forall|j: int| i <= j < shared_from(a, b, i) ==> a[j] == b[j],
        shared_from(a, b, i) < a.len() && shared_from(a, b, i) < b.len() ==> a[shared_from(a, b, i)]
            != b[shared_from(a, b, i)],
    decreases a.len() - i,
{
    if 0 <= i < a.len() && i < b.len() && a[i] == b[i] {
        lemma_shared(a, b, i + 1);
    }
}

} // verus!
