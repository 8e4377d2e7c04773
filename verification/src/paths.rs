//! Unix path text: components, final names, joining, prefixes.
//!
//! A path is read as text split on `/`. Empty pieces (from repeated or
//! trailing separators) and `.` pieces carry no name; every other piece is a
//! normal component. A leading `/` is the root, and a leading `.` piece of a
//! relative path is kept as the current-directory component.

use vstd::prelude::*;
use crate::text::{chars_of, string_of, chars_eq, extend_chars};

verus! {

/// The pieces of `s` between separators, left to right. There is always at
/// least one piece: the text after the last separator (possibly empty).
pub open spec fn split_segs(s: Seq<char>) -> Seq<Seq<char>>
    decreases s.len(),
{
    if s.len() == 0 {
        seq![Seq::<char>::empty()]
    } else {
        let r = split_segs(s.drop_last());
        if s.last() == '/' {
            r.push(Seq::<char>::empty())
        } else {
            r.update(r.len() - 1, r.last().push(s.last()))
        }
    }
}

/// A piece that names something: not empty and not `.`.
pub open spec fn is_normal_seg(seg: Seq<char>) -> bool {
    seg.len() > 0 && seg != seq!['.']
}

/// The pieces that name something, in order.
pub open spec fn keep_normal(segs: Seq<Seq<char>>) -> Seq<Seq<char>>
    decreases segs.len(),
{
    if segs.len() == 0 {
        Seq::<Seq<char>>::empty()
    } else {
        let r = keep_normal(segs.drop_last());
        if is_normal_seg(segs.last()) {
            r.push(segs.last())
        } else {
            r
        }
    }
}

/// The normal components of a path.
pub open spec fn normal_components(s: Seq<char>) -> Seq<Seq<char>> {
    keep_normal(split_segs(s))
}

/// All components of a path: the root (written `/`) when the path starts
/// with a separator, or the current-directory component (written `.`) when
/// its first piece is `.`; then the normal components.
pub open spec fn components(s: Seq<char>) -> Seq<Seq<char>> {
    let head = if s.len() > 0 && s[0] == '/' {
        seq![seq!['/']]
    } else if s.len() > 0 && s[0] == '.' && (s.len() == 1 || s[1] == '/') {
        seq![seq!['.']]
    } else {
        Seq::<Seq<char>>::empty()
    };
    head + normal_components(s)
}

/// The final component of a path when it is a name: `None` when the path has
/// no normal component or ends in `..`.
pub open spec fn file_name(s: Seq<char>) -> Option<Seq<char>> {
    let comps = normal_components(s);
    if comps.len() == 0 || comps.last() == seq!['.', '.'] {
        None
    } else {
        Some(comps.last())
    }
}

/// The name shown for a folder: its final name, or `folder` when it has none.
pub open spec fn spec_basename(s: Seq<char>) -> Seq<char> {
    match file_name(s) {
        Some(n) => n,
        None => seq!['f', 'o', 'l', 'd', 'e', 'r'],
    }
}

/// `path` joined with `name`: an absolute `name` replaces `path`; otherwise
/// `name` is appended, after a separator unless `path` is empty or already
/// ends in one.
pub open spec fn spec_join(path: Seq<char>, name: Seq<char>) -> Seq<char> {
    if name.len() > 0 && name[0] == '/' {
        name
    } else if path.len() == 0 || path.last() == '/' {
        path + name
    } else {
        path.push('/') + name
    }
}

/// Whether the components of `base` are the first components of `path`
/// (whole components only).
pub open spec fn spec_starts_with(path: Seq<char>, base: Seq<char>) -> bool {
    let p = components(path);
    let b = components(base);
    b.len() <= p.len() && p.take(b.len() as int) == b
}

proof fn lemma_split_segs_nonempty(s: Seq<char>)
    ensures
        split_segs(s).len() >= 1,
    decreases s.len(),
{
    if s.len() > 0 {
        lemma_split_segs_nonempty(s.drop_last());
    }
}

/// A single path component that names an entry: not empty, not `.` or
/// `..`, and without separators.
pub open spec fn is_component(n: Seq<char>) -> bool {
    &&& n.len() > 0
    &&& n != seq!['.']
    &&& n != seq!['.', '.']
    &&& no_sep(n)
}

/// A piece of text without separators.
pub open spec fn no_sep(n: Seq<char>) -> bool {
    forall|i: int| 0 <= i < n.len() ==> #[trigger] n[i] != '/'
}

proof fn lemma_split_segs_no_sep(s: Seq<char>)
    ensures
        split_segs(s).len() >= 1,
        forall|i: int| 0 <= i < split_segs(s).len() ==> no_sep(#[trigger] split_segs(s)[i]),
    decreases s.len(),
{
    if s.len() > 0 {
        let t = s.drop_last();
        lemma_split_segs_no_sep(t);
        let r = split_segs(t);
        if s.last() != '/' {
            let last = r.last().push(s.last());
            assert(no_sep(r.last()));
            assert(no_sep(last)) by {
                assert forall|j: int| 0 <= j < last.len() implies #[trigger] last[j] != '/' by {
                    if j < r.last().len() {
                        assert(last[j] == r.last()[j]);
                    }
                }
            }
            assert forall|i: int| 0 <= i < split_segs(s).len() implies no_sep(
                #[trigger] split_segs(s)[i],
            ) by {
                if i < r.len() - 1 {
                    assert(split_segs(s)[i] == r[i]);
                }
            }
        } else {
            assert(no_sep(Seq::<char>::empty()));
            assert forall|i: int| 0 <= i < split_segs(s).len() implies no_sep(
                #[trigger] split_segs(s)[i],
            ) by {
                if i < r.len() {
                    assert(split_segs(s)[i] == r[i]);
                }
            }
        }
    }
}

proof fn lemma_keep_normal_props(segs: Seq<Seq<char>>)
    requires
        forall|i: int| 0 <= i < segs.len() ==> no_sep(#[trigger] segs[i]),
    ensures
        forall|i: int|
            0 <= i < keep_normal(segs).len() ==> no_sep(#[trigger] keep_normal(segs)[i])
                && is_normal_seg(keep_normal(segs)[i]),
    decreases segs.len(),
{
    if segs.len() > 0 {
        let t = segs.drop_last();
        assert forall|i: int| 0 <= i < t.len() implies no_sep(#[trigger] t[i]) by {
            assert(t[i] == segs[i]);
        }
        lemma_keep_normal_props(t);
        let k = keep_normal(segs);
        assert forall|i: int| 0 <= i < k.len() implies no_sep(#[trigger] k[i]) && is_normal_seg(
            k[i],
        ) by {
            if i < keep_normal(t).len() {
                assert(k[i] == keep_normal(t)[i]);
            } else {
                assert(k[i] == segs.last());
                assert(no_sep(segs[segs.len() - 1]));
            }
        }
    }
}

/// The name shown for a folder is a single path component.
pub proof fn lemma_basename_is_component(s: Seq<char>)
    ensures
        is_component(spec_basename(s)),
{
    lemma_split_segs_no_sep(s);
    lemma_keep_normal_props(split_segs(s));
    let comps = normal_components(s);
    if comps.len() > 0 && comps.last() != seq!['.', '.'] {
        assert(no_sep(comps[comps.len() - 1]));
        assert(is_normal_seg(comps[comps.len() - 1]));
    } else {
        let f = seq!['f', 'o', 'l', 'd', 'e', 'r'];
        assert(spec_basename(s) == f);
        assert(f[0] == 'f');
        assert(no_sep(f)) by {
            assert forall|j: int| 0 <= j < f.len() implies #[trigger] f[j] != '/' by {
                assert(f[j] == 'f' || f[j] == 'o' || f[j] == 'l' || f[j] == 'd' || f[j] == 'e'
                    || f[j] == 'r');
            }
        }
    }
}

proof fn lemma_split_segs_append_plain(p: Seq<char>, n: Seq<char>)
    requires
        no_sep(n),
    ensures
        split_segs(p).len() >= 1,
        split_segs(p + n) == split_segs(p).update(
            split_segs(p).len() - 1,
            split_segs(p).last() + n,
        ),
    decreases n.len(),
{
    lemma_split_segs_no_sep(p);
    let r = split_segs(p);
    if n.len() == 0 {
        assert(p + n =~= p);
        assert(r.last() + n =~= r.last());
        assert(r.update(r.len() - 1, r.last()) =~= r);
    } else {
        let m = n.drop_last();
        assert(no_sep(m)) by {
            assert forall|j: int| 0 <= j < m.len() implies #[trigger] m[j] != '/' by {
                assert(m[j] == n[j]);
            }
        }
        lemma_split_segs_append_plain(p, m);
        assert((p + n).drop_last() =~= p + m);
        assert((p + n).last() == n.last());
        assert(n.last() != '/');
        let q = split_segs(p + m);
        lemma_split_segs_no_sep(p + m);
        assert(q.last() =~= r.last() + m);
        assert(split_segs(p + n) == q.update(q.len() - 1, q.last().push(n.last())));
        assert(q.last().push(n.last()) =~= r.last() + n);
        assert(q.update(q.len() - 1, r.last() + n) =~= r.update(r.len() - 1, r.last() + n));
    }
}

/// Joining a directory with a single component names an entry directly
/// inside that directory: its normal components are the directory's,
/// followed by the component, and its final name is the component.
pub proof fn lemma_join_child(dir: Seq<char>, name: Seq<char>)
    requires
        is_component(name),
    ensures
        normal_components(spec_join(dir, name)) == normal_components(dir).push(name),
        file_name(spec_join(dir, name)) == Some(name),
{
    assert(name[0] != '/');
    lemma_split_segs_no_sep(dir);
    if dir.len() == 0 {
        assert(spec_join(dir, name) =~= Seq::<char>::empty() + name);
        lemma_split_segs_append_plain(Seq::<char>::empty(), name);
        assert(split_segs(Seq::<char>::empty()) =~= seq![Seq::<char>::empty()]);
        assert(split_segs(spec_join(dir, name)) =~= seq![name]);
        assert(seq![name].drop_last() =~= Seq::<Seq<char>>::empty());
        assert(dir =~= Seq::<char>::empty());
        let e = seq![Seq::<char>::empty()];
        assert(split_segs(dir) == e);
        assert(e.drop_last() =~= Seq::<Seq<char>>::empty());
        assert(!is_normal_seg(e.last()));
        assert(keep_normal(e) == keep_normal(e.drop_last()));
        assert(normal_components(dir) =~= Seq::<Seq<char>>::empty());
        assert(keep_normal(seq![name]) =~= keep_normal(Seq::<Seq<char>>::empty()).push(name));
    } else {
        let (p, base) = if dir.last() == '/' {
            (dir, dir.drop_last())
        } else {
            (dir.push('/'), dir)
        };
        assert(p.drop_last() =~= base);
        assert(p.last() == '/');
        assert(spec_join(dir, name) == p + name);
        lemma_split_segs_append_plain(p, name);
        let sb = split_segs(base);
        assert(split_segs(p) == sb.push(Seq::<char>::empty()));
        assert(split_segs(p + name) =~= sb.push(name));
        assert(sb.push(name).drop_last() =~= sb);
        assert(keep_normal(sb.push(name)) == keep_normal(sb).push(name));
        assert(sb.push(Seq::<char>::empty()).drop_last() =~= sb);
        assert(keep_normal(sb.push(Seq::<char>::empty())) == keep_normal(sb));
        assert(normal_components(dir) == keep_normal(sb)) by {
            if dir.last() != '/' {
                assert(split_segs(dir) == sb);
            }
        }
    }
}

/// Joining a directory with a single component adds exactly that component
/// to the directory's components (root and leading `.` included).
pub proof fn lemma_join_components(dir: Seq<char>, name: Seq<char>)
    requires
        is_component(name),
    ensures
        components(spec_join(dir, name)) == components(dir).push(name),
{
    lemma_join_child(dir, name);
    let j = spec_join(dir, name);
    assert(name[0] != '/');
    if name.len() > 1 {
        assert(name[1] != '/');
    }
    if dir.len() == 0 {
        assert(j =~= name);
        assert(!(name.len() > 0 && name[0] == '.' && (name.len() == 1 || name[1] == '/'))) by {
            if name.len() == 1 && name[0] == '.' {
                assert(name =~= seq!['.']);
            }
        }
    } else {
        let p = if dir.last() == '/' {
            dir
        } else {
            dir.push('/')
        };
        assert(j == p + name);
        assert(j[0] == dir[0]);
        assert(j.len() > 1);
        if dir.len() >= 2 {
            assert(j[1] == dir[1]);
        } else if dir[0] != '/' {
            assert(j[1] == '/');
        }
    }
    assert(components(j) =~= components(dir).push(name));
}

/// A path inside a directory starts with that directory, and with every
/// directory it starts with.
pub proof fn lemma_child_starts_with_parent(dir: Seq<char>, name: Seq<char>)
    requires
        is_component(name),
    ensures
        spec_starts_with(spec_join(dir, name), dir),
        spec_starts_with(dir, dir),
{
    lemma_join_components(dir, name);
    let c = components(dir);
    assert(c.push(name).take(c.len() as int) =~= c);
    assert(c.take(c.len() as int) =~= c);
}

/// Two different entries of one directory never start with one another:
/// comparing whole components, a sibling is never taken for an ancestor.
pub proof fn lemma_siblings_do_not_start_with_each_other(
    dir: Seq<char>,
    a: Seq<char>,
    b: Seq<char>,
)
    requires
        is_component(a),
        is_component(b),
        a != b,
    ensures
        !spec_starts_with(spec_join(dir, a), spec_join(dir, b)),
{
    lemma_join_components(dir, a);
    lemma_join_components(dir, b);
    let c = components(dir);
    if spec_starts_with(spec_join(dir, a), spec_join(dir, b)) {
        assert(c.push(a).take(c.len() + 1int) =~= c.push(a));
        assert(c.push(a)[c.len() as int] == c.push(b)[c.len() as int]);
    }
}

/// Starting with a base compares every component of the base: `path`
/// starts with `base` exactly when `base` has no more components than
/// `path` and each of them equals the component of `path` at the same
/// position.
pub proof fn lemma_starts_with_meaning(path: Seq<char>, base: Seq<char>)
    ensures
        spec_starts_with(path, base) <==> (components(base).len() <= components(path).len()
            && forall|j: int|
            0 <= j < components(base).len() ==> #[trigger] components(path)[j]
                == components(base)[j]),
{
    let p = components(path);
    let b = components(base);
    if b.len() <= p.len() && (forall|j: int| 0 <= j < b.len() ==> #[trigger] p[j] == b[j]) {
        assert(p.take(b.len() as int) =~= b);
    }
    if spec_starts_with(path, base) {
        assert forall|j: int| 0 <= j < b.len() implies #[trigger] p[j] == b[j] by {
            assert(p.take(b.len() as int)[j] == p[j]);
        }
    }
}

/// `path` names an entry directly inside `dir`.
pub open spec fn is_child_of(path: Seq<char>, dir: Seq<char>) -> bool {
    exists|n: Seq<char>|
        #[trigger] is_component(n) && normal_components(path) == normal_components(dir).push(n)
}

/// The character sequences held by a vector of character vectors.
pub open spec fn seqs_of(v: Seq<Vec<char>>) -> Seq<Seq<char>> {
    v.map_values(|x: Vec<char>| x@)
}

/// Whether a piece names something (see [`is_normal_seg`]).
fn is_normal_piece(piece: &Vec<char>) -> (r: bool)
    ensures
        r == is_normal_seg(piece@),
{
    let r = piece.len() > 0 && !(piece.len() == 1 && piece[0] == '.');
    proof {
        if piece@.len() == 1 && piece@[0] == '.' {
            assert(piece@ =~= seq!['.']);
        }
        if piece@ == seq!['.'] {
            assert(piece@.len() == 1 && piece@[0] == '.');
        }
    }
    r
}

/// The normal components of a path, computed in one pass over its text.
fn normal_components_of(s: &Vec<char>) -> (r: Vec<Vec<char>>)
    ensures
        seqs_of(r@) == normal_components(s@),
{
    let mut out: Vec<Vec<char>> = Vec::new();
    let mut cur: Vec<char> = Vec::new();
    let mut i: usize = 0;
    proof {
        assert(s@.take(0) =~= Seq::<char>::empty());
        assert(split_segs(s@.take(0)).drop_last() =~= Seq::<Seq<char>>::empty());
        assert(seqs_of(out@) =~= Seq::<Seq<char>>::empty());
    }
    while i < s.len()
        invariant
            i <= s.len(),
            split_segs(s@.take(i as int)).len() >= 1,
            cur@ == split_segs(s@.take(i as int)).last(),
            seqs_of(out@) == keep_normal(split_segs(s@.take(i as int)).drop_last()),
        decreases s.len() - i,
    {
        let c = s[i];
        let ghost prev = s@.take(i as int);
        let ghost next = s@.take(i + 1);
        proof {
            assert(next.drop_last() =~= prev);
            assert(next.last() == c);
            lemma_split_segs_nonempty(next);
        }
        if c == '/' {
            let ghost segs = split_segs(prev);
            proof {
                assert(split_segs(next) == segs.push(Seq::<char>::empty()));
                assert(split_segs(next).drop_last() =~= segs);
                assert(segs.drop_last().push(segs.last()) =~= segs);
            }
            let normal = is_normal_piece(&cur);
            if normal {
                let ghost before = seqs_of(out@);
                out.push(cur);
                proof {
                    assert(seqs_of(out@) =~= before.push(segs.last()));
                }
            }
            cur = Vec::new();
            proof {
                assert(cur@ =~= Seq::<char>::empty());
            }
        } else {
            let ghost segs = split_segs(prev);
            proof {
                assert(split_segs(next) == segs.update(segs.len() - 1, segs.last().push(c)));
                assert(split_segs(next).drop_last() =~= segs.drop_last());
            }
            cur.push(c);
        }
        i = i + 1;
    }
    proof {
        assert(s@.take(s.len() as int) =~= s@);
        let segs = split_segs(s@);
        assert(segs.drop_last().push(segs.last()) =~= segs);
    }
    let normal = is_normal_piece(&cur);
    if normal {
        let ghost before = seqs_of(out@);
        out.push(cur);
        proof {
            assert(seqs_of(out@) =~= before.push(split_segs(s@).last()));
        }
    }
    out
}

/// The final name of `path`, or `folder` when it has none (the root, an
/// empty path, a path of `.` pieces only, or one ending in `..`).
pub fn basename(path: &str) -> (r: String)
    ensures
        r@ == spec_basename(path@),
{
    let chars = chars_of(path);
    let comps = normal_components_of(&chars);
    let n = comps.len();
    if n > 0 {
        let last = &comps[n - 1];
        let dotdot = last.len() == 2 && last[0] == '.' && last[1] == '.';
        proof {
            assert(seqs_of(comps@)[n - 1] == last@);
            if last@ == seq!['.', '.'] {
                assert(last@.len() == 2 && last@[0] == '.' && last@[1] == '.');
            }
            if dotdot {
                assert(last@ =~= seq!['.', '.']);
            }
        }
        if !dotdot {
            return string_of(last);
        }
    }
    let r = String::from_str("folder");
    proof {
        reveal_strlit("folder");
        assert(r@ =~= seq!['f', 'o', 'l', 'd', 'e', 'r']);
    }
    r
}


/// All components of a path, as character vectors.
fn components_of(s: &Vec<char>) -> (r: Vec<Vec<char>>)
    ensures
        seqs_of(r@) == components(s@),
{
    let normal = normal_components_of(s);
    let mut r: Vec<Vec<char>> = Vec::new();
    if s.len() > 0 && s[0] == '/' {
        let mut root: Vec<char> = Vec::new();
        root.push('/');
        r.push(root);
        proof {
            assert(seqs_of(r@) =~= seq![seq!['/']]);
        }
    } else if s.len() > 0 && s[0] == '.' && (s.len() == 1 || s[1] == '/') {
        let mut here: Vec<char> = Vec::new();
        here.push('.');
        r.push(here);
        proof {
            assert(seqs_of(r@) =~= seq![seq!['.']]);
        }
    }
    let ghost head = seqs_of(r@);
    let mut i: usize = 0;
    while i < normal.len()
        invariant
            i <= normal.len(),
            seqs_of(r@) == head + seqs_of(normal@).take(i as int),
        decreases normal.len() - i,
    {
        let ghost before = seqs_of(r@);
        let mut copy: Vec<char> = Vec::new();
        extend_chars(&mut copy, &normal[i]);
        r.push(copy);
        proof {
            assert(seqs_of(r@) =~= before.push(copy@));
            assert(seqs_of(normal@).take(i + 1) =~= seqs_of(normal@).take(i as int).push(
                normal@[i as int]@,
            ));
        }
        i = i + 1;
    }
    proof {
        assert(seqs_of(normal@).take(normal.len() as int) =~= seqs_of(normal@));
        if s@.len() > 0 && s@[0] == '/' {
            assert(head =~= seq![seq!['/']]);
        } else if s@.len() > 0 && s@[0] == '.' && (s@.len() == 1 || s@[1] == '/') {
            assert(head =~= seq![seq!['.']]);
        } else {
            assert(head =~= Seq::<Seq<char>>::empty());
        }
    }
    r
}

/// Whether `base` names `path` or one of its ancestors, comparing whole
/// components (so `/a/bc` does not start with `/a/b`).
pub fn path_starts_with(path: &str, base: &str) -> (r: bool)
    ensures
        r == spec_starts_with(path@, base@),
{
    let p = components_of(&chars_of(path));
    let b = components_of(&chars_of(base));
    if b.len() > p.len() {
        return false;
    }
    let mut i: usize = 0;
    while i < b.len()
        invariant
            b.len() <= p.len(),
            i <= b.len(),
            seqs_of(p@) == components(path@),
            seqs_of(b@) == components(base@),
            forall|j: int| 0 <= j < i ==> seqs_of(p@)[j] == seqs_of(b@)[j],
        decreases b.len() - i,
    {
        if !chars_eq(&p[i], &b[i]) {
            proof {
                assert(seqs_of(p@)[i as int] == p@[i as int]@);
                assert(seqs_of(b@)[i as int] == b@[i as int]@);
                let pt = seqs_of(p@).take(b.len() as int);
                assert(pt[i as int] == seqs_of(p@)[i as int]);
                assert(pt[i as int] != seqs_of(b@)[i as int]);
                assert(pt != seqs_of(b@));
                assert(components(path@) == seqs_of(p@));
                assert(components(base@) == seqs_of(b@));
            }
            return false;
        }
        i = i + 1;
    }
    proof {
        assert(seqs_of(p@).take(b.len() as int) =~= seqs_of(b@));
    }
    true
}

/// `path` joined with `name` (see [`spec_join`]).
pub fn join_path(path: &str, name: &str) -> (r: String)
    ensures
        r@ == spec_join(path@, name@),
{
    let p = chars_of(path);
    let n = chars_of(name);
    if n.len() > 0 && n[0] == '/' {
        return string_of(&n);
    }
    let mut out: Vec<char> = Vec::new();
    extend_chars(&mut out, &p);
    if p.len() > 0 && p[p.len() - 1] != '/' {
        out.push('/');
    }
    extend_chars(&mut out, &n);
    string_of(&out)
}

} // verus!
