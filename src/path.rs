//! Canonical relative paths and the layout of the spool directory.
use vstd::prelude::*;
use crate::fragment::last_index_of;

verus! {

/// The `/`-separated segments of `p`; an empty `p` has the one empty segment.
pub open spec fn split_segments(p: Seq<char>) -> Seq<Seq<char>>
    decreases p.len(),
{
    let k = last_index_of(p, '/');
    if 0 <= k < p.len() {
        split_segments(p.subrange(0, k)).push(p.subrange(k + 1, p.len() as int))
    } else {
        seq![p]
    }
}

pub open spec fn is_current(seg: Seq<char>) -> bool {
    seg == seq!['.']
}

pub open spec fn is_parent(seg: Seq<char>) -> bool {
    seg == seq!['.', '.']
}

/// A segment that names something: not empty, not `.` or `..`, without `/`.
pub open spec fn is_normal(seg: Seq<char>) -> bool {
    &&& seg.len() > 0
    &&& !is_current(seg)
    &&& !is_parent(seg)
    &&& !seg.contains('/')
}

/// One segment applied to the stack of kept names.
pub open spec fn apply_segment(stack: Seq<Seq<char>>, seg: Seq<char>) -> Seq<Seq<char>> {
    if seg.len() == 0 || is_current(seg) {
        stack
    } else if is_parent(seg) {
        if stack.len() > 0 {
            stack.drop_last()
        } else {
            stack
        }
    } else {
        stack.push(seg)
    }
}

/// Kept names after applying the segments in order.
pub open spec fn resolve(segs: Seq<Seq<char>>) -> Seq<Seq<char>>
    decreases segs.len(),
{
    if segs.len() == 0 {
        Seq::empty()
    } else {
        apply_segment(resolve(segs.drop_last()), segs.last())
    }
}

/// Names joined with `/`.
pub open spec fn join_segments(names: Seq<Seq<char>>) -> Seq<char>
    decreases names.len(),
{
    if names.len() == 0 {
        Seq::empty()
    } else if names.len() == 1 {
        names[0]
    } else {
        join_segments(names.drop_last()) + seq!['/'] + names.last()
    }
}

/// `p` with empty and `.` segments dropped, each `..` taking back the name
/// before it (never rising above the start), and any leading `/` dropped.
pub open spec fn canonical(p: Seq<char>) -> Seq<char> {
    join_segments(resolve(split_segments(p)))
}

/// Where the last `/` of `p[..i]` stands, when `p[start..i]` holds none.
proof fn lemma_last_slash(p: Seq<char>, start: int, i: int)
    requires
        0 <= start <= i <= p.len(),
        start == 0 || p[start - 1] == '/',
        forall|j: int| start <= j < i ==> p[j] != '/',
    ensures
        last_index_of(p.subrange(0, i), '/') == start - 1,
    decreases i - start,
{
    if i > start {
        assert(p.subrange(0, i).drop_last() == p.subrange(0, i - 1));
        lemma_last_slash(p, start, i - 1);
    } else if start > 0 {
        assert(p.subrange(0, i).last() == '/');
    } else {
        assert(p.subrange(0, i).len() == 0);
    }
}

proof fn lemma_split_at_slash(p: Seq<char>, start: int, i: int)
    requires
        0 <= start <= i <= p.len(),
        start == 0 || p[start - 1] == '/',
        forall|j: int| start <= j < i ==> p[j] != '/',
    ensures
        split_segments(p.subrange(0, i)) == (if start == 0 {
            Seq::<Seq<char>>::empty()
        } else {
            split_segments(p.subrange(0, start - 1))
        }).push(p.subrange(start, i)),
{
    lemma_last_slash(p, start, i);
    let q = p.subrange(0, i);
    if start > 0 {
        assert(q.subrange(0, start - 1) == p.subrange(0, start - 1));
        assert(q.subrange(start, i) == p.subrange(start, i));
    } else {
        assert(Seq::<Seq<char>>::empty().push(q) == seq![q]);
    }
}

/// Compares `s` with a literal of one or two dots.
fn is_dots(s: &str, n: usize) -> (r: bool)
    requires
        n == 1 || n == 2,
    ensures
        r == (if n == 1 { is_current(s@) } else { is_parent(s@) }),
{
    let len = s.unicode_len();
    if len != n {
        return false;
    }
    if s.get_char(0) != '.' {
        return false;
    }
    if n == 2 && s.get_char(1) != '.' {
        return false;
    }
    if n == 1 {
        assert(s@ =~= seq!['.']);
    } else {
        assert(s@ =~= seq!['.', '.']);
    }
    true
}

/// Joins `names` with `/`.
fn join_names(names: &Vec<String>) -> (r: String)
    ensures
        r@ == join_segments(names@.map_values(|s: String| s@)),
{
    let ghost v = names@.map_values(|s: String| s@);
    let mut out = String::new();
    let mut k: usize = 0;
    while k < names.len()
        invariant
            k <= names.len(),
            v == names@.map_values(|s: String| s@),
            out@ == join_segments(v.subrange(0, k as int)),
        decreases names.len() - k,
    {
        let ghost before = out@;
        if k > 0 {
            out.append("/");
        }
        out.append(names[k].as_str());
        proof {
            reveal_strlit("/");
            let w = v.subrange(0, k + 1);
            assert(w.drop_last() == v.subrange(0, k as int));
            assert(w.last() == names@[k as int]@);
            if k == 0 {
                assert(out@ =~= w[0]);
            } else {
                assert(out@ =~= join_segments(w.drop_last()) + seq!['/'] + w.last());
            }
        }
        k += 1;
    }
    assert(v.subrange(0, names.len() as int) == v);
    out
}

fn push_segment(names: &mut Vec<String>, seg: &str)
    ensures
        final(names)@.map_values(|s: String| s@) == apply_segment(
            old(names)@.map_values(|s: String| s@),
            seg@,
        ),
{
    let ghost before = names@.map_values(|s: String| s@);
    if seg.unicode_len() == 0 || is_dots(seg, 1) {
    } else if is_dots(seg, 2) {
        if names.len() > 0 {
            names.pop();
        }
    } else {
        names.push(String::from_str(seg));
    }
    assert(names@.map_values(|s: String| s@) =~= apply_segment(before, seg@));
}

/// The relative form of `path`: names are kept, `.` and empty segments are
/// dropped, `..` takes back the name before it and never rises above the
/// start, and a leading `/` is dropped.
pub fn canonical_relative_path(path: &str) -> (r: String)
    ensures
        r@ == canonical(path@),
{
    let n = path.unicode_len();
    let mut names: Vec<String> = Vec::new();
    let mut start: usize = 0;
    let mut i: usize = 0;
    while i < n
        invariant
            start <= i <= n,
            n == path@.len(),
            start == 0 || path@[start - 1] == '/',
            forall|j: int| start <= j < i ==> path@[j] != '/',
            names@.map_values(|s: String| s@) == resolve(
                if start == 0 {
                    Seq::<Seq<char>>::empty()
                } else {
                    split_segments(path@.subrange(0, start - 1))
                },
            ),
        decreases n - i,
    {
        if path.get_char(i) == '/' {
            let seg = path.substring_char(start, i);
            proof {
                lemma_split_at_slash(path@, start as int, i as int);
                let segs = split_segments(path@.subrange(0, i as int));
                assert(segs.drop_last() == (if start == 0 {
                    Seq::<Seq<char>>::empty()
                } else {
                    split_segments(path@.subrange(0, start - 1))
                }));
            }
            push_segment(&mut names, seg);
            start = i + 1;
        }
        i += 1;
    }
    let seg = path.substring_char(start, n);
    proof {
        lemma_split_at_slash(path@, start as int, n as int);
        assert(path@.subrange(0, n as int) == path@);
        let segs = split_segments(path@);
        assert(segs.drop_last() == (if start == 0 {
            Seq::<Seq<char>>::empty()
        } else {
            split_segments(path@.subrange(0, start - 1))
        }));
    }
    push_segment(&mut names, seg);
    join_names(&names)
}

proof fn lemma_after_last(s: Seq<char>, c: char)
    ensures
        -1 <= last_index_of(s, c) < s.len(),
        last_index_of(s, c) >= 0 ==> s[last_index_of(s, c)] == c,
        forall|j: int| last_index_of(s, c) < j < s.len() ==> s[j] != c,
    decreases s.len(),
{
    if s.len() > 0 && s.last() != c {
        lemma_after_last(s.drop_last(), c);
        let t = s.drop_last();
        assert forall|j: int| last_index_of(s, c) < j < s.len() implies s[j] != c by {
            if j < s.len() - 1 {
                assert(t[j] == s[j]);
            }
        }
    }
}

proof fn lemma_no_slash_last_index(s: Seq<char>)
    requires
        !s.contains('/'),
    ensures
        last_index_of(s, '/') == -1,
    decreases s.len(),
{
    if s.len() > 0 {
        assert(s[s.len() - 1] != '/');
        let t = s.drop_last();
        assert(!t.contains('/')) by {
            if t.contains('/') {
                let j = choose|j: int| 0 <= j < t.len() && t[j] == '/';
                assert(s[j] == '/');
            }
        }
        lemma_no_slash_last_index(t);
    }
}

proof fn lemma_last_index_join(a: Seq<char>, b: Seq<char>)
    requires
        !b.contains('/'),
    ensures
        last_index_of(a + seq!['/'] + b, '/') == a.len(),
    decreases b.len(),
{
    let s = a + seq!['/'] + b;
    if b.len() == 0 {
        assert(s.last() == '/');
    } else {
        assert(b[b.len() - 1] != '/');
        let t = b.drop_last();
        assert(!t.contains('/')) by {
            if t.contains('/') {
                let j = choose|j: int| 0 <= j < t.len() && t[j] == '/';
                assert(b[j] == '/');
            }
        }
        assert(s.drop_last() == a + seq!['/'] + t);
        lemma_last_index_join(a, t);
    }
}

proof fn lemma_split_no_slash(p: Seq<char>)
    ensures
        forall|i: int|
            0 <= i < split_segments(p).len() ==> !(#[trigger] split_segments(p)[i]).contains('/'),
    decreases p.len(),
{
    let k = last_index_of(p, '/');
    lemma_after_last(p, '/');
    if 0 <= k < p.len() {
        lemma_split_no_slash(p.subrange(0, k));
        let tail = p.subrange(k + 1, p.len() as int);
        assert(!tail.contains('/')) by {
            if tail.contains('/') {
                let j = choose|j: int| 0 <= j < tail.len() && tail[j] == '/';
                assert(p[k + 1 + j] == '/');
            }
        }
        let pre = split_segments(p.subrange(0, k));
        assert(split_segments(p) == pre.push(tail));
        assert forall|i: int| 0 <= i < split_segments(p).len() implies !(
        #[trigger] split_segments(p)[i]).contains('/') by {
            if i < pre.len() {
                assert(split_segments(p)[i] == pre[i]);
            }
        }
    } else {
        assert(!p.contains('/')) by {
            if p.contains('/') {
                let j = choose|j: int| 0 <= j < p.len() && p[j] == '/';
            }
        }
    }
}

proof fn lemma_resolve_normal(segs: Seq<Seq<char>>)
    requires
        forall|i: int| 0 <= i < segs.len() ==> !(#[trigger] segs[i]).contains('/'),
    ensures
        forall|i: int| 0 <= i < resolve(segs).len() ==> is_normal(#[trigger] resolve(segs)[i]),
    decreases segs.len(),
{
    if segs.len() > 0 {
        let init = segs.drop_last();
        assert forall|i: int| 0 <= i < init.len() implies !(#[trigger] init[i]).contains('/') by {
            assert(init[i] == segs[i]);
        }
        lemma_resolve_normal(init);
        assert(!segs[segs.len() - 1].contains('/'));
        let r0 = resolve(init);
        let r = resolve(segs);
        assert forall|i: int| 0 <= i < r.len() implies is_normal(#[trigger] r[i]) by {
            if i < r0.len() {
                assert(r[i] == r0[i]);
            }
        }
    }
}

proof fn lemma_resolve_of_normal(names: Seq<Seq<char>>)
    requires
        forall|i: int| 0 <= i < names.len() ==> is_normal(#[trigger] names[i]),
    ensures
        resolve(names) == names,
    decreases names.len(),
{
    if names.len() > 0 {
        let init = names.drop_last();
        assert forall|i: int| 0 <= i < init.len() implies is_normal(#[trigger] init[i]) by {
            assert(init[i] == names[i]);
        }
        lemma_resolve_of_normal(init);
        assert(is_normal(names[names.len() - 1]));
        assert(init.push(names.last()) == names);
    }
}

pub proof fn lemma_split_join(names: Seq<Seq<char>>)
    requires
        names.len() > 0,
        forall|i: int| 0 <= i < names.len() ==> is_normal(#[trigger] names[i]),
    ensures
        split_segments(join_segments(names)) == names,
        join_segments(names).len() > 0,
        join_segments(names)[0] == names[0][0],
    decreases names.len(),
{
    if names.len() == 1 {
        assert(is_normal(names[0]));
        lemma_no_slash_last_index(names[0]);
        assert(seq![names[0]] == names);
    } else {
        let init = names.drop_last();
        assert forall|i: int| 0 <= i < init.len() implies is_normal(#[trigger] init[i]) by {
            assert(init[i] == names[i]);
        }
        lemma_split_join(init);
        let a = join_segments(init);
        let b = names.last();
        assert(is_normal(names[names.len() - 1]));
        lemma_last_index_join(a, b);
        let s = a + seq!['/'] + b;
        assert(s.subrange(0, a.len() as int) == a);
        assert(s.subrange(a.len() as int + 1, s.len() as int) == b);
        assert(init.push(b) == names);
        assert(init[0] == names[0]);
    }
}

/// The canonical form is relative and names only: it never starts with `/`,
/// none of its segments is empty, `.` or `..`, so it cannot climb above the
/// directory it is joined to; and making it canonical again changes nothing.
pub proof fn lemma_canonical_relative_path(p: Seq<char>)
    ensures
        canonical(canonical(p)) == canonical(p),
        canonical(p).len() > 0 ==> canonical(p)[0] != '/',
        canonical(p).len() > 0 ==> forall|i: int|
            0 <= i < split_segments(canonical(p)).len() ==> is_normal(
                #[trigger] split_segments(canonical(p))[i],
            ),
{
    let names = resolve(split_segments(p));
    lemma_split_no_slash(p);
    lemma_resolve_normal(split_segments(p));
    if names.len() == 0 {
        let e = Seq::<char>::empty();
        assert(last_index_of(e, '/') == -1);
        assert(split_segments(e) == seq![e]);
        assert(seq![e].drop_last() == Seq::<Seq<char>>::empty());
        assert(seq![e].last() == e);
        assert(resolve(Seq::<Seq<char>>::empty()) == Seq::<Seq<char>>::empty());
        assert(resolve(seq![e]) == Seq::<Seq<char>>::empty());
    } else {
        lemma_split_join(names);
        lemma_resolve_of_normal(names);
        assert(is_normal(names[0]));
        assert(names[0][0] != '/') by {
            if names[0][0] == '/' {
                assert(names[0].contains('/'));
            }
        }
    }
}

/// Joining two non-empty lists of names is joining each, with `/` between.
pub proof fn lemma_join_concat(a: Seq<Seq<char>>, b: Seq<Seq<char>>)
    requires
        a.len() > 0,
        b.len() > 0,
    ensures
        join_segments(a + b) == join_segments(a) + seq!['/'] + join_segments(b),
    decreases b.len(),
{
    if b.len() == 1 {
        assert((a + b).drop_last() == a);
        assert(join_segments(b) == b[0]);
    } else {
        lemma_join_concat(a, b.drop_last());
        assert((a + b).drop_last() == a + b.drop_last());
        assert((a + b).last() == b.last());
    }
}

/// The canonical form of `p` joins the kept names, all of them normal, and
/// is empty exactly when there are none.
pub proof fn lemma_canonical_names(p: Seq<char>)
    ensures
        canonical(p) == join_segments(resolve(split_segments(p))),
        forall|i: int|
            0 <= i < resolve(split_segments(p)).len() ==> is_normal(
                #[trigger] resolve(split_segments(p))[i],
            ),
        (canonical(p).len() == 0) == (resolve(split_segments(p)).len() == 0),
{
    lemma_split_no_slash(p);
    lemma_resolve_normal(split_segments(p));
    let names = resolve(split_segments(p));
    if names.len() > 0 {
        lemma_split_join(names);
    }
}

} // verus!
