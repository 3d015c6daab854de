//! Paths as text, with `/` between their components.
//!
//! A path may start at the root (`/music/kick.wav`), at the current directory spelled out
//! (`./kick.wav`) or anywhere else (`music/kick.wav`). Behind that start, repeated separators,
//! components that are a single dot, and a trailing separator carry no meaning.

use crate::text::chars_of;
use vstd::prelude::*;
use vstd::string::*;

verus! {

/// The path starts at the root.
pub open spec fn is_rooted(p: Seq<char>) -> bool {
    p.len() > 0 && p[0] == '/'
}

/// The path starts with a component that is a single dot.
pub open spec fn is_dotted(p: Seq<char>) -> bool {
    p.len() > 0 && p[0] == '.' && (p.len() == 1 || p[1] == '/')
}

/// The length of the start that says where the path begins.
pub open spec fn head_len(p: Seq<char>) -> int {
    if is_rooted(p) || is_dotted(p) {
        1
    } else {
        0
    }
}

/// The last position of `c` in `s`, at `from` or later; -1 where there is none.
pub open spec fn last_position(s: Seq<char>, c: char, from: int) -> int
    decreases s.len(),
{
    if s.len() == 0 || s.len() <= from {
        -1
    } else if s.last() == c {
        s.len() - 1
    } else {
        last_position(s.drop_last(), c, from)
    }
}

/// Where the last component of `p` and the separator before it begin, behind a start of length `b`.
pub open spec fn cut(p: Seq<char>, b: int) -> int {
    let i = last_position(p, '/', b);
    if i >= b {
        i
    } else {
        b
    }
}

/// What stands behind the last separator of `p`, or behind its start of length `b`.
pub open spec fn last_segment(p: Seq<char>, b: int) -> Seq<char> {
    let i = last_position(p, '/', b);
    if i >= b {
        p.skip(i + 1)
    } else {
        p.skip(b)
    }
}

/// A segment that carries no meaning.
pub open spec fn is_idle(segment: Seq<char>) -> bool {
    segment.len() == 0 || segment == seq!['.']
}

/// `p` without what carries no meaning at its end.
pub open spec fn strip(p: Seq<char>, b: int) -> Seq<char>
    decreases p.len(),
{
    if 0 <= b < p.len() && is_idle(last_segment(p, b)) {
        proof {
            last_position_bounds(p, '/', b);
        }
        strip(p.take(cut(p, b)), b)
    } else {
        p
    }
}

/// The components of `p` behind its start of length `b`.
pub open spec fn body(p: Seq<char>, b: int) -> Seq<Seq<char>>
    decreases p.len(),
{
    let t = strip(p, b);
    if 0 <= b < t.len() {
        proof {
            strip_is_prefix(p, b);
            last_position_bounds(t, '/', b);
        }
        body(t.take(cut(t, b)), b).push(last_segment(t, b))
    } else {
        Seq::empty()
    }
}

/// The components of a path; the root is the empty component.
pub open spec fn components(p: Seq<char>) -> Seq<Seq<char>> {
    let head = if is_rooted(p) {
        seq![Seq::<char>::empty()]
    } else if is_dotted(p) {
        seq![seq!['.']]
    } else {
        Seq::<Seq<char>>::empty()
    };
    head + body(p, head_len(p))
}

/// The path without its last component; a path that is the root or empty has none.
pub open spec fn parent(p: Seq<char>) -> Option<Seq<char>> {
    let b = head_len(p);
    let t = strip(p, b);
    if t.len() > b {
        Some(strip(t.take(cut(t, b)), b))
    } else if is_dotted(p) {
        Some(Seq::empty())
    } else {
        None
    }
}

/// The last component, where it is the name of something.
pub open spec fn file_name(p: Seq<char>) -> Option<Seq<char>> {
    let b = head_len(p);
    let t = strip(p, b);
    if t.len() > b && last_segment(t, b) != seq!['.', '.'] {
        Some(last_segment(t, b))
    } else {
        None
    }
}

/// What stands behind the last dot of the file name; a name whose only dot comes first has none.
pub open spec fn extension(p: Seq<char>) -> Option<Seq<char>> {
    match file_name(p) {
        Some(name) => if last_position(name, '.', 0) > 0 {
            Some(name.skip(last_position(name, '.', 0) + 1))
        } else {
            None
        },
        None => None,
    }
}

/// The folders that hold `p`, innermost first, up to but not including the root or the start.
pub open spec fn ancestors(p: Seq<char>) -> Seq<Seq<char>>
    decreases p.len(),
{
    match parent(p) {
        Some(q) => if q.len() > 0 && parent(q) is Some {
            proof {
                parent_is_proper_prefix(p);
            }
            seq![q] + ancestors(q)
        } else {
            Seq::empty()
        },
        None => Seq::empty(),
    }
}

/// Two spellings of the same path.
pub open spec fn same_path(p: Seq<char>, q: Seq<char>) -> bool {
    components(p) == components(q)
}

/// Components written one after the other, each with a separator behind it.
pub open spec fn joined(cs: Seq<Seq<char>>) -> Seq<char>
    decreases cs.len(),
{
    if cs.len() == 0 {
        Seq::empty()
    } else {
        joined(cs.drop_last()) + cs.last() + seq!['/']
    }
}

/// The one spelling that all spellings of a path share.
pub open spec fn path_key(p: Seq<char>) -> Seq<char> {
    joined(components(p))
}

/// The last position found holds the character, and no later position does.
pub proof fn last_position_bounds(s: Seq<char>, c: char, from: int)
    requires
        0 <= from,
    ensures
        last_position(s, c, from) == -1 || from <= last_position(s, c, from) < s.len(),
        last_position(s, c, from) >= 0 ==> s[last_position(s, c, from)] == c,
        forall|k: int|
            from <= k < s.len() && k > last_position(s, c, from) ==> #[trigger] s[k] != c,
    decreases s.len(),
{
    if s.len() > from && s.last() != c {
        last_position_bounds(s.drop_last(), c, from);
        assert forall|k: int|
            from <= k < s.len() && k > last_position(s, c, from) implies #[trigger] s[k] != c by {
            if k < s.len() - 1 {
                assert(s.drop_last()[k] != c);
            }
        }
    }
}

/// Stripping leaves a beginning of the path that no longer ends in something idle.
pub proof fn strip_is_prefix(p: Seq<char>, b: int)
    ensures
        strip(p, b).len() <= p.len(),
        strip(p, b) == p.take(strip(p, b).len() as int),
        0 <= b <= p.len() ==> b <= strip(p, b).len(),
        0 <= b < strip(p, b).len() ==> !is_idle(last_segment(strip(p, b), b)),
    decreases p.len(),
{
    if 0 <= b < p.len() && is_idle(last_segment(p, b)) {
        last_position_bounds(p, '/', b);
        let q = p.take(cut(p, b));
        strip_is_prefix(q, b);
        assert(strip(p, b) =~= p.take(strip(p, b).len() as int));
    } else {
        assert(p =~= p.take(p.len() as int));
    }
}

/// A parent is a shorter beginning of the path.
pub proof fn parent_is_proper_prefix(p: Seq<char>)
    ensures
        parent(p) matches Some(q) ==> q.is_prefix_of(p) && q.len() < p.len(),
{
    let b = head_len(p);
    let t = strip(p, b);
    strip_is_prefix(p, b);
    if t.len() > b {
        last_position_bounds(t, '/', b);
        let u = t.take(cut(t, b));
        strip_is_prefix(u, b);
        let q = strip(u, b);
        assert(q =~= p.take(q.len() as int));
    }
}

proof fn strip_idempotent(p: Seq<char>, b: int)
    ensures
        strip(strip(p, b), b) == strip(p, b),
        body(strip(p, b), b) == body(p, b),
    decreases p.len(),
{
    if 0 <= b < p.len() && is_idle(last_segment(p, b)) {
        last_position_bounds(p, '/', b);
        strip_idempotent(p.take(cut(p, b)), b);
    }
}

/// A beginning of a path that keeps its start, and does not cut a name in two, starts alike.
proof fn prefix_keeps_head(p: Seq<char>, n: int)
    requires
        head_len(p) <= n <= p.len(),
        n == 0 || n == head_len(p) || n == p.len() || p[n] == '/',
    ensures
        head_len(p.take(n)) == head_len(p),
        is_rooted(p.take(n)) == is_rooted(p),
        is_dotted(p.take(n)) == is_dotted(p),
{
}

/// The part of a path that `strip` leaves ends where the path does, or at a separator, or at the
/// end of its start.
proof fn strip_ends_at_separator(p: Seq<char>, b: int)
    requires
        0 <= b <= p.len(),
    ensures
        strip(p, b).len() == p.len() || strip(p, b).len() == b || p[strip(p, b).len() as int]
            == '/',
    decreases p.len(),
{
    if 0 <= b < p.len() && is_idle(last_segment(p, b)) {
        last_position_bounds(p, '/', b);
        let q = p.take(cut(p, b));
        strip_ends_at_separator(q, b);
        strip_is_prefix(q, b);
    }
}

/// A separator stands behind a parent that is neither the root nor the start.
pub proof fn a_separator_follows_the_parent(p: Seq<char>)
    requires
        parent(p) matches Some(q) && parent(q) is Some,
    ensures
        p[(parent(p)->0).len() as int] == '/',
{
    let b = head_len(p);
    let t = strip(p, b);
    let q = parent(p)->0;
    strip_is_prefix(p, b);
    parent_is_proper_prefix(p);
    assert(q.len() > 0) by {
        if q.len() == 0 {
            parent_is_proper_prefix(q);
        }
    }
    if t.len() > b {
        last_position_bounds(t, '/', b);
        let u = t.take(cut(t, b));
        strip_is_prefix(u, b);
        strip_ends_at_separator(u, b);
        if q.len() == b && is_rooted(p) {
            assert(q =~= seq!['/']);
            strip_is_prefix(q, 1);
            assert(parent(q) is None);
        }
    }
}

/// Taking the parent of a path takes away its last component and nothing else, and a path has a
/// parent exactly if it has a component other than the root.
pub proof fn parent_drops_last_component(p: Seq<char>)
    ensures
        parent(p) is Some <==> components(p).len() > 0 && components(p) != seq![
            Seq::<char>::empty(),
        ],
        parent(p) matches Some(q) ==> components(q) == components(p).drop_last(),
{
    let b = head_len(p);
    let t = strip(p, b);
    strip_is_prefix(p, b);
    if t.len() > b {
        last_position_bounds(t, '/', b);
        strip_ends_at_separator(p, b);
        let u = t.take(cut(t, b));
        let q = strip(u, b);
        strip_is_prefix(u, b);
        strip_ends_at_separator(u, b);
        strip_idempotent(u, b);
        assert(q =~= p.take(q.len() as int));
        prefix_keeps_head(p, q.len() as int);
        assert(body(q, b) == body(u, b));
        assert(body(p, b) == body(u, b).push(last_segment(t, b)));
        assert(components(q) =~= components(p).drop_last());
        let last = components(p).last();
        assert(last == last_segment(t, b));
        assert(last.len() > 0);
        if components(p) == seq![Seq::<char>::empty()] {
            assert(last == Seq::<char>::empty());
        }
    } else if is_dotted(p) {
        assert(components(p).last() =~= seq!['.']);
        assert(components(p).last().len() == 1);
        assert(components(Seq::<char>::empty()) =~= components(p).drop_last());
        if components(p) == seq![Seq::<char>::empty()] {
            assert(components(p).last() == Seq::<char>::empty());
        }
    } else {
        if is_rooted(p) {
            assert(components(p) =~= seq![Seq::<char>::empty()]);
        }
    }
}

/// A file name is the last component of its path.
pub proof fn file_name_is_last_component(p: Seq<char>)
    ensures
        file_name(p) matches Some(name) ==> components(p).len() > 0 && components(p).last() == name
            && name.len() > 0 && !name.contains('/'),
{
    let b = head_len(p);
    let t = strip(p, b);
    strip_is_prefix(p, b);
    if t.len() > b {
        last_position_bounds(t, '/', b);
        let name = last_segment(t, b);
        assert(components(p).last() == name);
        assert forall|k: int| 0 <= k < name.len() implies name[k] != '/' by {
            assert(t[t.len() - name.len() + k] == name[k]);
        }
    }
}

/// No component holds a separator.
proof fn body_has_no_separator(p: Seq<char>, b: int)
    requires
        0 <= b,
    ensures
        forall|i: int| 0 <= i < body(p, b).len() ==> !(#[trigger] body(p, b)[i]).contains('/'),
    decreases p.len(),
{
    let t = strip(p, b);
    strip_is_prefix(p, b);
    if b < t.len() {
        last_position_bounds(t, '/', b);
        let u = t.take(cut(t, b));
        body_has_no_separator(u, b);
        let name = last_segment(t, b);
        assert forall|k: int| 0 <= k < name.len() implies name[k] != '/' by {
            assert(t[t.len() - name.len() + k] == name[k]);
        }
        assert forall|i: int| 0 <= i < body(p, b).len() implies !(#[trigger] body(p, b)[i]).contains(
            '/',
        ) by {
            if i < body(u, b).len() {
                assert(body(p, b)[i] == body(u, b)[i]);
            } else {
                assert(body(p, b)[i] == name);
            }
        }
    }
}

proof fn joined_ends_with_separator(cs: Seq<Seq<char>>)
    ensures
        cs.len() == 0 <==> joined(cs).len() == 0,
        cs.len() > 0 ==> joined(cs).last() == '/',
{
}

proof fn joined_injective(a: Seq<Seq<char>>, b: Seq<Seq<char>>)
    requires
        forall|i: int| 0 <= i < a.len() ==> !(#[trigger] a[i]).contains('/'),
        forall|i: int| 0 <= i < b.len() ==> !(#[trigger] b[i]).contains('/'),
        joined(a) == joined(b),
    ensures
        a == b,
    decreases a.len(),
{
    joined_ends_with_separator(a);
    joined_ends_with_separator(b);
    if a.len() > 0 {
        let ja = joined(a.drop_last());
        let jb = joined(b.drop_last());
        joined_ends_with_separator(a.drop_last());
        joined_ends_with_separator(b.drop_last());
        let ca = a.last();
        let cb = b.last();
        let whole = joined(a);
        assert(whole.len() == ja.len() + ca.len() + 1);
        assert(whole.len() == jb.len() + cb.len() + 1);
        if ca.len() < cb.len() {
            let k = ja.len() - 1;
            assert(ja.len() > 0);
            assert(whole[k] == '/');
            assert(whole[k] == cb[k - jb.len()]);
            assert(cb.contains('/'));
        } else if cb.len() < ca.len() {
            let k = jb.len() - 1;
            assert(jb.len() > 0);
            assert(whole[k] == '/');
            assert(whole[k] == ca[k - ja.len()]);
            assert(ca.contains('/'));
        }
        assert(ja =~= whole.take(ja.len() as int));
        assert(jb =~= whole.take(ja.len() as int));
        assert(ca =~= whole.subrange(ja.len() as int, (ja.len() + ca.len()) as int));
        assert(cb =~= whole.subrange(ja.len() as int, (ja.len() + ca.len()) as int));
        joined_injective(a.drop_last(), b.drop_last());
        assert(a =~= a.drop_last().push(ca));
        assert(b =~= b.drop_last().push(cb));
    } else {
        assert(a =~= b);
    }
}

/// Two texts spell the same path exactly if they have the same key.
pub proof fn path_key_identifies(p: Seq<char>, q: Seq<char>)
    ensures
        same_path(p, q) <==> path_key(p) == path_key(q),
{
    if path_key(p) == path_key(q) {
        assert forall|s: Seq<char>, i: int| 0 <= i < components(s).len() implies !(
        #[trigger] components(s)[i]).contains('/') by {
            body_has_no_separator(s, head_len(s));
            let h = components(s).len() - body(s, head_len(s)).len();
            if i >= h {
                assert(components(s)[i] == body(s, head_len(s))[i - h]);
            }
        }
        joined_injective(components(p), components(q));
    }
}

/// No segment of `p` behind its start of length `b` is idle.
pub open spec fn has_plain_segments(p: Seq<char>, b: int) -> bool
    decreases p.len(),
{
    let i = last_position(p, '/', b);
    &&& 0 <= b < p.len()
    &&& !is_idle(last_segment(p, b))
    &&& i >= b ==> {
        proof {
            last_position_bounds(p, '/', b);
        }
        has_plain_segments(p.take(i), b)
    }
}

/// The path is spelled plainly: no separator follows another or ends it, and no component is a
/// single dot.
pub open spec fn is_plain(p: Seq<char>) -> bool {
    !is_dotted(p) && has_plain_segments(p, head_len(p))
}

/// The folders that hold a path that is spelled plainly are spelled plainly.
pub proof fn ancestors_are_plain(p: Seq<char>, k: int)
    requires
        is_plain(p),
        0 <= k < ancestors(p).len(),
    ensures
        is_plain(ancestors(p)[k]),
    decreases p.len(),
{
    let b = head_len(p);
    let i = last_position(p, '/', b);
    last_position_bounds(p, '/', b);
    parent_is_proper_prefix(p);
    let q = parent(p)->0;
    assert(strip(p, b) == p);
    if i >= b {
        plain_body(p.take(i), b);
        prefix_keeps_head(p, i);
        assert(q == p.take(i) && is_plain(q));
    } else {
        assert(q == p.take(b));
        assert(strip(q, head_len(q)).len() <= 1) by {
            strip_is_prefix(q, head_len(q));
        }
        assert(parent(q) is None);
    }
    assert(ancestors(p) == seq![q] + ancestors(q));
    if k > 0 {
        ancestors_are_plain(q, k - 1);
    }
}

/// A path that is spelled plainly has a component behind its start, and none of these is empty.
proof fn plain_body(p: Seq<char>, b: int)
    requires
        has_plain_segments(p, b),
    ensures
        strip(p, b) == p,
        body(p, b) == body(p.take(cut(p, b)), b).push(last_segment(p, b)),
        body(p, b)[0].len() > 0,
    decreases p.len(),
{
    let i = last_position(p, '/', b);
    last_position_bounds(p, '/', b);
    if i >= b {
        plain_body(p.take(i), b);
    } else {
        assert(body(p.take(b), b) =~= Seq::<Seq<char>>::empty());
    }
}

proof fn plain_segments_identify(p: Seq<char>, q: Seq<char>, b: int)
    requires
        has_plain_segments(p, b),
        has_plain_segments(q, b),
        p.take(b) == q.take(b),
        body(p, b) == body(q, b),
    ensures
        p == q,
    decreases p.len(),
{
    let i = last_position(p, '/', b);
    let j = last_position(q, '/', b);
    last_position_bounds(p, '/', b);
    last_position_bounds(q, '/', b);
    plain_body(p, b);
    plain_body(q, b);
    let u = p.take(cut(p, b));
    let v = q.take(cut(q, b));
    assert(body(u, b) =~= body(p, b).drop_last());
    assert(body(v, b) =~= body(q, b).drop_last());
    assert(last_segment(p, b) == body(p, b).last());
    assert(last_segment(q, b) == body(q, b).last());
    let name = last_segment(p, b);
    if i >= b {
        plain_body(u, b);
    }
    if j >= b {
        plain_body(v, b);
    }
    if i >= b && j >= b {
        assert(u.take(b) =~= p.take(b));
        assert(v.take(b) =~= q.take(b));
        plain_segments_identify(u, v, b);
        assert(p =~= u.push('/') + name);
        assert(q =~= v.push('/') + name);
    } else {
        assert(i < b && j < b);
        assert(p =~= p.take(b) + name);
        assert(q =~= q.take(b) + name);
    }
}

/// A path has one plain spelling.
pub proof fn plain_spellings_are_unique(p: Seq<char>, q: Seq<char>)
    requires
        is_plain(p),
        is_plain(q),
        same_path(p, q),
    ensures
        p == q,
{
    let b = head_len(p);
    let c = head_len(q);
    plain_body(p, b);
    plain_body(q, c);
    assert(is_rooted(p) ==> components(p)[0].len() == 0);
    assert(is_rooted(q) ==> components(q)[0].len() == 0);
    assert(!is_rooted(p) ==> components(p)[0] == body(p, b)[0]);
    assert(!is_rooted(q) ==> components(q)[0] == body(q, c)[0]);
    assert(is_rooted(p) == is_rooted(q));
    if is_rooted(p) {
        assert(body(p, b) =~= components(p).drop_first());
        assert(body(q, b) =~= components(q).drop_first());
    } else {
        assert(body(p, b) =~= components(p));
        assert(body(q, b) =~= components(q));
    }
    assert(p.take(b) =~= q.take(b));
    plain_segments_identify(p, q, b);
}

/// A separator behind a path does not change which path it is.
pub proof fn trailing_separator_is_idle(p: Seq<char>)
    requires
        p.len() > 0,
    ensures
        same_path(p, p.push('/')),
        parent(p) == parent(p.push('/')),
        file_name(p) == file_name(p.push('/')),
{
    let q = p.push('/');
    let b = head_len(p);
    assert(head_len(q) == b);
    assert(q.take(p.len() as int) =~= p);
    assert(last_segment(q, b) =~= Seq::<char>::empty());
    assert(strip(q, b) == strip(p, b));
    strip_idempotent(p, b);
    strip_idempotent(q, b);
}

/// The last position of `c` in the first `end` characters, at `from` or later.
fn find_last(p: &Vec<char>, end: usize, c: char, from: usize) -> (r: Option<usize>)
    requires
        end <= p@.len(),
    ensures
        match r {
            Some(i) => i == last_position(p@.take(end as int), c, from as int),
            None => last_position(p@.take(end as int), c, from as int) == -1,
        },
{
    let mut k: usize = end;
    while k > from
        invariant
            k <= end <= p@.len(),
            last_position(p@.take(end as int), c, from as int) == last_position(
                p@.take(k as int),
                c,
                from as int,
            ),
        decreases k,
    {
        assert(p@.take(k as int).drop_last() =~= p@.take(k - 1));
        if p[k - 1] == c {
            return Some(k - 1);
        }
        k -= 1;
    }
    None
}

/// The length of the start of a path.
fn start_len(p: &Vec<char>) -> (r: usize)
    ensures
        r == head_len(p@),
        r <= p@.len(),
{
    if p.len() > 0 && (p[0] == '/' || (p[0] == '.' && (p.len() == 1 || p[1] == '/'))) {
        1
    } else {
        0
    }
}

/// Where the last segment of the first `end` characters begins, and where the separator before it
/// does.
fn split_last(p: &Vec<char>, end: usize, b: usize) -> (r: (usize, usize))
    requires
        b < end <= p@.len(),
    ensures
        b <= r.1 <= r.0 <= end,
        r.1 < end,
        r.1 == cut(p@.take(end as int), b as int),
        p@.subrange(r.0 as int, end as int) == last_segment(p@.take(end as int), b as int),
{
    proof {
        last_position_bounds(p@.take(end as int), '/', b as int);
    }
    match find_last(p, end, '/', b) {
        Some(i) => {
            assert(p@.subrange(i + 1, end as int) =~= p@.take(end as int).skip(i + 1));
            (i + 1, i)
        },
        None => {
            assert(p@.subrange(b as int, end as int) =~= p@.take(end as int).skip(b as int));
            (b, b)
        },
    }
}

/// How much of the first `end` characters is left when nothing idle stands at the end.
fn stripped(p: &Vec<char>, end: usize, b: usize) -> (r: usize)
    requires
        b <= end <= p@.len(),
    ensures
        b <= r <= end,
        p@.take(r as int) == strip(p@.take(end as int), b as int),
{
    let mut e: usize = end;
    while e > b
        invariant
            b <= e <= end <= p@.len(),
            strip(p@.take(e as int), b as int) == strip(p@.take(end as int), b as int),
        ensures
            b <= e <= end,
            p@.take(e as int) == strip(p@.take(end as int), b as int),
        decreases e,
    {
        let (from, sep): (usize, usize) = split_last(p, e, b);
        let ghost segment = last_segment(p@.take(e as int), b as int);
        assert(segment == p@.subrange(from as int, e as int));
        if from == e || (e - from == 1 && p[from] == '.') {
            proof {
                if from != e {
                    assert(segment =~= seq!['.']);
                }
                assert(p@.take(e as int).take(sep as int) =~= p@.take(sep as int));
            }
            e = sep;
        } else {
            proof {
                if segment == seq!['.'] {
                    assert(segment.len() == 1 && segment[0] == '.');
                }
            }
            break ;
        }
    }
    e
}

/// The path without its last component.
pub fn parent_of(p: &str) -> (r: Option<String>)
    ensures
        match r {
            Some(q) => parent(p@) == Some(q@),
            None => parent(p@) is None,
        },
{
    let chars: Vec<char> = chars_of(p);
    assert(chars@.take(chars@.len() as int) =~= chars@);
    let b: usize = start_len(&chars);
    let t: usize = stripped(&chars, chars.len(), b);
    if t > b {
        let (_, sep): (usize, usize) = split_last(&chars, t, b);
        assert(chars@.take(t as int).take(sep as int) =~= chars@.take(sep as int));
        let u: usize = stripped(&chars, sep, b);
        assert(chars@.take(u as int) =~= p@.subrange(0, u as int));
        Some(p.substring_char(0, u).to_owned())
    } else if chars.len() > 0 && chars[0] == '.' && b == 1 {
        Some(String::new())
    } else {
        None
    }
}

/// The last component, where it is the name of something.
pub fn file_name_of(p: &str) -> (r: Option<String>)
    ensures
        match r {
            Some(name) => file_name(p@) == Some(name@),
            None => file_name(p@) is None,
        },
{
    let chars: Vec<char> = chars_of(p);
    assert(chars@.take(chars@.len() as int) =~= chars@);
    let b: usize = start_len(&chars);
    let t: usize = stripped(&chars, chars.len(), b);
    if t > b {
        let (from, _): (usize, usize) = split_last(&chars, t, b);
        let ghost name = last_segment(chars@.take(t as int), b as int);
        assert(name == p@.subrange(from as int, t as int));
        if t - from == 2 && chars[from] == '.' && chars[from + 1] == '.' {
            assert(name =~= seq!['.', '.']);
            None
        } else {
            proof {
                if name == seq!['.', '.'] {
                    assert(name.len() == 2 && name[0] == '.' && name[1] == '.');
                }
            }
            Some(p.substring_char(from, t).to_owned())
        }
    } else {
        None
    }
}

/// What stands behind the last dot of the file name.
pub fn extension_of(p: &str) -> (r: Option<String>)
    ensures
        match r {
            Some(ext) => extension(p@) == Some(ext@),
            None => extension(p@) is None,
        },
{
    match file_name_of(p) {
        Some(name) => {
            let chars: Vec<char> = chars_of(name.as_str());
            assert(chars@.take(chars@.len() as int) =~= chars@);
            proof {
                last_position_bounds(chars@, '.', 0);
            }
            match find_last(&chars, chars.len(), '.', 0) {
                Some(i) => if i > 0 {
                    assert(name@.skip(i + 1) =~= name@.subrange(i + 1, name@.len() as int));
                    Some(name.as_str().substring_char(i + 1, chars.len()).to_owned())
                } else {
                    None
                },
                None => None,
            }
        },
        None => None,
    }
}

/// The name under which a path is shown: its file name, or all of it where it has none.
pub open spec fn shown_name(p: Seq<char>) -> Seq<char> {
    match file_name(p) {
        Some(name) => name,
        None => p,
    }
}

/// The name under which a path is shown.
pub fn shown_name_of(p: &str) -> (r: String)
    ensures
        r@ == shown_name(p@),
        file_name(p@) matches Some(name) ==> r@ == name,
        file_name(p@) is None ==> r@ == p@,
{
    match file_name_of(p) {
        Some(name) => name,
        None => p.to_owned(),
    }
}

/// The folders that hold a path, innermost first, up to but not including the root or the start.
pub fn ancestors_of(p: &str) -> (r: Vec<String>)
    ensures
        r@.map_values(|s: String| s@) == ancestors(p@),
{
    let mut out: Vec<String> = Vec::new();
    let mut at: String = p.to_owned();
    let ghost views = |s: String| s@;
    assert(out@.map_values(views) + ancestors(at@) =~= ancestors(p@));
    loop
        invariant
            views == (|s: String| s@),
            out@.map_values(views) + ancestors(at@) == ancestors(p@),
        ensures
            out@.map_values(views) == ancestors(p@),
        decreases at@.len(),
    {
        proof {
            parent_is_proper_prefix(at@);
        }
        let up: String = match parent_of(at.as_str()) {
            Some(q) => q,
            None => {
                assert(out@.map_values(views) =~= ancestors(p@));
                break ;
            },
        };
        if up.as_str().is_empty() || parent_of(up.as_str()).is_none() {
            assert(out@.map_values(views) =~= ancestors(p@));
            break ;
        }
        let ghost before = out@;
        at = up.clone();
        out.push(up);
        assert(out@.map_values(views) =~= before.map_values(views).push(up@));
        assert(out@.map_values(views) + ancestors(at@) =~= before.map_values(views) + (seq![up@]
            + ancestors(up@)));
    }
    out
}

/// The number of components of a path and the one spelling that all its spellings share.
pub fn path_key_of(p: &str) -> (r: (usize, String))
    ensures
        r.0 == components(p@).len(),
        r.1@ == path_key(p@),
{
    let chars: Vec<char> = chars_of(p);
    assert(chars@.take(chars@.len() as int) =~= chars@);
    let b: usize = start_len(&chars);
    let ghost whole = body(p@, b as int);
    let mut spans: Vec<(usize, usize)> = Vec::new();
    let mut end: usize = chars.len();
    let ghost mut tail: Seq<Seq<char>> = Seq::empty();
    assert(body(chars@, b as int) + tail =~= whole);
    loop
        invariant
            chars@ == p@,
            b <= end <= chars@.len(),
            spans@.len() + end <= chars@.len(),
            tail.len() == spans@.len(),
            body(chars@.take(end as int), b as int) + tail == whole,
            forall|i: int|
                0 <= i < spans@.len() ==> {
                    &&& (#[trigger] spans@[i]).0 <= spans@[i].1 <= chars@.len()
                    &&& tail[tail.len() - 1 - i] == chars@.subrange(
                        spans@[i].0 as int,
                        spans@[i].1 as int,
                    )
                },
        ensures
            tail == whole,
            tail.len() == spans@.len(),
            spans@.len() + b <= chars@.len(),
            forall|i: int|
                0 <= i < spans@.len() ==> {
                    &&& (#[trigger] spans@[i]).0 <= spans@[i].1 <= chars@.len()
                    &&& tail[tail.len() - 1 - i] == chars@.subrange(
                        spans@[i].0 as int,
                        spans@[i].1 as int,
                    )
                },
        decreases end,
    {
        let t: usize = stripped(&chars, end, b);
        if t <= b {
            assert(tail =~= whole);
            break ;
        }
        let (from, sep): (usize, usize) = split_last(&chars, t, b);
        proof {
            let segment = chars@.subrange(from as int, t as int);
            let shorter = body(chars@.take(sep as int), b as int);
            assert(chars@.take(t as int).take(sep as int) =~= chars@.take(sep as int));
            assert(shorter.push(segment) + tail =~= shorter + (seq![segment] + tail));
            tail = seq![segment] + tail;
        }
        spans.push((from, t));
        end = sep;
    }
    let mut key: String = String::new();
    let ghost cs = components(p@);
    let ghost head = cs.take(b as int);
    assert(cs =~= head + whole);
    proof {
        reveal_strlit("/");
        reveal_strlit("./");
    }
    if b == 1 {
        assert(head.drop_last() =~= Seq::<Seq<char>>::empty());
        assert(joined(head.drop_last()) =~= Seq::<char>::empty());
        assert(joined(head) =~= head[0] + seq!['/']);
        if chars[0] == '/' {
            key.append("/");
            assert(key@ =~= joined(head));
        } else {
            key.append("./");
            assert(key@ =~= joined(head));
        }
    } else {
        assert(head =~= Seq::<Seq<char>>::empty());
    }
    let mut k: usize = spans.len();
    assert(cs.take(b as int) =~= head);
    while k > 0
        invariant
            chars@ == p@,
            b <= 1,
            k <= spans@.len(),
            tail.len() == spans@.len(),
            cs.len() == b + tail.len(),
            forall|i: int| 0 <= i < tail.len() ==> cs[b + i] == #[trigger] tail[i],
            key@ == joined(cs.take(b + spans@.len() - k)),
            forall|i: int|
                0 <= i < spans@.len() ==> {
                    &&& (#[trigger] spans@[i]).0 <= spans@[i].1 <= chars@.len()
                    &&& tail[tail.len() - 1 - i] == chars@.subrange(
                        spans@[i].0 as int,
                        spans@[i].1 as int,
                    )
                },
        decreases k,
    {
        k -= 1;
        let (from, to): (usize, usize) = spans[k];
        let ghost done = b + spans@.len() - k;
        key.append(p.substring_char(from, to));
        key.append("/");
        proof {
            reveal_strlit("/");
            assert(spans@[k as int].0 == from);
            assert(cs.take(done).last() == tail[done - b - 1]);
            assert(cs.take(done).drop_last() =~= cs.take(done - 1));
            assert(key@ =~= joined(cs.take(done)));
        }
    }
    assert(cs.take(cs.len() as int) =~= cs);
    (b + spans.len(), key)
}

/// A text whose last separator stands behind `p`.
spec fn beneath(p: Seq<char>, segment: Seq<char>) -> Seq<char> {
    p.push('/') + segment
}

proof fn beneath_facts(p: Seq<char>, segment: Seq<char>)
    requires
        p.len() > 0,
        !segment.contains('/'),
    ensures
        ({
            let t = beneath(p, segment);
            let b = head_len(p);
            &&& head_len(t) == b
            &&& is_rooted(t) == is_rooted(p)
            &&& is_dotted(t) == is_dotted(p)
            &&& b <= p.len()
            &&& last_position(t, '/', b) == p.len()
            &&& cut(t, b) == p.len()
            &&& t.take(p.len() as int) == p
            &&& last_segment(t, b) == segment
            &&& is_idle(segment) ==> strip(t, b) == strip(p, b)
            &&& !is_idle(segment) ==> strip(t, b) == t
        }),
{
    let t = beneath(p, segment);
    let b = head_len(p);
    let n = p.len() as int;
    assert(t[0] == p[0]);
    assert(p.len() > 1 ==> t[1] == p[1]);
    last_position_bounds(t, '/', b);
    let i = last_position(t, '/', b);
    assert(t[n] == '/');
    if i > n {
        assert(segment[i - n - 1] == t[i]);
        assert(segment.contains('/'));
    }
    assert(t.take(n) =~= p);
    assert(t.skip(n + 1) =~= segment);
}

/// The components of a path follow from its last segment: what stands behind the last separator is
/// the last component, unless it is empty or a single dot, and what stands before it makes up the
/// others; a separator at the start is the root, and a path without a separator is one component.
pub proof fn components_follow_from_the_last_segment(p: Seq<char>, segment: Seq<char>)
    requires
        !segment.contains('/'),
    ensures
        components(segment) == if segment.len() == 0 {
            Seq::<Seq<char>>::empty()
        } else {
            seq![segment]
        },
        ({
            let before = if p.len() == 0 {
                seq![Seq::<char>::empty()]
            } else {
                components(p)
            };
            components(p.push('/') + segment) == if segment.len() == 0 || segment == seq!['.'] {
                before
            } else {
                before.push(segment)
            }
        }),
{
    single_segment(segment);
    let t = beneath(p, segment);
    if p.len() > 0 {
        let b = head_len(p);
        beneath_facts(p, segment);
        if is_idle(segment) {
            strip_idempotent(p, b);
            strip_idempotent(t, b);
            assert(body(t, b) == body(p, b));
        } else {
            assert(body(t, b) == body(p, b).push(segment));
            assert(components(t) =~= components(p).push(segment));
        }
        assert(is_idle(segment) ==> components(t) =~= components(p));
    } else {
        let root = seq!['/'];
        assert(t =~= root + segment);
        assert(t[0] == '/');
        last_position_bounds(t, '/', 1);
        let i = last_position(t, '/', 1);
        if i >= 1 {
            assert(segment[i - 1] == t[i]);
            assert(segment.contains('/'));
        }
        assert(t.skip(1) =~= segment);
        assert(t.take(1) =~= root);
        assert(strip(root, 1) == root);
        assert(body(root, 1) =~= Seq::<Seq<char>>::empty());
        if segment.len() == 0 {
            assert(t =~= root);
            assert(components(t) =~= seq![Seq::<char>::empty()]);
        } else if is_idle(segment) {
            assert(strip(t, 1) == root);
            assert(components(t) =~= seq![Seq::<char>::empty()]);
        } else {
            assert(strip(t, 1) == t);
            assert(body(t, 1) == body(root, 1).push(segment));
            assert(components(t) =~= seq![Seq::<char>::empty()].push(segment));
        }
    }
}

proof fn single_segment(segment: Seq<char>)
    requires
        !segment.contains('/'),
    ensures
        components(segment) == if segment.len() == 0 {
            Seq::<Seq<char>>::empty()
        } else {
            seq![segment]
        },
{
    let b = head_len(segment);
    if segment.len() > 0 {
        assert(segment[0] != '/') by {
            if segment[0] == '/' {
                assert(segment.contains('/'));
            }
        }
        if segment.len() > 1 {
            assert(segment[1] != '/') by {
                if segment[1] == '/' {
                    assert(segment.contains('/'));
                }
            }
        }
        last_position_bounds(segment, '/', b);
        let i = last_position(segment, '/', b);
        if i >= b {
            assert(segment.contains('/'));
        }
        if is_dotted(segment) {
            assert(segment =~= seq!['.']);
            assert(body(segment, 1) =~= Seq::<Seq<char>>::empty());
            assert(components(segment) =~= seq![segment]);
        } else {
            assert(segment.skip(0) =~= segment);
            assert(segment != seq!['.']);
            assert(strip(segment, 0) == segment);
            assert(segment.take(0) =~= Seq::<char>::empty());
            assert(body(Seq::<char>::empty(), 0) =~= Seq::<Seq<char>>::empty());
            assert(components(segment) =~= seq![segment]);
        }
    } else {
        assert(components(segment) =~= Seq::<Seq<char>>::empty());
    }
}

/// A name behind a separator is the file name of the path, unless it is two dots, and the path before
/// the separator is its parent, if nothing idle stands at its end.
pub proof fn a_name_stands_in_its_parent(p: Seq<char>, name: Seq<char>)
    requires
        p.len() > 0,
        !name.contains('/'),
        name.len() > 0,
        name != seq!['.'],
    ensures
        name != seq!['.', '.'] ==> file_name(p.push('/') + name) == Some(name),
        name == seq!['.', '.'] ==> file_name(p.push('/') + name) is None,
        parent(p.push('/') + name) matches Some(q) && q.is_prefix_of(p) && components(q)
            == components(p),
        p.last() != '/' && !(p.len() > 1 && p.last() == '.' && p[p.len() - 2] == '/') ==> parent(
            p.push('/') + name,
        ) == Some(p),
{
    let t = beneath(p, name);
    let b = head_len(p);
    beneath_facts(p, name);
    strip_is_prefix(p, b);
    parent_drops_last_component(t);
    components_follow_from_the_last_segment(p, name);
    assert(components(t).drop_last() =~= components(p));
    assert(parent(t) == Some(strip(p, b)));
    if p.last() != '/' && !(p.len() > 1 && p.last() == '.' && p[p.len() - 2] == '/') {
        if p.len() > b {
            last_position_bounds(p, '/', b);
            let seg = last_segment(p, b);
            assert(seg.len() > 0);
            assert(seg.last() == p.last());
            if seg == seq!['.'] {
                assert(p.last() == '.');
            }
            assert(!is_idle(seg));
        }
        assert(strip(p, b) == p);
    }
}

/// The extension of a path is what stands behind the last dot of its file name, where something
/// stands before that dot, and there is no other.
pub proof fn extensions_stand_behind_the_last_dot(path: Seq<char>, stem: Seq<char>, ext: Seq<char>)
    ensures
        file_name(path) == Some(stem.push('.') + ext) && stem.len() > 0 && !ext.contains('.')
            ==> extension(path) == Some(ext),
        file_name(path) == Some(stem) && stem.len() > 0 && !stem.drop_first().contains('.')
            ==> extension(path) is None,
        file_name(path) is None ==> extension(path) is None,
{
    if file_name(path) == Some(stem.push('.') + ext) && stem.len() > 0 && !ext.contains('.') {
        let name = stem.push('.') + ext;
        last_position_bounds(name, '.', 0);
        let i = last_position(name, '.', 0);
        let n = stem.len() as int;
        assert(name[n] == '.');
        if i > n {
            assert(ext[i - n - 1] == name[i]);
            assert(ext.contains('.'));
        }
        assert(name.skip(n + 1) =~= ext);
    }
    if file_name(path) == Some(stem) && stem.len() > 0 && !stem.drop_first().contains('.') {
        last_position_bounds(stem, '.', 0);
        let i = last_position(stem, '.', 0);
        if i > 0 {
            assert(stem.drop_first()[i - 1] == '.');
            assert(stem.drop_first().contains('.'));
        }
    }
}

/// The folders that hold a path are its parent, the parent of that, and so on, until a path that is
/// empty or has no parent.
pub proof fn ancestors_are_parents_of_parents(p: Seq<char>)
    ensures
        match parent(p) {
            Some(q) => if q.len() > 0 && parent(q) is Some {
                ancestors(p) == seq![q] + ancestors(q)
            } else {
                ancestors(p).len() == 0
            },
            None => ancestors(p).len() == 0,
        },
{
}

/// A parent that has a parent itself ends in its last component.
proof fn parents_are_stripped(p: Seq<char>)
    requires
        parent(p) matches Some(q) && parent(q) is Some,
    ensures
        ({
            let q = parent(p)->0;
            strip(q, head_len(q)) == q
        }),
{
    let b = head_len(p);
    let t = strip(p, b);
    let q = parent(p)->0;
    strip_is_prefix(p, b);
    parent_is_proper_prefix(p);
    a_separator_follows_the_parent(p);
    if t.len() > b {
        last_position_bounds(t, '/', b);
        let u = t.take(cut(t, b));
        strip_is_prefix(u, b);
        strip_idempotent(u, b);
        prefix_keeps_head(p, q.len() as int);
        assert(q == p.take(q.len() as int));
    } else {
        parent_is_proper_prefix(q);
    }
}

/// The name under which a folder is shown is the last component of its path, with which the path
/// ends, behind a separator if anything stands before it; only a folder that is called by two dots
/// is shown by its whole path.
pub proof fn folders_are_shown_by_their_last_component(p: Seq<char>, k: int)
    requires
        0 <= k < ancestors(p).len(),
    ensures
        ({
            let f = ancestors(p)[k];
            let name = shown_name(f);
            let n = f.len() - name.len();
            &&& components(f).len() > 0
            &&& components(f).last() == seq!['.', '.'] ==> name == f
            &&& components(f).last() != seq!['.', '.'] ==> {
                &&& name == components(f).last()
                &&& name.len() > 0
                &&& !name.contains('/')
                &&& n >= 0
                &&& f.skip(n) == name
                &&& n > 0 ==> f[n - 1] == '/'
            }
        }),
    decreases p.len(),
{
    parent_is_proper_prefix(p);
    let q = parent(p)->0;
    assert(ancestors(p) == seq![q] + ancestors(q));
    if k > 0 {
        folders_are_shown_by_their_last_component(q, k - 1);
    } else {
        parents_are_stripped(p);
        parent_drops_last_component(q);
        let b = head_len(q);
        strip_is_prefix(q, b);
        if q.len() > b {
            last_position_bounds(q, '/', b);
            let seg = last_segment(q, b);
            assert(body(q, b).last() == seg);
            assert(components(q).last() == seg);
            assert(!seg.contains('/')) by {
                if seg.contains('/') {
                    let m = choose|m: int| 0 <= m < seg.len() && seg[m] == '/';
                    assert(q[q.len() - seg.len() + m] == seg[m]);
                }
            }
            assert(q.skip(q.len() - seg.len()) =~= seg);
        } else {
            assert(body(q, b) =~= Seq::<Seq<char>>::empty());
            assert(is_dotted(q));
            assert(q =~= seq!['.']);
            assert(components(q) =~= seq![seq!['.']]);
            assert(q.skip(0) =~= q);
            assert(seq!['.'].len() == 1 && seq!['.', '.'].len() == 2);
        }
    }
}

/// A parent is spelled up to its last component: it is the start of the path or the root, or nothing
/// idle stands at its end.
pub proof fn parents_end_in_their_last_component(p: Seq<char>)
    requires
        parent(p) is Some,
    ensures
        ({
            let q = parent(p)->0;
            ||| q.len() == 0
            ||| q == seq!['/']
            ||| q == seq!['.']
            ||| q.last() != '/' && !(q.len() > 1 && q.last() == '.' && q[q.len() - 2] == '/')
        }),
{
    let b = head_len(p);
    let t = strip(p, b);
    let q = parent(p)->0;
    strip_is_prefix(p, b);
    parent_is_proper_prefix(p);
    if t.len() > b {
        last_position_bounds(t, '/', b);
        let u = t.take(cut(t, b));
        strip_is_prefix(u, b);
        if q.len() > b {
            last_position_bounds(q, '/', b);
            let seg = last_segment(q, b);
            assert(!is_idle(seg));
            if q.last() == '/' {
                assert(q[q.len() - 1] == '/');
                assert(last_position(q, '/', b) == q.len() - 1);
            }
            if q.len() > 1 && q.last() == '.' && q[q.len() - 2] == '/' {
                if q.len() - 2 >= b {
                    assert(last_position(q, '/', b) == q.len() - 2);
                    assert(seg =~= seq!['.']);
                } else {
                    assert(q.len() == 2 && b == 1);
                    assert(seg =~= seq!['.']);
                }
            }
        } else if b == 1 {
            assert(q[0] == p[0]);
            assert(q =~= seq![p[0]]);
        }
    }
}

/// A path has a file name exactly if its last component is a name: not the root, nor one dot or two.
pub proof fn paths_that_end_in_a_name_have_a_file_name(p: Seq<char>)
    ensures
        file_name(p) is Some <==> {
            &&& components(p).len() > 0
            &&& components(p).last().len() > 0
            &&& components(p).last() != seq!['.']
            &&& components(p).last() != seq!['.', '.']
        },
{
    let b = head_len(p);
    let t = strip(p, b);
    strip_is_prefix(p, b);
    if t.len() > b {
        last_position_bounds(t, '/', b);
        assert(components(p).last() == last_segment(t, b));
    } else {
        assert(body(p, b) =~= Seq::<Seq<char>>::empty());
        if is_rooted(p) {
            assert(components(p) =~= seq![Seq::<char>::empty()]);
        } else if is_dotted(p) {
            assert(components(p) =~= seq![seq!['.']]);
        } else {
            assert(components(p) =~= Seq::<Seq<char>>::empty());
        }
    }
}

} // verus!
