//! Text as the engine reads it: references split into segments, paths joined
//! with slashes, and names compared without regard to ASCII letter case.

use vstd::prelude::*;
use vstd::string::*;

verus! {

/// The code of a character with ASCII capitals taken to lower case.
pub open spec fn fold_char(c: char) -> u32 {
    if 'A' <= c && c <= 'Z' {
        (c as u32 + 32) as u32
    } else {
        c as u32
    }
}

/// A text as the sequence of its case-folded character codes.
pub open spec fn folded(s: Seq<char>) -> Seq<u32> {
    s.map_values(|c: char| fold_char(c))
}

/// Strict lexicographic order on code sequences (a proper prefix comes first).
pub open spec fn lex_lt(a: Seq<u32>, b: Seq<u32>) -> bool
    decreases a.len(),
{
    if a.len() == 0 {
        b.len() > 0
    } else if b.len() == 0 {
        false
    } else if a[0] != b[0] {
        a[0] < b[0]
    } else {
        lex_lt(a.drop_first(), b.drop_first())
    }
}

pub proof fn lemma_lex_irreflexive(a: Seq<u32>)
    ensures
        !lex_lt(a, a),
    decreases a.len(),
{
    if a.len() > 0 {
        lemma_lex_irreflexive(a.drop_first());
    }
}

pub proof fn lemma_lex_transitive(a: Seq<u32>, b: Seq<u32>, c: Seq<u32>)
    requires
        lex_lt(a, b),
        lex_lt(b, c),
    ensures
        lex_lt(a, c),
    decreases a.len(),
{
    if a.len() > 0 && b.len() > 0 && c.len() > 0 && a[0] == b[0] && b[0] == c[0] {
        lemma_lex_transitive(a.drop_first(), b.drop_first(), c.drop_first());
    }
}

pub proof fn lemma_lex_total(a: Seq<u32>, b: Seq<u32>)
    requires
        a != b,
    ensures
        lex_lt(a, b) || lex_lt(b, a),
    decreases a.len(),
{
    if a.len() > 0 && b.len() > 0 && a[0] == b[0] {
        if a.drop_first() == b.drop_first() {
            assert(a =~= seq![a[0]] + a.drop_first());
            assert(b =~= seq![b[0]] + b.drop_first());
        }
        lemma_lex_total(a.drop_first(), b.drop_first());
    } else if a.len() == 0 && b.len() == 0 {
        assert(a =~= b);
    }
}

/// The case-folded codes of a text.
pub fn folded_codes(s: &str) -> (r: Vec<u32>)
    ensures
        r@ == folded(s@),
{
    let n = s.unicode_len();
    let mut v: Vec<u32> = Vec::new();
    let mut i: usize = 0;
    while i < n
        invariant
            n == s@.len(),
            i <= n,
            v@ =~= folded(s@.subrange(0, i as int)),
        decreases n - i,
    {
        let c = s.get_char(i);
        let code: u32 = if 'A' <= c && c <= 'Z' {
            c as u32 + 32
        } else {
            c as u32
        };
        v.push(code);
        i = i + 1;
        assert(v@ =~= folded(s@.subrange(0, i as int)));
    }
    assert(s@.subrange(0, n as int) =~= s@);
    v
}

/// Three-way comparison in the order `lex_lt`: negative, zero or positive.
pub fn lex_compare(a: &Vec<u32>, b: &Vec<u32>) -> (r: i8)
    ensures
        (r < 0) == lex_lt(a@, b@),
        (r > 0) == lex_lt(b@, a@),
        (r == 0) == (a@ == b@),
{
    let mut i: usize = 0;
    assert(a@.subrange(0, a.len() as int) =~= a@);
    assert(b@.subrange(0, b.len() as int) =~= b@);
    while i < a.len() && i < b.len()
        invariant
            i <= a.len(),
            i <= b.len(),
            a@.subrange(0, i as int) == b@.subrange(0, i as int),
            lex_lt(a@, b@) == lex_lt(a@.subrange(i as int, a.len() as int), b@.subrange(i as int, b.len() as int)),
            lex_lt(b@, a@) == lex_lt(b@.subrange(i as int, b.len() as int), a@.subrange(i as int, a.len() as int)),
        decreases a.len() - i,
    {
        let ghost sa = a@.subrange(i as int, a.len() as int);
        let ghost sb = b@.subrange(i as int, b.len() as int);
        assert(sa[0] == a@[i as int]);
        assert(sb[0] == b@[i as int]);
        if a[i] != b[i] {
            assert(a@ != b@ ==> true);
            if a[i] < b[i] {
                assert(a@[i as int] != b@[i as int]);
                return -1;
            } else {
                assert(a@[i as int] != b@[i as int]);
                return 1;
            }
        }
        assert(sa.drop_first() =~= a@.subrange(i + 1, a.len() as int));
        assert(sb.drop_first() =~= b@.subrange(i + 1, b.len() as int));
        assert(a@.subrange(0, i + 1) =~= a@.subrange(0, i as int).push(a@[i as int]));
        assert(b@.subrange(0, i + 1) =~= b@.subrange(0, i as int).push(b@[i as int]));
        i = i + 1;
    }
    let ghost sa = a@.subrange(i as int, a.len() as int);
    let ghost sb = b@.subrange(i as int, b.len() as int);
    if a.len() < b.len() {
        assert(sa.len() == 0);
        -1
    } else if a.len() > b.len() {
        assert(sb.len() == 0);
        1
    } else {
        assert(a@ =~= a@.subrange(0, i as int));
        assert(b@ =~= b@.subrange(0, i as int));
        assert(sa.len() == 0 && sb.len() == 0);
        0
    }
}

/// `q` occurs in `t` starting at position `i`.
pub open spec fn occurs_at(q: Seq<u32>, t: Seq<u32>, i: int) -> bool {
    0 <= i && i + q.len() <= t.len() && t.subrange(i, i + q.len()) == q
}

/// `q` is a contiguous part of `t`.
pub open spec fn occurs_in(q: Seq<u32>, t: Seq<u32>) -> bool {
    exists|i: int| #[trigger] occurs_at(q, t, i)
}

/// Whether `q` is a contiguous part of `t`.
pub fn occurs(q: &Vec<u32>, t: &Vec<u32>) -> (r: bool)
    ensures
        r == occurs_in(q@, t@),
{
    if q.len() > t.len() {
        assert forall|i: int| !#[trigger] occurs_at(q@, t@, i) by {}
        return false;
    }
    if q.len() == 0 {
        assert(t@.subrange(0, 0) =~= q@);
        assert(occurs_at(q@, t@, 0));
        return true;
    }
    let last = t.len() - q.len();
    let mut i: usize = 0;
    while i <= last
        invariant
            last == t.len() - q.len(),
            0 < q.len() <= t.len(),
            i <= last + 1,
            forall|k: int| 0 <= k < i ==> !#[trigger] occurs_at(q@, t@, k),
        decreases last + 1 - i,
    {
        let mut j: usize = 0;
        let mut same = true;
        while j < q.len() && same
            invariant
                i <= last,
                last == t.len() - q.len(),
                j <= q.len(),
                same ==> forall|k: int| 0 <= k < j ==> t@[i + k] == q@[k],
                !same ==> !occurs_at(q@, t@, i as int),
            decreases q.len() - j + (if same { 1int } else { 0int }),
        {
            if t[i + j] != q[j] {
                assert(t@.subrange(i as int, i + q.len())[j as int] != q@[j as int]);
                same = false;
            } else {
                j = j + 1;
            }
        }
        if same {
            assert(t@.subrange(i as int, i + q.len()) =~= q@);
            assert(occurs_at(q@, t@, i as int));
            return true;
        }
        i = i + 1;
    }
    assert forall|k: int| !#[trigger] occurs_at(q@, t@, k) by {
        if 0 <= k < i {
        }
    }
    false
}

/// `cur` as a finished segment: one if it holds anything, none otherwise.
pub open spec fn emit(cur: Seq<char>) -> Seq<Seq<char>> {
    if cur.len() > 0 {
        seq![cur]
    } else {
        Seq::empty()
    }
}

/// The segments of `s` when `cur` has already been read into the current one.
pub open spec fn split_from(s: Seq<char>, cur: Seq<char>) -> Seq<Seq<char>>
    decreases s.len(),
{
    if s.len() == 0 {
        emit(cur)
    } else if s[0] == '/' {
        emit(cur) + split_from(s.drop_first(), Seq::empty())
    } else {
        split_from(s.drop_first(), cur.push(s[0]))
    }
}

/// The parts of a reference between slashes, empty parts left out.
pub open spec fn segments(s: Seq<char>) -> Seq<Seq<char>> {
    split_from(s, Seq::empty())
}

/// Every segment that `split_from` yields holds at least one character.
pub proof fn lemma_split_nonempty(s: Seq<char>, cur: Seq<char>, k: int)
    requires
        0 <= k < split_from(s, cur).len(),
    ensures
        split_from(s, cur)[k].len() > 0,
    decreases s.len(),
{
    if s.len() > 0 {
        if s[0] == '/' {
            let e = emit(cur);
            if k >= e.len() {
                lemma_split_nonempty(s.drop_first(), Seq::empty(), k - e.len());
            }
        } else {
            lemma_split_nonempty(s.drop_first(), cur.push(s[0]), k);
        }
    }
}

pub proof fn lemma_segments_nonempty(s: Seq<char>, k: int)
    requires
        0 <= k < segments(s).len(),
    ensures
        segments(s)[k].len() > 0,
{
    lemma_split_nonempty(s, Seq::empty(), k);
}

/// Without a slash, the text read so far and the rest form at most one segment.
pub proof fn lemma_split_plain(s: Seq<char>, cur: Seq<char>)
    requires
        !s.contains('/'),
    ensures
        split_from(s, cur) == emit(cur + s),
    decreases s.len(),
{
    if s.len() == 0 {
        assert(cur + s =~= cur);
    } else {
        assert(s[0] != '/') by {
            if s[0] == '/' {
                assert(s.contains(s[0]));
            }
        }
        assert(!s.drop_first().contains('/')) by {
            if s.drop_first().contains('/') {
                let k = choose|k: int| 0 <= k < s.drop_first().len() && s.drop_first()[k] == '/';
                assert(s[k + 1] == '/');
            }
        }
        lemma_split_plain(s.drop_first(), cur.push(s[0]));
        assert(cur.push(s[0]) + s.drop_first() =~= cur + s);
    }
}

/// A bare name is its own single segment.
pub proof fn lemma_segments_bare(s: Seq<char>)
    requires
        !has_separator(s),
        s.len() > 0,
    ensures
        segments(s) == seq![s],
{
    lemma_split_plain(s, Seq::empty());
    assert(Seq::<char>::empty() + s =~= s);
}

/// The reference names a path rather than a bare name.
pub open spec fn has_separator(s: Seq<char>) -> bool {
    s.contains('/')
}

pub open spec fn views(v: Seq<String>) -> Seq<Seq<char>> {
    v.map_values(|x: String| x@)
}

/// Whether the text holds a slash.
pub fn contains_separator(s: &str) -> (r: bool)
    ensures
        r == has_separator(s@),
{
    let n = s.unicode_len();
    let mut i: usize = 0;
    while i < n
        invariant
            n == s@.len(),
            i <= n,
            forall|k: int| 0 <= k < i ==> s@[k] != '/',
        decreases n - i,
    {
        if s.get_char(i) == '/' {
            assert(s@[i as int] == '/');
            return true;
        }
        i = i + 1;
    }
    false
}

/// The segments of a reference, in order.
pub fn split_segments(s: &str) -> (r: Vec<String>)
    ensures
        views(r@) == segments(s@),
{
    let n = s.unicode_len();
    let mut out: Vec<String> = Vec::new();
    let mut start: usize = 0;
    let mut i: usize = 0;
    assert(s@.subrange(0, n as int) =~= s@);
    assert(s@.subrange(0, 0) =~= Seq::<char>::empty());
    assert(views(out@) =~= Seq::<Seq<char>>::empty());
    while i < n
        invariant
            n == s@.len(),
            start <= i <= n,
            views(out@) + split_from(s@.subrange(i as int, n as int), s@.subrange(start as int, i as int))
                == segments(s@),
        decreases n - i,
    {
        let ghost t = s@.subrange(i as int, n as int);
        let ghost cur = s@.subrange(start as int, i as int);
        let c = s.get_char(i);
        assert(t[0] == c);
        assert(t.drop_first() =~= s@.subrange(i + 1, n as int));
        if c == '/' {
            if start < i {
                let seg = s.substring_char(start, i).to_owned();
                let ghost before = out@;
                out.push(seg);
                assert(views(out@) =~= views(before) + emit(cur));
            } else {
                assert(emit(cur) =~= Seq::<Seq<char>>::empty());
                assert(views(out@) + emit(cur) =~= views(out@));
            }
            assert(s@.subrange(i + 1, i + 1) =~= Seq::<char>::empty());
            start = i + 1;
        } else {
            assert(cur.push(c) =~= s@.subrange(start as int, i + 1));
        }
        i = i + 1;
    }
    let ghost cur = s@.subrange(start as int, n as int);
    assert(s@.subrange(n as int, n as int).len() == 0);
    if start < n {
        let seg = s.substring_char(start, n).to_owned();
        let ghost before = out@;
        out.push(seg);
        assert(views(out@) =~= views(before) + emit(cur));
    } else {
        assert(views(out@) + emit(cur) =~= views(out@));
    }
    out
}

/// The parts with `sep` between each two of them.
pub open spec fn join_with(parts: Seq<Seq<char>>, sep: Seq<char>) -> Seq<char>
    decreases parts.len(),
{
    if parts.len() == 0 {
        Seq::empty()
    } else if parts.len() == 1 {
        parts[0]
    } else {
        join_with(parts.drop_last(), sep) + sep + parts.last()
    }
}

/// Names joined with slashes between them.
pub open spec fn join_slash(parts: Seq<Seq<char>>) -> Seq<char> {
    join_with(parts, seq!['/'])
}

/// The texts with `sep` between each two of them.
pub fn join_strings(parts: &Vec<String>, sep: &str) -> (r: String)
    ensures
        r@ == join_with(views(parts@), sep@),
{
    let mut acc = String::new();
    let mut i: usize = 0;
    while i < parts.len()
        invariant
            i <= parts.len(),
            acc@ == join_with(views(parts@.subrange(0, i as int)), sep@),
        decreases parts.len() - i,
    {
        let ghost prev = parts@.subrange(0, i as int);
        let ghost next = parts@.subrange(0, i + 1);
        assert(views(next).drop_last() =~= views(prev));
        if i > 0 {
            acc.append(sep);
        }
        acc.append(parts[i].as_str());
        if i == 0 {
            assert(views(prev).len() == 0);
            assert(acc@ =~= views(next)[0]);
        } else {
            assert(acc@ =~= join_with(views(prev), sep@) + sep@ + views(next).last());
        }
        i = i + 1;
    }
    assert(parts@.subrange(0, parts.len() as int) =~= parts@);
    acc
}

/// The names joined with slashes, as in `garage/toolbox/hammer`.
pub fn join_path(parts: &Vec<String>) -> (r: String)
    ensures
        r@ == join_slash(views(parts@)),
{
    let sep = "/";
    proof {
        reveal_strlit("/");
        assert(sep@ =~= seq!['/']);
    }
    join_strings(parts, sep)
}

} // verus!
