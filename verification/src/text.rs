//! Operations on text that the launcher's rules are written in: splitting at a
//! separator, trimming, replacing a token, comparing names.
//!
//! Every operation is specified over `Seq<char>`, the view of a string.

use vstd::prelude::*;
use vstd::string::*;

verus! {

/// The position of the first `c` in `s`, or the length of `s` where it has none.
pub open spec fn index_of(s: Seq<char>, c: char) -> int
    decreases s.len(),
{
    if s.len() == 0 || s[0] == c {
        0
    } else {
        1 + index_of(s.drop_first(), c)
    }
}

/// The pieces of `s` between the occurrences of `sep`. A text without `sep` is
/// one piece; two separators in a row enclose an empty piece.
pub open spec fn split(s: Seq<char>, sep: char) -> Seq<Seq<char>>
    decreases s.len(),
{
    let i = index_of(s, sep);
    if 0 <= i < s.len() {
        seq![s.take(i)] + split(s.skip(i + 1), sep)
    } else {
        seq![s]
    }
}

/// `s` without the run of `c` at its start.
pub open spec fn trim_start(s: Seq<char>, c: char) -> Seq<char>
    decreases s.len(),
{
    if s.len() > 0 && s[0] == c {
        trim_start(s.drop_first(), c)
    } else {
        s
    }
}

/// `s` without the run of `c` at its end.
pub open spec fn trim_end(s: Seq<char>, c: char) -> Seq<char>
    decreases s.len(),
{
    if s.len() > 0 && s.last() == c {
        trim_end(s.drop_last(), c)
    } else {
        s
    }
}

/// `s` without the runs of `c` at both ends.
pub open spec fn trim_matches(s: Seq<char>, c: char) -> Seq<char> {
    trim_end(trim_start(s, c), c)
}

/// `s` with every occurrence of `pattern` replaced by `with`, found from left to
/// right and without overlap. An empty pattern occurs nowhere.
pub open spec fn replace_all(s: Seq<char>, pattern: Seq<char>, with: Seq<char>) -> Seq<char>
    decreases s.len(),
{
    if pattern.len() == 0 || s.len() < pattern.len() {
        s
    } else if s.take(pattern.len() as int) == pattern {
        with + replace_all(s.skip(pattern.len() as int), pattern, with)
    } else {
        seq![s[0]] + replace_all(s.drop_first(), pattern, with)
    }
}

/// Whether `pattern` stands in `s` at position `at`.
pub open spec fn occurs_at(s: Seq<char>, pattern: Seq<char>, at: int) -> bool {
    0 <= at && at + pattern.len() <= s.len() && s.subrange(at, at + pattern.len()) == pattern
}

/// Whether `s` ends in `suffix`.
pub open spec fn ends_with(s: Seq<char>, suffix: Seq<char>) -> bool {
    s.len() >= suffix.len() && s.skip(s.len() - suffix.len()) == suffix
}

/// Whether `a` comes before `b`, or equals it, in the order of a dictionary
/// whose alphabet is the code points.
pub open spec fn lex_le(a: Seq<char>, b: Seq<char>) -> bool
    decreases a.len(),
{
    if a.len() == 0 {
        true
    } else if b.len() == 0 {
        false
    } else if a[0] != b[0] {
        (a[0] as int) < (b[0] as int)
    } else {
        lex_le(a.drop_first(), b.drop_first())
    }
}

/// The first occurrence lies in the text or at its end, with no `c` before it.
pub proof fn lemma_index_of_bounds(s: Seq<char>, c: char)
    ensures
        0 <= index_of(s, c) <= s.len(),
        forall|k: int| 0 <= k < index_of(s, c) ==> s[k] != c,
        index_of(s, c) < s.len() ==> s[index_of(s, c)] == c,
    decreases s.len(),
{
    if s.len() == 0 || s[0] == c {
    } else {
        let t = s.drop_first();
        lemma_index_of_bounds(t, c);
        assert forall|k: int| 0 <= k < index_of(s, c) implies s[k] != c by {
            if k > 0 {
                assert(s[k] == t[k - 1]);
            }
        }
        if index_of(s, c) < s.len() {
            assert(s[index_of(s, c)] == t[index_of(t, c)]);
        }
    }
}

/// The first occurrence is where `c` stands with no `c` before it.
pub proof fn lemma_index_of_is(s: Seq<char>, c: char, j: int)
    requires
        0 <= j <= s.len(),
        forall|k: int| 0 <= k < j ==> s[k] != c,
        j < s.len() ==> s[j] == c,
    ensures
        index_of(s, c) == j,
{
    lemma_index_of_bounds(s, c);
    let i = index_of(s, c);
    if i < j {
        assert(s[i] != c);
    } else if j < i {
        assert(s[j] != c);
    }
}

/// Splitting gives at least one piece.
pub proof fn lemma_split_has_a_piece(s: Seq<char>, sep: char)
    ensures
        split(s, sep).len() >= 1,
{
}

/// The copy of the characters of `s`, in order.
pub fn chars_of(s: &str) -> (v: Vec<char>)
    ensures
        v@ == s@,
{
    let mut v: Vec<char> = Vec::new();
    for c in it: s.chars()
        invariant
            v@ == it.seq().take(it.index() as int),
            it.seq() == s@,
    {
        v.push(c);
    }
    v
}

/// Splits `s` at every `sep`.
pub fn split_text(s: &str, sep: char) -> (pieces: Vec<String>)
    ensures
        pieces.deep_view() == split(s@, sep),
{
    let cs = chars_of(s);
    let n = cs.len();
    let mut pieces: Vec<String> = Vec::new();
    let mut start: usize = 0;
    let mut i: usize = 0;
    proof {
        assert(s@.skip(0) == s@);
        assert(pieces.deep_view() == Seq::<Seq<char>>::empty());
        assert(Seq::<Seq<char>>::empty() + split(s@, sep) == split(s@, sep));
    }
    while i < n
        invariant
            cs@ == s@,
            n == cs.len(),
            0 <= start <= i <= n,
            forall|k: int| start <= k < i ==> cs@[k] != sep,
            split(s@, sep) == pieces.deep_view() + split(s@.skip(start as int), sep),
        decreases n - i,
    {
        if cs[i] == sep {
            let piece = s.substring_char(start, i).to_owned();
            proof {
                let rest = s@.skip(start as int);
                let j = i - start;
                assert forall|k: int| 0 <= k < j implies rest[k] != sep by {
                    assert(rest[k] == cs@[start + k]);
                }
                assert(rest[j] == cs@[i as int]);
                lemma_index_of_is(rest, sep, j);
                assert(rest.take(j) == s@.subrange(start as int, i as int));
                assert(rest.skip(j + 1) == s@.skip(i + 1));
                assert(pieces.deep_view().push(piece@) + split(s@.skip(i + 1), sep)
                    == pieces.deep_view() + split(rest, sep));
            }
            let ghost before = pieces.deep_view();
            pieces.push(piece);
            assert(pieces.deep_view() == before.push(piece@));
            start = i + 1;
        }
        i += 1;
    }
    let last = s.substring_char(start, n).to_owned();
    proof {
        let rest = s@.skip(start as int);
        assert forall|k: int| 0 <= k < rest.len() implies rest[k] != sep by {
            assert(rest[k] == cs@[start + k]);
        }
        lemma_index_of_is(rest, sep, rest.len() as int);
        assert(rest == s@.subrange(start as int, n as int));
        assert(split(rest, sep) == seq![rest]);
    }
    let ghost before = pieces.deep_view();
    pieces.push(last);
    assert(pieces.deep_view() == before.push(last@));
    pieces
}

/// `s` without the first `k` characters of a leading run of `c` is still trimmed
/// to the same text.
proof fn lemma_trim_start_skips(s: Seq<char>, c: char, k: int)
    requires
        0 <= k <= s.len(),
        forall|j: int| 0 <= j < k ==> s[j] == c,
    ensures
        trim_start(s, c) == trim_start(s.skip(k), c),
    decreases k,
{
    if k == 0 {
        assert(s.skip(0) == s);
    } else {
        let t = s.drop_first();
        assert forall|j: int| 0 <= j < k - 1 implies t[j] == c by {
            assert(t[j] == s[j + 1]);
        }
        lemma_trim_start_skips(t, c, k - 1);
        assert(t.skip(k - 1) == s.skip(k));
    }
}

proof fn lemma_trim_end_takes(s: Seq<char>, c: char, k: int)
    requires
        0 <= k <= s.len(),
        forall|j: int| k <= j < s.len() ==> s[j] == c,
    ensures
        trim_end(s, c) == trim_end(s.take(k), c),
    decreases s.len() - k,
{
    if k == s.len() {
        assert(s.take(k) == s);
    } else {
        let t = s.drop_last();
        assert forall|j: int| k <= j < t.len() implies t[j] == c by {
            assert(t[j] == s[j]);
        }
        lemma_trim_end_takes(t, c, k);
        assert(t.take(k) == s.take(k));
    }
}

/// Removes the runs of `c` at both ends of `s`.
pub fn trim_matches_text(s: &str, c: char) -> (r: String)
    ensures
        r@ == trim_matches(s@, c),
{
    let cs = chars_of(s);
    let n = cs.len();
    let mut from: usize = 0;
    while from < n && cs[from] == c
        invariant
            cs@ == s@,
            n == cs.len(),
            0 <= from <= n,
            forall|j: int| 0 <= j < from ==> cs@[j] == c,
        decreases n - from,
    {
        from += 1;
    }
    let mut to: usize = n;
    while to > from && cs[to - 1] == c
        invariant
            cs@ == s@,
            n == cs.len(),
            from <= to <= n,
            forall|j: int| to <= j < n ==> cs@[j] == c,
        decreases to,
    {
        to -= 1;
    }
    proof {
        lemma_trim_start_skips(s@, c, from as int);
        let head = s@.skip(from as int);
        assert(trim_start(head, c) == head);
        assert forall|j: int| to - from <= j < head.len() implies head[j] == c by {
            assert(head[j] == cs@[from + j]);
        }
        lemma_trim_end_takes(head, c, to - from);
        let body = head.take(to - from);
        assert(body == s@.subrange(from as int, to as int));
        if body.len() > 0 {
            assert(body.last() == cs@[to - 1]);
        }
        assert(trim_end(body, c) == body);
    }
    s.substring_char(from, to).to_owned()
}

/// Whether `pattern` stands in `text` at position `at`.
fn stands_at(text: &Vec<char>, at: usize, pattern: &Vec<char>) -> (r: bool)
    requires
        at + pattern.len() <= text.len(),
    ensures
        r == occurs_at(text@, pattern@, at as int),
{
    let m = pattern.len();
    let mut k: usize = 0;
    while k < m
        invariant
            m == pattern.len(),
            at + m <= text.len(),
            0 <= k <= m,
            forall|j: int| 0 <= j < k ==> text@[at + j] == pattern@[j],
        decreases m - k,
    {
        if text[at + k] != pattern[k] {
            proof {
                let window = text@.subrange(at as int, at + m);
                assert(window[k as int] == text@[at + k]);
            }
            return false;
        }
        k += 1;
    }
    assert(text@.subrange(at as int, at + m) =~= pattern@);
    true
}

/// A stretch without an occurrence of `pattern` is copied as it stands.
proof fn lemma_replace_all_skips(s: Seq<char>, pattern: Seq<char>, with: Seq<char>, k: int)
    requires
        pattern.len() > 0,
        0 <= k <= s.len(),
        forall|j: int| 0 <= j < k ==> !#[trigger] occurs_at(s, pattern, j),
    ensures
        replace_all(s, pattern, with) == s.take(k) + replace_all(s.skip(k), pattern, with),
    decreases k,
{
    if k == 0 {
        assert(s.skip(0) == s);
        assert(s.take(0) + replace_all(s, pattern, with) == replace_all(s, pattern, with));
    } else if s.len() < pattern.len() {
        assert(replace_all(s.skip(k), pattern, with) == s.skip(k));
        assert(s.take(k) + s.skip(k) == s);
    } else {
        let t = s.drop_first();
        assert(!occurs_at(s, pattern, 0));
        assert(s.subrange(0, pattern.len() as int) == s.take(pattern.len() as int));
        assert forall|j: int| 0 <= j < k - 1 implies !#[trigger] occurs_at(t, pattern, j) by {
            assert(!occurs_at(s, pattern, j + 1));
            if j + pattern.len() <= t.len() {
                assert(t.subrange(j, j + pattern.len()) == s.subrange(
                    j + 1,
                    j + 1 + pattern.len(),
                ));
            }
        }
        lemma_replace_all_skips(t, pattern, with, k - 1);
        assert(t.skip(k - 1) == s.skip(k));
        assert(seq![s[0]] + (t.take(k - 1) + replace_all(s.skip(k), pattern, with)) == s.take(k)
            + replace_all(s.skip(k), pattern, with));
    }
}

/// Replaces every occurrence of `pattern` in `s` by `with`. An empty pattern
/// occurs nowhere.
pub fn replace_all_text(s: &str, pattern: &str, with: &str) -> (r: String)
    ensures
        r@ == replace_all(s@, pattern@, with@),
{
    let cs = chars_of(s);
    let ps = chars_of(pattern);
    let n = cs.len();
    let m = ps.len();
    if m == 0 {
        return s.to_owned();
    }
    let mut out = String::new();
    let mut start: usize = 0;
    let mut i: usize = 0;
    proof {
        assert(s@.skip(0) == s@);
        assert(out@ + replace_all(s@, pattern@, with@) == replace_all(s@, pattern@, with@));
    }
    while i < n && n - i >= m
        invariant
            cs@ == s@,
            ps@ == pattern@,
            n == cs.len(),
            m == ps.len(),
            m > 0,
            0 <= start <= i <= n,
            forall|j: int| start <= j < i ==> !#[trigger] occurs_at(s@, pattern@, j),
            replace_all(s@, pattern@, with@) == out@ + replace_all(
                s@.skip(start as int),
                pattern@,
                with@,
            ),
        decreases n - i,
    {
        if stands_at(&cs, i, &ps) {
            let ghost rest = s@.skip(start as int);
            let ghost k = i - start;
            proof {
                assert forall|j: int| 0 <= j < k implies !#[trigger] occurs_at(
                    rest,
                    pattern@,
                    j,
                ) by {
                    assert(!occurs_at(s@, pattern@, start + j));
                    if j + m <= rest.len() {
                        assert(rest.subrange(j, j + m) == s@.subrange(start + j, start + j + m));
                    }
                }
                lemma_replace_all_skips(rest, pattern@, with@, k);
                assert(rest.take(k) == s@.subrange(start as int, i as int));
                assert(rest.skip(k) == s@.skip(i as int));
                let tail = s@.skip(i as int);
                assert(tail.take(m as int) == s@.subrange(i as int, i + m));
                assert(tail.skip(m as int) == s@.skip(i + m));
            }
            let ghost before = out@;
            out.append(s.substring_char(start, i));
            out.append(with);
            proof {
                assert(out@ + replace_all(s@.skip(i + m), pattern@, with@) == before + (
                s@.subrange(start as int, i as int) + (with@ + replace_all(
                    s@.skip(i + m),
                    pattern@,
                    with@,
                ))));
                assert(before + replace_all(rest, pattern@, with@) == before + (s@.subrange(
                    start as int,
                    i as int,
                ) + (with@ + replace_all(s@.skip(i + m), pattern@, with@))));
            }
            i += m;
            start = i;
        } else {
            i += 1;
        }
    }
    proof {
        let rest = s@.skip(start as int);
        let k = rest.len() as int;
        assert forall|j: int| 0 <= j < k implies !#[trigger] occurs_at(rest, pattern@, j) by {
            if j + m <= rest.len() {
                assert(!occurs_at(s@, pattern@, start + j));
                assert(rest.subrange(j, j + m) == s@.subrange(start + j, start + j + m));
            }
        }
        lemma_replace_all_skips(rest, pattern@, with@, k);
        assert(rest.take(k) == rest);
        assert(rest.skip(k).len() == 0);
        assert(replace_all(rest.skip(k), pattern@, with@) == rest.skip(k));
        assert(rest + rest.skip(k) == rest);
        assert(rest == s@.subrange(start as int, n as int));
    }
    out.append(s.substring_char(start, n));
    out
}

/// Whether `s` ends in `suffix`.
pub fn ends_with_text(s: &str, suffix: &str) -> (r: bool)
    ensures
        r == ends_with(s@, suffix@),
{
    let cs = chars_of(s);
    let xs = chars_of(suffix);
    if cs.len() < xs.len() {
        return false;
    }
    let at = cs.len() - xs.len();
    let r = stands_at(&cs, at, &xs);
    assert(s@.skip(at as int) == cs@.subrange(at as int, at + xs.len()));
    r
}

/// Whether `a` comes before `b`, or equals it, in the order of the code points.
pub fn lex_le_text(a: &str, b: &str) -> (r: bool)
    ensures
        r == lex_le(a@, b@),
{
    let xs = chars_of(a);
    let ys = chars_of(b);
    let mut i: usize = 0;
    proof {
        assert(a@.skip(0) == a@);
        assert(b@.skip(0) == b@);
    }
    while i < xs.len() && i < ys.len()
        invariant
            xs@ == a@,
            ys@ == b@,
            0 <= i <= xs.len(),
            i <= ys.len(),
            lex_le(a@, b@) == lex_le(a@.skip(i as int), b@.skip(i as int)),
        decreases xs.len() - i,
    {
        let ghost x = a@.skip(i as int);
        let ghost y = b@.skip(i as int);
        proof {
            assert(x[0] == xs@[i as int]);
            assert(y[0] == ys@[i as int]);
            assert(x.drop_first() == a@.skip(i + 1));
            assert(y.drop_first() == b@.skip(i + 1));
        }
        let p: char = xs[i];
        let q: char = ys[i];
        if p != q {
            assert(lex_le(x, y) == ((x[0] as int) < (y[0] as int)));
            return p < q;
        }
        i += 1;
    }
    i == xs.len()
}

/// Of two texts, one comes before the other or equals it.
pub proof fn lemma_lex_le_total(a: Seq<char>, b: Seq<char>)
    ensures
        lex_le(a, b) || lex_le(b, a),
    decreases a.len(),
{
    if a.len() > 0 && b.len() > 0 {
        if a[0] == b[0] {
            lemma_lex_le_total(a.drop_first(), b.drop_first());
        }
    }
}

/// What comes before a text comes before everything behind that text.
pub proof fn lemma_lex_le_transitive(a: Seq<char>, b: Seq<char>, c: Seq<char>)
    requires
        lex_le(a, b),
        lex_le(b, c),
    ensures
        lex_le(a, c),
    decreases a.len(),
{
    if a.len() > 0 && b.len() > 0 && c.len() > 0 && a[0] == b[0] && b[0] == c[0] {
        lemma_lex_le_transitive(a.drop_first(), b.drop_first(), c.drop_first());
    }
}

/// Whether two texts are the same.
pub fn same_text(a: &str, b: &str) -> (r: bool)
    ensures
        r == (a@ == b@),
{
    let xs = chars_of(a);
    let ys = chars_of(b);
    if xs.len() != ys.len() {
        return false;
    }
    let r = stands_at(&xs, 0, &ys);
    assert(xs@.subrange(0, xs.len() as int) == xs@);
    r
}

} // verus!
