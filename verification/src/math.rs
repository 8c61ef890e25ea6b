//! Reading the parts of a MathJax SVG that inline and block formulas reuse.
use vstd::prelude::*;

use crate::strings::to_chars;
use vstd::string::StrSliceExecFns;

verus! {

/// The index of the first `c` in `s`, or `s.len()` when there is none.
pub open spec fn find_char_v(s: Seq<char>, c: char) -> int
    decreases s.len(),
{
    if s.len() == 0 {
        0
    } else if s[0] == c {
        0
    } else {
        1 + find_char_v(s.drop_first(), c)
    }
}

proof fn lemma_find_char_at(s: Seq<char>, c: char, j: int)
    requires
        0 <= j <= s.len(),
        forall|k: int| 0 <= k < j ==> #[trigger] s[k] != c,
        j < s.len() ==> s[j] == c,
    ensures
        find_char_v(s, c) == j,
    decreases s.len(),
{
    if s.len() > 0 && j > 0 {
        assert(s[0] != c);
        assert forall|k: int| 0 <= k < j - 1 implies #[trigger] s.drop_first()[k] != c by {
            assert(s.drop_first()[k] == s[k + 1]);
        }
        lemma_find_char_at(s.drop_first(), c, j - 1);
    }
}

/// Whether `pat` occurs in `s` at position `k`.
pub open spec fn occurs_at(s: Seq<char>, pat: Seq<char>, k: int) -> bool {
    0 <= k && k + pat.len() <= s.len() && s.subrange(k, k + pat.len()) == pat
}

/// The last position below `k` where `pat` occurs in `s`, or -1.
pub open spec fn last_occurrence_below(s: Seq<char>, pat: Seq<char>, k: int) -> int
    decreases k,
{
    if k <= 0 {
        -1
    } else if occurs_at(s, pat, k - 1) {
        k - 1
    } else {
        last_occurrence_below(s, pat, k - 1)
    }
}

/// The first position at or above `k` where `pat` occurs in `s`, or -1.
pub open spec fn first_occurrence_from(s: Seq<char>, pat: Seq<char>, k: int) -> int
    decreases s.len() + 1 - k,
{
    if k < 0 || k > s.len() {
        -1
    } else if occurs_at(s, pat, k) {
        k
    } else {
        first_occurrence_from(s, pat, k + 1)
    }
}

/// The closing tag of an SVG document.
pub open spec fn svg_close_tag() -> Seq<char> {
    seq!['<', '/', 's', 'v', 'g', '>']
}

/// The start of a `viewBox` attribute.
pub open spec fn view_box_marker() -> Seq<char> {
    seq!['v', 'i', 'e', 'w', 'B', 'o', 'x', '=', '"']
}

/// What lies between the end of the first tag (the first `>`) and the last
/// `</svg>`, when both exist in that order.
pub open spec fn svg_inner_v(s: Seq<char>) -> Option<Seq<char>> {
    let a = find_char_v(s, '>');
    let b = last_occurrence_below(s, svg_close_tag(), s.len() + 1int);
    if a < s.len() && b >= 0 && a + 1 <= b {
        Some(s.subrange(a + 1, b))
    } else {
        None
    }
}

/// The value of the first `viewBox="…"` attribute: from after the marker to
/// the next double quote, when both exist.
pub open spec fn view_box_attr_v(s: Seq<char>) -> Option<Seq<char>> {
    let m = first_occurrence_from(s, view_box_marker(), 0);
    if m < 0 {
        None
    } else {
        let start = m + view_box_marker().len();
        let q = find_char_v(s.skip(start), '"');
        if q < s.len() - start {
            Some(s.subrange(start, start + q))
        } else {
            None
        }
    }
}

fn occurs_at_exec(cs: &Vec<char>, pat: &Vec<char>, k: usize) -> (r: bool)
    ensures
        r == occurs_at(cs@, pat@, k as int),
{
    if k > cs.len() || pat.len() > cs.len() - k {
        return false;
    }
    let mut j: usize = 0;
    while j < pat.len()
        invariant
            k + pat@.len() <= cs@.len(),
            j <= pat@.len(),
            forall|t: int| 0 <= t < j ==> cs@[k + t] == #[trigger] pat@[t],
        decreases pat.len() - j,
    {
        assert(k + j < cs.len());
        if cs[k + j] != pat[j] {
            assert(cs@.subrange(k as int, k + pat@.len())[j as int] != pat@[j as int]);
            return false;
        }
        j = j + 1;
    }
    assert(cs@.subrange(k as int, k + pat@.len()) =~= pat@);
    true
}

fn find_char(cs: &Vec<char>, from: usize, c: char) -> (r: usize)
    requires
        from <= cs@.len(),
    ensures
        from + find_char_v(cs@.skip(from as int), c) == r,
        from <= r <= cs@.len(),
{
    let mut i = from;
    while i < cs.len() && cs[i] != c
        invariant
            from <= i <= cs@.len(),
            forall|k: int| from <= k < i ==> #[trigger] cs@[k] != c,
        decreases cs.len() - i,
    {
        i = i + 1;
    }
    proof {
        let s = cs@.skip(from as int);
        assert forall|k: int| 0 <= k < i - from implies #[trigger] s[k] != c by {
            assert(s[k] == cs@[from + k]);
        }
        lemma_find_char_at(s, c, i - from);
    }
    i
}

/// The last position where `pat` occurs in `cs`.
fn last_occurrence(cs: &Vec<char>, pat: &Vec<char>) -> (r: Option<usize>)
    requires
        pat@.len() > 0,
    ensures
        r matches Some(p) ==> p as int == last_occurrence_below(cs@, pat@, cs@.len() + 1int) && occurs_at(cs@, pat@, p as int),
        r is None ==> last_occurrence_below(cs@, pat@, cs@.len() + 1int) == -1,
{
    let n = cs.len();
    let mut p: usize = n;
    loop
        invariant
            p <= n == cs@.len(),
            pat@.len() > 0,
            last_occurrence_below(cs@, pat@, p + 1int) == last_occurrence_below(cs@, pat@, n + 1int),
        decreases p,
    {
        if occurs_at_exec(cs, pat, p) {
            return Some(p);
        }
        if p == 0 {
            assert(last_occurrence_below(cs@, pat@, 0) == -1);
            return None;
        }
        p = p - 1;
    }
}

/// The first position where `pat` occurs in `cs`.
fn first_occurrence(cs: &Vec<char>, pat: &Vec<char>) -> (r: Option<usize>)
    requires
        pat@.len() > 0,
    ensures
        r matches Some(p) ==> p as int == first_occurrence_from(cs@, pat@, 0) && occurs_at(cs@, pat@, p as int),
        r is None ==> first_occurrence_from(cs@, pat@, 0) == -1,
{
    let n = cs.len();
    let mut m: usize = 0;
    while m < n
        invariant
            m <= n == cs@.len(),
            pat@.len() > 0,
            first_occurrence_from(cs@, pat@, m as int) == first_occurrence_from(cs@, pat@, 0),
        decreases n - m,
    {
        if occurs_at_exec(cs, pat, m) {
            return Some(m);
        }
        m = m + 1;
    }
    assert(!occurs_at(cs@, pat@, n as int));
    assert(first_occurrence_from(cs@, pat@, n + 1int) == -1);
    None
}

/// The inner markup of an SVG document: what lies between the end of its
/// first tag and its last `</svg>`.
pub fn svg_inner_content(svg: &str) -> (r: Option<&str>)
    ensures
        r matches Some(inner) ==> svg_inner_v(svg@) == Some(inner@),
        r is None ==> svg_inner_v(svg@) is None,
{
    let cs = to_chars(svg);
    let n = cs.len();
    let a = find_char(&cs, 0, '>');
    assert(cs@.skip(0) =~= cs@);
    if a >= n {
        return None;
    }
    let pat = vec!['<', '/', 's', 'v', 'g', '>'];
    assert(pat@ =~= svg_close_tag());
    let b = match last_occurrence(&cs, &pat) {
        Some(b) => b,
        None => {
            return None;
        },
    };
    if a + 1 <= b {
        Some(svg.substring_char(a + 1, b))
    } else {
        None
    }
}

/// The text of the first `viewBox` attribute of an SVG document.
pub fn view_box_attr(svg: &str) -> (r: Option<&str>)
    ensures
        r matches Some(v) ==> view_box_attr_v(svg@) == Some(v@),
        r is None ==> view_box_attr_v(svg@) is None,
{
    let cs = to_chars(svg);
    let n = cs.len();
    let marker = vec!['v', 'i', 'e', 'w', 'B', 'o', 'x', '=', '"'];
    assert(marker@ =~= view_box_marker());
    let m = match first_occurrence(&cs, &marker) {
        Some(m) => m,
        None => {
            return None;
        },
    };
    let start = m + 9;
    let q = find_char(&cs, start, '"');
    if q < n {
        Some(svg.substring_char(start, q))
    } else {
        None
    }
}

// ───────────────────────────── laws ─────────────────────────────

proof fn lemma_last_occurrence_is(s: Seq<char>, pat: Seq<char>, k: int, p: int)
    requires
        0 <= p < k,
        occurs_at(s, pat, p),
        forall|q: int| p < q < k ==> !#[trigger] occurs_at(s, pat, q),
    ensures
        last_occurrence_below(s, pat, k) == p,
    decreases k,
{
    if k - 1 > p {
        assert(!occurs_at(s, pat, k - 1));
        lemma_last_occurrence_is(s, pat, k - 1, p);
    }
}

/// The inner markup of an SVG document written as a start tag (which holds
/// no `>` but the one that ends it), any markup, and `</svg>` is exactly
/// that markup, whatever it holds.
pub proof fn law_svg_inner_of_wrapped(head: Seq<char>, inner: Seq<char>)
    requires
        head.len() > 0,
        head.last() == '>',
        forall|i: int| 0 <= i < head.len() - 1 ==> head[i] != '>',
    ensures
        svg_inner_v(head + inner + svg_close_tag()) == Some(inner),
{
    let s = head + inner + svg_close_tag();
    let a: int = head.len() - 1;
    let b: int = head.len() as int + inner.len() as int;
    assert forall|k: int| 0 <= k < a implies #[trigger] s[k] != '>' by {
        assert(s[k] == head[k]);
    }
    assert(s[a] == head[a]);
    lemma_find_char_at(s, '>', a);
    assert(s.subrange(b, b + 6) =~= svg_close_tag());
    assert forall|q: int| b < q < s.len() + 1 implies !#[trigger] occurs_at(s, svg_close_tag(), q) by {}
    lemma_last_occurrence_is(s, svg_close_tag(), s.len() + 1int, b);
    assert(s.subrange(a + 1, b) =~= inner);
}

proof fn lemma_first_occurrence_is(s: Seq<char>, pat: Seq<char>, k: int, p: int)
    requires
        0 <= k <= p <= s.len(),
        occurs_at(s, pat, p),
        forall|q: int| k <= q < p ==> !#[trigger] occurs_at(s, pat, q),
    ensures
        first_occurrence_from(s, pat, k) == p,
    decreases p - k,
{
    if k < p {
        assert(!occurs_at(s, pat, k));
        lemma_first_occurrence_is(s, pat, k + 1, p);
    }
}

/// The `viewBox` of markup in which the first `viewBox="` is followed by a
/// value without a double quote and then a double quote is that value.
pub proof fn law_view_box_of_attribute(before: Seq<char>, value: Seq<char>, after: Seq<char>)
    requires
        forall|k: int| 0 <= k < value.len() ==> value[k] != '"',
        forall|k: int|
            0 <= k < before.len() ==> !#[trigger] occurs_at(
                before + view_box_marker() + value + seq!['"'] + after,
                view_box_marker(),
                k,
            ),
    ensures
        view_box_attr_v(before + view_box_marker() + value + seq!['"'] + after) == Some(value),
{
    let s = before + view_box_marker() + value + seq!['"'] + after;
    let m: int = before.len() as int;
    assert(s.subrange(m, m + 9) =~= view_box_marker());
    lemma_first_occurrence_is(s, view_box_marker(), 0, m);
    let start = m + 9;
    let t = s.skip(start);
    assert forall|k: int| 0 <= k < value.len() implies #[trigger] t[k] != '"' by {
        assert(t[k] == value[k]);
    }
    assert(t[value.len() as int] == '"');
    lemma_find_char_at(t, '"', value.len() as int);
    assert(s.subrange(start, start + value.len()) =~= value);
}

} // verus!
