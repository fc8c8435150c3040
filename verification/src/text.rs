//! Character-level text utilities shared by the selector, the matcher and the
//! report queries: searching, trimming, suffix and substring tests, and
//! splitting into lines or comma-separated fields.

use vstd::prelude::*;
use vstd::string::*;

verus! {

/// Whitespace as this scanner understands it: blanks, tabs and line breaks.
pub open spec fn is_space(c: char) -> bool {
    c == ' ' || c == '\t' || c == '\r' || c == '\n'
}

/// Runtime test for [`is_space`].
pub fn is_space_char(c: char) -> (r: bool)
    ensures
        r == is_space(c),
{
    c == ' ' || c == '\t' || c == '\r' || c == '\n'
}

/// Index of the first occurrence of `c` in `s` at or after `from`, if any.
pub open spec fn find_from(s: Seq<char>, c: char, from: int) -> Option<int>
    decreases s.len() - from,
{
    if from < 0 || from >= s.len() {
        None
    } else if s[from] == c {
        Some(from)
    } else {
        find_from(s, c, from + 1)
    }
}

/// `find_from` returns the least index at or after `from` holding `c`.
pub proof fn lemma_find_from(s: Seq<char>, c: char, from: int)
    requires
        0 <= from,
    ensures
        match find_from(s, c, from) {
            Some(k) => from <= k < s.len() && s[k] == c && (forall|j: int|
                from <= j < k ==> s[j] != c),
            None => forall|j: int| from <= j < s.len() ==> s[j] != c,
        },
    decreases s.len() - from,
{
    if from < s.len() && s[from] != c {
        lemma_find_from(s, c, from + 1);
    }
}

/// Runtime counterpart of [`find_from`].
pub fn find_in(chars: &Vec<char>, c: char, from: usize) -> (r: Option<usize>)
    ensures
        match r {
            Some(k) => find_from(chars@, c, from as int) == Some(k as int) && from <= k
                < chars@.len(),
            None => find_from(chars@, c, from as int) is None,
        },
{
    let n = chars.len();
    let mut i = from;
    while i < n
        invariant
            from <= i,
            n == chars@.len(),
            find_from(chars@, c, from as int) == find_from(chars@, c, i as int),
        decreases n - i,
    {
        if chars[i] == c {
            return Some(i);
        }
        i += 1;
    }
    None
}

/// The characters of `s` as a vector, one entry per `char`.
pub fn str_chars(s: &str) -> (r: Vec<char>)
    ensures
        r@ == s@,
{
    let n = s.unicode_len();
    let mut r: Vec<char> = Vec::new();
    let mut i: usize = 0;
    while i < n
        invariant
            i <= n,
            n == s@.len(),
            r@ == s@.subrange(0, i as int),
        decreases n - i,
    {
        let c = s.get_char(i);
        r.push(c);
        assert(r@ =~= s@.subrange(0, i + 1 as int));
        i += 1;
    }
    assert(s@.subrange(0, n as int) =~= s@);
    r
}

/// `s` without its leading whitespace.
pub open spec fn trim_front(s: Seq<char>) -> Seq<char>
    decreases s.len(),
{
    if s.len() > 0 && is_space(s[0]) {
        trim_front(s.drop_first())
    } else {
        s
    }
}

/// `s` without its trailing whitespace.
pub open spec fn trim_back(s: Seq<char>) -> Seq<char>
    decreases s.len(),
{
    if s.len() > 0 && is_space(s.last()) {
        trim_back(s.drop_last())
    } else {
        s
    }
}

/// `s` without leading or trailing whitespace.
pub open spec fn trimmed(s: Seq<char>) -> Seq<char> {
    trim_back(trim_front(s))
}

pub proof fn lemma_trim_front_bounds(s: Seq<char>, a: int)
    requires
        0 <= a <= s.len(),
        forall|i: int| 0 <= i < a ==> is_space(s[i]),
        a < s.len() ==> !is_space(s[a]),
    ensures
        trim_front(s) == s.subrange(a, s.len() as int),
    decreases a,
{
    if a == 0 {
        assert(s.subrange(0, s.len() as int) =~= s);
    } else {
        lemma_trim_front_bounds(s.drop_first(), a - 1);
        assert(s.drop_first().subrange(a - 1, s.drop_first().len() as int) =~= s.subrange(
            a,
            s.len() as int,
        ));
    }
}

pub proof fn lemma_trim_back_bounds(s: Seq<char>, b: int)
    requires
        0 <= b <= s.len(),
        forall|i: int| b <= i < s.len() ==> is_space(s[i]),
        b > 0 ==> !is_space(s[b - 1]),
    ensures
        trim_back(s) == s.subrange(0, b),
    decreases s.len(),
{
    if b == s.len() {
        if s.len() == 0 {
            assert(trim_back(s) == s);
            assert(s.subrange(0, 0) =~= s);
        } else {
            assert(!is_space(s.last()));
            assert(s.subrange(0, b) =~= s);
        }
    } else {
        assert(is_space(s.last()));
        lemma_trim_back_bounds(s.drop_last(), b);
        assert(s.drop_last().subrange(0, b) =~= s.subrange(0, b));
    }
}

/// Bounds of the trimmed portion of `chars[lo..hi]`.
pub fn trim_bounds(chars: &Vec<char>, lo: usize, hi: usize) -> (r: (usize, usize))
    requires
        lo <= hi <= chars@.len(),
    ensures
        lo <= r.0 <= r.1 <= hi,
        trimmed(chars@.subrange(lo as int, hi as int)) == chars@.subrange(
            r.0 as int,
            r.1 as int,
        ),
{
    let mut a = lo;
    while a < hi && is_space_char(chars[a])
        invariant
            lo <= a <= hi <= chars@.len(),
            forall|i: int| lo <= i < a ==> is_space(chars@[i]),
        decreases hi - a,
    {
        a += 1;
    }
    let mut b = hi;
    while b > a && is_space_char(chars[b - 1])
        invariant
            a <= b <= hi <= chars@.len(),
            forall|i: int| b <= i < hi ==> is_space(chars@[i]),
        decreases b,
    {
        b -= 1;
    }
    proof {
        let s = chars@.subrange(lo as int, hi as int);
        lemma_trim_front_bounds(s, a - lo);
        let t = s.subrange(a - lo, s.len() as int);
        lemma_trim_back_bounds(t, b - a);
        assert(t.subrange(0, b - a) =~= chars@.subrange(a as int, b as int));
    }
    (a, b)
}

/// Runtime trim of a string, per [`trimmed`].
pub fn trim_str(s: &str) -> (r: String)
    ensures
        r@ == trimmed(s@),
{
    let chars = str_chars(s);
    let (a, b) = trim_bounds(&chars, 0, chars.len());
    proof {
        assert(chars@.subrange(0, chars@.len() as int) =~= s@);
    }
    let piece = s.substring_char(a, b);
    String::from_str(piece)
}

/// `s` ends with `suffix`.
pub open spec fn has_suffix(s: Seq<char>, suffix: Seq<char>) -> bool {
    suffix.len() <= s.len() && s.subrange(s.len() - suffix.len(), s.len() as int) == suffix
}

/// The window of `s` at offset `off` equals `pat`.
pub fn window_eq(s: &Vec<char>, pat: &Vec<char>, off: usize) -> (r: bool)
    requires
        off + pat@.len() <= s@.len(),
    ensures
        r == (s@.subrange(off as int, off + pat@.len()) == pat@),
{
    let m = pat.len();
    let n = s.len();
    let mut i: usize = 0;
    while i < m
        invariant
            i <= m,
            m == pat@.len(),
            n == s@.len(),
            off + m <= n,
            forall|j: int| 0 <= j < i ==> s@[off + j] == pat@[j],
        decreases m - i,
    {
        if s[off + i] != pat[i] {
            assert(s@.subrange(off as int, off + pat@.len())[i as int] != pat@[i as int]);
            return false;
        }
        i += 1;
    }
    assert(s@.subrange(off as int, off + pat@.len()) =~= pat@);
    true
}

/// Runtime test for [`has_suffix`].
pub fn chars_have_suffix(s: &Vec<char>, suffix: &Vec<char>) -> (r: bool)
    ensures
        r == has_suffix(s@, suffix@),
{
    if suffix.len() > s.len() {
        return false;
    }
    let off = s.len() - suffix.len();
    window_eq(s, suffix, off)
}

/// `pat` occurs somewhere inside `s`.
pub open spec fn contains_seq(s: Seq<char>, pat: Seq<char>) -> bool {
    exists|i: int| 0 <= i && i + pat.len() <= s.len() && #[trigger] s.subrange(i, i + pat.len())
        == pat
}

/// Runtime test for [`contains_seq`].
pub fn chars_contain(s: &Vec<char>, pat: &Vec<char>) -> (r: bool)
    ensures
        r == contains_seq(s@, pat@),
{
    let n = s.len();
    let m = pat.len();
    if m > n {
        return false;
    }
    if m == 0 {
        assert(contains_seq(s@, pat@)) by {
            assert(s@.subrange(0, 0 + pat@.len() as int) =~= pat@);
        }
        return true;
    }
    let mut i: usize = 0;
    while i <= n - m
        invariant
            1 <= m <= n,
            n == s@.len(),
            m == pat@.len(),
            i <= n - m + 1,
            forall|k: int| 0 <= k < i ==> #[trigger] s@.subrange(k, k + pat@.len()) != pat@,
        decreases n - i,
    {
        if window_eq(s, pat, i) {
            assert(contains_seq(s@, pat@));
            return true;
        }
        i += 1;
    }
    assert(forall|k: int|
        0 <= k && k + pat@.len() <= s@.len() ==> #[trigger] s@.subrange(k, k + pat@.len())
            != pat@);
    false
}

/// `s` with one trailing carriage return removed, if present.
pub open spec fn strip_cr(s: Seq<char>) -> Seq<char> {
    if s.len() > 0 && s.last() == '\r' {
        s.drop_last()
    } else {
        s
    }
}

/// The fields of `s` from `from` onward, split at `sep`; a trailing separator
/// yields a trailing empty field, and an empty input is one empty field.
pub open spec fn split_on_from(s: Seq<char>, sep: char, from: int) -> Seq<Seq<char>>
    decreases s.len() - from,
    via split_on_from_decreases
{
    if from < 0 || from > s.len() {
        seq![]
    } else {
        match find_from(s, sep, from) {
            Some(k) => seq![s.subrange(from, k)] + split_on_from(s, sep, k + 1),
            None => seq![s.subrange(from, s.len() as int)],
        }
    }
}

#[via_fn]
proof fn split_on_from_decreases(s: Seq<char>, sep: char, from: int) {
    if 0 <= from <= s.len() {
        lemma_find_from(s, sep, from);
    }
}

/// The fields of `s` split at `sep`.
pub open spec fn split_on(s: Seq<char>, sep: char) -> Seq<Seq<char>> {
    split_on_from(s, sep, 0)
}

/// The lines of `s` from `from` onward: split at line feeds, a carriage
/// return directly before a line feed dropped, and a final empty rest
/// (after a trailing line feed) yielding no line.
pub open spec fn split_lines_from(s: Seq<char>, from: int) -> Seq<Seq<char>>
    decreases s.len() - from,
    via split_lines_from_decreases
{
    if from < 0 || from >= s.len() {
        seq![]
    } else {
        match find_from(s, '\n', from) {
            Some(k) => seq![strip_cr(s.subrange(from, k))] + split_lines_from(s, k + 1),
            None => seq![s.subrange(from, s.len() as int)],
        }
    }
}

#[via_fn]
proof fn split_lines_from_decreases(s: Seq<char>, from: int) {
    if 0 <= from < s.len() {
        lemma_find_from(s, '\n', from);
    }
}

/// The lines of `s`.
pub open spec fn split_lines_spec(s: Seq<char>) -> Seq<Seq<char>> {
    split_lines_from(s, 0)
}

/// Runtime counterpart of [`split_lines_spec`].
pub fn split_lines(content: &str) -> (r: Vec<String>)
    ensures
        r.deep_view() == split_lines_spec(content@),
{
    let chars = str_chars(content);
    let n = chars.len();
    let mut r: Vec<String> = Vec::new();
    let mut start: usize = 0;
    while start < n
        invariant
            start <= n,
            n == content@.len(),
            chars@ == content@,
            r.deep_view() + split_lines_from(content@, start as int) == split_lines_spec(
                content@,
            ),
        decreases n - start,
    {
        let ghost prev_dv = r.deep_view();
        let found = find_in(&chars, '\n', start);
        proof {
            lemma_find_from(content@, '\n', start as int);
        }
        match found {
            Some(k) => {
                let end = if k > start && chars[k - 1] == '\r' {
                    k - 1
                } else {
                    k
                };
                let piece = content.substring_char(start, end);
                let line = String::from_str(piece);
                proof {
                    assert(line@ =~= strip_cr(content@.subrange(start as int, k as int)));
                }
                r.push(line);
                proof {
                    assert(r.deep_view() =~= prev_dv.push(line@));
                    assert(seq![strip_cr(content@.subrange(start as int, k as int))]
                        + split_lines_from(content@, k + 1) == split_lines_from(
                        content@,
                        start as int,
                    ));
                    assert(r.deep_view() + split_lines_from(content@, k + 1)
                        =~= split_lines_spec(content@));
                }
                start = k + 1;
            },
            None => {
                let piece = content.substring_char(start, n);
                let line = String::from_str(piece);
                r.push(line);
                proof {
                    assert(r.deep_view() =~= prev_dv.push(line@));
                    assert(split_lines_from(content@, start as int) == seq![
                        content@.subrange(start as int, content@.len() as int),
                    ]);
                    assert(r.deep_view() + split_lines_from(content@, n as int)
                        =~= split_lines_spec(content@));
                }
                start = n;
            },
        }
    }
    proof {
        assert(split_lines_from(content@, start as int) == Seq::<Seq<char>>::empty());
        assert(r.deep_view() + Seq::<Seq<char>>::empty() =~= r.deep_view());
    }
    r
}

/// Runtime counterpart of [`split_on`] for one-character separators.
pub fn split_str_on(s: &str, sep: char) -> (r: Vec<String>)
    ensures
        r.deep_view() == split_on(s@, sep),
{
    let chars = str_chars(s);
    let n = chars.len();
    let mut r: Vec<String> = Vec::new();
    let mut start: usize = 0;
    let mut done = false;
    while !done
        invariant
            start <= n,
            n == s@.len(),
            chars@ == s@,
            !done ==> r.deep_view() + split_on_from(s@, sep, start as int) == split_on(
                s@,
                sep,
            ),
            done ==> r.deep_view() == split_on(s@, sep),
        decreases n - start + 1, (if done { 0int } else { 1int }),
    {
        let ghost prev_dv = r.deep_view();
        let found = find_in(&chars, sep, start);
        proof {
            lemma_find_from(s@, sep, start as int);
        }
        match found {
            Some(k) => {
                let piece = s.substring_char(start, k);
                let field = String::from_str(piece);
                r.push(field);
                proof {
                    assert(r.deep_view() =~= prev_dv.push(s@.subrange(
                        start as int,
                        k as int,
                    )));
                    assert(seq![s@.subrange(start as int, k as int)] + split_on_from(
                        s@,
                        sep,
                        k + 1,
                    ) == split_on_from(s@, sep, start as int));
                    assert(r.deep_view() + split_on_from(s@, sep, k + 1) =~= split_on(
                        s@,
                        sep,
                    ));
                }
                start = k + 1;
            },
            None => {
                let piece = s.substring_char(start, n);
                let field = String::from_str(piece);
                r.push(field);
                proof {
                    assert(r.deep_view() =~= prev_dv.push(s@.subrange(
                        start as int,
                        s@.len() as int,
                    )));
                    assert(split_on_from(s@, sep, start as int) == seq![
                        s@.subrange(start as int, s@.len() as int),
                    ]);
                    assert(r.deep_view() =~= split_on(s@, sep));
                }
                done = true;
            },
        }
    }
    r
}

} // verus!
