//! Character-level text primitives the cleanup pipeline and the renderer
//! are built from: literal substring removal, whitespace collapsing,
//! substring search, digit printing and padding, each specified over
//! sequences of characters.
use vstd::prelude::*;

verus! {

/// The whitespace characters the cleanup pipeline collapses.
pub open spec fn is_ws(c: char) -> bool {
    c == ' ' || c == '\t' || c == '\n' || c == '\r'
}

/// `s` with every occurrence of `pat` removed, scanning left to right
/// without rescanning what a removal joins together.
pub open spec fn remove_all(s: Seq<char>, pat: Seq<char>) -> Seq<char>
    decreases s.len(),
{
    if pat.len() == 0 || s.len() < pat.len() {
        s
    } else if s.take(pat.len() as int) == pat {
        remove_all(s.skip(pat.len() as int), pat)
    } else {
        seq![s[0]] + remove_all(s.drop_first(), pat)
    }
}

/// Runs of whitespace collapsed to one space; `prev_ws` tells whether a
/// run is already open.
pub open spec fn collapse_ws_from(s: Seq<char>, prev_ws: bool) -> Seq<char>
    decreases s.len(),
{
    if s.len() == 0 {
        Seq::empty()
    } else if is_ws(s[0]) {
        if prev_ws {
            collapse_ws_from(s.drop_first(), true)
        } else {
            seq![' '] + collapse_ws_from(s.drop_first(), true)
        }
    } else {
        seq![s[0]] + collapse_ws_from(s.drop_first(), false)
    }
}

/// Runs of whitespace collapsed to one space.
pub open spec fn collapse_ws(s: Seq<char>) -> Seq<char> {
    collapse_ws_from(s, false)
}

/// First position where `pat` occurs in `s`, or -1.
pub open spec fn find_sub(s: Seq<char>, pat: Seq<char>) -> int
    decreases s.len(),
{
    if pat.len() == 0 {
        0
    } else if s.len() < pat.len() {
        -1
    } else if s.take(pat.len() as int) == pat {
        0
    } else {
        let r = find_sub(s.drop_first(), pat);
        if r == -1 {
            -1
        } else {
            r + 1
        }
    }
}

/// Whether `pat` occurs in `s`.
pub open spec fn contains_sub(s: Seq<char>, pat: Seq<char>) -> bool {
    find_sub(s, pat) != -1
}

pub proof fn lemma_find_sub_bounds(s: Seq<char>, pat: Seq<char>)
    ensures
        find_sub(s, pat) != -1 ==> {
            let i = find_sub(s, pat);
            &&& 0 <= i <= s.len() - pat.len()
            &&& s.subrange(i, i + pat.len()) == pat
        },
        find_sub(s, pat) == -1 ==> forall|i: int|
            0 <= i <= s.len() - pat.len() ==> #[trigger] s.subrange(i, i + pat.len() as int)
                != pat,
    decreases s.len(),
{
    if pat.len() == 0 {
        assert(s.subrange(0, 0) =~= pat);
    } else if s.len() < pat.len() {
    } else if s.take(pat.len() as int) == pat {
        assert(s.subrange(0, pat.len() as int) =~= s.take(pat.len() as int));
    } else {
        lemma_find_sub_bounds(s.drop_first(), pat);
        let r = find_sub(s.drop_first(), pat);
        if r != -1 {
            assert(s.drop_first().subrange(r, r + pat.len()) =~= s.subrange(
                r + 1,
                r + 1 + pat.len(),
            ));
        } else {
            assert forall|i: int| 0 <= i <= s.len() - pat.len() implies #[trigger] s.subrange(
                i,
                i + pat.len() as int,
            ) != pat by {
                if i == 0 {
                    assert(s.subrange(0, pat.len() as int) =~= s.take(pat.len() as int));
                } else {
                    assert(s.drop_first().subrange(i - 1, i - 1 + pat.len()) =~= s.subrange(
                        i,
                        i + pat.len(),
                    ));
                }
            }
        }
    }
}

/// A scan that found `pat` at `i` and nowhere earlier found the first
/// occurrence.
pub proof fn lemma_find_sub_at(s: Seq<char>, pat: Seq<char>, i: int)
    requires
        0 <= i <= s.len() - pat.len(),
        s.subrange(i, i + pat.len() as int) == pat,
        forall|j: int| 0 <= j < i ==> #[trigger] s.subrange(j, j + pat.len() as int) != pat,
    ensures
        find_sub(s, pat) == i,
    decreases s.len(),
{
    if i == 0 {
        assert(s.take(pat.len() as int) =~= s.subrange(0, pat.len() as int));
    } else {
        assert(s.subrange(0, 0 + pat.len() as int) != pat);
        if pat.len() == 0 {
            assert(s.subrange(0, 0) =~= pat);
        }
        assert(s.take(pat.len() as int) =~= s.subrange(0, 0 + pat.len() as int));
        assert(s.take(pat.len() as int) != pat);
        assert(s.drop_first().subrange(i - 1, i - 1 + pat.len()) =~= s.subrange(i, i + pat.len()));
        assert forall|j: int| 0 <= j < i - 1 implies #[trigger] s.drop_first().subrange(
            j,
            j + pat.len() as int,
        ) != pat by {
            assert(s.drop_first().subrange(j, j + pat.len()) =~= s.subrange(j + 1, j + 1 + pat.len()));
        }
        lemma_find_sub_at(s.drop_first(), pat, i - 1);
    }
}

/// The decimal digits of `n`, most significant first.
pub open spec fn dec_digits(n: nat) -> Seq<char>
    decreases n,
{
    if n < 10 {
        seq![digit_char(n)]
    } else {
        dec_digits(n / 10) + seq![digit_char(n % 10)]
    }
}

/// The character of one decimal digit.
pub open spec fn digit_char(d: nat) -> char {
    if d == 0 {
        '0'
    } else if d == 1 {
        '1'
    } else if d == 2 {
        '2'
    } else if d == 3 {
        '3'
    } else if d == 4 {
        '4'
    } else if d == 5 {
        '5'
    } else if d == 6 {
        '6'
    } else if d == 7 {
        '7'
    } else if d == 8 {
        '8'
    } else {
        '9'
    }
}

/// The decimal text of an integer, with a leading minus when negative.
pub open spec fn int_str(v: int) -> Seq<char> {
    if v < 0 {
        seq!['-'] + dec_digits((-v) as nat)
    } else {
        dec_digits(v as nat)
    }
}

/// `n` spaces.
pub open spec fn spaces(n: int) -> Seq<char>
    decreases n,
{
    if n <= 0 {
        Seq::empty()
    } else {
        spaces(n - 1) + seq![' ']
    }
}

/// `s` padded with spaces on the right up to `width`.
pub open spec fn pad_right(s: Seq<char>, width: int) -> Seq<char> {
    if s.len() >= width {
        s
    } else {
        s + spaces(width - s.len())
    }
}

/// Only the ASCII characters of `s`: how the renderer strips emoji from
/// names.
pub open spec fn ascii_only(s: Seq<char>) -> Seq<char>
    decreases s.len(),
{
    if s.len() == 0 {
        Seq::empty()
    } else if (s[0] as u32) < 128 {
        seq![s[0]] + ascii_only(s.drop_first())
    } else {
        ascii_only(s.drop_first())
    }
}

/// `s` with every trailing "..." removed.
pub open spec fn trim_end_dots(s: Seq<char>) -> Seq<char>
    decreases s.len(),
{
    if s.len() >= 3 && s.subrange(s.len() - 3, s.len() as int) == seq!['.', '.', '.'] {
        trim_end_dots(s.take(s.len() - 3))
    } else {
        s
    }
}

/// Whether `s` holds nothing but whitespace.
pub open spec fn all_ws(s: Seq<char>) -> bool {
    forall|i: int| 0 <= i < s.len() ==> is_ws(#[trigger] s[i])
}

/// The characters of a text, for the character-level pipeline.
pub fn str_to_chars(s: &str) -> (r: Vec<char>)
    ensures
        r@ == s@,
{
    let n = s.unicode_len();
    let mut out: Vec<char> = Vec::new();
    let mut i: usize = 0;
    while i < n
        invariant
            i <= n,
            n == s@.len(),
            out@ =~= s@.take(i as int),
        decreases n - i,
    {
        out.push(s.get_char(i));
        proof {
            assert(s@.take(i + 1) =~= s@.take(i as int).push(s@[i as int]));
        }
        i = i + 1;
    }
    proof {
        assert(s@.take(n as int) =~= s@);
    }
    out
}

/// Relies on `String::from_iter` over `char`: collecting characters into a
/// string yields exactly those characters.
#[verifier::external_body]
pub fn chars_to_string(v: &Vec<char>) -> (s: String)
    ensures
        s@ == v@,
{
    v.iter().collect()
}

/// Whether `pat` sits at position `i` of `s`.
fn prefix_eq_at(s: &Vec<char>, i: usize, pat: &Vec<char>) -> (r: bool)
    requires
        i + pat@.len() <= s@.len(),
    ensures
        r <==> s@.subrange(i as int, i as int + pat@.len() as int) == pat@,
{
    let m = pat.len();
    let sl = s.len();
    let mut j: usize = 0;
    while j < m
        invariant
            j <= m,
            m == pat@.len(),
            sl == s@.len(),
            i + m <= s@.len(),
            forall|k: int| 0 <= k < j ==> s@[i + k] == pat@[k],
        decreases m - j,
    {
        if s[i + j] != pat[j] {
            assert(s@.subrange(i as int, i as int + m as int)[j as int] != pat@[j as int]);
            return false;
        }
        j = j + 1;
    }
    assert(s@.subrange(i as int, i as int + m as int) =~= pat@);
    true
}

/// `s` with every occurrence of `pat` removed.
pub fn remove_occurrences(s: &Vec<char>, pat: &Vec<char>) -> (r: Vec<char>)
    requires
        pat@.len() > 0,
    ensures
        r@ == remove_all(s@, pat@),
{
    let mut out: Vec<char> = Vec::new();
    let n = s.len();
    let m = pat.len();
    let mut i: usize = 0;
    proof {
        assert(s@.skip(0) =~= s@);
        assert(out@ + remove_all(s@, pat@) =~= remove_all(s@, pat@));
    }
    while i < n
        invariant
            i <= n,
            n == s@.len(),
            m == pat@.len(),
            m > 0,
            remove_all(s@, pat@) == out@ + remove_all(s@.skip(i as int), pat@),
        decreases n - i,
    {
        let tail_len = n - i;
        let matched = if tail_len >= m {
            prefix_eq_at(s, i, pat)
        } else {
            false
        };
        if matched {
            proof {
                assert(s@.skip(i as int).take(m as int) =~= s@.subrange(i as int, i as int + m as int));
                assert(s@.skip(i as int).skip(m as int) =~= s@.skip(i as int + m as int));
            }
            i = i + m;
        } else {
            out.push(s[i]);
            proof {
                if s@.skip(i as int).len() >= m {
                    assert(s@.skip(i as int).take(m as int) =~= s@.subrange(
                        i as int,
                        i as int + m as int,
                    ));
                }
                assert(s@.skip(i as int)[0] == s@[i as int]);
                assert(s@.skip(i as int).drop_first() =~= s@.skip(i + 1));
                assert(out@ + remove_all(s@.skip(i + 1), pat@) == (out@.drop_last() + (seq![
                    s@[i as int],
                ] + remove_all(s@.skip(i + 1), pat@))));
            }
            i = i + 1;
        }
    }
    proof {
        assert(s@.skip(n as int) =~= Seq::<char>::empty());
        assert(out@ + Seq::<char>::empty() =~= out@);
    }
    out
}

/// Runs of whitespace in `s` collapsed to one space.
pub fn collapse_whitespace(s: &Vec<char>) -> (r: Vec<char>)
    ensures
        r@ == collapse_ws(s@),
{
    let mut out: Vec<char> = Vec::new();
    let n = s.len();
    let mut i: usize = 0;
    let mut prev_ws = false;
    proof {
        assert(s@.skip(0) =~= s@);
        assert(out@ + collapse_ws_from(s@, false) =~= collapse_ws_from(s@, false));
    }
    while i < n
        invariant
            i <= n,
            n == s@.len(),
            collapse_ws(s@) == out@ + collapse_ws_from(s@.skip(i as int), prev_ws),
        decreases n - i,
    {
        let c = s[i];
        proof {
            assert(s@.skip(i as int)[0] == s@[i as int]);
            assert(s@.skip(i as int).drop_first() =~= s@.skip(i + 1));
        }
        if c == ' ' || c == '\t' || c == '\n' || c == '\r' {
            if !prev_ws {
                out.push(' ');
                proof {
                    assert(out@ + collapse_ws_from(s@.skip(i + 1), true) == (out@.drop_last() + (
                    seq![' '] + collapse_ws_from(s@.skip(i + 1), true))));
                }
            }
            prev_ws = true;
        } else {
            out.push(c);
            proof {
                assert(out@ + collapse_ws_from(s@.skip(i + 1), false) == (out@.drop_last() + (seq![
                    s@[i as int],
                ] + collapse_ws_from(s@.skip(i + 1), false))));
            }
            prev_ws = false;
        }
        i = i + 1;
    }
    proof {
        assert(s@.skip(n as int) =~= Seq::<char>::empty());
        assert(out@ + Seq::<char>::empty() =~= out@);
    }
    out
}

/// Whether `pat` occurs in `hay`.
pub fn contains_chars(hay: &Vec<char>, pat: &Vec<char>) -> (r: bool)
    ensures
        r == contains_sub(hay@, pat@),
{
    let n = hay.len();
    let m = pat.len();
    if m == 0 {
        return true;
    }
    if m > n {
        proof {
            lemma_find_sub_bounds(hay@, pat@);
        }
        return false;
    }
    let mut i: usize = 0;
    while i <= n - m
        invariant
            1 <= m <= n,
            n == hay@.len(),
            m == pat@.len(),
            i <= n - m + 1,
            forall|j: int| 0 <= j < i ==> #[trigger] hay@.subrange(j, j + pat@.len() as int)
                != pat@,
        decreases n - m + 1 - i,
    {
        if prefix_eq_at(hay, i, pat) {
            proof {
                lemma_find_sub_at(hay@, pat@, i as int);
            }
            return true;
        }
        i = i + 1;
    }
    proof {
        lemma_find_sub_bounds(hay@, pat@);
    }
    false
}

/// The first position of `pat` in `hay`, if it occurs.
pub fn find_chars(hay: &Vec<char>, pat: &Vec<char>) -> (r: Option<usize>)
    requires
        pat@.len() > 0,
    ensures
        match r {
            Some(i) => find_sub(hay@, pat@) == i,
            None => find_sub(hay@, pat@) == -1,
        },
{
    let n = hay.len();
    let m = pat.len();
    if m > n {
        proof {
            lemma_find_sub_bounds(hay@, pat@);
        }
        return None;
    }
    let mut i: usize = 0;
    while i <= n - m
        invariant
            1 <= m <= n,
            n == hay@.len(),
            m == pat@.len(),
            i <= n - m + 1,
            forall|j: int| 0 <= j < i ==> #[trigger] hay@.subrange(j, j + pat@.len() as int)
                != pat@,
        decreases n - m + 1 - i,
    {
        if prefix_eq_at(hay, i, pat) {
            proof {
                lemma_find_sub_at(hay@, pat@, i as int);
            }
            return Some(i);
        }
        i = i + 1;
    }
    proof {
        lemma_find_sub_bounds(hay@, pat@);
    }
    None
}

fn push_digits(out: &mut Vec<char>, n: u64)
    ensures
        final(out)@ == old(out)@ + dec_digits(n as nat),
    decreases n,
{
    if n < 10 {
        let d = digit_of(n);
        out.push(d);
        proof {
            assert(out@ =~= old(out)@ + dec_digits(n as nat));
        }
    } else {
        push_digits(out, n / 10);
        let d = digit_of(n % 10);
        out.push(d);
        proof {
            assert(out@ =~= old(out)@ + dec_digits(n as nat));
        }
    }
}

fn digit_of(d: u64) -> (c: char)
    requires
        d < 10,
    ensures
        c == digit_char(d as nat),
{
    if d == 0 {
        '0'
    } else if d == 1 {
        '1'
    } else if d == 2 {
        '2'
    } else if d == 3 {
        '3'
    } else if d == 4 {
        '4'
    } else if d == 5 {
        '5'
    } else if d == 6 {
        '6'
    } else if d == 7 {
        '7'
    } else if d == 8 {
        '8'
    } else {
        '9'
    }
}

/// Append the decimal text of `v`.
pub fn push_int(out: &mut Vec<char>, v: i64)
    ensures
        final(out)@ == old(out)@ + int_str(v as int),
{
    if v < 0 {
        out.push('-');
        let mag: u64 = if v == i64::MIN {
            9223372036854775808u64
        } else {
            (-v) as u64
        };
        assert(mag == (-(v as int)) as nat);
        push_digits(out, mag);
        proof {
            assert(out@ =~= old(out)@ + int_str(v as int));
        }
    } else {
        push_digits(out, v as u64);
    }
}

/// Append `s` padded with spaces on the right up to `width`.
pub fn push_padded(out: &mut Vec<char>, s: &Vec<char>, width: usize)
    ensures
        final(out)@ == old(out)@ + pad_right(s@, width as int),
{
    let mut k: usize = 0;
    while k < s.len()
        invariant
            k <= s@.len(),
            out@ == old(out)@ + s@.take(k as int),
        decreases s@.len() - k,
    {
        out.push(s[k]);
        proof {
            assert(s@.take(k + 1) =~= s@.take(k as int).push(s@[k as int]));
            assert(old(out)@ + s@.take(k + 1) =~= (old(out)@ + s@.take(k as int)).push(
                s@[k as int],
            ));
        }
        k = k + 1;
    }
    proof {
        assert(s@.take(s@.len() as int) =~= s@);
    }
    if s.len() >= width {
        proof {
            assert(out@ =~= old(out)@ + pad_right(s@, width as int));
        }
        return ;
    }
    let pad = width - s.len();
    let mut p: usize = 0;
    while p < pad
        invariant
            p <= pad,
            pad == width - s@.len(),
            s@.len() < width,
            out@ == old(out)@ + s@ + spaces(p as int),
        decreases pad - p,
    {
        out.push(' ');
        proof {
            assert(spaces(p + 1) =~= spaces(p as int).push(' '));
            assert(old(out)@ + s@ + spaces(p + 1) =~= (old(out)@ + s@ + spaces(p as int)).push(
                ' ',
            ));
        }
        p = p + 1;
    }
    proof {
        assert(out@ =~= old(out)@ + pad_right(s@, width as int));
    }
}

/// Only the ASCII characters of `s`.
pub fn ascii_chars(s: &Vec<char>) -> (r: Vec<char>)
    ensures
        r@ == ascii_only(s@),
{
    let mut out: Vec<char> = Vec::new();
    let n = s.len();
    let mut i: usize = 0;
    proof {
        assert(s@.skip(0) =~= s@);
        assert(out@ + ascii_only(s@) =~= ascii_only(s@));
    }
    while i < n
        invariant
            i <= n,
            n == s@.len(),
            ascii_only(s@) == out@ + ascii_only(s@.skip(i as int)),
        decreases n - i,
    {
        let c = s[i];
        proof {
            assert(s@.skip(i as int)[0] == s@[i as int]);
            assert(s@.skip(i as int).drop_first() =~= s@.skip(i + 1));
        }
        if (c as u32) < 128 {
            out.push(c);
            proof {
                assert(out@ + ascii_only(s@.skip(i + 1)) == (out@.drop_last() + (seq![s@[i as int]]
                    + ascii_only(s@.skip(i + 1)))));
            }
        }
        i = i + 1;
    }
    proof {
        assert(s@.skip(n as int) =~= Seq::<char>::empty());
        assert(out@ + Seq::<char>::empty() =~= out@);
    }
    out
}

/// `s` with every trailing "..." removed.
pub fn trim_trailing_dots(s: &Vec<char>) -> (r: Vec<char>)
    ensures
        r@ == trim_end_dots(s@),
{
    let mut end = s.len();
    proof {
        assert(s@.take(end as int) =~= s@);
    }
    while end >= 3 && s[end - 1] == '.' && s[end - 2] == '.' && s[end - 3] == '.'
        invariant
            end <= s@.len(),
            trim_end_dots(s@) == trim_end_dots(s@.take(end as int)),
        decreases end,
    {
        proof {
            let t = s@.take(end as int);
            assert(t.subrange(t.len() - 3, t.len() as int) =~= seq!['.', '.', '.']);
            assert(t.take(t.len() - 3) =~= s@.take(end - 3));
        }
        end = end - 3;
    }
    let mut out: Vec<char> = Vec::new();
    let mut i: usize = 0;
    proof {
        assert(out@ =~= s@.take(end as int).take(0));
    }
    while i < end
        invariant
            i <= end,
            end <= s@.len(),
            out@ == s@.take(end as int).take(i as int),
        decreases end - i,
    {
        out.push(s[i]);
        proof {
            assert(s@.take(end as int).take(i + 1) =~= s@.take(end as int).take(i as int).push(
                s@[i as int],
            ));
        }
        i = i + 1;
    }
    proof {
        let t = s@.take(end as int);
        assert(out@ == t.take(end as int));
        assert(t.take(end as int) =~= t);
        if end >= 3 {
            assert(!(t.subrange(t.len() - 3, t.len() as int) =~= seq!['.', '.', '.']) ==> t.subrange(
                t.len() - 3,
                t.len() as int,
            ) != seq!['.', '.', '.']);
        }
    }
    out
}

/// Whether `s` holds nothing but whitespace.
pub fn is_blank(s: &Vec<char>) -> (r: bool)
    ensures
        r == all_ws(s@),
{
    let n = s.len();
    let mut i: usize = 0;
    while i < n
        invariant
            i <= n,
            n == s@.len(),
            forall|k: int| 0 <= k < i ==> is_ws(#[trigger] s@[k]),
        decreases n - i,
    {
        let c = s[i];
        if !(c == ' ' || c == '\t' || c == '\n' || c == '\r') {
            assert(!is_ws(s@[i as int]));
            return false;
        }
        i = i + 1;
    }
    true
}

} // verus!
