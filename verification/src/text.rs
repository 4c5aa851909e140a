//! Character-level helpers shared by the parsers: white space, trimming,
//! pattern occurrences and conversions between `String` and `Vec<char>`.
use vstd::prelude::*;

verus! {

/// Whether `c` has the Unicode `White_Space` property (the set that
/// `char::is_whitespace` and `str::trim` use).
pub open spec fn is_white_space(c: char) -> bool {
    ||| c == '\t'
    ||| c == '\n'
    ||| c == '\x0B'
    ||| c == '\x0C'
    ||| c == '\r'
    ||| c == ' '
    ||| c == '\u{85}'
    ||| c == '\u{A0}'
    ||| c == '\u{1680}'
    ||| ('\u{2000}' <= c && c <= '\u{200A}')
    ||| c == '\u{2028}'
    ||| c == '\u{2029}'
    ||| c == '\u{202F}'
    ||| c == '\u{205F}'
    ||| c == '\u{3000}'
}

/// `s` without its leading white space.
pub open spec fn trim_start(s: Seq<char>) -> Seq<char>
    decreases s.len(),
{
    if s.len() > 0 && is_white_space(s[0]) {
        trim_start(s.drop_first())
    } else {
        s
    }
}

/// `s` without its trailing white space.
pub open spec fn trim_end(s: Seq<char>) -> Seq<char>
    decreases s.len(),
{
    if s.len() > 0 && is_white_space(s.last()) {
        trim_end(s.drop_last())
    } else {
        s
    }
}

/// `s` without leading and trailing white space, as `str::trim` returns it.
pub open spec fn trim(s: Seq<char>) -> Seq<char> {
    trim_end(trim_start(s))
}

/// `pat` occurs in `t` at position `i`.
pub open spec fn has_at(t: Seq<char>, i: int, pat: Seq<char>) -> bool {
    0 <= i && i + pat.len() <= t.len() && t.subrange(i, i + pat.len()) == pat
}

/// No line break occurs in `t` between `i` (included) and `j` (excluded).
pub open spec fn no_newline(t: Seq<char>, i: int, j: int) -> bool {
    forall|k: int| i <= k < j ==> t[k] != '\n'
}

pub fn is_white_space_char(c: char) -> (r: bool)
    ensures
        r == is_white_space(c),
{
    c == '\t' || c == '\n' || c == '\x0B' || c == '\x0C' || c == '\r' || c == ' ' || c == '\u{85}'
        || c == '\u{A0}' || c == '\u{1680}' || ('\u{2000}' <= c && c <= '\u{200A}') || c
        == '\u{2028}' || c == '\u{2029}' || c == '\u{202F}' || c == '\u{205F}' || c == '\u{3000}'
}

/// Whether the characters `pat` occur in `t` at position `i`.
pub fn occurs_at(t: &Vec<char>, i: usize, pat: &[char]) -> (r: bool)
    ensures
        r == has_at(t@, i as int, pat@),
{
    if i > t.len() || pat.len() > t.len() - i {
        return false;
    }
    let mut k: usize = 0;
    while k < pat.len()
        invariant
            i + pat@.len() <= t@.len(),
            t@.len() == t.len(),
            pat@.len() == pat.len(),
            k <= pat@.len(),
            forall|j: int| 0 <= j < k ==> t@[i + j] == pat@[j],
        decreases pat.len() - k,
    {
        if t[i + k] != pat[k] {
            assert(t@.subrange(i as int, i + pat@.len())[k as int] != pat@[k as int]);
            return false;
        }
        k = k + 1;
    }
    assert(t@.subrange(i as int, i + pat@.len()) =~= pat@);
    true
}

proof fn lemma_trim_start_step(s: Seq<char>, i: int, hi: int)
    requires
        0 <= i < hi <= s.len(),
        is_white_space(s[i]),
    ensures
        trim_start(s.subrange(i, hi)) == trim_start(s.subrange(i + 1, hi)),
{
    assert(s.subrange(i, hi).drop_first() =~= s.subrange(i + 1, hi));
}

proof fn lemma_trim_end_step(s: Seq<char>, lo: int, j: int)
    requires
        0 <= lo < j <= s.len(),
        is_white_space(s[j - 1]),
    ensures
        trim_end(s.subrange(lo, j)) == trim_end(s.subrange(lo, j - 1)),
{
    assert(s.subrange(lo, j).drop_last() =~= s.subrange(lo, j - 1));
}

/// Bounds `(i, j)` of `trim(t[lo..hi])` inside `t`.
pub fn trim_bounds(t: &Vec<char>, lo: usize, hi: usize) -> (r: (usize, usize))
    requires
        lo <= hi <= t@.len(),
    ensures
        lo <= r.0 <= r.1 <= hi,
        t@.subrange(r.0 as int, r.1 as int) == trim(t@.subrange(lo as int, hi as int)),
{
    let mut i = lo;
    while i < hi && is_white_space_char(t[i])
        invariant
            lo <= i <= hi <= t@.len(),
            trim_start(t@.subrange(lo as int, hi as int)) == trim_start(
                t@.subrange(i as int, hi as int),
            ),
        decreases hi - i,
    {
        proof {
            lemma_trim_start_step(t@, i as int, hi as int);
        }
        i = i + 1;
    }
    assert(trim_start(t@.subrange(i as int, hi as int)) == t@.subrange(i as int, hi as int));
    let mut j = hi;
    while j > i && is_white_space_char(t[j - 1])
        invariant
            lo <= i <= j <= hi <= t@.len(),
            trim_end(t@.subrange(i as int, hi as int)) == trim_end(
                t@.subrange(i as int, j as int),
            ),
        decreases j - i,
    {
        proof {
            lemma_trim_end_step(t@, i as int, j as int);
        }
        j = j - 1;
    }
    assert(trim_end(t@.subrange(i as int, j as int)) == t@.subrange(i as int, j as int));
    (i, j)
}

/// Appends `c` to `s` (`String::push`).
#[verifier::external_body]
fn push_char(s: &mut String, c: char)
    ensures
        final(s)@ == old(s)@.push(c),
{
    s.push(c);
}

/// The characters `t[lo..hi]` as a `String`.
pub fn string_of(t: &Vec<char>, lo: usize, hi: usize) -> (r: String)
    requires
        lo <= hi <= t@.len(),
    ensures
        r@ == t@.subrange(lo as int, hi as int),
{
    let mut s = String::new();
    let mut k = lo;
    while k < hi
        invariant
            lo <= k <= hi <= t@.len(),
            s@ == t@.subrange(lo as int, k as int),
        decreases hi - k,
    {
        push_char(&mut s, t[k]);
        assert(t@.subrange(lo as int, k + 1) =~= t@.subrange(lo as int, k as int).push(t@[k as int]));
        k = k + 1;
    }
    s
}

/// The characters of `s`.
pub fn chars_of(s: &str) -> (r: Vec<char>)
    ensures
        r@ == s@,
{
    broadcast use vstd::string::group_string_axioms;
    let mut v: Vec<char> = Vec::new();
    for c in iter: s.chars()
        invariant
            v@ == iter.seq().take(iter.index() as int),
    {
        v.push(c);
    }
    assert(v@ =~= s@);
    v
}

/// `q` is a position at or after `min` where `pat` occurs, ending no later than
/// `limit`, and reached from `from` without crossing a line break.
pub open spec fn line_candidate(
    t: Seq<char>,
    from: int,
    min: int,
    limit: int,
    pat: Seq<char>,
    q: int,
) -> bool {
    &&& min <= q
    &&& has_at(t, q, pat)
    &&& no_newline(t, from, q)
    &&& q + pat.len() <= limit
}

/// The last line candidate (see `line_candidate`), if any.
pub fn last_on_line(t: &Vec<char>, from: usize, min: usize, limit: usize, pat: &[char]) -> (r:
    Option<usize>)
    requires
        from <= min,
        pat@.len() > 0,
    ensures
        r matches Some(q) ==> line_candidate(t@, from as int, min as int, limit as int, pat@, q as int),
        r matches Some(q) ==> forall|q2: int|
            #[trigger] line_candidate(t@, from as int, min as int, limit as int, pat@, q2) ==> q2 <= q,
        r is None ==> forall|q2: int|
            !#[trigger] line_candidate(t@, from as int, min as int, limit as int, pat@, q2),
{
    let mut k = from;
    let mut best: Option<usize> = None;
    while k < t.len()
        invariant
            from <= min,
            pat@.len() > 0,
            from <= k,
            no_newline(t@, from as int, k as int),
            best matches Some(q) ==> line_candidate(
                t@,
                from as int,
                min as int,
                limit as int,
                pat@,
                q as int,
            ),
            best matches Some(q) ==> forall|q2: int|
                #[trigger] line_candidate(t@, from as int, min as int, limit as int, pat@, q2)
                    && q2 < k ==> q2 <= q,
            best is None ==> forall|q2: int|
                #[trigger] line_candidate(t@, from as int, min as int, limit as int, pat@, q2)
                    ==> q2 >= k,
        decreases t.len() - k,
    {
        if k >= min && occurs_at(t, k, pat) && pat.len() <= limit && k <= limit - pat.len() {
            best = Some(k);
        }
        if t[k] == '\n' {
            assert forall|q2: int|
                #[trigger] line_candidate(t@, from as int, min as int, limit as int, pat@, q2)
                    implies q2 <= k by {
                if q2 > k {
                    assert(t@[k as int] != '\n');
                }
            }
            return best;
        }
        k = k + 1;
    }
    assert forall|q2: int|
        #[trigger] line_candidate(t@, from as int, min as int, limit as int, pat@, q2) implies q2
            < k by {}
    best
}

/// The last position where `pat` occurs and ends no later than `bound`, if any.
pub fn last_before(t: &Vec<char>, pat: &[char], bound: usize) -> (r: Option<usize>)
    requires
        bound <= t@.len(),
    ensures
        r matches Some(q) ==> has_at(t@, q as int, pat@) && q + pat@.len() <= bound,
        r matches Some(q) ==> forall|q2: int|
            #[trigger] has_at(t@, q2, pat@) && q2 + pat@.len() <= bound ==> q2 <= q,
        r is None ==> forall|q2: int| #[trigger] has_at(t@, q2, pat@) ==> q2 + pat@.len() > bound,
{
    if pat.len() > bound {
        return None;
    }
    let mut k = bound - pat.len();
    loop
        invariant
            pat@.len() <= bound <= t@.len(),
            k + pat@.len() <= bound,
            forall|q2: int|
                #[trigger] has_at(t@, q2, pat@) && q2 + pat@.len() <= bound ==> q2 <= k,
        decreases k,
    {
        if occurs_at(t, k, pat) {
            return Some(k);
        }
        if k == 0 {
            return None;
        }
        k = k - 1;
    }
}

/// `i` is the position of the first `c` in `s`.
pub open spec fn is_first_index(s: Seq<char>, c: char, i: int) -> bool {
    &&& 0 <= i < s.len()
    &&& s[i] == c
    &&& forall|j: int| 0 <= j < i ==> s[j] != c
}

/// The position of the first `c` in `t`, if any.
pub fn first_index(t: &Vec<char>, c: char) -> (r: Option<usize>)
    ensures
        r matches Some(i) ==> is_first_index(t@, c, i as int),
        r is None ==> !t@.contains(c),
{
    let mut i: usize = 0;
    while i < t.len()
        invariant
            forall|j: int| 0 <= j < i ==> t@[j] != c,
        decreases t.len() - i,
    {
        if t[i] == c {
            return Some(i);
        }
        i = i + 1;
    }
    None
}

proof fn lemma_trim_start_idempotent(s: Seq<char>)
    ensures
        trim_start(trim_start(s)) == trim_start(s),
        trim_start(s).len() > 0 ==> !is_white_space(trim_start(s)[0]),
    decreases s.len(),
{
    if s.len() > 0 && is_white_space(s[0]) {
        lemma_trim_start_idempotent(s.drop_first());
    }
}

proof fn lemma_trim_end_keeps_start(s: Seq<char>)
    requires
        s.len() > 0 ==> !is_white_space(s[0]),
    ensures
        trim_end(s).len() > 0 ==> !is_white_space(trim_end(s)[0]),
        trim_end(trim_end(s)) == trim_end(s),
    decreases s.len(),
{
    if s.len() > 0 && is_white_space(s.last()) {
        if s.len() > 1 {
            assert(s.drop_last()[0] == s[0]);
        }
        lemma_trim_end_keeps_start(s.drop_last());
    }
}

/// Trimming twice is trimming once.
pub proof fn lemma_trim_idempotent(s: Seq<char>)
    ensures
        trim(trim(s)) == trim(s),
{
    lemma_trim_start_idempotent(s);
    lemma_trim_end_keeps_start(trim_start(s));
    let u = trim(s);
    assert(trim_start(u) == u);
}

/// The character of the decimal digit `d`.
pub open spec fn digit_char(d: int) -> char {
    if d == 0 {
        '0'
    } else if d == 1 {
        '1'
    } else if d == 2 {
        '2'
    } else if d == 3 {
        '3'
    } else if d == 4 {
        '4'
    } else if d == 5 {
        '5'
    } else if d == 6 {
        '6'
    } else if d == 7 {
        '7'
    } else if d == 8 {
        '8'
    } else {
        '9'
    }
}

/// The decimal writing of `n`, without leading zeros (`0` for zero).
pub open spec fn decimal(n: nat) -> Seq<char>
    decreases n,
{
    if n < 10 {
        seq![digit_char(n as int)]
    } else {
        decimal(n / 10).push(digit_char((n % 10) as int))
    }
}

fn digit(d: u64) -> (c: char)
    requires
        d < 10,
    ensures
        c == digit_char(d as int),
{
    if d == 0 {
        '0'
    } else if d == 1 {
        '1'
    } else if d == 2 {
        '2'
    } else if d == 3 {
        '3'
    } else if d == 4 {
        '4'
    } else if d == 5 {
        '5'
    } else if d == 6 {
        '6'
    } else if d == 7 {
        '7'
    } else if d == 8 {
        '8'
    } else {
        '9'
    }
}

/// Appends the decimal writing of `n` to `s` (what `format!("{n}")` writes).
pub fn push_decimal(s: &mut String, n: u64)
    ensures
        final(s)@ == old(s)@ + decimal(n as nat),
    decreases n,
{
    if n < 10 {
        push_char(s, digit(n));
        assert(old(s)@.push(digit_char(n as int)) =~= old(s)@ + decimal(n as nat));
    } else {
        push_decimal(s, n / 10);
        push_char(s, digit(n % 10));
        assert(old(s)@ + decimal((n / 10) as nat) + seq![digit_char((n % 10) as int)]
            =~= old(s)@ + decimal(n as nat));
    }
}

/// `s` is `s[..i]` (white space only), then `s[i..j]`, then `s[j..]` (white
/// space only), and `s[i..j]` neither starts nor ends with white space.
pub open spec fn strips_to(s: Seq<char>, i: int, j: int) -> bool {
    &&& 0 <= i <= j <= s.len()
    &&& forall|k: int| 0 <= k < i ==> is_white_space(#[trigger] s[k])
    &&& forall|k: int| j <= k < s.len() ==> is_white_space(#[trigger] s[k])
    &&& i < j ==> !is_white_space(s[i]) && !is_white_space(s[j - 1])
}

proof fn lemma_trim_start_strips(s: Seq<char>) -> (i: int)
    ensures
        0 <= i <= s.len(),
        trim_start(s) == s.subrange(i, s.len() as int),
        forall|k: int| 0 <= k < i ==> is_white_space(#[trigger] s[k]),
        i < s.len() ==> !is_white_space(s[i]),
    decreases s.len(),
{
    if s.len() > 0 && is_white_space(s[0]) {
        let i0 = lemma_trim_start_strips(s.drop_first());
        assert(s.drop_first().subrange(i0, s.len() - 1) =~= s.subrange(i0 + 1, s.len() as int));
        assert forall|k: int| 0 <= k < i0 + 1 implies is_white_space(#[trigger] s[k]) by {
            if k > 0 {
                assert(s[k] == s.drop_first()[k - 1]);
            }
        }
        i0 + 1
    } else {
        assert(s.subrange(0, s.len() as int) =~= s);
        0
    }
}

proof fn lemma_trim_end_strips(s: Seq<char>) -> (j: int)
    ensures
        0 <= j <= s.len(),
        trim_end(s) == s.subrange(0, j),
        forall|k: int| j <= k < s.len() ==> is_white_space(#[trigger] s[k]),
        0 < j ==> !is_white_space(s[j - 1]),
    decreases s.len(),
{
    if s.len() > 0 && is_white_space(s.last()) {
        let j0 = lemma_trim_end_strips(s.drop_last());
        assert(s.drop_last().subrange(0, j0) =~= s.subrange(0, j0));
        assert forall|k: int| j0 <= k < s.len() implies is_white_space(#[trigger] s[k]) by {
            if k < s.len() - 1 {
                assert(s[k] == s.drop_last()[k]);
            }
        }
        j0
    } else {
        assert(s.subrange(0, s.len() as int) =~= s);
        s.len() as int
    }
}

/// Trimming removes white space around the text and nothing else: the
/// result is a piece `s[i..j]` of `s` with only white space before and after
/// it in `s`, and it neither starts nor ends with white space.
pub proof fn law_trim_strips_only_white_space(s: Seq<char>)
    ensures
        exists|i: int, j: int| strips_to(s, i, j) && trim(s) == s.subrange(i, j),
{
    let i = lemma_trim_start_strips(s);
    let u = s.subrange(i, s.len() as int);
    let j0 = lemma_trim_end_strips(u);
    let j = i + j0;
    assert(u.subrange(0, j0) =~= s.subrange(i, j));
    assert forall|k: int| j <= k < s.len() implies is_white_space(#[trigger] s[k]) by {
        assert(s[k] == u[k - i]);
    }
    if i < j {
        assert(s[i] == u[0]);
        assert(s[j - 1] == u[j0 - 1]);
        if j0 == u.len() {
        }
    }
    assert(strips_to(s, i, j));
}

/// Where `c` occurs at `k`, a first occurrence of `c` exists.
pub proof fn lemma_first_index_exists(s: Seq<char>, c: char, k: int) -> (i: int)
    requires
        0 <= k < s.len(),
        s[k] == c,
    ensures
        is_first_index(s, c, i),
    decreases k,
{
    if exists|j: int| 0 <= j < k && s[j] == c {
        let j = choose|j: int| 0 <= j < k && s[j] == c;
        lemma_first_index_exists(s, c, j)
    } else {
        k
    }
}

/// A decimal digit, `0` to `9`.
pub open spec fn is_decimal_digit(c: char) -> bool {
    '0' <= c && c <= '9'
}

/// The number that a run of decimal digits writes.
pub open spec fn decimal_value(s: Seq<char>) -> int
    decreases s.len(),
{
    if s.len() == 0 {
        0
    } else {
        decimal_value(s.drop_last()) * 10 + (s.last() as int - '0' as int)
    }
}

/// The decimal writing of `n` reads back as `n`: it is a non-empty run of
/// decimal digits whose value is `n`, without a leading zero (but for `0`
/// itself).
pub proof fn law_decimal_reads_back(n: nat)
    ensures
        decimal(n).len() > 0,
        forall|k: int| 0 <= k < decimal(n).len() ==> is_decimal_digit(#[trigger] decimal(n)[k]),
        decimal_value(decimal(n)) == n,
        decimal(n)[0] == '0' ==> n == 0 && decimal(n).len() == 1,
    decreases n,
{
    if n < 10 {
        let sq = seq![digit_char(n as int)];
        assert(decimal(n) == sq);
        assert(sq.drop_last() =~= Seq::<char>::empty());
        assert(decimal_value(sq.drop_last()) == 0);
        assert(sq.last() == digit_char(n as int));
        assert(decimal_value(sq) == digit_char(n as int) as int - '0' as int);
    } else {
        let h = (n / 10) as nat;
        law_decimal_reads_back(h);
        let d = decimal(n);
        assert(d == decimal(h).push(digit_char((n % 10) as int)));
        assert(d.drop_last() =~= decimal(h));
        assert forall|k: int| 0 <= k < d.len() implies is_decimal_digit(#[trigger] d[k]) by {
            if k < d.len() - 1 {
                assert(d[k] == decimal(h)[k]);
            }
        }
        assert(d[0] == decimal(h)[0]);
        assert(h * 10 + n % 10 == n);
    }
}

/// Two ways of stripping white space from around `s` leave the same text
/// (or both leave nothing).
pub proof fn lemma_strips_unique(s: Seq<char>, i: int, j: int, i2: int, j2: int)
    requires
        strips_to(s, i, j),
        strips_to(s, i2, j2),
    ensures
        s.subrange(i, j) == s.subrange(i2, j2) || (i == j && i2 == j2),
{
    if i < j && i2 < j2 {
        if i < i2 {
            assert(is_white_space(s[i]));
        }
        if i2 < i {
            assert(is_white_space(s[i2]));
        }
        if j < j2 {
            assert(is_white_space(s[j2 - 1]));
        }
        if j2 < j {
            assert(is_white_space(s[j - 1]));
        }
    } else if i < j {
        // `s[i2..]` and `s[..j2]` cover `s` with white space only
        if i < i2 {
            assert(is_white_space(s[i]));
        } else {
            assert(is_white_space(s[i]));
        }
    } else if i2 < j2 {
        if i2 < i {
            assert(is_white_space(s[i2]));
        } else {
            assert(is_white_space(s[i2]));
        }
    }
}

} // verus!
