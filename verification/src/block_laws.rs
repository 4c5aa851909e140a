//! Laws of the block scanner: how the scan of two documents put end to end
//! relates to the scans of each.
use vstd::prelude::*;
use crate::text::{has_at, no_newline};
use crate::doc_blocks::{
    open_tag, end_tag, start_word, comment_open, comment_close, heading, end_word, end_marker_at,
    has_end_marker, is_first_end_marker, mark_block_end, BlockMatch, tail_at, block_at,
    is_first_block_from, first_block_from, blocks_from, remove_match, scope_of, scan_blocks,
    lemma_first_end_marker_exists, lemma_first_block_unique, lemma_first_end_marker_unique,
    lemma_one_block_per_pass, lemma_first_block_exists, ScopeView, lemma_first_block, RunType,
};
use crate::text::{trim, line_candidate};

verus! {

/// `t` is not empty and ends with a line break.
pub open spec fn ends_with_newline(t: Seq<char>) -> bool {
    t.len() > 0 && t[t.len() - 1] == '\n'
}

/// No line break occurs in `pat`.
pub open spec fn one_line(pat: Seq<char>) -> bool {
    forall|k: int| 0 <= k < pat.len() ==> pat[k] != '\n'
}

/// `t` holds no `### … end` line.
pub open spec fn has_no_tail(t: Seq<char>) -> bool {
    forall|e: int, f: int| !#[trigger] tail_at(t, e, f)
}

/// `t` holds no `<!-- `.
pub open spec fn has_no_open_tag(t: Seq<char>) -> bool {
    forall|i: int| !#[trigger] has_at(t, i, open_tag())
}

proof fn lemma_patterns_one_line()
    ensures
        one_line(open_tag()),
        one_line(end_tag()),
        one_line(start_word()),
        one_line(comment_open()),
        one_line(comment_close()),
        one_line(heading()),
        one_line(end_word()),
{
}

/// A match of `pat` in `x + y` that starts inside `x` ends inside `x`,
/// before its final line break.
proof fn lemma_no_straddle(x: Seq<char>, y: Seq<char>, i: int, pat: Seq<char>)
    requires
        ends_with_newline(x),
        one_line(pat),
        has_at(x + y, i, pat),
        i < x.len(),
    ensures
        i + pat.len() <= x.len() - 1,
{
    if i + pat.len() > x.len() - 1 {
        let k = x.len() - 1 - i;
        assert((x + y).subrange(i, i + pat.len())[k] == (x + y)[x.len() - 1]);
    }
}

/// A line of `x + y` that starts inside `x` ends before its final line break.
proof fn lemma_no_straddle_line(x: Seq<char>, y: Seq<char>, i: int, j: int)
    requires
        ends_with_newline(x),
        no_newline(x + y, i, j),
        i < x.len(),
    ensures
        j <= x.len() - 1,
{
    if j > x.len() - 1 {
        assert((x + y)[x.len() - 1] == '\n');
    }
}

proof fn lemma_has_at_prefix(x: Seq<char>, y: Seq<char>, i: int, pat: Seq<char>)
    requires
        i + pat.len() <= x.len(),
    ensures
        has_at(x + y, i, pat) == has_at(x, i, pat),
{
    if 0 <= i {
        assert((x + y).subrange(i, i + pat.len()) =~= x.subrange(i, i + pat.len()));
    }
}

proof fn lemma_no_newline_prefix(x: Seq<char>, y: Seq<char>, i: int, j: int)
    requires
        0 <= i,
        j <= x.len(),
    ensures
        no_newline(x + y, i, j) == no_newline(x, i, j),
{
    assert forall|k: int| i <= k < j implies (x + y)[k] == x[k] by {}
}

proof fn lemma_has_at_shift(r: Seq<char>, y: Seq<char>, i: int, pat: Seq<char>)
    requires
        0 <= i,
    ensures
        has_at(r + y, r.len() + i, pat) == has_at(y, i, pat),
{
    if i + pat.len() <= y.len() {
        assert((r + y).subrange(r.len() + i, r.len() + i + pat.len()) =~= y.subrange(i, i + pat.len()));
    }
}

proof fn lemma_no_newline_shift(r: Seq<char>, y: Seq<char>, i: int, j: int)
    requires
        0 <= i,
        j <= y.len(),
    ensures
        no_newline(r + y, r.len() + i, r.len() + j) == no_newline(y, i, j),
{
    assert forall|k: int| i <= k < j implies (r + y)[r.len() + k] == y[k] by {}
    if no_newline(r + y, r.len() + i, r.len() + j) {
        assert forall|k: int| i <= k < j implies y[k] != '\n' by {
            assert((r + y)[r.len() + k] == y[k]);
        }
    }
    if no_newline(y, i, j) {
        assert forall|k: int| r.len() + i <= k < r.len() + j implies (r + y)[k] != '\n' by {
            assert((r + y)[k] == y[k - r.len()]);
        }
    }
}

/// The boundaries of a block match, each moved by `d`.
pub open spec fn shifted(m: BlockMatch, d: int) -> BlockMatch {
    BlockMatch {
        start: m.start + d,
        kind_end: m.kind_end + d,
        data_end: m.data_end + d,
        body_start: m.body_start + d,
        body_end: m.body_end + d,
        tail_start: m.tail_start + d,
        tail_end: m.tail_end + d,
    }
}

/// The boundaries of a block match come in the order the pattern writes them.
spec fn ordered(m: BlockMatch) -> bool {
    &&& m.kind_end >= m.start + 6
    &&& m.data_end >= m.kind_end + 7
    &&& m.body_start >= m.data_end + 3
    &&& m.body_end >= m.body_start + 5
    &&& m.tail_start >= m.body_end + 3
    &&& m.tail_end >= m.tail_start + 5
}

proof fn lemma_end_marker_prefix(x: Seq<char>, y: Seq<char>, p: int, q: int)
    requires
        0 <= p,
        q + 8 <= x.len(),
    ensures
        end_marker_at(x + y, p, q) == end_marker_at(x, p, q),
{
    if q >= p + 6 {
        lemma_has_at_prefix(x, y, p, open_tag());
        lemma_no_newline_prefix(x, y, p + 5, q);
        lemma_has_at_prefix(x, y, q, end_tag());
    }
}

proof fn lemma_end_marker_shift(r: Seq<char>, y: Seq<char>, p: int, q: int)
    requires
        0 <= p,
    ensures
        end_marker_at(r + y, r.len() + p, r.len() + q) == end_marker_at(y, p, q),
{
    if q >= p + 6 {
        lemma_has_at_shift(r, y, p, open_tag());
        lemma_has_at_shift(r, y, q, end_tag());
        if q + 8 <= y.len() {
            lemma_no_newline_shift(r, y, p + 5, q);
        }
    }
}

proof fn lemma_tail_prefix(x: Seq<char>, y: Seq<char>, e: int, f: int)
    requires
        0 <= e,
        f + 4 <= x.len(),
    ensures
        tail_at(x + y, e, f) == tail_at(x, e, f),
{
    if f >= e + 5 {
        lemma_has_at_prefix(x, y, e, heading());
        lemma_no_newline_prefix(x, y, e + 4, f);
        lemma_has_at_prefix(x, y, f, end_word());
    }
}

proof fn lemma_tail_shift(r: Seq<char>, y: Seq<char>, e: int, f: int)
    requires
        0 <= e,
    ensures
        tail_at(r + y, r.len() + e, r.len() + f) == tail_at(y, e, f),
{
    if f >= e + 5 {
        lemma_has_at_shift(r, y, e, heading());
        lemma_has_at_shift(r, y, f, end_word());
        if f + 4 <= y.len() {
            lemma_no_newline_shift(r, y, e + 4, f);
        }
    }
}

proof fn lemma_block_prefix(x: Seq<char>, y: Seq<char>, m: BlockMatch)
    requires
        0 <= m.start,
        m.tail_end + 4 <= x.len(),
    ensures
        block_at(x + y, m) == block_at(x, m),
{
    if ordered(m) {
        lemma_has_at_prefix(x, y, m.start, open_tag());
        lemma_no_newline_prefix(x, y, m.start + 5, m.kind_end);
        lemma_has_at_prefix(x, y, m.kind_end, start_word());
        lemma_no_newline_prefix(x, y, m.kind_end + 7, m.data_end);
        lemma_has_at_prefix(x, y, m.data_end, comment_close());
        lemma_has_at_prefix(x, y, m.body_start, comment_open());
        lemma_has_at_prefix(x, y, m.body_end, comment_close());
        lemma_tail_prefix(x, y, m.tail_start, m.tail_end);
    }
}

proof fn lemma_block_shift(r: Seq<char>, y: Seq<char>, m: BlockMatch)
    requires
        0 <= m.start,
    ensures
        block_at(r + y, shifted(m, r.len() as int)) == block_at(y, m),
{
    let d = r.len() as int;
    let s = shifted(m, d);
    if ordered(m) {
        lemma_has_at_shift(r, y, m.start, open_tag());
        lemma_has_at_shift(r, y, m.kind_end, start_word());
        lemma_has_at_shift(r, y, m.data_end, comment_close());
        lemma_has_at_shift(r, y, m.body_start, comment_open());
        lemma_has_at_shift(r, y, m.body_end, comment_close());
        lemma_tail_shift(r, y, m.tail_start, m.tail_end);
        if m.tail_end + 4 <= y.len() {
            lemma_no_newline_shift(r, y, m.start + 5, m.kind_end);
            lemma_no_newline_shift(r, y, m.kind_end + 7, m.data_end);
        }
        assert(block_at(r + y, s) ==> s.tail_end + 4 <= r.len() + y.len());
        assert(block_at(y, m) ==> m.tail_end + 4 <= y.len());
    }
}

/// When `x` ends with a line break and `y` holds no `### … end` line, every
/// such line of `x + y` lies inside `x`.
proof fn lemma_tail_in_prefix(x: Seq<char>, y: Seq<char>, e: int, f: int)
    requires
        ends_with_newline(x),
        has_no_tail(y),
        tail_at(x + y, e, f),
    ensures
        f + 4 <= x.len() - 1,
        tail_at(x, e, f),
{
    lemma_patterns_one_line();
    if e >= x.len() {
        lemma_tail_shift(x, y, e - x.len(), f - x.len());
        assert(tail_at(y, e - x.len(), f - x.len()));
        assert(false);
    }
    lemma_no_straddle(x, y, e, heading());
    lemma_no_straddle_line(x, y, e + 4, f);
    lemma_no_straddle(x, y, f, end_word());
    lemma_tail_prefix(x, y, e, f);
}

/// Under the same conditions, the block matches of `x + y` are those of `x`.
proof fn lemma_block_in_prefix(x: Seq<char>, y: Seq<char>, m: BlockMatch)
    requires
        ends_with_newline(x),
        has_no_tail(y),
    ensures
        block_at(x + y, m) ==> m.tail_end + 4 <= x.len() - 1,
        block_at(x + y, m) == block_at(x, m),
{
    if block_at(x + y, m) {
        lemma_tail_in_prefix(x, y, m.tail_start, m.tail_end);
        lemma_block_prefix(x, y, m);
    }
    if block_at(x, m) {
        lemma_block_prefix(x, y, m);
    }
}

/// Under the same conditions, the first block match of `x + y` is that of `x`.
proof fn lemma_first_block_in_prefix(x: Seq<char>, y: Seq<char>)
    requires
        ends_with_newline(x),
        has_no_tail(y),
    ensures
        first_block_from(x + y, 0) == first_block_from(x, 0),
        first_block_from(x, 0) matches Some(m) ==> m.tail_end + 4 <= x.len() - 1,
{
    assert forall|m2: BlockMatch|
        #![trigger block_at(x + y, m2)]
        #![trigger block_at(x, m2)]
        block_at(x + y, m2) == block_at(x, m2) by {
        lemma_block_in_prefix(x, y, m2);
    }
    assert forall|m: BlockMatch| #[trigger]
        is_first_block_from(x + y, 0, m) == is_first_block_from(x, 0, m) by {
        lemma_block_in_prefix(x, y, m);
    }
    if exists|m: BlockMatch| is_first_block_from(x, 0, m) {
        let m = choose|m: BlockMatch| is_first_block_from(x, 0, m);
        assert(is_first_block_from(x + y, 0, m));
        let m2 = choose|m2: BlockMatch| is_first_block_from(x + y, 0, m2);
        lemma_first_block_unique(x + y, 0, m, m2);
        lemma_block_in_prefix(x, y, m);
    } else {
        assert(!exists|m: BlockMatch| is_first_block_from(x + y, 0, m));
    }
}

/// What one pass collects: the first block match, if any.
proof fn lemma_blocks_of_pass(t: Seq<char>)
    ensures
        blocks_from(t, 0) == (match first_block_from(t, 0) {
            Some(m) => seq![m],
            None => Seq::<BlockMatch>::empty(),
        }),
{
    lemma_one_block_per_pass(t);
    if let Some(m) = first_block_from(t, 0) {
        assert(blocks_from(t, 0) == seq![m] + blocks_from(t, m.tail_end + 4));
        assert(blocks_from(t, 0) =~= seq![m]);
    }
}

/// `t` after its first end marker is rewritten (one pass of the scan).
pub open spec fn pass_marked(t: Seq<char>) -> Seq<char> {
    let (p, q) = choose|p: int, q: int| is_first_end_marker(t, p, q);
    mark_block_end(t, p, q)
}

/// A rewritten text without its first block match.
pub open spec fn rest_after_mark(marked: Seq<char>) -> Seq<char> {
    match first_block_from(marked, 0) {
        Some(m) => remove_match(marked, m),
        None => marked,
    }
}

/// The command scopes of the block matches of a rewritten text.
pub open spec fn scopes_after_mark(marked: Seq<char>, url: Seq<char>) -> Seq<ScopeView> {
    blocks_from(marked, 0).map_values(|m: BlockMatch| scope_of(marked, m, url))
}

/// What one pass of the scan leaves: the rewritten text without its first
/// block match.
pub open spec fn pass_rest(t: Seq<char>) -> Seq<char> {
    rest_after_mark(pass_marked(t))
}

/// The command scopes that one pass of the scan collects.
pub open spec fn pass_scopes(t: Seq<char>, url: Seq<char>) -> Seq<ScopeView> {
    scopes_after_mark(pass_marked(t), url)
}

proof fn lemma_scan_unfold(t: Seq<char>, url: Seq<char>)
    requires
        has_end_marker(t),
    ensures
        scan_blocks(t, url) == pass_scopes(t, url) + scan_blocks(pass_rest(t), url),
        pass_rest(t).len() < t.len(),
{
    lemma_first_end_marker_exists(t);
}

/// What the scan leaves of `t` once no end marker is left.
pub open spec fn scan_residue(t: Seq<char>) -> Seq<char>
    decreases t.len(),
{
    if has_end_marker(t) {
        proof {
            lemma_first_end_marker_exists(t);
        }
        scan_residue(pass_rest(t))
    } else {
        t
    }
}

/// When `a` ends with a line break and holds an end marker, the first end
/// marker of `a + b` is that of `a`.
proof fn lemma_mark_concat(a: Seq<char>, b: Seq<char>)
    requires
        ends_with_newline(a),
        has_end_marker(a),
    ensures
        has_end_marker(a + b),
        pass_marked(a + b) == pass_marked(a) + b,
        ends_with_newline(pass_marked(a)),
{
    lemma_patterns_one_line();
    lemma_first_end_marker_exists(a);
    let (p, q) = choose|p: int, q: int| is_first_end_marker(a, p, q);
    assert(end_marker_at(a, p, q));
    assert(a.subrange(q, q + 8)[7] == a[q + 7]);
    assert(q + 8 <= a.len() - 1);
    lemma_end_marker_prefix(a, b, p, q);
    assert(has_end_marker(a + b));
    assert forall|p2: int, q2: int| #[trigger]
        end_marker_at(a + b, p2, q2) implies p < p2 || (p == p2 && q2 <= q) by {
        if p2 < a.len() {
            lemma_no_straddle(a, b, p2, open_tag());
            lemma_no_straddle_line(a, b, p2 + 5, q2);
            lemma_no_straddle(a, b, q2, end_tag());
            lemma_end_marker_prefix(a, b, p2, q2);
        }
    }
    assert(is_first_end_marker(a + b, p, q));
    lemma_first_end_marker_exists(a + b);
    let (p2, q2) = choose|p: int, q: int| is_first_end_marker(a + b, p, q);
    lemma_first_end_marker_unique(a + b, p, q, p2, q2);
    let ma = mark_block_end(a, p, q);
    assert(mark_block_end(a + b, p, q) =~= ma + b);
    assert(ma[ma.len() - 1] == a[a.len() - 1]);
}

/// When the rewritten text `ma` ends with a line break and `b` holds no
/// `### … end` line, the rest of the pass over `ma + b` works in `ma` alone.
#[verifier::spinoff_prover]
proof fn lemma_after_mark_concat(ma: Seq<char>, b: Seq<char>, url: Seq<char>)
    requires
        ends_with_newline(ma),
        has_no_tail(b),
    ensures
        scopes_after_mark(ma + b, url) == scopes_after_mark(ma, url),
        rest_after_mark(ma + b) == rest_after_mark(ma) + b,
        ends_with_newline(rest_after_mark(ma)),
{
    lemma_first_block_in_prefix(ma, b);
    lemma_blocks_of_pass(ma);
    lemma_blocks_of_pass(ma + b);
    match first_block_from(ma, 0) {
        Some(m) => {
            assert((ma + b).subrange(m.body_start + 4, m.body_end) =~= ma.subrange(
                m.body_start + 4,
                m.body_end,
            ));
            assert((ma + b).subrange(m.start + 5, m.kind_end) =~= ma.subrange(
                m.start + 5,
                m.kind_end,
            ));
            assert((ma + b).subrange(m.kind_end + 7, m.data_end) =~= ma.subrange(
                m.kind_end + 7,
                m.data_end,
            ));
            assert(scope_of(ma + b, m, url) == scope_of(ma, m, url));
            assert(scopes_after_mark(ma + b, url) =~= scopes_after_mark(ma, url));
            assert(remove_match(ma + b, m) =~= remove_match(ma, m) + b);
            let rm = remove_match(ma, m);
            assert(rm[rm.len() - 1] == ma[ma.len() - 1]);
        },
        None => {
            assert(scopes_after_mark(ma + b, url) =~= scopes_after_mark(ma, url));
        },
    }
}


/// When `a` ends with a line break, holds an end marker, and `b` holds no
/// `### … end` line, one pass over `a + b` works inside `a` alone.
proof fn lemma_pass_concat(a: Seq<char>, b: Seq<char>, url: Seq<char>)
    requires
        ends_with_newline(a),
        has_no_tail(b),
        has_end_marker(a),
    ensures
        has_end_marker(a + b),
        pass_scopes(a + b, url) == pass_scopes(a, url),
        pass_rest(a + b) == pass_rest(a) + b,
        ends_with_newline(pass_rest(a)),
{
    lemma_mark_concat(a, b);
    lemma_after_mark_concat(pass_marked(a), b, url);
}

proof fn lemma_subrange_shift(r: Seq<char>, y: Seq<char>, i: int, j: int)
    requires
        0 <= i <= j <= y.len(),
    ensures
        (r + y).subrange(r.len() + i, r.len() + j) == y.subrange(i, j),
{
    assert((r + y).subrange(r.len() + i, r.len() + j) =~= y.subrange(i, j));
}

/// After a text `r` that ends with a line break and holds no `<!-- `, every
/// `<!-- ` of `r + y` lies in `y`.
proof fn lemma_open_tag_after(r: Seq<char>, y: Seq<char>, i: int)
    requires
        ends_with_newline(r),
        has_no_open_tag(r),
        has_at(r + y, i, open_tag()),
    ensures
        i >= r.len(),
{
    if i < r.len() {
        lemma_patterns_one_line();
        lemma_no_straddle(r, y, i, open_tag());
        lemma_has_at_prefix(r, y, i, open_tag());
        assert(has_at(r, i, open_tag()));
    }
}

/// After such a text `r`, `r + x` holds an end marker exactly when `x` does.
proof fn lemma_has_marker_shift(r: Seq<char>, x: Seq<char>)
    requires
        ends_with_newline(r),
        has_no_open_tag(r),
    ensures
        has_end_marker(r + x) == has_end_marker(x),
{
    let d = r.len() as int;
    if has_end_marker(r + x) {
        let (p, q) = choose|p: int, q: int| end_marker_at(r + x, p, q);
        lemma_open_tag_after(r, x, p);
        lemma_end_marker_shift(r, x, p - d, q - d);
        assert(end_marker_at(x, p - d, q - d));
    }
    if has_end_marker(x) {
        let (p, q) = choose|p: int, q: int| end_marker_at(x, p, q);
        lemma_end_marker_shift(r, x, p, q);
        assert(end_marker_at(r + x, d + p, d + q));
    }
}

/// After such a text `r`, the first end marker of `r + x` is that of `x`, moved.
#[verifier::spinoff_prover]
proof fn lemma_mark_shift(r: Seq<char>, x: Seq<char>)
    requires
        ends_with_newline(r),
        has_no_open_tag(r),
        has_end_marker(x),
    ensures
        pass_marked(r + x) == r + pass_marked(x),
{
    let d = r.len() as int;
    lemma_first_end_marker_exists(x);
    let (p, q) = choose|p: int, q: int| is_first_end_marker(x, p, q);
    lemma_end_marker_shift(r, x, p, q);
    assert(end_marker_at(r + x, d + p, d + q));
    assert forall|p2: int, q2: int| #[trigger]
        end_marker_at(r + x, p2, q2) implies d + p < p2 || (d + p == p2 && q2 <= d + q) by {
        lemma_open_tag_after(r, x, p2);
        lemma_end_marker_shift(r, x, p2 - d, q2 - d);
        assert(end_marker_at(x, p2 - d, q2 - d));
    }
    assert(is_first_end_marker(r + x, d + p, d + q));
    lemma_first_end_marker_exists(r + x);
    let (p2, q2) = choose|p: int, q: int| is_first_end_marker(r + x, p, q);
    lemma_first_end_marker_unique(r + x, d + p, d + q, p2, q2);
    assert(mark_block_end(r + x, d + p, d + q) =~= r + mark_block_end(x, p, q));
}

/// After such a text `r`, the block matches of `r + y` are those of `y`, moved.
proof fn lemma_block_after(r: Seq<char>, y: Seq<char>, m: BlockMatch)
    requires
        ends_with_newline(r),
        has_no_open_tag(r),
        block_at(r + y, m),
    ensures
        m.start >= r.len(),
        block_at(y, shifted(m, -r.len())),
{
    lemma_open_tag_after(r, y, m.start);
    let m0 = shifted(m, -r.len());
    lemma_block_shift(r, y, m0);
    assert(shifted(m0, r.len() as int) == m);
}

/// After such a text `r`, the first block match of `r + y` is that of `y`, moved.
#[verifier::spinoff_prover]
proof fn lemma_first_block_shift(r: Seq<char>, y: Seq<char>)
    requires
        ends_with_newline(r),
        has_no_open_tag(r),
    ensures
        first_block_from(r + y, 0) == (match first_block_from(y, 0) {
            Some(m) => Some(shifted(m, r.len() as int)),
            None => None,
        }),
{
    let d = r.len() as int;
    match first_block_from(y, 0) {
        Some(m) => {
            assert(is_first_block_from(y, 0, m));
            lemma_block_shift(r, y, m);
            let ms = shifted(m, d);
            assert forall|m2: BlockMatch| #[trigger]
                block_at(r + y, m2) && m2.start >= 0 implies ms.start < m2.start || (ms.start
                == m2.start && crate::doc_blocks::not_preferred(m2, ms)) by {
                lemma_block_after(r, y, m2);
                let m20 = shifted(m2, -d);
                assert(block_at(y, m20) && m20.start >= 0);
            }
            assert(is_first_block_from(r + y, 0, ms));
            let c = choose|m2: BlockMatch| is_first_block_from(r + y, 0, m2);
            lemma_first_block_unique(r + y, 0, ms, c);
        },
        None => {
            if exists|m2: BlockMatch| is_first_block_from(r + y, 0, m2) {
                let m2 = choose|m2: BlockMatch| is_first_block_from(r + y, 0, m2);
                lemma_block_after(r, y, m2);
                let m20 = shifted(m2, -d);
                assert(block_at(y, m20) && m20.start >= 0);
                lemma_first_block_exists(y, 0);
                assert(false);
            }
        },
    }
}

/// A block match of `y`, moved past `r`, describes the same scope in `r + y`,
/// and removing it leaves `r` before what removing it from `y` leaves.
proof fn lemma_match_shift(r: Seq<char>, y: Seq<char>, m: BlockMatch, url: Seq<char>)
    requires
        block_at(y, m),
    ensures
        scope_of(r + y, shifted(m, r.len() as int), url) == scope_of(y, m, url),
        remove_match(r + y, shifted(m, r.len() as int)) == r + remove_match(y, m),
{
    let ms = shifted(m, r.len() as int);
    assert(m.tail_end + 4 <= y.len());
    lemma_subrange_shift(r, y, m.body_start + 4, m.body_end);
    lemma_subrange_shift(r, y, m.start + 5, m.kind_end);
    lemma_subrange_shift(r, y, m.kind_end + 7, m.data_end);
    assert(remove_match(r + y, ms) =~= r + remove_match(y, m));
}

/// After such a text `r`, the rest of a pass over `r + mx` works in `mx` alone.
#[verifier::spinoff_prover]
proof fn lemma_after_mark_shift(r: Seq<char>, mx: Seq<char>, url: Seq<char>)
    requires
        ends_with_newline(r),
        has_no_open_tag(r),
    ensures
        scopes_after_mark(r + mx, url) == scopes_after_mark(mx, url),
        rest_after_mark(r + mx) == r + rest_after_mark(mx),
{
    let d = r.len() as int;
    lemma_first_block_shift(r, mx);
    lemma_blocks_of_pass(mx);
    lemma_blocks_of_pass(r + mx);
    match first_block_from(mx, 0) {
        Some(m) => {
            let ms = shifted(m, d);
            assert(is_first_block_from(mx, 0, m));
            lemma_match_shift(r, mx, m, url);
            assert(scopes_after_mark(r + mx, url) =~= scopes_after_mark(mx, url));
        },
        None => {
            assert(scopes_after_mark(r + mx, url) =~= scopes_after_mark(mx, url));
        },
    }
}

/// A text that ends with a line break and holds no `<!-- ` adds no block
/// to the scan of what follows it.
proof fn lemma_scan_after_inert(r: Seq<char>, x: Seq<char>, url: Seq<char>)
    requires
        ends_with_newline(r),
        has_no_open_tag(r),
    ensures
        scan_blocks(r + x, url) == scan_blocks(x, url),
    decreases x.len(),
{
    lemma_has_marker_shift(r, x);
    if has_end_marker(x) {
        lemma_mark_shift(r, x);
        lemma_after_mark_shift(r, pass_marked(x), url);
        lemma_scan_unfold(r + x, url);
        lemma_scan_unfold(x, url);
        lemma_scan_after_inert(r, pass_rest(x), url);
    }
}

/// Scanning two documents put end to end gives the blocks of the first, then
/// those of the second, when the first ends with a line break, the second
/// holds no `### … end` line, and what the scan leaves of the first holds
/// no `<!-- `. (The scan rewrites one end marker at a time into such a line,
/// so a line of that form already in the second document would close a
/// block of the first; and a `<!-- ` left over in the first could open a
/// block that closes in the second.)
pub proof fn law_scan_concat(a: Seq<char>, b: Seq<char>, url: Seq<char>)
    requires
        ends_with_newline(a),
        has_no_tail(b),
        has_no_open_tag(scan_residue(a)),
    ensures
        scan_blocks(a + b, url) == scan_blocks(a, url) + scan_blocks(b, url),
    decreases a.len(),
{
    if has_end_marker(a) {
        lemma_pass_concat(a, b, url);
        lemma_scan_unfold(a + b, url);
        lemma_scan_unfold(a, url);
        assert(scan_residue(a) == scan_residue(pass_rest(a)));
        law_scan_concat(pass_rest(a), b, url);
        assert(scan_blocks(a + b, url) =~= scan_blocks(a, url) + scan_blocks(b, url));
    } else {
        assert(scan_residue(a) == a);
        lemma_scan_after_inert(a, b, url);
        assert(scan_blocks(a, url) =~= Seq::<ScopeView>::empty());
        assert(scan_blocks(a + b, url) =~= scan_blocks(a, url) + scan_blocks(b, url));
    }
}

/// `<!-- bats start -->`, a line break and `<!--`: how a `bats` block
/// without enrollment data opens.
pub open spec fn bats_block_head() -> Seq<char> {
    seq![
        '<', '!', '-', '-', ' ', 'b', 'a', 't', 's', ' ', 's', 't', 'a', 'r', 't', ' ', '-', '-',
        '>', '\n', '<', '!', '-', '-',
    ]
}

/// `-->`, a line break, `<!-- bats end -->` and a line break: how a `bats`
/// block closes.
pub open spec fn bats_block_foot() -> Seq<char> {
    seq![
        '-', '-', '>', '\n', '<', '!', '-', '-', ' ', 'b', 'a', 't', 's', ' ', 'e', 'n', 'd', ' ',
        '-', '-', '>', '\n',
    ]
}

/// The same closing after its end marker was rewritten: `-->`, a line
/// break, `### bats end` and a line break.
spec fn marked_bats_foot() -> Seq<char> {
    seq!['-', '-', '>', '\n', '#', '#', '#', ' ', 'b', 'a', 't', 's', ' ', 'e', 'n', 'd', '\n']
}

/// A document made of one `bats` block, without enrollment data, whose
/// commands are written between `<!--` and `-->` as `body`.
pub open spec fn bats_block_document(body: Seq<char>) -> Seq<char> {
    bats_block_head() + body + bats_block_foot()
}

proof fn lemma_has_at_chars(t: Seq<char>, i: int, pat: Seq<char>, k: int)
    requires
        has_at(t, i, pat),
        0 <= k < pat.len(),
    ensures
        t[i + k] == pat[k],
{
    assert(t.subrange(i, i + pat.len())[k] == t[i + k]);
}

proof fn lemma_three_parts(h: Seq<char>, b: Seq<char>, f: Seq<char>)
    ensures
        (h + b + f).len() == h.len() + b.len() + f.len(),
        forall|k: int| 0 <= k < h.len() ==> #[trigger] (h + b + f)[k] == h[k],
        forall|k: int| h.len() <= k < h.len() + b.len() ==> #[trigger] (h + b + f)[k] == b[k - h.len()],
        forall|k: int|
            h.len() + b.len() <= k < h.len() + b.len() + f.len() ==> #[trigger] (h + b + f)[k]
                == f[k - h.len() - b.len()],
{
}

/// The only end marker of a one-block document is its closing marker.
proof fn lemma_document_end_marker(body: Seq<char>)
    requires
        body.len() > 0,
        body[0] != ' ',
        !body.contains('<'),
    ensures
        is_first_end_marker(bats_block_document(body), body.len() + 28int, body.len() + 37int),
{
    let d = bats_block_document(body);
    let n = body.len() as int;
    let p = n + 28;
    let q = n + 37;
    lemma_three_parts(bats_block_head(), body, bats_block_foot());
    assert(d.subrange(p, p + 5) =~= open_tag());
    assert(d.subrange(q, q + 8) =~= end_tag());
    assert(end_marker_at(d, p, q));
    assert forall|p2: int, q2: int| #[trigger]
        end_marker_at(d, p2, q2) implies p < p2 || (p == p2 && q2 <= q) by {
        lemma_has_at_chars(d, p2, open_tag(), 0);
        lemma_has_at_chars(d, p2, open_tag(), 4);
        if 24 <= p2 < n + 24 {
            assert(body[p2 - 24] == '<');
            assert(body.contains('<'));
        }
        if p2 == 0 {
            if q2 > 19 {
                assert(d[19] == '\n');
            }
            if q2 + 8 > 19 {
                lemma_has_at_chars(d, q2, end_tag(), 19 - q2);
            }
            lemma_has_at_chars(d, q2, end_tag(), 1);
            assert(false);
        }
        if p2 == p {
            if q2 > n + 45 {
                assert(d[n + 45] == '\n');
            }
            if q2 + 8 > n + 45 {
                lemma_has_at_chars(d, q2, end_tag(), n + 45 - q2);
            }
        }
    }
}

/// Rewriting the closing marker of a one-block document.
proof fn lemma_document_marked(body: Seq<char>)
    requires
        body.len() > 0,
        body[0] != ' ',
        !body.contains('<'),
    ensures
        has_end_marker(bats_block_document(body)),
        pass_marked(bats_block_document(body)) == bats_block_head() + body + marked_bats_foot(),
{
    let d = bats_block_document(body);
    let n = body.len() as int;
    lemma_document_end_marker(body);
    lemma_first_end_marker_exists(d);
    let (p, q) = choose|p: int, q: int| is_first_end_marker(d, p, q);
    lemma_first_end_marker_unique(d, p, q, n + 28, n + 37);
    lemma_three_parts(bats_block_head(), body, bats_block_foot());
    lemma_three_parts(bats_block_head(), body, marked_bats_foot());
    assert(mark_block_end(d, p, q) =~= bats_block_head() + body + marked_bats_foot());
}

/// The block match of the rewritten one-block document.
spec fn document_match(n: int) -> BlockMatch {
    BlockMatch {
        start: 0,
        kind_end: 9,
        data_end: 16,
        body_start: 20,
        body_end: n + 24,
        tail_start: n + 28,
        tail_end: n + 36,
    }
}

/// The block pattern finds the whole block in the rewritten document.
#[verifier::spinoff_prover]
#[verifier::rlimit(30)]
proof fn lemma_document_block(body: Seq<char>)
    requires
        body.len() > 0,
        !body.contains('<'),
    ensures
        is_first_block_from(
            bats_block_head() + body + marked_bats_foot(),
            0,
            document_match(body.len() as int),
        ),
{
    let t = bats_block_head() + body + marked_bats_foot();
    let n = body.len() as int;
    let e = n + 28;
    let f = n + 36;
    lemma_three_parts(bats_block_head(), body, marked_bats_foot());
    assert(t.subrange(e, e + 4) =~= heading());
    assert(t.subrange(f, f + 4) =~= end_word());
    assert(tail_at(t, e, f));
    assert forall|e2: int, f2: int| #[trigger] tail_at(t, e2, f2) implies e2 < e || (e2 == e
        && f2 <= f) by {
        lemma_has_at_chars(t, e2, heading(), 0);
        lemma_has_at_chars(t, e2, heading(), 2);
        if e2 == e {
            if f2 > n + 40 {
                assert(t[n + 40] == '\n');
            }
            lemma_has_at_chars(t, f2, end_word(), 0);
            if f2 > f {
                lemma_has_at_chars(t, f2, end_word(), 3);
            }
        }
    }
    assert(t.subrange(n + 24, n + 27) =~= comment_close());
    assert forall|d2: int| #[trigger] has_at(t, d2, comment_close()) && d2 + 3 <= e implies d2
        <= n + 24 by {
        lemma_has_at_chars(t, d2, comment_close(), 1);
    }
    assert(t.subrange(20, 24) =~= comment_open());
    assert forall|c2: int| #[trigger] has_at(t, c2, comment_open()) && c2 + 5 <= n + 24 implies c2
        <= 20 by {
        lemma_has_at_chars(t, c2, comment_open(), 0);
        if 24 <= c2 < n + 24 {
            assert(body[c2 - 24] == '<');
            assert(body.contains('<'));
        }
    }
    assert(t.subrange(0, 5) =~= open_tag());
    assert(t.subrange(16, 19) =~= comment_close());
    assert(line_candidate(t, 5, 13, 20, comment_close(), 16));
    assert forall|b2: int| #[trigger] line_candidate(t, 5, 13, 20, comment_close(), b2) implies b2
        <= 16 by {
        lemma_has_at_chars(t, b2, comment_close(), 1);
    }
    assert(t.subrange(9, 16) =~= start_word());
    assert(line_candidate(t, 5, 6, 16, start_word(), 9));
    lemma_first_block(t, 0, 0, 9, 16, 20, n + 24, e, f);
}

proof fn lemma_trim_bats()
    ensures
        trim(seq!['b', 'a', 't', 's']) == seq!['b', 'a', 't', 's'],
        trim(Seq::<char>::empty()) == Seq::<char>::empty(),
{
    let kind = seq!['b', 'a', 't', 's'];
    assert(crate::text::trim_start(kind) == kind);
    assert(crate::text::trim_end(kind) == kind);
}

/// The scope that the block match describes in the rewritten document.
#[verifier::spinoff_prover]
proof fn lemma_document_scope(body: Seq<char>, url: Seq<char>)
    ensures
        scope_of(
            bats_block_head() + body + marked_bats_foot(),
            document_match(body.len() as int),
            url,
        ) == (ScopeView {
            commands: trim(body),
            run_type: RunType::Bats,
            ockam_enroll_data: Seq::<char>::empty(),
            url: url,
        }),
        remove_match(
            bats_block_head() + body + marked_bats_foot(),
            document_match(body.len() as int),
        ) == seq!['\n'],
{
    let t = bats_block_head() + body + marked_bats_foot();
    let n = body.len() as int;
    lemma_three_parts(bats_block_head(), body, marked_bats_foot());
    assert(t.subrange(24, n + 24) =~= body);
    assert(t.subrange(5, 9) =~= seq!['b', 'a', 't', 's']);
    assert(t.subrange(16, 16) =~= Seq::<char>::empty());
    lemma_trim_bats();
    assert(remove_match(t, document_match(n)) =~= seq!['\n']);
}

/// One pass over a one-block document.
#[verifier::spinoff_prover]
proof fn lemma_document_pass(body: Seq<char>, url: Seq<char>)
    requires
        body.len() > 0,
        body[0] != ' ',
        !body.contains('<'),
    ensures
        has_end_marker(bats_block_document(body)),
        pass_scopes(bats_block_document(body), url) == seq![
            ScopeView {
                commands: trim(body),
                run_type: RunType::Bats,
                ockam_enroll_data: Seq::<char>::empty(),
                url: url,
            },
        ],
        pass_rest(bats_block_document(body)) == seq!['\n'],
{
    let d = bats_block_document(body);
    let n = body.len() as int;
    lemma_document_marked(body);
    let t = pass_marked(d);
    let m = document_match(n);
    lemma_document_block(body);
    let c = choose|m2: BlockMatch| is_first_block_from(t, 0, m2);
    lemma_first_block_unique(t, 0, m, c);
    assert(first_block_from(t, 0) == Some(m));
    lemma_blocks_of_pass(t);
    lemma_document_scope(body, url);
    assert(pass_scopes(d, url) =~= seq![scope_of(t, m, url)]);
}

/// A document made of one `bats` block without enrollment data gives one
/// command scope: its commands are the block's body with the white space
/// around it removed and every other character kept (see
/// `law_trim_strips_only_white_space`), its type is `bats`, its enrollment
/// data is empty and its document is `url`. The body is any non-empty text
/// that holds no `<` and does not start with a space (either could open
/// another comment).
pub proof fn law_single_bats_block(body: Seq<char>, url: Seq<char>)
    requires
        body.len() > 0,
        body[0] != ' ',
        !body.contains('<'),
    ensures
        scan_blocks(bats_block_document(body), url) == seq![
            ScopeView {
                commands: trim(body),
                run_type: RunType::Bats,
                ockam_enroll_data: Seq::<char>::empty(),
                url: url,
            },
        ],
{
    let d = bats_block_document(body);
    lemma_document_pass(body, url);
    lemma_scan_unfold(d, url);
    let rest = pass_rest(d);
    assert forall|p: int, q: int| !#[trigger] end_marker_at(rest, p, q) by {}
    assert(scan_blocks(rest, url) =~= Seq::<ScopeView>::empty());
    assert(scan_blocks(d, url) =~= pass_scopes(d, url));
}

} // verus!
