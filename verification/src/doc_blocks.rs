//! Extraction of runnable command blocks from the documentation's markdown.
//!
//! A block is written in HTML comments:
//!
//! ```text
//! <!-- bats start OCKAM_HOME -->
//! <!--
//! commands
//! -->
//! <!-- bats end -->
//! ```
//!
//! The scanner follows two patterns, written here in regular-expression
//! notation (`.` is any character but a line break):
//!
//! * the end marker `<!-- (.+) end -->`, which is rewritten to `### $1 end`;
//! * the block `<!-- (.+) start (.*)-->(?:.|\n)*<!--((?:.|\n)+)-->(?:.|\n)*### .+ end`.
//!
//! Both are searched with leftmost-first semantics: the match that starts
//! first wins, and among those the one whose groups end last, in the order
//! in which they are written (greedy repetition).
use vstd::prelude::*;
use crate::text::{
    strips_to, law_trim_strips_only_white_space, lemma_strips_unique, has_at, no_newline, trim, line_candidate, occurs_at, last_on_line, last_before, trim_bounds,
    string_of, chars_of,
};

verus! {

/// `<!-- `
pub open spec fn open_tag() -> Seq<char> {
    seq!['<', '!', '-', '-', ' ']
}

/// ` end -->`
pub open spec fn end_tag() -> Seq<char> {
    seq![' ', 'e', 'n', 'd', ' ', '-', '-', '>']
}

/// ` start `
pub open spec fn start_word() -> Seq<char> {
    seq![' ', 's', 't', 'a', 'r', 't', ' ']
}

/// `<!--`
pub open spec fn comment_open() -> Seq<char> {
    seq!['<', '!', '-', '-']
}

/// `-->`
pub open spec fn comment_close() -> Seq<char> {
    seq!['-', '-', '>']
}

/// `### `
pub open spec fn heading() -> Seq<char> {
    seq!['#', '#', '#', ' ']
}

/// ` end`
pub open spec fn end_word() -> Seq<char> {
    seq![' ', 'e', 'n', 'd']
}

// ---------------------------------------------------------------------------
// The end marker `<!-- (.+) end -->`
// ---------------------------------------------------------------------------

/// The end marker matches `t` from `p` to `q + 8`; its group is `t[p + 5 .. q]`.
pub open spec fn end_marker_at(t: Seq<char>, p: int, q: int) -> bool {
    &&& has_at(t, p, open_tag())
    &&& q >= p + 6
    &&& no_newline(t, p + 5, q)
    &&& has_at(t, q, end_tag())
}

/// `t` holds an end marker somewhere.
pub open spec fn has_end_marker(t: Seq<char>) -> bool {
    exists|p: int, q: int| end_marker_at(t, p, q)
}

/// `(p, q)` is the end marker found first: the leftmost one, with the longest group.
pub open spec fn is_first_end_marker(t: Seq<char>, p: int, q: int) -> bool {
    &&& end_marker_at(t, p, q)
    &&& forall|p2: int, q2: int| #[trigger]
        end_marker_at(t, p2, q2) ==> p < p2 || (p == p2 && q2 <= q)
}

/// `t` with the end marker `(p, q)` rewritten to `### <group> end`.
pub open spec fn mark_block_end(t: Seq<char>, p: int, q: int) -> Seq<char> {
    t.subrange(0, p) + heading() + t.subrange(p + 5, q) + end_word() + t.subrange(q + 8, t.len() as int)
}

// ---------------------------------------------------------------------------
// The block pattern
// ---------------------------------------------------------------------------

/// Boundaries of one match of the block pattern.
pub struct BlockMatch {
    /// Where `<!-- ` starts.
    pub start: int,
    /// Where ` start ` starts: the run type is `start + 5 .. kind_end`.
    pub kind_end: int,
    /// Where the first `-->` starts: the enrollment data is `kind_end + 7 .. data_end`.
    pub data_end: int,
    /// Where the `<!--` before the commands starts.
    pub body_start: int,
    /// Where the `-->` after the commands starts: the commands are `body_start + 4 .. body_end`.
    pub body_end: int,
    /// Where the closing `### ` starts.
    pub tail_start: int,
    /// Where the closing ` end` starts; the match ends at `tail_end + 4`.
    pub tail_end: int,
}

/// `### .+ end` matches from `e` to `f + 4`.
pub open spec fn tail_at(t: Seq<char>, e: int, f: int) -> bool {
    &&& has_at(t, e, heading())
    &&& f >= e + 5
    &&& no_newline(t, e + 4, f)
    &&& has_at(t, f, end_word())
}

/// The block pattern matches `t` with the boundaries `m`.
pub open spec fn block_at(t: Seq<char>, m: BlockMatch) -> bool {
    &&& has_at(t, m.start, open_tag())
    &&& m.kind_end >= m.start + 6
    &&& no_newline(t, m.start + 5, m.kind_end)
    &&& has_at(t, m.kind_end, start_word())
    &&& m.data_end >= m.kind_end + 7
    &&& no_newline(t, m.kind_end + 7, m.data_end)
    &&& has_at(t, m.data_end, comment_close())
    &&& m.body_start >= m.data_end + 3
    &&& has_at(t, m.body_start, comment_open())
    &&& m.body_end >= m.body_start + 5
    &&& has_at(t, m.body_end, comment_close())
    &&& m.tail_start >= m.body_end + 3
    &&& tail_at(t, m.tail_start, m.tail_end)
}

/// `m2` is not preferred to `m` when both start at the same place: the
/// boundaries, read in order, are compared lexicographically, the later the better.
pub open spec fn not_preferred(m2: BlockMatch, m: BlockMatch) -> bool {
    ||| m2.kind_end < m.kind_end
    ||| m2.kind_end == m.kind_end && m2.data_end < m.data_end
    ||| m2.kind_end == m.kind_end && m2.data_end == m.data_end && m2.body_start < m.body_start
    ||| m2.kind_end == m.kind_end && m2.data_end == m.data_end && m2.body_start == m.body_start
        && m2.body_end < m.body_end
    ||| m2.kind_end == m.kind_end && m2.data_end == m.data_end && m2.body_start == m.body_start
        && m2.body_end == m.body_end && m2.tail_start < m.tail_start
    ||| m2.kind_end == m.kind_end && m2.data_end == m.data_end && m2.body_start == m.body_start
        && m2.body_end == m.body_end && m2.tail_start == m.tail_start && m2.tail_end
        <= m.tail_end
}

/// `m` is the match a search of the block pattern from position `from` finds.
pub open spec fn is_first_block_from(t: Seq<char>, from: int, m: BlockMatch) -> bool {
    &&& block_at(t, m)
    &&& m.start >= from
    &&& forall|m2: BlockMatch| #[trigger]
        block_at(t, m2) && m2.start >= from ==> m.start < m2.start || (m.start == m2.start
            && not_preferred(m2, m))
}

/// The match a search of the block pattern from `from` finds, if any.
pub open spec fn first_block_from(t: Seq<char>, from: int) -> Option<BlockMatch> {
    if exists|m: BlockMatch| is_first_block_from(t, from, m) {
        Some(choose|m: BlockMatch| is_first_block_from(t, from, m))
    } else {
        None
    }
}

/// All successive non-overlapping matches of the block pattern from `from`
/// (what iterating over the captures yields).
pub open spec fn blocks_from(t: Seq<char>, from: int) -> Seq<BlockMatch>
    decreases t.len() - from,
{
    match first_block_from(t, from) {
        Some(m) => seq![m] + blocks_from(t, m.tail_end + 4),
        None => seq![],
    }
}

/// `t` with the match `m` removed.
pub open spec fn remove_match(t: Seq<char>, m: BlockMatch) -> Seq<char> {
    t.subrange(0, m.start) + t.subrange(m.tail_end + 4, t.len() as int)
}

// ---------------------------------------------------------------------------
// Run types and command scopes
// ---------------------------------------------------------------------------

/// How the commands of a block are run.
#[derive(Debug, Clone, Copy, PartialEq, Eq, Structural)]
pub enum RunType {
    Unknown,
    Bats,
}

/// The run type that a block's (trimmed) type name stands for: `bats` or unknown.
pub open spec fn run_type_of(name: Seq<char>) -> RunType {
    if name == seq!['b', 'a', 't', 's'] {
        RunType::Bats
    } else {
        RunType::Unknown
    }
}

impl RunType {
    /// The run type named `name`.
    pub fn parse(name: &str) -> (r: RunType)
        ensures
            r == run_type_of(name@),
    {
        let cs = chars_of(name);
        assert(cs@.subrange(0, cs@.len() as int) =~= name@);
        run_type_in(&cs, 0, cs.len())
    }
}

impl Default for RunType {
    fn default() -> (r: RunType)
        ensures
            r == RunType::Unknown,
    {
        RunType::Unknown
    }
}

impl std::str::FromStr for RunType {
    type Err = ();

    fn from_str(s: &str) -> (r: Result<RunType, ()>)
        ensures
            r == Ok::<RunType, ()>(run_type_of(s@)),
    {
        Ok(RunType::parse(s))
    }
}

/// The run type named by `t[lo..hi]`.
fn run_type_in(t: &Vec<char>, lo: usize, hi: usize) -> (r: RunType)
    requires
        lo <= hi <= t@.len(),
    ensures
        r == run_type_of(t@.subrange(lo as int, hi as int)),
{
    if hi - lo == 4 && t[lo] == 'b' && t[lo + 1] == 'a' && t[lo + 2] == 't' && t[lo + 3] == 's' {
        assert(t@.subrange(lo as int, hi as int) =~= seq!['b', 'a', 't', 's']);
        RunType::Bats
    } else {
        proof {
            let sub = t@.subrange(lo as int, hi as int);
            let bats = seq!['b', 'a', 't', 's'];
            assert(bats.len() == 4);
            if sub == bats {
                assert(hi - lo == 4);
                assert(sub[0] == t@[lo as int] && bats[0] == 'b');
                assert(sub[1] == t@[lo + 1] && bats[1] == 'a');
                assert(sub[2] == t@[lo + 2] && bats[2] == 't');
                assert(sub[3] == t@[lo + 3] && bats[3] == 's');
            }
        }
        RunType::Unknown
    }
}

/// A block of commands found in a markdown document.
#[derive(Debug, PartialEq)]
pub struct CommandScope {
    pub commands: String,
    pub run_type: RunType,
    pub ockam_enroll_data: String,
    pub url: String,
}

/// The contents of a `CommandScope`.
pub struct ScopeView {
    pub commands: Seq<char>,
    pub run_type: RunType,
    pub ockam_enroll_data: Seq<char>,
    pub url: Seq<char>,
}

impl View for CommandScope {
    type V = ScopeView;

    open spec fn view(&self) -> ScopeView {
        ScopeView {
            commands: self.commands@,
            run_type: self.run_type,
            ockam_enroll_data: self.ockam_enroll_data@,
            url: self.url@,
        }
    }
}

/// The command scope that the match `m` in `t` describes, for the document `url`.
pub open spec fn scope_of(t: Seq<char>, m: BlockMatch, url: Seq<char>) -> ScopeView {
    ScopeView {
        commands: trim(t.subrange(m.body_start + 4, m.body_end)),
        run_type: run_type_of(trim(t.subrange(m.start + 5, m.kind_end))),
        ockam_enroll_data: trim(t.subrange(m.kind_end + 7, m.data_end)),
        url: url,
    }
}

/// The command scopes of the markdown `t`: while `t` holds an end marker, the
/// first one is rewritten, every block match is collected, the first one is
/// removed, and the scan goes on with what is left.
pub open spec fn scan_blocks(t: Seq<char>, url: Seq<char>) -> Seq<ScopeView>
    decreases t.len(),
{
    if has_end_marker(t) {
        proof {
            lemma_first_end_marker_exists(t);
        }
        let (p, q) = choose|p: int, q: int| is_first_end_marker(t, p, q);
        let marked = mark_block_end(t, p, q);
        let rest = match first_block_from(marked, 0) {
            Some(m) => remove_match(marked, m),
            None => marked,
        };
        blocks_from(marked, 0).map_values(|m: BlockMatch| scope_of(marked, m, url)) + scan_blocks(
            rest,
            url,
        )
    } else {
        seq![]
    }
}

// ---------------------------------------------------------------------------
// Lemmas
// ---------------------------------------------------------------------------

/// The greatest `i` in `lo .. hi` that satisfies `pred`.
proof fn lemma_max_exists(pred: spec_fn(int) -> bool, lo: int, hi: int) -> (m: int)
    requires
        exists|i: int| lo <= i < hi && #[trigger] pred(i),
    ensures
        lo <= m < hi,
        pred(m),
        forall|i: int| lo <= i < hi && #[trigger] pred(i) ==> i <= m,
    decreases hi - lo,
{
    let w = choose|i: int| lo <= i < hi && #[trigger] pred(i);
    if pred(hi - 1) {
        hi - 1
    } else {
        assert(lo <= w < hi - 1 && pred(w));
        lemma_max_exists(pred, lo, hi - 1)
    }
}

/// The least `i` in `lo .. hi` that satisfies `pred`.
proof fn lemma_min_exists(pred: spec_fn(int) -> bool, lo: int, hi: int) -> (m: int)
    requires
        exists|i: int| lo <= i < hi && #[trigger] pred(i),
    ensures
        lo <= m < hi,
        pred(m),
        forall|i: int| lo <= i < hi && #[trigger] pred(i) ==> m <= i,
    decreases hi - lo,
{
    let w = choose|i: int| lo <= i < hi && #[trigger] pred(i);
    if pred(lo) {
        lo
    } else {
        assert(lo + 1 <= w < hi && pred(w));
        lemma_min_exists(pred, lo + 1, hi)
    }
}

proof fn lemma_start_word_line(t: Seq<char>, j: int)
    requires
        has_at(t, j, start_word()),
    ensures
        no_newline(t, j, j + 7),
{
    assert forall|x: int| j <= x < j + 7 implies t[x] != '\n' by {
        assert(t.subrange(j, j + 7)[x - j] == t[x]);
    }
}

/// A first end marker is where `line_candidate` finds it.
proof fn lemma_end_marker_candidate(t: Seq<char>, p: int, q: int)
    requires
        has_at(t, p, open_tag()),
    ensures
        end_marker_at(t, p, q) == line_candidate(t, p + 5, p + 6, t.len() as int, end_tag(), q),
{
}

/// Whenever `t` holds an end marker, a first one exists.
pub proof fn lemma_first_end_marker_exists(t: Seq<char>)
    requires
        has_end_marker(t),
    ensures
        exists|p: int, q: int| is_first_end_marker(t, p, q),
{
    let (pw, qw) = choose|p: int, q: int| end_marker_at(t, p, q);
    let pred_p = |p: int| exists|q: int| end_marker_at(t, p, q);
    assert(pred_p(pw));
    let p0 = lemma_min_exists(pred_p, 0, t.len() as int);
    let pred_q = |q: int| end_marker_at(t, p0, q);
    let qx = choose|q: int| end_marker_at(t, p0, q);
    assert(pred_q(qx));
    let q0 = lemma_max_exists(pred_q, 0, t.len() as int);
    assert forall|p2: int, q2: int| #[trigger]
        end_marker_at(t, p2, q2) implies p0 < p2 || (p0 == p2 && q2 <= q0) by {
        assert(pred_p(p2));
        if p2 == p0 {
            assert(pred_q(q2));
        }
    }
    assert(is_first_end_marker(t, p0, q0));
}

/// Where the groups of any block match lie, given the last closing line
/// `(e, f)`, the last `-->` `d` that fits before it and the last `<!--` `c`
/// that leaves room for commands before `d`.
proof fn lemma_block_bounds(t: Seq<char>, m2: BlockMatch, c: int, d: int, e: int, f: int)
    requires
        block_at(t, m2),
        forall|e2: int, f2: int| #[trigger] tail_at(t, e2, f2) ==> e2 < e || (e2 == e && f2 <= f),
        forall|d2: int| #[trigger] has_at(t, d2, comment_close()) && d2 + 3 <= e ==> d2 <= d,
        forall|c2: int| #[trigger] has_at(t, c2, comment_open()) && c2 + 5 <= d ==> c2 <= c,
    ensures
        m2.tail_start <= e,
        m2.tail_start == e ==> m2.tail_end <= f,
        m2.body_end <= d,
        m2.body_start <= c,
        m2.data_end + 3 <= c,
        no_newline(t, m2.start + 5, m2.data_end),
        line_candidate(t, m2.start + 5, m2.start + 13, c, comment_close(), m2.data_end),
{
    assert(tail_at(t, m2.tail_start, m2.tail_end));
    assert(has_at(t, m2.body_end, comment_close()));
    assert(has_at(t, m2.body_start, comment_open()));
    lemma_start_word_line(t, m2.kind_end);
    assert forall|x: int| m2.start + 5 <= x < m2.data_end implies t[x] != '\n' by {
        if x < m2.kind_end {
        } else if x < m2.kind_end + 7 {
        } else {
        }
    }
}

/// The match made of the given boundaries, each the last one possible, is the
/// one a search from `from` finds.
pub(crate) proof fn lemma_first_block(
    t: Seq<char>,
    from: int,
    s: int,
    a: int,
    b: int,
    c: int,
    d: int,
    e: int,
    f: int,
)
    requires
        tail_at(t, e, f),
        forall|e2: int, f2: int| #[trigger] tail_at(t, e2, f2) ==> e2 < e || (e2 == e && f2 <= f),
        has_at(t, d, comment_close()),
        d + 3 <= e,
        forall|d2: int| #[trigger] has_at(t, d2, comment_close()) && d2 + 3 <= e ==> d2 <= d,
        has_at(t, c, comment_open()),
        c + 5 <= d,
        forall|c2: int| #[trigger] has_at(t, c2, comment_open()) && c2 + 5 <= d ==> c2 <= c,
        from <= s,
        has_at(t, s, open_tag()),
        forall|m2: BlockMatch| #[trigger] block_at(t, m2) && m2.start >= from ==> m2.start >= s,
        line_candidate(t, s + 5, s + 13, c, comment_close(), b),
        forall|b2: int| #[trigger]
            line_candidate(t, s + 5, s + 13, c, comment_close(), b2) ==> b2 <= b,
        line_candidate(t, s + 5, s + 6, b, start_word(), a),
        forall|a2: int| #[trigger] line_candidate(t, s + 5, s + 6, b, start_word(), a2) ==> a2 <= a,
    ensures
        is_first_block_from(
            t,
            from,
            BlockMatch {
                start: s,
                kind_end: a,
                data_end: b,
                body_start: c,
                body_end: d,
                tail_start: e,
                tail_end: f,
            },
        ),
{
    let m = BlockMatch {
        start: s,
        kind_end: a,
        data_end: b,
        body_start: c,
        body_end: d,
        tail_start: e,
        tail_end: f,
    };
    assert(block_at(t, m));
    assert forall|m2: BlockMatch| #[trigger]
        block_at(t, m2) && m2.start >= from implies m.start < m2.start || (m.start == m2.start
            && not_preferred(m2, m)) by {
        lemma_block_bounds(t, m2, c, d, e, f);
        if m2.start == s {
            assert(line_candidate(t, s + 5, s + 13, c, comment_close(), m2.data_end));
            assert(line_candidate(t, s + 5, s + 6, b, start_word(), m2.kind_end));
        }
    }
}

/// Whenever the block pattern matches from `from`, a first match exists.
#[verifier::spinoff_prover]
#[verifier::rlimit(40)]
pub proof fn lemma_first_block_exists(t: Seq<char>, from: int)
    requires
        exists|m: BlockMatch| #[trigger] block_at(t, m) && m.start >= from,
    ensures
        exists|m: BlockMatch| is_first_block_from(t, from, m),
{
    let w = choose|m: BlockMatch| #[trigger] block_at(t, m) && m.start >= from;
    let n = t.len() as int;
    let pred_e = |e: int| exists|f: int| tail_at(t, e, f);
    assert(tail_at(t, w.tail_start, w.tail_end));
    assert(pred_e(w.tail_start));
    let e = lemma_max_exists(pred_e, 0, n + 1);
    let pred_f = |f: int| tail_at(t, e, f);
    let fw = choose|f: int| tail_at(t, e, f);
    assert(pred_f(fw));
    let f = lemma_max_exists(pred_f, 0, n + 1);
    assert forall|e2: int, f2: int| #[trigger] tail_at(t, e2, f2) implies e2 < e || (e2 == e && f2
        <= f) by {
        assert(pred_e(e2));
        if e2 == e {
            assert(pred_f(f2));
        }
    }
    let pred_d = |d: int| has_at(t, d, comment_close()) && d + 3 <= e;
    assert(pred_d(w.body_end));
    let d = lemma_max_exists(pred_d, 0, n + 1);
    assert forall|d2: int| #[trigger] has_at(t, d2, comment_close()) && d2 + 3 <= e implies d2
        <= d by {
        assert(pred_d(d2));
    }
    let pred_c = |c: int| has_at(t, c, comment_open()) && c + 5 <= d;
    assert(pred_c(w.body_start));
    let c = lemma_max_exists(pred_c, 0, n + 1);
    assert forall|c2: int| #[trigger] has_at(t, c2, comment_open()) && c2 + 5 <= d implies c2
        <= c by {
        assert(pred_c(c2));
    }
    let pred_s = |s: int| exists|m2: BlockMatch| #[trigger] block_at(t, m2) && m2.start == s;
    assert(pred_s(w.start));
    let s = lemma_min_exists(pred_s, from, n + 1);
    assert forall|m2: BlockMatch| #[trigger] block_at(t, m2) && m2.start >= from implies m2.start
        >= s by {
        assert(pred_s(m2.start));
    }
    let ms = choose|m2: BlockMatch| #[trigger] block_at(t, m2) && m2.start == s;
    lemma_block_bounds(t, ms, c, d, e, f);
    let pred_b = |b: int| line_candidate(t, s + 5, s + 13, c, comment_close(), b);
    assert(pred_b(ms.data_end));
    let b = lemma_max_exists(pred_b, 0, n + 1);
    assert forall|b2: int| #[trigger]
        line_candidate(t, s + 5, s + 13, c, comment_close(), b2) implies b2 <= b by {
        assert(pred_b(b2));
    }
    let pred_a = |a: int| line_candidate(t, s + 5, s + 6, b, start_word(), a);
    assert(line_candidate(t, s + 5, s + 6, ms.data_end, start_word(), ms.kind_end));
    assert(pred_a(ms.kind_end));
    let a = lemma_max_exists(pred_a, 0, n + 1);
    assert forall|a2: int| #[trigger] line_candidate(t, s + 5, s + 6, b, start_word(), a2) implies a2
        <= a by {
        assert(pred_a(a2));
    }
    lemma_first_block(t, from, s, a, b, c, d, e, f);
}

/// The first block match from a position is unique.
pub(crate) proof fn lemma_first_block_unique(t: Seq<char>, from: int, m1: BlockMatch, m2: BlockMatch)
    requires
        is_first_block_from(t, from, m1),
        is_first_block_from(t, from, m2),
    ensures
        m1 == m2,
{
    assert(block_at(t, m2) && m2.start >= from);
    assert(block_at(t, m1) && m1.start >= from);
}

/// The first end marker is unique.
pub(crate) proof fn lemma_first_end_marker_unique(t: Seq<char>, p1: int, q1: int, p2: int, q2: int)
    requires
        is_first_end_marker(t, p1, q1),
        is_first_end_marker(t, p2, q2),
    ensures
        p1 == p2 && q1 == q2,
{
    assert(end_marker_at(t, p2, q2));
    assert(end_marker_at(t, p1, q1));
}

// ---------------------------------------------------------------------------
// The scanner
// ---------------------------------------------------------------------------

/// Where the end marker found first lies in `t`, if `t` holds one.
fn find_end_marker(t: &Vec<char>) -> (r: Option<(usize, usize)>)
    ensures
        r matches Some((p, q)) ==> is_first_end_marker(t@, p as int, q as int),
        r is None ==> !has_end_marker(t@),
{
    let open: &[char] = &['<', '!', '-', '-', ' '];
    let close: &[char] = &[' ', 'e', 'n', 'd', ' ', '-', '-', '>'];
    assert(open@ =~= open_tag());
    assert(close@ =~= end_tag());
    let mut p: usize = 0;
    while p < t.len()
        invariant
            open@ == open_tag(),
            close@ == end_tag(),
            forall|p2: int, q2: int| #[trigger] end_marker_at(t@, p2, q2) ==> p2 >= p,
        decreases t.len() - p,
    {
        if occurs_at(t, p, open) && p + 5 < t.len() {
            match last_on_line(t, p + 5, p + 6, t.len(), close) {
                Some(q) => {
                    assert forall|p2: int, q2: int| #[trigger]
                        end_marker_at(t@, p2, q2) implies p < p2 || (p == p2 && q2 <= q) by {
                        if p2 == p {
                            lemma_end_marker_candidate(t@, p as int, q2);
                        }
                    }
                    return Some((p, q));
                },
                None => {
                    assert forall|p2: int, q2: int| #[trigger]
                        end_marker_at(t@, p2, q2) implies p2 >= p + 1 by {
                        if p2 == p {
                            lemma_end_marker_candidate(t@, p as int, q2);
                        }
                    }
                },
            }
        }
        p = p + 1;
    }
    None
}

/// The last closing line `### .+ end` of `t`: its start, and the start of its
/// last ` end`.
fn find_last_tail(t: &Vec<char>) -> (r: Option<(usize, usize)>)
    ensures
        r matches Some((e, f)) ==> tail_at(t@, e as int, f as int),
        r matches Some((e, f)) ==> forall|e2: int, f2: int| #[trigger]
            tail_at(t@, e2, f2) ==> e2 < e || (e2 == e && f2 <= f),
        r is None ==> forall|e2: int, f2: int| !#[trigger] tail_at(t@, e2, f2),
{
    let hash: &[char] = &['#', '#', '#', ' '];
    let word: &[char] = &[' ', 'e', 'n', 'd'];
    assert(hash@ =~= heading());
    assert(word@ =~= end_word());
    let mut e = t.len();
    while e > 0
        invariant
            e <= t@.len(),
            hash@ == heading(),
            word@ == end_word(),
            forall|e2: int, f2: int| #[trigger] tail_at(t@, e2, f2) ==> e2 < e,
        decreases e,
    {
        e = e - 1;
        if occurs_at(t, e, hash) && t.len() - e >= 5 {
            match last_on_line(t, e + 4, e + 5, t.len(), word) {
                Some(f) => {
                    assert forall|e2: int, f2: int| #[trigger]
                        tail_at(t@, e2, f2) implies e2 < e || (e2 == e && f2 <= f) by {
                        if e2 == e {
                            assert(line_candidate(
                                t@,
                                e + 4,
                                e + 5,
                                t.len() as int,
                                word@,
                                f2,
                            ));
                        }
                    }
                    return Some((e, f));
                },
                None => {
                    assert forall|e2: int, f2: int| #[trigger] tail_at(t@, e2, f2) implies e2
                        < e by {
                        if e2 == e {
                            assert(line_candidate(
                                t@,
                                e + 4,
                                e + 5,
                                t.len() as int,
                                word@,
                                f2,
                            ));
                        }
                    }
                },
            }
        }
    }
    None
}

/// Boundaries of a block match, as positions in a `Vec<char>`.
struct BlockSpan {
    start: usize,
    kind_end: usize,
    data_end: usize,
    body_start: usize,
    body_end: usize,
    tail_start: usize,
    tail_end: usize,
}

impl View for BlockSpan {
    type V = BlockMatch;

    closed spec fn view(&self) -> BlockMatch {
        BlockMatch {
            start: self.start as int,
            kind_end: self.kind_end as int,
            data_end: self.data_end as int,
            body_start: self.body_start as int,
            body_end: self.body_end as int,
            tail_start: self.tail_start as int,
            tail_end: self.tail_end as int,
        }
    }
}

/// The block match that a search of `t` from its start finds; no other match
/// follows it.
fn find_block(t: &Vec<char>) -> (r: Option<BlockSpan>)
    ensures
        r matches Some(m) ==> first_block_from(t@, 0) == Some(m@),
        r matches Some(m) ==> first_block_from(t@, m.tail_end + 4) is None,
        r matches Some(m) ==> block_at(t@, m@),
        r is None ==> first_block_from(t@, 0) is None,
{
    let open: &[char] = &['<', '!', '-', '-', ' '];
    let start: &[char] = &[' ', 's', 't', 'a', 'r', 't', ' '];
    let copen: &[char] = &['<', '!', '-', '-'];
    let close: &[char] = &['-', '-', '>'];
    assert(open@ =~= open_tag());
    assert(start@ =~= start_word());
    assert(copen@ =~= comment_open());
    assert(close@ =~= comment_close());
    let (e, f) = match find_last_tail(t) {
        Some(ef) => ef,
        None => {
            assert forall|m2: BlockMatch| #[trigger] is_first_block_from(t@, 0, m2) implies false by {
                assert(tail_at(t@, m2.tail_start, m2.tail_end));
            }
            return None;
        },
    };
    let d = match last_before(t, close, e) {
        Some(d) => d,
        None => {
            assert forall|m2: BlockMatch| #[trigger] is_first_block_from(t@, 0, m2) implies false by {
                assert(tail_at(t@, m2.tail_start, m2.tail_end));
                assert(has_at(t@, m2.body_end, comment_close()));
            }
            return None;
        },
    };
    if d == 0 {
        assert forall|m2: BlockMatch| #[trigger] is_first_block_from(t@, 0, m2) implies false by {
            assert(tail_at(t@, m2.tail_start, m2.tail_end));
            assert(has_at(t@, m2.body_end, comment_close()));
        }
        return None;
    }
    let c = match last_before(t, copen, d - 1) {
        Some(c) => c,
        None => {
            assert forall|m2: BlockMatch| #[trigger] is_first_block_from(t@, 0, m2) implies false by {
                assert(tail_at(t@, m2.tail_start, m2.tail_end));
                assert(has_at(t@, m2.body_end, comment_close()));
                assert(has_at(t@, m2.body_start, comment_open()));
            }
            return None;
        },
    };
    assert forall|d2: int| #[trigger] has_at(t@, d2, comment_close()) && d2 + 3 <= e implies d2
        <= d by {}
    assert forall|c2: int| #[trigger] has_at(t@, c2, comment_open()) && c2 + 5 <= d implies c2
        <= c by {}
    let mut s: usize = 0;
    while s < t.len()
        invariant
            open@ == open_tag(),
            start@ == start_word(),
            close@ == comment_close(),
            tail_at(t@, e as int, f as int),
            forall|e2: int, f2: int| #[trigger]
                tail_at(t@, e2, f2) ==> e2 < e || (e2 == e && f2 <= f),
            has_at(t@, d as int, comment_close()),
            d + 3 <= e,
            forall|d2: int| #[trigger] has_at(t@, d2, comment_close()) && d2 + 3 <= e ==> d2 <= d,
            has_at(t@, c as int, comment_open()),
            c + 5 <= d,
            forall|c2: int| #[trigger] has_at(t@, c2, comment_open()) && c2 + 5 <= d ==> c2 <= c,
            forall|m2: BlockMatch| #[trigger] block_at(t@, m2) ==> m2.start >= s,
        decreases t.len() - s,
    {
        if occurs_at(t, s, open) && t.len() - s >= 13 {
            if let Some(b) = last_on_line(t, s + 5, s + 13, c, close) {
                if let Some(a) = last_on_line(t, s + 5, s + 6, b, start) {
                    proof {
                        lemma_first_block(
                            t@,
                            0,
                            s as int,
                            a as int,
                            b as int,
                            c as int,
                            d as int,
                            e as int,
                            f as int,
                        );
                    }
                    let m = BlockSpan {
                        start: s,
                        kind_end: a,
                        data_end: b,
                        body_start: c,
                        body_end: d,
                        tail_start: e,
                        tail_end: f,
                    };
                    proof {
                        lemma_found_block(t@, m@);
                    }
                    return Some(m);
                } else {
                    assert forall|m2: BlockMatch| #[trigger] block_at(t@, m2) implies m2.start
                        >= s + 1 by {
                        if m2.start == s {
                            lemma_block_bounds(t@, m2, c as int, d as int, e as int, f as int);
                            assert(line_candidate(
                                t@,
                                s + 5,
                                s + 6,
                                b as int,
                                start_word(),
                                m2.kind_end,
                            ));
                        }
                    }
                }
            } else {
                assert forall|m2: BlockMatch| #[trigger] block_at(t@, m2) implies m2.start >= s
                    + 1 by {
                    if m2.start == s {
                        lemma_block_bounds(t@, m2, c as int, d as int, e as int, f as int);
                    }
                }
            }
        } else {
            assert forall|m2: BlockMatch| #[trigger] block_at(t@, m2) implies m2.start >= s + 1 by {
                if m2.start == s {
                    lemma_block_bounds(t@, m2, c as int, d as int, e as int, f as int);
                }
            }
        }
        s = s + 1;
    }
    assert forall|m2: BlockMatch| #[trigger] is_first_block_from(t@, 0, m2) implies false by {
        assert(block_at(t@, m2));
        assert(has_at(t@, m2.start, open_tag()));
    }
    None
}

/// What a search finds once the first match `m` is known: the same match from
/// the start, and nothing after it.
proof fn lemma_found_block(t: Seq<char>, m: BlockMatch)
    requires
        is_first_block_from(t, 0, m),
        forall|e2: int, f2: int| #[trigger]
            tail_at(t, e2, f2) ==> e2 < m.tail_start || (e2 == m.tail_start && f2 <= m.tail_end),
    ensures
        first_block_from(t, 0) == Some(m),
        first_block_from(t, m.tail_end + 4) is None,
{
    let chosen = choose|m2: BlockMatch| is_first_block_from(t, 0, m2);
    lemma_first_block_unique(t, 0, chosen, m);
    assert forall|m2: BlockMatch| #[trigger]
        is_first_block_from(t, m.tail_end + 4, m2) implies false by {
        assert(block_at(t, m2));
        assert(tail_at(t, m2.tail_start, m2.tail_end));
    }
}

/// Appends `t[lo..hi]` to `v`.
fn extend_with(v: &mut Vec<char>, t: &Vec<char>, lo: usize, hi: usize)
    requires
        lo <= hi <= t@.len(),
    ensures
        final(v)@ == old(v)@ + t@.subrange(lo as int, hi as int),
{
    let mut k = lo;
    while k < hi
        invariant
            lo <= k <= hi <= t@.len(),
            v@ == old(v)@ + t@.subrange(lo as int, k as int),
        decreases hi - k,
    {
        v.push(t[k]);
        assert(t@.subrange(lo as int, k + 1) =~= t@.subrange(lo as int, k as int).push(
            t@[k as int],
        ));
        k = k + 1;
    }
}

/// `t` with the end marker `(p, q)` rewritten.
fn mark_end(t: &Vec<char>, p: usize, q: usize) -> (r: Vec<char>)
    requires
        end_marker_at(t@, p as int, q as int),
    ensures
        r@ == mark_block_end(t@, p as int, q as int),
{
    assert(end_tag().len() == 8 && open_tag().len() == 5);
    let n = t.len();
    let mut r: Vec<char> = Vec::new();
    extend_with(&mut r, t, 0, p);
    r.push('#');
    r.push('#');
    r.push('#');
    r.push(' ');
    extend_with(&mut r, t, p + 5, q);
    r.push(' ');
    r.push('e');
    r.push('n');
    r.push('d');
    extend_with(&mut r, t, q + 8, n);
    assert(r@ =~= mark_block_end(t@, p as int, q as int));
    r
}

/// `t` with the match `m` removed.
fn cut_block(t: &Vec<char>, m: &BlockSpan) -> (r: Vec<char>)
    requires
        block_at(t@, m@),
    ensures
        r@ == remove_match(t@, m@),
{
    assert(end_word().len() == 4);
    let n = t.len();
    let mut r: Vec<char> = Vec::new();
    extend_with(&mut r, t, 0, m.start);
    extend_with(&mut r, t, m.tail_end + 4, n);
    r
}

/// The command scope that the match `m` in `t` describes.
fn scope_at(t: &Vec<char>, m: &BlockSpan, url: &String) -> (r: CommandScope)
    requires
        block_at(t@, m@),
    ensures
        r@ == scope_of(t@, m@, url@),
{
    let (ks, ke) = trim_bounds(t, m.start + 5, m.kind_end);
    let (ds, de) = trim_bounds(t, m.kind_end + 7, m.data_end);
    let (cs, ce) = trim_bounds(t, m.body_start + 4, m.body_end);
    CommandScope {
        commands: string_of(t, cs, ce),
        run_type: run_type_in(t, ks, ke),
        ockam_enroll_data: string_of(t, ds, de),
        url: url.clone(),
    }
}

/// The views of a list of command scopes.
pub open spec fn scope_views(v: Seq<CommandScope>) -> Seq<ScopeView> {
    v.map_values(|c: CommandScope| c@)
}

/// Extracts the command blocks of the markdown document `markdown`, found at `url`.
#[verifier::spinoff_prover]
#[verifier::rlimit(30)]
pub fn convert_blocks(markdown: String, url: String) -> (r: Vec<CommandScope>)
    ensures
        scope_views(r@) == scan_blocks(markdown@, url@),
{
    let mut text = chars_of(markdown.as_str());
    let mut commands: Vec<CommandScope> = Vec::new();
    loop
        invariant
            scope_views(commands@) + scan_blocks(text@, url@) == scan_blocks(markdown@, url@),
        ensures
            scope_views(commands@) == scan_blocks(markdown@, url@),
        decreases text@.len(),
    {
        match find_end_marker(&text) {
            None => {
                assert(scope_views(commands@) + scan_blocks(text@, url@) =~= scope_views(
                    commands@,
                ));
                break ;
            },
            Some((p, q)) => {
                let ghost old_text = text@;
                let ghost old_commands = commands@;
                proof {
                    let (p2, q2) = choose|p2: int, q2: int| is_first_end_marker(old_text, p2, q2);
                    lemma_first_end_marker_unique(old_text, p as int, q as int, p2, q2);
                }
                let marked = mark_end(&text, p, q);
                match find_block(&marked) {
                    Some(m) => {
                        let scope = scope_at(&marked, &m, &url);
                        commands.push(scope);
                        text = cut_block(&marked, &m);
                        assert(blocks_from(marked@, m.tail_end + 4) =~= Seq::<BlockMatch>::empty());
                        assert(blocks_from(marked@, 0) =~= seq![m@]);
                        assert(scope_views(commands@) =~= scope_views(old_commands).push(
                            scope_of(marked@, m@, url@),
                        ));
                        assert(scan_blocks(old_text, url@) =~= seq![scope_of(marked@, m@, url@)]
                            + scan_blocks(text@, url@));
                        assert(scope_views(commands@) + scan_blocks(text@, url@) =~= scope_views(
                            old_commands,
                        ) + scan_blocks(old_text, url@));
                    },
                    None => {
                        text = marked;
                        assert(blocks_from(marked@, 0) =~= Seq::<BlockMatch>::empty());
                        assert(scan_blocks(old_text, url@) =~= scan_blocks(text@, url@));
                    },
                }
            },
        }
    }
    commands
}

/// One pass of the scanner collects at most one block: once the block
/// pattern has matched, nothing after the match matches it again, since the
/// match already reaches the last closing line.
pub proof fn lemma_one_block_per_pass(t: Seq<char>)
    ensures
        blocks_from(t, 0).len() <= 1,
{
    if let Some(m) = first_block_from(t, 0) {
        assert(is_first_block_from(t, 0, m));
        assert forall|m2: BlockMatch| #[trigger]
            is_first_block_from(t, m.tail_end + 4, m2) implies false by {
            let m3 = BlockMatch {
                start: m.start,
                kind_end: m.kind_end,
                data_end: m.data_end,
                body_start: m2.body_start,
                body_end: m2.body_end,
                tail_start: m2.tail_start,
                tail_end: m2.tail_end,
            };
            assert(block_at(t, m3));
        }
        assert(first_block_from(t, m.tail_end + 4) is None);
        assert(blocks_from(t, m.tail_end + 4) =~= Seq::<BlockMatch>::empty());
    }
}

/// The commands of a block are the text between the `<!--` and the `-->` of
/// its body with the white space around it removed, and nothing else
/// removed: every character of the body between its first and last
/// non-white-space characters is kept. The same holds of the enrollment
/// data, the text between ` start ` and the first line's `-->`; and the block
/// runs as a `bats` test exactly when its type, so stripped, is `bats`.
pub proof fn law_scope_keeps_the_body(t: Seq<char>, m: BlockMatch, url: Seq<char>)
    ensures
        ({
            let body = t.subrange(m.body_start + 4, m.body_end);
            exists|i: int, j: int|
                strips_to(body, i, j) && scope_of(t, m, url).commands == body.subrange(i, j)
        }),
        ({
            let data = t.subrange(m.kind_end + 7, m.data_end);
            exists|i: int, j: int|
                strips_to(data, i, j) && scope_of(t, m, url).ockam_enroll_data == data.subrange(
                    i,
                    j,
                )
        }),
        ({
            let kind = t.subrange(m.start + 5, m.kind_end);
            scope_of(t, m, url).run_type == RunType::Bats <==> exists|i: int, j: int|
                strips_to(kind, i, j) && kind.subrange(i, j) == seq!['b', 'a', 't', 's']
        }),
        scope_of(t, m, url).url == url,
{
    let kind = t.subrange(m.start + 5, m.kind_end);
    law_trim_strips_only_white_space(kind);
    let (i0, j0) = choose|i: int, j: int| strips_to(kind, i, j) && trim(kind) == kind.subrange(i, j);
    let bats = seq!['b', 'a', 't', 's'];
    if exists|i: int, j: int| strips_to(kind, i, j) && kind.subrange(i, j) == bats {
        let (i, j) = choose|i: int, j: int| strips_to(kind, i, j) && kind.subrange(i, j) == bats;
        lemma_strips_unique(kind, i, j, i0, j0);
        assert(kind.subrange(i, j).len() == 4);
        assert(trim(kind) == bats);
    }
    if trim(kind) == bats {
        assert(strips_to(kind, i0, j0) && kind.subrange(i0, j0) == bats);
    }
    law_trim_strips_only_white_space(t.subrange(m.body_start + 4, m.body_end));
    law_trim_strips_only_white_space(t.subrange(m.kind_end + 7, m.data_end));
}

} // verus!
