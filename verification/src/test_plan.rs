//! The decisions of the documentation test runner: which command blocks run,
//! which enrollments precede a block, and whether the run failed.
use vstd::prelude::*;
use crate::doc_blocks::{CommandScope, RunType, ScopeView};
use crate::text::{chars_of, string_of};

verus! {

/// The blocks that run as `bats` tests, in their order.
pub open spec fn bats_blocks(s: Seq<ScopeView>) -> Seq<ScopeView>
    decreases s.len(),
{
    if s.len() == 0 {
        seq![]
    } else if s.last().run_type == RunType::Bats {
        bats_blocks(s.drop_last()).push(s.last())
    } else {
        bats_blocks(s.drop_last())
    }
}

/// Keeps the blocks that run as `bats` tests; the others are not run.
pub fn select_bats(commands: Vec<CommandScope>) -> (r: Vec<CommandScope>)
    ensures
        r@.map_values(|c: CommandScope| c@) == bats_blocks(commands@.map_values(|c: CommandScope| c@)),
{
    let ghost all = commands@.map_values(|c: CommandScope| c@);
    let mut rest = commands;
    let mut kept_rev: Vec<CommandScope> = Vec::new();
    assert(all.subrange(0, rest@.len() as int) =~= all);
    assert(kept_rev@.map_values(|c: CommandScope| c@).reverse() =~= Seq::<ScopeView>::empty());
    assert(bats_blocks(all) =~= bats_blocks(all.subrange(0, rest@.len() as int)) + kept_rev@.map_values(
        |c: CommandScope| c@,
    ).reverse());
    // Walk the blocks from the last one, keeping the bats blocks in reverse.
    while rest.len() > 0
        invariant
            rest@.len() <= all.len(),
            rest@.map_values(|c: CommandScope| c@) == all.subrange(0, rest@.len() as int),
            bats_blocks(all) == bats_blocks(all.subrange(0, rest@.len() as int)) + kept_rev@.map_values(
                |c: CommandScope| c@,
            ).reverse(),
        decreases rest.len(),
    {
        let ghost n = rest@.len();
        let c = rest.pop().unwrap();
        let ghost prefix = all.subrange(0, n as int);
        assert(prefix.drop_last() =~= all.subrange(0, n - 1));
        assert(prefix.last() == c@);
        assert(rest@.map_values(|c: CommandScope| c@) =~= all.subrange(0, n - 1));
        let ghost kept_before = kept_rev@.map_values(|c: CommandScope| c@);
        match c.run_type {
            RunType::Bats => {
                kept_rev.push(c);
                assert(kept_rev@.map_values(|c: CommandScope| c@) =~= kept_before.push(prefix.last()));
                assert(kept_before.push(prefix.last()).reverse() =~= seq![prefix.last()]
                    + kept_before.reverse());
            },
            RunType::Unknown => {},
        }
    }
    assert(all.subrange(0, 0) =~= Seq::<ScopeView>::empty());
    let mut r: Vec<CommandScope> = Vec::new();
    let ghost kept = kept_rev@.map_values(|c: CommandScope| c@);
    while kept_rev.len() > 0
        invariant
            kept_rev@.len() <= kept.len(),
            kept_rev@.map_values(|c: CommandScope| c@) == kept.subrange(0, kept_rev@.len() as int),
            r@.map_values(|c: CommandScope| c@) == kept.subrange(
                kept_rev@.len() as int,
                kept.len() as int,
            ).reverse(),
        decreases kept_rev.len(),
    {
        let ghost n = kept_rev@.len();
        let ghost before_pop = kept_rev@;
        let c = kept_rev.pop().unwrap();
        assert(c == before_pop[n - 1]);
        assert(kept.subrange(0, n as int)[n - 1] == before_pop.map_values(|c: CommandScope| c@)[n
            - 1]);
        assert(kept[n - 1] == c@);
        let ghost r_before = r@.map_values(|c: CommandScope| c@);
        r.push(c);
        assert(kept_rev@.map_values(|c: CommandScope| c@) =~= kept.subrange(0, n - 1));
        assert(r@.map_values(|c: CommandScope| c@) =~= r_before.push(c@));
        assert(kept.subrange(n - 1, kept.len() as int) =~= seq![c@] + kept.subrange(
            n as int,
            kept.len() as int,
        ));
        assert(kept.subrange(n - 1, kept.len() as int).reverse() =~= kept.subrange(
            n as int,
            kept.len() as int,
        ).reverse().push(c@));
    }
    assert(kept.subrange(0, kept.len() as int) =~= kept);
    r
}

/// The blocks that run as tests are exactly the `bats` blocks, in their
/// order: a block of another type is left out whatever its commands,
/// enrollment data or document, and no `bats` block is left out.
pub proof fn law_bats_selection_is_a_filter(s: Seq<ScopeView>)
    ensures
        bats_blocks(s) == s.filter(|c: ScopeView| c.run_type == RunType::Bats),
        forall|i: int| 0 <= i < bats_blocks(s).len() ==> (#[trigger] bats_blocks(s)[i]).run_type
            == RunType::Bats && s.contains(bats_blocks(s)[i]),
        forall|i: int| 0 <= i < s.len() && (#[trigger] s[i]).run_type == RunType::Bats
            ==> bats_blocks(s).contains(s[i]),
    decreases s.len(),
{
    reveal(Seq::filter);
    let pred = |c: ScopeView| c.run_type == RunType::Bats;
    if s.len() > 0 {
        law_bats_selection_is_a_filter(s.drop_last());
        let r0 = bats_blocks(s.drop_last());
        let r = bats_blocks(s);
        assert forall|i: int| 0 <= i < r.len() implies (#[trigger] r[i]).run_type
            == RunType::Bats && s.contains(r[i]) by {
            if i < r0.len() {
                assert(r[i] == r0[i]);
                let k = choose|k: int| 0 <= k < s.drop_last().len() && s.drop_last()[k] == r0[i];
                assert(s[k] == r0[i]);
            } else {
                assert(r[i] == s.last());
                assert(s[s.len() - 1] == s.last());
            }
        }
        assert forall|i: int| 0 <= i < s.len() && (#[trigger] s[i]).run_type == RunType::Bats
            implies r.contains(s[i]) by {
            if i < s.len() - 1 {
                assert(s.drop_last()[i] == s[i]);
                let k = choose|k: int| 0 <= k < r0.len() && r0[k] == s[i];
                assert(r[k] == r0[k]);
            } else {
                assert(r[r.len() - 1] == s[i]);
            }
        }
    }
}

/// An ASCII white-space character (`u8::is_ascii_whitespace`).
pub open spec fn is_ascii_white_space(c: char) -> bool {
    c == ' ' || c == '\t' || c == '\n' || c == '\x0C' || c == '\r'
}

/// The length of the word that `s` starts with.
pub open spec fn word_len(s: Seq<char>) -> nat
    decreases s.len(),
{
    if s.len() == 0 || is_ascii_white_space(s[0]) {
        0
    } else {
        1 + word_len(s.drop_first())
    }
}

/// The words of `s`: its maximal runs of characters other than ASCII white
/// space (what `str::split_ascii_whitespace` yields).
pub open spec fn ascii_words(s: Seq<char>) -> Seq<Seq<char>>
    decreases s.len(),
{
    if s.len() == 0 {
        seq![]
    } else if is_ascii_white_space(s[0]) {
        ascii_words(s.drop_first())
    } else {
        proof {
            lemma_word_len_bound(s);
        }
        seq![s.subrange(0, word_len(s) as int)] + ascii_words(s.skip(word_len(s) as int))
    }
}

pub proof fn lemma_word_len_bound(s: Seq<char>)
    ensures
        word_len(s) <= s.len(),
        s.len() > 0 && !is_ascii_white_space(s[0]) ==> word_len(s) > 0,
        forall|k: int| 0 <= k < word_len(s) ==> !is_ascii_white_space(#[trigger] s[k]),
        word_len(s) < s.len() ==> is_ascii_white_space(s[word_len(s) as int]),
    decreases s.len(),
{
    if s.len() > 0 && !is_ascii_white_space(s[0]) {
        lemma_word_len_bound(s.drop_first());
        assert forall|k: int| 0 <= k < word_len(s) implies !is_ascii_white_space(#[trigger] s[k]) by {
            if k > 0 {
                assert(s[k] == s.drop_first()[k - 1]);
            }
        }
    }
}

/// A word of `s` runs from `i` to `j`: the length of the word starting at `i` is `j - i`.
proof fn lemma_word_len_at(s: Seq<char>, i: int, j: int)
    requires
        0 <= i <= j <= s.len(),
        forall|k: int| i <= k < j ==> !is_ascii_white_space(#[trigger] s[k]),
        j == s.len() || is_ascii_white_space(s[j]),
    ensures
        word_len(s.skip(i)) == j - i,
    decreases j - i,
{
    if i < j {
        assert(s.skip(i).drop_first() =~= s.skip(i + 1));
        lemma_word_len_at(s, i + 1, j);
    } else {
        if j < s.len() {
            assert(s.skip(i)[0] == s[j]);
        }
    }
}

fn is_ascii_white_space_char(c: char) -> (r: bool)
    ensures
        r == is_ascii_white_space(c),
{
    c == ' ' || c == '\t' || c == '\n' || c == '\x0C' || c == '\r'
}

/// The words of `s`.
pub fn words(s: &str) -> (r: Vec<String>)
    ensures
        r@.map_values(|w: String| w@) == ascii_words(s@),
{
    let t = chars_of(s);
    let n = t.len();
    let mut r: Vec<String> = Vec::new();
    let mut i: usize = 0;
    assert(t@.skip(0) =~= t@);
    while i < n
        invariant
            n == t@.len(),
            i <= n,
            t@ == s@,
            r@.map_values(|w: String| w@) + ascii_words(t@.skip(i as int)) == ascii_words(s@),
        decreases n - i,
    {
        let ghost before = r@.map_values(|w: String| w@);
        if is_ascii_white_space_char(t[i]) {
            assert(t@.skip(i as int).drop_first() =~= t@.skip(i + 1));
            i = i + 1;
        } else {
            let mut j = i + 1;
            while j < n && !is_ascii_white_space_char(t[j])
                invariant
                    n == t@.len(),
                    i < j <= n,
                    forall|k: int| i <= k < j ==> !is_ascii_white_space(#[trigger] t@[k]),
                decreases n - j,
            {
                j = j + 1;
            }
            proof {
                lemma_word_len_at(t@, i as int, j as int);
                assert(t@.skip(i as int).subrange(0, j - i) =~= t@.subrange(i as int, j as int));
                assert(t@.skip(i as int).skip(j - i) =~= t@.skip(j as int));
            }
            let w = string_of(&t, i, j);
            r.push(w);
            assert(r@.map_values(|w: String| w@) =~= before.push(t@.subrange(i as int, j as int)));
            i = j;
        }
    }
    assert(t@.skip(n as int) =~= Seq::<char>::empty());
    assert(r@.map_values(|w: String| w@) =~= ascii_words(s@));
    r
}

/// The addresses that the enrollments of a block use, in the order of the
/// block's `OCKAM_HOME` directories.
pub open spec fn enrollment_email(index: int) -> Seq<char> {
    if index == 0 {
        "docs-test-client@ockam.io"@
    } else {
        "docs-test-server@ockam.io"@
    }
}

/// An enrollment that precedes a block: the variable that names the
/// temporary `OCKAM_HOME` directory, and the address to enroll with.
pub struct Enrollment {
    pub directory: String,
    pub email: String,
}

/// A block asks for more enrollments than there are addresses.
#[derive(Debug)]
pub struct TooManyEnrollments {
    /// The document of the block.
    pub url: String,
}

impl TooManyEnrollments {
    /// `Invalid number of ockam enroll that can be supported for URL <url>`
    pub fn message(&self) -> (r: String)
        ensures
            r@ == "Invalid number of ockam enroll that can be supported for URL "@ + self.url@,
    {
        let mut r = String::from_str("Invalid number of ockam enroll that can be supported for URL ");
        r.append(self.url.as_str());
        r
    }
}

/// The enrollments that precede a block: one per word of its enrollment
/// data, with the client address first and the server address second; more
/// than two words are refused.
pub fn enrollment_plan(command: &CommandScope) -> (r: Result<Vec<Enrollment>, TooManyEnrollments>)
    ensures
        r is Err <==> ascii_words(command.ockam_enroll_data@).len() > 2,
        r matches Err(e) ==> e.url@ == command.url@,
        r matches Ok(v) ==> v@.len() == ascii_words(command.ockam_enroll_data@).len() && forall|
            i: int,
        |
            0 <= i < v@.len() ==> (#[trigger] v@[i]).directory@ == ascii_words(
                command.ockam_enroll_data@,
            )[i] && v@[i].email@ == enrollment_email(i),
{
    let dirs = words(command.ockam_enroll_data.as_str());
    let ghost ws = ascii_words(command.ockam_enroll_data@);
    assert(dirs@.len() == ws.len());
    if dirs.len() > 2 {
        return Err(TooManyEnrollments { url: command.url.clone() });
    }
    let mut plan: Vec<Enrollment> = Vec::new();
    let mut i: usize = 0;
    while i < dirs.len()
        invariant
            dirs@.len() <= 2,
            dirs@.map_values(|w: String| w@) == ws,
            i <= dirs@.len(),
            plan@.len() == i,
            forall|k: int|
                0 <= k < i ==> (#[trigger] plan@[k]).directory@ == ws[k] && plan@[k].email@
                    == enrollment_email(k),
        decreases dirs.len() - i,
    {
        let email = if i == 0 {
            String::from_str("docs-test-client@ockam.io")
        } else {
            String::from_str("docs-test-server@ockam.io")
        };
        assert(dirs@[i as int]@ == ws[i as int]);
        plan.push(Enrollment { directory: dirs[i].clone(), email });
        i = i + 1;
    }
    Ok(plan)
}

/// What to do next for a block: run its enrollment of the given index, run
/// its `bats` test, or count the block as failed.
#[derive(Debug, Clone, Copy, PartialEq, Eq, Structural)]
pub enum BlockStep {
    Enroll(usize),
    RunTests,
    Fail,
}

/// The first step for a block with `planned` enrollments: its first
/// enrollment, or its test when it asks for none.
pub fn first_block_step(planned: usize) -> (r: BlockStep)
    ensures
        r == (if planned > 0 {
            BlockStep::Enroll(0)
        } else {
            BlockStep::RunTests
        }),
{
    if planned > 0 {
        BlockStep::Enroll(0)
    } else {
        BlockStep::RunTests
    }
}

/// The step after the enrollment `index` of `planned` ended: a failed
/// enrollment fails the block, without running the rest; a successful one
/// is followed by the next enrollment, or by the test after the last one.
pub fn step_after_enrollment(planned: usize, index: usize, succeeded: bool) -> (r: BlockStep)
    requires
        index < planned,
    ensures
        r == (if !succeeded {
            BlockStep::Fail
        } else if index + 1 < planned {
            BlockStep::Enroll((index + 1) as usize)
        } else {
            BlockStep::RunTests
        }),
{
    if !succeeded {
        BlockStep::Fail
    } else if index + 1 < planned {
        BlockStep::Enroll(index + 1)
    } else {
        BlockStep::RunTests
    }
}

/// How a test run ended.
#[derive(Debug, Clone, Copy, PartialEq, Eq, Structural)]
pub enum RunStatus {
    Success,
    Failure,
}

impl Default for RunStatus {
    fn default() -> (r: RunStatus)
        ensures
            r == RunStatus::Failure,
    {
        RunStatus::Failure
    }
}

/// Whether any run failed.
pub fn any_failed(statuses: &Vec<RunStatus>) -> (r: bool)
    ensures
        r <==> exists|i: int| 0 <= i < statuses@.len() && statuses@[i] == RunStatus::Failure,
{
    let mut i: usize = 0;
    while i < statuses.len()
        invariant
            forall|k: int| 0 <= k < i ==> statuses@[k] != RunStatus::Failure,
        decreases statuses.len() - i,
    {
        if statuses[i] == RunStatus::Failure {
            return true;
        }
        i = i + 1;
    }
    false
}

} // verus!
