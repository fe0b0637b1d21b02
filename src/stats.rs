//! Counting what can still be handed out: a sweep of the tag array that
//! turns runs of free pages into huge blocks, big blocks and pages.
use vstd::prelude::*;
use crate::page_state::PageType;

verus! {

/// A run of `n` free pages read as whole huge blocks, then whole big blocks
/// of the rest, then single pages.
pub open spec fn split_run(n: int) -> (int, int, int) {
    (n / 262144, (n % 262144) / 512, n % 512)
}

/// `acc` with a run of `run` free pages added to it.
pub open spec fn credit(acc: (int, int, int), run: int) -> (int, int, int) {
    (acc.0 + split_run(run).0, acc.1 + split_run(run).1, acc.2 + split_run(run).2)
}

/// Index `k`, or the end of `p` when `k` lies past it.
pub open spec fn skip_to(p: Seq<PageType>, k: int) -> int {
    if k < p.len() {
        k
    } else {
        p.len() as int
    }
}

/// The sweep from index `i` on, with a current run of `run` free pages and
/// the counts `acc` so far.
///
/// A frame ends the current run; a big or huge tag ends it too and skips
/// the block. A free page extends the run when the run started on a big-block
/// boundary, and is counted on its own otherwise.
pub open spec fn stat_from(p: Seq<PageType>, i: int, run: int, acc: (int, int, int)) -> (int, int, int)
    decreases p.len() - i,
{
    if i < 0 || i >= p.len() {
        credit(acc, run)
    } else {
        match p[i] {
            PageType::Frame => stat_from(p, i + 1, 0, credit(acc, run)),
            PageType::Big => stat_from(p, skip_to(p, i + 512), 0, credit(acc, run)),
            PageType::Huge => stat_from(p, skip_to(p, i + 262144), 0, credit(acc, run)),
            PageType::Free => if i % 512 != run % 512 {
                stat_from(p, i + 1, run, (acc.0, acc.1, acc.2 + 1))
            } else {
                stat_from(p, i + 1, run + 1, acc)
            },
        }
    }
}

/// The counts of huge blocks, big blocks and pages that the sweep finds
/// free in `p`.
pub open spec fn free_stat(p: Seq<PageType>) -> (int, int, int) {
    stat_from(p, 0, 0, (0, 0, 0))
}

/// The three parts of a split run add back up to the run.
pub proof fn lemma_split_run(n: int)
    requires
        0 <= n,
    ensures
        262144 * split_run(n).0 + 512 * split_run(n).1 + split_run(n).2 == n,
        0 <= split_run(n).0,
        0 <= split_run(n).1 < 512,
        0 <= split_run(n).2 < 512,
{
    vstd::arithmetic::div_mod::lemma_fundamental_div_mod(n, 262144);
    vstd::arithmetic::div_mod::lemma_fundamental_div_mod(n % 262144, 512);
    vstd::arithmetic::div_mod::lemma_mod_mod(n, 512, 512);
    vstd::arithmetic::div_mod::lemma_mod_bound(n, 262144);
    vstd::arithmetic::div_mod::lemma_mod_bound(n, 512);
    vstd::arithmetic::div_mod::lemma_div_pos_is_pos(n, 262144);
    vstd::arithmetic::div_mod::lemma_div_pos_is_pos(n % 262144, 512);
    assert((n % 262144) / 512 < 512) by {
        vstd::arithmetic::div_mod::lemma_fundamental_div_mod(n % 262144, 512);
        vstd::arithmetic::div_mod::lemma_mod_bound(n % 262144, 512);
    }
}

/// Splits a count of free pages into whole huge blocks, whole big blocks of
/// the rest, and single pages.
pub fn stat_free_memory(num_free_4kb_blocks: u64) -> (r: (u64, u64, u64))
    ensures
        (r.0 as int, r.1 as int, r.2 as int) == split_run(num_free_4kb_blocks as int),
{
    let mut available_4kb_blocks = num_free_4kb_blocks;
    let nb_gb: u64 = available_4kb_blocks / (512 * 512);
    proof {
        vstd::arithmetic::div_mod::lemma_fundamental_div_mod(num_free_4kb_blocks as int, 262144);
        vstd::arithmetic::div_mod::lemma_mod_bound(num_free_4kb_blocks as int, 262144);
    }
    available_4kb_blocks -= nb_gb * 512 * 512;
    assert(available_4kb_blocks == num_free_4kb_blocks % 262144);
    let nb_2mb: u64 = available_4kb_blocks / 512;
    proof {
        vstd::arithmetic::div_mod::lemma_fundamental_div_mod(available_4kb_blocks as int, 512);
        vstd::arithmetic::div_mod::lemma_mod_bound(available_4kb_blocks as int, 512);
        vstd::arithmetic::div_mod::lemma_mod_mod(num_free_4kb_blocks as int, 512, 512);
    }
    available_4kb_blocks -= nb_2mb * 512;
    let nb_4kb = available_4kb_blocks;
    (nb_gb, nb_2mb, nb_4kb)
}

/// With every page untagged, the sweep reads the pages from `i` on as one
/// run that started at index 0.
proof fn lemma_stat_untagged_from(p: Seq<PageType>, i: int)
    requires
        forall|j: int| 0 <= j < p.len() ==> p[j] == PageType::Free,
        0 <= i <= p.len(),
    ensures
        stat_from(p, i, i, (0, 0, 0)) == credit((0, 0, 0), p.len() as int),
    decreases p.len() - i,
{
    if i < p.len() {
        lemma_stat_untagged_from(p, i + 1);
    }
}

/// With every page untagged, `g` huge blocks count as `g` free huge blocks
/// and nothing else.
pub proof fn lemma_stat_untagged(p: Seq<PageType>, g: int)
    requires
        0 <= g,
        p.len() == 262144 * g,
        forall|j: int| 0 <= j < p.len() ==> p[j] == PageType::Free,
    ensures
        free_stat(p) == (g, 0int, 0int),
{
    lemma_stat_untagged_from(p, 0);
    vstd::arithmetic::div_mod::lemma_fundamental_div_mod_converse(262144 * g, 262144, g, 0);
    vstd::arithmetic::div_mod::lemma_fundamental_div_mod_converse(262144 * g, 512, 512 * g, 0);
}

} // verus!
