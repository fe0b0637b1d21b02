//! Properties that relate several operations, stated over the tag array that
//! the operations' contracts speak of.
use vstd::prelude::*;
use crate::page_state::{
    big_block_free, huge_block_free, is_free, lemma_in_big, lemma_in_huge, lemma_index_split,
    lemma_release_undoes_tag, release, tag_ok, tags_ok, PageType,
};
use crate::stats::free_stat;

verus! {

/// Handing out a free index at some granularity and releasing it at the
/// same granularity gives back the tag array, and so the free counts, from
/// before the allocation.
pub proof fn lemma_allocate_release_round_trip(p: Seq<PageType>, i: int, tag: PageType)
    requires
        0 <= i < p.len(),
        p[i] == PageType::Free,
        tag != PageType::Free,
    ensures
        release(p.update(i, tag), i, tag) == p,
        free_stat(release(p.update(i, tag), i, tag)) == free_stat(p),
{
    lemma_release_undoes_tag(p, i, tag);
}

/// Releasing a live frame, big block or huge block makes an allocation at
/// the same granularity possible again: the released page or block is free.
pub proof fn lemma_release_reenables(p: Seq<PageType>, i: int, tag: PageType)
    requires
        tags_ok(p),
        0 <= i < p.len(),
        p.len() % 262144 == 0,
        p[i] == tag,
        tag != PageType::Free,
    ensures
        tag == PageType::Frame ==> is_free(release(p, i, tag), i),
        tag == PageType::Big ==> i % 512 == 0 && big_block_free(release(p, i, tag), i / 512),
        tag == PageType::Huge ==> i % 262144 == 0 && huge_block_free(release(p, i, tag), i / 262144),
{
    let q = release(p, i, tag);
    let b = i / 512;
    let h = i / 262144;
    lemma_index_split(i);
    assert(tag_ok(p, i));
    // The huge block around `i` lies inside `p`.
    vstd::arithmetic::div_mod::lemma_fundamental_div_mod(p.len() as int, 262144);
    assert(262144 * h + 262144 <= p.len());
    if tag == PageType::Frame {
        assert(q[i] == PageType::Free);
    } else if tag == PageType::Big {
        lemma_in_big(i, b);
        assert forall|j: int| 512 * b <= j < 512 * b + 512 implies #[trigger] is_free(q, j) by {
            lemma_in_big(j, b);
            lemma_index_split(j);
            assert(tag_ok(p, j));
        }
    } else {
        lemma_in_huge(i, h);
        assert forall|j: int| 262144 * h <= j < 262144 * h + 262144 implies #[trigger] is_free(q, j) by {
            lemma_in_huge(j, h);
            lemma_index_split(j);
            assert(tag_ok(p, j));
            if 512 * (j / 512) != i {
                assert(tag_ok(p, 512 * (j / 512)));
            }
        }
    }
}

} // verus!
