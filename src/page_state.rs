//! The allocation-state array: one tag per small page, and what it says about
//! which pages and blocks are free.
use vstd::prelude::*;

verus! {

/// What was handed out at a small-page index. Only the base index of a big
/// or huge block carries its tag; the pages it covers stay `Free`.
#[derive(Clone, Copy, PartialEq, Eq, Structural, Debug)]
pub enum PageType {
    Free,
    Frame,
    Big,
    Huge,
}

/// The big block `b` (small pages `512 * b .. 512 * b + 512`) is handed out.
pub open spec fn big_taken(p: Seq<PageType>, b: int) -> bool {
    p[512 * b] == PageType::Big
}

/// The huge block `h` (small pages `262144 * h .. 262144 * (h + 1)`) is handed out.
pub open spec fn huge_taken(p: Seq<PageType>, h: int) -> bool {
    p[262144 * h] == PageType::Huge
}

/// Small page `i` is free: untagged, and covered by no live big or huge block.
pub open spec fn is_free(p: Seq<PageType>, i: int) -> bool {
    &&& p[i] == PageType::Free
    &&& !big_taken(p, i / 512)
    &&& !huge_taken(p, i / 262144)
}

/// Every small page of big block `b` is free.
pub open spec fn big_block_free(p: Seq<PageType>, b: int) -> bool {
    forall|i: int| 512 * b <= i < 512 * b + 512 ==> #[trigger] is_free(p, i)
}

/// Every small page of huge block `h` is free.
pub open spec fn huge_block_free(p: Seq<PageType>, h: int) -> bool {
    forall|i: int| 262144 * h <= i < 262144 * h + 262144 ==> #[trigger] is_free(p, i)
}

/// `i` is the lowest free small page.
pub open spec fn lowest_free_page(p: Seq<PageType>, i: int) -> bool {
    &&& 0 <= i < p.len()
    &&& is_free(p, i)
    &&& forall|j: int| 0 <= j < i ==> !#[trigger] is_free(p, j)
}

/// No small page is free.
pub open spec fn no_free_page(p: Seq<PageType>) -> bool {
    forall|j: int| 0 <= j < p.len() ==> !#[trigger] is_free(p, j)
}

/// `b` is the lowest big block whose pages are all free.
pub open spec fn lowest_free_big(p: Seq<PageType>, b: int) -> bool {
    &&& 0 <= b && 512 * b + 512 <= p.len()
    &&& big_block_free(p, b)
    &&& forall|c: int| 0 <= c < b ==> !#[trigger] big_block_free(p, c)
}

/// No big block has all its pages free.
pub open spec fn no_free_big(p: Seq<PageType>) -> bool {
    forall|c: int| 0 <= c && 512 * c + 512 <= p.len() ==> !#[trigger] big_block_free(p, c)
}

/// `h` is the lowest huge block whose pages are all free.
pub open spec fn lowest_free_huge(p: Seq<PageType>, h: int) -> bool {
    &&& 0 <= h && 262144 * h + 262144 <= p.len()
    &&& huge_block_free(p, h)
    &&& forall|c: int| 0 <= c < h ==> !#[trigger] huge_block_free(p, c)
}

/// No huge block has all its pages free.
pub open spec fn no_free_huge(p: Seq<PageType>) -> bool {
    forall|c: int| 0 <= c && 262144 * c + 262144 <= p.len() ==> !#[trigger] huge_block_free(p, c)
}

/// The tag at `i` is aligned to its granularity and lies inside no live
/// block of a coarser granularity.
pub open spec fn tag_ok(p: Seq<PageType>, i: int) -> bool {
    &&& p[i] == PageType::Big ==> i % 512 == 0
    &&& p[i] == PageType::Huge ==> i % 262144 == 0
    &&& (p[i] != PageType::Free && i % 512 != 0) ==> !big_taken(p, i / 512)
    &&& (p[i] != PageType::Free && i % 262144 != 0) ==> !huge_taken(p, i / 262144)
}

/// The layout of tags that every reachable state keeps.
pub open spec fn tags_ok(p: Seq<PageType>) -> bool {
    forall|i: int| 0 <= i < p.len() ==> #[trigger] tag_ok(p, i)
}

/// The state after a release of `i` at the granularity of `tag`: the tag is
/// cleared when `i` holds it, and nothing changes otherwise.
pub open spec fn release(p: Seq<PageType>, i: int, tag: PageType) -> Seq<PageType> {
    if 0 <= i < p.len() && p[i] == tag {
        p.update(i, PageType::Free)
    } else {
        p
    }
}

/// Where small page `i` lies: its big block, its huge block, and the big
/// block's place inside the huge one.
pub proof fn lemma_index_split(i: int)
    requires
        0 <= i,
    ensures
        512 * (i / 512) <= i < 512 * (i / 512) + 512,
        262144 * (i / 262144) <= i < 262144 * (i / 262144) + 262144,
        (i / 512) / 512 == i / 262144,
        512 * (i / 262144) <= i / 512 < 512 * (i / 262144) + 512,
        i % 512 == i - 512 * (i / 512),
        i % 262144 == i - 262144 * (i / 262144),
        0 <= i / 512,
        0 <= i / 262144,
{
    vstd::arithmetic::div_mod::lemma_fundamental_div_mod(i, 512);
    vstd::arithmetic::div_mod::lemma_fundamental_div_mod(i, 262144);
    vstd::arithmetic::div_mod::lemma_fundamental_div_mod(i / 512, 512);
    vstd::arithmetic::div_mod::lemma_div_denominator(i, 512, 512);
    vstd::arithmetic::div_mod::lemma_div_pos_is_pos(i, 512);
    vstd::arithmetic::div_mod::lemma_div_pos_is_pos(i, 262144);
    vstd::arithmetic::div_mod::lemma_mod_bound(i, 512);
    vstd::arithmetic::div_mod::lemma_mod_bound(i, 262144);
    vstd::arithmetic::div_mod::lemma_mod_bound(i / 512, 512);
}

/// An index inside the big block `b` belongs to `b`.
pub proof fn lemma_in_big(i: int, b: int)
    requires
        512 * b <= i < 512 * b + 512,
    ensures
        i / 512 == b,
        i % 512 == i - 512 * b,
{
    vstd::arithmetic::div_mod::lemma_fundamental_div_mod_converse(i, 512, b, i - 512 * b);
}

/// An index inside the huge block `h` belongs to `h`.
pub proof fn lemma_in_huge(i: int, h: int)
    requires
        262144 * h <= i < 262144 * h + 262144,
    ensures
        i / 262144 == h,
        i % 262144 == i - 262144 * h,
{
    vstd::arithmetic::div_mod::lemma_fundamental_div_mod_converse(i, 262144, h, i - 262144 * h);
}

/// Releasing twice at the same index and granularity does what releasing
/// once does.
pub proof fn lemma_release_idempotent(p: Seq<PageType>, i: int, tag: PageType)
    requires
        tag != PageType::Free,
    ensures
        release(release(p, i, tag), i, tag) == release(p, i, tag),
{
}

/// Releasing at a granularity other than the one that `i` was handed out at
/// changes nothing.
pub proof fn lemma_release_wrong_kind(p: Seq<PageType>, i: int, tag: PageType)
    requires
        0 <= i < p.len(),
        p[i] != tag,
    ensures
        release(p, i, tag) == p,
{
}

/// Tagging a free index and then releasing it at the same granularity gives
/// back the state from before the allocation.
pub proof fn lemma_release_undoes_tag(p: Seq<PageType>, i: int, tag: PageType)
    requires
        0 <= i < p.len(),
        p[i] == PageType::Free,
        tag != PageType::Free,
    ensures
        release(p.update(i, tag), i, tag) == p,
{
    assert(release(p.update(i, tag), i, tag) =~= p);
}

} // verus!
