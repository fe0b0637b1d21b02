//! The allocator: three bit-trees kept consistent with the tag array.
use vstd::prelude::*;
use crate::bit_tree::{
    all_ones, bits_cleared, bits_set, clear_bit, get_bit, lemma_word_of, lemma_word_pos, node_empty,
    node_full, scan_node, set_bit, tbit,
};
use crate::bits::{bit_of, lemma_bit_of_all_ones, lemma_bit_of_low_mask, lemma_bit_of_zero};
use crate::stats::{free_stat, lemma_split_run, lemma_stat_untagged, stat_free_memory, stat_from};
use crate::page_state::{
    big_block_free, big_taken, huge_block_free, huge_taken, is_free, lemma_in_big, lemma_in_huge,
    lemma_index_split, lowest_free_big, lowest_free_huge, lowest_free_page, no_free_big,
    no_free_huge, no_free_page, release, tag_ok, tags_ok, PageType,
};

verus! {

/// Which of the three bit-trees: the one for small pages, for big pages, or
/// for huge pages.
#[derive(Clone, Copy, PartialEq, Eq, Structural, Debug)]
pub enum TreeType {
    Tree4kb,
    Tree2mb,
    Tree1gb,
}

/// A level of a bit-tree: level 1 has one bit per huge block, level 2 one
/// bit per big block, level 3 one bit per small page.
#[derive(Clone, Copy, PartialEq, Eq, Structural, Debug)]
pub enum Level {
    Level1,
    Level2,
    Level3,
}

/// Whether `tree` has the level `level`: the small-page tree has three
/// levels, the big-page tree two, the huge-page tree one.
pub open spec fn level_exists(tree: TreeType, level: Level) -> bool {
    match tree {
        TreeType::Tree4kb => true,
        TreeType::Tree2mb => level != Level::Level3,
        TreeType::Tree1gb => level == Level::Level1,
    }
}

/// Level-1 bit `h` of a tree: bit `h` of its first node.
pub open spec fn top_bit(t: Seq<u64>, h: int) -> bool {
    tbit(t, h)
}

/// Level-2 bit of big block `b`: the level-2 nodes follow the level-1 node.
pub open spec fn mid_bit(t: Seq<u64>, b: int) -> bool {
    tbit(t, 512 + b)
}

/// Level-3 bit of small page `i` in a tree over `g` huge blocks.
pub open spec fn leaf_bit(t: Seq<u64>, g: int, i: int) -> bool {
    tbit(t, 512 + 512 * g + i)
}

/// Some small page of big block `b` can still be handed out as a frame:
/// what level 2 of the small-page tree records.
pub open spec fn frame_slot_in_big(p: Seq<PageType>, b: int) -> bool {
    &&& !big_taken(p, b)
    &&& exists|i: int| 512 * b <= i < 512 * b + 512 && p[i] != PageType::Frame
}

/// Some small page of huge block `h` can still be handed out as a frame:
/// what level 1 of the small-page tree records.
pub open spec fn frame_slot_in_huge(p: Seq<PageType>, h: int) -> bool {
    &&& !huge_taken(p, h)
    &&& exists|b: int| 512 * h <= b < 512 * h + 512 && #[trigger] frame_slot_in_big(p, b)
}

/// Big block `b` holds no frame and is not handed out itself: what level 2
/// of the big-page tree records.
pub open spec fn big_slot(p: Seq<PageType>, b: int) -> bool {
    &&& !big_taken(p, b)
    &&& forall|i: int| 512 * b <= i < 512 * b + 512 ==> p[i] != PageType::Frame
}

/// Some big block of huge block `h` can still be handed out: what level 1 of
/// the big-page tree records.
pub open spec fn big_slot_in_huge(p: Seq<PageType>, h: int) -> bool {
    &&& !huge_taken(p, h)
    &&& exists|b: int| 512 * h <= b < 512 * h + 512 && #[trigger] big_slot(p, b)
}

/// Huge block `h` is entirely unused: what level 1 of the huge-page tree
/// records.
pub open spec fn huge_slot(p: Seq<PageType>, h: int) -> bool {
    &&& !huge_taken(p, h)
    &&& forall|b: int| 512 * h <= b < 512 * h + 512 ==> #[trigger] big_slot(p, b)
}

/// A free small page makes its big block and its huge block available for
/// frames.
proof fn lemma_free_page_slots(p: Seq<PageType>, j: int)
    requires
        0 <= j < p.len(),
        is_free(p, j),
    ensures
        frame_slot_in_big(p, j / 512),
        frame_slot_in_huge(p, j / 262144),
{
    lemma_index_split(j);
    assert(frame_slot_in_big(p, j / 512));
}

/// Changing the tag at `x` leaves what the trees record for every other
/// big block and huge block as it was.
proof fn lemma_update_frame(p: Seq<PageType>, x: int, t: PageType)
    requires
        0 <= x < p.len(),
    ensures
        forall|b: int|
            0 <= b && 512 * b + 512 <= p.len() && b != x / 512 ==> (#[trigger] frame_slot_in_big(
                p.update(x, t),
                b,
            ) == frame_slot_in_big(p, b) && big_slot(p.update(x, t), b) == big_slot(p, b)),
        forall|h: int|
            0 <= h && 262144 * h + 262144 <= p.len() && h != x / 262144 ==> (
            #[trigger] frame_slot_in_huge(p.update(x, t), h) == frame_slot_in_huge(p, h)
                && big_slot_in_huge(p.update(x, t), h) == big_slot_in_huge(p, h) && huge_slot(
                p.update(x, t),
                h,
            ) == huge_slot(p, h)),
{
    let q = p.update(x, t);
    lemma_index_split(x);
    assert forall|b: int| 0 <= b && 512 * b + 512 <= p.len() && b != x / 512 implies (
    #[trigger] frame_slot_in_big(q, b) == frame_slot_in_big(p, b) && big_slot(q, b) == big_slot(
        p,
        b,
    )) by {
        assert forall|i: int| 512 * b <= i < 512 * b + 512 implies q[i] == p[i] by {
            if i == x {
                lemma_in_big(x, b);
            }
        }
        assert(q[512 * b] == p[512 * b]);
    }
    assert forall|h: int| 0 <= h && 262144 * h + 262144 <= p.len() && h != x / 262144 implies (
    #[trigger] frame_slot_in_huge(q, h) == frame_slot_in_huge(p, h) && big_slot_in_huge(q, h)
        == big_slot_in_huge(p, h) && huge_slot(q, h) == huge_slot(p, h)) by {
        assert forall|b: int|
            #![trigger frame_slot_in_big(q, b)]
            #![trigger frame_slot_in_big(p, b)]
            512 * h <= b < 512 * h + 512 implies frame_slot_in_big(q, b) == frame_slot_in_big(
                p,
                b,
            ) by {
            lemma_in_big(b, h);
        }
        assert forall|b: int|
            #![trigger big_slot(q, b)]
            #![trigger big_slot(p, b)]
            512 * h <= b < 512 * h + 512 implies big_slot(q, b) == big_slot(p, b) by {
            lemma_in_big(b, h);
            assert(frame_slot_in_big(q, b) == frame_slot_in_big(p, b));
        }
        if x == 262144 * h {
            lemma_in_huge(x, h);
        }
        assert(q[262144 * h] == p[262144 * h]);
        assert(frame_slot_in_huge(q, h) == frame_slot_in_huge(p, h));
        assert(big_slot_in_huge(q, h) == big_slot_in_huge(p, h));
        assert(huge_slot(q, h) == huge_slot(p, h));
    }
}

/// A big block is entirely free exactly when its huge block is not handed
/// out and the big-page tree's level-2 condition holds for it.
proof fn lemma_big_block_free_iff(p: Seq<PageType>, c: int)
    requires
        tags_ok(p),
        0 <= c,
        512 * c + 512 <= p.len(),
    ensures
        big_block_free(p, c) == (!huge_taken(p, c / 512) && big_slot(p, c)),
{
    lemma_in_big(512 * c, c);
    lemma_index_split(512 * c);
    if big_block_free(p, c) {
        assert(is_free(p, 512 * c));
        assert forall|i: int| 512 * c <= i < 512 * c + 512 implies p[i] != PageType::Frame by {
            assert(is_free(p, i));
        }
    }
    if !huge_taken(p, c / 512) && big_slot(p, c) {
        assert forall|i: int| 512 * c <= i < 512 * c + 512 implies #[trigger] is_free(p, i) by {
            lemma_in_big(i, c);
            lemma_index_split(i);
            assert(tag_ok(p, i));
        }
    }
}

/// A huge block is entirely free exactly when the huge-page tree's level-1
/// condition holds for it.
proof fn lemma_huge_block_free_iff(p: Seq<PageType>, h: int)
    requires
        tags_ok(p),
        0 <= h,
        262144 * h + 262144 <= p.len(),
    ensures
        huge_block_free(p, h) == huge_slot(p, h),
{
    lemma_in_huge(262144 * h, h);
    if huge_block_free(p, h) {
        assert(is_free(p, 262144 * h));
        assert forall|c: int| 512 * h <= c < 512 * h + 512 implies #[trigger] big_slot(p, c) by {
            lemma_in_big(c, h);
            assert forall|i: int| 512 * c <= i < 512 * c + 512 implies #[trigger] is_free(p, i) by {
                assert(262144 * h <= i < 262144 * h + 262144);
            }
            lemma_big_block_free_iff(p, c);
        }
    }
    if huge_slot(p, h) {
        assert forall|i: int| 262144 * h <= i < 262144 * h + 262144 implies #[trigger] is_free(p, i) by {
            lemma_index_split(i);
            lemma_in_huge(i, h);
            let c = i / 512;
            assert(big_slot(p, c));
            lemma_in_big(c, h);
            lemma_big_block_free_iff(p, c);
        }
    }
}

/// A page allocator over `nb_gb` huge blocks of 512 big blocks of 512 small
/// pages. Block indices are given in small-page units.
pub struct BuddyAllocator {
    nb_gb: usize,
    tree_4kb: Vec<u64>,
    tree_2mb: Vec<u64>,
    tree_1gb: Vec<u64>,
    allocator_state: Vec<PageType>,
}

impl View for BuddyAllocator {
    type V = Seq<PageType>;

    closed spec fn view(&self) -> Seq<PageType> {
        self.allocator_state@
    }
}

/// Word `w` of a level-1 node with the bits below `g` set.
fn top_word(g: usize, w: usize) -> (r: u64)
    requires
        1 <= g <= 512,
        w < 8,
    ensures
        forall|k: u64| k < 64 ==> #[trigger] bit_of(r, k) == (64 * w + k < g),
{
    if 64 * (w + 1) <= g {
        proof {
            assert forall|k: u64| k < 64 implies #[trigger] bit_of(
                0xFFFF_FFFF_FFFF_FFFFu64,
                k,
            ) == (64 * w + k < g) by {
                lemma_bit_of_all_ones(k);
            }
        }
        0xFFFF_FFFF_FFFF_FFFFu64
    } else if 64 * w < g {
        let n = (g - 64 * w) as u64;
        assert(1u64 << n >= 1u64) by (bit_vector)
            requires
                n < 64,
        ;
        proof {
            assert forall|k: u64| k < 64 implies #[trigger] bit_of(((1u64 << n) - 1) as u64, k)
                == (64 * w + k < g) by {
                lemma_bit_of_low_mask(n, k);
            }
        }
        (1u64 << n) - 1
    } else {
        proof {
            assert forall|k: u64| k < 64 implies #[trigger] bit_of(0u64, k) == (64 * w + k < g) by {
                lemma_bit_of_zero(k);
            }
        }
        0
    }
}

/// A tree of `len` words whose level-1 node has the bits below `g` set and
/// whose other words are all ones.
fn new_tree(g: usize, len: usize) -> (t: Vec<u64>)
    requires
        1 <= g <= 512,
        8 <= len,
    ensures
        t@.len() == len,
        forall|h: int| 0 <= h < 512 ==> #[trigger] tbit(t@, h) == (h < g),
        forall|j: int| 512 <= j < 64 * len ==> #[trigger] tbit(t@, j),
{
    let mut t = vec![0xFFFF_FFFF_FFFF_FFFFu64; len];
    let mut w: usize = 0;
    while w < 8
        invariant
            w <= 8,
            1 <= g <= 512,
            t@.len() == len,
            8 <= len,
            forall|h: int| 0 <= h < 64 * w ==> #[trigger] tbit(t@, h) == (h < g),
            forall|x: int| w <= x < len ==> t@[x] == 0xFFFF_FFFF_FFFF_FFFFu64,
        decreases 8 - w,
    {
        let v = top_word(g, w);
        let ghost t0 = t@;
        t.set(w, v);
        proof {
            assert forall|h: int| 0 <= h < 64 * (w + 1) implies #[trigger] tbit(t@, h) == (h < g) by {
                lemma_word_of(h);
                if h < 64 * w {
                    assert(tbit(t0, h) == (h < g));
                    assert(t@[h / 64] == t0[h / 64]);
                } else {
                    lemma_word_pos(w as int, h - 64 * w);
                    assert(bit_of(v, (h - 64 * w) as u64) == (h < g));
                }
            }
        }
        w += 1;
    }
    proof {
        assert forall|j: int| 512 <= j < 64 * len implies #[trigger] tbit(t@, j) by {
            lemma_word_pos(j / 64, j % 64);
            lemma_bit_of_all_ones((j % 64) as u64);
        }
    }
    t
}

impl BuddyAllocator {
    /// Number of huge blocks under management.
    pub closed spec fn gb(&self) -> int {
        self.nb_gb as int
    }

    /// Number of small pages under management.
    pub open spec fn nb_pages(&self) -> int {
        262144 * self.gb()
    }

    /// The bits of the three trees agree with the tag array.
    pub closed spec fn wf(&self) -> bool {
        let g = self.nb_gb as int;
        let p = self.allocator_state@;
        let s = self.tree_4kb@;
        let m = self.tree_2mb@;
        let u = self.tree_1gb@;
        &&& 1 <= g <= 512
        &&& p.len() == 262144 * g
        &&& s.len() == 8 + 8 * g + 4096 * g
        &&& m.len() == 8 + 8 * g
        &&& u.len() == 8
        &&& tags_ok(p)
        &&& forall|i: int| 0 <= i < 262144 * g ==> #[trigger] leaf_bit(s, g, i) == (p[i] != PageType::Frame)
        &&& forall|b: int| 0 <= b < 512 * g ==> #[trigger] mid_bit(s, b) == frame_slot_in_big(p, b)
        &&& forall|b: int| 0 <= b < 512 * g ==> #[trigger] mid_bit(m, b) == big_slot(p, b)
        &&& forall|h: int| 0 <= h < 512 ==> #[trigger] top_bit(s, h) == (h < g && frame_slot_in_huge(p, h))
        &&& forall|h: int| 0 <= h < 512 ==> #[trigger] top_bit(m, h) == (h < g && big_slot_in_huge(p, h))
        &&& forall|h: int| 0 <= h < 512 ==> #[trigger] top_bit(u, h) == (h < g && huge_slot(p, h))
    }

    /// The trees stay consistent with the tags after a page is handed out as
    /// a frame: the page's bit, then each parent bit whose node became empty,
    /// and the bits of the coarser trees that covered the page are cleared.
    #[verifier::rlimit(60)]
    proof fn lemma_after_frame(
        &self,
        old: &Self,
        s1: Seq<u64>,
        s2: Seq<u64>,
        m1: Seq<u64>,
        i: int,
        e3: bool,
        e2: bool,
        f2: bool,
    )
        requires
            old.wf(),
            0 <= i < old@.len(),
            is_free(old@, i),
            self.nb_gb == old.nb_gb,
            self.allocator_state@ == old@.update(i, PageType::Frame),
            bits_cleared(old.tree_4kb@, s1, 512 + 512 * old.nb_gb + i, true),
            e3 == node_empty(s1, 8 + 8 * old.nb_gb + 8 * (i / 512)),
            bits_cleared(s1, s2, 512 + i / 512, e3),
            e2 == node_empty(s2, 8 + 8 * (i / 262144)),
            bits_cleared(s2, self.tree_4kb@, i / 262144, e2),
            bits_cleared(old.tree_2mb@, m1, 512 + i / 512, true),
            f2 == node_empty(m1, 8 + 8 * (i / 262144)),
            bits_cleared(m1, self.tree_2mb@, i / 262144, f2),
            bits_cleared(old.tree_1gb@, self.tree_1gb@, i / 262144, true),
        ensures
            self.wf(),
    {
        let g = old.nb_gb as int;
        let p = old@;
        let q = self@;
        let s0 = old.tree_4kb@;
        let s = self.tree_4kb@;
        let m0 = old.tree_2mb@;
        let m = self.tree_2mb@;
        let u0 = old.tree_1gb@;
        let u = self.tree_1gb@;
        let b = i / 512;
        let h = i / 262144;
        lemma_index_split(i);
        lemma_update_frame(p, i, PageType::Frame);
        assert(frame_slot_in_big(p, b));
        // Tags.
        assert forall|j: int| 0 <= j < q.len() implies #[trigger] tag_ok(q, j) by {
            assert(tag_ok(p, j));
            lemma_index_split(j);
            if j != i {
                if 512 * (j / 512) == i {
                    assert(q[512 * (j / 512)] == PageType::Frame);
                }
                if 262144 * (j / 262144) == i {
                    assert(q[262144 * (j / 262144)] == PageType::Frame);
                }
            } else {
                assert(q[512 * b] != PageType::Big);
                assert(q[262144 * h] != PageType::Huge);
            }
        }
        // Level 3 of the small-page tree.
        assert forall|j: int| 0 <= j < 262144 * g implies #[trigger] leaf_bit(s, g, j) == (q[j]
            != PageType::Frame) by {
            assert(leaf_bit(s0, g, j) == (p[j] != PageType::Frame));
            assert(tbit(s, 512 + 512 * g + j) == tbit(s2, 512 + 512 * g + j));
            assert(tbit(s2, 512 + 512 * g + j) == tbit(s1, 512 + 512 * g + j));
        }
        // Level 2 of the small-page tree.
        assert(e3 == !frame_slot_in_big(q, b)) by {
            if e3 {
                assert forall|x: int| 512 * b <= x < 512 * b + 512 implies q[x] == PageType::Frame by {
                    assert(!tbit(s1, 64 * (8 + 8 * g + 8 * b) + (x - 512 * b)));
                    assert(leaf_bit(s0, g, x) == (p[x] != PageType::Frame));
                }
            } else {
                let k = choose|k: int| 0 <= k < 512 && #[trigger] tbit(s1, 64 * (8 + 8 * g + 8 * b) + k);
                let x = 512 * b + k;
                assert(leaf_bit(s0, g, x) == (p[x] != PageType::Frame));
                assert(q[x] != PageType::Frame);
            }
        }
        assert forall|c: int| 0 <= c < 512 * g implies #[trigger] mid_bit(s, c) == frame_slot_in_big(q, c) by {
            assert(mid_bit(s0, c) == frame_slot_in_big(p, c));
            assert(tbit(s, 512 + c) == tbit(s2, 512 + c));
            assert(tbit(s1, 512 + c) == tbit(s0, 512 + c));
            if c != b {
                assert(frame_slot_in_big(q, c) == frame_slot_in_big(p, c));
            }
        }
        // Level 1 of the small-page tree.
        assert(e2 == !frame_slot_in_huge(q, h)) by {
            if e2 {
                assert forall|c: int| 512 * h <= c < 512 * h + 512 implies !#[trigger] frame_slot_in_big(q, c) by {
                    assert(!tbit(s2, 64 * (8 + 8 * h) + (c - 512 * h)));
                    assert(mid_bit(s, c) == frame_slot_in_big(q, c));
                }
            } else {
                let k = choose|k: int| 0 <= k < 512 && #[trigger] tbit(s2, 64 * (8 + 8 * h) + k);
                let c = 512 * h + k;
                assert(mid_bit(s, c) == frame_slot_in_big(q, c));
                assert(tbit(s, 512 + c) == tbit(s2, 512 + c));
                assert(frame_slot_in_big(q, c));
                assert(frame_slot_in_huge(p, h));
            }
        }
        assert forall|x: int| 0 <= x < 512 implies #[trigger] top_bit(s, x) == (x < g && frame_slot_in_huge(q, x)) by {
            assert(top_bit(s0, x) == (x < g && frame_slot_in_huge(p, x)));
            assert(tbit(s1, x) == tbit(s0, x));
            assert(tbit(s2, x) == tbit(s1, x));
            if x != h && x < g {
                assert(frame_slot_in_huge(q, x) == frame_slot_in_huge(p, x));
            }
            if x == h {
                assert(frame_slot_in_huge(p, h));
            }
        }
        // Level 2 of the big-page tree.
        assert(!big_slot(q, b)) by {
            assert(q[i] == PageType::Frame);
        }
        assert forall|c: int| 0 <= c < 512 * g implies #[trigger] mid_bit(m, c) == big_slot(q, c) by {
            assert(mid_bit(m0, c) == big_slot(p, c));
            assert(tbit(m, 512 + c) == tbit(m1, 512 + c));
            if c != b {
                assert(frame_slot_in_big(q, c) == frame_slot_in_big(p, c));
            }
        }
        // Level 1 of the big-page tree.
        assert(f2 == !big_slot_in_huge(q, h)) by {
            if f2 {
                assert forall|c: int| 512 * h <= c < 512 * h + 512 implies !#[trigger] big_slot(q, c) by {
                    assert(!tbit(m1, 64 * (8 + 8 * h) + (c - 512 * h)));
                    assert(mid_bit(m, c) == big_slot(q, c));
                }
            } else {
                let k = choose|k: int| 0 <= k < 512 && #[trigger] tbit(m1, 64 * (8 + 8 * h) + k);
                let c = 512 * h + k;
                assert(mid_bit(m, c) == big_slot(q, c));
                assert(tbit(m, 512 + c) == tbit(m1, 512 + c));
                assert(big_slot(q, c));
            }
        }
        assert forall|x: int| 0 <= x < 512 implies #[trigger] top_bit(m, x) == (x < g && big_slot_in_huge(q, x)) by {
            assert(top_bit(m0, x) == (x < g && big_slot_in_huge(p, x)));
            assert(tbit(m1, x) == tbit(m0, x));
            if x != h && x < g {
                assert(frame_slot_in_huge(q, x) == frame_slot_in_huge(p, x));
                assert(big_slot_in_huge(q, x) == big_slot_in_huge(p, x));
            }
            if x == h && !f2 {
                let c = choose|c: int| 512 * h <= c < 512 * h + 512 && #[trigger] big_slot(q, c);
                lemma_in_big(c, h);
                assert(c != b);
                assert(frame_slot_in_big(q, c) == frame_slot_in_big(p, c));
                assert(big_slot(p, c) == big_slot(q, c));
                assert(big_slot_in_huge(p, h));
            }
        }
        // Level 1 of the huge-page tree.
        assert forall|x: int| 0 <= x < 512 implies #[trigger] top_bit(u, x) == (x < g && huge_slot(q, x)) by {
            assert(top_bit(u0, x) == (x < g && huge_slot(p, x)));
            if x != h && x < g {
                assert(frame_slot_in_huge(q, x) == frame_slot_in_huge(p, x));
                assert(huge_slot(q, x) == huge_slot(p, x));
            }
        }
    }

    /// Hands out the lowest free small page, tagging it as a frame; `None`
    /// when no small page is free.
    #[verifier::rlimit(100)]
    pub fn allocate_frame(&mut self) -> (r: Option<usize>)
        requires
            old(self).wf(),
        ensures
            final(self).wf(),
            final(self).gb() == old(self).gb(),
            match r {
                Some(i) => {
                    &&& lowest_free_page(old(self)@, i as int)
                    &&& final(self)@ == old(self)@.update(i as int, PageType::Frame)
                },
                None => {
                    &&& no_free_page(old(self)@)
                    &&& final(self)@ == old(self)@
                },
            },
    {
        let g = self.nb_gb;
        let ghost old_self = *self;
        let ghost p = self.allocator_state@;
        let ghost gi = g as int;
        let ghost s0 = self.tree_4kb@;
        // Level 1: the lowest huge block with a page left for frames.
        let l1_found = self.search_first_bit_set(TreeType::Tree4kb, 0);
        let l1 = match l1_found {
            Some(k) => k,
            None => 0,
        };
        if l1_found.is_none() || l1 >= g {
            proof {
                assert forall|j: int| 0 <= j < p.len() implies !#[trigger] is_free(p, j) by {
                    if is_free(p, j) {
                        lemma_free_page_slots(p, j);
                        lemma_index_split(j);
                        assert(top_bit(s0, j / 262144));
                        assert(tbit(s0, 64 * 0 + j / 262144));
                    }
                }
            }
            return None;
        }
        // Level 2: the lowest big block of it with a page left.
        let first_l2 = self.compute_first_block_index(l1, 0, Level::Level2);
        proof {
            assert(top_bit(s0, l1 as int));
            let b = choose|b: int| 512 * l1 <= b < 512 * l1 + 512 && #[trigger] frame_slot_in_big(p, b);
            assert(mid_bit(s0, b));
            assert(tbit(s0, 64 * first_l2 + (b - 512 * l1)));
        }
        let l2 = self.search_first_bit_set(TreeType::Tree4kb, first_l2).unwrap();
        let b = 512 * l1 + l2;
        // Level 3: the lowest page of that big block.
        let first_l3 = self.compute_first_block_index(l1, l2, Level::Level3);
        proof {
            assert(tbit(s0, 64 * first_l2 + l2));
            assert(mid_bit(s0, b as int));
            let i = choose|i: int| 512 * b <= i < 512 * b + 512 && p[i] != PageType::Frame;
            assert(leaf_bit(s0, gi, i));
            assert(tbit(s0, 64 * first_l3 + (i - 512 * b)));
        }
        let l3 = self.search_first_bit_set(TreeType::Tree4kb, first_l3).unwrap();
        let i = 512 * b + l3;
        proof {
            assert(tbit(s0, 64 * first_l3 + l3));
            assert(leaf_bit(s0, gi, i as int));
            lemma_in_big(i as int, b as int);
            lemma_in_huge(i as int, l1 as int);
            lemma_index_split(i as int);
            assert(tag_ok(p, i as int));
            assert(is_free(p, i as int));
            assert forall|j: int| 0 <= j < i implies !#[trigger] is_free(p, j) by {
                if is_free(p, j) {
                    lemma_free_page_slots(p, j);
                    lemma_index_split(j);
                    vstd::arithmetic::div_mod::lemma_div_is_ordered(j, i as int, 262144);
                    vstd::arithmetic::div_mod::lemma_div_is_ordered(j, i as int, 512);
                    let hj = j / 262144;
                    let bj = j / 512;
                    assert(top_bit(s0, hj));
                    assert(tbit(s0, 64 * 0 + hj));
                    assert(hj == l1);
                    assert(mid_bit(s0, bj));
                    assert(tbit(s0, 64 * first_l2 + (bj - 512 * l1)));
                    assert(bj == b);
                    assert(leaf_bit(s0, gi, j));
                    assert(tbit(s0, 64 * first_l3 + (j - 512 * b)));
                }
            }
        }
        // Small-page tree: clear the page, then the parents that became empty.
        clear_bit(&mut self.tree_4kb, 512 + 512 * g + i);
        let ghost s1 = self.tree_4kb@;
        let e3 = self.search_first_bit_set(TreeType::Tree4kb, first_l3).is_none();
        if e3 {
            clear_bit(&mut self.tree_4kb, 512 + b);
        }
        let ghost s2 = self.tree_4kb@;
        let e2 = self.search_first_bit_set(TreeType::Tree4kb, first_l2).is_none();
        if e2 {
            clear_bit(&mut self.tree_4kb, l1);
        }
        // Big-page tree: the big block is no longer entirely free.
        clear_bit(&mut self.tree_2mb, 512 + b);
        let ghost m1 = self.tree_2mb@;
        let f2 = self.search_first_bit_set(TreeType::Tree2mb, first_l2).is_none();
        if f2 {
            clear_bit(&mut self.tree_2mb, l1);
        }
        // Huge-page tree: the huge block is no longer entirely free.
        clear_bit(&mut self.tree_1gb, l1);
        self.allocator_state.set(i, PageType::Frame);
        proof {
            self.lemma_after_frame(&old_self, s1, s2, m1, i as int, e3, e2, f2);
        }
        Some(i)
    }

    /// The trees stay consistent with the tags after a big block is handed
    /// out: its level-2 bits, each level-1 bit whose node became empty, and
    /// the huge-page bit above it are cleared.
    #[verifier::rlimit(60)]
    proof fn lemma_after_big(&self, old: &Self, s1: Seq<u64>, m1: Seq<u64>, b: int, e2: bool, f2: bool)
        requires
            old.wf(),
            0 <= b < 512 * old.nb_gb,
            big_block_free(old@, b),
            self.nb_gb == old.nb_gb,
            self.allocator_state@ == old@.update(512 * b, PageType::Big),
            bits_cleared(old.tree_2mb@, m1, 512 + b, true),
            f2 == node_empty(m1, 8 + 8 * (b / 512)),
            bits_cleared(m1, self.tree_2mb@, b / 512, f2),
            bits_cleared(old.tree_4kb@, s1, 512 + b, true),
            e2 == node_empty(s1, 8 + 8 * (b / 512)),
            bits_cleared(s1, self.tree_4kb@, b / 512, e2),
            bits_cleared(old.tree_1gb@, self.tree_1gb@, b / 512, true),
        ensures
            self.wf(),
    {
        let g = old.nb_gb as int;
        let p = old@;
        let q = self@;
        let s0 = old.tree_4kb@;
        let s = self.tree_4kb@;
        let m0 = old.tree_2mb@;
        let m = self.tree_2mb@;
        let u0 = old.tree_1gb@;
        let u = self.tree_1gb@;
        let x = 512 * b;
        let h = b / 512;
        lemma_in_big(x, b);
        lemma_index_split(x);
        lemma_update_frame(p, x, PageType::Big);
        assert(is_free(p, x));
        assert(big_taken(q, b));
        lemma_index_split(b);
        assert(!big_slot(q, b));
        assert(!huge_slot(q, h));
        // Tags.
        assert forall|j: int| 0 <= j < q.len() implies #[trigger] tag_ok(q, j) by {
            assert(tag_ok(p, j));
            lemma_index_split(j);
            if j != x {
                if j / 512 == b {
                    assert(is_free(p, j));
                } else {
                    assert(512 * (j / 512) != x);
                }
                if 262144 * (j / 262144) == x {
                    assert(q[262144 * (j / 262144)] == PageType::Big);
                }
            } else {
                assert(q[262144 * h] != PageType::Huge);
            }
        }
        // Level 3 of the small-page tree.
        assert forall|j: int| 0 <= j < 262144 * g implies #[trigger] leaf_bit(s, g, j) == (q[j]
            != PageType::Frame) by {
            assert(leaf_bit(s0, g, j) == (p[j] != PageType::Frame));
            assert(tbit(s, 512 + 512 * g + j) == tbit(s1, 512 + 512 * g + j));
        }
        // Level 2 of both trees.
        assert forall|c: int|
            #![trigger mid_bit(s, c)]
            #![trigger mid_bit(m, c)]
            0 <= c < 512 * g implies mid_bit(s, c) == frame_slot_in_big(q, c) && mid_bit(m, c)
                == big_slot(q, c) by {
            assert(mid_bit(s0, c) == frame_slot_in_big(p, c));
            assert(mid_bit(m0, c) == big_slot(p, c));
            assert(tbit(s, 512 + c) == tbit(s1, 512 + c));
            assert(tbit(m, 512 + c) == tbit(m1, 512 + c));
            if c != b {
                assert(frame_slot_in_big(q, c) == frame_slot_in_big(p, c));
            }
        }
        // Level 1 of the small-page tree.
        assert(e2 == !frame_slot_in_huge(q, h)) by {
            if e2 {
                assert forall|c: int| 512 * h <= c < 512 * h + 512 implies !#[trigger] frame_slot_in_big(q, c) by {
                    assert(!tbit(s1, 64 * (8 + 8 * h) + (c - 512 * h)));
                    assert(mid_bit(s, c) == frame_slot_in_big(q, c));
                }
            } else {
                let k = choose|k: int| 0 <= k < 512 && #[trigger] tbit(s1, 64 * (8 + 8 * h) + k);
                let c = 512 * h + k;
                assert(mid_bit(s, c) == frame_slot_in_big(q, c));
                assert(tbit(s, 512 + c) == tbit(s1, 512 + c));
                assert(frame_slot_in_big(q, c));
            }
        }
        assert forall|y: int| 0 <= y < 512 implies #[trigger] top_bit(s, y) == (y < g && frame_slot_in_huge(q, y)) by {
            assert(top_bit(s0, y) == (y < g && frame_slot_in_huge(p, y)));
            assert(tbit(s1, y) == tbit(s0, y));
            if y != h && y < g {
                assert(frame_slot_in_huge(q, y) == frame_slot_in_huge(p, y));
            }
            if y == h && !e2 {
                let c = choose|c: int| 512 * h <= c < 512 * h + 512 && #[trigger] frame_slot_in_big(q, c);
                lemma_in_big(c, h);
                assert(c != b);
                assert(frame_slot_in_big(p, c));
                assert(frame_slot_in_huge(p, h));
            }
        }
        // Level 1 of the big-page tree.
        assert(f2 == !big_slot_in_huge(q, h)) by {
            if f2 {
                assert forall|c: int| 512 * h <= c < 512 * h + 512 implies !#[trigger] big_slot(q, c) by {
                    assert(!tbit(m1, 64 * (8 + 8 * h) + (c - 512 * h)));
                    assert(mid_bit(m, c) == big_slot(q, c));
                }
            } else {
                let k = choose|k: int| 0 <= k < 512 && #[trigger] tbit(m1, 64 * (8 + 8 * h) + k);
                let c = 512 * h + k;
                assert(mid_bit(m, c) == big_slot(q, c));
                assert(tbit(m, 512 + c) == tbit(m1, 512 + c));
                assert(big_slot(q, c));
            }
        }
        assert forall|y: int| 0 <= y < 512 implies #[trigger] top_bit(m, y) == (y < g && big_slot_in_huge(q, y)) by {
            assert(top_bit(m0, y) == (y < g && big_slot_in_huge(p, y)));
            assert(tbit(m1, y) == tbit(m0, y));
            if y != h && y < g {
                assert(frame_slot_in_huge(q, y) == frame_slot_in_huge(p, y));
                assert(big_slot_in_huge(q, y) == big_slot_in_huge(p, y));
            }
            if y == h && !f2 {
                let c = choose|c: int| 512 * h <= c < 512 * h + 512 && #[trigger] big_slot(q, c);
                lemma_in_big(c, h);
                assert(c != b);
                assert(frame_slot_in_big(q, c) == frame_slot_in_big(p, c));
                assert(big_slot(p, c));
                assert(big_slot_in_huge(p, h));
            }
        }
        // Level 1 of the huge-page tree.
        assert forall|y: int| 0 <= y < 512 implies #[trigger] top_bit(u, y) == (y < g && huge_slot(q, y)) by {
            assert(top_bit(u0, y) == (y < g && huge_slot(p, y)));
            if y != h && y < g {
                assert(frame_slot_in_huge(q, y) == frame_slot_in_huge(p, y));
                assert(huge_slot(q, y) == huge_slot(p, y));
            }
        }
    }

    /// Hands out the lowest big block whose pages are all free, tagging its
    /// base as big; `None` when there is none.
    #[verifier::rlimit(100)]
    pub fn allocate_big_page(&mut self) -> (r: Option<usize>)
        requires
            old(self).wf(),
        ensures
            final(self).wf(),
            final(self).gb() == old(self).gb(),
            match r {
                Some(i) => {
                    &&& i % 512 == 0
                    &&& lowest_free_big(old(self)@, i as int / 512)
                    &&& final(self)@ == old(self)@.update(i as int, PageType::Big)
                },
                None => {
                    &&& no_free_big(old(self)@)
                    &&& final(self)@ == old(self)@
                },
            },
    {
        let g = self.nb_gb;
        let ghost old_self = *self;
        let ghost p = self.allocator_state@;
        let ghost m0 = self.tree_2mb@;
        // Level 1: the lowest huge block with a big block left.
        let l1_found = self.search_first_bit_set(TreeType::Tree2mb, 0);
        let l1 = match l1_found {
            Some(k) => k,
            None => 0,
        };
        if l1_found.is_none() || l1 >= g {
            proof {
                assert forall|c: int| 0 <= c && 512 * c + 512 <= p.len() implies !#[trigger] big_block_free(p, c) by {
                    if big_block_free(p, c) {
                        lemma_big_block_free_iff(p, c);
                        lemma_in_big(512 * c, c);
                        lemma_index_split(512 * c);
                        assert(big_slot_in_huge(p, c / 512));
                        assert(top_bit(m0, c / 512));
                        assert(tbit(m0, 64 * 0 + c / 512));
                    }
                }
            }
            return None;
        }
        // Level 2: the lowest entirely free big block of it.
        let first_l2 = self.compute_first_block_index(l1, 0, Level::Level2);
        proof {
            assert(top_bit(m0, l1 as int));
            let c = choose|c: int| 512 * l1 <= c < 512 * l1 + 512 && #[trigger] big_slot(p, c);
            assert(mid_bit(m0, c));
            assert(tbit(m0, 64 * first_l2 + (c - 512 * l1)));
        }
        let l2 = self.search_first_bit_set(TreeType::Tree2mb, first_l2).unwrap();
        let b = 512 * l1 + l2;
        proof {
            assert(tbit(m0, 64 * first_l2 + l2));
            assert(mid_bit(m0, b as int));
            lemma_in_big(b as int, l1 as int);
            lemma_big_block_free_iff(p, b as int);
            assert(big_block_free(p, b as int));
            assert forall|c: int| 0 <= c < b implies !#[trigger] big_block_free(p, c) by {
                if big_block_free(p, c) {
                    lemma_big_block_free_iff(p, c);
                    lemma_in_big(512 * c, c);
                    lemma_index_split(512 * c);
                    vstd::arithmetic::div_mod::lemma_div_is_ordered(c, b as int, 512);
                    assert(big_slot_in_huge(p, c / 512));
                    assert(top_bit(m0, c / 512));
                    assert(tbit(m0, 64 * 0 + c / 512));
                    assert(c / 512 == l1);
                    assert(mid_bit(m0, c));
                    assert(tbit(m0, 64 * first_l2 + (c - 512 * l1)));
                }
            }
        }
        // Big-page tree: clear the block, then its parent if the node became empty.
        clear_bit(&mut self.tree_2mb, 512 + b);
        let ghost m1 = self.tree_2mb@;
        let f2 = self.search_first_bit_set(TreeType::Tree2mb, first_l2).is_none();
        if f2 {
            clear_bit(&mut self.tree_2mb, l1);
        }
        // Small-page tree: the level-2 bit alone hides the block's pages.
        clear_bit(&mut self.tree_4kb, 512 + b);
        let ghost s1 = self.tree_4kb@;
        let e2 = self.search_first_bit_set(TreeType::Tree4kb, first_l2).is_none();
        if e2 {
            clear_bit(&mut self.tree_4kb, l1);
        }
        // Huge-page tree: the huge block is no longer entirely free.
        clear_bit(&mut self.tree_1gb, l1);
        let i = 512 * b;
        self.allocator_state.set(i, PageType::Big);
        proof {
            lemma_in_big(i as int, b as int);
            self.lemma_after_big(&old_self, s1, m1, b as int, e2, f2);
        }
        Some(i)
    }

    /// The trees stay consistent with the tags after a huge block is handed
    /// out: its level-1 bit is cleared in the three trees.
    #[verifier::rlimit(60)]
    proof fn lemma_after_huge(&self, old: &Self, h: int)
        requires
            old.wf(),
            0 <= h < old.nb_gb,
            huge_block_free(old@, h),
            self.nb_gb == old.nb_gb,
            self.allocator_state@ == old@.update(262144 * h, PageType::Huge),
            bits_cleared(old.tree_4kb@, self.tree_4kb@, h, true),
            bits_cleared(old.tree_2mb@, self.tree_2mb@, h, true),
            bits_cleared(old.tree_1gb@, self.tree_1gb@, h, true),
        ensures
            self.wf(),
    {
        let g = old.nb_gb as int;
        let p = old@;
        let q = self@;
        let s0 = old.tree_4kb@;
        let s = self.tree_4kb@;
        let m0 = old.tree_2mb@;
        let m = self.tree_2mb@;
        let u0 = old.tree_1gb@;
        let u = self.tree_1gb@;
        let x = 262144 * h;
        lemma_in_huge(x, h);
        lemma_index_split(x);
        lemma_update_frame(p, x, PageType::Huge);
        assert(is_free(p, x));
        assert(huge_taken(q, h));
        // Tags.
        assert forall|j: int| 0 <= j < q.len() implies #[trigger] tag_ok(q, j) by {
            assert(tag_ok(p, j));
            lemma_index_split(j);
            if j != x {
                if j / 262144 == h {
                    assert(is_free(p, j));
                } else {
                    assert(262144 * (j / 262144) != x);
                    if 512 * (j / 512) == x {
                        lemma_in_big(x, j / 512);
                        lemma_index_split(j / 512);
                    }
                }
            }
        }
        // Levels 2 and 3 keep their bits and their meaning.
        assert forall|j: int| 0 <= j < 262144 * g implies #[trigger] leaf_bit(s, g, j) == (q[j]
            != PageType::Frame) by {
            assert(leaf_bit(s0, g, j) == (p[j] != PageType::Frame));
        }
        assert forall|c: int|
            #![trigger mid_bit(s, c)]
            #![trigger mid_bit(m, c)]
            0 <= c < 512 * g implies mid_bit(s, c) == frame_slot_in_big(q, c) && mid_bit(m, c)
                == big_slot(q, c) by {
            assert(mid_bit(s0, c) == frame_slot_in_big(p, c));
            assert(mid_bit(m0, c) == big_slot(p, c));
            if c != x / 512 {
                assert(frame_slot_in_big(q, c) == frame_slot_in_big(p, c));
            } else {
                assert(q[512 * c] == PageType::Huge);
                assert(p[512 * c] == PageType::Free);
                assert forall|i: int| 512 * c <= i < 512 * c + 512 implies (q[i] != PageType::Frame) == (p[i] != PageType::Frame) by {}
                assert(frame_slot_in_big(q, c) == frame_slot_in_big(p, c));
                assert(big_slot(q, c) == big_slot(p, c));
            }
        }
        // Level 1 of the three trees.
        assert forall|y: int|
            #![trigger top_bit(s, y)]
            #![trigger top_bit(m, y)]
            #![trigger top_bit(u, y)]
            0 <= y < 512 implies top_bit(s, y) == (y < g && frame_slot_in_huge(q, y)) && top_bit(m, y) == (y < g
                && big_slot_in_huge(q, y)) && top_bit(u, y) == (y < g && huge_slot(q, y)) by {
            assert(top_bit(s0, y) == (y < g && frame_slot_in_huge(p, y)));
            assert(top_bit(m0, y) == (y < g && big_slot_in_huge(p, y)));
            assert(top_bit(u0, y) == (y < g && huge_slot(p, y)));
            if y != h && y < g {
                assert(frame_slot_in_huge(q, y) == frame_slot_in_huge(p, y));
            }
        }
    }

    /// Hands out the lowest huge block whose pages are all free, tagging its
    /// base as huge; `None` when there is none.
    pub fn allocate_huge_page(&mut self) -> (r: Option<usize>)
        requires
            old(self).wf(),
        ensures
            final(self).wf(),
            final(self).gb() == old(self).gb(),
            match r {
                Some(i) => {
                    &&& i % 262144 == 0
                    &&& lowest_free_huge(old(self)@, i as int / 262144)
                    &&& final(self)@ == old(self)@.update(i as int, PageType::Huge)
                },
                None => {
                    &&& no_free_huge(old(self)@)
                    &&& final(self)@ == old(self)@
                },
            },
    {
        let g = self.nb_gb;
        let ghost old_self = *self;
        let ghost p = self.allocator_state@;
        let ghost u0 = self.tree_1gb@;
        let l1_found = self.search_first_bit_set(TreeType::Tree1gb, 0);
        let l1 = match l1_found {
            Some(k) => k,
            None => 0,
        };
        if l1_found.is_none() || l1 >= g {
            proof {
                assert forall|c: int| 0 <= c && 262144 * c + 262144 <= p.len() implies !#[trigger] huge_block_free(p, c) by {
                    if huge_block_free(p, c) {
                        lemma_huge_block_free_iff(p, c);
                        assert(top_bit(u0, c));
                        assert(tbit(u0, 64 * 0 + c));
                    }
                }
            }
            return None;
        }
        proof {
            assert(tbit(u0, 64 * 0 + l1));
            assert(top_bit(u0, l1 as int));
            lemma_huge_block_free_iff(p, l1 as int);
            assert forall|c: int| 0 <= c < l1 implies !#[trigger] huge_block_free(p, c) by {
                if huge_block_free(p, c) {
                    lemma_huge_block_free_iff(p, c);
                    assert(top_bit(u0, c));
                    assert(tbit(u0, 64 * 0 + c));
                }
            }
        }
        clear_bit(&mut self.tree_1gb, l1);
        clear_bit(&mut self.tree_2mb, l1);
        clear_bit(&mut self.tree_4kb, l1);
        let i = 262144 * l1;
        self.allocator_state.set(i, PageType::Huge);
        proof {
            lemma_in_huge(i as int, l1 as int);
            self.lemma_after_huge(&old_self, l1 as int);
        }
        Some(i)
    }

    /// The trees stay consistent with the tags after a frame is released:
    /// its bit and its parents are set in the small-page tree, and the
    /// coarser trees are set where the release made a block entirely free.
    #[verifier::rlimit(60)]
    proof fn lemma_after_free_frame(
        &self,
        old: &Self,
        s1: Seq<u64>,
        s2: Seq<u64>,
        m1: Seq<u64>,
        i: int,
        c3: bool,
        c2: bool,
    )
        requires
            old.wf(),
            0 <= i < old@.len(),
            old@[i] == PageType::Frame,
            self.nb_gb == old.nb_gb,
            self.allocator_state@ == old@.update(i, PageType::Free),
            bits_set(old.tree_4kb@, s1, 512 + 512 * old.nb_gb + i, true),
            bits_set(s1, s2, 512 + i / 512, true),
            bits_set(s2, self.tree_4kb@, i / 262144, true),
            c3 == node_full(self.tree_4kb@, 8 + 8 * old.nb_gb + 8 * (i / 512)),
            bits_set(old.tree_2mb@, m1, 512 + i / 512, c3),
            bits_set(m1, self.tree_2mb@, i / 262144, c3),
            c2 == node_full(self.tree_2mb@, 8 + 8 * (i / 262144)),
            bits_set(old.tree_1gb@, self.tree_1gb@, i / 262144, c2),
        ensures
            self.wf(),
    {
        let g = old.nb_gb as int;
        let p = old@;
        let q = self@;
        let s0 = old.tree_4kb@;
        let s = self.tree_4kb@;
        let m0 = old.tree_2mb@;
        let m = self.tree_2mb@;
        let u0 = old.tree_1gb@;
        let u = self.tree_1gb@;
        let b = i / 512;
        let h = i / 262144;
        lemma_index_split(i);
        lemma_update_frame(p, i, PageType::Free);
        assert(tag_ok(p, i));
        assert(!big_taken(p, b));
        assert(!huge_taken(p, h));
        assert(!big_taken(q, b));
        assert(!huge_taken(q, h));
        assert(!big_slot(p, b));
        // Tags.
        assert forall|j: int| 0 <= j < q.len() implies #[trigger] tag_ok(q, j) by {
            assert(tag_ok(p, j));
            lemma_index_split(j);
        }
        // Level 3 of the small-page tree.
        assert forall|j: int| 0 <= j < 262144 * g implies #[trigger] leaf_bit(s, g, j) == (q[j]
            != PageType::Frame) by {
            assert(leaf_bit(s0, g, j) == (p[j] != PageType::Frame));
            assert(tbit(s, 512 + 512 * g + j) == tbit(s2, 512 + 512 * g + j));
            assert(tbit(s2, 512 + 512 * g + j) == tbit(s1, 512 + 512 * g + j));
        }
        assert(q[i] == PageType::Free);
        assert(frame_slot_in_big(q, b));
        assert(frame_slot_in_huge(q, h));
        // The block became entirely free exactly when its level-3 node is full.
        assert(c3 == big_slot(q, b)) by {
            if c3 {
                assert forall|x: int| 512 * b <= x < 512 * b + 512 implies q[x] != PageType::Frame by {
                    assert(tbit(s, 64 * (8 + 8 * g + 8 * b) + (x - 512 * b)));
                    assert(leaf_bit(s, g, x) == (q[x] != PageType::Frame));
                }
            } else {
                let k = choose|k: int| 0 <= k < 512 && !#[trigger] tbit(s, 64 * (8 + 8 * g + 8 * b) + k);
                let x = 512 * b + k;
                assert(leaf_bit(s, g, x) == (q[x] != PageType::Frame));
            }
        }
        // Level 2 of both trees.
        assert forall|c: int|
            #![trigger mid_bit(s, c)]
            #![trigger mid_bit(m, c)]
            0 <= c < 512 * g implies mid_bit(s, c) == frame_slot_in_big(q, c) && mid_bit(m, c)
                == big_slot(q, c) by {
            assert(mid_bit(s0, c) == frame_slot_in_big(p, c));
            assert(mid_bit(m0, c) == big_slot(p, c));
            assert(tbit(s1, 512 + c) == tbit(s0, 512 + c));
            assert(tbit(s2, 512 + c) == (tbit(s1, 512 + c) || c == b));
            assert(tbit(s, 512 + c) == tbit(s2, 512 + c));
            assert(tbit(m, 512 + c) == tbit(m1, 512 + c));
            if c != b {
                assert(frame_slot_in_big(q, c) == frame_slot_in_big(p, c));
            }
        }
        // The huge block became entirely free exactly when its level-2 node
        // of the big-page tree is full.
        assert(c2 == huge_slot(q, h)) by {
            if c2 {
                assert forall|c: int| 512 * h <= c < 512 * h + 512 implies #[trigger] big_slot(q, c) by {
                    assert(tbit(m, 64 * (8 + 8 * h) + (c - 512 * h)));
                    assert(mid_bit(m, c) == big_slot(q, c));
                }
            } else {
                let k = choose|k: int| 0 <= k < 512 && !#[trigger] tbit(m, 64 * (8 + 8 * h) + k);
                let c = 512 * h + k;
                assert(mid_bit(m, c) == big_slot(q, c));
            }
        }
        // Level 1 of the three trees.
        assert forall|y: int|
            #![trigger top_bit(s, y)]
            #![trigger top_bit(m, y)]
            #![trigger top_bit(u, y)]
            0 <= y < 512 implies top_bit(s, y) == (y < g && frame_slot_in_huge(q, y)) && top_bit(m, y) == (y < g
                && big_slot_in_huge(q, y)) && top_bit(u, y) == (y < g && huge_slot(q, y)) by {
            assert(top_bit(s0, y) == (y < g && frame_slot_in_huge(p, y)));
            assert(top_bit(m0, y) == (y < g && big_slot_in_huge(p, y)));
            assert(top_bit(u0, y) == (y < g && huge_slot(p, y)));
            assert(tbit(s1, y) == tbit(s0, y));
            assert(tbit(s2, y) == tbit(s1, y));
            assert(tbit(m1, y) == tbit(m0, y));
            if y != h && y < g {
                assert(frame_slot_in_huge(q, y) == frame_slot_in_huge(p, y));
            }
            if y == h {
                if c3 {
                    assert(big_slot_in_huge(q, h));
                } else {
                    assert forall|c: int|
                        #![trigger big_slot(q, c)]
                        #![trigger big_slot(p, c)]
                        512 * h <= c < 512 * h + 512 implies big_slot(q, c) == big_slot(p, c) by {
                        lemma_in_big(c, h);
                        if c != b {
                            assert(frame_slot_in_big(q, c) == frame_slot_in_big(p, c));
                        }
                    }
                    assert(big_slot_in_huge(q, h) == big_slot_in_huge(p, h));
                }
                assert(!huge_slot(p, h));
            }
        }
    }

    /// Releases a frame. Nothing happens unless `frame_id` is a page that was
    /// handed out as a frame.
    #[verifier::rlimit(100)]
    pub fn deallocate_frame(&mut self, frame_id: usize)
        requires
            old(self).wf(),
        ensures
            final(self).wf(),
            final(self).gb() == old(self).gb(),
            final(self)@ == release(old(self)@, frame_id as int, PageType::Frame),
    {
        if frame_id >= self.allocator_state.len() || self.allocator_state[frame_id] != PageType::Frame {
            return;
        }
        let ghost old_self = *self;
        let g = self.nb_gb;
        let id = frame_id;
        let b = id / 512;
        let l1 = id / 262144;
        proof {
            lemma_index_split(id as int);
            vstd::arithmetic::div_mod::lemma_fundamental_div_mod(b as int, 512);
        }
        let first_l2 = self.compute_first_block_index(l1, 0, Level::Level2);
        let first_l3 = self.compute_first_block_index(l1, b % 512, Level::Level3);
        self.allocator_state.set(id, PageType::Free);
        // Small-page tree: the page and its parents become available.
        set_bit(&mut self.tree_4kb, 512 + 512 * g + id);
        let ghost s1 = self.tree_4kb@;
        set_bit(&mut self.tree_4kb, 512 + b);
        let ghost s2 = self.tree_4kb@;
        set_bit(&mut self.tree_4kb, l1);
        // Big-page tree: the big block is entirely free again when all its
        // pages are.
        let c3 = self.all_free(TreeType::Tree4kb, first_l3);
        if c3 {
            set_bit(&mut self.tree_2mb, 512 + b);
        }
        let ghost m1 = self.tree_2mb@;
        if c3 {
            set_bit(&mut self.tree_2mb, l1);
        }
        // Huge-page tree: the huge block is entirely free again when all its
        // big blocks are.
        let c2 = self.all_free(TreeType::Tree2mb, first_l2);
        if c2 {
            set_bit(&mut self.tree_1gb, l1);
        }
        proof {
            self.lemma_after_free_frame(&old_self, s1, s2, m1, id as int, c3, c2);
        }
    }

    /// The trees stay consistent with the tags after a big block is
    /// released: its level-2 bits and their parents are set, and the
    /// huge-page bit is set when the whole huge block is free again.
    #[verifier::rlimit(60)]
    proof fn lemma_after_free_big(&self, old: &Self, s1: Seq<u64>, m1: Seq<u64>, m2: Seq<u64>, b: int, c2: bool)
        requires
            old.wf(),
            0 <= b < 512 * old.nb_gb,
            old@[512 * b] == PageType::Big,
            self.nb_gb == old.nb_gb,
            self.allocator_state@ == old@.update(512 * b, PageType::Free),
            bits_set(old.tree_2mb@, m1, b / 512, true),
            bits_set(m1, self.tree_2mb@, 512 + b, true),
            bits_set(old.tree_4kb@, s1, 512 + b, true),
            bits_set(s1, self.tree_4kb@, b / 512, true),
            c2 == node_full(self.tree_2mb@, 8 + 8 * (b / 512)),
            bits_set(old.tree_1gb@, self.tree_1gb@, b / 512, c2),
        ensures
            self.wf(),
    {
        let g = old.nb_gb as int;
        let p = old@;
        let q = self@;
        let s0 = old.tree_4kb@;
        let s = self.tree_4kb@;
        let m0 = old.tree_2mb@;
        let m = self.tree_2mb@;
        let u0 = old.tree_1gb@;
        let u = self.tree_1gb@;
        let x = 512 * b;
        let h = b / 512;
        lemma_in_big(x, b);
        lemma_index_split(x);
        lemma_index_split(b);
        lemma_update_frame(p, x, PageType::Free);
        assert(tag_ok(p, x));
        assert(!huge_taken(p, h));
        assert(!huge_taken(q, h));
        assert(!big_taken(q, b));
        // The pages of the block carry no tag.
        assert forall|j: int| 512 * b <= j < 512 * b + 512 implies q[j] == PageType::Free by {
            lemma_in_big(j, b);
            assert(tag_ok(p, j));
        }
        assert(frame_slot_in_big(q, b));
        assert(big_slot(q, b));
        assert(big_slot_in_huge(q, h));
        assert(frame_slot_in_huge(q, h));
        // Tags.
        assert forall|j: int| 0 <= j < q.len() implies #[trigger] tag_ok(q, j) by {
            assert(tag_ok(p, j));
            lemma_index_split(j);
        }
        // Level 3 of the small-page tree.
        assert forall|j: int| 0 <= j < 262144 * g implies #[trigger] leaf_bit(s, g, j) == (q[j]
            != PageType::Frame) by {
            assert(leaf_bit(s0, g, j) == (p[j] != PageType::Frame));
            assert(tbit(s1, 512 + 512 * g + j) == tbit(s0, 512 + 512 * g + j));
        }
        // Level 2 of both trees.
        assert forall|c: int|
            #![trigger mid_bit(s, c)]
            #![trigger mid_bit(m, c)]
            0 <= c < 512 * g implies mid_bit(s, c) == frame_slot_in_big(q, c) && mid_bit(m, c)
                == big_slot(q, c) by {
            assert(mid_bit(s0, c) == frame_slot_in_big(p, c));
            assert(mid_bit(m0, c) == big_slot(p, c));
            assert(tbit(s1, 512 + c) == (tbit(s0, 512 + c) || c == b));
            assert(tbit(s, 512 + c) == tbit(s1, 512 + c));
            assert(tbit(m1, 512 + c) == tbit(m0, 512 + c));
            if c != b {
                assert(frame_slot_in_big(q, c) == frame_slot_in_big(p, c));
            }
        }
        // The huge block became entirely free exactly when its level-2 node
        // of the big-page tree is full.
        assert(c2 == huge_slot(q, h)) by {
            if c2 {
                assert forall|c: int| 512 * h <= c < 512 * h + 512 implies #[trigger] big_slot(q, c) by {
                    assert(tbit(m, 64 * (8 + 8 * h) + (c - 512 * h)));
                    assert(mid_bit(m, c) == big_slot(q, c));
                }
            } else {
                let k = choose|k: int| 0 <= k < 512 && !#[trigger] tbit(m, 64 * (8 + 8 * h) + k);
                let c = 512 * h + k;
                assert(mid_bit(m, c) == big_slot(q, c));
            }
        }
        // Level 1 of the three trees.
        assert forall|y: int|
            #![trigger top_bit(s, y)]
            #![trigger top_bit(m, y)]
            #![trigger top_bit(u, y)]
            0 <= y < 512 implies top_bit(s, y) == (y < g && frame_slot_in_huge(q, y)) && top_bit(m, y) == (y < g
                && big_slot_in_huge(q, y)) && top_bit(u, y) == (y < g && huge_slot(q, y)) by {
            assert(top_bit(s0, y) == (y < g && frame_slot_in_huge(p, y)));
            assert(top_bit(m0, y) == (y < g && big_slot_in_huge(p, y)));
            assert(top_bit(u0, y) == (y < g && huge_slot(p, y)));
            assert(tbit(s1, y) == tbit(s0, y));
            assert(tbit(m, y) == tbit(m1, y));
            if y != h && y < g {
                assert(frame_slot_in_huge(q, y) == frame_slot_in_huge(p, y));
            }
            if y == h {
                assert(!big_slot(p, b));
                assert(!huge_slot(p, h));
            }
        }
    }

    /// Releases a big block. Nothing happens unless `frame_id` is the base of
    /// a big block that was handed out.
    #[verifier::rlimit(100)]
    pub fn deallocate_big_page(&mut self, frame_id: usize)
        requires
            old(self).wf(),
        ensures
            final(self).wf(),
            final(self).gb() == old(self).gb(),
            final(self)@ == release(old(self)@, frame_id as int, PageType::Big),
    {
        if frame_id >= self.allocator_state.len() || frame_id % 512 != 0
            || self.allocator_state[frame_id] != PageType::Big {
            proof {
                if frame_id < self.allocator_state.len() && self.allocator_state@[frame_id as int] == PageType::Big {
                    assert(tag_ok(self.allocator_state@, frame_id as int));
                }
            }
            return;
        }
        let ghost old_self = *self;
        let g = self.nb_gb;
        let b = frame_id / 512;
        let l1 = b / 512;
        proof {
            lemma_index_split(frame_id as int);
            lemma_index_split(b as int);
        }
        let first_l2 = self.compute_first_block_index(l1, 0, Level::Level2);
        self.allocator_state.set(frame_id, PageType::Free);
        set_bit(&mut self.tree_2mb, l1);
        let ghost m1 = self.tree_2mb@;
        set_bit(&mut self.tree_2mb, 512 + b);
        set_bit(&mut self.tree_4kb, 512 + b);
        let ghost s1 = self.tree_4kb@;
        set_bit(&mut self.tree_4kb, l1);
        // Huge-page tree: the huge block is entirely free again when all its
        // big blocks are.
        let c2 = self.all_free(TreeType::Tree2mb, first_l2);
        if c2 {
            set_bit(&mut self.tree_1gb, l1);
        }
        proof {
            self.lemma_after_free_big(&old_self, s1, m1, self.tree_2mb@, b as int, c2);
        }
    }

    /// The trees stay consistent with the tags after a huge block is
    /// released: its level-1 bit is set in the three trees.
    #[verifier::rlimit(60)]
    proof fn lemma_after_free_huge(&self, old: &Self, h: int)
        requires
            old.wf(),
            0 <= h < old.nb_gb,
            old@[262144 * h] == PageType::Huge,
            self.nb_gb == old.nb_gb,
            self.allocator_state@ == old@.update(262144 * h, PageType::Free),
            bits_set(old.tree_4kb@, self.tree_4kb@, h, true),
            bits_set(old.tree_2mb@, self.tree_2mb@, h, true),
            bits_set(old.tree_1gb@, self.tree_1gb@, h, true),
        ensures
            self.wf(),
    {
        let g = old.nb_gb as int;
        let p = old@;
        let q = self@;
        let s0 = old.tree_4kb@;
        let s = self.tree_4kb@;
        let m0 = old.tree_2mb@;
        let m = self.tree_2mb@;
        let u0 = old.tree_1gb@;
        let u = self.tree_1gb@;
        let x = 262144 * h;
        lemma_in_huge(x, h);
        lemma_index_split(x);
        lemma_update_frame(p, x, PageType::Free);
        // The pages of the huge block carry no tag.
        assert forall|j: int| 262144 * h <= j < 262144 * h + 262144 implies q[j] == PageType::Free by {
            lemma_in_huge(j, h);
            assert(tag_ok(p, j));
        }
        assert(!huge_taken(q, h));
        assert forall|c: int| 512 * h <= c < 512 * h + 512 implies #[trigger] big_slot(q, c) by {
            lemma_in_big(c, h);
            assert(q[512 * c] == PageType::Free);
        }
        assert(big_slot(q, 512 * h));
        assert(q[x] == PageType::Free);
        assert(frame_slot_in_big(q, 512 * h));
        assert(huge_slot(q, h));
        assert(big_slot_in_huge(q, h));
        assert(frame_slot_in_huge(q, h));
        // Tags.
        assert forall|j: int| 0 <= j < q.len() implies #[trigger] tag_ok(q, j) by {
            assert(tag_ok(p, j));
            lemma_index_split(j);
        }
        // Levels 2 and 3 keep their bits and their meaning.
        assert forall|j: int| 0 <= j < 262144 * g implies #[trigger] leaf_bit(s, g, j) == (q[j]
            != PageType::Frame) by {
            assert(leaf_bit(s0, g, j) == (p[j] != PageType::Frame));
        }
        assert forall|c: int|
            #![trigger mid_bit(s, c)]
            #![trigger mid_bit(m, c)]
            0 <= c < 512 * g implies mid_bit(s, c) == frame_slot_in_big(q, c) && mid_bit(m, c)
                == big_slot(q, c) by {
            assert(mid_bit(s0, c) == frame_slot_in_big(p, c));
            assert(mid_bit(m0, c) == big_slot(p, c));
            if c != x / 512 {
                assert(frame_slot_in_big(q, c) == frame_slot_in_big(p, c));
            } else {
                assert(p[512 * c] == PageType::Huge);
                assert forall|i: int| 512 * c <= i < 512 * c + 512 implies (q[i] != PageType::Frame) == (p[i] != PageType::Frame) by {}
                assert(frame_slot_in_big(q, c) == frame_slot_in_big(p, c));
                assert(big_slot(q, c) == big_slot(p, c));
            }
        }
        // Level 1 of the three trees.
        assert forall|y: int|
            #![trigger top_bit(s, y)]
            #![trigger top_bit(m, y)]
            #![trigger top_bit(u, y)]
            0 <= y < 512 implies top_bit(s, y) == (y < g && frame_slot_in_huge(q, y)) && top_bit(m, y) == (y < g
                && big_slot_in_huge(q, y)) && top_bit(u, y) == (y < g && huge_slot(q, y)) by {
            assert(top_bit(s0, y) == (y < g && frame_slot_in_huge(p, y)));
            assert(top_bit(m0, y) == (y < g && big_slot_in_huge(p, y)));
            assert(top_bit(u0, y) == (y < g && huge_slot(p, y)));
            if y != h && y < g {
                assert(frame_slot_in_huge(q, y) == frame_slot_in_huge(p, y));
            }
        }
    }

    /// Releases a huge block. Nothing happens unless `frame_id` is the base
    /// of a huge block that was handed out.
    pub fn deallocate_huge_page(&mut self, frame_id: usize)
        requires
            old(self).wf(),
        ensures
            final(self).wf(),
            final(self).gb() == old(self).gb(),
            final(self)@ == release(old(self)@, frame_id as int, PageType::Huge),
    {
        if frame_id >= self.allocator_state.len() || frame_id % 262144 != 0
            || self.allocator_state[frame_id] != PageType::Huge {
            proof {
                if frame_id < self.allocator_state.len() && self.allocator_state@[frame_id as int] == PageType::Huge {
                    assert(tag_ok(self.allocator_state@, frame_id as int));
                }
            }
            return;
        }
        let ghost old_self = *self;
        let l1 = frame_id / 262144;
        proof {
            lemma_index_split(frame_id as int);
        }
        self.allocator_state.set(frame_id, PageType::Free);
        set_bit(&mut self.tree_1gb, l1);
        set_bit(&mut self.tree_2mb, l1);
        set_bit(&mut self.tree_4kb, l1);
        proof {
            self.lemma_after_free_huge(&old_self, l1 as int);
        }
    }

    /// The words of one of the three trees.
    pub closed spec fn tree_words(&self, tree: TreeType) -> Seq<u64> {
        match tree {
            TreeType::Tree4kb => self.tree_4kb@,
            TreeType::Tree2mb => self.tree_2mb@,
            TreeType::Tree1gb => self.tree_1gb@,
        }
    }

    /// The bit of `tree` at `level` that covers small page `index`.
    pub open spec fn tree_bit(&self, tree: TreeType, level: Level, index: int) -> bool {
        let t = self.tree_words(tree);
        match level {
            Level::Level1 => top_bit(t, index / 262144),
            Level::Level2 => mid_bit(t, index / 512),
            Level::Level3 => leaf_bit(t, self.gb(), index),
        }
    }

    /// The word offset of the node at `level` under huge block `l1` and, for
    /// level 3, big block `l2` of it; for level 1, the word that holds bit
    /// `l1`.
    pub fn compute_first_block_index(&self, l1_idx: usize, l2_idx: usize, level: Level) -> (r: usize)
        requires
            self.wf(),
            l1_idx < 512,
            level == Level::Level3 ==> l1_idx < self.gb() && l2_idx < 512,
        ensures
            r == match level {
                Level::Level1 => l1_idx as int / 64,
                Level::Level2 => 8 + 8 * l1_idx as int,
                Level::Level3 => 8 + 8 * self.gb() + 4096 * l1_idx + 8 * l2_idx,
            },
    {
        match level {
            Level::Level1 => l1_idx / 64,
            Level::Level2 => 8 + 8 * l1_idx,
            Level::Level3 => 8 + 8 * self.nb_gb + 512 * 8 * l1_idx + 8 * l2_idx,
        }
    }

    /// The lowest set bit among the 512 bits of the node of `tree_type` that
    /// starts at word `start_idx`, or `None` when the node is empty.
    fn search_first_bit_set(&self, tree_type: TreeType, start_idx: usize) -> (r: Option<usize>)
        requires
            start_idx + 8 <= self.tree_words(tree_type).len(),
        ensures
            match r {
                Some(k) => {
                    &&& k < 512
                    &&& tbit(self.tree_words(tree_type), 64 * start_idx + k)
                    &&& forall|m: int| 0 <= m < k ==> !#[trigger] tbit(self.tree_words(tree_type), 64 * start_idx + m)
                },
                None => node_empty(self.tree_words(tree_type), start_idx as int),
            },
            r is None <==> node_empty(self.tree_words(tree_type), start_idx as int),
    {
        match tree_type {
            TreeType::Tree4kb => scan_node(&self.tree_4kb, start_idx),
            TreeType::Tree2mb => scan_node(&self.tree_2mb, start_idx),
            TreeType::Tree1gb => scan_node(&self.tree_1gb, start_idx),
        }
    }

    /// Whether all 512 bits of the node of `tree_type` that starts at word
    /// `start_idx` are set.
    fn all_free(&self, tree_type: TreeType, start_idx: usize) -> (r: bool)
        requires
            start_idx + 8 <= self.tree_words(tree_type).len(),
        ensures
            r == node_full(self.tree_words(tree_type), start_idx as int),
    {
        match tree_type {
            TreeType::Tree4kb => all_ones(&self.tree_4kb, start_idx),
            TreeType::Tree2mb => all_ones(&self.tree_2mb, start_idx),
            TreeType::Tree1gb => all_ones(&self.tree_1gb, start_idx),
        }
    }

    /// Reads the bit of `tree` at `level` under huge block `l1_block_idx`,
    /// big block `l2_block_idx` of it and page `l3_block_idx` of that.
    pub fn get_bit_level_block_levels_index(
        &self,
        tree_type: TreeType,
        level: Level,
        l1_block_idx: usize,
        l2_block_idx: usize,
        l3_block_idx: usize,
    ) -> (r: bool)
        requires
            self.wf(),
            level_exists(tree_type, level),
            l1_block_idx < self.gb(),
            l2_block_idx < 512,
            l3_block_idx < 512,
        ensures
            r == self.tree_bit(tree_type, level, 262144 * l1_block_idx + 512 * l2_block_idx + l3_block_idx),
    {
        let ghost index = 262144 * l1_block_idx + 512 * l2_block_idx + l3_block_idx;
        proof {
            lemma_in_huge(index, l1_block_idx as int);
            lemma_in_big(index, 512 * l1_block_idx + l2_block_idx);
        }
        let g = self.nb_gb;
        let b = 512 * l1_block_idx + l2_block_idx;
        let j = match level {
            Level::Level1 => l1_block_idx,
            Level::Level2 => 512 + b,
            Level::Level3 => 512 + 512 * g + 512 * b + l3_block_idx,
        };
        match tree_type {
            TreeType::Tree4kb => get_bit(&self.tree_4kb, j),
            TreeType::Tree2mb => get_bit(&self.tree_2mb, j),
            TreeType::Tree1gb => get_bit(&self.tree_1gb, j),
        }
    }

    /// Reads the bit of `tree` at `level` that covers small page `index`.
    pub fn get_bit_level_index(&self, tree_type: TreeType, level: Level, index: usize) -> (r: bool)
        requires
            self.wf(),
            level_exists(tree_type, level),
            index < self.nb_pages(),
        ensures
            r == self.tree_bit(tree_type, level, index as int),
    {
        let l3_block_idx = index % 512;
        let l2_block_idx = (index / 512) % 512;
        let l1_block_idx = index / 262144;
        proof {
            lemma_index_split(index as int);
            vstd::arithmetic::div_mod::lemma_fundamental_div_mod(index as int / 512, 512);
            vstd::arithmetic::div_mod::lemma_mod_bound(index as int / 512, 512);
            assert(index / 512 == 512 * l1_block_idx + l2_block_idx);
            assert(index == 262144 * l1_block_idx + 512 * l2_block_idx + l3_block_idx);
        }
        self.get_bit_level_block_levels_index(tree_type, level, l1_block_idx, l2_block_idx, l3_block_idx)
    }

    /// What the integrity sweep checks at small page `i`: the tag is aligned
    /// and lies inside no live block, the page's own bit tells whether it is
    /// a frame, and a handed-out page or block has the bits that cover it
    /// cleared in each tree.
    pub open spec fn page_consistent(&self, i: int) -> bool {
        let p = self@;
        &&& tag_ok(p, i)
        &&& self.tree_bit(TreeType::Tree4kb, Level::Level3, i) == (p[i] != PageType::Frame)
        &&& p[i] == PageType::Frame ==> {
            &&& !self.tree_bit(TreeType::Tree2mb, Level::Level2, i)
            &&& !self.tree_bit(TreeType::Tree1gb, Level::Level1, i)
        }
        &&& p[i] == PageType::Big ==> {
            &&& !self.tree_bit(TreeType::Tree4kb, Level::Level2, i)
            &&& !self.tree_bit(TreeType::Tree2mb, Level::Level2, i)
            &&& !self.tree_bit(TreeType::Tree1gb, Level::Level1, i)
        }
        &&& p[i] == PageType::Huge ==> {
            &&& !self.tree_bit(TreeType::Tree4kb, Level::Level1, i)
            &&& !self.tree_bit(TreeType::Tree2mb, Level::Level1, i)
            &&& !self.tree_bit(TreeType::Tree1gb, Level::Level1, i)
        }
        &&& self.tree_bit(TreeType::Tree1gb, Level::Level1, i) ==> self.tree_bit(TreeType::Tree2mb, Level::Level2, i)
    }

    /// Every page of a consistent allocator passes the integrity sweep.
    pub proof fn lemma_page_consistent(&self, i: int)
        requires
            self.wf(),
            0 <= i < self.nb_pages(),
        ensures
            self.page_consistent(i),
    {
        let p = self@;
        let g = self.gb();
        let b = i / 512;
        let h = i / 262144;
        lemma_index_split(i);
        assert(tag_ok(p, i));
        assert(leaf_bit(self.tree_4kb@, g, i) == (p[i] != PageType::Frame));
        assert(mid_bit(self.tree_4kb@, b) == frame_slot_in_big(p, b));
        assert(mid_bit(self.tree_2mb@, b) == big_slot(p, b));
        assert(top_bit(self.tree_4kb@, h) == (h < g && frame_slot_in_huge(p, h)));
        assert(top_bit(self.tree_2mb@, h) == (h < g && big_slot_in_huge(p, h)));
        assert(top_bit(self.tree_1gb@, h) == (h < g && huge_slot(p, h)));
        if p[i] == PageType::Big {
            lemma_in_big(i, b);
        }
        if p[i] == PageType::Huge {
            lemma_in_huge(i, h);
        }
        if huge_slot(p, h) {
            assert(big_slot(p, b));
        }
    }

    /// Sweeps the tag array and checks each page against the trees as
    /// `page_consistent` says. In a consistent allocator every check passes,
    /// so the result is always `true`.
    pub fn check_integrity(&self) -> (r: bool)
        requires
            self.wf(),
        ensures
            r == forall|i: int| 0 <= i < self.nb_pages() ==> #[trigger] self.page_consistent(i),
            r,
    {
        let n = self.allocator_state.len();
        let mut i: usize = 0;
        while i < n
            invariant
                self.wf(),
                n == self.nb_pages(),
                i <= n,
            decreases n - i,
        {
            proof {
                self.lemma_page_consistent(i as int);
                lemma_index_split(i as int);
            }
            let tag = self.allocator_state[i];
            let aligned = match tag {
                PageType::Big => i % 512 == 0,
                PageType::Huge => i % 262144 == 0,
                _ => true,
            };
            let outside_big = tag == PageType::Free || i % 512 == 0
                || self.allocator_state[i - i % 512] != PageType::Big;
            let outside_huge = tag == PageType::Free || i % 262144 == 0
                || self.allocator_state[i - i % 262144] != PageType::Huge;
            let leaf = self.get_bit_level_index(TreeType::Tree4kb, Level::Level3, i);
            let mid_4kb = self.get_bit_level_index(TreeType::Tree4kb, Level::Level2, i);
            let top_4kb = self.get_bit_level_index(TreeType::Tree4kb, Level::Level1, i);
            let mid_2mb = self.get_bit_level_index(TreeType::Tree2mb, Level::Level2, i);
            let top_2mb = self.get_bit_level_index(TreeType::Tree2mb, Level::Level1, i);
            let top_1gb = self.get_bit_level_index(TreeType::Tree1gb, Level::Level1, i);
            let bits_ok = match tag {
                PageType::Free => leaf,
                PageType::Frame => !leaf && !mid_2mb && !top_1gb,
                PageType::Big => leaf && !mid_4kb && !mid_2mb && !top_1gb,
                PageType::Huge => leaf && !top_4kb && !top_2mb && !top_1gb,
            };
            if !aligned || !outside_big || !outside_huge || !bits_ok || (top_1gb && !mid_2mb) {
                return false;
            }
            i += 1;
        }
        proof {
            assert forall|i: int| 0 <= i < self.nb_pages() implies #[trigger] self.page_consistent(i) by {
                self.lemma_page_consistent(i);
            }
        }
        true
    }

    /// Counts the huge blocks, big blocks and pages that are still free, in
    /// that order, by one sweep of the tag array: see `free_stat`.
    pub fn stat_free_memory(&self) -> (r: (u64, u64, u64))
        requires
            self.wf(),
        ensures
            (r.0 as int, r.1 as int, r.2 as int) == free_stat(self@),
    {
        let mut nb_4kb: u64 = 0;
        let mut nb_2mb: u64 = 0;
        let mut nb_1gb: u64 = 0;
        let mut num_free: u64 = 0;
        let n = self.allocator_state.len();
        let mut i: usize = 0;
        while i < n
            invariant
                self.wf(),
                n == self@.len(),
                n == self.nb_pages(),
                i <= n,
                stat_from(self@, i as int, num_free as int, (nb_1gb as int, nb_2mb as int, nb_4kb as int))
                    == free_stat(self@),
                262144 * nb_1gb + 512 * nb_2mb + nb_4kb + num_free <= i,
            decreases n - i,
        {
            let ghost p = self@;
            proof {
                lemma_split_run(num_free as int);
                lemma_index_split(i as int);
                assert(tag_ok(p, i as int));
            }
            match self.allocator_state[i] {
                PageType::Frame => {
                    let (a, b, c) = stat_free_memory(num_free);
                    nb_1gb += a;
                    nb_2mb += b;
                    nb_4kb += c;
                    num_free = 0;
                    i += 1;
                },
                PageType::Big => {
                    let (a, b, c) = stat_free_memory(num_free);
                    nb_1gb += a;
                    nb_2mb += b;
                    nb_4kb += c;
                    num_free = 0;
                    i += 512;
                },
                PageType::Huge => {
                    let (a, b, c) = stat_free_memory(num_free);
                    nb_1gb += a;
                    nb_2mb += b;
                    nb_4kb += c;
                    num_free = 0;
                    i += 262144;
                },
                PageType::Free => {
                    if (i as u64) % 512 != num_free % 512 {
                        nb_4kb += 1;
                    } else {
                        num_free += 1;
                    }
                    i += 1;
                },
            }
        }
        proof {
            lemma_split_run(num_free as int);
        }
        let (a, b, c) = stat_free_memory(num_free);
        (nb_1gb + a, nb_2mb + b, nb_4kb + c)
    }

    /// The tag array of a consistent allocator covers all its pages and
    /// keeps the tag layout.
    pub proof fn lemma_view_layout(&self)
        requires
            self.wf(),
        ensures
            self@.len() == self.nb_pages(),
            tags_ok(self@),
            1 <= self.gb() <= 512,
    {
    }

    /// Once every handed-out index has been released no tag is left, and the
    /// free counts are those of a new allocator: every huge block, and
    /// nothing smaller.
    pub proof fn lemma_untagged_counts(&self)
        requires
            self.wf(),
            forall|i: int| 0 <= i < self.nb_pages() ==> self@[i] == PageType::Free,
        ensures
            free_stat(self@) == (self.gb(), 0int, 0int),
    {
        lemma_stat_untagged(self@, self.gb());
    }

    /// A page without a tag has its bit set in level 3 of the small-page
    /// tree.
    pub proof fn lemma_untagged_page_bit_set(&self, i: int)
        requires
            self.wf(),
            0 <= i < self.nb_pages(),
            self@[i] == PageType::Free,
        ensures
            self.tree_bit(TreeType::Tree4kb, Level::Level3, i),
    {
        self.lemma_page_consistent(i);
    }

    /// A handed-out frame, big block or huge block has the covering bit
    /// cleared in every tree at each level from its own granularity up.
    pub proof fn lemma_handed_out_bits_clear(&self, i: int)
        requires
            self.wf(),
            0 <= i < self.nb_pages(),
        ensures
            self@[i] == PageType::Frame ==> {
                &&& !self.tree_bit(TreeType::Tree4kb, Level::Level3, i)
                &&& !self.tree_bit(TreeType::Tree2mb, Level::Level2, i)
                &&& !self.tree_bit(TreeType::Tree1gb, Level::Level1, i)
            },
            self@[i] == PageType::Big ==> {
                &&& !self.tree_bit(TreeType::Tree4kb, Level::Level2, i)
                &&& !self.tree_bit(TreeType::Tree2mb, Level::Level2, i)
                &&& !self.tree_bit(TreeType::Tree1gb, Level::Level1, i)
            },
            self@[i] == PageType::Huge ==> {
                &&& !self.tree_bit(TreeType::Tree4kb, Level::Level1, i)
                &&& !self.tree_bit(TreeType::Tree2mb, Level::Level1, i)
                &&& !self.tree_bit(TreeType::Tree1gb, Level::Level1, i)
            },
    {
        self.lemma_page_consistent(i);
    }

    /// Level 1 of the huge-page tree is contained in level 1 of the big-page
    /// tree, which is contained in level 1 of the small-page tree; likewise
    /// level 2 of the big-page tree in level 2 of the small-page tree.
    pub proof fn lemma_trees_nested(&self, i: int)
        requires
            self.wf(),
            0 <= i < self.nb_pages(),
        ensures
            self.tree_bit(TreeType::Tree1gb, Level::Level1, i) ==> self.tree_bit(TreeType::Tree2mb, Level::Level1, i),
            self.tree_bit(TreeType::Tree2mb, Level::Level1, i) ==> self.tree_bit(TreeType::Tree4kb, Level::Level1, i),
            self.tree_bit(TreeType::Tree2mb, Level::Level2, i) ==> self.tree_bit(TreeType::Tree4kb, Level::Level2, i),
    {
        let p = self@;
        let g = self.gb();
        let b = i / 512;
        let h = i / 262144;
        lemma_index_split(i);
        assert(mid_bit(self.tree_4kb@, b) == frame_slot_in_big(p, b));
        assert(mid_bit(self.tree_2mb@, b) == big_slot(p, b));
        assert(top_bit(self.tree_4kb@, h) == (h < g && frame_slot_in_huge(p, h)));
        assert(top_bit(self.tree_2mb@, h) == (h < g && big_slot_in_huge(p, h)));
        assert(top_bit(self.tree_1gb@, h) == (h < g && huge_slot(p, h)));
        if big_slot(p, b) {
            assert(p[512 * b] != PageType::Frame);
        }
        if huge_slot(p, h) {
            assert(big_slot(p, 512 * h));
        }
        if big_slot_in_huge(p, h) {
            let c = choose|c: int| 512 * h <= c < 512 * h + 512 && #[trigger] big_slot(p, c);
            assert(p[512 * c] != PageType::Frame);
            assert(frame_slot_in_big(p, c));
        }
    }

    /// Creates an allocator over `nb_gb` huge blocks with every page free.
    pub fn new(nb_gb: usize) -> (r: Self)
        requires
            1 <= nb_gb <= 512,
        ensures
            r.wf(),
            r.gb() == nb_gb,
            r@ == Seq::new((262144 * nb_gb) as nat, |i: int| PageType::Free),
    {
        let g = nb_gb;
        let tree_4kb = new_tree(g, 8 + 8 * g + 4096 * g);
        let tree_2mb = new_tree(g, 8 + 8 * g);
        let tree_1gb = new_tree(g, 8);
        let allocator_state = vec![PageType::Free; 262144 * g];
        let r = BuddyAllocator { nb_gb, tree_4kb, tree_2mb, tree_1gb, allocator_state };
        proof {
            let p = r.allocator_state@;
            let gi = g as int;
            assert forall|i: int| 0 <= i < p.len() implies p[i] == PageType::Free by {}
            assert forall|i: int| 0 <= i < p.len() implies #[trigger] tag_ok(p, i) by {}
            assert forall|b: int| 0 <= b < 512 * gi implies #[trigger] frame_slot_in_big(p, b)
                && big_slot(p, b) by {
                lemma_in_big(512 * b, b);
                assert(p[512 * b] == PageType::Free);
            }
            assert forall|h: int| 0 <= h < gi implies frame_slot_in_huge(p, h) && big_slot_in_huge(p, h)
                && huge_slot(p, h) by {
                assert(frame_slot_in_big(p, 512 * h));
                assert(big_slot(p, 512 * h));
                assert(p[262144 * h] == PageType::Free);
            }
            assert(p =~= Seq::new((262144 * nb_gb) as nat, |i: int| PageType::Free));
        }
        r
    }
}

} // verus!
