//! Atlas lookups for text measurement: the glyph record of a codepoint and
//! the kerning adjustment of a pair, both binary searches over the atlas's
//! sorted tables.

use vstd::prelude::*;
use crate::reader::glyph::{atlas_spec, atlases_items_spec, atlases_spec, kerning_spec, pair_less, Atlas, AtlasView, GlyphRecord, KerningPair};

verus! {

/// Glyph records sorted strictly by codepoint.
pub open spec fn glyphs_sorted(glyphs: Seq<GlyphRecord>) -> bool {
    forall|i: int, j: int| 0 <= i < j < glyphs.len() ==> glyphs[i].codepoint < glyphs[j].codepoint
}

/// Kerning pairs sorted strictly by (left, right).
pub open spec fn pairs_sorted(pairs: Seq<KerningPair>) -> bool {
    forall|i: int, j: int| 0 <= i < j < pairs.len() ==> pair_less(pairs[i].left, pairs[i].right, pairs[j].left, pairs[j].right)
}

/// The glyph record for a codepoint, or `None` when the atlas has none.
///
/// Glyph records are sorted by codepoint, so the lookup is a binary search.
/// A record that is found has the codepoint; on sorted records, `None`
/// means no record has it.
pub fn glyph_for(atlas: &Atlas, codepoint: u32) -> (r: Option<&GlyphRecord>)
    ensures
        match r {
            Some(g) => g.codepoint == codepoint && atlas.glyphs@.contains(*g),
            None => glyphs_sorted(atlas.glyphs@) ==> forall|i: int| 0 <= i < atlas.glyphs@.len() ==> atlas.glyphs@[i].codepoint != codepoint,
        },
{
    let glyphs = &atlas.glyphs;
    let mut lo: usize = 0;
    let mut hi: usize = glyphs.len();
    while lo < hi
        invariant
            glyphs@ == atlas.glyphs@,
            lo <= hi <= glyphs@.len(),
            glyphs_sorted(glyphs@) ==> forall|k: int| 0 <= k < lo ==> glyphs@[k].codepoint < codepoint,
            glyphs_sorted(glyphs@) ==> forall|k: int| hi <= k < glyphs@.len() ==> glyphs@[k].codepoint > codepoint,
        decreases hi - lo,
    {
        let mid = lo + (hi - lo) / 2;
        let c = glyphs[mid].codepoint;
        if c == codepoint {
            assert(atlas.glyphs@[mid as int] == glyphs[mid as int]);
            return Some(&glyphs[mid]);
        } else if c < codepoint {
            lo = mid + 1;
        } else {
            hi = mid;
        }
    }
    None
}

/// The kerning adjustment (an `f32` bit pattern, em units) for a pair, or
/// `None` when the atlas has no pair for `(left, right)`.
///
/// Kerning pairs are sorted by (left, right), so the lookup is a binary
/// search. A found adjustment is that of a pair for `(left, right)`; on
/// sorted pairs, `None` means there is none.
pub fn kerning_adjust(atlas: &Atlas, left: u32, right: u32) -> (r: Option<u32>)
    ensures
        match r {
            Some(a) => exists|i: int| 0 <= i < atlas.kerning@.len() && #[trigger] atlas.kerning@[i].left == left
                && atlas.kerning@[i].right == right && atlas.kerning@[i].adjust == a,
            None => pairs_sorted(atlas.kerning@) ==> forall|i: int| 0 <= i < atlas.kerning@.len() ==> !(atlas.kerning@[i].left
                == left && atlas.kerning@[i].right == right),
        },
{
    let pairs = &atlas.kerning;
    let mut lo: usize = 0;
    let mut hi: usize = pairs.len();
    while lo < hi
        invariant
            pairs@ == atlas.kerning@,
            lo <= hi <= pairs@.len(),
            pairs_sorted(pairs@) ==> forall|k: int| 0 <= k < lo ==> pair_less(pairs@[k].left, pairs@[k].right, left, right),
            pairs_sorted(pairs@) ==> forall|k: int| hi <= k < pairs@.len() ==> pair_less(left, right, pairs@[k].left, pairs@[k].right),
        decreases hi - lo,
    {
        let mid = lo + (hi - lo) / 2;
        let p = pairs[mid];
        if p.left == left && p.right == right {
            assert(atlas.kerning@[mid as int] == p);
            return Some(p.adjust);
        } else if p.left < left || (p.left == left && p.right < right) {
            proof {
                if pairs_sorted(pairs@) {
                    assert forall|k: int| 0 <= k < mid + 1 implies pair_less(pairs@[k].left, pairs@[k].right, left, right) by {
                        if k < mid {
                            assert(pair_less(pairs@[k].left, pairs@[k].right, p.left, p.right));
                        }
                    }
                }
            }
            lo = mid + 1;
        } else {
            proof {
                if pairs_sorted(pairs@) {
                    assert forall|k: int| mid <= k < pairs@.len() implies pair_less(left, right, pairs@[k].left, pairs@[k].right) by {
                        if k > mid {
                            assert(pair_less(p.left, p.right, pairs@[k].left, pairs@[k].right));
                        }
                    }
                }
            }
            hi = mid;
        }
    }
    None
}

/// Decoded kerning pairs are strictly sorted.
proof fn lemma_kerning_sorted(p: Seq<u8>, start: int, n: nat)
    requires
        kerning_spec(p, start, n) is Ok,
    ensures
        pairs_sorted(kerning_spec(p, start, n)->Ok_0.0),
    decreases n,
{
    if n > 0 {
        lemma_kerning_sorted(p, start, (n - 1) as nat);
        let ks = kerning_spec(p, start, (n - 1) as nat)->Ok_0.0;
        let all = kerning_spec(p, start, n)->Ok_0.0;
        assert forall|i: int, j: int| 0 <= i < j < all.len() implies pair_less(all[i].left, all[i].right, all[j].left, all[j].right) by {
            if j < ks.len() {
                assert(all[i] == ks[i] && all[j] == ks[j]);
            } else {
                assert(all[i] == ks[i]);
                if i < ks.len() - 1 {
                    assert(pair_less(ks[i].left, ks[i].right, ks.last().left, ks.last().right));
                }
            }
        }
    }
}

/// Every atlas among the first `n` decoded has strictly sorted pairs.
proof fn lemma_items_sorted(p: Seq<u8>, n: nat)
    requires
        atlases_items_spec(p, n) is Ok,
    ensures
        forall|i: int| 0 <= i < atlases_items_spec(p, n)->Ok_0.0.len() ==> pairs_sorted(
            (#[trigger] atlases_items_spec(p, n)->Ok_0.0[i]).kerning,
        ),
    decreases n,
{
    if n > 0 {
        lemma_items_sorted(p, (n - 1) as nat);
        let (items, pos) = atlases_items_spec(p, (n - 1) as nat)->Ok_0;
        reveal(atlas_spec);
        let a: AtlasView = atlas_spec(p, pos)->Ok_0.0;
        let (head, gpos) = crate::reader::glyph::atlas_head_spec(p, pos)->Ok_0;
        let kpos = crate::reader::glyph::glyphs_spec(p, gpos, head.glyph_count as nat, head.page_count, head.page_width, head.page_height)->Ok_0.1;
        let count = crate::reader::cursor::take_int(p, kpos, 4)->Ok_0;
        lemma_kerning_sorted(p, kpos + 4, count as nat);
        let all = atlases_items_spec(p, n)->Ok_0.0;
        assert forall|i: int| 0 <= i < all.len() implies pairs_sorted((#[trigger] all[i]).kerning) by {
            if i < items.len() {
                assert(all[i] == items[i]);
            }
        }
    }
}

/// Every atlas of a GLYF section that decodes has its kerning pairs
/// strictly sorted by `(left, right)`, so [`kerning_adjust`] on it finds a
/// pair exactly when the atlas has one.
pub proof fn lemma_decoded_kerning_is_sorted(p: Seq<u8>)
    requires
        atlases_spec(p) is Ok,
    ensures
        forall|i: int| 0 <= i < atlases_spec(p)->Ok_0.len() ==> pairs_sorted((#[trigger] atlases_spec(p)->Ok_0[i]).kerning),
{
    let count = crate::reader::cursor::take_int(p, 0, 4)->Ok_0;
    lemma_items_sorted(p, count as nat);
}

} // verus!
