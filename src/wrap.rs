//! Greedy word wrapping of a text at a fixed pixel size.
use vstd::prelude::*;

use crate::atlas::{lemma_grows_refl, lemma_grows_trans, FontAtlas, GlyphKey, GlyphMetrics, Rasterizer};
use crate::geometry::{clamp, sat_add};

verus! {

/// Pixel size at which text is rasterized.
pub const PX: u16 = 60;

/// Height of one line of text, and the gap between stacked children.
pub const LH: i64 = 80;

/// Space added after each word.
pub const WS: i64 = 30;

/// Unicode's White_Space property.
pub open spec fn white_space(c: char) -> bool {
    let u = c as u32;
    ||| 9 <= u <= 13
    ||| u == 0x20
    ||| u == 0x85
    ||| u == 0xa0
    ||| u == 0x1680
    ||| 0x2000 <= u <= 0x200a
    ||| u == 0x2028
    ||| u == 0x2029
    ||| u == 0x202f
    ||| u == 0x205f
    ||| u == 0x3000
}

pub fn is_white(c: char) -> (r: bool)
    ensures
        r == white_space(c),
{
    let u = c as u32;
    (9 <= u && u <= 13) || u == 0x20 || u == 0x85 || u == 0xa0 || u == 0x1680 || (0x2000 <= u && u
        <= 0x200a) || u == 0x2028 || u == 0x2029 || u == 0x202f || u == 0x205f || u == 0x3000
}

/// The advance of `c` at [`PX`] in a glyph table, zero when absent.
pub open spec fn advance(m: Map<GlyphKey, GlyphMetrics>, c: char) -> int {
    if m.contains_key((c, PX)) {
        m[(c, PX)].advance_width as int
    } else {
        0
    }
}

/// Whether the table holds every non-space character of `s[..n]`.
pub open spec fn covered(s: Seq<char>, m: Map<GlyphKey, GlyphMetrics>, n: int) -> bool {
    forall|j: int| 0 <= j < n && !white_space(s[j]) ==> #[trigger] m.contains_key((s[j], PX))
}

/// Where word wrapping stands after a prefix of the text.
#[derive(Clone, Copy, Debug, PartialEq, Eq, Structural)]
pub struct WrapState {
    /// Width taken on the current row.
    pub row: i64,
    /// Height of all rows so far, the current one included.
    pub height: i64,
    /// Width of the word being read.
    pub word: i64,
    /// Whether a word is being read.
    pub in_word: bool,
}

pub open spec fn wrap_start() -> WrapState {
    WrapState { row: 0, height: LH, word: 0, in_word: false }
}

/// Ends the current word: it stays on the row when the row, the word and a
/// space fit into `width`, else it starts a new row.
pub open spec fn word_end(st: WrapState, width: int) -> WrapState {
    if !st.in_word {
        st
    } else if clamp(clamp(st.row + st.word) + WS) > width {
        WrapState { row: st.word, height: clamp(st.height + LH) as i64, word: 0, in_word: false }
    } else {
        WrapState { row: clamp(clamp(st.row + st.word) + WS) as i64, height: st.height, word: 0, in_word: false }
    }
}

/// The wrapping state after the first `n` characters of `s`.
pub open spec fn wrap_prefix(s: Seq<char>, width: int, m: Map<GlyphKey, GlyphMetrics>, n: nat) -> WrapState
    decreases n,
{
    if n == 0 {
        wrap_start()
    } else {
        let st = wrap_prefix(s, width, m, (n - 1) as nat);
        let c = s[n - 1];
        if white_space(c) {
            word_end(st, width)
        } else {
            WrapState { word: clamp(st.word + advance(m, c)) as i64, in_word: true, ..st }
        }
    }
}

/// The height of `s` wrapped into `width`: one line height per row.
pub open spec fn text_height(s: Seq<char>, width: int, m: Map<GlyphKey, GlyphMetrics>) -> int {
    word_end(wrap_prefix(s, width, m, s.len()), width).height as int
}

/// The number of characters of `s` that are not white space.
pub open spec fn glyph_count(s: Seq<char>) -> nat
    decreases s.len(),
{
    if s.len() == 0 {
        0
    } else {
        glyph_count(s.drop_last()) + if white_space(s.last()) {
            0nat
        } else {
            1nat
        }
    }
}

pub proof fn lemma_glyph_count_step(s: Seq<char>, k: int)
    requires
        0 <= k < s.len(),
    ensures
        glyph_count(s.take(k + 1)) == glyph_count(s.take(k)) + if white_space(s[k]) {
            0nat
        } else {
            1nat
        },
{
    assert(s.take(k + 1).drop_last() =~= s.take(k));
}

/// Wrapping reads the table only at the characters of the text.
pub proof fn lemma_wrap_ext(
    s: Seq<char>,
    width: int,
    m1: Map<GlyphKey, GlyphMetrics>,
    m2: Map<GlyphKey, GlyphMetrics>,
    n: nat,
)
    requires
        n <= s.len(),
        m1.submap_of(m2),
        covered(s, m1, n as int),
    ensures
        wrap_prefix(s, width, m1, n) == wrap_prefix(s, width, m2, n),
    decreases n,
{
    if n > 0 {
        lemma_wrap_ext(s, width, m1, m2, (n - 1) as nat);
        let c = s[n - 1];
        if !white_space(c) {
            assert(m1.contains_key((c, PX)));
            assert(m2.contains_key((c, PX)));
        }
    }
}

pub fn end_word(st: WrapState, width: i64) -> (r: WrapState)
    ensures
        r == word_end(st, width as int),
{
    if !st.in_word {
        st
    } else if sat_add(sat_add(st.row, st.word), WS) > width {
        WrapState { row: st.word, height: sat_add(st.height, LH), word: 0, in_word: false }
    } else {
        WrapState { row: sat_add(sat_add(st.row, st.word), WS), height: st.height, word: 0, in_word: false }
    }
}

/// The height that `s` takes when wrapped into `width`, rasterizing its
/// glyphs at [`PX`] as needed. The result holds for every table that
/// extends the atlas's final one.
pub fn measure_text<R: Rasterizer>(s: &Vec<char>, width: i64, atlas: &mut FontAtlas<R>) -> (h: i64)
    requires
        old(atlas).wf(),
    ensures
        final(atlas).wf(),
        old(atlas).grows_to(*final(atlas)),
        old(atlas).table().submap_of(final(atlas).table()),
        covered(s@, final(atlas).table(), s@.len() as int),
        forall|m: Map<GlyphKey, GlyphMetrics>|
            final(atlas).table().submap_of(m) ==> h == #[trigger] text_height(s@, width as int, m),
{
    let mut st = WrapState { row: 0, height: LH, word: 0, in_word: false };
    let mut i: usize = 0;
    proof {
        lemma_grows_refl(*atlas);
    }
    while i < s.len()
        invariant
            old(atlas).wf(),
            atlas.wf(),
            old(atlas).grows_to(*atlas),
            old(atlas).table().submap_of(atlas.table()),
            i <= s.len(),
            covered(s@, atlas.table(), i as int),
            st == wrap_prefix(s@, width as int, atlas.table(), i as nat),
        decreases s.len() - i,
    {
        let c = s[i];
        if is_white(c) {
            st = end_word(st, width);
        } else {
            let ghost before = *atlas;
            let size = atlas.size(c, PX);
            proof {
                lemma_wrap_ext(s@, width as int, before.table(), atlas.table(), i as nat);
                lemma_grows_trans(*old(atlas), before, *atlas);
                assert forall|j: int| 0 <= j < i + 1 && !white_space(s@[j]) implies #[trigger] atlas.table().contains_key((s@[j], PX)) by {
                    if j < i {
                        assert(before.table().contains_key((s@[j], PX)));
                    }
                }
            }
            st = WrapState { word: sat_add(st.word, size.x), in_word: true, ..st };
        }
        i += 1;
    }
    let fin = end_word(st, width);
    proof {
        assert forall|m: Map<GlyphKey, GlyphMetrics>|
            atlas.table().submap_of(m) implies fin.height == #[trigger] text_height(s@, width as int, m) by {
            lemma_wrap_ext(s@, width as int, atlas.table(), m, s@.len() as nat);
        }
    }
    fin.height
}

} // verus!
