use crate::color::{color_key, lemma_color_key_injective, Color};
use std::collections::HashMap;
use vstd::prelude::*;

verus! {

broadcast use vstd::std_specs::hash::group_hash_axioms;

/// A distinct color and how many pixels have it.
#[derive(Clone, Copy, Debug, PartialEq, Eq, Structural)]
pub struct ColorCount {
    pub color: Color,
    pub count: usize,
}

/// How many of the first `n` pixels have color `c`.
pub open spec fn occurrences_upto(pixels: Seq<Color>, c: Color, n: int) -> int
    decreases n,
{
    if n <= 0 {
        0
    } else {
        occurrences_upto(pixels, c, n - 1) + if pixels[n - 1] == c {
            1int
        } else {
            0int
        }
    }
}

/// How many pixels have color `c`.
pub open spec fn occurrences(pixels: Seq<Color>, c: Color) -> int {
    occurrences_upto(pixels, c, pixels.len() as int)
}

/// Whether `entries` lists each color of `pixels` once, with its number of
/// pixels, and nothing else.
pub open spec fn is_tally_of(entries: Seq<ColorCount>, pixels: Seq<Color>) -> bool {
    &&& forall|t: int|
        0 <= t < entries.len() ==> (#[trigger] entries[t]).count == occurrences(
            pixels,
            entries[t].color,
        ) && entries[t].count >= 1
    &&& forall|t: int, u: int|
        0 <= t < entries.len() && 0 <= u < entries.len() && t != u ==> (#[trigger] entries[t]).color
            != (#[trigger] entries[u]).color
    &&& forall|c: Color|
        #[trigger] occurrences(pixels, c) > 0 ==> exists|t: int|
            0 <= t < entries.len() && (#[trigger] entries[t]).color == c
}

proof fn lemma_occurrences_bound(pixels: Seq<Color>, c: Color, n: int)
    requires
        0 <= n <= pixels.len(),
    ensures
        0 <= occurrences_upto(pixels, c, n) <= n,
    decreases n,
{
    if n > 0 {
        lemma_occurrences_bound(pixels, c, n - 1);
    }
}

/// Counts the pixels of each distinct color.
pub fn tally(pixels: &Vec<Color>) -> (entries: Vec<ColorCount>)
    ensures
        is_tally_of(entries@, pixels@),
{
    let n = pixels.len();
    let mut index: HashMap<u32, usize> = HashMap::new();
    let mut entries: Vec<ColorCount> = Vec::new();
    let mut i: usize = 0;
    while i < n
        invariant
            i <= n,
            n == pixels@.len(),
            forall|t: int|
                0 <= t < entries@.len() ==> {
                    &&& index@.contains_key(color_key((#[trigger] entries@[t]).color) as u32)
                    &&& index@[color_key(entries@[t].color) as u32] == t
                    &&& entries@[t].count == occurrences_upto(pixels@, entries@[t].color, i as int)
                    &&& entries@[t].count >= 1
                },
            forall|k: u32|
                #[trigger] index@.contains_key(k) ==> index@[k] < entries@.len() && color_key(
                    entries@[index@[k] as int].color,
                ) == k,
            forall|c: Color|
                #[trigger] occurrences_upto(pixels@, c, i as int) > 0 ==> index@.contains_key(
                    color_key(c) as u32,
                ),
        decreases n - i,
    {
        let p = pixels[i];
        let key = p.to_key();
        proof {
            lemma_color_key_injective(p, p);
        }
        let ghost old_entries = entries@;
        let ghost old_index = index@;
        match index.get(&key) {
            Some(t) => {
                let t = *t;
                let e = entries[t];
                proof {
                    lemma_color_key_injective(e.color, p);
                    lemma_occurrences_bound(pixels@, p, i as int);
                }
                entries.set(t, ColorCount { color: e.color, count: e.count + 1 });
            },
            None => {
                proof {
                    lemma_occurrences_bound(pixels@, p, i as int);
                }
                index.insert(key, entries.len());
                entries.push(ColorCount { color: p, count: 1 });
            },
        }
        proof {
            assert forall|t: int| 0 <= t < entries@.len() implies {
                &&& index@.contains_key(color_key((#[trigger] entries@[t]).color) as u32)
                &&& index@[color_key(entries@[t].color) as u32] == t
                &&& entries@[t].count == occurrences_upto(pixels@, entries@[t].color, i + 1)
                &&& entries@[t].count >= 1
            } by {
                lemma_color_key_injective(entries@[t].color, p);
                if t < old_entries.len() {
                    assert(old_index.contains_key(color_key(old_entries[t].color) as u32));
                }
            }
            assert forall|k: u32| #[trigger] index@.contains_key(k) implies index@[k]
                < entries@.len() && color_key(entries@[index@[k] as int].color) == k by {
                if old_index.contains_key(k) {
                    assert(old_index[k] < old_entries.len());
                }
            }
            assert forall|c: Color| #[trigger]
                occurrences_upto(pixels@, c, i + 1) > 0 implies index@.contains_key(
                color_key(c) as u32,
            ) by {
                lemma_color_key_injective(c, c);
                if c != p {
                    assert(occurrences_upto(pixels@, c, i as int) > 0);
                }
            }
        }
        i = i + 1;
    }
    proof {
        assert forall|t: int, u: int|
            0 <= t < entries@.len() && 0 <= u < entries@.len() && t != u implies (
            #[trigger] entries@[t]).color != (#[trigger] entries@[u]).color by {
            assert(index@[color_key(entries@[t].color) as u32] == t);
            assert(index@[color_key(entries@[u].color) as u32] == u);
        }
        assert forall|c: Color| #[trigger] occurrences(pixels@, c) > 0 implies exists|t: int|
            0 <= t < entries@.len() && (#[trigger] entries@[t]).color == c by {
            lemma_color_key_injective(c, c);
            let k = color_key(c) as u32;
            let t = index@[k] as int;
            lemma_color_key_injective(entries@[t].color, c);
            assert(entries@[t].color == c);
        }
    }
    entries
}

/// The colors of a tally, in its order; distinct when the tally's are.
pub fn tally_colors(entries: &Vec<ColorCount>) -> (colors: Vec<Color>)
    ensures
        colors@.len() == entries@.len(),
        forall|t: int| 0 <= t < entries@.len() ==> colors@[t] == (#[trigger] entries@[t]).color,
        (forall|t: int, u: int|
            0 <= t < entries@.len() && 0 <= u < entries@.len() && t != u ==> (
            #[trigger] entries@[t]).color != (#[trigger] entries@[u]).color)
            ==> colors@.no_duplicates(),
{
    let mut colors: Vec<Color> = Vec::new();
    let mut i: usize = 0;
    while i < entries.len()
        invariant
            i <= entries@.len(),
            colors@.len() == i,
            forall|t: int| 0 <= t < i ==> colors@[t] == (#[trigger] entries@[t]).color,
        decreases entries@.len() - i,
    {
        colors.push(entries[i].color);
        i = i + 1;
    }
    proof {
        assert forall|t: int, u: int|
            0 <= t < entries@.len() && 0 <= u < entries@.len() && t != u && entries@[t].color
                != entries@[u].color implies colors@[t] != colors@[u] by {}
    }
    colors
}

} // verus!
