use crate::color::{channel, color_key, lemma_color_key_injective, Color};
use vstd::prelude::*;
use crate::color::lemma_distance_symmetric_identity;
use vstd::set_lib::{lemma_int_range, lemma_len_subset, lemma_subset_equality, set_int_range};

verus! {

/// The number of distinct 24-bit colors: no list of distinct colors is longer.
pub const MAX_COLORS: usize = 0x100_0000;

/// The number of assignment passes after which clustering stops unconverged.
pub const MAX_ITERATIONS: u64 = 1000;

/// A running mean color, held exactly: the channel sums of its members and
/// how many members there are. The mean of a channel is its sum over `count`.
#[derive(Clone, Copy, Debug)]
pub struct Centroid {
    pub sum_r: u64,
    pub sum_g: u64,
    pub sum_b: u64,
    pub count: u64,
}

/// The channel sum of `m` selected by `ch` (0 = red, 1 = green, otherwise blue).
pub open spec fn centroid_sum(m: Centroid, ch: int) -> int {
    if ch == 0 {
        m.sum_r as int
    } else if ch == 1 {
        m.sum_g as int
    } else {
        m.sum_b as int
    }
}

impl Centroid {
    /// At least one member, no more than there are distinct colors, and
    /// channel sums that a set of 8-bit colors can have.
    pub open spec fn wf(self) -> bool {
        &&& 1 <= self.count <= MAX_COLORS
        &&& self.sum_r <= 255 * self.count
        &&& self.sum_g <= 255 * self.count
        &&& self.sum_b <= 255 * self.count
    }
}

/// The centroid of the single color `c`.
pub open spec fn singleton(c: Color) -> Centroid {
    Centroid { sum_r: c.r as u64, sum_g: c.g as u64, sum_b: c.b as u64, count: 1 }
}

/// `count` times the difference between a channel of `c` and the mean of `m`.
pub open spec fn offset(c: Color, m: Centroid, ch: int) -> int {
    m.count * channel(c, ch) - centroid_sum(m, ch)
}

/// `count²` times the squared distance from `c` to the mean of `m`.
pub open spec fn scaled_dist(c: Color, m: Centroid) -> int {
    offset(c, m, 0) * offset(c, m, 0) + offset(c, m, 1) * offset(c, m, 1) + offset(c, m, 2)
        * offset(c, m, 2)
}

/// Whether the mean of `a` is strictly nearer to `c` than the mean of `b`:
/// `scaled_dist(c, a) / a.count² < scaled_dist(c, b) / b.count²`.
pub open spec fn closer(c: Color, a: Centroid, b: Centroid) -> bool {
    scaled_dist(c, a) * (b.count * b.count) < scaled_dist(c, b) * (a.count * a.count)
}

/// The index that a scan of the first `n` centroids in index order picks:
/// a later centroid replaces the current pick only when strictly nearer.
pub open spec fn nearest_upto(c: Color, cents: Seq<Centroid>, n: int) -> int
    decreases n,
{
    if n <= 1 {
        0
    } else {
        let j = nearest_upto(c, cents, n - 1);
        if closer(c, cents[n - 1], cents[j]) {
            n - 1
        } else {
            j
        }
    }
}

/// The centroid that `c` is assigned to.
pub open spec fn nearest(c: Color, cents: Seq<Centroid>) -> int {
    nearest_upto(c, cents, cents.len() as int)
}

/// Whether `j` is the lowest index among the centroids nearest to `c`.
pub open spec fn is_first_nearest(c: Color, cents: Seq<Centroid>, j: int) -> bool {
    &&& 0 <= j < cents.len()
    &&& forall|i: int| 0 <= i < cents.len() ==> !closer(c, #[trigger] cents[i], cents[j])
    &&& forall|i: int| 0 <= i < j ==> closer(c, cents[j], #[trigger] cents[i])
}

pub open spec fn all_wf(cents: Seq<Centroid>) -> bool {
    forall|j: int| 0 <= j < cents.len() ==> (#[trigger] cents[j]).wf()
}

/// The assignment of every color to its nearest centroid.
pub open spec fn assignment(colors: Seq<Color>, cents: Seq<Centroid>) -> Seq<usize> {
    Seq::new(colors.len(), |i: int| nearest(colors[i], cents) as usize)
}

proof fn lemma_offset_bound(c: Color, m: Centroid, ch: int)
    requires
        m.wf(),
    ensures
        -0xFF00_0000 <= offset(c, m, ch) <= 0xFF00_0000,
        0 <= offset(c, m, ch) * offset(c, m, ch) <= 0xFE01_0000_0000_0000,
{
    let o = offset(c, m, ch);
    let v = channel(c, ch);
    let s = centroid_sum(m, ch);
    assert(0 <= v <= 255);
    assert(0 <= s <= 255 * m.count);
    assert(0 <= m.count * v <= 255 * m.count) by (nonlinear_arith)
        requires
            0 <= v <= 255,
            1 <= m.count,
    ;
    assert(0 <= o * o <= 0xFE01_0000_0000_0000) by (nonlinear_arith)
        requires
            -0xFF00_0000 <= o <= 0xFF00_0000,
    ;
}

proof fn lemma_scaled_dist_bound(c: Color, m: Centroid)
    requires
        m.wf(),
    ensures
        0 <= scaled_dist(c, m) <= 0x2_FA03_0000_0000_0000,
{
    lemma_offset_bound(c, m, 0);
    lemma_offset_bound(c, m, 1);
    lemma_offset_bound(c, m, 2);
}

fn scaled_distance(c: Color, m: &Centroid) -> (d: u128)
    requires
        m.wf(),
    ensures
        d as int == scaled_dist(c, *m),
{
    proof {
        lemma_offset_bound(c, *m, 0);
        lemma_offset_bound(c, *m, 1);
        lemma_offset_bound(c, *m, 2);
        assert(m.count * c.r <= 255 * m.count) by (nonlinear_arith)
            requires
                c.r <= 255,
                1 <= m.count,
        ;
        assert(m.count * c.g <= 255 * m.count) by (nonlinear_arith)
            requires
                c.g <= 255,
                1 <= m.count,
        ;
        assert(m.count * c.b <= 255 * m.count) by (nonlinear_arith)
            requires
                c.b <= 255,
                1 <= m.count,
        ;
    }
    let dr: i64 = (m.count * c.r as u64) as i64 - m.sum_r as i64;
    let dg: i64 = (m.count * c.g as u64) as i64 - m.sum_g as i64;
    let db: i64 = (m.count * c.b as u64) as i64 - m.sum_b as i64;
    let sr: i128 = dr as i128 * dr as i128;
    let sg: i128 = dg as i128 * dg as i128;
    let sb: i128 = db as i128 * db as i128;
    (sr + sg + sb) as u128
}

/// Whether the mean of `a` is strictly nearer to `c` than the mean of `b`.
pub fn is_closer(c: Color, a: &Centroid, b: &Centroid) -> (r: bool)
    requires
        a.wf(),
        b.wf(),
    ensures
        r == closer(c, *a, *b),
{
    let da = scaled_distance(c, a);
    let db = scaled_distance(c, b);
    proof {
        lemma_scaled_dist_bound(c, *a);
        lemma_scaled_dist_bound(c, *b);
        assert(a.count * a.count <= 0x1_0000_0000_0000) by (nonlinear_arith)
            requires
                1 <= a.count <= 0x100_0000,
        ;
        assert(b.count * b.count <= 0x1_0000_0000_0000) by (nonlinear_arith)
            requires
                1 <= b.count <= 0x100_0000,
        ;
        assert(da * (b.count * b.count) <= 0x2_FA03_0000_0000_0000 * 0x1_0000_0000_0000)
            by (nonlinear_arith)
            requires
                0 <= da <= 0x2_FA03_0000_0000_0000,
                0 <= b.count * b.count <= 0x1_0000_0000_0000,
        ;
        assert(db * (a.count * a.count) <= 0x2_FA03_0000_0000_0000 * 0x1_0000_0000_0000)
            by (nonlinear_arith)
            requires
                0 <= db <= 0x2_FA03_0000_0000_0000,
                0 <= a.count * a.count <= 0x1_0000_0000_0000,
        ;
    }
    let ca: u128 = a.count as u128 * a.count as u128;
    let cb: u128 = b.count as u128 * b.count as u128;
    da * cb < db * ca
}

proof fn lemma_closer_trans(c: Color, a: Centroid, b: Centroid, m: Centroid)
    requires
        a.wf(),
        b.wf(),
        m.wf(),
    ensures
        closer(c, a, b) && !closer(c, m, b) ==> closer(c, a, m),
{
    let na = scaled_dist(c, a);
    let nb = scaled_dist(c, b);
    let nm = scaled_dist(c, m);
    let da = a.count * a.count;
    let db = b.count * b.count;
    let dm = m.count * m.count;
    assert(da > 0 && db > 0 && dm > 0) by (nonlinear_arith)
        requires
            da == a.count * a.count,
            db == b.count * b.count,
            dm == m.count * m.count,
            a.count >= 1,
            b.count >= 1,
            m.count >= 1,
    ;
    assert(na * db < nb * da && nb * dm <= nm * db ==> na * dm < nm * da) by (nonlinear_arith)
        requires
            da > 0,
            db > 0,
            dm > 0,
    ;
}

proof fn lemma_nearest_upto(c: Color, cents: Seq<Centroid>, n: int)
    requires
        1 <= n <= cents.len(),
        all_wf(cents),
    ensures
        is_first_nearest(c, cents.subrange(0, n), nearest_upto(c, cents, n)),
    decreases n,
{
    let j = nearest_upto(c, cents, n);
    let s = cents.subrange(0, n);
    if n > 1 {
        lemma_nearest_upto(c, cents, n - 1);
        let p = nearest_upto(c, cents, n - 1);
        let t = cents.subrange(0, n - 1);
        assert forall|i: int| 0 <= i < n implies !closer(c, #[trigger] s[i], s[j]) by {
            if i < n - 1 {
                assert(t[i] == s[i]);
                assert(!closer(c, t[i], t[p]));
                lemma_closer_trans(c, cents[n - 1], cents[p], cents[i]);
            } else if j == p {
                assert(!closer(c, cents[n - 1], cents[p]));
            } else {
                assert(!closer(c, cents[n - 1], cents[n - 1])) by (nonlinear_arith);
            }
        }
        assert forall|i: int| 0 <= i < j implies closer(c, s[j], #[trigger] s[i]) by {
            assert(t[i] == s[i]);
            if j == p {
                assert(closer(c, t[p], t[i]));
            } else {
                assert(!closer(c, t[i], t[p]));
                lemma_closer_trans(c, cents[n - 1], cents[p], cents[i]);
            }
        }
    } else {
        assert(!closer(c, s[0], s[0])) by (nonlinear_arith);
    }
}

/// The assignment step breaks ties deterministically: a color goes to the
/// lowest-index centroid among those at minimal distance.
pub proof fn lemma_nearest_is_first_minimizer(c: Color, cents: Seq<Centroid>)
    requires
        cents.len() >= 1,
        all_wf(cents),
    ensures
        is_first_nearest(c, cents, nearest(c, cents)),
{
    lemma_nearest_upto(c, cents, cents.len() as int);
    assert(cents.subrange(0, cents.len() as int) =~= cents);
}

/// The index of the centroid nearest to `c`; on a tie, the lowest index.
pub fn nearest_centroid(c: Color, cents: &Vec<Centroid>) -> (j: usize)
    requires
        cents@.len() >= 1,
        all_wf(cents@),
    ensures
        j as int == nearest(c, cents@),
        is_first_nearest(c, cents@, j as int),
{
    let mut best: usize = 0;
    let mut i: usize = 1;
    proof {
        lemma_nearest_is_first_minimizer(c, cents@);
    }
    while i < cents.len()
        invariant
            1 <= i <= cents@.len(),
            all_wf(cents@),
            best as int == nearest_upto(c, cents@, i as int),
            0 <= best < i,
        decreases cents@.len() - i,
    {
        if is_closer(c, &cents[i], &cents[best]) {
            best = i;
        }
        i = i + 1;
    }
    best
}

/// Assigns every color to its nearest centroid.
pub fn assign_all(colors: &Vec<Color>, cents: &Vec<Centroid>) -> (a: Vec<usize>)
    requires
        cents@.len() >= 1,
        all_wf(cents@),
    ensures
        a@ == assignment(colors@, cents@),
        forall|i: int| 0 <= i < a@.len() ==> a@[i] < cents@.len(),
{
    let mut a: Vec<usize> = Vec::new();
    let mut i: usize = 0;
    while i < colors.len()
        invariant
            i <= colors@.len(),
            cents@.len() >= 1,
            all_wf(cents@),
            a@ =~= assignment(colors@, cents@).subrange(0, i as int),
            forall|t: int| 0 <= t < a@.len() ==> a@[t] < cents@.len(),
        decreases colors@.len() - i,
    {
        let j = nearest_centroid(colors[i], cents);
        a.push(j);
        i = i + 1;
    }
    a
}

/// How many of the first `n` colors are assigned to centroid `j`.
pub open spec fn member_count(assign: Seq<usize>, j: int, n: int) -> int
    decreases n,
{
    if n <= 0 {
        0
    } else {
        member_count(assign, j, n - 1) + if assign[n - 1] == j {
            1int
        } else {
            0int
        }
    }
}

/// The sum of channel `ch` over the first `n` colors assigned to centroid `j`.
pub open spec fn member_sum(colors: Seq<Color>, assign: Seq<usize>, j: int, ch: int, n: int) -> int
    decreases n,
{
    if n <= 0 {
        0
    } else {
        member_sum(colors, assign, j, ch, n - 1) + if assign[n - 1] == j {
            channel(colors[n - 1], ch)
        } else {
            0int
        }
    }
}

/// The new centroid `j`: the mean of its members, or `prev` unchanged when
/// no color is assigned to it.
pub open spec fn updated_centroid(
    colors: Seq<Color>,
    assign: Seq<usize>,
    j: int,
    prev: Centroid,
) -> Centroid {
    let n = colors.len() as int;
    let cnt = member_count(assign, j, n);
    if cnt == 0 {
        prev
    } else {
        Centroid {
            sum_r: member_sum(colors, assign, j, 0, n) as u64,
            sum_g: member_sum(colors, assign, j, 1, n) as u64,
            sum_b: member_sum(colors, assign, j, 2, n) as u64,
            count: cnt as u64,
        }
    }
}

/// The update step: every centroid recomputed from the assignment.
pub open spec fn updated(colors: Seq<Color>, assign: Seq<usize>, prev: Seq<Centroid>) -> Seq<
    Centroid,
> {
    Seq::new(prev.len(), |j: int| updated_centroid(colors, assign, j, prev[j]))
}

proof fn lemma_member_bounds(colors: Seq<Color>, assign: Seq<usize>, j: int, ch: int, n: int)
    requires
        0 <= n <= colors.len(),
        n <= assign.len(),
    ensures
        0 <= member_count(assign, j, n) <= n,
        0 <= member_sum(colors, assign, j, ch, n) <= 255 * member_count(assign, j, n),
    decreases n,
{
    if n > 0 {
        lemma_member_bounds(colors, assign, j, ch, n - 1);
    }
}

proof fn lemma_updated_wf(colors: Seq<Color>, assign: Seq<usize>, prev: Seq<Centroid>)
    requires
        colors.len() <= MAX_COLORS,
        assign.len() == colors.len(),
        all_wf(prev),
    ensures
        all_wf(updated(colors, assign, prev)),
        updated(colors, assign, prev).len() == prev.len(),
{
    assert forall|j: int| 0 <= j < prev.len() implies (#[trigger] updated(
        colors,
        assign,
        prev,
    )[j]).wf() by {
        let n = colors.len() as int;
        lemma_member_bounds(colors, assign, j, 0, n);
        lemma_member_bounds(colors, assign, j, 1, n);
        lemma_member_bounds(colors, assign, j, 2, n);
    }
}

/// The update step: each centroid becomes the mean of the colors assigned
/// to it; one that lost all its colors keeps its previous value.
pub fn update_centroids(colors: &Vec<Color>, assign: &Vec<usize>, prev: &Vec<Centroid>) -> (cents:
    Vec<Centroid>)
    requires
        colors@.len() <= MAX_COLORS,
        assign@.len() == colors@.len(),
        forall|i: int| 0 <= i < assign@.len() ==> assign@[i] < prev@.len(),
        all_wf(prev@),
    ensures
        cents@ == updated(colors@, assign@, prev@),
        all_wf(cents@),
{
    let k = prev.len();
    let n = colors.len();
    let mut counts: Vec<u64> = Vec::new();
    let mut sr: Vec<u64> = Vec::new();
    let mut sg: Vec<u64> = Vec::new();
    let mut sb: Vec<u64> = Vec::new();
    let mut j: usize = 0;
    while j < k
        invariant
            j <= k,
            k == prev@.len(),
            counts@.len() == j && sr@.len() == j && sg@.len() == j && sb@.len() == j,
            forall|t: int| 0 <= t < j ==> counts@[t] == 0 && sr@[t] == 0 && sg@[t] == 0 && sb@[t] == 0,
        decreases k - j,
    {
        counts.push(0);
        sr.push(0);
        sg.push(0);
        sb.push(0);
        j = j + 1;
    }
    let mut i: usize = 0;
    while i < n
        invariant
            i <= n,
            n == colors@.len(),
            n <= MAX_COLORS,
            k == prev@.len(),
            assign@.len() == n,
            forall|t: int| 0 <= t < n ==> assign@[t] < k,
            counts@.len() == k && sr@.len() == k && sg@.len() == k && sb@.len() == k,
            forall|t: int|
                0 <= t < k ==> {
                    &&& #[trigger] counts@[t] == member_count(assign@, t, i as int)
                    &&& sr@[t] == member_sum(colors@, assign@, t, 0, i as int)
                    &&& sg@[t] == member_sum(colors@, assign@, t, 1, i as int)
                    &&& sb@[t] == member_sum(colors@, assign@, t, 2, i as int)
                },
        decreases n - i,
    {
        let a = assign[i];
        let c = colors[i];
        proof {
            lemma_member_bounds(colors@, assign@, a as int, 0, i as int);
            lemma_member_bounds(colors@, assign@, a as int, 1, i as int);
            lemma_member_bounds(colors@, assign@, a as int, 2, i as int);
        }
        let ghost (c0, r0, g0, b0) = (counts@, sr@, sg@, sb@);
        counts.set(a, counts[a] + 1);
        sr.set(a, sr[a] + c.r as u64);
        sg.set(a, sg[a] + c.g as u64);
        sb.set(a, sb[a] + c.b as u64);
        assert forall|t: int| 0 <= t < k implies {
            &&& #[trigger] counts@[t] == member_count(assign@, t, i + 1)
            &&& sr@[t] == member_sum(colors@, assign@, t, 0, i + 1)
            &&& sg@[t] == member_sum(colors@, assign@, t, 1, i + 1)
            &&& sb@[t] == member_sum(colors@, assign@, t, 2, i + 1)
        } by {
            assert(colors@[i as int] == c);
            assert(member_count(assign@, t, i + 1) == member_count(assign@, t, i as int) + if assign@[i as int] == t {
                1int
            } else {
                0int
            });
            assert(c0[t] == member_count(assign@, t, i as int));
            assert(r0[t] == member_sum(colors@, assign@, t, 0, i as int));
            assert(g0[t] == member_sum(colors@, assign@, t, 1, i as int));
            assert(b0[t] == member_sum(colors@, assign@, t, 2, i as int));
            if t != a {
                assert(counts@[t] == c0[t] && sr@[t] == r0[t] && sg@[t] == g0[t] && sb@[t] == b0[t]);
            }
        }
        i = i + 1;
    }
    let mut cents: Vec<Centroid> = Vec::new();
    let mut j: usize = 0;
    proof {
        lemma_updated_wf(colors@, assign@, prev@);
    }
    while j < k
        invariant
            j <= k,
            k == prev@.len(),
            n == colors@.len(),
            counts@.len() == k && sr@.len() == k && sg@.len() == k && sb@.len() == k,
            forall|t: int|
                0 <= t < k ==> {
                    &&& #[trigger] counts@[t] == member_count(assign@, t, n as int)
                    &&& sr@[t] == member_sum(colors@, assign@, t, 0, n as int)
                    &&& sg@[t] == member_sum(colors@, assign@, t, 1, n as int)
                    &&& sb@[t] == member_sum(colors@, assign@, t, 2, n as int)
                },
            cents@ =~= updated(colors@, assign@, prev@).subrange(0, j as int),
        decreases k - j,
    {
        if counts[j] == 0 {
            cents.push(prev[j]);
        } else {
            cents.push(Centroid { sum_r: sr[j], sum_g: sg[j], sum_b: sb[j], count: counts[j] });
        }
        j = j + 1;
    }
    assert(cents@ =~= updated(colors@, assign@, prev@));
    cents
}

/// The iteration from centroids `cents` and the previous assignment `prev`,
/// with at most `fuel` assignment passes left: the final assignment, whether
/// it converged, and how many passes were made.
pub open spec fn lloyd(colors: Seq<Color>, cents: Seq<Centroid>, prev: Seq<usize>, fuel: nat) -> (
    Seq<usize>,
    bool,
    nat,
)
    decreases fuel,
{
    if fuel == 0 {
        (prev, false, 0)
    } else {
        let next = assignment(colors, cents);
        if next == prev {
            (next, true, 1)
        } else {
            let r = lloyd(colors, updated(colors, next, cents), next, (fuel - 1) as nat);
            (r.0, r.1, r.2 + 1)
        }
    }
}

/// The initial centroids: the colors at the chosen indices.
pub open spec fn seed_centroids(colors: Seq<Color>, seeds: Seq<usize>) -> Seq<Centroid> {
    Seq::new(seeds.len(), |j: int| singleton(colors[seeds[j] as int]))
}

/// The assignment that the iteration starts from: every color on centroid 0.
pub open spec fn initial_assignment(n: int) -> Seq<usize> {
    Seq::new(n as nat, |i: int| 0usize)
}

/// Whether `seeds` names `k` initial centroids among `n` colors.
pub open spec fn valid_seeds(seeds: Seq<usize>, n: int, k: int) -> bool {
    &&& seeds.len() == k
    &&& forall|j: int| 0 <= j < k ==> #[trigger] seeds[j] < n
}

/// The run of the clustering from the centroids that `seeds` picks.
pub open spec fn outcome(colors: Seq<Color>, seeds: Seq<usize>) -> (Seq<usize>, bool, nat) {
    lloyd(
        colors,
        seed_centroids(colors, seeds),
        initial_assignment(colors.len() as int),
        MAX_ITERATIONS as nat,
    )
}

/// The first `n` colors assigned to centroid `j`, in input order.
pub open spec fn group_upto(colors: Seq<Color>, assign: Seq<usize>, j: int, n: int) -> Seq<Color>
    decreases n,
{
    if n <= 0 {
        Seq::empty()
    } else {
        let g = group_upto(colors, assign, j, n - 1);
        if assign[n - 1] == j {
            g.push(colors[n - 1])
        } else {
            g
        }
    }
}

/// The colors assigned to centroid `j`, in input order.
pub open spec fn group(colors: Seq<Color>, assign: Seq<usize>, j: int) -> Seq<Color> {
    group_upto(colors, assign, j, colors.len() as int)
}

/// The `k` groups that the clustering from `seeds` ends with, in centroid order.
pub open spec fn clustered_groups(colors: Seq<Color>, seeds: Seq<usize>) -> Seq<Seq<Color>> {
    Seq::new(seeds.len(), |j: int| group(colors, outcome(colors, seeds).0, j))
}

/// Groups the colors by centroid index into exactly `k` groups.
pub fn materialize(colors: &Vec<Color>, assign: &Vec<usize>, k: usize) -> (groups: Vec<Vec<Color>>)
    requires
        assign@.len() == colors@.len(),
    ensures
        groups@.len() == k,
        forall|j: int| 0 <= j < k ==> (#[trigger] groups@[j])@ == group(colors@, assign@, j),
{
    let mut groups: Vec<Vec<Color>> = Vec::new();
    let mut j: usize = 0;
    while j < k
        invariant
            j <= k,
            assign@.len() == colors@.len(),
            groups@.len() == j,
            forall|t: int| 0 <= t < j ==> (#[trigger] groups@[t])@ == group(colors@, assign@, t),
        decreases k - j,
    {
        let mut g: Vec<Color> = Vec::new();
        let mut i: usize = 0;
        while i < colors.len()
            invariant
                i <= colors@.len(),
                assign@.len() == colors@.len(),
                g@ == group_upto(colors@, assign@, j as int, i as int),
            decreases colors@.len() - i,
        {
            if assign[i] == j {
                g.push(colors[i]);
            }
            i = i + 1;
        }
        groups.push(g);
        j = j + 1;
    }
    groups
}

/// Why a clustering request was refused.
#[derive(Clone, Copy, Debug, PartialEq, Eq, Structural)]
pub enum ClusterError {
    /// No colors, `k == 0`, `k` above the number of colors, or initial
    /// centroid indices that do not name `k` of the colors.
    InvalidArgument,
}

/// The result of a clustering run.
pub struct Clustering {
    /// Exactly `k` groups of input colors, in centroid-index order.
    pub groups: Vec<Vec<Color>>,
    /// Whether the assignment stopped changing before the iteration cap.
    pub converged: bool,
    /// How many assignment passes were made.
    pub iterations: u64,
}

/// Whether `r` is the result of the run from the centroids that `seeds` picks.
pub open spec fn is_outcome(r: Clustering, colors: Seq<Color>, seeds: Seq<usize>) -> bool {
    let o = outcome(colors, seeds);
    &&& r.groups@.len() == seeds.len()
    &&& forall|j: int|
        0 <= j < seeds.len() ==> (#[trigger] r.groups@[j])@ == clustered_groups(colors, seeds)[j]
    &&& r.converged == o.1
    &&& r.iterations == o.2
}

/// A list of distinct colors has at most one entry per 24-bit value.
pub proof fn lemma_distinct_colors_bound(colors: Seq<Color>)
    requires
        colors.no_duplicates(),
    ensures
        colors.len() <= MAX_COLORS,
{
    let keys = colors.map_values(|c: Color| color_key(c));
    assert forall|i: int, t: int| 0 <= i < keys.len() && 0 <= t < keys.len() && i != t implies keys[i]
        != keys[t] by {
        lemma_color_key_injective(colors[i], colors[t]);
    }
    keys.unique_seq_to_set();
    lemma_int_range(0, MAX_COLORS as int);
    assert forall|x: int| keys.to_set().contains(x) implies set_int_range(
        0,
        MAX_COLORS as int,
    ).contains(x) by {
        let i = choose|i: int| 0 <= i < keys.len() && keys[i] == x;
        lemma_color_key_injective(colors[i], colors[i]);
    }
    lemma_len_subset(keys.to_set(), set_int_range(0, MAX_COLORS as int));
}

fn same_assignment(a: &Vec<usize>, b: &Vec<usize>) -> (r: bool)
    ensures
        r == (a@ == b@),
{
    if a.len() != b.len() {
        return false;
    }
    let mut i: usize = 0;
    while i < a.len()
        invariant
            i <= a@.len(),
            a@.len() == b@.len(),
            forall|t: int| 0 <= t < i ==> a@[t] == b@[t],
        decreases a@.len() - i,
    {
        if a[i] != b[i] {
            return false;
        }
        i = i + 1;
    }
    assert(a@ =~= b@);
    true
}

/// Clusters distinct colors into `seeds.len()` groups, starting from the
/// colors at the indices `seeds` as initial centroids. Stops when an
/// assignment pass changes nothing, or after `MAX_ITERATIONS` passes; the
/// groups then come from the last assignment. A centroid left without
/// colors keeps its previous value.
pub fn cluster_with_seeds(colors: &Vec<Color>, seeds: &Vec<usize>) -> (r: Result<
    Clustering,
    ClusterError,
>)
    requires
        colors@.no_duplicates(),
    ensures
        r is Ok <==> (colors@.len() >= 1 && 1 <= seeds@.len() <= colors@.len() && valid_seeds(
            seeds@,
            colors@.len() as int,
            seeds@.len() as int,
        )),
        r matches Ok(c) ==> is_outcome(c, colors@, seeds@),
        r matches Err(e) ==> e == ClusterError::InvalidArgument,
{
    let n = colors.len();
    let k = seeds.len();
    if n == 0 || k == 0 || k > n {
        return Err(ClusterError::InvalidArgument);
    }
    proof {
        lemma_distinct_colors_bound(colors@);
    }
    let mut cents: Vec<Centroid> = Vec::new();
    let mut j: usize = 0;
    while j < k
        invariant
            j <= k,
            k == seeds@.len(),
            n == colors@.len(),
            forall|t: int| 0 <= t < j ==> #[trigger] seeds@[t] < n,
            cents@ =~= seed_centroids(colors@, seeds@).subrange(0, j as int),
        decreases k - j,
    {
        let s = seeds[j];
        if s >= n {
            return Err(ClusterError::InvalidArgument);
        }
        let c = colors[s];
        cents.push(Centroid { sum_r: c.r as u64, sum_g: c.g as u64, sum_b: c.b as u64, count: 1 });
        j = j + 1;
    }
    assert(cents@ =~= seed_centroids(colors@, seeds@));
    let mut assign: Vec<usize> = Vec::new();
    let mut i: usize = 0;
    while i < n
        invariant
            i <= n,
            assign@ =~= initial_assignment(n as int).subrange(0, i as int),
        decreases n - i,
    {
        assign.push(0);
        i = i + 1;
    }
    assert(assign@ =~= initial_assignment(n as int));
    let mut iterations: u64 = 0;
    let mut converged = false;
    while !converged && iterations < MAX_ITERATIONS
        invariant
            n == colors@.len(),
            n <= MAX_COLORS,
            1 <= k,
            cents@.len() == k,
            all_wf(cents@),
            assign@.len() == n,
            forall|t: int| 0 <= t < n ==> assign@[t] < k,
            iterations <= MAX_ITERATIONS,
            converged ==> outcome(colors@, seeds@) == (assign@, true, iterations as nat),
            !converged ==> {
                let o = lloyd(colors@, cents@, assign@, (MAX_ITERATIONS - iterations) as nat);
                outcome(colors@, seeds@) == (o.0, o.1, (o.2 + iterations) as nat)
            },
        decreases MAX_ITERATIONS - iterations,
    {
        let next = assign_all(colors, &cents);
        iterations = iterations + 1;
        if same_assignment(&next, &assign) {
            converged = true;
        } else {
            cents = update_centroids(colors, &next, &cents);
        }
        assign = next;
    }
    let groups = materialize(colors, &assign, k);
    Ok(Clustering { groups, converged, iterations })
}

/// rand's standard generator: the random source for initial centroids,
/// carried through opaquely.
#[verifier::external_type_specification]
#[verifier::external_body]
pub struct ExStdRng(rand::rngs::StdRng);

/// Relies on rand::seq::index::sample, which draws exactly `amount`
/// distinct indices below `length` and panics when `amount > length`.
#[verifier::external_body]
fn sample_indices(rng: &mut rand::rngs::StdRng, length: usize, amount: usize) -> (r: Vec<usize>)
    requires
        amount <= length,
    ensures
        r@.len() == amount,
        forall|j: int| 0 <= j < amount ==> #[trigger] r@[j] < length,
        r@.no_duplicates(),
{
    rand::seq::index::sample(rng, length, amount).into_vec()
}

/// Clusters distinct colors into `k` groups, with `k` distinct colors drawn
/// from `rng` as initial centroids.
pub fn cluster(colors: &Vec<Color>, k: usize, rng: &mut rand::rngs::StdRng) -> (r: Result<
    Clustering,
    ClusterError,
>)
    requires
        colors@.no_duplicates(),
    ensures
        r is Ok <==> (colors@.len() >= 1 && 1 <= k <= colors@.len()),
        r matches Ok(c) ==> exists|seeds: Seq<usize>|
            #[trigger] valid_seeds(seeds, colors@.len() as int, k as int) && seeds.no_duplicates()
                && is_outcome(c, colors@, seeds),
        r matches Err(e) ==> e == ClusterError::InvalidArgument,
{
    let n = colors.len();
    if n == 0 || k == 0 || k > n {
        return Err(ClusterError::InvalidArgument);
    }
    let seeds = sample_indices(rng, n, k);
    let r = cluster_with_seeds(colors, &seeds);
    proof {
        assert(valid_seeds(seeds@, n as int, k as int));
    }
    r
}

proof fn lemma_lloyd_in_range(colors: Seq<Color>, cents: Seq<Centroid>, prev: Seq<usize>, fuel: nat)
    requires
        colors.len() <= MAX_COLORS,
        cents.len() >= 1,
        all_wf(cents),
        prev.len() == colors.len(),
        forall|i: int| 0 <= i < prev.len() ==> prev[i] < cents.len(),
    ensures
        lloyd(colors, cents, prev, fuel).0.len() == colors.len(),
        forall|i: int|
            0 <= i < colors.len() ==> #[trigger] lloyd(colors, cents, prev, fuel).0[i]
                < cents.len(),
    decreases fuel,
{
    if fuel > 0 {
        let next = assignment(colors, cents);
        assert forall|i: int| 0 <= i < next.len() implies next[i] < cents.len() by {
            lemma_nearest_is_first_minimizer(colors[i], cents);
        }
        if next != prev {
            lemma_updated_wf(colors, next, cents);
            lemma_lloyd_in_range(colors, updated(colors, next, cents), next, (fuel - 1) as nat);
        }
    }
}

proof fn lemma_outcome_in_range(colors: Seq<Color>, seeds: Seq<usize>)
    requires
        colors.no_duplicates(),
        1 <= seeds.len(),
        valid_seeds(seeds, colors.len() as int, seeds.len() as int),
    ensures
        outcome(colors, seeds).0.len() == colors.len(),
        forall|i: int|
            0 <= i < colors.len() ==> #[trigger] outcome(colors, seeds).0[i] < seeds.len(),
{
    lemma_distinct_colors_bound(colors);
    let cents = seed_centroids(colors, seeds);
    assert(all_wf(cents));
    lemma_lloyd_in_range(
        colors,
        cents,
        initial_assignment(colors.len() as int),
        MAX_ITERATIONS as nat,
    );
}

proof fn lemma_group_members(colors: Seq<Color>, assign: Seq<usize>, j: int, n: int)
    requires
        0 <= n <= colors.len(),
        n <= assign.len(),
        colors.no_duplicates(),
    ensures
        forall|x: Color|
            #[trigger] group_upto(colors, assign, j, n).contains(x) <==> exists|i: int|
                0 <= i < n && assign[i] == j && #[trigger] colors[i] == x,
        group_upto(colors, assign, j, n).no_duplicates(),
    decreases n,
{
    if n > 0 {
        lemma_group_members(colors, assign, j, n - 1);
        let g = group_upto(colors, assign, j, n - 1);
        assert forall|x: Color|
            #[trigger] group_upto(colors, assign, j, n).contains(x) <==> exists|i: int|
                0 <= i < n && assign[i] == j && #[trigger] colors[i] == x by {
            if group_upto(colors, assign, j, n).contains(x) {
                if g.contains(x) {
                    let i = choose|i: int| 0 <= i < n - 1 && assign[i] == j && #[trigger] colors[i] == x;
                    assert(0 <= i < n && assign[i] == j && colors[i] == x);
                } else {
                    let t = choose|t: int| 0 <= t < group_upto(colors, assign, j, n).len() && group_upto(colors, assign, j, n)[t] == x;
                    assert(t == g.len());
                    assert(colors[n - 1] == x);
                }
            }
            if exists|i: int| 0 <= i < n && assign[i] == j && #[trigger] colors[i] == x {
                let i = choose|i: int| 0 <= i < n && assign[i] == j && #[trigger] colors[i] == x;
                if i < n - 1 {
                    assert(g.contains(x));
                    if assign[n - 1] == j {
                        assert(group_upto(colors, assign, j, n)[g.index_of(x)] == x);
                    }
                } else {
                    assert(group_upto(colors, assign, j, n)[g.len() as int] == x);
                }
            }
        }
        if assign[n - 1] == j {
            if g.contains(colors[n - 1]) {
                let i = choose|i: int| 0 <= i < n - 1 && assign[i] == j && #[trigger] colors[i] == colors[n - 1];
                assert(false);
            }
        }
    }
}

/// The total length of the first `m` groups.
pub open spec fn total_len(groups: Seq<Seq<Color>>, m: int) -> int
    decreases m,
{
    if m <= 0 {
        0
    } else {
        total_len(groups, m - 1) + groups[m - 1].len()
    }
}

spec fn groups_total(colors: Seq<Color>, assign: Seq<usize>, m: int, n: int) -> int
    decreases m,
{
    if m <= 0 {
        0
    } else {
        groups_total(colors, assign, m - 1, n) + group_upto(colors, assign, m - 1, n).len()
    }
}

proof fn lemma_groups_total_step(colors: Seq<Color>, assign: Seq<usize>, m: int, n: int)
    requires
        1 <= n <= colors.len(),
        n <= assign.len(),
        0 <= m,
    ensures
        groups_total(colors, assign, m, n) == groups_total(colors, assign, m, n - 1) + if assign[n
            - 1] < m {
            1int
        } else {
            0int
        },
    decreases m,
{
    if m > 0 {
        lemma_groups_total_step(colors, assign, m - 1, n);
    }
}

proof fn lemma_groups_total(colors: Seq<Color>, assign: Seq<usize>, k: int, n: int)
    requires
        0 <= n <= colors.len(),
        n <= assign.len(),
        0 <= k,
        forall|i: int| 0 <= i < n ==> assign[i] < k,
    ensures
        groups_total(colors, assign, k, n) == n,
    decreases n,
{
    if n > 0 {
        lemma_groups_total(colors, assign, k, n - 1);
        lemma_groups_total_step(colors, assign, k, n);
    } else {
        lemma_groups_total_zero(colors, assign, k);
    }
}

proof fn lemma_groups_total_zero(colors: Seq<Color>, assign: Seq<usize>, m: int)
    requires
        0 <= m,
    ensures
        groups_total(colors, assign, m, 0) == 0,
    decreases m,
{
    if m > 0 {
        lemma_groups_total_zero(colors, assign, m - 1);
    }
}

proof fn lemma_total_len_groups(colors: Seq<Color>, seeds: Seq<usize>, m: int)
    requires
        0 <= m <= seeds.len(),
    ensures
        total_len(clustered_groups(colors, seeds), m) == groups_total(
            colors,
            outcome(colors, seeds).0,
            m,
            colors.len() as int,
        ),
    decreases m,
{
    if m > 0 {
        lemma_total_len_groups(colors, seeds, m - 1);
    }
}

/// Every color of the input lands in exactly one of the `k` groups, and no
/// group holds a color twice: the groups partition the input, and their
/// lengths add up to the number of colors.
pub proof fn lemma_cluster_coverage(colors: Seq<Color>, seeds: Seq<usize>)
    requires
        colors.no_duplicates(),
        1 <= seeds.len() <= colors.len(),
        valid_seeds(seeds, colors.len() as int, seeds.len() as int),
    ensures
        clustered_groups(colors, seeds).len() == seeds.len(),
        total_len(clustered_groups(colors, seeds), seeds.len() as int) == colors.len(),
        forall|c: Color|
            colors.contains(c) <==> exists|j: int|
                0 <= j < seeds.len() && #[trigger] clustered_groups(colors, seeds)[j].contains(c),
        forall|j: int|
            0 <= j < seeds.len() ==> (#[trigger] clustered_groups(colors, seeds)[j]).no_duplicates(),
        forall|j1: int, j2: int, c: Color|
            0 <= j1 < seeds.len() && 0 <= j2 < seeds.len()
                && #[trigger] clustered_groups(colors, seeds)[j1].contains(c)
                && #[trigger] clustered_groups(colors, seeds)[j2].contains(c) ==> j1 == j2,
{
    let k = seeds.len() as int;
    let n = colors.len() as int;
    let a = outcome(colors, seeds).0;
    let g = clustered_groups(colors, seeds);
    lemma_outcome_in_range(colors, seeds);
    lemma_groups_total(colors, a, k, n);
    lemma_total_len_groups(colors, seeds, k);
    assert forall|j: int| 0 <= j < k implies #[trigger] g[j] == group(colors, a, j) && (forall|x: Color|
        #[trigger] g[j].contains(x) <==> exists|i: int|
            0 <= i < n && a[i] == j && #[trigger] colors[i] == x) && g[j].no_duplicates() by {
        lemma_group_members(colors, a, j, n);
    }
    assert forall|c: Color| colors.contains(c) <==> exists|j: int|
        0 <= j < k && #[trigger] g[j].contains(c) by {
        if colors.contains(c) {
            let i = colors.index_of(c);
            let j = a[i] as int;
            assert(0 <= i < n && a[i] == j && colors[i] == c);
            assert(g[j].contains(c));
        }
        if exists|j: int| 0 <= j < k && #[trigger] g[j].contains(c) {
            let j = choose|j: int| 0 <= j < k && #[trigger] g[j].contains(c);
            let i = choose|i: int| 0 <= i < n && a[i] == j && #[trigger] colors[i] == c;
            assert(colors[i] == c);
        }
    }
    assert forall|j1: int, j2: int, c: Color|
        0 <= j1 < k && 0 <= j2 < k && #[trigger] g[j1].contains(c) && #[trigger] g[j2].contains(c)
            implies j1 == j2 by {
        let i1 = choose|i: int| 0 <= i < n && a[i] == j1 && #[trigger] colors[i] == c;
        let i2 = choose|i: int| 0 <= i < n && a[i] == j2 && #[trigger] colors[i] == c;
        assert(colors[i1] == colors[i2]);
    }
}

proof fn lemma_group_all(colors: Seq<Color>, assign: Seq<usize>, n: int)
    requires
        0 <= n <= colors.len(),
        n <= assign.len(),
        forall|i: int| 0 <= i < n ==> assign[i] == 0,
    ensures
        group_upto(colors, assign, 0, n) == colors.subrange(0, n),
    decreases n,
{
    if n > 0 {
        lemma_group_all(colors, assign, n - 1);
        assert(colors.subrange(0, n - 1).push(colors[n - 1]) =~= colors.subrange(0, n));
    } else {
        assert(colors.subrange(0, 0) =~= Seq::<Color>::empty());
    }
}

/// With a single cluster, the one group holds every color, and the run
/// converges after exactly one assignment pass.
pub proof fn lemma_single_cluster(colors: Seq<Color>, seeds: Seq<usize>)
    requires
        colors.len() >= 1,
        valid_seeds(seeds, colors.len() as int, 1),
    ensures
        clustered_groups(colors, seeds).len() == 1,
        clustered_groups(colors, seeds)[0] == colors,
        outcome(colors, seeds).1,
        outcome(colors, seeds).2 == 1,
{
    let n = colors.len() as int;
    let cents = seed_centroids(colors, seeds);
    let zeros = initial_assignment(n);
    assert(assignment(colors, cents) =~= zeros);
    lemma_group_all(colors, zeros, n);
    assert(colors.subrange(0, n) =~= colors);
}

proof fn lemma_single_member(
    colors: Seq<Color>,
    assign: Seq<usize>,
    j: int,
    s: int,
    ch: int,
    m: int,
)
    requires
        0 <= m <= colors.len(),
        colors.len() <= assign.len(),
        0 <= s < colors.len(),
        forall|i: int| 0 <= i < colors.len() ==> (assign[i] == j <==> i == s),
    ensures
        member_count(assign, j, m) == if s < m {
            1int
        } else {
            0int
        },
        member_sum(colors, assign, j, ch, m) == if s < m {
            channel(colors[s], ch)
        } else {
            0int
        },
        group_upto(colors, assign, j, m) == if s < m {
            seq![colors[s]]
        } else {
            Seq::<Color>::empty()
        },
    decreases m,
{
    if m > 0 {
        lemma_single_member(colors, assign, j, s, ch, m - 1);
        if m - 1 == s {
            assert(Seq::<Color>::empty().push(colors[s]) =~= seq![colors[s]]);
        }
    }
}

spec fn is_seeded(seeds: Seq<usize>, i: int) -> bool {
    exists|j: int| 0 <= j < seeds.len() && #[trigger] seeds[j] == i
}

proof fn lemma_seeds_onto(seeds: Seq<usize>, n: int)
    requires
        valid_seeds(seeds, n, n),
        seeds.no_duplicates(),
    ensures
        forall|i: int| 0 <= i < n ==> #[trigger] is_seeded(seeds, i),
{
    let keys = seeds.map_values(|x: usize| x as int);
    assert(keys.no_duplicates());
    keys.unique_seq_to_set();
    lemma_int_range(0, n);
    assert(keys.to_set().subset_of(set_int_range(0, n)));
    lemma_len_subset(keys.to_set(), set_int_range(0, n));
    lemma_subset_equality(keys.to_set(), set_int_range(0, n));
    assert forall|i: int| 0 <= i < n implies #[trigger] is_seeded(seeds, i) by {
        assert(set_int_range(0, n).contains(i));
        assert(keys.to_set().contains(i));
        let j = choose|j: int| 0 <= j < keys.len() && keys[j] == i;
        assert(seeds[j] == i);
    }
}

proof fn lemma_singleton_dist(c: Color, d: Color)
    ensures
        scaled_dist(c, singleton(d)) == crate::color::sq_dist(c, d),
{
}

/// With as many clusters as distinct colors, seeded with every color once,
/// each color ends in a group of its own: a stable state, reached after at
/// most two assignment passes.
pub proof fn lemma_as_many_clusters_as_colors(colors: Seq<Color>, seeds: Seq<usize>)
    requires
        colors.no_duplicates(),
        colors.len() >= 1,
        valid_seeds(seeds, colors.len() as int, colors.len() as int),
        seeds.no_duplicates(),
    ensures
        outcome(colors, seeds).1,
        outcome(colors, seeds).2 <= 2,
        clustered_groups(colors, seeds).len() == colors.len(),
        forall|j: int|
            0 <= j < colors.len() ==> #[trigger] clustered_groups(colors, seeds)[j] == seq![
                colors[seeds[j] as int],
            ],
{
    let n = colors.len() as int;
    lemma_distinct_colors_bound(colors);
    lemma_seeds_onto(seeds, n);
    let cents = seed_centroids(colors, seeds);
    assert(all_wf(cents));
    let a1 = assignment(colors, cents);
    assert forall|i: int| 0 <= i < n implies #[trigger] a1[i] < n && seeds[a1[i] as int] == i by {
        lemma_nearest_is_first_minimizer(colors[i], cents);
        let js = nearest(colors[i], cents);
        assert(is_seeded(seeds, i));
        let p = choose|j: int| 0 <= j < n && #[trigger] seeds[j] == i;
        assert(a1[i] == js as usize);
        assert(cents[p] == singleton(colors[i]));
        assert(cents[js] == singleton(colors[seeds[js] as int]));
        assert(!closer(colors[i], cents[p], cents[js]));
        lemma_singleton_dist(colors[i], colors[i]);
        lemma_singleton_dist(colors[i], colors[seeds[js] as int]);
        lemma_distance_symmetric_identity(colors[i], colors[i]);
        lemma_distance_symmetric_identity(colors[i], colors[seeds[js] as int]);
        if seeds[js] as int != i {
            assert(colors[seeds[js] as int] != colors[i]);
            assert(scaled_dist(colors[i], cents[js]) > 0);
            assert(scaled_dist(colors[i], cents[p]) == 0);
            assert(cents[p].count == 1 && cents[js].count == 1);
            let sp = scaled_dist(colors[i], cents[p]);
            let sj = scaled_dist(colors[i], cents[js]);
            assert(sp * (1int * 1int) < sj * (1int * 1int)) by (nonlinear_arith)
                requires
                    sp == 0,
                    sj > 0,
            ;
            assert(closer(colors[i], cents[p], cents[js]));
        }
    }
    assert forall|j: int, i: int| 0 <= j < n && 0 <= i < n implies (a1[i] == j <==> i
        == seeds[j]) by {
        if i == seeds[j] {
            assert(seeds[a1[i] as int] == seeds[j]);
        }
    }
    let cents1 = updated(colors, a1, cents);
    assert forall|j: int| 0 <= j < n implies #[trigger] cents1[j] == cents[j] && group(colors, a1, j)
        == seq![colors[seeds[j] as int]] by {
        let s = seeds[j] as int;
        assert forall|i: int| 0 <= i < n implies (a1[i] == j <==> i == s) by {}
        lemma_single_member(colors, a1, j, s, 0, n);
        lemma_single_member(colors, a1, j, s, 1, n);
        lemma_single_member(colors, a1, j, s, 2, n);
    }
    assert(cents1 =~= cents);
    let zeros = initial_assignment(n);
    if a1 != zeros {
        assert(lloyd(colors, cents1, a1, (MAX_ITERATIONS - 1) as nat) == (a1, true, 1nat));
    }
    assert(outcome(colors, seeds).0 == a1);
    assert forall|j: int| 0 <= j < n implies #[trigger] clustered_groups(colors, seeds)[j] == seq![
        colors[seeds[j] as int],
    ] by {
        assert(cents1[j] == cents[j]);
    }
}

/// The exact mean of the colors assigned to centroid `j` (a group that has
/// at least one color).
pub open spec fn group_mean(colors: Seq<Color>, assign: Seq<usize>, j: int) -> Centroid {
    let n = colors.len() as int;
    Centroid {
        sum_r: member_sum(colors, assign, j, 0, n) as u64,
        sum_g: member_sum(colors, assign, j, 1, n) as u64,
        sum_b: member_sum(colors, assign, j, 2, n) as u64,
        count: member_count(assign, j, n) as u64,
    }
}

/// The centroids in force at the pass where the iteration stops.
pub open spec fn lloyd_centroids(
    colors: Seq<Color>,
    cents: Seq<Centroid>,
    prev: Seq<usize>,
    fuel: nat,
) -> Seq<Centroid>
    decreases fuel,
{
    if fuel == 0 {
        cents
    } else {
        let next = assignment(colors, cents);
        if next == prev {
            cents
        } else {
            lloyd_centroids(colors, updated(colors, next, cents), next, (fuel - 1) as nat)
        }
    }
}

spec fn is_mean_of(colors: Seq<Color>, cents: Seq<Centroid>, assign: Seq<usize>) -> bool {
    forall|j: int|
        0 <= j < cents.len() && member_count(assign, j, colors.len() as int) > 0
            ==> #[trigger] cents[j] == group_mean(colors, assign, j)
}

proof fn lemma_member_count_pos(assign: Seq<usize>, j: int, n: int)
    requires
        0 <= n <= assign.len(),
    ensures
        member_count(assign, j, n) >= 0,
        member_count(assign, j, n) > 0 <==> exists|i: int| 0 <= i < n && #[trigger] assign[i] == j,
    decreases n,
{
    if n > 0 {
        lemma_member_count_pos(assign, j, n - 1);
        if exists|i: int| 0 <= i < n && #[trigger] assign[i] == j {
            let i = choose|i: int| 0 <= i < n && #[trigger] assign[i] == j;
            if i < n - 1 {
                assert(exists|t: int| 0 <= t < n - 1 && #[trigger] assign[t] == j);
            }
        }
    }
}

proof fn lemma_lloyd_converged(colors: Seq<Color>, cents: Seq<Centroid>, prev: Seq<usize>, fuel: nat)
    requires
        colors.len() <= MAX_COLORS,
        cents.len() >= 1,
        all_wf(cents),
        prev.len() == colors.len(),
        forall|i: int| 0 <= i < prev.len() ==> prev[i] < cents.len(),
        is_mean_of(colors, cents, prev),
    ensures
        lloyd(colors, cents, prev, fuel).1 ==> {
            let c = lloyd_centroids(colors, cents, prev, fuel);
            let a = lloyd(colors, cents, prev, fuel).0;
            &&& c.len() == cents.len()
            &&& all_wf(c)
            &&& a == assignment(colors, c)
            &&& is_mean_of(colors, c, a)
        },
    decreases fuel,
{
    if fuel > 0 {
        let next = assignment(colors, cents);
        assert forall|i: int| 0 <= i < next.len() implies next[i] < cents.len() by {
            lemma_nearest_is_first_minimizer(colors[i], cents);
        }
        if next != prev {
            lemma_updated_wf(colors, next, cents);
            lemma_lloyd_converged(colors, updated(colors, next, cents), next, (fuel - 1) as nat);
        }
    }
}

/// Whether color `i` is no nearer to the mean of group `j`, when that group
/// has colors, than to the mean of its own group, and strictly farther when
/// `j` comes before its own group.
pub open spec fn sits_with_nearest_mean(colors: Seq<Color>, a: Seq<usize>, i: int, j: int) -> bool {
    member_count(a, j, colors.len() as int) > 0 ==> {
        &&& !closer(colors[i], group_mean(colors, a, j), group_mean(colors, a, a[i] as int))
        &&& j < a[i] ==> closer(colors[i], group_mean(colors, a, a[i] as int), group_mean(colors, a, j))
    }
}

/// When the run converges, every color sits with the nearest of the final
/// group means, and on a tie with the lowest-index one.
pub proof fn lemma_converged_nearest_mean(colors: Seq<Color>, seeds: Seq<usize>)
    requires
        colors.no_duplicates(),
        1 <= seeds.len() <= colors.len(),
        valid_seeds(seeds, colors.len() as int, seeds.len() as int),
        outcome(colors, seeds).1,
    ensures
        forall|i: int, j: int|
            0 <= i < colors.len() && 0 <= j < seeds.len() ==> #[trigger] sits_with_nearest_mean(
                colors,
                outcome(colors, seeds).0,
                i,
                j,
            ),
{
    let n = colors.len() as int;
    let k = seeds.len() as int;
    lemma_distinct_colors_bound(colors);
    lemma_outcome_in_range(colors, seeds);
    let cents = seed_centroids(colors, seeds);
    assert(all_wf(cents));
    let zeros = initial_assignment(n);
    let next = assignment(colors, cents);
    let a = outcome(colors, seeds).0;
    if next == zeros {
        assert(a == zeros);
        assert forall|i: int, j: int|
            0 <= i < n && 0 <= j < k implies #[trigger] sits_with_nearest_mean(colors, a, i, j) by {
            lemma_member_count_pos(a, j, n);
            if member_count(a, j, n) > 0 {
                let t = choose|t: int| 0 <= t < n && #[trigger] a[t] == j;
                let g = group_mean(colors, a, 0);
                assert(!closer(colors[i], g, g)) by (nonlinear_arith);
            }
        }
    } else {
        assert forall|i: int| 0 <= i < next.len() implies next[i] < cents.len() by {
            lemma_nearest_is_first_minimizer(colors[i], cents);
        }
        lemma_updated_wf(colors, next, cents);
        let c1 = updated(colors, next, cents);
        assert(is_mean_of(colors, c1, next));
        let fuel = (MAX_ITERATIONS - 1) as nat;
        lemma_lloyd_converged(colors, c1, next, fuel);
        let cf = lloyd_centroids(colors, c1, next, fuel);
        assert forall|i: int, j: int|
            0 <= i < n && 0 <= j < k implies #[trigger] sits_with_nearest_mean(colors, a, i, j) by {
            lemma_nearest_is_first_minimizer(colors[i], cf);
            lemma_member_count_pos(a, a[i] as int, n);
            if member_count(a, j, n) > 0 {
                assert(cf[j] == group_mean(colors, a, j));
                assert(cf[a[i] as int] == group_mean(colors, a, a[i] as int));
            }
        }
    }
}

} // verus!
