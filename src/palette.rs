use vstd::prelude::*;

verus! {

/// One fixed-point unit: the size of a single 8-bit colour level.
pub const UNIT: i64 = 1048576;

/// The largest magnitude, in fixed-point units, that the resolver accepts in
/// one channel (1166 levels).
pub const TONE_LIMIT: i64 = 1222639616;

/// An opaque 8-bit RGB colour.
#[derive(Clone, Copy, Debug, PartialEq, Eq, Structural)]
pub struct Rgb {
    pub r: u8,
    pub g: u8,
    pub b: u8,
}

/// A colour in fixed-point units (`UNIT` per 8-bit level), whose channels may
/// lie outside `[0, 255]` once diffused error has been added.
#[derive(Clone, Copy, Debug, PartialEq, Eq, Structural)]
pub struct Tone {
    pub r: i64,
    pub g: i64,
    pub b: i64,
}

impl View for Tone {
    type V = (int, int, int);

    open spec fn view(&self) -> (int, int, int) {
        (self.r as int, self.g as int, self.b as int)
    }
}

pub open spec fn black() -> Rgb {
    Rgb { r: 0, g: 0, b: 0 }
}

pub open spec fn white() -> Rgb {
    Rgb { r: 255, g: 255, b: 255 }
}

pub open spec fn dark_red() -> Rgb {
    Rgb { r: 127, g: 0, b: 0 }
}

/// The palette of the tri-colour panel; the order gives the palette indices.
pub open spec fn tri_color() -> Seq<Rgb> {
    seq![black(), white(), dark_red()]
}

/// An 8-bit level in fixed-point units.
pub open spec fn level(v: u8) -> int {
    v as int * UNIT as int
}

/// A colour as a fixed-point tone.
pub open spec fn tone_of(p: Rgb) -> (int, int, int) {
    (level(p.r), level(p.g), level(p.b))
}

/// Squared Euclidean distance between a tone and a palette colour.
pub open spec fn sq_dist(c: (int, int, int), p: Rgb) -> int {
    let dr = c.0 - level(p.r);
    let dg = c.1 - level(p.g);
    let db = c.2 - level(p.b);
    dr * dr + dg * dg + db * db
}

/// The index chosen among the first `n` palette entries: a scan in palette
/// order that moves only on a strictly smaller distance.
pub open spec fn nearest_upto(pal: Seq<Rgb>, c: (int, int, int), n: int) -> int
    decreases n,
{
    if n <= 1 {
        0
    } else {
        let k = nearest_upto(pal, c, n - 1);
        if sq_dist(c, pal[n - 1]) < sq_dist(c, pal[k]) {
            n - 1
        } else {
            k
        }
    }
}

/// The palette index nearest to `c`, the first one on a tie.
pub open spec fn nearest(pal: Seq<Rgb>, c: (int, int, int)) -> int {
    nearest_upto(pal, c, pal.len() as int)
}

/// `k` minimises the distance to `c`, and every earlier entry is strictly farther.
pub open spec fn is_nearest(pal: Seq<Rgb>, c: (int, int, int), k: int) -> bool {
    &&& 0 <= k < pal.len()
    &&& forall|m: int| 0 <= m < pal.len() ==> sq_dist(c, pal[k]) <= sq_dist(c, pal[m])
    &&& forall|m: int| 0 <= m < k ==> sq_dist(c, pal[k]) < sq_dist(c, pal[m])
}

pub open spec fn tone_fits(c: (int, int, int)) -> bool {
    &&& -TONE_LIMIT <= c.0 <= TONE_LIMIT
    &&& -TONE_LIMIT <= c.1 <= TONE_LIMIT
    &&& -TONE_LIMIT <= c.2 <= TONE_LIMIT
}

proof fn lemma_nearest_upto(pal: Seq<Rgb>, c: (int, int, int), n: int)
    requires
        1 <= n <= pal.len(),
    ensures
        0 <= nearest_upto(pal, c, n) < n,
        forall|m: int|
            0 <= m < n ==> sq_dist(c, pal[nearest_upto(pal, c, n)]) <= #[trigger] sq_dist(
                c,
                pal[m],
            ),
        forall|m: int|
            0 <= m < nearest_upto(pal, c, n) ==> sq_dist(c, pal[nearest_upto(pal, c, n)])
                < #[trigger] sq_dist(c, pal[m]),
    decreases n,
{
    if n > 1 {
        lemma_nearest_upto(pal, c, n - 1);
    }
}

/// The resolver's choice minimises the squared distance over the whole
/// palette, and no earlier entry ties with it.
pub proof fn lemma_nearest_is_nearest(pal: Seq<Rgb>, c: (int, int, int))
    requires
        pal.len() > 0,
    ensures
        is_nearest(pal, c, nearest(pal, c)),
{
    lemma_nearest_upto(pal, c, pal.len() as int);
}

proof fn lemma_sq_dist_positive(c: (int, int, int), p: Rgb)
    requires
        c != tone_of(p),
    ensures
        sq_dist(c, p) > 0,
{
    let dr = c.0 - level(p.r);
    let dg = c.1 - level(p.g);
    let db = c.2 - level(p.b);
    assert(dr * dr >= 0 && dg * dg >= 0 && db * db >= 0) by (nonlinear_arith);
    if dr != 0 {
        assert(dr * dr > 0) by (nonlinear_arith)
            requires
                dr != 0,
        ;
    } else if dg != 0 {
        assert(dg * dg > 0) by (nonlinear_arith)
            requires
                dg != 0,
        ;
    } else {
        assert(db * db > 0) by (nonlinear_arith)
            requires
                db != 0,
        ;
    }
}

/// In a palette of distinct colours, a palette colour resolves to its own index.
pub proof fn lemma_nearest_of_entry(pal: Seq<Rgb>, k: int)
    requires
        0 <= k < pal.len(),
        forall|a: int, b: int| 0 <= a < b < pal.len() ==> pal[a] != pal[b],
    ensures
        nearest(pal, tone_of(pal[k])) == k,
{
    let c = tone_of(pal[k]);
    lemma_nearest_is_nearest(pal, c);
    let n = nearest(pal, c);
    assert(sq_dist(c, pal[k]) == 0) by (nonlinear_arith)
        requires
            c == tone_of(pal[k]),
    ;
    if n != k {
        assert(pal[n] != pal[k]);
        assert(c != tone_of(pal[n]));
        lemma_sq_dist_positive(c, pal[n]);
    }
}

/// The palette of the tri-colour panel: black, white and dark red, in that order.
pub fn tri_color_palette() -> (r: Vec<Rgb>)
    ensures
        r@ == tri_color(),
{
    let r = vec![Rgb { r: 0, g: 0, b: 0 }, Rgb { r: 255, g: 255, b: 255 }, Rgb { r: 127, g: 0, b: 0 }];
    assert(r@ =~= tri_color());
    r
}

fn channel_gap(c: i64, v: u8) -> (r: i64)
    requires
        -TONE_LIMIT <= c <= TONE_LIMIT,
    ensures
        r == c - level(v),
        -1490026496 <= r <= 1490026496,
{
    c - (v as i64) * UNIT
}

/// Squared distance between a tone and a palette colour.
pub fn tone_distance(c: Tone, p: Rgb) -> (r: i64)
    requires
        tone_fits(c@),
    ensures
        r == sq_dist(c@, p),
{
    let dr = channel_gap(c.r, p.r);
    let dg = channel_gap(c.g, p.g);
    let db = channel_gap(c.b, p.b);
    assert(dr * dr <= 1490026496 * 1490026496) by (nonlinear_arith)
        requires
            -1490026496 <= dr <= 1490026496,
    ;
    assert(dg * dg <= 1490026496 * 1490026496) by (nonlinear_arith)
        requires
            -1490026496 <= dg <= 1490026496,
    ;
    assert(db * db <= 1490026496 * 1490026496) by (nonlinear_arith)
        requires
            -1490026496 <= db <= 1490026496,
    ;
    assert(dr * dr >= 0 && dg * dg >= 0 && db * db >= 0) by (nonlinear_arith);
    dr * dr + dg * dg + db * db
}

/// The index of the palette entry nearest to `c` in squared Euclidean
/// distance; on a tie the earliest entry wins.
pub fn nearest_index(palette: &[Rgb], c: Tone) -> (r: usize)
    requires
        palette@.len() > 0,
        tone_fits(c@),
    ensures
        r == nearest(palette@, c@),
        is_nearest(palette@, c@, r as int),
{
    let mut best: usize = 0;
    let mut best_dist = tone_distance(c, palette[0]);
    let mut i: usize = 1;
    while i < palette.len()
        invariant
            1 <= i <= palette@.len(),
            tone_fits(c@),
            best == nearest_upto(palette@, c@, i as int),
            best < i,
            best_dist == sq_dist(c@, palette@[best as int]),
        decreases palette@.len() - i,
    {
        let d = tone_distance(c, palette[i]);
        if d < best_dist {
            best = i;
            best_dist = d;
        }
        i = i + 1;
    }
    proof {
        lemma_nearest_is_nearest(palette@, c@);
    }
    best
}

} // verus!
