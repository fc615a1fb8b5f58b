use vstd::prelude::*;
use crate::grid::{RgbaGrid, rgba_at, alpha_at, pixel_offset};
use crate::palette::{
    Rgb, Tone, UNIT, TONE_LIMIT, tone_of, level, nearest, nearest_index, tone_fits,
    lemma_nearest_is_nearest, tri_color_palette, tri_color,
};

verus! {

// The error rows hold fixed-point tones (`UNIT` per 8-bit level); each share of
// a residual is rounded toward zero, so the rows stay integral and bounded.

/// The part of the source image that the sweep covers: `width` by `height`
/// pixels whose top-left corner sits at `(dx, dy)` of the source. Pixels of the
/// window that fall outside the source get a black/white checkerboard.
#[derive(Clone, Copy, Debug, PartialEq, Eq, Structural)]
pub struct Window {
    pub dx: i64,
    pub dy: i64,
    pub width: usize,
    pub height: usize,
}

pub open spec fn add3(a: (int, int, int), b: (int, int, int)) -> (int, int, int) {
    (a.0 + b.0, a.1 + b.1, a.2 + b.2)
}

pub open spec fn sub3(a: (int, int, int), b: (int, int, int)) -> (int, int, int) {
    (a.0 - b.0, a.1 - b.1, a.2 - b.2)
}

/// `w / 32` of a residual, rounded toward zero.
pub open spec fn share(e: int, w: int) -> int {
    if e >= 0 {
        e * w / 32
    } else {
        -((-e) * w / 32)
    }
}

pub open spec fn share3(e: (int, int, int), w: int) -> (int, int, int) {
    (share(e.0, w), share(e.1, w), share(e.2, w))
}

/// Adds `w / 32` of `e` to entry `k` of an error row; a target off the row is dropped.
pub open spec fn add_share(row: Seq<(int, int, int)>, k: int, e: (int, int, int), w: int) -> Seq<
    (int, int, int),
> {
    if 0 <= k < row.len() {
        row.update(k, add3(row[k], share3(e, w)))
    } else {
        row
    }
}

/// The diffusion stencil of column `i` in a row of width `w`: each entry is
/// (goes to the next row, column offset, weight in 32nds).
pub open spec fn stencil(i: int, w: int) -> Seq<(bool, int, int)> {
    if i == 0 {
        seq![(true, 0, 7), (true, 1, 2), (false, 1, 7)]
    } else if i == w - 1 {
        seq![(true, -1, 7), (true, 0, 9)]
    } else {
        seq![(true, -1, 3), (true, 0, 5), (true, 1, 1), (false, 1, 7)]
    }
}

/// The error rows (current, next) after the shares of column `i` are added in order.
pub open spec fn spread(
    cur: Seq<(int, int, int)>,
    nxt: Seq<(int, int, int)>,
    i: int,
    e: (int, int, int),
    shares: Seq<(bool, int, int)>,
) -> (Seq<(int, int, int)>, Seq<(int, int, int)>)
    decreases shares.len(),
{
    if shares.len() == 0 {
        (cur, nxt)
    } else {
        let rows = spread(cur, nxt, i, e, shares.drop_last());
        let s = shares.last();
        if s.0 {
            (rows.0, add_share(rows.1, i + s.1, e, s.2))
        } else {
            (add_share(rows.0, i + s.1, e, s.2), rows.1)
        }
    }
}

pub open spec fn weight_sum(shares: Seq<(bool, int, int)>) -> int
    decreases shares.len(),
{
    if shares.len() == 0 {
        0
    } else {
        weight_sum(shares.drop_last()) + shares.last().2
    }
}

/// What the shares hand out of a residual `e`, in one channel.
pub open spec fn shared_total(e: int, shares: Seq<(bool, int, int)>) -> int
    decreases shares.len(),
{
    if shares.len() == 0 {
        0
    } else {
        shared_total(e, shares.drop_last()) + share(e, shares.last().2)
    }
}

/// State of the sweep: the palette index picked for each pixel so far, and the
/// two error rows (the one being read, and the one being built for the next row).
pub struct Sweep {
    pub picks: Seq<int>,
    pub cur: Seq<(int, int, int)>,
    pub nxt: Seq<(int, int, int)>,
}

pub open spec fn zeros(w: int) -> Seq<(int, int, int)> {
    Seq::new(w as nat, |k: int| (0int, 0int, 0int))
}

pub open spec fn row_inside(img: RgbaGrid, win: Window, j: int) -> bool {
    0 <= win.dy + j < img.height
}

pub open spec fn inside(img: RgbaGrid, win: Window, i: int, j: int) -> bool {
    row_inside(img, win, j) && 0 <= win.dx + i < img.width
}

/// Palette index of the checkerboard: white where `i + j` is even, else black.
pub open spec fn checkerboard(i: int, j: int) -> int {
    if (i + j) % 2 == 0 {
        1
    } else {
        0
    }
}

/// The source colour at `(x, y)` in fixed-point units.
pub open spec fn src_tone(img: RgbaGrid, x: int, y: int) -> (int, int, int) {
    tone_of(rgba_at(img.data@, y * img.width + x))
}

/// One pixel of the sweep: window column `i` of window row `j`.
pub open spec fn visit(pal: Seq<Rgb>, img: RgbaGrid, win: Window, j: int, i: int, st: Sweep) -> Sweep {
    if !inside(img, win, i, j) {
        Sweep { picks: st.picks.push(checkerboard(i, j)), cur: st.cur, nxt: st.nxt }
    } else {
        let c = add3(src_tone(img, win.dx + i, win.dy + j), st.cur[i]);
        let k = nearest(pal, c);
        let e = sub3(c, tone_of(pal[k]));
        let rows = spread(st.cur, st.nxt, i, e, stencil(i, win.width as int));
        Sweep { picks: st.picks.push(k), cur: rows.0, nxt: rows.1 }
    }
}

/// The first `n` pixels of window row `j`, from state `st`.
pub open spec fn sweep_row(
    pal: Seq<Rgb>,
    img: RgbaGrid,
    win: Window,
    j: int,
    n: nat,
    st: Sweep,
) -> Sweep
    decreases n,
{
    if n == 0 {
        st
    } else {
        visit(pal, img, win, j, n - 1, sweep_row(pal, img, win, j, (n - 1) as nat, st))
    }
}

/// Before a row inside the source, the row built so far becomes the one read,
/// and a zeroed row is built anew; a row outside the source leaves both alone.
pub open spec fn row_start(img: RgbaGrid, win: Window, j: int, st: Sweep) -> Sweep {
    if row_inside(img, win, j) {
        Sweep { picks: st.picks, cur: st.nxt, nxt: zeros(win.width as int) }
    } else {
        st
    }
}

/// The state after the first `n` rows of the window.
pub open spec fn sweep(pal: Seq<Rgb>, img: RgbaGrid, win: Window, n: nat) -> Sweep
    decreases n,
{
    if n == 0 {
        Sweep {
            picks: Seq::empty(),
            cur: zeros(win.width as int),
            nxt: zeros(win.width as int),
        }
    } else {
        let st = row_start(img, win, n - 1, sweep(pal, img, win, (n - 1) as nat));
        sweep_row(pal, img, win, n - 1, win.width as nat, st)
    }
}

/// The palette index of every pixel of the window, in row-major order.
pub open spec fn dither_picks(pal: Seq<Rgb>, img: RgbaGrid, win: Window) -> Seq<int> {
    sweep(pal, img, win, win.height as nat).picks
}

/// `out` holds, four bytes per pixel, the palette colour of each pick with alpha 255.
pub open spec fn renders(out: Seq<u8>, pal: Seq<Rgb>, picks: Seq<int>) -> bool {
    &&& out.len() == 4 * picks.len()
    &&& forall|p: int|
        0 <= p < picks.len() ==> #[trigger] rgba_at(out, p) == pal[picks[p]] && alpha_at(out, p)
            == 255
}

pub open spec fn within(x: int, n: int) -> bool {
    -n * TONE_LIMIT <= 32 * x <= n * TONE_LIMIT
}

/// Each channel of `t` is at most `n / 32` of the residual limit in magnitude.
pub open spec fn within3(t: (int, int, int), n: int) -> bool {
    within(t.0, n) && within(t.1, n) && within(t.2, n)
}

/// Bounds on the error rows at column `i` of a row inside the source.
pub open spec fn bounded(st: Sweep, i: int, w: int) -> bool {
    &&& st.cur.len() == w
    &&& st.nxt.len() == w
    &&& 0 <= i <= w
    &&& i < w ==> within3(st.cur[i], 25)
    &&& forall|k: int| i < k < w ==> within3(#[trigger] st.cur[k], 18)
    &&& forall|k: int| 0 <= k < i - 1 ==> within3(#[trigger] st.nxt[k], 18)
    &&& i >= 1 ==> within3(st.nxt[i - 1], 11)
    &&& i < w ==> within3(st.nxt[i], 2)
    &&& forall|k: int| i < k < w ==> #[trigger] st.nxt[k] == (0int, 0int, 0int)
}

/// Bounds on the error rows between rows.
pub open spec fn settled(st: Sweep, w: int) -> bool {
    &&& st.cur.len() == w
    &&& st.nxt.len() == w
    &&& forall|k: int| 0 <= k < w ==> within3(#[trigger] st.nxt[k], 18)
}

proof fn lemma_share_bound(e: int, w: int)
    requires
        within(e, 32),
        0 <= w <= 9,
    ensures
        within(share(e, w), w),
{
    let t = TONE_LIMIT as int;
    if e >= 0 {
        assert(0 <= e * w <= t * w) by (nonlinear_arith)
            requires
                0 <= e <= t,
                0 <= w,
        ;
    } else {
        assert(0 <= (-e) * w <= t * w) by (nonlinear_arith)
            requires
                0 < -e <= t,
                0 <= w,
        ;
    }
}

proof fn lemma_share3_bound(e: (int, int, int), w: int)
    requires
        within3(e, 32),
        0 <= w <= 9,
    ensures
        within3(share3(e, w), w),
{
    lemma_share_bound(e.0, w);
    lemma_share_bound(e.1, w);
    lemma_share_bound(e.2, w);
}

/// The shares of column `i` written out branch by branch.
pub open spec fn diffused(
    cur: Seq<(int, int, int)>,
    nxt: Seq<(int, int, int)>,
    i: int,
    w: int,
    e: (int, int, int),
) -> (Seq<(int, int, int)>, Seq<(int, int, int)>) {
    if i == 0 {
        (add_share(cur, i + 1, e, 7), add_share(add_share(nxt, i, e, 7), i + 1, e, 2))
    } else if i == w - 1 {
        (cur, add_share(add_share(nxt, i - 1, e, 7), i, e, 9))
    } else {
        (
            add_share(cur, i + 1, e, 7),
            add_share(add_share(add_share(nxt, i - 1, e, 3), i, e, 5), i + 1, e, 1),
        )
    }
}

proof fn lemma_spread_stencil(
    cur: Seq<(int, int, int)>,
    nxt: Seq<(int, int, int)>,
    i: int,
    w: int,
    e: (int, int, int),
)
    ensures
        spread(cur, nxt, i, e, stencil(i, w)) == diffused(cur, nxt, i, w, e),
{
    let s = stencil(i, w);
    reveal_with_fuel(spread, 5);
    if i == 0 {
        assert(s.drop_last() =~= seq![(true, 0int, 7int), (true, 1int, 2int)]);
        assert(s.drop_last().drop_last() =~= seq![(true, 0int, 7int)]);
        assert(s.drop_last().drop_last().drop_last() =~= Seq::<(bool, int, int)>::empty());
    } else if i == w - 1 {
        assert(s.drop_last() =~= seq![(true, -1int, 7int)]);
        assert(s.drop_last().drop_last() =~= Seq::<(bool, int, int)>::empty());
    } else {
        assert(s.drop_last() =~= seq![(true, -1int, 3int), (true, 0int, 5int), (true, 1int, 1int)]);
        assert(s.drop_last().drop_last() =~= seq![(true, -1int, 3int), (true, 0int, 5int)]);
        assert(s.drop_last().drop_last().drop_last() =~= seq![(true, -1int, 3int)]);
        assert(s.drop_last().drop_last().drop_last().drop_last() =~= Seq::<
            (bool, int, int),
        >::empty());
    }
}

proof fn lemma_diffused_bounded(st: Sweep, i: int, w: int, e: (int, int, int))
    requires
        bounded(st, i, w),
        i < w,
        within3(e, 32),
    ensures
        ({
            let rows = diffused(st.cur, st.nxt, i, w, e);
            bounded(Sweep { picks: st.picks, cur: rows.0, nxt: rows.1 }, i + 1, w)
        }),
{
    lemma_share3_bound(e, 1);
    lemma_share3_bound(e, 2);
    lemma_share3_bound(e, 3);
    lemma_share3_bound(e, 5);
    lemma_share3_bound(e, 7);
    lemma_share3_bound(e, 9);
    let rows = diffused(st.cur, st.nxt, i, w, e);
    let st2 = Sweep { picks: st.picks, cur: rows.0, nxt: rows.1 };
    assert forall|k: int| i + 1 < k < w implies within3(#[trigger] st2.cur[k], 18) by {
        assert(st2.cur[k] == st.cur[k]);
    }
    assert forall|k: int| 0 <= k < i implies within3(#[trigger] st2.nxt[k], 18) by {
        if k < i - 1 {
            assert(st2.nxt[k] == st.nxt[k]);
        }
    }
    assert forall|k: int| i + 1 < k < w implies #[trigger] st2.nxt[k] == (0int, 0int, 0int) by {
        assert(st2.nxt[k] == st.nxt[k]);
    }
}

/// A pixel outside the source keeps the error rows as they are.
proof fn lemma_outside_keeps_rows(st: Sweep, i: int, w: int)
    requires
        bounded(st, i, w),
        i < w,
    ensures
        bounded(Sweep { picks: st.picks, cur: st.cur, nxt: st.nxt }, i + 1, w),
{
}

pub open spec fn tones(v: Seq<Tone>) -> Seq<(int, int, int)> {
    v.map_values(|t: Tone| t@)
}

fn share_of(e: i64, w: i64) -> (r: i64)
    requires
        within(e as int, 32),
        0 <= w <= 9,
    ensures
        r == share(e as int, w as int),
{
    let t = TONE_LIMIT;
    if e >= 0 {
        assert(0 <= e * w <= t * 9) by (nonlinear_arith)
            requires
                0 <= e <= t,
                0 <= w <= 9,
        ;
        e * w / 32
    } else {
        assert(0 <= (-e) * w <= t * 9) by (nonlinear_arith)
            requires
                0 < -e <= t,
                0 <= w <= 9,
        ;
        -((-e) * w / 32)
    }
}

/// Adds `w / 32` of `e` to entry `k` of `row`, when `k` is on the row.
fn add_share_at(row: &mut Vec<Tone>, k: usize, e: Tone, w: i64)
    requires
        within3(e@, 32),
        0 <= w <= 9,
        k < old(row)@.len() ==> within3(old(row)@[k as int]@, 64),
    ensures
        tones(final(row)@) == add_share(tones(old(row)@), k as int, e@, w as int),
        final(row)@.len() == old(row)@.len(),
{
    if k < row.len() {
        let t = row[k];
        let sr = share_of(e.r, w);
        let sg = share_of(e.g, w);
        let sb = share_of(e.b, w);
        proof {
            lemma_share3_bound(e@, w as int);
        }
        row.set(k, Tone { r: t.r + sr, g: t.g + sg, b: t.b + sb });
        assert(tones(row@) =~= add_share(tones(old(row)@), k as int, e@, w as int));
    } else {
        assert(tones(row@) =~= add_share(tones(old(row)@), k as int, e@, w as int));
    }
}

/// Hands the residual `e` of column `i` out to the error rows.
fn diffuse(cur: &mut Vec<Tone>, nxt: &mut Vec<Tone>, i: usize, w: usize, e: Tone)
    requires
        old(cur)@.len() == w,
        old(nxt)@.len() == w,
        i < w,
        within3(e@, 32),
        forall|k: int| i < k < w ==> within3(#[trigger] tones(old(cur)@)[k], 32),
        forall|k: int| 0 <= k < w ==> within3(#[trigger] tones(old(nxt)@)[k], 32),
    ensures
        (tones(final(cur)@), tones(final(nxt)@)) == spread(
            tones(old(cur)@),
            tones(old(nxt)@),
            i as int,
            e@,
            stencil(i as int, w as int),
        ),
        final(cur)@.len() == w,
        final(nxt)@.len() == w,
{
    proof {
        lemma_spread_stencil(tones(old(cur)@), tones(old(nxt)@), i as int, w as int, e@);
    }
    if i == 0 {
        add_share_at(nxt, i, e, 7);
        add_share_at(nxt, i + 1, e, 2);
        add_share_at(cur, i + 1, e, 7);
    } else if i == w - 1 {
        add_share_at(nxt, i - 1, e, 7);
        add_share_at(nxt, i, e, 9);
    } else {
        add_share_at(nxt, i - 1, e, 3);
        add_share_at(nxt, i, e, 5);
        add_share_at(nxt, i + 1, e, 1);
        add_share_at(cur, i + 1, e, 7);
    }
}

fn zero_row(w: usize) -> (r: Vec<Tone>)
    ensures
        tones(r@) == zeros(w as int),
        r@.len() == w,
{
    let mut r: Vec<Tone> = Vec::new();
    let mut k: usize = 0;
    while k < w
        invariant
            k <= w,
            forall|m: int| 0 <= m < k ==> #[trigger] r@[m] == (Tone { r: 0, g: 0, b: 0 }),
            r@.len() == k,
        decreases w - k,
    {
        r.push(Tone { r: 0, g: 0, b: 0 });
        k = k + 1;
    }
    assert(tones(r@) =~= zeros(w as int));
    r
}

fn clear_row(row: &mut Vec<Tone>)
    ensures
        tones(final(row)@) == zeros(old(row)@.len() as int),
        final(row)@.len() == old(row)@.len(),
{
    let n = row.len();
    let mut k: usize = 0;
    while k < n
        invariant
            k <= n,
            row@.len() == n,
            n == old(row)@.len(),
            forall|m: int| 0 <= m < k ==> #[trigger] row@[m] == (Tone { r: 0, g: 0, b: 0 }),
        decreases n - k,
    {
        row.set(k, Tone { r: 0, g: 0, b: 0 });
        k = k + 1;
    }
    assert(tones(row@) =~= zeros(n as int));
}

/// Appends a palette colour with full opacity.
fn push_color(out: &mut Vec<u8>, p: Rgb, Ghost(pal): Ghost<Seq<Rgb>>, Ghost(picks): Ghost<Seq<int>>, Ghost(k): Ghost<int>)
    requires
        renders(old(out)@, pal, picks),
        0 <= k < pal.len(),
        pal[k] == p,
    ensures
        renders(final(out)@, pal, picks.push(k)),
{
    out.push(p.r);
    out.push(p.g);
    out.push(p.b);
    out.push(255);
    let ghost np = picks.push(k);
    assert forall|q: int| 0 <= q < np.len() implies #[trigger] rgba_at(out@, q) == pal[np[q]]
        && alpha_at(out@, q) == 255 by {
        if q < picks.len() {
            assert(rgba_at(out@, q) == rgba_at(old(out)@, q));
        }
    }
}

proof fn lemma_row_start_bounded(st: Sweep, w: int)
    requires
        settled(st, w),
    ensures
        bounded(Sweep { picks: st.picks, cur: st.nxt, nxt: zeros(w) }, 0, w),
{
    let s2 = Sweep { picks: st.picks, cur: st.nxt, nxt: zeros(w) };
    assert forall|k: int| 0 < k < w implies within3(#[trigger] s2.cur[k], 18) by {}
    assert forall|k: int| 0 < k < w implies #[trigger] s2.nxt[k] == (0int, 0int, 0int) by {}
}

proof fn lemma_row_end_settled(st: Sweep, w: int)
    requires
        bounded(st, w, w),
    ensures
        settled(st, w),
{
    assert forall|k: int| 0 <= k < w implies within3(#[trigger] st.nxt[k], 18) by {
        if k < w - 1 {
        } else {
            assert(within3(st.nxt[w - 1], 11));
        }
    }
}

proof fn lemma_bounded_rows_small(st: Sweep, i: int, w: int)
    requires
        bounded(st, i, w),
    ensures
        forall|k: int| i < k < w ==> within3(#[trigger] st.cur[k], 32),
        forall|k: int| 0 <= k < w ==> within3(#[trigger] st.nxt[k], 32),
{
    assert forall|k: int| 0 <= k < w implies within3(#[trigger] st.nxt[k], 32) by {
        if k < i - 1 {
        } else if k == i - 1 {
        } else if k == i {
        } else {
            assert(st.nxt[k] == (0int, 0int, 0int));
        }
    }
}

/// Dithers the window `win` of `img` against `palette`: each pixel inside the
/// source, plus the error diffused onto it, is replaced by its nearest palette
/// colour, and the residual is handed to the unvisited neighbours; each pixel
/// outside the source gets the checkerboard. The result is an RGBA image of
/// the window's size whose pixels are all palette colours with alpha 255.
pub fn dither_window(palette: &[Rgb], img: &RgbaGrid, win: Window) -> (r: RgbaGrid)
    requires
        palette@.len() >= 2,
        img.wf(),
        win.width * win.height * 4 <= usize::MAX,
    ensures
        r.wf(),
        r.width == win.width,
        r.height == win.height,
        renders(r.data@, palette@, dither_picks(palette@, *img, win)),
{
    let w = win.width;
    let ghost pal = palette@;
    let ghost im = *img;
    let _len = img.data.len();
    let mut cur = zero_row(w);
    let mut nxt = zero_row(w);
    let mut out: Vec<u8> = Vec::new();
    let ghost mut st = sweep(pal, im, win, 0);
    let mut j: usize = 0;
    while j < win.height
        invariant
            j <= win.height,
            pal == palette@,
            pal.len() >= 2,
            im == *img,
            img.wf(),
            img.data@.len() <= usize::MAX,
            w == win.width,
            st == sweep(pal, im, win, j as nat),
            settled(st, w as int),
            tones(cur@) == st.cur,
            tones(nxt@) == st.nxt,
            cur@.len() == w,
            nxt@.len() == w,
            renders(out@, pal, st.picks),
            st.picks.len() == j * w,
        decreases win.height - j,
    {
        let y = win.dy as i128 + j as i128;
        let row_in = 0 <= y && y < img.height as i128;
        if row_in {
            std::mem::swap(&mut cur, &mut nxt);
            clear_row(&mut nxt);
        }
        let ghost start = row_start(im, win, j as int, st);
        proof {
            if row_in {
                lemma_row_start_bounded(st, w as int);
            }
            st = start;
        }
        let mut i: usize = 0;
        while i < w
            invariant
                i <= w,
                j < win.height,
                pal == palette@,
                pal.len() >= 2,
                im == *img,
                img.wf(),
                img.data@.len() <= usize::MAX,
                w == win.width,
                y == win.dy + j,
                row_in == row_inside(im, win, j as int),
                st == sweep_row(pal, im, win, j as int, i as nat, start),
                row_in ==> bounded(st, i as int, w as int),
                !row_in ==> st.cur == start.cur && st.nxt == start.nxt,
                !row_in ==> settled(start, w as int),
                tones(cur@) == st.cur,
                tones(nxt@) == st.nxt,
                cur@.len() == w,
                nxt@.len() == w,
                renders(out@, pal, st.picks),
                st.picks.len() == j * w + i,
            decreases w - i,
        {
            let x = win.dx as i128 + i as i128;
            if row_in && 0 <= x && x < img.width as i128 {
                let px = pixel_offset(x as usize, y as usize, img.width, img.height, 4);
                let old_e = cur[i];
                proof {
                    assert(tones(cur@)[i as int] == old_e@);
                }
                let c = Tone {
                    r: img.data[px] as i64 * UNIT + old_e.r,
                    g: img.data[px + 1] as i64 * UNIT + old_e.g,
                    b: img.data[px + 2] as i64 * UNIT + old_e.b,
                };
                let k = nearest_index(palette, c);
                let p = palette[k];
                let e = Tone {
                    r: c.r - p.r as i64 * UNIT,
                    g: c.g - p.g as i64 * UNIT,
                    b: c.b - p.b as i64 * UNIT,
                };
                proof {
                    assert(c@ == add3(src_tone(im, win.dx + i, win.dy + j), st.cur[i as int]));
                    assert(e@ == sub3(c@, tone_of(pal[k as int])));
                    lemma_bounded_rows_small(st, i as int, w as int);
                    lemma_spread_stencil(st.cur, st.nxt, i as int, w as int, e@);
                    lemma_diffused_bounded(st, i as int, w as int, e@);
                }
                diffuse(&mut cur, &mut nxt, i, w, e);
                push_color(&mut out, p, Ghost(pal), Ghost(st.picks), Ghost(k as int));
                proof {
                    st = visit(pal, im, win, j as int, i as int, st);
                }
            } else {
                let k: usize = if (i % 2 + j % 2) % 2 == 0 {
                    1
                } else {
                    0
                };
                proof {
                    assert(k == checkerboard(i as int, j as int));
                    if row_in {
                        lemma_outside_keeps_rows(st, i as int, w as int);
                    }
                }
                push_color(&mut out, palette[k], Ghost(pal), Ghost(st.picks), Ghost(k as int));
                proof {
                    st = visit(pal, im, win, j as int, i as int, st);
                }
            }
            i = i + 1;
        }
        proof {
            if row_in {
                lemma_row_end_settled(st, w as int);
            }
            assert(j * w + w == (j + 1) * w) by (nonlinear_arith);
        }
        j = j + 1;
    }
    proof {
        assert(win.height * w * 4 == w * win.height * 4) by (nonlinear_arith);
    }
    RgbaGrid { width: w, height: win.height, data: out }
}

/// Dithers a whole image against the black / white / dark-red palette.
pub fn dither(img: &RgbaGrid) -> (r: RgbaGrid)
    requires
        img.wf(),
    ensures
        r.wf(),
        r.width == img.width,
        r.height == img.height,
        renders(
            r.data@,
            tri_color(),
            dither_picks(tri_color(), *img, full_window(img.width, img.height)),
        ),
{
    let _len = img.data.len();
    let palette = tri_color_palette();
    let win = Window { dx: 0, dy: 0, width: img.width, height: img.height };
    dither_window(palette.as_slice(), img, win)
}

/// The window that covers a whole `w` by `h` image.
pub open spec fn full_window(w: usize, h: usize) -> Window {
    Window { dx: 0, dy: 0, width: w, height: h }
}

proof fn lemma_share_magnitude(e: int, w: int)
    requires
        0 <= w,
    ensures
        e >= 0 ==> 0 <= 32 * share(e, w) <= e * w,
        e < 0 ==> e * w <= 32 * share(e, w) <= 0,
{
    if e >= 0 {
        assert(0 <= e * w) by (nonlinear_arith)
            requires
                0 <= e,
                0 <= w,
        ;
    } else {
        assert(0 <= (-e) * w) by (nonlinear_arith)
            requires
                0 < -e,
                0 <= w,
        ;
        assert((-e) * w == -(e * w)) by (nonlinear_arith);
    }
}

proof fn lemma_shared_total_bound(e: int, shares: Seq<(bool, int, int)>)
    requires
        forall|k: int| 0 <= k < shares.len() ==> 0 <= #[trigger] shares[k].2,
    ensures
        weight_sum(shares) >= 0,
        e >= 0 ==> 0 <= 32 * shared_total(e, shares) <= e * weight_sum(shares),
        e < 0 ==> e * weight_sum(shares) <= 32 * shared_total(e, shares) <= 0,
    decreases shares.len(),
{
    if shares.len() > 0 {
        let rest = shares.drop_last();
        let w = shares.last().2;
        assert(w == shares[shares.len() - 1].2);
        lemma_shared_total_bound(e, rest);
        lemma_share_magnitude(e, w);
        let ws = weight_sum(rest);
        assert(e * ws + e * w == e * (ws + w)) by (nonlinear_arith);
    }
}

/// Error conservation, bounded: at every column of a row of any width the
/// stencil's weights add up to exactly 16 (in 32nds), so what one pixel hands
/// out of its residual, per channel, is at most half of it in magnitude
/// (targets off the grid are dropped, never renormalised).
pub proof fn lemma_diffusion_weights(i: int, w: int, e: int)
    requires
        0 <= i < w,
    ensures
        weight_sum(stencil(i, w)) == 16,
        e >= 0 ==> 0 <= 32 * shared_total(e, stencil(i, w)) <= 16 * e,
        e < 0 ==> 16 * e <= 32 * shared_total(e, stencil(i, w)) <= 0,
{
    let s = stencil(i, w);
    reveal_with_fuel(weight_sum, 5);
    if i == 0 {
        assert(s.drop_last() =~= seq![(true, 0int, 7int), (true, 1int, 2int)]);
        assert(s.drop_last().drop_last() =~= seq![(true, 0int, 7int)]);
        assert(s.drop_last().drop_last().drop_last() =~= Seq::<(bool, int, int)>::empty());
    } else if i == w - 1 {
        assert(s.drop_last() =~= seq![(true, -1int, 7int)]);
        assert(s.drop_last().drop_last() =~= Seq::<(bool, int, int)>::empty());
    } else {
        assert(s.drop_last() =~= seq![(true, -1int, 3int), (true, 0int, 5int), (true, 1int, 1int)]);
        assert(s.drop_last().drop_last() =~= seq![(true, -1int, 3int), (true, 0int, 5int)]);
        assert(s.drop_last().drop_last().drop_last() =~= seq![(true, -1int, 3int)]);
        assert(s.drop_last().drop_last().drop_last().drop_last() =~= Seq::<
            (bool, int, int),
        >::empty());
    }
    lemma_shared_total_bound(e, s);
    assert(e * 16 == 16 * e);
}

/// Determinism: the dithered bytes are fixed by the palette, the image and the
/// window, so two runs on the same input give byte-identical output.
pub proof fn lemma_dither_deterministic(
    pal: Seq<Rgb>,
    img: RgbaGrid,
    win: Window,
    a: Seq<u8>,
    b: Seq<u8>,
)
    requires
        renders(a, pal, dither_picks(pal, img, win)),
        renders(b, pal, dither_picks(pal, img, win)),
    ensures
        a == b,
{
    let picks = dither_picks(pal, img, win);
    assert forall|m: int| 0 <= m < a.len() implies a[m] == b[m] by {
        let p = m / 4;
        assert(0 <= p < picks.len());
        assert(rgba_at(a, p) == rgba_at(b, p));
        assert(alpha_at(a, p) == alpha_at(b, p));
        assert(m == 4 * p || m == 4 * p + 1 || m == 4 * p + 2 || m == 4 * p + 3);
    }
    assert(a =~= b);
}

pub open spec fn picks_valid(picks: Seq<int>, n: int) -> bool {
    forall|k: int| 0 <= k < picks.len() ==> 0 <= #[trigger] picks[k] < n
}

/// Index of pixel `(i, j)` in a row-major sequence of rows of width `w`.
pub open spec fn pick_at(picks: Seq<int>, w: int, i: int, j: int) -> int {
    picks[j * w + i]
}

proof fn lemma_sweep_row_facts(
    pal: Seq<Rgb>,
    img: RgbaGrid,
    win: Window,
    j: int,
    n: nat,
    st: Sweep,
)
    requires
        pal.len() >= 2,
        n <= win.width,
        st.cur.len() == win.width,
        st.nxt.len() == win.width,
        picks_valid(st.picks, pal.len() as int),
    ensures
        ({
            let r = sweep_row(pal, img, win, j, n, st);
            &&& r.picks.len() == st.picks.len() + n
            &&& r.cur.len() == win.width
            &&& r.nxt.len() == win.width
            &&& picks_valid(r.picks, pal.len() as int)
            &&& forall|m: int| 0 <= m < st.picks.len() ==> #[trigger] r.picks[m] == st.picks[m]
            &&& forall|i: int|
                0 <= i < n && !inside(img, win, i, j) ==> #[trigger] r.picks[st.picks.len() + i]
                    == checkerboard(i, j)
        }),
    decreases n,
{
    if n > 0 {
        let prev = sweep_row(pal, img, win, j, (n - 1) as nat, st);
        lemma_sweep_row_facts(pal, img, win, j, (n - 1) as nat, st);
        let i = n - 1;
        if inside(img, win, i, j) {
            let c = add3(src_tone(img, win.dx + i, win.dy + j), prev.cur[i]);
            lemma_nearest_is_nearest(pal, c);
            let e = sub3(c, tone_of(pal[nearest(pal, c)]));
            lemma_spread_stencil(prev.cur, prev.nxt, i, win.width as int, e);
        }
        let r = sweep_row(pal, img, win, j, n, st);
        assert forall|k: int| 0 <= k < r.picks.len() implies 0 <= #[trigger] r.picks[k] < pal.len() by {
            if k < prev.picks.len() {
                assert(r.picks[k] == prev.picks[k]);
            }
        }
        assert forall|m: int| 0 <= m < st.picks.len() implies #[trigger] r.picks[m] == st.picks[m] by {
            assert(r.picks[m] == prev.picks[m]);
        }
        assert forall|i2: int| 0 <= i2 < n && !inside(img, win, i2, j) implies #[trigger] r.picks[
            st.picks.len() + i2] == checkerboard(i2, j) by {
            if i2 < n - 1 {
                assert(r.picks[st.picks.len() + i2] == prev.picks[st.picks.len() + i2]);
            }
        }
    }
}

proof fn lemma_sweep_facts(pal: Seq<Rgb>, img: RgbaGrid, win: Window, n: nat)
    requires
        pal.len() >= 2,
        n <= win.height,
    ensures
        ({
            let r = sweep(pal, img, win, n);
            &&& r.picks.len() == n * win.width
            &&& r.cur.len() == win.width
            &&& r.nxt.len() == win.width
            &&& picks_valid(r.picks, pal.len() as int)
            &&& forall|i: int, j: int|
                0 <= i < win.width && 0 <= j < n && !inside(img, win, i, j) ==> #[trigger] pick_at(
                    r.picks,
                    win.width as int,
                    i,
                    j,
                ) == checkerboard(i, j)
        }),
    decreases n,
{
    let w = win.width as int;
    if n > 0 {
        let prev = sweep(pal, img, win, (n - 1) as nat);
        lemma_sweep_facts(pal, img, win, (n - 1) as nat);
        let st = row_start(img, win, n - 1, prev);
        lemma_sweep_row_facts(pal, img, win, n - 1, win.width as nat, st);
        let r = sweep(pal, img, win, n);
        assert((n - 1) * w + w == n * w) by (nonlinear_arith);
        assert forall|i: int, j: int|
            0 <= i < w && 0 <= j < n && !inside(img, win, i, j) implies #[trigger] pick_at(
            r.picks,
            w,
            i,
            j,
        ) == checkerboard(i, j) by {
            if j < n - 1 {
                assert(j * w + i < (n - 1) * w) by (nonlinear_arith)
                    requires
                        0 <= i < w,
                        0 <= j < n - 1,
                ;
                assert(0 <= j * w + i) by (nonlinear_arith)
                    requires
                        0 <= i,
                        0 <= j,
                        0 <= w,
                ;
                assert(r.picks[j * w + i] == st.picks[j * w + i]);
                assert(pick_at(prev.picks, w, i, j) == checkerboard(i, j));
            } else {
                assert(r.picks[st.picks.len() + i] == checkerboard(i, j));
            }
        }
    }
}

/// `c` is one of the palette's colours.
pub open spec fn in_palette(pal: Seq<Rgb>, c: Rgb) -> bool {
    exists|k: int| 0 <= k < pal.len() && pal[k] == c
}

/// Palette closure: every pixel that the sweep writes is a palette colour
/// with alpha 255.
pub proof fn lemma_palette_closure(pal: Seq<Rgb>, img: RgbaGrid, win: Window, out: Seq<u8>)
    requires
        pal.len() >= 2,
        renders(out, pal, dither_picks(pal, img, win)),
    ensures
        forall|p: int|
            0 <= p < out.len() / 4 ==> #[trigger] in_palette(pal, rgba_at(out, p)) && alpha_at(
                out,
                p,
            ) == 255,
{
    lemma_sweep_facts(pal, img, win, win.height as nat);
    let picks = dither_picks(pal, img, win);
    assert forall|p: int| 0 <= p < out.len() / 4 implies #[trigger] in_palette(
        pal,
        rgba_at(out, p),
    ) && alpha_at(out, p) == 255 by {
        assert(0 <= picks[p] < pal.len());
        assert(pal[picks[p]] == rgba_at(out, p));
    }
}

/// Checkerboard fallback: a pixel of the window outside the source is white
/// where `i + j` is even and black elsewhere (palette indices 1 and 0).
pub proof fn lemma_outside_checkerboard(
    pal: Seq<Rgb>,
    img: RgbaGrid,
    win: Window,
    out: Seq<u8>,
    i: int,
    j: int,
)
    requires
        pal.len() >= 2,
        renders(out, pal, dither_picks(pal, img, win)),
        0 <= i < win.width,
        0 <= j < win.height,
        !inside(img, win, i, j),
    ensures
        rgba_at(out, j * win.width + i) == pal[checkerboard(i, j)],
        alpha_at(out, j * win.width + i) == 255,
{
    let w = win.width as int;
    lemma_sweep_facts(pal, img, win, win.height as nat);
    assert(pick_at(dither_picks(pal, img, win), w, i, j) == checkerboard(i, j));
    assert(j * w + i < win.height * w) by (nonlinear_arith)
        requires
            0 <= i < w,
            0 <= j < win.height,
    ;
    assert(0 <= j * w + i) by (nonlinear_arith)
        requires
            0 <= i,
            0 <= j,
            0 <= w,
    ;
}

/// A pixel outside the source, and a row outside it, leave both error rows
/// untouched.
pub proof fn lemma_outside_keeps_state(
    pal: Seq<Rgb>,
    img: RgbaGrid,
    win: Window,
    j: int,
    i: int,
    st: Sweep,
)
    ensures
        !inside(img, win, i, j) ==> visit(pal, img, win, j, i, st).cur == st.cur && visit(
            pal,
            img,
            win,
            j,
            i,
            st,
        ).nxt == st.nxt,
        !row_inside(img, win, j) ==> row_start(img, win, j, st) == st,
{
}

} // verus!
