//! Small terminal charts: a segmented bar, a heat strip, a column chart.
//! Each segment uses its own block character as well as its own color, so
//! the shapes still read under `NO_COLOR`.

use vstd::prelude::*;

use crate::strs::{dec, dec_string, owned, push_char, push_str, trim_end};
use crate::term::{painted, Style};
use crate::text::{pad_left, pad_right, spec_pad_left, spec_pad_right, strings_view};

verus! {

/// How a piece of a chart is colored.
#[derive(Clone, Copy, Debug, PartialEq, Eq, Structural)]
pub enum Paint {
    Plain,
    Dim,
    Bold,
    Green,
    Red,
    Yellow,
}

pub open spec fn spec_apply(p: Paint, on: bool, s: Seq<char>) -> Seq<char> {
    match p {
        Paint::Plain => s,
        Paint::Dim => painted(on, "2"@, s),
        Paint::Bold => painted(on, "1"@, s),
        Paint::Green => painted(on, "32"@, s),
        Paint::Red => painted(on, "31"@, s),
        Paint::Yellow => painted(on, "33"@, s),
    }
}

/// `s` in the given paint.
pub fn apply(p: Paint, style: Style, s: &str) -> (r: String)
    ensures
        r@ == spec_apply(p, style.on, s@),
{
    match p {
        Paint::Plain => owned(s),
        Paint::Dim => style.dim(s),
        Paint::Bold => style.bold(s),
        Paint::Green => style.green(s),
        Paint::Red => style.red(s),
        Paint::Yellow => style.yellow(s),
    }
}

/// One part of a segmented bar.
#[derive(Clone, Copy, Debug)]
pub struct Segment {
    pub n: usize,
    pub ch: char,
    pub paint: Paint,
}

/// `c` repeated `n` times.
pub open spec fn rep(c: char, n: nat) -> Seq<char> {
    Seq::new(n, |i: int| c)
}

fn push_rep(s: &mut String, c: char, n: usize)
    ensures
        final(s)@ == old(s)@ + rep(c, n as nat),
{
    let ghost start = s@;
    let mut k: usize = 0;
    while k < n
        invariant
            k <= n,
            s@ == start + rep(c, k as nat),
        decreases n - k,
    {
        push_char(s, c);
        k = k + 1;
        assert(s@ =~= start + rep(c, k as nat));
    }
}

fn rep_string(c: char, n: usize) -> (r: String)
    ensures
        r@ == rep(c, n as nat),
{
    let mut s = String::new();
    push_rep(&mut s, c, n);
    assert(s@ =~= rep(c, n as nat));
    s
}

pub open spec fn seg_sum(segs: Seq<Segment>) -> nat
    decreases segs.len(),
{
    if segs.len() == 0 {
        0
    } else {
        seg_sum(segs.drop_last()) + segs.last().n as nat
    }
}

pub open spec fn sum(ws: Seq<nat>) -> nat
    decreases ws.len(),
{
    if ws.len() == 0 {
        0
    } else {
        sum(ws.drop_last()) + ws.last()
    }
}

/// `x / total * cells`, rounded half away from zero.
pub open spec fn scaled(x: nat, total: nat, cells: nat) -> nat {
    ((2 * x * cells + total) / (2 * total)) as nat
}

/// Widths before trimming, with the cumulative count and the cells used.
pub open spec fn raw_widths(segs: Seq<Segment>, total: nat, cells: nat) -> (Seq<nat>, nat, nat)
    decreases segs.len(),
{
    if segs.len() == 0 {
        (Seq::empty(), 0, 0)
    } else {
        let (ws, cum, prev_end) = raw_widths(segs.drop_last(), total, cells);
        let cum2: nat = cum + segs.last().n as nat;
        let end = scaled(cum2, total, cells);
        let w0: nat = if end >= prev_end {
            (end - prev_end) as nat
        } else {
            0
        };
        let w: nat = if segs.last().n > 0 && w0 == 0 {
            1
        } else {
            w0
        };
        (ws.push(w), cum2, (prev_end + w) as nat)
    }
}

/// Index of the widest, the last one among equals.
pub open spec fn widest(ws: Seq<nat>) -> int
    decreases ws.len(),
{
    if ws.len() <= 1 {
        0
    } else {
        let i = widest(ws.drop_last());
        if ws.last() >= ws[i] {
            ws.len() - 1
        } else {
            i
        }
    }
}

/// Rounding up small segments can overflow: take a cell from the widest
/// until the widths fit.
pub open spec fn trim_widths(ws: Seq<nat>, cells: nat) -> Seq<nat>
    decreases sum(ws),
{
    if sum(ws) > cells && ws.len() > 0 && ws[widest(ws)] > 0 {
        proof {
            lemma_widest(ws);
            lemma_sum_update(ws, widest(ws), (ws[widest(ws)] - 1) as nat);
        }
        trim_widths(ws.update(widest(ws), (ws[widest(ws)] - 1) as nat), cells)
    } else {
        ws
    }
}

/// The widths of a bar's segments.
pub open spec fn bar_widths(segs: Seq<Segment>, total: nat, cells: nat) -> Seq<nat> {
    if total == 0 {
        Seq::new(segs.len(), |i: int| 0nat)
    } else {
        trim_widths(raw_widths(segs, total, cells).0, cells)
    }
}

/// The segments drawn at their widths.
pub open spec fn draw(segs: Seq<Segment>, ws: Seq<nat>, on: bool) -> Seq<char>
    decreases segs.len(),
{
    if segs.len() == 0 {
        Seq::empty()
    } else {
        let k = segs.len() - 1;
        draw(segs.drop_last(), ws, on) + if ws[k] > 0 {
            spec_apply(segs[k].paint, on, rep(segs[k].ch, ws[k]))
        } else {
            Seq::empty()
        }
    }
}

/// A bar `cells` wide with segments in proportion to their counts out of
/// `total`; the remainder is dim `░`.
pub open spec fn spec_bar(on: bool, segs: Seq<Segment>, total: nat, cells: nat) -> Seq<char> {
    let ws = bar_widths(segs, total, cells);
    let used = sum(ws);
    draw(segs, ws, on) + if used < cells {
        painted(on, "2"@, rep('░', (cells - used) as nat))
    } else {
        Seq::empty()
    }
}

proof fn lemma_sum_push(ws: Seq<nat>, w: nat)
    ensures
        sum(ws.push(w)) == sum(ws) + w,
{
    assert(ws.push(w).drop_last() =~= ws);
}

pub proof fn lemma_sum_update(ws: Seq<nat>, i: int, w: nat)
    requires
        0 <= i < ws.len(),
    ensures
        sum(ws.update(i, w)) + ws[i] == sum(ws) + w,
    decreases ws.len(),
{
    let u = ws.update(i, w);
    if i == ws.len() - 1 {
        assert(u.drop_last() =~= ws.drop_last());
    } else {
        lemma_sum_update(ws.drop_last(), i, w);
        assert(u.drop_last() =~= ws.drop_last().update(i, w));
    }
}

pub proof fn lemma_widest(ws: Seq<nat>)
    requires
        ws.len() > 0,
    ensures
        0 <= widest(ws) < ws.len(),
        forall|j: int| 0 <= j < ws.len() ==> #[trigger] ws[j] <= ws[widest(ws)],
        forall|j: int| widest(ws) < j < ws.len() ==> #[trigger] ws[j] < ws[widest(ws)],
    decreases ws.len(),
{
    if ws.len() > 1 {
        let d = ws.drop_last();
        lemma_widest(d);
        let i = widest(d);
        assert(forall|j: int| 0 <= j < d.len() ==> d[j] == ws[j]);
    }
}

proof fn lemma_sum_zero_max(ws: Seq<nat>)
    requires
        forall|j: int| 0 <= j < ws.len() ==> ws[j] == 0,
    ensures
        sum(ws) == 0,
    decreases ws.len(),
{
    if ws.len() > 0 {
        lemma_sum_zero_max(ws.drop_last());
    }
}

proof fn lemma_trim_fits(ws: Seq<nat>, cells: nat)
    ensures
        sum(trim_widths(ws, cells)) <= cells,
        trim_widths(ws, cells).len() == ws.len(),
    decreases sum(ws),
{
    if ws.len() > 0 {
        lemma_widest(ws);
    }
    if sum(ws) > cells && ws.len() > 0 && ws[widest(ws)] > 0 {
        let i = widest(ws);
        lemma_sum_update(ws, i, (ws[i] - 1) as nat);
        lemma_trim_fits(ws.update(i, (ws[i] - 1) as nat), cells);
    } else if sum(ws) > cells && ws.len() > 0 {
        lemma_widest(ws);
        lemma_sum_zero_max(ws);
    } else if sum(ws) > cells {
        assert(sum(ws) == 0);
    }
}

fn sum_exec(ws: &Vec<usize>) -> (r: u128)
    requires
        ws@.len() <= usize::MAX,
    ensures
        r as nat == sum(ws@.map_values(|x: usize| x as nat)),
{
    let ghost wn = ws@.map_values(|x: usize| x as nat);
    let mut t: u128 = 0;
    let mut i: usize = 0;
    while i < ws.len()
        invariant
            i <= ws@.len(),
            wn == ws@.map_values(|x: usize| x as nat),
            t as nat == sum(wn.take(i as int)),
            t <= i * 0xFFFF_FFFF_FFFF_FFFF,
        decreases ws@.len() - i,
    {
        proof {
            assert(wn.take(i + 1).drop_last() =~= wn.take(i as int));
            assert(wn.take(i + 1).last() == ws@[i as int] as nat);
        }
        assert(t + ws[i as int] <= (i + 1) * 0xFFFF_FFFF_FFFF_FFFF) by (nonlinear_arith)
            requires
                t <= i * 0xFFFF_FFFF_FFFF_FFFF,
                ws[i as int] <= 0xFFFF_FFFF_FFFF_FFFF,
        ;
        assert((i + 1) * 0xFFFF_FFFF_FFFF_FFFF <= 0xFFFF_FFFF_FFFF_FFFF * 0xFFFF_FFFF_FFFF_FFFF) by (nonlinear_arith)
            requires
                i + 1 <= 0xFFFF_FFFF_FFFF_FFFF,
        ;
        t = t + ws[i] as u128;
        i = i + 1;
    }
    assert(wn.take(i as int) =~= wn);
    t
}

fn widest_exec(ws: &Vec<usize>) -> (r: usize)
    requires
        ws@.len() > 0,
    ensures
        r == widest(ws@.map_values(|x: usize| x as nat)),
{
    let ghost wn = ws@.map_values(|x: usize| x as nat);
    let mut best: usize = 0;
    let mut i: usize = 1;
    assert(wn.take(1).len() == 1);
    while i < ws.len()
        invariant
            1 <= i <= ws@.len(),
            wn == ws@.map_values(|x: usize| x as nat),
            best == widest(wn.take(i as int)),
            best < i,
        decreases ws@.len() - i,
    {
        proof {
            assert(wn.take(i + 1).drop_last() =~= wn.take(i as int));
            assert(wn.take(i + 1).last() == ws@[i as int] as nat);
            assert(wn.take(i as int)[best as int] == ws@[best as int] as nat);
        }
        if ws[i] >= ws[best] {
            best = i;
        }
        i = i + 1;
    }
    assert(wn.take(i as int) =~= wn);
    best
}

/// Draws a bar `cells` wide with segments in proportion to their counts
/// out of `total`. Any nonzero segment gets at least one cell while there
/// are enough cells; the remainder is dim `░`.
pub fn bar(style: Style, segments: &[Segment], total: usize, cells: usize) -> (r: String)
    requires
        seg_sum(segments@) * cells + segments@.len() + 1 <= usize::MAX,
    ensures
        r@ == spec_bar(style.on, segments@, total as nat, cells as nat),
        !style.on ==> r@.len() == cells,
{
    let mut widths: Vec<usize> = Vec::new();
    if total == 0 {
        let mut k: usize = 0;
        while k < segments.len()
            invariant
                k <= segments@.len(),
                widths@.len() == k,
                forall|i: int| 0 <= i < k ==> widths@[i] == 0,
            decreases segments@.len() - k,
        {
            widths.push(0);
            k = k + 1;
        }
        assert(widths@.map_values(|x: usize| x as nat) =~= Seq::new(k as nat, |i: int| 0nat));
    } else {
        let mut cum: u128 = 0;
        let mut prev_end: u128 = 0;
        let mut k: usize = 0;
        assert(segments@.take(0) =~= Seq::<Segment>::empty());
        while k < segments.len()
            invariant
                k <= segments@.len(),
                total > 0,
                seg_sum(segments@) * cells + segments@.len() + 1 <= usize::MAX,
                (widths@.map_values(|x: usize| x as nat), cum as nat, prev_end as nat) == raw_widths(
                    segments@.take(k as int),
                    total as nat,
                    cells as nat,
                ),
                seg_sum(segments@.take(k as int)) == cum,
                cum <= seg_sum(segments@),
                prev_end <= cum * cells + 1 + k,
            decreases segments@.len() - k,
        {
            proof {
                assert(segments@.take(k + 1).drop_last() =~= segments@.take(k as int));
                assert(segments@.take(k + 1).last() == segments@[k as int]);
                lemma_seg_sum_prefix(segments@, k + 1);
            }
            let seg = segments[k];
            let ghost cum0 = cum;
            proof {
                lemma_seg_sum_bound(segments@);
                assert(seg_sum(segments@.take(k + 1)) == cum + seg.n);
            }
            cum = cum + seg.n as u128;
            assert(cum * cells <= seg_sum(segments@) * cells) by (nonlinear_arith)
                requires
                    cum <= seg_sum(segments@),
            ;
            assert(cum0 * cells <= cum * cells) by (nonlinear_arith)
                requires
                    cum0 <= cum,
            ;
            assert(2 * cum * cells == 2 * (cum * cells)) by (nonlinear_arith);
            assert(2 * cum * cells + total <= 3 * 0xFFFF_FFFF_FFFF_FFFF);
            let cc: u128 = cum * (cells as u128);
            let end: u128 = (2 * cc + total as u128) / (2 * total as u128);
            assert(end <= cum * cells + 1) by (nonlinear_arith)
                requires
                    end == (2 * cum * cells + total) / (2 * total),
                    total > 0,
            ;
            let mut w: u128 = if end >= prev_end {
                end - prev_end
            } else {
                0
            };
            if seg.n > 0 && w == 0 {
                w = 1;
            }
            widths.push(w as usize);
            prev_end = prev_end + w;
            k = k + 1;
        }
        assert(segments@.take(k as int) =~= segments@);
        // The widths add up to where the last segment ends.
        proof {
            lemma_raw_sum(segments@, total as nat, cells as nat);
        }
        let ghost wn0 = widths@.map_values(|x: usize| x as nat);
        let mut used = sum_exec(&widths);
        assert(trim_widths(wn0, cells as nat) == trim_widths(widths@.map_values(|x: usize| x as nat), cells as nat));
        while used > cells as u128
            invariant
                trim_widths(wn0, cells as nat) == trim_widths(widths@.map_values(|x: usize| x as nat), cells as nat),
                used as nat == sum(widths@.map_values(|x: usize| x as nat)),
                widths@.len() == segments@.len(),
            decreases used,
        {
            let ghost wn = widths@.map_values(|x: usize| x as nat);
            proof {
                if widths@.len() == 0 {
                    assert(wn.len() == 0);
                    assert(sum(wn) == 0);
                }
            }
            let i = widest_exec(&widths);
            proof {
                lemma_widest(wn);
                if wn[i as int] == 0 {
                    assert forall|j: int| 0 <= j < wn.len() implies wn[j] == 0 by {
                        assert(wn[j] <= wn[i as int]);
                    }
                    lemma_sum_zero_max(wn);
                }
                assert(wn[i as int] == widths@[i as int] as nat);
            }
            widths.set(i, widths[i] - 1);
            proof {
                assert(widths@.map_values(|x: usize| x as nat) =~= wn.update(i as int, (wn[i as int] - 1) as nat));
                lemma_sum_update(wn, i as int, (wn[i as int] - 1) as nat);
            }
            used = used - 1;
        }
        proof {
            lemma_trim_fits(wn0, cells as nat);
            let cur = widths@.map_values(|x: usize| x as nat);
            assert(sum(cur) <= cells);
            assert(trim_widths(cur, cells as nat) == cur);
        }
    }
    let ghost ws = widths@.map_values(|x: usize| x as nat);
    assert(ws == bar_widths(segments@, total as nat, cells as nat));
    let mut out = String::new();
    let mut k: usize = 0;
    assert(out@ =~= draw(segments@.take(0), ws, style.on));
    while k < segments.len()
        invariant
            k <= segments@.len(),
            widths@.len() == segments@.len(),
            ws == widths@.map_values(|x: usize| x as nat),
            out@ == draw(segments@.take(k as int), ws, style.on),
        decreases segments@.len() - k,
    {
        proof {
            assert(segments@.take(k + 1).drop_last() =~= segments@.take(k as int));
            assert(segments@.take(k + 1)[k as int] == segments@[k as int]);
        }
        let w = widths[k];
        if w > 0 {
            let piece = rep_string(segments[k].ch, w);
            let painted_piece = apply(segments[k].paint, style, piece.as_str());
            push_str(&mut out, painted_piece.as_str());
        }
        k = k + 1;
    }
    assert(segments@.take(k as int) =~= segments@);
    let used = sum_exec(&widths);
    if used < cells as u128 {
        let rest = rep_string('░', cells - used as usize);
        let d = style.dim(rest.as_str());
        push_str(&mut out, d.as_str());
    }
    proof {
        if !style.on {
            lemma_draw_plain_len(segments@, ws);
            if total > 0 {
                lemma_trim_fits(raw_widths(segments@, total as nat, cells as nat).0, cells as nat);
            } else {
                lemma_sum_zero_max(ws);
            }
        }
    }
    out
}

proof fn lemma_raw_sum(segs: Seq<Segment>, total: nat, cells: nat)
    ensures
        sum(raw_widths(segs, total, cells).0) == raw_widths(segs, total, cells).2,
        raw_widths(segs, total, cells).0.len() == segs.len(),
    decreases segs.len(),
{
    if segs.len() > 0 {
        lemma_raw_sum(segs.drop_last(), total, cells);
        let (ws, cum, pe) = raw_widths(segs.drop_last(), total, cells);
        let (ws2, _, _) = raw_widths(segs, total, cells);
        lemma_sum_push(ws, ws2.last());
        assert(ws2 == ws.push(ws2.last()));
    }
}

/// How many segments have a nonzero count.
pub open spec fn nonzero_count(segs: Seq<Segment>) -> nat
    decreases segs.len(),
{
    if segs.len() == 0 {
        0
    } else {
        nonzero_count(segs.drop_last()) + if segs.last().n > 0 {
            1nat
        } else {
            0nat
        }
    }
}

/// Each width is at least one where the segment's count is nonzero and
/// zero where it is zero.
pub open spec fn shows_nonzero(segs: Seq<Segment>, ws: Seq<nat>) -> bool {
    &&& ws.len() == segs.len()
    &&& forall|i: int| 0 <= i < segs.len() ==> (#[trigger] segs[i]).n > 0 ==> ws[i] >= 1
    &&& forall|i: int| 0 <= i < segs.len() ==> (#[trigger] segs[i]).n == 0 ==> ws[i] == 0
}

proof fn lemma_raw_shows(segs: Seq<Segment>, total: nat, cells: nat)
    requires
        total > 0,
    ensures
        shows_nonzero(segs, raw_widths(segs, total, cells).0),
        raw_widths(segs, total, cells).2 >= scaled(raw_widths(segs, total, cells).1, total, cells),
    decreases segs.len(),
{
    lemma_raw_sum(segs, total, cells);
    if segs.len() > 0 {
        let d = segs.drop_last();
        lemma_raw_shows(d, total, cells);
        lemma_raw_sum(d, total, cells);
        let (ws, cum, prev_end) = raw_widths(d, total, cells);
        let (ws2, cum2, end2) = raw_widths(segs, total, cells);
        assert(ws2 == ws.push(ws2.last()));
        assert forall|i: int| 0 <= i < segs.len() implies ((#[trigger] segs[i]).n > 0 ==> ws2[i] >= 1)
            && (segs[i].n == 0 ==> ws2[i] == 0) by {
            if i < d.len() {
                assert(segs[i] == d[i]);
            }
        }
    } else {
        assert((2 * 0 * cells + total) / (2 * total) == 0) by (nonlinear_arith)
            requires
                total > 0,
        ;
    }
}

proof fn lemma_sum_at_most_nonzero(segs: Seq<Segment>, ws: Seq<nat>)
    requires
        ws.len() == segs.len(),
        forall|i: int| 0 <= i < segs.len() ==> #[trigger] ws[i] <= (if segs[i].n > 0 {
            1nat
        } else {
            0nat
        }),
    ensures
        sum(ws) <= nonzero_count(segs),
    decreases segs.len(),
{
    if segs.len() > 0 {
        let d = segs.drop_last();
        let dw = ws.drop_last();
        assert forall|i: int| 0 <= i < d.len() implies #[trigger] dw[i] <= (if d[i].n > 0 {
            1nat
        } else {
            0nat
        }) by {
            assert(dw[i] == ws[i] && d[i] == segs[i]);
        }
        lemma_sum_at_most_nonzero(d, dw);
        assert(ws[ws.len() - 1] <= (if segs[segs.len() - 1].n > 0 {
            1nat
        } else {
            0nat
        }));
    }
}

proof fn lemma_trim_shows(segs: Seq<Segment>, ws: Seq<nat>, cells: nat)
    requires
        shows_nonzero(segs, ws),
        nonzero_count(segs) <= cells,
    ensures
        shows_nonzero(segs, trim_widths(ws, cells)),
    decreases sum(ws),
{
    if ws.len() > 0 {
        lemma_widest(ws);
    }
    if sum(ws) > cells && ws.len() > 0 && ws[widest(ws)] > 0 {
        let i = widest(ws);
        if ws[i] <= 1 {
            assert forall|j: int| 0 <= j < segs.len() implies #[trigger] ws[j] <= (if segs[j].n > 0 {
                1nat
            } else {
                0nat
            }) by {
                assert(ws[j] <= ws[i]);
                if segs[j].n == 0 {
                    assert(ws[j] == 0);
                }
            }
            lemma_sum_at_most_nonzero(segs, ws);
            assert(false);
        }
        let u = ws.update(i, (ws[i] - 1) as nat);
        lemma_sum_update(ws, i, (ws[i] - 1) as nat);
        assert(segs[i].n > 0);
        assert forall|j: int| 0 <= j < segs.len() implies ((#[trigger] segs[j]).n > 0 ==> u[j] >= 1)
            && (segs[j].n == 0 ==> u[j] == 0) by {
            if j == i {
                assert(u[j] == ws[i] - 1);
            } else {
                assert(u[j] == ws[j]);
            }
        }
        lemma_trim_shows(segs, u, cells);
    }
}

/// While there are cells enough for all of them, every segment with a
/// nonzero count is drawn at least one cell wide, and a segment with a
/// zero count is not drawn.
pub proof fn lemma_bar_shows_nonzero(segs: Seq<Segment>, total: nat, cells: nat)
    requires
        total > 0,
        nonzero_count(segs) <= cells,
    ensures
        shows_nonzero(segs, bar_widths(segs, total, cells)),
{
    lemma_raw_shows(segs, total, cells);
    lemma_trim_shows(segs, raw_widths(segs, total, cells).0, cells);
}

proof fn lemma_draw_plain_len(segs: Seq<Segment>, ws: Seq<nat>)
    requires
        ws.len() == segs.len(),
    ensures
        draw(segs, ws, false).len() == sum(ws),
    decreases segs.len(),
{
    if segs.len() > 0 {
        lemma_draw_plain_len(segs.drop_last(), ws.drop_last());
        lemma_draw_prefix(segs.drop_last(), ws, ws.drop_last(), false);
        assert(ws.drop_last().push(ws.last()) =~= ws);
        lemma_sum_push(ws.drop_last(), ws.last());
        let k = segs.len() - 1;
        match segs[k].paint {
            _ => {},
        }
    }
}

/// Drawing looks only at the widths of the segments drawn.
proof fn lemma_draw_prefix(segs: Seq<Segment>, ws: Seq<nat>, ws2: Seq<nat>, on: bool)
    requires
        segs.len() <= ws.len(),
        segs.len() <= ws2.len(),
        forall|i: int| 0 <= i < segs.len() ==> ws[i] == ws2[i],
    ensures
        draw(segs, ws, on) == draw(segs, ws2, on),
    decreases segs.len(),
{
    if segs.len() > 0 {
        lemma_draw_prefix(segs.drop_last(), ws, ws2, on);
    }
}

proof fn lemma_seg_sum_bound(segs: Seq<Segment>)
    ensures
        seg_sum(segs) <= segs.len() * 0xFFFF_FFFF_FFFF_FFFF,
    decreases segs.len(),
{
    if segs.len() > 0 {
        lemma_seg_sum_bound(segs.drop_last());
    }
}

proof fn lemma_seg_sum_prefix(segs: Seq<Segment>, k: int)
    requires
        0 <= k <= segs.len(),
    ensures
        seg_sum(segs.take(k)) <= seg_sum(segs),
    decreases segs.len(),
{
    if k == segs.len() {
        assert(segs.take(k) =~= segs);
    } else {
        assert(segs.take(k) =~= segs.drop_last().take(k));
        lemma_seg_sum_prefix(segs.drop_last(), k);
    }
}


/// Block characters by eighths of a cell.
pub open spec fn block(level: nat) -> char {
    if level == 0 {
        ' '
    } else if level == 1 {
        '▁'
    } else if level == 2 {
        '▂'
    } else if level == 3 {
        '▃'
    } else if level == 4 {
        '▄'
    } else if level == 5 {
        '▅'
    } else if level == 6 {
        '▆'
    } else if level == 7 {
        '▇'
    } else {
        '█'
    }
}

fn block_exec(level: usize) -> (c: char)
    ensures
        c == block(level as nat),
{
    if level == 0 {
        ' '
    } else if level == 1 {
        '▁'
    } else if level == 2 {
        '▂'
    } else if level == 3 {
        '▃'
    } else if level == 4 {
        '▄'
    } else if level == 5 {
        '▅'
    } else if level == 6 {
        '▆'
    } else if level == 7 {
        '▇'
    } else {
        '█'
    }
}

/// The largest value, 0 for none.
pub open spec fn max_of(vs: Seq<usize>) -> nat
    decreases vs.len(),
{
    if vs.len() == 0 {
        0
    } else {
        let m = max_of(vs.drop_last());
        if vs.last() > m {
            vs.last() as nat
        } else {
            m
        }
    }
}

fn max_exec(vs: &[usize]) -> (m: usize)
    ensures
        m as nat == max_of(vs@),
{
    let mut m: usize = 0;
    let mut i: usize = 0;
    while i < vs.len()
        invariant
            i <= vs@.len(),
            m as nat == max_of(vs@.take(i as int)),
        decreases vs@.len() - i,
    {
        proof {
            assert(vs@.take(i + 1).drop_last() =~= vs@.take(i as int));
            assert(vs@.take(i + 1).last() == vs@[i as int]);
        }
        if vs[i] > m {
            m = vs[i];
        }
        i = i + 1;
    }
    assert(vs@.take(i as int) =~= vs@);
    m
}

/// One cell of a heat strip: height by value relative to the max. Zero is a
/// dim `▁`; the top third of the range is bold.
pub open spec fn strip_cell(on: bool, v: nat, max: nat) -> Seq<char> {
    if v == 0 || max == 0 {
        painted(on, "2"@, "▁"@)
    } else {
        let raw = (8 * v + max - 1) / (max as int);
        let level: nat = if raw < 1 {
            1
        } else if raw > 8 {
            8
        } else {
            raw as nat
        };
        let ch = seq![block(level)];
        if 3 * v >= 2 * max {
            painted(on, "1"@, painted(on, "32"@, ch))
        } else {
            painted(on, "32"@, ch)
        }
    }
}

pub open spec fn strip_cells(on: bool, vs: Seq<usize>, max: nat) -> Seq<char>
    decreases vs.len(),
{
    if vs.len() == 0 {
        Seq::empty()
    } else {
        strip_cells(on, vs.drop_last(), max) + strip_cell(on, vs.last() as nat, max)
    }
}

/// One cell per value, height by value relative to the max.
pub fn strip(style: Style, values: &[usize]) -> (r: String)
    ensures
        r@ == strip_cells(style.on, values@, max_of(values@)),
{
    let max = max_exec(values);
    let mut out = String::new();
    let mut i: usize = 0;
    while i < values.len()
        invariant
            i <= values@.len(),
            max as nat == max_of(values@),
            out@ == strip_cells(style.on, values@.take(i as int), max as nat),
        decreases values@.len() - i,
    {
        proof {
            assert(values@.take(i + 1).drop_last() =~= values@.take(i as int));
            assert(values@.take(i + 1).last() == values@[i as int]);
        }
        let v = values[i];
        if v == 0 || max == 0 {
            let d = style.dim("▁");
            push_str(&mut out, d.as_str());
        } else {
            let raw: u128 = (8 * (v as u128) + max as u128 - 1) / (max as u128);
            let level: usize = if raw < 1 {
                1
            } else if raw > 8 {
                8
            } else {
                raw as usize
            };
            let mut ch = String::new();
            push_char(&mut ch, block_exec(level));
            let g = style.green(ch.as_str());
            if 3 * (v as u128) >= 2 * (max as u128) {
                let b = style.bold(g.as_str());
                push_str(&mut out, b.as_str());
            } else {
                push_str(&mut out, g.as_str());
            }
        }
        i = i + 1;
    }
    assert(values@.take(i as int) =~= values@);
    out
}

/// Digits of a count.
pub open spec fn digits(n: nat) -> Seq<char> {
    dec(n)
}

/// Eighths of a column's height, out of `rows` cells.
pub open spec fn eighths(v: nat, max: nat, rows: nat) -> nat {
    if max == 0 {
        0
    } else {
        (((2 * v * rows * 8 + max) as int) / ((2 * max) as int)) as nat
    }
}

/// The block of a column in chart row `row` (0 is the bottom).
pub open spec fn level_in_row(v: nat, max: nat, rows: nat, row: nat) -> nat {
    let e = eighths(v, max, rows);
    let over: nat = if e >= row * 8 {
        (e - row * 8) as nat
    } else {
        0
    };
    if over > 8 {
        8
    } else {
        over
    }
}

pub open spec fn column_cell(on: bool, v: nat, max: nat, rows: nat, row: nat, p: Paint) -> Seq<char> {
    let here = level_in_row(v, max, rows, row);
    let ch = seq![block(here), block(here)];
    if here == 0 {
        ch
    } else {
        spec_apply(p, on, ch)
    }
}

pub open spec fn column_cells(on: bool, vs: Seq<usize>, max: nat, rows: nat, row: nat, ps: Seq<Paint>) -> Seq<
    char,
>
    decreases vs.len(),
{
    if vs.len() == 0 {
        Seq::empty()
    } else {
        let k = vs.len() - 1;
        column_cells(on, vs.drop_last(), max, rows, row, ps) + column_cell(
            on,
            vs[k] as nat,
            max,
            rows,
            row,
            ps[k],
        ) + "  "@
    }
}

/// Chart row `row` of a column chart, before trailing space is cut.
pub open spec fn chart_row(
    on: bool,
    vs: Seq<usize>,
    rows: nat,
    row: nat,
    indent: Seq<char>,
    ps: Seq<Paint>,
    axis_w: usize,
) -> Seq<char> {
    let max = max_of(vs);
    let label = if row + 1 == rows {
        digits(max)
    } else {
        Seq::empty()
    };
    indent + spec_pad_left(label, axis_w) + " ┤ "@ + column_cells(on, vs, max, rows, row, ps)
}

pub open spec fn axis_width(vs: Seq<usize>) -> usize {
    let l = digits(max_of(vs)).len();
    if l < 1 {
        1
    } else {
        l as usize
    }
}

/// Labels padded to four cells each, joined.
pub open spec fn label_cells(labels: Seq<Seq<char>>) -> Seq<char>
    decreases labels.len(),
{
    if labels.len() == 0 {
        Seq::empty()
    } else {
        label_cells(labels.drop_last()) + spec_pad_right(labels.last(), 4)
    }
}

/// The lines of a column chart `rows` high: chart rows top to bottom, an
/// axis row and a label row, each indented by `indent`. Each column is two
/// cells wide with a two-cell gap; `paints[i]` colors column `i`.
pub open spec fn spec_columns(
    on: bool,
    vs: Seq<usize>,
    labels: Seq<Seq<char>>,
    rows: nat,
    indent: Seq<char>,
    ps: Seq<Paint>,
) -> Seq<Seq<char>> {
    let axis_w = axis_width(vs);
    Seq::new(rows, |i: int| trim_end(chart_row(on, vs, rows, (rows - 1 - i) as nat, indent, ps, axis_w)))
        + seq![
        indent + rep(' ', axis_w as nat) + " ┼"@ + rep('─', 4 * vs.len()),
        indent + rep(' ', axis_w as nat) + "   "@ + painted(on, "2"@, trim_end(label_cells(labels))),
    ]
}

/// A column chart `rows` high, with an axis row and a label row.
pub fn columns(
    style: Style,
    values: &[usize],
    labels: &Vec<String>,
    rows: usize,
    indent: &str,
    paints: &Vec<Paint>,
) -> (lines: Vec<String>)
    requires
        paints@.len() == values@.len(),
        rows * 8 <= usize::MAX,
        values@.len() * 4 <= usize::MAX,
    ensures
        strings_view(lines@) == spec_columns(
            style.on,
            values@,
            strings_view(labels@),
            rows as nat,
            indent@,
            paints@,
        ),
{
    let max = max_exec(values);
    let max_s = dec_string(max as u64);
    let max_len = chars_of_str(max_s.as_str()).len();
    let axis_w: usize = if max_len < 1 {
        1
    } else {
        max_len
    };
    assert(axis_w == axis_width(values@));
    let mut lines: Vec<String> = Vec::new();
    let mut k: usize = 0;
    while k < rows
        invariant
            k <= rows,
            rows * 8 <= usize::MAX,
            max as nat == max_of(values@),
            max_s@ == digits(max as nat),
            axis_w == axis_width(values@),
            paints@.len() == values@.len(),
            strings_view(lines@) == Seq::new(
                k as nat,
                |i: int|
                    trim_end(
                        chart_row(
                            style.on,
                            values@,
                            rows as nat,
                            (rows - 1 - i) as nat,
                            indent@,
                            paints@,
                            axis_w,
                        ),
                    ),
            ),
        decreases rows - k,
    {
        let row = rows - 1 - k;
        let label = if row + 1 == rows {
            owned(max_s.as_str())
        } else {
            String::new()
        };
        let mut line = owned(indent);
        let padded = pad_left(label.as_str(), axis_w);
        push_str(&mut line, padded.as_str());
        push_str(&mut line, " ┤ ");
        let ghost head = line@;
        let mut i: usize = 0;
        while i < values.len()
            invariant
                i <= values@.len(),
                rows * 8 <= usize::MAX,
                row < rows,
                paints@.len() == values@.len(),
                max as nat == max_of(values@),
                line@ == head + column_cells(
                    style.on,
                    values@.take(i as int),
                    max as nat,
                    rows as nat,
                    row as nat,
                    paints@.take(i as int),
                ),
            decreases values@.len() - i,
        {
            proof {
                assert(values@.take(i + 1).drop_last() =~= values@.take(i as int));
                assert(values@.take(i + 1)[i as int] == values@[i as int]);
                assert(paints@.take(i + 1)[i as int] == paints@[i as int]);
                lemma_cells_prefix(
                    style.on,
                    values@.take(i as int),
                    max as nat,
                    rows as nat,
                    row as nat,
                    paints@.take(i as int),
                    paints@.take(i + 1),
                );
            }
            let cell = column_cell_exec(style, values[i], max, rows, row, paints[i]);
            push_str(&mut line, cell.as_str());
            push_str(&mut line, "  ");
            i = i + 1;
        }
        proof {
            assert(values@.take(i as int) =~= values@);
            assert(paints@.take(i as int) =~= paints@);
        }
        let v = chars_of_str(line.as_str());
        let t = crate::strs::trim_end_chars(v.as_slice());
        let ghost before = strings_view(lines@);
        proof {
            assert(line@ == chart_row(style.on, values@, rows as nat, row as nat, indent@, paints@, axis_w));
        }
        let ts = crate::strs::string_of(t.as_slice());
        lines.push(ts);
        assert(strings_view(lines@) =~= before.push(ts@));
        k = k + 1;
        assert(strings_view(lines@) =~= Seq::new(
            k as nat,
            |i: int|
                trim_end(
                    chart_row(
                        style.on,
                        values@,
                        rows as nat,
                        (rows - 1 - i) as nat,
                        indent@,
                        paints@,
                        axis_w,
                    ),
                ),
        ));
    }
    let mut axis = owned(indent);
    push_rep(&mut axis, ' ', axis_w);
    push_str(&mut axis, " ┼");
    push_rep(&mut axis, '─', values.len() * 4);
    lines.push(axis);
    let mut lab = String::new();
    let mut j: usize = 0;
    while j < labels.len()
        invariant
            j <= labels@.len(),
            lab@ == label_cells(strings_view(labels@).take(j as int)),
        decreases labels@.len() - j,
    {
        proof {
            assert(strings_view(labels@).take(j + 1).drop_last() =~= strings_view(labels@).take(j as int));
            assert(strings_view(labels@).take(j + 1).last() == labels@[j as int]@);
        }
        let p = pad_right(labels[j].as_str(), 4);
        push_str(&mut lab, p.as_str());
        j = j + 1;
    }
    assert(strings_view(labels@).take(j as int) =~= strings_view(labels@));
    let lv = chars_of_str(lab.as_str());
    let lt = crate::strs::trim_end_chars(lv.as_slice());
    let lts = crate::strs::string_of(lt.as_slice());
    let mut last = owned(indent);
    push_rep(&mut last, ' ', axis_w);
    push_str(&mut last, "   ");
    let d = style.dim(lts.as_str());
    push_str(&mut last, d.as_str());
    lines.push(last);
    lines
}

fn column_cell_exec(style: Style, v: usize, max: usize, rows: usize, row: usize, p: Paint) -> (r: String)
    requires
        rows * 8 <= usize::MAX,
        row < rows,
    ensures
        r@ == column_cell(style.on, v as nat, max as nat, rows as nat, row as nat, p),
{
    let e: u128 = if max == 0 {
        0
    } else {
        assert((v as int) * ((rows * 8) as int) <= 0xFFFF_FFFF_FFFF_FFFF * 0xFFFF_FFFF_FFFF_FFFF) by (nonlinear_arith)
            requires
                v <= 0xFFFF_FFFF_FFFF_FFFF,
                rows * 8 <= 0xFFFF_FFFF_FFFF_FFFF,
        ;
        let q: u128 = (v as u128) * ((rows * 8) as u128);
        let a: u128 = q / (max as u128);
        let b: u128 = q % (max as u128);
        proof {
            lemma_round_div(q as int, max as int, a as int, b as int);
            assert(2 * v * rows * 8 == 2 * q) by (nonlinear_arith)
                requires
                    q == v * (rows * 8),
            ;
        }
        a + if 2 * b >= max as u128 {
            1
        } else {
            0
        }
    };
    assert(e == eighths(v as nat, max as nat, rows as nat));
    let base: u128 = (row as u128) * 8;
    let over: u128 = if e >= base {
        e - base
    } else {
        0
    };
    let here: usize = if over > 8 {
        8
    } else {
        over as usize
    };
    assert(here == level_in_row(v as nat, max as nat, rows as nat, row as nat));
    let c = block_exec(here);
    let mut ch = String::new();
    push_char(&mut ch, c);
    push_char(&mut ch, c);
    assert(ch@ =~= seq![block(here as nat), block(here as nat)]);
    if here == 0 {
        ch
    } else {
        apply(p, style, ch.as_str())
    }
}

fn chars_of_str(s: &str) -> (v: Vec<char>)
    ensures
        v@ == s@,
{
    crate::strs::chars_of(s)
}

proof fn lemma_cells_prefix(
    on: bool,
    vs: Seq<usize>,
    max: nat,
    rows: nat,
    row: nat,
    ps: Seq<Paint>,
    ps2: Seq<Paint>,
)
    requires
        vs.len() <= ps.len(),
        vs.len() <= ps2.len(),
        forall|i: int| 0 <= i < vs.len() ==> ps[i] == ps2[i],
    ensures
        column_cells(on, vs, max, rows, row, ps) == column_cells(on, vs, max, rows, row, ps2),
    decreases vs.len(),
{
    if vs.len() > 0 {
        lemma_cells_prefix(on, vs.drop_last(), max, rows, row, ps, ps2);
    }
}

proof fn lemma_round_div(q: int, m: int, a: int, b: int)
    requires
        m > 0,
        q >= 0,
        a == q / m,
        b == q % m,
    ensures
        (2 * q + m) / (2 * m) == a + if 2 * b >= m {
            1int
        } else {
            0int
        },
{
    assert(q == a * m + b && 0 <= b < m) by (nonlinear_arith)
        requires
            m > 0,
            a == q / m,
            b == q % m,
    ;
    let c: int = if 2 * b >= m {
        1
    } else {
        0
    };
    assert(2 * q + m == (2 * m) * a + (2 * b + m)) by (nonlinear_arith)
        requires
            q == a * m + b,
    ;
    assert((2 * m) * a + (2 * b + m) == (2 * m) * (a + c) + (2 * b + m - 2 * m * c)) by (nonlinear_arith);
    assert(0 <= 2 * b + m - 2 * m * c < 2 * m);
    vstd::arithmetic::div_mod::lemma_fundamental_div_mod_converse(2 * q + m, 2 * m, a + c, 2 * b + m - 2 * m * c);
}
} // verus!
