//! The per-symbol sliding window and its spike evaluation.
//!
//! A `SymbolWindow` keeps the price points observed for one symbol inside a
//! trailing time window. Each ingested point is appended, stale points are
//! trimmed from the head, the minimum and maximum retained price are
//! recomputed, and the relative spread `1 - min/max` is compared against the
//! configured threshold. On a trigger the window emits an alert and resets
//! to empty.

use vstd::prelude::*;

use crate::config::SpikeConfig;
use crate::point::{AlertEvent, PricePoint};

verus! {

/// A point is stale when it is older than the trailing window that ends at
/// `latest`: `time < latest - dur`.
pub open spec fn is_stale(p: PricePoint, latest: int, dur: int) -> bool {
    p.time as int + dur < latest
}

/// Drops the stale points at the head of `s`, stopping at the first fresh
/// one. On a history with non-decreasing times this removes exactly the
/// stale points.
pub open spec fn trim_spec(s: Seq<PricePoint>, latest: int, dur: int) -> Seq<PricePoint>
    decreases s.len(),
{
    if s.len() > 0 && is_stale(s[0], latest, dur) {
        trim_spec(s.drop_first(), latest, dur)
    } else {
        s
    }
}

/// The window contents after ingesting `p` into history `s`: `p` is
/// appended and the stale head is trimmed relative to `p`'s time.
pub open spec fn ingested(s: Seq<PricePoint>, p: PricePoint, dur: int) -> Seq<PricePoint> {
    trim_spec(s.push(p), p.time as int, dur)
}

/// The smallest price in a non-empty sequence of points.
pub open spec fn min_price_of(s: Seq<PricePoint>) -> int
    recommends
        s.len() > 0,
    decreases s.len(),
{
    if s.len() <= 1 {
        s[0].price as int
    } else if (s.last().price as int) < min_price_of(s.drop_last()) {
        s.last().price as int
    } else {
        min_price_of(s.drop_last())
    }
}

/// The largest price in a non-empty sequence of points.
pub open spec fn max_price_of(s: Seq<PricePoint>) -> int
    recommends
        s.len() > 0,
    decreases s.len(),
{
    if s.len() <= 1 {
        s[0].price as int
    } else if (s.last().price as int) > max_price_of(s.drop_last()) {
        s.last().price as int
    } else {
        max_price_of(s.drop_last())
    }
}

/// Every point in the sequence has a positive price.
pub open spec fn positive_prices(s: Seq<PricePoint>) -> bool {
    forall|i: int| 0 <= i < s.len() ==> 0 < (#[trigger] s[i]).price
}

/// Observation times never decrease along the sequence.
pub open spec fn times_sorted(s: Seq<PricePoint>) -> bool {
    forall|i: int, j: int| 0 <= i <= j < s.len() ==> s[i].time <= s[j].time
}

/// Every point in the sequence lies inside the trailing window that ends at
/// `latest`.
pub open spec fn within_window(s: Seq<PricePoint>, latest: int, dur: int) -> bool {
    forall|i: int| 0 <= i < s.len() ==> !is_stale(#[trigger] s[i], latest, dur)
}

/// The trigger condition `1 - min/max > threshold`, written without
/// division: `(max - min) * den > num * max`.
pub open spec fn exceeds_threshold(min: int, max: int, cfg: SpikeConfig) -> bool {
    (max - min) * (cfg.threshold_den as int) > (cfg.threshold_num as int) * max
}

/// Whether a window with contents `s` constitutes a spike under `cfg`.
pub open spec fn spikes(s: Seq<PricePoint>, cfg: SpikeConfig) -> bool {
    s.len() > 0 && exceeds_threshold(min_price_of(s), max_price_of(s), cfg)
}

/// Time spanned by a non-empty window, from its oldest retained point to
/// its newest one (zero if the head is somehow newer than the tail).
pub open spec fn span_of(s: Seq<PricePoint>) -> int
    recommends
        s.len() > 0,
{
    if s[0].time <= s.last().time {
        s.last().time - s[0].time
    } else {
        0
    }
}

/// Trimming removes exactly the prefix of stale points: if the first `k`
/// points are stale and the point at `k` (when there is one) is fresh, the
/// trimmed sequence is the suffix starting at `k`.
pub proof fn lemma_trim_skip(s: Seq<PricePoint>, latest: int, dur: int, k: int)
    requires
        0 <= k <= s.len(),
        forall|j: int| 0 <= j < k ==> is_stale(#[trigger] s[j], latest, dur),
        k < s.len() ==> !is_stale(s[k], latest, dur),
    ensures
        trim_spec(s, latest, dur) == s.skip(k),
    decreases k,
{
    if k == 0 {
        assert(s.skip(0) =~= s);
    } else {
        let d = s.drop_first();
        assert(forall|j: int| 0 <= j < k - 1 ==> is_stale(#[trigger] d[j], latest, dur)) by {
            assert(forall|j: int| 0 <= j < k - 1 ==> #[trigger] d[j] == s[j + 1]);
        }
        assert(k - 1 < d.len() ==> !is_stale(d[k - 1], latest, dur));
        lemma_trim_skip(d, latest, dur, k - 1);
        assert(d.skip(k - 1) =~= s.skip(k));
    }
}

/// Extremes correctness: in a non-empty window the minimum price bounds
/// every retained price from below, the maximum bounds it from above, and
/// both extremes are attained by some retained point.
pub proof fn lemma_extremes(s: Seq<PricePoint>)
    requires
        s.len() > 0,
    ensures
        forall|i: int|
            0 <= i < s.len() ==> min_price_of(s) <= (#[trigger] s[i]).price as int <= max_price_of(
                s,
            ),
        exists|i: int| 0 <= i < s.len() && (#[trigger] s[i]).price as int == min_price_of(s),
        exists|i: int| 0 <= i < s.len() && (#[trigger] s[i]).price as int == max_price_of(s),
    decreases s.len(),
{
    if s.len() == 1 {
        assert(s[0].price as int == min_price_of(s));
        assert(s[0].price as int == max_price_of(s));
    } else {
        let d = s.drop_last();
        lemma_extremes(d);
        assert(forall|i: int| 0 <= i < d.len() ==> #[trigger] d[i] == s[i]);
        let last = s.len() - 1;
        assert forall|i: int| 0 <= i < s.len() implies min_price_of(s) <= (#[trigger] s[i]).price
            as int <= max_price_of(s) by {
            if i < last {
                assert(d[i] == s[i]);
            }
        }
        if (s.last().price as int) < min_price_of(d) {
            assert(s[last].price as int == min_price_of(s));
        } else {
            let w = choose|i: int|
                0 <= i < d.len() && (#[trigger] d[i]).price as int == min_price_of(d);
            assert(s[w].price as int == min_price_of(s));
        }
        if (s.last().price as int) > max_price_of(d) {
            assert(s[last].price as int == max_price_of(s));
        } else {
            let w = choose|i: int|
                0 <= i < d.len() && (#[trigger] d[i]).price as int == max_price_of(d);
            assert(s[w].price as int == max_price_of(s));
        }
    }
}

/// Appending a point updates the extremes pointwise: the new minimum is the
/// smaller of the old minimum and the new price, and dually for the
/// maximum.
pub proof fn lemma_extremes_push(s: Seq<PricePoint>, q: PricePoint)
    requires
        s.len() > 0,
    ensures
        min_price_of(s.push(q)) == if (q.price as int) < min_price_of(s) {
            q.price as int
        } else {
            min_price_of(s)
        },
        max_price_of(s.push(q)) == if (q.price as int) > max_price_of(s) {
            q.price as int
        } else {
            max_price_of(s)
        },
{
    assert(s.push(q).drop_last() =~= s);
    assert(s.push(q).last() == q);
}

/// Threshold monotonicity: a window that spikes still spikes after a point
/// whose price equals the current extreme minimum or maximum is appended,
/// since the spread is unchanged.
pub proof fn lemma_spike_monotone(s: Seq<PricePoint>, q: PricePoint, cfg: SpikeConfig)
    requires
        s.len() > 0,
        spikes(s, cfg),
        q.price as int == max_price_of(s) || q.price as int == min_price_of(s),
    ensures
        spikes(s.push(q), cfg),
{
    lemma_extremes(s);
    let w = choose|i: int| 0 <= i < s.len() && (#[trigger] s[i]).price as int == min_price_of(s);
    assert(min_price_of(s) <= max_price_of(s));
    lemma_extremes_push(s, q);
}

/// Idempotence of duplicate ticks: re-ingesting a point equal to the most
/// recent one neither trims anything nor moves the extremes, so it fires an
/// alert exactly when the current window already constitutes a spike.
pub proof fn lemma_duplicate_ingest(s: Seq<PricePoint>, p: PricePoint, cfg: SpikeConfig)
    requires
        s.len() > 0,
        s.last() == p,
        within_window(s, p.time as int, cfg.window_duration_ms as int),
    ensures
        ingested(s, p, cfg.window_duration_ms as int) == s.push(p),
        min_price_of(s.push(p)) == min_price_of(s),
        max_price_of(s.push(p)) == max_price_of(s),
        spikes(s.push(p), cfg) == spikes(s, cfg),
{
    let dur = cfg.window_duration_ms as int;
    let sp = s.push(p);
    assert(sp[0] == s[0]);
    lemma_trim_skip(sp, p.time as int, dur, 0);
    assert(sp.skip(0) =~= sp);
    lemma_extremes(s);
    assert(s[s.len() - 1].price as int <= max_price_of(s));
    assert(min_price_of(s) <= s[s.len() - 1].price as int);
    lemma_extremes_push(s, p);
}

/// True when `p` is older than the trailing window ending at `latest`.
fn stale_at(p: &PricePoint, latest: u64, dur: u64) -> (r: bool)
    ensures
        r == is_stale(*p, latest as int, dur as int),
{
    (p.time as u128) + (dur as u128) < (latest as u128)
}

/// Length of the stale prefix of `points` relative to a window ending at
/// `latest`.
fn stale_prefix_len(points: &Vec<PricePoint>, latest: u64, dur: u64) -> (k: usize)
    ensures
        k <= points@.len(),
        forall|j: int| 0 <= j < k ==> is_stale(#[trigger] points@[j], latest as int, dur as int),
        k < points@.len() ==> !is_stale(points@[k as int], latest as int, dur as int),
{
    let n = points.len();
    let mut k: usize = 0;
    loop
        invariant
            k <= n,
            n == points@.len(),
            forall|j: int|
                0 <= j < k ==> is_stale(#[trigger] points@[j], latest as int, dur as int),
        ensures
            k <= points@.len(),
            forall|j: int|
                0 <= j < k ==> is_stale(#[trigger] points@[j], latest as int, dur as int),
            k < points@.len() ==> !is_stale(points@[k as int], latest as int, dur as int),
        decreases n - k,
    {
        if k == n {
            break ;
        }
        if !stale_at(&points[k], latest, dur) {
            break ;
        }
        k = k + 1;
    }
    k
}

/// Builds the trimmed window that results from ingesting `point` into the
/// stored history `points`.
fn trimmed_with(points: &Vec<PricePoint>, point: PricePoint, dur: u64) -> (kept: Vec<PricePoint>)
    ensures
        kept@ == ingested(points@, point, dur as int),
        kept@.len() >= 1,
        kept@.last() == point,
{
    let n = points.len();
    let start = stale_prefix_len(points, point.time, dur);
    let mut kept: Vec<PricePoint> = Vec::new();
    let mut i = start;
    while i < n
        invariant
            start <= i <= n,
            n == points@.len(),
            kept@ == points@.subrange(start as int, i as int),
        decreases n - i,
    {
        kept.push(points[i]);
        proof {
            assert(kept@ =~= points@.subrange(start as int, i + 1));
        }
        i = i + 1;
    }
    kept.push(point);
    proof {
        let latest = point.time as int;
        let sp = points@.push(point);
        assert(forall|j: int| 0 <= j < start ==> #[trigger] sp[j] == points@[j]);
        assert(!is_stale(point, latest, dur as int));
        lemma_trim_skip(sp, latest, dur as int, start as int);
        assert(kept@ =~= sp.skip(start as int));
    }
    kept
}

/// Computes the minimum and maximum price over a non-empty history.
fn min_max_of(points: &Vec<PricePoint>) -> (mm: (i64, i64))
    requires
        points@.len() > 0,
    ensures
        mm.0 as int == min_price_of(points@),
        mm.1 as int == max_price_of(points@),
{
    let m = points.len();
    let mut min_p = points[0].price;
    let mut max_p = points[0].price;
    let mut i: usize = 1;
    proof {
        assert(points@.take(1) =~= seq![points@[0]]);
    }
    while i < m
        invariant
            1 <= i <= m,
            m == points@.len(),
            min_p as int == min_price_of(points@.take(i as int)),
            max_p as int == max_price_of(points@.take(i as int)),
        decreases m - i,
    {
        let p = points[i].price;
        proof {
            let t1 = points@.take(i + 1);
            assert(t1.drop_last() =~= points@.take(i as int));
            assert(t1.last() == points@[i as int]);
        }
        if p < min_p {
            min_p = p;
        }
        if p > max_p {
            max_p = p;
        }
        i = i + 1;
    }
    proof {
        assert(points@.take(m as int) =~= points@);
    }
    (min_p, max_p)
}

/// The sliding window of recent price points for one symbol.
///
/// The window's abstract state is the sequence of retained points; the
/// well-formedness invariant keeps every retained price positive, which the
/// spike evaluation relies on.
pub struct SymbolWindow {
    /// Symbol this window tracks; carried into emitted alerts.
    pub symbol: String,
    /// Detector configuration the window evaluates against.
    pub config: SpikeConfig,
    /// Retained points, oldest first.
    pub points: Vec<PricePoint>,
}

impl View for SymbolWindow {
    type V = Seq<PricePoint>;

    open spec fn view(&self) -> Seq<PricePoint> {
        self.points@
    }
}

impl SymbolWindow {
    /// A window is well formed when its configuration is usable and every
    /// retained price is positive.
    pub open spec fn wf(&self) -> bool {
        self.config.wf() && positive_prices(self@)
    }

    /// Creates an empty window for `symbol`.
    pub fn new(symbol: String, config: SpikeConfig) -> (w: SymbolWindow)
        requires
            config.wf(),
        ensures
            w.wf(),
            w@ == Seq::<PricePoint>::empty(),
            w.symbol@ == symbol@,
            w.config == config,
    {
        let w = SymbolWindow { symbol, config, points: Vec::new() };
        proof {
            assert(w@ =~= Seq::<PricePoint>::empty());
        }
        w
    }

    /// Ingests one observed point and evaluates the window, as one atomic
    /// operation.
    ///
    /// A point with a non-positive price is rejected and the window is left
    /// unchanged. Otherwise the point is appended, the stale head is
    /// trimmed, the extremes are recomputed over the retained points, and
    /// an alert is returned exactly when the relative spread exceeds the
    /// configured threshold; after an alert the window resets to empty.
    /// When the stored history is time-ordered and the new point does not
    /// go back in time, every retained point afterwards lies inside the
    /// trailing window ending at the new point's time.
    pub fn ingest(&mut self, point: PricePoint) -> (r: Option<AlertEvent>)
        requires
            old(self).wf(),
        ensures
            final(self).wf(),
            final(self).symbol == old(self).symbol,
            final(self).config == old(self).config,
            point.price <= 0 ==> *final(self) == *old(self) && r.is_none(),
            point.price > 0 ==> ({
                let t = ingested(old(self)@, point, old(self).config.window_duration_ms as int);
                &&& (r.is_some() <==> spikes(t, old(self).config))
                &&& (r.is_some() ==> final(self)@ == Seq::<PricePoint>::empty())
                &&& (r.is_none() ==> final(self)@ == t)
                &&& (r.is_some() ==> r.unwrap().symbol@ == old(self).symbol@
                    && r.unwrap().last_price == point.price
                    && r.unwrap().change_num == max_price_of(t) - min_price_of(t)
                    && r.unwrap().change_den == max_price_of(t)
                    && r.unwrap().window_span_ms as int == span_of(t))
            }),
            point.price > 0 && times_sorted(old(self)@) && (old(self)@.len() > 0
                ==> old(self)@.last().time <= point.time) ==> times_sorted(final(self)@)
                && within_window(
                final(self)@,
                point.time as int,
                old(self).config.window_duration_ms as int,
            ),
    {
        if point.price <= 0 {
            return None;
        }
        let dur = self.config.window_duration_ms;
        let ghost s0 = self.points@;
        let kept = trimmed_with(&self.points, point, dur);
        let ghost t = kept@;
        proof {
            let sp = s0.push(point);
            lemma_ingested_is_suffix(s0, point, dur as int);
            let k = choose|k: int| 0 <= k <= s0.len() && t == sp.skip(k);
            assert(positive_prices(t)) by {
                assert(forall|i: int|
                    0 <= i < t.len() ==> #[trigger] t[i] == sp[i + k] && 0 < t[i].price);
            }
            if times_sorted(s0) && (s0.len() > 0 ==> s0.last().time <= point.time) {
                assert(times_sorted(sp));
                assert(sp[k as int] == t[0] && !is_stale(t[0], point.time as int, dur as int))
                    by {
                    assert(t.last() == point);
                    lemma_trim_head_fresh(s0, point, dur as int);
                }
                assert forall|i: int|
                    0 <= i < t.len() implies !is_stale(
                    #[trigger] t[i],
                    point.time as int,
                    dur as int,
                ) by {
                    assert(t[i] == sp[i + k]);
                    assert(sp[k as int].time <= sp[i + k].time);
                }
                assert(times_sorted(t)) by {
                    assert(forall|i: int, j: int|
                        0 <= i <= j < t.len() ==> t[i] == sp[i + k] && t[j] == sp[j + k]
                            && #[trigger] t[i].time <= #[trigger] t[j].time);
                }
            }
        }
        let (min_p, max_p) = min_max_of(&kept);
        proof {
            lemma_extremes(t);
            assert(t[t.len() - 1] == point);
            assert(0 < min_p);
            assert(min_p <= max_p);
        }
        let spread = max_p - min_p;
        let num = self.config.threshold_num;
        let den = self.config.threshold_den;
        proof {
            assert((spread as int) * (den as int) <= 0x7fff_ffff_ffff_ffff_i64
                * 0xffff_ffff_ffff_ffff_u64) by (nonlinear_arith)
                requires
                    0 <= spread as int <= 0x7fff_ffff_ffff_ffff_i64,
                    0 <= den as int <= 0xffff_ffff_ffff_ffff_u64,
            ;
            assert((num as int) * (max_p as int) <= 0xffff_ffff_ffff_ffff_u64
                * 0x7fff_ffff_ffff_ffff_i64) by (nonlinear_arith)
                requires
                    0 <= num as int <= 0xffff_ffff_ffff_ffff_u64,
                    0 <= max_p as int <= 0x7fff_ffff_ffff_ffff_i64,
            ;
        }
        let hit = (spread as u128) * (den as u128) > (num as u128) * (max_p as u128);
        if hit {
            let first_time = kept[0].time;
            let span = if point.time >= first_time {
                point.time - first_time
            } else {
                0
            };
            let alert = AlertEvent {
                symbol: self.symbol.clone(),
                last_price: point.price,
                change_num: spread,
                change_den: max_p,
                window_span_ms: span,
            };
            self.points = Vec::new();
            proof {
                assert(self@ =~= Seq::<PricePoint>::empty());
            }
            Some(alert)
        } else {
            self.points = kept;
            None
        }
    }
}

/// The trimmed result of an ingest is a suffix of the appended history.
proof fn lemma_ingested_is_suffix(s: Seq<PricePoint>, p: PricePoint, dur: int)
    requires
        dur >= 0,
    ensures
        exists|k: int|
            0 <= k <= s.len() && ingested(s, p, dur) == #[trigger] s.push(p).skip(k),
    decreases s.len(),
{
    let sp = s.push(p);
    if s.len() > 0 && is_stale(s[0], p.time as int, dur) {
        lemma_ingested_is_suffix(s.drop_first(), p, dur);
        let k = choose|k: int|
            0 <= k <= s.drop_first().len() && ingested(s.drop_first(), p, dur)
                == #[trigger] s.drop_first().push(p).skip(k);
        assert(s.drop_first().push(p) =~= sp.drop_first());
        assert(sp.drop_first().skip(k) =~= sp.skip(k + 1));
        assert(ingested(s, p, dur) == sp.skip(k + 1));
    } else {
        assert(sp[0] == if s.len() > 0 {
            s[0]
        } else {
            p
        });
        assert(!is_stale(sp[0], p.time as int, dur));
        assert(ingested(s, p, dur) == sp);
        assert(sp.skip(0) =~= sp);
    }
}

/// After an ingest the head of the window is fresh: the first retained
/// point is not stale relative to the ingested point's time.
proof fn lemma_trim_head_fresh(s: Seq<PricePoint>, p: PricePoint, dur: int)
    requires
        dur >= 0,
    ensures
        ingested(s, p, dur).len() > 0,
        !is_stale(ingested(s, p, dur)[0], p.time as int, dur),
    decreases s.len(),
{
    if s.len() > 0 && is_stale(s[0], p.time as int, dur) {
        assert(s.drop_first().push(p) =~= s.push(p).drop_first());
        lemma_trim_head_fresh(s.drop_first(), p, dur);
    } else {
        assert(!is_stale(s.push(p)[0], p.time as int, dur));
    }
}

} // verus!
