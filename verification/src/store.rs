//! Routing of ticks to per-symbol windows.
//!
//! A `WindowStore` owns the mapping from symbol to `SymbolWindow`, creates
//! windows lazily on the first tick for a symbol, and forwards any alert a
//! window emits. Detection is fully independent per symbol: processing a
//! tick for one symbol never touches another symbol's window.

use vstd::prelude::*;

use crate::config::SpikeConfig;
use crate::point::{AlertEvent, PricePoint};
use crate::window::{ingested, max_price_of, min_price_of, span_of, spikes, SymbolWindow};

verus! {

/// Whether some window in `ws` tracks `sym`.
pub open spec fn has_symbol(ws: Seq<SymbolWindow>, sym: Seq<char>) -> bool {
    exists|i: int| 0 <= i < ws.len() && (#[trigger] ws[i]).symbol@ == sym
}

/// Index of the window tracking `sym`; meaningful when `has_symbol` holds
/// and the symbols in `ws` are distinct.
pub open spec fn index_of_symbol(ws: Seq<SymbolWindow>, sym: Seq<char>) -> int {
    choose|i: int| 0 <= i < ws.len() && (#[trigger] ws[i]).symbol@ == sym
}

/// Points retained for `sym` by the windows in `ws`.
pub open spec fn points_of(ws: Seq<SymbolWindow>, sym: Seq<char>) -> Seq<PricePoint> {
    ws[index_of_symbol(ws, sym)].points@
}

/// No two windows track the same symbol.
pub open spec fn distinct_symbols(ws: Seq<SymbolWindow>) -> bool {
    forall|i: int, j: int| 0 <= i < j < ws.len() ==> ws[i].symbol@ != ws[j].symbol@
}

/// In a run of windows with distinct symbols, the window at index `i` is
/// the one `points_of` speaks about for its own symbol.
proof fn lemma_points_at_index(ws: Seq<SymbolWindow>, i: int)
    requires
        distinct_symbols(ws),
        0 <= i < ws.len(),
    ensures
        has_symbol(ws, ws[i].symbol@),
        index_of_symbol(ws, ws[i].symbol@) == i,
        points_of(ws, ws[i].symbol@) == ws[i].points@,
{
    assert(has_symbol(ws, ws[i].symbol@));
    let j = index_of_symbol(ws, ws[i].symbol@);
    assert(0 <= j < ws.len() && ws[j].symbol@ == ws[i].symbol@);
    if i < j {
        assert(ws[i].symbol@ != ws[j].symbol@);
    } else if j < i {
        assert(ws[j].symbol@ != ws[i].symbol@);
    }
}

/// Mapping from symbol to that symbol's sliding window.
///
/// Entries are created on demand when a symbol's first tick arrives and are
/// never removed; the store's abstract state is the map from tracked symbol
/// to the sequence of points its window retains.
pub struct WindowStore {
    /// Configuration shared by every window the store creates.
    pub config: SpikeConfig,
    /// The per-symbol windows, one per tracked symbol.
    pub windows: Vec<SymbolWindow>,
}

impl View for WindowStore {
    type V = Map<Seq<char>, Seq<PricePoint>>;

    open spec fn view(&self) -> Map<Seq<char>, Seq<PricePoint>> {
        Map::new(
            |sym: Seq<char>| has_symbol(self.windows@, sym),
            |sym: Seq<char>| points_of(self.windows@, sym),
        )
    }
}

impl WindowStore {
    /// A store is well formed when its configuration is usable, its
    /// windows are well formed and share that configuration, and no symbol
    /// is tracked twice.
    pub open spec fn wf(&self) -> bool {
        &&& self.config.wf()
        &&& distinct_symbols(self.windows@)
        &&& forall|i: int|
            0 <= i < self.windows@.len() ==> (#[trigger] self.windows@[i]).wf()
                && self.windows@[i].config == self.config
    }

    /// Creates a store with no tracked symbols.
    pub fn new(config: SpikeConfig) -> (s: WindowStore)
        requires
            config.wf(),
        ensures
            s.wf(),
            s@ == Map::<Seq<char>, Seq<PricePoint>>::empty(),
            s.config == config,
    {
        let s = WindowStore { config, windows: Vec::new() };
        proof {
            assert(s@ =~= Map::<Seq<char>, Seq<PricePoint>>::empty());
        }
        s
    }

    /// Routes one tick to the window for `symbol`, creating that window on
    /// first use, and forwards the alert the window emits, if any.
    ///
    /// A tick with a non-positive price is rejected and the store is left
    /// entirely unchanged. Otherwise the symbol's window (empty, for a
    /// symbol seen for the first time) ingests the point: its entry in the
    /// map becomes the trimmed appended history, or becomes empty when the
    /// alert fires. Windows of all other symbols are untouched.
    pub fn process(&mut self, symbol: &String, point: PricePoint) -> (r: Option<AlertEvent>)
        requires
            old(self).wf(),
        ensures
            final(self).wf(),
            final(self).config == old(self).config,
            point.price <= 0 ==> *final(self) == *old(self) && r.is_none(),
            point.price > 0 ==> ({
                let prior = if old(self)@.dom().contains(symbol@) {
                    old(self)@[symbol@]
                } else {
                    Seq::<PricePoint>::empty()
                };
                let t = ingested(prior, point, old(self).config.window_duration_ms as int);
                &&& (r.is_some() <==> spikes(t, old(self).config))
                &&& (r.is_some() ==> final(self)@ == old(self)@.insert(
                    symbol@,
                    Seq::<PricePoint>::empty(),
                ))
                &&& (r.is_none() ==> final(self)@ == old(self)@.insert(symbol@, t))
                &&& (r.is_some() ==> r.unwrap().symbol@ == symbol@
                    && r.unwrap().last_price == point.price
                    && r.unwrap().change_num == max_price_of(t) - min_price_of(t)
                    && r.unwrap().change_den == max_price_of(t)
                    && r.unwrap().window_span_ms as int == span_of(t))
            }),
            forall|other: Seq<char>|
                other != symbol@ ==> (#[trigger] final(self)@.dom().contains(other)
                    == old(self)@.dom().contains(other)) && (old(self)@.dom().contains(other)
                    ==> final(self)@[other] == old(self)@[other]),
    {
        if point.price <= 0 {
            return None;
        }
        let ghost ws0 = self.windows@;
        let n = self.windows.len();
        let mut i: usize = 0;
        loop
            invariant
                i <= n,
                n == self.windows@.len(),
                *self == *old(self),
                forall|j: int| 0 <= j < i ==> (#[trigger] self.windows@[j]).symbol@ != symbol@,
            ensures
                *self == *old(self),
                i <= n,
                n == self.windows@.len(),
                i < n ==> self.windows@[i as int].symbol@ == symbol@,
                i == n ==> !has_symbol(self.windows@, symbol@),
            decreases n - i,
        {
            if i == n {
                assert(!has_symbol(self.windows@, symbol@));
                break ;
            }
            if self.windows[i].symbol == *symbol {
                break ;
            }
            i = i + 1;
        }
        if i < n {
            proof {
                lemma_points_at_index(ws0, i as int);
            }
            let mut w = self.windows.remove(i);
            let r = w.ingest(point);
            self.windows.insert(i, w);
            proof {
                let ws1 = self.windows@;
                assert(ws1 =~= ws0.update(i as int, w));
                assert(forall|k: int|
                    0 <= k < ws0.len() && k != i ==> #[trigger] ws1[k] == ws0[k]);
                assert(ws1[i as int] == w);
                self.lemma_view_after_update(*old(self), i as int, symbol@);
            }
            r
        } else {
            let mut w = SymbolWindow::new(symbol.clone(), self.config);
            let r = w.ingest(point);
            self.windows.push(w);
            proof {
                let ws1 = self.windows@;
                assert(ws1 == ws0.push(w));
                assert(forall|k: int| 0 <= k < ws0.len() ==> #[trigger] ws1[k] == ws0[k]);
                assert(ws1[n as int] == w);
                assert(w.symbol@ == symbol@);
                self.lemma_view_after_update(*old(self), n as int, symbol@);
            }
            r
        }
    }

    /// After replacing or appending the window at index `i`, whose symbol
    /// is `sym`, the store's map gains or updates the entry for `sym` and
    /// keeps every other entry.
    proof fn lemma_view_after_update(&self, prev: WindowStore, i: int, sym: Seq<char>)
        requires
            prev.wf(),
            0 <= i < self.windows@.len(),
            i <= prev.windows@.len(),
            self.windows@.len() == (if i < prev.windows@.len() {
                prev.windows@.len()
            } else {
                prev.windows@.len() + 1
            }),
            forall|k: int|
                0 <= k < prev.windows@.len() && k != i ==> #[trigger] self.windows@[k]
                    == prev.windows@[k],
            self.windows@[i].symbol@ == sym,
            i < prev.windows@.len() ==> prev.windows@[i].symbol@ == sym,
            i == prev.windows@.len() ==> !has_symbol(prev.windows@, sym),
            self.windows@[i].wf(),
            self.windows@[i].config == prev.config,
            self.config == prev.config,
        ensures
            self.wf(),
            self@ == prev@.insert(sym, self.windows@[i].points@),
            forall|other: Seq<char>|
                other != sym ==> (#[trigger] self@.dom().contains(other) == prev@.dom().contains(
                    other,
                )) && (prev@.dom().contains(other) ==> self@[other] == prev@[other]),
    {
        let ws0 = prev.windows@;
        let ws1 = self.windows@;
        assert(distinct_symbols(ws1)) by {
            assert forall|a: int, b: int| 0 <= a < b < ws1.len() implies ws1[a].symbol@
                != ws1[b].symbol@ by {
                if i == ws0.len() {
                    if a == i {
                        assert(false);
                    } else if b == i {
                        assert(ws1[a] == ws0[a]);
                        if ws1[a].symbol@ == sym {
                            assert(ws0[a].symbol@ == sym);
                            assert(has_symbol(ws0, sym));
                            assert(false);
                        }
                    } else {
                        assert(ws1[a] == ws0[a] && ws1[b] == ws0[b]);
                    }
                } else {
                    if a == i {
                        assert(ws1[b] == ws0[b]);
                        assert(ws0[i].symbol@ != ws0[b].symbol@);
                    } else if b == i {
                        assert(ws1[a] == ws0[a]);
                        assert(ws0[a].symbol@ != ws0[i].symbol@);
                    } else {
                        assert(ws1[a] == ws0[a] && ws1[b] == ws0[b]);
                    }
                }
            }
        }
        assert(self.wf()) by {
            assert forall|k: int| 0 <= k < ws1.len() implies (#[trigger] ws1[k]).wf() && ws1[k].config
                == self.config by {
                if k != i {
                    assert(ws1[k] == ws0[k]);
                }
            }
        }
        lemma_points_at_index(ws1, i);
        assert forall|other: Seq<char>| other != sym implies (has_symbol(ws1, other) == has_symbol(
            ws0,
            other,
        )) && (has_symbol(ws0, other) ==> points_of(ws1, other) == points_of(ws0, other)) by {
            if has_symbol(ws0, other) {
                let k = index_of_symbol(ws0, other);
                lemma_points_at_index(ws0, k);
                assert(k != i);
                assert(ws1[k] == ws0[k]);
                lemma_points_at_index(ws1, k);
            }
            if has_symbol(ws1, other) {
                let k = index_of_symbol(ws1, other);
                assert(0 <= k < ws1.len() && ws1[k].symbol@ == other);
                assert(k != i);
                assert(ws1[k] == ws0[k]);
                assert(has_symbol(ws0, other));
            }
        }
        assert(self@ =~= prev@.insert(sym, ws1[i].points@));
    }

    /// Read access to the points currently retained for `symbol`, for
    /// callers that inspect the window state.
    pub fn points_for<'a>(&'a self, symbol: &String) -> (r: Option<&'a Vec<PricePoint>>)
        requires
            self.wf(),
        ensures
            r.is_some() == self@.dom().contains(symbol@),
            r.is_some() ==> r.unwrap()@ == self@[symbol@],
    {
        let n = self.windows.len();
        let mut i: usize = 0;
        loop
            invariant
                i <= n,
                n == self.windows@.len(),
                self.wf(),
                forall|j: int| 0 <= j < i ==> (#[trigger] self.windows@[j]).symbol@ != symbol@,
            ensures
                i <= n,
                n == self.windows@.len(),
                i < n ==> self.windows@[i as int].symbol@ == symbol@,
                i == n ==> !has_symbol(self.windows@, symbol@),
            decreases n - i,
        {
            if i == n {
                assert(!has_symbol(self.windows@, symbol@));
                break ;
            }
            if self.windows[i].symbol == *symbol {
                break ;
            }
            i = i + 1;
        }
        if i < n {
            proof {
                lemma_points_at_index(self.windows@, i as int);
            }
            Some(&self.windows[i].points)
        } else {
            None
        }
    }
}

} // verus!
