//! Selection of the symbols to track.
//!
//! The symbol universe provider hands the application every listed symbol;
//! the detector tracks the USDT-quoted ones that are not on an exclusion
//! list. The selection itself is plain sequence logic and is verified here;
//! fetching the listing is left to the surrounding application.

use vstd::prelude::*;
use vstd::string::StrSliceExecFns;

verus! {

/// True when the symbol ends in the four characters `USDT`.
pub open spec fn usdt_suffixed(s: Seq<char>) -> bool {
    s.len() >= 4 && s[s.len() - 4] == 'U' && s[s.len() - 3] == 'S' && s[s.len() - 2] == 'D'
        && s[s.len() - 1] == 'T'
}

/// A symbol is tracked when it is USDT-quoted and not excluded.
pub open spec fn tracked_symbol(s: Seq<char>, excl: Seq<Seq<char>>) -> bool {
    usdt_suffixed(s) && !excl.contains(s)
}

/// The tracked subsequence of a symbol universe, in listing order.
pub open spec fn tracked_symbols(syms: Seq<Seq<char>>, excl: Seq<Seq<char>>) -> Seq<Seq<char>> {
    syms.filter(|s: Seq<char>| tracked_symbol(s, excl))
}

/// Appending one symbol to the universe extends the tracked subsequence by
/// that symbol exactly when it is tracked.
pub proof fn lemma_tracked_symbols_take_step(syms: Seq<Seq<char>>, excl: Seq<Seq<char>>, i: int)
    requires
        0 <= i < syms.len(),
    ensures
        tracked_symbols(syms.take(i + 1), excl) == (if tracked_symbol(syms[i], excl) {
            tracked_symbols(syms.take(i), excl).push(syms[i])
        } else {
            tracked_symbols(syms.take(i), excl)
        }),
{
    reveal(Seq::filter);
    let s1 = syms.take(i + 1);
    assert(s1.drop_last() =~= syms.take(i));
    assert(s1.last() == syms[i]);
}

/// Whether `s` ends with the suffix `USDT`.
fn ends_with_usdt(s: &String) -> (r: bool)
    ensures
        r == usdt_suffixed(s@),
{
    let st = s.as_str();
    let n = st.unicode_len();
    if n < 4 {
        return false;
    }
    st.get_char(n - 4) == 'U' && st.get_char(n - 3) == 'S' && st.get_char(n - 2) == 'D'
        && st.get_char(n - 1) == 'T'
}

/// Whether `s` occurs in the exclusion list.
fn is_excluded(exclude: &Vec<String>, s: &String) -> (r: bool)
    ensures
        r == exclude.deep_view().contains(s@),
{
    let n = exclude.len();
    let mut i: usize = 0;
    while i < n
        invariant
            i <= n,
            n == exclude@.len(),
            forall|j: int| 0 <= j < i ==> #[trigger] exclude.deep_view()[j] != s@,
        decreases n - i,
    {
        if exclude[i] == *s {
            proof {
                assert(exclude.deep_view()[i as int] == s@);
            }
            return true;
        }
        i = i + 1;
    }
    proof {
        if exclude.deep_view().contains(s@) {
            let j = choose|j: int|
                0 <= j < exclude.deep_view().len() && exclude.deep_view()[j] == s@;
            assert(exclude.deep_view()[j] != s@);
        }
    }
    false
}

/// Selects the tracked symbols from a listing: those quoted in USDT and
/// not on the exclusion list, in listing order.
pub fn filter_markets(symbols: &Vec<String>, exclude: &Vec<String>) -> (r: Vec<String>)
    ensures
        r.deep_view() == tracked_symbols(symbols.deep_view(), exclude.deep_view()),
{
    let n = symbols.len();
    let mut out: Vec<String> = Vec::new();
    let mut i: usize = 0;
    proof {
        reveal(Seq::filter);
        assert(symbols.deep_view().take(0) =~= Seq::<Seq<char>>::empty());
        assert(out.deep_view() =~= tracked_symbols(symbols.deep_view().take(0), exclude.deep_view()));
    }
    while i < n
        invariant
            i <= n,
            n == symbols@.len(),
            out.deep_view() == tracked_symbols(
                symbols.deep_view().take(i as int),
                exclude.deep_view(),
            ),
        decreases n - i,
    {
        let sym = &symbols[i];
        let ghost prev = out.deep_view();
        if ends_with_usdt(sym) && !is_excluded(exclude, sym) {
            out.push(sym.clone());
            proof {
                assert(symbols.deep_view()[i as int] == symbols@[i as int]@);
                assert(out.deep_view() =~= prev.push(symbols.deep_view()[i as int]));
            }
        }
        proof {
            lemma_tracked_symbols_take_step(symbols.deep_view(), exclude.deep_view(), i as int);
            assert(symbols.deep_view()[i as int] == sym@);
        }
        i = i + 1;
    }
    proof {
        assert(symbols.deep_view().take(n as int) =~= symbols.deep_view());
    }
    out
}

} // verus!
