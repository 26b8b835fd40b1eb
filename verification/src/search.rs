use vstd::prelude::*;
use crate::draw::{DrawResult, lead_value, lead_number};
use crate::order::{sorted_by_number, number_order, sort_order, draw_keys, stable_order};
use crate::pattern::{Rule, holds, pattern_rules, parse_pattern, rule_holds};

verus! {

/// The draw's first number satisfies the rule (a draw whose first number does
/// not read as a number satisfies none).
pub open spec fn draw_fits(d: DrawResult, rule: Rule) -> bool {
    match lead_value(d) {
        Some(n) => holds(rule, n),
        None => false,
    }
}

/// The draws from `start` on satisfy the rules one by one.
pub open spec fn window_fits(s: Seq<DrawResult>, rules: Seq<Rule>, start: int) -> bool {
    forall|i: int| 0 <= i < rules.len() ==> #[trigger] draw_fits(s[start + i], rules[i])
}

/// The stretch of `len` draws from `start` on.
pub open spec fn window(s: Seq<DrawResult>, start: int, len: int) -> Seq<DrawResult> {
    s.subrange(start, start + len)
}

/// The stretches that satisfy the rules among those starting before `starts`,
/// in order of their start.
pub open spec fn fitting_windows(s: Seq<DrawResult>, rules: Seq<Rule>, starts: nat) -> Seq<
    Seq<DrawResult>,
>
    decreases starts,
{
    if starts == 0 {
        Seq::empty()
    } else {
        let w = fitting_windows(s, rules, (starts - 1) as nat);
        if window_fits(s, rules, starts - 1) {
            w.push(window(s, starts - 1, rules.len() as int))
        } else {
            w
        }
    }
}

/// The first start before `starts` whose stretch satisfies the rules.
pub open spec fn first_fit(s: Seq<DrawResult>, rules: Seq<Rule>, starts: nat) -> Option<int>
    decreases starts,
{
    if starts == 0 {
        None
    } else {
        match first_fit(s, rules, (starts - 1) as nat) {
            Some(x) => Some(x),
            None => if window_fits(s, rules, starts - 1) {
                Some(starts - 1)
            } else {
                None
            },
        }
    }
}

/// How many stretches of `len` draws there are among `n` draws.
pub open spec fn start_count(n: int, len: int) -> nat {
    if n >= len {
        (n - len + 1) as nat
    } else {
        0
    }
}

/// Whether a query has anything to look for: draws, a pattern, and at least
/// one rule read from the pattern.
pub open spec fn query_active(draws: Seq<DrawResult>, pattern: Seq<char>) -> bool {
    draws.len() > 0 && pattern.len() > 0 && pattern_rules(pattern).len() > 0
}

/// Every stretch of consecutive draws, in draw-number order, whose first
/// numbers follow the pattern step by step, in order of where they start.
pub open spec fn pattern_matches(draws: Seq<DrawResult>, pattern: Seq<char>) -> Seq<
    Seq<DrawResult>,
> {
    let rules = pattern_rules(pattern);
    let s = sorted_by_number(draws);
    if query_active(draws, pattern) {
        fitting_windows(s, rules, start_count(s.len() as int, rules.len() as int))
    } else {
        Seq::empty()
    }
}

/// The earliest stretch that [`pattern_matches`] lists, or nothing.
pub open spec fn first_pattern_match(draws: Seq<DrawResult>, pattern: Seq<char>) -> Seq<
    DrawResult,
> {
    let rules = pattern_rules(pattern);
    let s = sorted_by_number(draws);
    if query_active(draws, pattern) {
        match first_fit(s, rules, start_count(s.len() as int, rules.len() as int)) {
            Some(x) => window(s, x, rules.len() as int),
            None => Seq::empty(),
        }
    } else {
        Seq::empty()
    }
}

/// The inputs on which the scan runs off the end of the draws: there are
/// fewer draws than steps in the pattern, and every draw there is satisfies
/// its step, so the scan asks for a draw past the last one.
pub open spec fn scan_overruns(draws: Seq<DrawResult>, pattern: Seq<char>) -> bool {
    let rules = pattern_rules(pattern);
    let s = sorted_by_number(draws);
    &&& draws.len() > 0
    &&& s.len() < rules.len()
    &&& forall|i: int| 0 <= i < s.len() ==> #[trigger] draw_fits(s[i], rules[i])
}

/// The references hold, in order, the given draws.
pub open spec fn same_draws(v: Seq<&DrawResult>, w: Seq<DrawResult>) -> bool {
    &&& v.len() == w.len()
    &&& forall|j: int| 0 <= j < w.len() ==> *v[j] == w[j]
}

/// The lists of references hold, in order, the given stretches of draws.
pub open spec fn same_groups(v: Seq<Vec<&DrawResult>>, w: Seq<Seq<DrawResult>>) -> bool {
    &&& v.len() == w.len()
    &&& forall|i: int| 0 <= i < w.len() ==> same_draws(#[trigger] v[i]@, w[i])
}

/// The draws in draw-number order (a stable sort), as references.
pub fn sorted_draws(draws: &Vec<DrawResult>) -> (r: Vec<&DrawResult>)
    ensures
        same_draws(r@, sorted_by_number(draws@)),
{
    let order = number_order(draws);
    let ghost s = sorted_by_number(draws@);
    let ghost p = sort_order(draw_keys(draws@));
    let mut r: Vec<&DrawResult> = Vec::new();
    for i in 0..order.len()
        invariant
            order@.len() == draws@.len(),
            stable_order(draw_keys(draws@), p, draws@.len() as int),
            forall|k: int| 0 <= k < draws@.len() ==> order@[k] as int == #[trigger] p[k],
            s == sorted_by_number(draws@),
            p == sort_order(draw_keys(draws@)),
            r@.len() == i,
            forall|j: int| 0 <= j < i ==> *r@[j] == s[j],
    {
        let k = order[i];
        assert(order@[i as int] as int == p[i as int]);
        assert(s[i as int] == draws@[p[i as int]]);
        r.push(&draws[k]);
    }
    r
}

/// Whether the stretch of sorted draws from `start` satisfies the rules,
/// given the first numbers of the sorted draws.
fn window_fits_at(
    leads: &Vec<Option<u32>>,
    rules: &Vec<Rule>,
    start: usize,
    Ghost(s): Ghost<Seq<DrawResult>>,
) -> (r: bool)
    requires
        start + rules@.len() <= leads@.len(),
        leads@.len() == s.len(),
        forall|i: int| 0 <= i < s.len() ==> #[trigger] leads@[i] == lead_value(s[i]),
    ensures
        r == window_fits(s, rules@, start as int),
{
    let nl = leads.len();
    let mut i: usize = 0;
    while i < rules.len()
        invariant
            nl == leads@.len(),
            start + rules@.len() <= leads@.len(),
            leads@.len() == s.len(),
            forall|k: int| 0 <= k < s.len() ==> #[trigger] leads@[k] == lead_value(s[k]),
            i <= rules@.len(),
            forall|k: int| 0 <= k < i ==> #[trigger] draw_fits(s[start + k], rules@[k]),
        decreases rules@.len() - i,
    {
        let idx: usize = start + i;
        let fits = match leads[idx] {
            Some(n) => rule_holds(rules[i], n),
            None => false,
        };
        assert(leads@[idx as int] == lead_value(s[start + i]));
        if !fits {
            assert(!draw_fits(s[start + i], rules@[i as int]));
            return false;
        }
        i = i + 1;
    }
    true
}

/// The first numbers of the sorted draws.
fn lead_numbers(sorted: &Vec<&DrawResult>) -> (leads: Vec<Option<u32>>)
    ensures
        leads@.len() == sorted@.len(),
        forall|i: int| 0 <= i < sorted@.len() ==> #[trigger] leads@[i] == lead_value(*sorted@[i]),
{
    let mut leads: Vec<Option<u32>> = Vec::new();
    for i in 0..sorted.len()
        invariant
            leads@.len() == i,
            forall|k: int| 0 <= k < i ==> #[trigger] leads@[k] == lead_value(*sorted@[k]),
    {
        leads.push(lead_number(sorted[i]));
    }
    leads
}

/// Every stretch of consecutive draws (in draw-number order) whose first
/// numbers follow the pattern, in order of where they start.
pub fn all_pattern_matches<'a>(draws: &'a Vec<DrawResult>, pattern: &str) -> (r: Vec<
    Vec<&'a DrawResult>,
>)
    requires
        !scan_overruns(draws@, pattern@),
    ensures
        same_groups(r@, pattern_matches(draws@, pattern@)),
{
    let mut found: Vec<Vec<&DrawResult>> = Vec::new();
    if draws.len() == 0 || pattern.is_empty() {
        return found;
    }
    let rules = parse_pattern(pattern);
    if rules.len() == 0 {
        return found;
    }
    let sorted = sorted_draws(draws);
    let n = sorted.len();
    let plen = rules.len();
    if n < plen {
        return found;
    }
    let leads = lead_numbers(&sorted);
    let ghost s = sorted_by_number(draws@);
    let ghost rs = rules@;
    assert forall|i: int| 0 <= i < n implies #[trigger] leads@[i] == lead_value(s[i]) by {
        assert(*sorted@[i] == s[i]);
    }
    assert(start_count(n as int, plen as int) == n - plen + 1);
    let last = n - plen;
    let mut start: usize = 0;
    while start <= last
        invariant
            n == sorted@.len() == leads@.len() == s.len(),
            s == sorted_by_number(draws@),
            plen == rules@.len() == rs.len(),
            rs == pattern_rules(pattern@),
            rules@ == rs,
            last == n - plen,
            same_draws(sorted@, s),
            forall|i: int| 0 <= i < n ==> #[trigger] leads@[i] == lead_value(s[i]),
            plen >= 1,
            start <= last + 1,
            same_groups(found@, fitting_windows(s, rs, start as nat)),
        decreases last + 1 - start,
    {
        let fits = window_fits_at(&leads, &rules, start, Ghost(s));
        let ghost before = found@;
        if fits {
            let mut w: Vec<&DrawResult> = Vec::new();
            for k in 0..plen
                invariant
                    start + plen <= n == sorted@.len() == s.len(),
                    same_draws(sorted@, s),
                    w@.len() == k,
                    forall|j: int| 0 <= j < k ==> *w@[j] == s[start + j],
            {
                w.push(sorted[start + k]);
            }
            found.push(w);
            assert(same_draws(found@[found@.len() - 1]@, window(s, start as int, plen as int)));
        }
        assert(same_groups(found@, fitting_windows(s, rs, (start + 1) as nat))) by {
            let fw = fitting_windows(s, rs, (start + 1) as nat);
            assert(((start + 1) as nat - 1) as nat == start as nat);
            if fits {
                assert(fw == fitting_windows(s, rs, start as nat).push(
                    window(s, start as int, rs.len() as int),
                ));
            } else {
                assert(fw == fitting_windows(s, rs, start as nat));
            }
            assert forall|i: int| 0 <= i < fw.len() implies same_draws(#[trigger] found@[i]@, fw[i]) by {
                if i < before.len() {
                    assert(found@[i] == before[i]);
                }
            }
        }
        start = start + 1;
    }
    assert(query_active(draws@, pattern@));
    found
}

/// The earliest stretch of consecutive draws (in draw-number order) whose
/// first numbers follow the pattern, or no draws if there is none.
pub fn first_pattern_match_of<'a>(draws: &'a Vec<DrawResult>, pattern: &str) -> (r: Vec<
    &'a DrawResult,
>)
    requires
        !scan_overruns(draws@, pattern@),
    ensures
        same_draws(r@, first_pattern_match(draws@, pattern@)),
{
    let mut w: Vec<&DrawResult> = Vec::new();
    if draws.len() == 0 || pattern.is_empty() {
        return w;
    }
    let rules = parse_pattern(pattern);
    if rules.len() == 0 {
        return w;
    }
    let sorted = sorted_draws(draws);
    let n = sorted.len();
    let plen = rules.len();
    if n < plen {
        return w;
    }
    let leads = lead_numbers(&sorted);
    let ghost s = sorted_by_number(draws@);
    let ghost rs = rules@;
    assert forall|i: int| 0 <= i < n implies #[trigger] leads@[i] == lead_value(s[i]) by {
        assert(*sorted@[i] == s[i]);
    }
    assert(start_count(n as int, plen as int) == n - plen + 1);
    let last = n - plen;
    let mut start: usize = 0;
    while start <= last
        invariant
            n == sorted@.len() == leads@.len() == s.len(),
            s == sorted_by_number(draws@),
            plen == rules@.len() == rs.len(),
            rs == pattern_rules(pattern@),
            rules@ == rs,
            last == n - plen,
            same_draws(sorted@, s),
            forall|i: int| 0 <= i < n ==> #[trigger] leads@[i] == lead_value(s[i]),
            plen >= 1,
            start <= last + 1,
            first_fit(s, rs, start as nat) is None,
            w@.len() == 0,
        decreases last + 1 - start,
    {
        let fits = window_fits_at(&leads, &rules, start, Ghost(s));
        if fits {
            for k in 0..plen
                invariant
                    start + plen <= n == sorted@.len() == s.len(),
                    same_draws(sorted@, s),
                    w@.len() == k,
                    forall|j: int| 0 <= j < k ==> *w@[j] == s[start + j],
            {
                w.push(sorted[start + k]);
            }
            proof {
                assert(((start + 1) as nat - 1) as nat == start as nat);
                assert(first_fit(s, rs, (start + 1) as nat) == Some(start as int));
                lemma_first_fit_stays(s, rs, (start + 1) as nat, start as int, (last + 1) as nat);
                assert(query_active(draws@, pattern@));
            }
            return w;
        }
        assert(((start + 1) as nat - 1) as nat == start as nat);
        assert(first_fit(s, rs, (start + 1) as nat) is None);
        start = start + 1;
    }
    assert(query_active(draws@, pattern@));
    w
}

/// Once a first fit is found, looking at later starts does not change it.
pub proof fn lemma_first_fit_stays(
    s: Seq<DrawResult>,
    rules: Seq<Rule>,
    from: nat,
    x: int,
    to: nat,
)
    requires
        from <= to,
        first_fit(s, rules, from) == Some(x),
    ensures
        first_fit(s, rules, to) == Some(x),
    decreases to - from,
{
    if from < to {
        lemma_first_fit_stays(s, rules, from, x, (to - 1) as nat);
    }
}

/// Whether a search with this pattern would run off the end of the draws
/// (see [`scan_overruns`]).
pub fn scan_would_overrun(draws: &Vec<DrawResult>, pattern: &str) -> (r: bool)
    ensures
        r == scan_overruns(draws@, pattern@),
{
    if draws.len() == 0 {
        return false;
    }
    let rules = parse_pattern(pattern);
    let sorted = sorted_draws(draws);
    let n = sorted.len();
    if n >= rules.len() {
        return false;
    }
    let leads = lead_numbers(&sorted);
    let ghost s = sorted_by_number(draws@);
    let mut i: usize = 0;
    while i < n
        invariant
            n == sorted@.len() == leads@.len() == s.len(),
            s == sorted_by_number(draws@),
            n < rules@.len(),
            rules@ == pattern_rules(pattern@),
            same_draws(sorted@, s),
            forall|k: int| 0 <= k < n ==> #[trigger] leads@[k] == lead_value(*sorted@[k]),
            i <= n,
            forall|k: int| 0 <= k < i ==> #[trigger] draw_fits(s[k], rules@[k]),
        decreases n - i,
    {
        let fits = match leads[i] {
            Some(v) => rule_holds(rules[i], v),
            None => false,
        };
        assert(*sorted@[i as int] == s[i as int]);
        if !fits {
            assert(!draw_fits(s[i as int], rules@[i as int]));
            return false;
        }
        i = i + 1;
    }
    true
}

} // verus!
