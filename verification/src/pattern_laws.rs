use vstd::prelude::*;
use vstd::utf8::encode_utf8;
use crate::draw::{DrawResult, lead_text, lead_value};
use crate::order::{
    draw_keys, sort_order, sorted_by_number, stable_order, precedes, lists,
    lemma_sort_order_is_stable, lemma_stable_order_unique,
};
use crate::pattern::{Rule, byte_rules, pattern_rules, suffix_satisfies, holds, rule_of};
use crate::search::{
    window_fits, window, fitting_windows, start_count, query_active, pattern_matches,
    first_pattern_match,
};
use crate::laws::{fitting_stretch, listed, law_matches_are_exactly_the_fitting_stretches};
use crate::text::{
    decimal_text, digit_char, digit_value, decimal_value, all_digits, is_digit, is_white_space,
    trim_start, trim_end, trimmed, unsigned_digits, parse_u32, comma_fields, parsed_fields,
    result_numbers,
};

verus! {

// ---------------------------------------------------------------------------
// The order in which draws arrive
// ---------------------------------------------------------------------------

/// `perm` lists each index `0..n` once.
pub open spec fn index_permutation(perm: Seq<int>, n: int) -> bool {
    &&& perm.len() == n
    &&& forall|i: int| 0 <= i < n ==> 0 <= #[trigger] perm[i] < n
    &&& forall|i: int, j: int| 0 <= i < n && 0 <= j < n && i != j ==> perm[i] != perm[j]
    &&& forall|k: int| 0 <= k < n ==> #[trigger] lists(perm, n, k)
}

/// `e` holds the draws of `d`, each once, in the order `perm` gives.
pub open spec fn rearranged(d: Seq<DrawResult>, e: Seq<DrawResult>, perm: Seq<int>) -> bool {
    &&& e.len() == d.len()
    &&& index_permutation(perm, d.len() as int)
    &&& forall|i: int| 0 <= i < e.len() ==> #[trigger] e[i] == d[perm[i]]
}

/// No two draws share a draw number.
pub open spec fn distinct_numbers(d: Seq<DrawResult>) -> bool {
    forall|i: int, j: int|
        0 <= i < d.len() && 0 <= j < d.len() && i != j ==> #[trigger] d[i].drawNumber@
            != #[trigger] d[j].drawNumber@
}

/// When no two draws share a draw number, the order in which the draws
/// arrived does not matter: the sorted draws, every match and the first
/// match are the same for any arrangement of them.
pub proof fn law_arrival_order_irrelevant(d: Seq<DrawResult>, e: Seq<DrawResult>, perm: Seq<int>)
    requires
        distinct_numbers(d),
        rearranged(d, e, perm),
    ensures
        sorted_by_number(e) == sorted_by_number(d),
        forall|pattern: Seq<char>| #[trigger] pattern_matches(e, pattern) == pattern_matches(d, pattern),
        forall|pattern: Seq<char>| #[trigger] first_pattern_match(e, pattern) == first_pattern_match(d, pattern),
{
    let n = d.len() as int;
    let kd = draw_keys(d);
    let ke = draw_keys(e);
    let pd = sort_order(kd);
    let pe = sort_order(ke);
    lemma_sort_order_is_stable(kd);
    lemma_sort_order_is_stable(ke);
    let q = Seq::new(n as nat, |i: int| perm[pe[i]]);
    assert forall|i: int| 0 <= i < n implies 0 <= #[trigger] q[i] < n by {
        assert(0 <= pe[i] < n);
    }
    assert forall|i: int, j: int| 0 <= i < n && 0 <= j < n && i != j implies q[i] != q[j] by {
        assert(pe[i] != pe[j]);
        assert(0 <= pe[i] < n && 0 <= pe[j] < n);
    }
    assert forall|k: int| 0 <= k < n implies #[trigger] lists(q, n, k) by {
        assert(lists(perm, n, k));
        let j = choose|j: int| 0 <= j < n && #[trigger] perm[j] == k;
        assert(lists(pe, n, j));
        let i = choose|i: int| 0 <= i < n && #[trigger] pe[i] == j;
        assert(q[i] == k);
    }
    assert forall|i: int, j: int| 0 <= i < j < n implies precedes(kd, #[trigger] q[i], #[trigger] q[j]) by {
        assert(precedes(ke, pe[i], pe[j]));
        assert(0 <= pe[i] < n && 0 <= pe[j] < n && pe[i] != pe[j]);
        assert(ke[pe[i]] == kd[q[i]]);
        assert(ke[pe[j]] == kd[q[j]]);
        assert(q[i] != q[j]);
        assert(d[q[i]].drawNumber@ != d[q[j]].drawNumber@);
    }
    assert(stable_order(kd, q, n));
    lemma_stable_order_unique(kd, q, pd);
    assert(sorted_by_number(e) =~= sorted_by_number(d)) by {
        assert forall|i: int| 0 <= i < n implies #[trigger] sorted_by_number(e)[i]
            == sorted_by_number(d)[i] by {
            assert(q[i] == pd[i]);
        }
    }
}

// ---------------------------------------------------------------------------
// Longer patterns
// ---------------------------------------------------------------------------

proof fn lemma_encode_concat(q: Seq<char>, s: Seq<char>)
    ensures
        encode_utf8(q + s) == encode_utf8(q) + encode_utf8(s),
    decreases q.len(),
{
    if q.len() == 0 {
        assert(q + s =~= s);
        assert(encode_utf8(q) =~= Seq::<u8>::empty());
        assert(encode_utf8(q) + encode_utf8(s) =~= encode_utf8(s));
    } else {
        assert((q + s).drop_first() =~= q.drop_first() + s);
        assert((q + s)[0] == q[0]);
        lemma_encode_concat(q.drop_first(), s);
        assert(encode_utf8(q + s) =~= encode_utf8(q) + encode_utf8(s));
    }
}

proof fn lemma_byte_rules_concat(a: Seq<u8>, b: Seq<u8>)
    requires
        a.len() % 3 == 0,
    ensures
        byte_rules(a + b) == byte_rules(a) + byte_rules(b),
    decreases a.len(),
{
    if a.len() == 0 {
        assert(a + b =~= b);
        assert(byte_rules(a) =~= Seq::<Rule>::empty());
        assert(byte_rules(a) + byte_rules(b) =~= byte_rules(b));
    } else {
        assert((a + b).take(3) =~= a.take(3));
        assert((a + b).skip(3) =~= a.skip(3) + b);
        lemma_byte_rules_concat(a.skip(3), b);
        let head = byte_rules(a + b);
        let first = byte_rules(a);
        assert(head =~= first + byte_rules(b));
    }
}

/// A pattern whose first part fills whole three-byte pieces stands for the
/// rules of that part followed by the rules of the rest.
pub proof fn law_pattern_rules_concat(q: Seq<char>, s: Seq<char>)
    requires
        encode_utf8(q).len() % 3 == 0,
    ensures
        pattern_rules(q + s) == pattern_rules(q) + pattern_rules(s),
{
    lemma_encode_concat(q, s);
    lemma_byte_rules_concat(encode_utf8(q), encode_utf8(s));
}

proof fn lemma_fits_prefix_rules(s: Seq<DrawResult>, r: Seq<Rule>, t: Seq<Rule>, st: int)
    requires
        window_fits(s, r + t, st),
    ensures
        window_fits(s, r, st),
{
    assert forall|i: int| 0 <= i < r.len() implies #[trigger] crate::search::draw_fits(s[st + i], r[i]) by {
        assert((r + t)[i] == r[i]);
        assert(crate::search::draw_fits(s[st + i], (r + t)[i]));
    }
}

proof fn lemma_fitting_count_grows(s: Seq<DrawResult>, r: Seq<Rule>, a: nat, b: nat)
    requires
        a <= b,
    ensures
        fitting_windows(s, r, a).len() <= fitting_windows(s, r, b).len(),
    decreases b - a,
{
    if a < b {
        lemma_fitting_count_grows(s, r, a, (b - 1) as nat);
    }
}

proof fn lemma_fitting_count_weaker(s: Seq<DrawResult>, r: Seq<Rule>, t: Seq<Rule>, n: nat)
    ensures
        fitting_windows(s, r + t, n).len() <= fitting_windows(s, r, n).len(),
    decreases n,
{
    if n > 0 {
        lemma_fitting_count_weaker(s, r, t, (n - 1) as nat);
        if window_fits(s, r + t, n - 1) {
            lemma_fits_prefix_rules(s, r, t, n - 1);
        }
    }
}

/// Extending a pattern whose first part fills whole three-byte pieces keeps
/// only matches that begin with a match of that first part, so there are no
/// more of them.
pub proof fn law_longer_pattern_fewer_matches(d: Seq<DrawResult>, q: Seq<char>, t: Seq<char>)
    requires
        d.len() > 0,
        encode_utf8(q).len() % 3 == 0,
        pattern_rules(q).len() > 0,
    ensures
        forall|i: int|
            0 <= i < pattern_matches(d, q + t).len() ==> listed(
                pattern_matches(d, q),
                #[trigger] pattern_matches(d, q + t)[i].take(pattern_rules(q).len() as int),
            ),
        pattern_matches(d, q + t).len() <= pattern_matches(d, q).len(),
{
    let p = q + t;
    let s = sorted_by_number(d);
    let rq = pattern_rules(q);
    let rt = pattern_rules(t);
    law_pattern_rules_concat(q, t);
    let rp = pattern_rules(p);
    assert(rp == rq + rt);
    assert(q.len() > 0) by {
        if q.len() == 0 {
            assert(encode_utf8(q) =~= Seq::<u8>::empty());
        }
    }
    assert(p.len() > 0);
    assert(query_active(d, q));
    assert(query_active(d, p));
    law_matches_are_exactly_the_fitting_stretches(d, q);
    law_matches_are_exactly_the_fitting_stretches(d, p);
    let wp = pattern_matches(d, p);
    let wq = pattern_matches(d, q);
    let n = s.len() as int;
    assert forall|i: int| 0 <= i < wp.len() implies listed(wq, #[trigger] wp[i].take(rq.len() as int)) by {
        assert(fitting_stretch(s, rp, n - rp.len() + 1, wp[i]));
        let st = choose|st: int|
            0 <= st < n - rp.len() + 1 && window_fits(s, rp, st) && wp[i] == window(s, st, rp.len() as int);
        lemma_fits_prefix_rules(s, rq, rt, st);
        assert(wp[i].take(rq.len() as int) =~= window(s, st, rq.len() as int));
        assert(0 <= st <= n - rq.len());
        assert(window_fits(s, rq, st));
    }
    let cp = start_count(n, rp.len() as int);
    let cq = start_count(n, rq.len() as int);
    lemma_fitting_count_weaker(s, rq, rt, cp);
    lemma_fitting_count_grows(s, rq, cp, cq);
}

/// A result that follows a pattern whose first part fills whole three-byte
/// pieces also follows the rest of the pattern alone.
pub proof fn law_dropping_leading_steps_keeps_match(nums: Seq<u32>, q: Seq<char>, t: Seq<char>)
    requires
        encode_utf8(q).len() % 3 == 0,
        suffix_satisfies(nums, pattern_rules(q + t)),
    ensures
        suffix_satisfies(nums, pattern_rules(t)),
{
    law_pattern_rules_concat(q, t);
    let rq = pattern_rules(q);
    let rt = pattern_rules(t);
    let rp = rq + rt;
    assert forall|j: int| 0 <= j < rt.len() implies #[trigger] crate::pattern::holds(
        rt[j],
        nums[nums.len() - rt.len() + j],
    ) by {
        let k = rq.len() + j;
        assert(rp[k] == rt[j]);
        assert(crate::pattern::holds(rp[k], nums[nums.len() - rp.len() + k]));
    }
}

// ---------------------------------------------------------------------------
// Longer results
// ---------------------------------------------------------------------------

proof fn lemma_comma_fields_nonempty(s: Seq<char>)
    ensures
        comma_fields(s).len() >= 1,
    decreases s.len(),
{
    if s.len() > 0 {
        lemma_comma_fields_nonempty(s.drop_last());
    }
}

proof fn lemma_comma_free_single_field(a: Seq<char>)
    requires
        forall|i: int| 0 <= i < a.len() ==> #[trigger] a[i] != ',',
    ensures
        comma_fields(a) == seq![a],
    decreases a.len(),
{
    if a.len() > 0 {
        lemma_comma_free_single_field(a.drop_last());
        assert(a.drop_last().push(a.last()) =~= a);
        assert(comma_fields(a) =~= seq![a]);
    } else {
        assert(a =~= Seq::<char>::empty());
    }
}

proof fn lemma_fields_after_comma(a: Seq<char>, b: Seq<char>)
    requires
        forall|i: int| 0 <= i < a.len() ==> #[trigger] a[i] != ',',
    ensures
        comma_fields(a + seq![','] + b) == seq![a] + comma_fields(b),
    decreases b.len(),
{
    let pre = a + seq![','];
    if b.len() == 0 {
        assert(pre + b =~= pre);
        assert(pre.drop_last() =~= a);
        lemma_comma_free_single_field(a);
        assert(comma_fields(pre) =~= seq![a] + comma_fields(b));
    } else {
        lemma_fields_after_comma(a, b.drop_last());
        lemma_comma_fields_nonempty(b.drop_last());
        assert((pre + b).drop_last() =~= pre + b.drop_last());
        assert((pre + b).last() == b.last());
        let g = comma_fields(b.drop_last());
        if b.last() == ',' {
            assert((seq![a] + g).push(Seq::<char>::empty()) =~= seq![a] + g.push(Seq::<char>::empty()));
        } else {
            let f = seq![a] + g;
            assert(f.update(f.len() - 1, f.last().push(b.last())) =~= seq![a] + g.update(
                g.len() - 1,
                g.last().push(b.last()),
            ));
        }
    }
}

proof fn lemma_parsed_fields_front(a: Seq<char>, g: Seq<Seq<char>>, n: u32)
    requires
        parse_u32(trimmed(a)) == Some(n),
    ensures
        parsed_fields(seq![a] + g) == seq![n] + parsed_fields(g),
    decreases g.len(),
{
    if g.len() == 0 {
        assert(seq![a] + g =~= seq![a]);
        assert(seq![a].drop_last() =~= Seq::<Seq<char>>::empty());
        assert(seq![a].last() == a);
        assert(parsed_fields(Seq::<Seq<char>>::empty()) =~= Seq::<u32>::empty());
        assert(parsed_fields(g) =~= Seq::<u32>::empty());
        assert(parsed_fields(seq![a]) =~= Seq::<u32>::empty().push(n));
        assert(parsed_fields(seq![a]) =~= seq![n] + parsed_fields(g));
    } else {
        lemma_parsed_fields_front(a, g.drop_last(), n);
        assert((seq![a] + g).drop_last() =~= seq![a] + g.drop_last());
        assert((seq![a] + g).last() == g.last());
        match parse_u32(trimmed(g.last())) {
            Some(m) => {
                assert((seq![n] + parsed_fields(g.drop_last())).push(m) =~= seq![n] + parsed_fields(g.drop_last()).push(m));
            },
            None => {},
        }
    }
}

proof fn lemma_digit_char_code(d: nat)
    requires
        d < 10,
    ensures
        digit_char(d) as u32 == 48 + d,
{
    vstd::utf8::char_u32_cast(digit_char(d), (48 + d) as u32);
}

proof fn lemma_decimal_text_reads_back(n: nat)
    ensures
        decimal_text(n).len() > 0,
        n > 0 ==> decimal_text(n)[0] != '0',
        n == 0 ==> decimal_text(n) == seq!['0'],
        all_digits(decimal_text(n)),
        decimal_value(decimal_text(n)) == n,
        forall|i: int| 0 <= i < decimal_text(n).len() ==> (#[trigger] decimal_text(n)[i] as u32) >= 48
            && (decimal_text(n)[i] as u32) <= 57,
    decreases n,
{
    if n < 10 {
        lemma_digit_char_code(n);
        assert(decimal_text(n).drop_last() =~= Seq::<char>::empty());
        assert(decimal_value(Seq::<char>::empty()) == 0);
        assert(digit_value(digit_char(n)) == n);
        if n == 0 {
            vstd::utf8::char_u32_cast('0', 48);
            assert(decimal_text(n) =~= seq!['0']);
        } else {
            vstd::utf8::char_u32_cast('0', 48);
            assert(('0' as u32) == 48);
        }
    } else {
        lemma_decimal_text_reads_back(n / 10);
        assert(decimal_text(n)[0] == decimal_text(n / 10)[0]);
        lemma_digit_char_code(n % 10);
        let t = decimal_text(n);
        assert(t.drop_last() =~= decimal_text(n / 10));
        assert(t.last() == digit_char(n % 10));
        assert(digit_value(digit_char(n % 10)) == n % 10);
        assert(decimal_value(t) == decimal_value(decimal_text(n / 10)) * 10 + n % 10);
        assert((n / 10) * 10 + n % 10 == n);
        assert forall|i: int| 0 <= i < t.len() implies (#[trigger] t[i] as u32) >= 48 && (t[i] as u32) <= 57 by {
            if i < t.len() - 1 {
                assert(t[i] == decimal_text(n / 10)[i]);
            }
        }
        assert forall|i: int| 0 <= i < t.len() implies #[trigger] is_digit(t[i]) by {
            assert((t[i] as u32) >= 48);
        }
    }
}

proof fn lemma_decimal_text_parses(n: u32)
    ensures
        parse_u32(trimmed(decimal_text(n as nat))) == Some(n),
{
    let t = decimal_text(n as nat);
    lemma_decimal_text_reads_back(n as nat);
    assert((t[0] as u32) >= 48);
    assert((t.last() as u32) >= 48 && (t.last() as u32) <= 57);
    assert(!is_white_space(t[0]));
    assert(trim_start(t) == t);
    assert(!is_white_space(t.last()));
    assert(trim_end(t) == t);
    assert(t[0] != '+');
    assert(unsigned_digits(t) == t);
}

/// Putting one more number, written in decimal, in front of a draw result
/// puts it in front of the numbers read from it, so whatever pattern the
/// result followed it still follows.
pub proof fn law_prepending_a_number_keeps_match(n: u32, r: Seq<char>, pattern: Seq<char>)
    ensures
        result_numbers(decimal_text(n as nat) + seq![','] + r) == seq![n] + result_numbers(r),
        suffix_satisfies(result_numbers(r), pattern_rules(pattern)) ==> suffix_satisfies(
            result_numbers(decimal_text(n as nat) + seq![','] + r),
            pattern_rules(pattern),
        ),
{
    let a = decimal_text(n as nat);
    lemma_decimal_text_reads_back(n as nat);
    assert forall|i: int| 0 <= i < a.len() implies #[trigger] a[i] != ',' by {
        assert((a[i] as u32) >= 48);
    }
    lemma_fields_after_comma(a, r);
    lemma_decimal_text_parses(n);
    lemma_parsed_fields_front(a, comma_fields(r), n);
    let nums = result_numbers(r);
    let more = seq![n] + nums;
    let rules = pattern_rules(pattern);
    if suffix_satisfies(nums, rules) {
        assert forall|j: int| 0 <= j < rules.len() implies #[trigger] crate::pattern::holds(
            rules[j],
            more[more.len() - rules.len() + j],
        ) by {
            assert(more[more.len() - rules.len() + j] == nums[nums.len() - rules.len() + j]);
            assert(crate::pattern::holds(rules[j], nums[nums.len() - rules.len() + j]));
        }
    }
}

// ---------------------------------------------------------------------------
// What the building blocks mean
// ---------------------------------------------------------------------------

/// The steps mean what the pattern language says: 單/单 an odd number,
/// 雙/双 an even one, 大 a number of 6 or more, 小 one below 6. Every number
/// is exactly one of odd and even, and exactly one of 大 and 小; a piece
/// that names no step is satisfied by no number.
pub proof fn law_step_meanings(n: u32)
    ensures
        holds(Rule::Odd, n) <==> n % 2 == 1,
        holds(Rule::Even, n) <==> n % 2 == 0,
        holds(Rule::Big, n) <==> n >= 6,
        holds(Rule::Small, n) <==> n < 6,
        holds(Rule::Odd, n) != holds(Rule::Even, n),
        holds(Rule::Big, n) != holds(Rule::Small, n),
        !holds(Rule::Unknown, n),
        rule_of(seq!['單']) == Rule::Odd,
        rule_of(seq!['单']) == Rule::Odd,
        rule_of(seq!['雙']) == Rule::Even,
        rule_of(seq!['双']) == Rule::Even,
        rule_of(seq!['大']) == Rule::Big,
        rule_of(seq!['小']) == Rule::Small,
{
    assert(seq!['雙'][0] != seq!['單'][0] && seq!['雙'][0] != seq!['单'][0]);
    assert(seq!['双'][0] != seq!['單'][0] && seq!['双'][0] != seq!['单'][0]);
    assert(seq!['大'][0] != seq!['單'][0] && seq!['大'][0] != seq!['单'][0]);
    assert(seq!['大'][0] != seq!['雙'][0] && seq!['大'][0] != seq!['双'][0]);
    assert(seq!['小'][0] != seq!['單'][0] && seq!['小'][0] != seq!['单'][0]);
    assert(seq!['小'][0] != seq!['雙'][0] && seq!['小'][0] != seq!['双'][0]);
    assert(seq!['小'][0] != seq!['大'][0]);
}

/// Counts and group numbers are written as plain decimals: ASCII digits that
/// read back as the number, with no leading zero (a lone `0` for zero).
pub proof fn law_decimal_text_is_plain_decimal(n: nat)
    ensures
        decimal_text(n).len() > 0,
        all_digits(decimal_text(n)),
        decimal_value(decimal_text(n)) == n,
        n > 0 ==> decimal_text(n)[0] != '0',
        n == 0 ==> decimal_text(n) == seq!['0'],
{
    lemma_decimal_text_reads_back(n);
}

/// Every character is white space.
pub open spec fn all_white(w: Seq<char>) -> bool {
    forall|i: int| 0 <= i < w.len() ==> #[trigger] is_white_space(w[i])
}

/// Every character is the digit `0`.
pub open spec fn all_zeros(z: Seq<char>) -> bool {
    forall|i: int| 0 <= i < z.len() ==> #[trigger] z[i] == '0'
}

proof fn lemma_lead_field_of_prefix(x: Seq<char>, tail: Seq<char>)
    requires
        forall|i: int| 0 <= i < x.len() ==> #[trigger] x[i] != ',',
        tail.len() == 0 || tail[0] == ',',
    ensures
        crate::text::lead_field(x + tail) == x,
    decreases x.len(),
{
    if x.len() == 0 {
        assert(x + tail =~= tail);
        assert(x =~= Seq::<char>::empty());
    } else {
        assert((x + tail)[0] == x[0]);
        assert((x + tail).drop_first() =~= x.drop_first() + tail);
        assert forall|i: int| 0 <= i < x.drop_first().len() implies #[trigger] x.drop_first()[i] != ',' by {
            assert(x.drop_first()[i] == x[i + 1]);
        }
        lemma_lead_field_of_prefix(x.drop_first(), tail);
        assert(seq![x[0]] + x.drop_first() =~= x);
    }
}

proof fn lemma_trim_start_white(w: Seq<char>, t: Seq<char>)
    requires
        all_white(w),
        t.len() > 0,
        !is_white_space(t[0]),
    ensures
        trim_start(w + t) == t,
    decreases w.len(),
{
    if w.len() == 0 {
        assert(w + t =~= t);
    } else {
        assert((w + t)[0] == w[0]);
        assert((w + t).drop_first() =~= w.drop_first() + t);
        assert forall|i: int| 0 <= i < w.drop_first().len() implies #[trigger] is_white_space(w.drop_first()[i]) by {
            assert(w.drop_first()[i] == w[i + 1]);
        }
        lemma_trim_start_white(w.drop_first(), t);
    }
}

proof fn lemma_trim_end_white(t: Seq<char>, w: Seq<char>)
    requires
        all_white(w),
        t.len() > 0,
        !is_white_space(t.last()),
    ensures
        trim_end(t + w) == t,
    decreases w.len(),
{
    if w.len() == 0 {
        assert(t + w =~= t);
    } else {
        assert((t + w).last() == w.last());
        assert((t + w).drop_last() =~= t + w.drop_last());
        assert forall|i: int| 0 <= i < w.drop_last().len() implies #[trigger] is_white_space(w.drop_last()[i]) by {
            assert(w.drop_last()[i] == w[i]);
        }
        lemma_trim_end_white(t, w.drop_last());
    }
}

proof fn lemma_zeros_value(z: Seq<char>)
    requires
        all_zeros(z),
    ensures
        decimal_value(z) == 0,
    decreases z.len(),
{
    if z.len() > 0 {
        assert forall|i: int| 0 <= i < z.drop_last().len() implies #[trigger] z.drop_last()[i] == '0' by {
            assert(z.drop_last()[i] == z[i]);
        }
        lemma_zeros_value(z.drop_last());
        assert(z.last() == '0');
        vstd::utf8::char_u32_cast('0', 48);
        assert(('0' as u32) == 48);
    }
}

proof fn lemma_leading_zeros_value(z: Seq<char>, t: Seq<char>)
    requires
        all_zeros(z),
    ensures
        decimal_value(z + t) == decimal_value(t),
    decreases t.len(),
{
    if t.len() == 0 {
        assert(z + t =~= z);
        lemma_zeros_value(z);
    } else {
        assert((z + t).drop_last() =~= z + t.drop_last());
        assert((z + t).last() == t.last());
        lemma_leading_zeros_value(z, t.drop_last());
    }
}

/// How the first number of a draw result is read: the text before the first
/// comma, with white space around it, an optional `+` and leading zeros before
/// the digits (`" 08 ,3"`, `"007"`, `"+5"`), reads as the number the digits
/// give.
pub proof fn law_first_number_reading(
    d: DrawResult,
    before: Seq<char>,
    sign: Seq<char>,
    zeros: Seq<char>,
    n: u32,
    after: Seq<char>,
    tail: Seq<char>,
)
    requires
        all_white(before),
        sign == Seq::<char>::empty() || sign == seq!['+'],
        all_zeros(zeros),
        all_white(after),
        tail.len() == 0 || tail[0] == ',',
        d.result@ == before + sign + zeros + decimal_text(n as nat) + after + tail,
    ensures
        lead_text(d) == before + sign + zeros + decimal_text(n as nat) + after,
        lead_value(d) == Some(n),
{
    let dec = decimal_text(n as nat);
    lemma_decimal_text_reads_back(n as nat);
    let zd = zeros + dec;
    let szd = sign + zd;
    let field = before + szd + after;
    vstd::utf8::char_u32_cast('0', 48);
    assert forall|i: int| 0 <= i < zd.len() implies #[trigger] is_digit(zd[i]) && (zd[i] as u32) >= 48
        && (zd[i] as u32) <= 57 by {
        if i < zeros.len() {
            assert(zd[i] == zeros[i]);
            assert(zeros[i] == '0');
        } else {
            assert(zd[i] == dec[i - zeros.len()]);
        }
    }
    assert forall|i: int| 0 <= i < field.len() implies #[trigger] field[i] != ',' by {
        if i < before.len() {
            assert(field[i] == before[i]);
            assert(is_white_space(before[i]));
        } else if i < before.len() + sign.len() {
            assert(field[i] == sign[i - before.len()]);
        } else if i < before.len() + szd.len() {
            assert(field[i] == zd[i - before.len() - sign.len()]);
        } else {
            assert(field[i] == after[i - before.len() - szd.len()]);
            assert(is_white_space(after[i - before.len() - szd.len()]));
        }
    }
    assert(d.result@ =~= field + tail);
    lemma_lead_field_of_prefix(field, tail);
    assert(zd.len() > 0);
    assert(szd.len() > 0);
    assert(!is_white_space(szd[0])) by {
        if sign.len() > 0 {
            assert(szd[0] == '+');
        } else {
            assert(szd[0] == zd[0]);
        }
    }
    assert(szd.last() == zd.last());
    assert(!is_white_space(zd.last()));
    assert(field =~= before + (szd + after));
    assert((szd + after)[0] == szd[0]);
    lemma_trim_start_white(before, szd + after);
    lemma_trim_end_white(szd, after);
    assert(trimmed(field) == szd);
    assert(zd[0] != '+');
    assert(unsigned_digits(szd) == zd) by {
        if sign.len() > 0 {
            assert(szd.drop_first() =~= zd);
        } else {
            assert(szd =~= zd);
        }
    }
    lemma_leading_zeros_value(zeros, dec);
    assert(all_digits(zd));
}

} // verus!
