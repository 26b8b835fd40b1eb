use vstd::prelude::*;
use vstd::utf8::{
    encode_utf8, encode_scalar, valid_utf8, decode_utf8, encode_utf8_valid_utf8,
    encode_utf8_decode_utf8, has_width_3_encoding, is_leading_byte_width_3, is_continuation_byte,
    leading_byte_width_3, second_last_continuation_byte, last_continuation_byte,
    valid_first_scalar, length_of_first_scalar, pop_first_scalar,
};
use crate::draw::DrawResult;
use crate::game::{GameType, game_code, game_name, game_slot};
use crate::order::{lex_lt, draw_keys, sort_order, sorted_by_number, precedes, lemma_sort_order_is_stable, lists};
use crate::pattern::{Rule, rule_of, byte_rules, pattern_rules, piece_len, suffix_satisfies};
use crate::search::{
    window_fits, window, fitting_windows, first_fit, start_count, query_active,
    pattern_matches, first_pattern_match,
};
use crate::clock::{
    beijing_time, seconds_of, millis_of, three_digits, shown_time, offset_clock_text,
    BEIJING_OFFSET_SECS, MILLIS_THRESHOLD,
};
use crate::text::digit_char;
use crate::viewer::marks_for;

verus! {

// ---------------------------------------------------------------------------
// Sorting by draw number
// ---------------------------------------------------------------------------

/// Sorting by draw number lists every draw exactly once, in non-decreasing
/// order of draw number, and draws with the same number keep their input
/// order.
pub proof fn law_sorted_by_number(d: Seq<DrawResult>)
    ensures
        ({
            let s = sorted_by_number(d);
            let p = sort_order(draw_keys(d));
            &&& s.len() == d.len()
            &&& forall|i: int| 0 <= i < s.len() ==> 0 <= #[trigger] p[i] < d.len() && s[i] == d[p[i]]
            &&& forall|i: int, j: int|
                0 <= i < s.len() && 0 <= j < s.len() && i != j ==> p[i] != p[j]
            &&& forall|k: int| 0 <= k < d.len() ==> #[trigger] lists(p, d.len() as int, k)
            &&& forall|i: int, j: int|
                0 <= i < j < s.len() ==> !lex_lt(
                    #[trigger] s[j].drawNumber@,
                    #[trigger] s[i].drawNumber@,
                )
            &&& forall|i: int, j: int|
                0 <= i < j < s.len() && s[i].drawNumber@ == s[j].drawNumber@ ==> #[trigger] p[i]
                    < #[trigger] p[j]
        }),
{
    let keys = draw_keys(d);
    let p = sort_order(keys);
    let s = sorted_by_number(d);
    lemma_sort_order_is_stable(keys);
    assert forall|i: int, j: int| 0 <= i < j < s.len() implies !lex_lt(
        #[trigger] s[j].drawNumber@,
        #[trigger] s[i].drawNumber@,
    ) by {
        assert(precedes(keys, p[i], p[j]));
        assert(keys[p[i]] == s[i].drawNumber@);
        assert(keys[p[j]] == s[j].drawNumber@);
        if lex_lt(keys[p[i]], keys[p[j]]) {
            crate::order::lemma_lex_asymmetric(keys[p[i]], keys[p[j]]);
        } else {
            crate::order::lemma_lex_irreflexive(keys[p[i]]);
        }
    }
    assert forall|i: int, j: int|
        0 <= i < j < s.len() && s[i].drawNumber@ == s[j].drawNumber@ implies #[trigger] p[i]
        < #[trigger] p[j] by {
        assert(precedes(keys, p[i], p[j]));
        assert(keys[p[i]] == s[i].drawNumber@);
        assert(keys[p[j]] == s[j].drawNumber@);
        crate::order::lemma_lex_irreflexive(keys[p[i]]);
    }
}

// ---------------------------------------------------------------------------
// Matching stretches
// ---------------------------------------------------------------------------

/// `g` is the stretch at some start before `starts` that satisfies the rules.
pub open spec fn fitting_stretch(s: Seq<DrawResult>, rules: Seq<Rule>, starts: int, g: Seq<DrawResult>) -> bool {
    exists|st: int| 0 <= st < starts && window_fits(s, rules, st) && g == window(s, st, rules.len() as int)
}

/// `g` occurs in the list `w`.
pub open spec fn listed(w: Seq<Seq<DrawResult>>, g: Seq<DrawResult>) -> bool {
    exists|i: int| 0 <= i < w.len() && w[i] == g
}

proof fn lemma_fitting_windows_exact(s: Seq<DrawResult>, rules: Seq<Rule>, starts: nat)
    ensures
        forall|i: int|
            0 <= i < fitting_windows(s, rules, starts).len() ==> #[trigger] fitting_stretch(
                s,
                rules,
                starts as int,
                fitting_windows(s, rules, starts)[i],
            ),
        forall|st: int|
            0 <= st < starts && #[trigger] window_fits(s, rules, st) ==> listed(
                fitting_windows(s, rules, starts),
                window(s, st, rules.len() as int),
            ),
    decreases starts,
{
    if starts > 0 {
        let prev = (starts - 1) as nat;
        lemma_fitting_windows_exact(s, rules, prev);
        let w = fitting_windows(s, rules, prev);
        let w2 = fitting_windows(s, rules, starts);
        assert forall|i: int| 0 <= i < w2.len() implies #[trigger] fitting_stretch(
            s,
            rules,
            starts as int,
            w2[i],
        ) by {
            if i < w.len() {
                assert(w2[i] == w[i]);
                assert(fitting_stretch(s, rules, prev as int, w[i]));
                let st = choose|st: int|
                    0 <= st < prev && window_fits(s, rules, st) && w[i] == window(
                        s,
                        st,
                        rules.len() as int,
                    );
                assert(0 <= st < starts && window_fits(s, rules, st) && w2[i] == window(
                    s,
                    st,
                    rules.len() as int,
                ));
            } else {
                assert(window_fits(s, rules, prev as int));
                assert(w2[i] == window(s, prev as int, rules.len() as int));
            }
        }
        assert forall|st: int| 0 <= st < starts && #[trigger] window_fits(s, rules, st) implies listed(
            w2,
            window(s, st, rules.len() as int),
        ) by {
            if st < prev {
                assert(listed(w, window(s, st, rules.len() as int)));
                let i = choose|i: int| 0 <= i < w.len() && w[i] == window(s, st, rules.len() as int);
                assert(w2[i] == w[i]);
            } else {
                assert(w2[w.len() as int] == window(s, st, rules.len() as int));
            }
        }
    }
}

/// The stretches that a search lists are exactly the stretches of
/// consecutive draws, in draw-number order, that follow the pattern: every
/// listed one is such a stretch, and every such stretch is listed.
pub proof fn law_matches_are_exactly_the_fitting_stretches(d: Seq<DrawResult>, pattern: Seq<char>)
    requires
        query_active(d, pattern),
    ensures
        ({
            let s = sorted_by_number(d);
            let rules = pattern_rules(pattern);
            let w = pattern_matches(d, pattern);
            let last_start = s.len() - rules.len();
            &&& forall|i: int|
                0 <= i < w.len() ==> #[trigger] fitting_stretch(s, rules, last_start + 1, w[i])
            &&& forall|st: int|
                0 <= st <= last_start && #[trigger] window_fits(s, rules, st) ==> listed(
                    w,
                    window(s, st, rules.len() as int),
                )
        }),
{
    let s = sorted_by_number(d);
    let rules = pattern_rules(pattern);
    let n = start_count(s.len() as int, rules.len() as int);
    lemma_fitting_windows_exact(s, rules, n);
    if s.len() < rules.len() {
        assert(n == 0);
    }
}

proof fn lemma_first_fit_heads_windows(s: Seq<DrawResult>, rules: Seq<Rule>, starts: nat)
    ensures
        first_fit(s, rules, starts) is None <==> fitting_windows(s, rules, starts).len() == 0,
        first_fit(s, rules, starts) matches Some(x) ==> fitting_windows(s, rules, starts)[0]
            == window(s, x, rules.len() as int),
    decreases starts,
{
    if starts > 0 {
        lemma_first_fit_heads_windows(s, rules, (starts - 1) as nat);
    }
}

/// Looking for the first match gives the first of all the matches, and
/// nothing when there are none.
pub proof fn law_first_match_heads_all_matches(d: Seq<DrawResult>, pattern: Seq<char>)
    ensures
        first_pattern_match(d, pattern) == if pattern_matches(d, pattern).len() > 0 {
            pattern_matches(d, pattern)[0]
        } else {
            Seq::empty()
        },
{
    let s = sorted_by_number(d);
    let rules = pattern_rules(pattern);
    lemma_first_fit_heads_windows(s, rules, start_count(s.len() as int, rules.len() as int));
}

// ---------------------------------------------------------------------------
// Reading patterns
// ---------------------------------------------------------------------------

/// The characters that name a step: 單 单 雙 双 大 小.
pub open spec fn is_step_char(c: char) -> bool {
    c == '單' || c == '单' || c == '雙' || c == '双' || c == '大' || c == '小'
}

proof fn lemma_step_char_encoding(c: char)
    requires
        is_step_char(c),
    ensures
        encode_scalar(c as u32).len() == 3,
        encode_utf8(seq![c]) == encode_scalar(c as u32),
        valid_utf8(encode_scalar(c as u32)),
        decode_utf8(encode_scalar(c as u32)) == seq![c],
{
    assert(encode_utf8(seq![c]) =~= encode_scalar(c as u32) + encode_utf8(seq![c].drop_first()));
    assert(seq![c].drop_first() =~= Seq::<char>::empty());
    assert(encode_utf8(seq![c]) =~= encode_scalar(c as u32));
    encode_utf8_valid_utf8(seq![c]);
    encode_utf8_decode_utf8(seq![c]);
}

/// A pattern written only with step characters stands for one rule per
/// character, in order: `單單雙` for odd, odd, even.
pub proof fn law_step_patterns(p: Seq<char>)
    requires
        forall|i: int| 0 <= i < p.len() ==> #[trigger] is_step_char(p[i]),
    ensures
        pattern_rules(p) == p.map_values(|c: char| rule_of(seq![c])),
    decreases p.len(),
{
    if p.len() > 0 {
        let c = p[0];
        let rest = p.drop_first();
        assert(is_step_char(p[0]));
        assert forall|i: int| 0 <= i < rest.len() implies #[trigger] is_step_char(rest[i]) by {
            assert(rest[i] == p[i + 1]);
            assert(is_step_char(p[i + 1]));
        }
        law_step_patterns(rest);
        lemma_step_char_encoding(c);
        let b = encode_utf8(p);
        let e = encode_scalar(c as u32);
        assert(b == e + encode_utf8(rest));
        assert(piece_len(b.len() as int) == 3);
        assert(b.take(3) =~= e);
        assert(b.skip(3) =~= encode_utf8(rest));
        assert(byte_rules(b) == seq![rule_of(seq![c])] + byte_rules(encode_utf8(rest)));
        assert(p.map_values(|c: char| rule_of(seq![c])) =~= seq![rule_of(seq![c])]
            + rest.map_values(|c: char| rule_of(seq![c])));
    } else {
        assert(encode_utf8(p) =~= Seq::<u8>::empty());
        assert(p.map_values(|c: char| rule_of(seq![c])) =~= Seq::<Rule>::empty());
    }
}

/// The traditional form of a step character: `单` reads as `單` and `双` as
/// `雙`; every other character stays.
pub open spec fn traditional_char(c: char) -> char {
    if c == '单' {
        '單'
    } else if c == '双' {
        '雙'
    } else {
        c
    }
}

/// The pattern with its simplified step characters written in traditional form.
pub open spec fn traditional_form(p: Seq<char>) -> Seq<char> {
    p.map_values(|c: char| traditional_char(c))
}

/// What a piece of pattern bytes contributes: the rule its text names, if it
/// is text on its own.
pub open spec fn piece_rules(b: Seq<u8>) -> Seq<Rule> {
    if valid_utf8(b) {
        seq![rule_of(decode_utf8(b))]
    } else {
        Seq::empty()
    }
}

/// Two beginnings of a piece that lead to the same rules: the same bytes, or
/// two byte strings of equal length that both start inside a character.
pub open spec fn same_piece_start(x: Seq<u8>, y: Seq<u8>) -> bool {
    &&& x.len() == y.len()
    &&& (x == y || (x.len() > 0 && is_continuation_byte(x[0]) && is_continuation_byte(y[0])))
}

proof fn lemma_width_3_bytes(v: u32)
    by (bit_vector)
    requires
        has_width_3_encoding(v),
    ensures
        is_leading_byte_width_3(leading_byte_width_3(v)),
        is_continuation_byte(second_last_continuation_byte(v)),
        is_continuation_byte(last_continuation_byte(v)),
{
}

/// The encoding of a character that `traditional_char` changes, or of its
/// result: three bytes, a leading byte and two continuation bytes, valid on
/// their own and read back as the character.
proof fn lemma_variant_encoding(c: char)
    requires
        c == '单' || c == '單' || c == '双' || c == '雙',
    ensures
        encode_scalar(c as u32).len() == 3,
        is_leading_byte_width_3(encode_scalar(c as u32)[0]),
        is_continuation_byte(encode_scalar(c as u32)[1]),
        is_continuation_byte(encode_scalar(c as u32)[2]),
        valid_utf8(encode_scalar(c as u32)),
        decode_utf8(encode_scalar(c as u32)) == seq![c],
{
    lemma_step_char_encoding(c);
    lemma_width_3_bytes(c as u32);
}

/// A byte string that starts inside a character is not text on its own.
proof fn lemma_continuation_start_invalid(b: Seq<u8>)
    requires
        b.len() > 0,
        is_continuation_byte(b[0]),
    ensures
        !valid_utf8(b),
{
}

/// A byte string in which a three-byte character starts but is cut off is not
/// text on its own.
proof fn lemma_cut_character_invalid(b: Seq<u8>, j: int)
    requires
        0 <= j < b.len(),
        is_leading_byte_width_3(b[j]),
        b.len() < j + 3,
    ensures
        !valid_utf8(b),
    decreases j,
{
    if valid_utf8(b) {
        assert(valid_first_scalar(b));
        if j > 0 {
            let k = length_of_first_scalar(b);
            assert(k <= j);
            let rest = pop_first_scalar(b);
            assert(rest[j - k] == b[j]);
            lemma_cut_character_invalid(rest, j - k);
        }
    }
}

proof fn lemma_traditional_pieces(x: Seq<u8>, y: Seq<u8>, q: Seq<char>)
    requires
        x.len() <= 3,
        same_piece_start(x, y),
    ensures
        byte_rules(x + encode_utf8(q)) == byte_rules(y + encode_utf8(traditional_form(q))),
    decreases q.len(), x.len(),
{
    let tq = traditional_form(q);
    let e = encode_utf8(q);
    let te = encode_utf8(tq);
    if x.len() == 3 {
        assert((x + e).take(3) =~= x);
        assert((x + e).skip(3) =~= Seq::<u8>::empty() + e);
        assert((y + te).take(3) =~= y);
        assert((y + te).skip(3) =~= Seq::<u8>::empty() + te);
        if x != y {
            lemma_continuation_start_invalid(x);
            lemma_continuation_start_invalid(y);
        }
        assert(byte_rules(x + e) == piece_rules(x) + byte_rules(Seq::<u8>::empty() + e));
        assert(byte_rules(y + te) == piece_rules(y) + byte_rules(Seq::<u8>::empty() + te));
        lemma_traditional_pieces(Seq::empty(), Seq::empty(), q);
    } else if q.len() == 0 {
        assert(e =~= Seq::<u8>::empty());
        assert(te =~= Seq::<u8>::empty());
        assert(x + e =~= x);
        assert(y + te =~= y);
        if x.len() > 0 {
            assert(x.take(x.len() as int) =~= x);
            assert(y.take(y.len() as int) =~= y);
            assert(x.skip(x.len() as int) =~= Seq::<u8>::empty());
            assert(y.skip(y.len() as int) =~= Seq::<u8>::empty());
            if x != y {
                lemma_continuation_start_invalid(x);
                lemma_continuation_start_invalid(y);
            }
            assert(byte_rules(x) == piece_rules(x) + byte_rules(Seq::<u8>::empty()));
            assert(byte_rules(y) == piece_rules(y) + byte_rules(Seq::<u8>::empty()));
        }
    } else {
        let c = q[0];
        let tc = traditional_char(c);
        let rest = q.drop_first();
        assert(tq[0] == tc);
        assert(tq.drop_first() =~= traditional_form(rest));
        let ec = encode_scalar(c as u32);
        let etc = encode_scalar(tc as u32);
        assert(e == ec + encode_utf8(rest));
        assert(te == etc + encode_utf8(traditional_form(rest)));
        let er = encode_utf8(rest);
        let ter = encode_utf8(traditional_form(rest));
        let z = x + ec;
        let tz = y + etc;
        assert(x + e =~= z + er);
        assert(y + te =~= tz + ter);
        if c != tc {
            lemma_variant_encoding(c);
            lemma_variant_encoding(tc);
        }
        if z.len() < 3 {
            assert(c == tc);
            assert(same_piece_start(z, tz)) by {
                if x != y {
                    assert(z[0] == x[0] && tz[0] == y[0]);
                } else {
                    assert(z =~= tz);
                }
            }
            lemma_traditional_pieces(z, tz, rest);
        } else {
            assert((z + er).take(3) =~= z.take(3));
            assert((z + er).skip(3) =~= z.skip(3) + er);
            assert((tz + ter).take(3) =~= tz.take(3));
            assert((tz + ter).skip(3) =~= tz.skip(3) + ter);
            assert(byte_rules(z + er) == piece_rules(z.take(3)) + byte_rules(z.skip(3) + er));
            assert(byte_rules(tz + ter) == piece_rules(tz.take(3)) + byte_rules(tz.skip(3) + ter));
            if c == tc {
                if x != y {
                    lemma_continuation_start_invalid(z.take(3));
                    lemma_continuation_start_invalid(tz.take(3));
                    assert(z.skip(3) =~= tz.skip(3));
                } else {
                    assert(z =~= tz);
                }
            } else if x.len() == 0 {
                assert(x =~= Seq::<u8>::empty() && y =~= Seq::<u8>::empty());
                assert(z.take(3) =~= ec);
                assert(tz.take(3) =~= etc);
                assert(z.skip(3) =~= Seq::<u8>::empty());
                assert(tz.skip(3) =~= Seq::<u8>::empty());
                if c == '单' {
                    assert(seq![c] =~= seq!['单']);
                    assert(seq![tc] =~= seq!['單']);
                    assert(rule_of(seq![c]) == Rule::Odd);
                    assert(rule_of(seq![tc]) == Rule::Odd);
                } else {
                    assert(seq![c] =~= seq!['双']);
                    assert(seq![tc] =~= seq!['雙']);
                    assert(seq![c][0] != seq!['單'][0] && seq![c][0] != seq!['单'][0]);
                    assert(seq![tc][0] != seq!['單'][0] && seq![tc][0] != seq!['单'][0]);
                    assert(rule_of(seq![c]) == Rule::Even);
                    assert(rule_of(seq![tc]) == Rule::Even);
                }
            } else {
                let j = x.len() as int;
                assert(z.take(3)[j] == ec[0]);
                assert(tz.take(3)[j] == etc[0]);
                lemma_cut_character_invalid(z.take(3), j);
                lemma_cut_character_invalid(tz.take(3), j);
                assert(z.skip(3)[0] == ec[3 - j]);
                assert(tz.skip(3)[0] == etc[3 - j]);
            }
            assert(piece_rules(z.take(3)) == piece_rules(tz.take(3)));
            lemma_traditional_pieces(z.skip(3), tz.skip(3), rest);
        }
    }
}

/// Simplified and traditional step characters are interchangeable: writing
/// `单` as `單` and `双` as `雙` anywhere in any pattern changes neither the
/// rules it stands for nor what a search with it finds.
pub proof fn law_simplified_and_traditional_agree(p: Seq<char>)
    ensures
        pattern_rules(traditional_form(p)) == pattern_rules(p),
        forall|nums: Seq<u32>|
            #[trigger] suffix_satisfies(nums, pattern_rules(traditional_form(p))) == suffix_satisfies(
                nums,
                pattern_rules(p),
            ),
        forall|d: Seq<DrawResult>| #[trigger] pattern_matches(d, traditional_form(p)) == pattern_matches(d, p),
{
    lemma_traditional_pieces(Seq::empty(), Seq::empty(), p);
    assert(Seq::<u8>::empty() + encode_utf8(p) =~= encode_utf8(p));
    assert(Seq::<u8>::empty() + encode_utf8(traditional_form(p)) =~= encode_utf8(traditional_form(p)));
}

// ---------------------------------------------------------------------------
// Times
// ---------------------------------------------------------------------------

/// A millisecond timestamp whose milliseconds are zero is shown exactly as
/// the same instant given in seconds.
pub proof fn law_whole_second_millis(t: u64)
    requires
        10_000_000 < t <= 10_000_000_000,
    ensures
        beijing_time((t * 1000) as u64) == beijing_time(t),
{
    assert(seconds_of((t * 1000) as u64) == t);
    assert(millis_of((t * 1000) as u64) == 0);
}

proof fn lemma_lex_common_prefix(s: Seq<char>, u: Seq<char>, v: Seq<char>)
    ensures
        lex_lt(s + u, s + v) == lex_lt(u, v),
    decreases s.len(),
{
    if s.len() == 0 {
        assert(s + u =~= u);
        assert(s + v =~= v);
    } else {
        assert((s + u).drop_first() =~= s.drop_first() + u);
        assert((s + v).drop_first() =~= s.drop_first() + v);
        assert((s + u)[0] == (s + v)[0]);
        lemma_lex_common_prefix(s.drop_first(), u, v);
    }
}

proof fn lemma_lex_proper_prefix(s: Seq<char>, u: Seq<char>)
    requires
        u.len() > 0,
    ensures
        lex_lt(s, s + u),
    decreases s.len(),
{
    if s.len() > 0 {
        assert((s + u).drop_first() =~= s.drop_first() + u);
        assert((s + u)[0] == s[0]);
        lemma_lex_proper_prefix(s.drop_first(), u);
    }
}

proof fn lemma_digit_code(d: nat)
    requires
        d < 10,
    ensures
        digit_char(d) as u32 == 48 + d,
{
    vstd::utf8::char_u32_cast(digit_char(d), (48 + d) as u32);
}

proof fn lemma_three_digits_order(m: nat, n: nat)
    requires
        m < n < 1000,
    ensures
        lex_lt(three_digits(m), three_digits(n)),
{
    let dm = three_digits(m);
    let dn = three_digits(n);
    lemma_digit_code(m / 100);
    lemma_digit_code(n / 100);
    lemma_digit_code((m / 10) % 10);
    lemma_digit_code((n / 10) % 10);
    lemma_digit_code(m % 10);
    lemma_digit_code(n % 10);
    let tm = dm.drop_first();
    let tn = dn.drop_first();
    assert(tm =~= seq![digit_char((m / 10) % 10), digit_char(m % 10)]);
    assert(tn =~= seq![digit_char((n / 10) % 10), digit_char(n % 10)]);
    assert(tm.drop_first() =~= seq![digit_char(m % 10)]);
    assert(tn.drop_first() =~= seq![digit_char(n % 10)]);
    assert(tm.drop_first().drop_first() =~= Seq::<char>::empty());
    assert(tn.drop_first().drop_first() =~= Seq::<char>::empty());
    if m / 100 == n / 100 {
        if (m / 10) % 10 == (n / 10) % 10 {
            assert(m % 10 < n % 10);
            assert(lex_lt(tm.drop_first(), tn.drop_first()));
        }
        assert(lex_lt(tm, tn));
    }
}

/// Within one second, a later millisecond timestamp is shown as a later text:
/// the texts never go backwards in character order (which for UTF-8 text is
/// also byte order), and a strictly later instant with a calendar text comes
/// strictly after.
pub proof fn law_millis_order_within_second(a: u64, b: u64)
    requires
        MILLIS_THRESHOLD < a <= b,
        a / 1000 == b / 1000,
    ensures
        !lex_lt(beijing_time(b), beijing_time(a)),
        a < b && offset_clock_text((a / 1000) as i64, BEIJING_OFFSET_SECS) is Some ==> lex_lt(
            beijing_time(a),
            beijing_time(b),
        ),
{
    let clock = offset_clock_text((a / 1000) as i64, BEIJING_OFFSET_SECS);
    let ma = millis_of(a);
    let mb = millis_of(b);
    assert(seconds_of(a) == seconds_of(b));
    assert(beijing_time(a) == shown_time(clock, ma));
    assert(beijing_time(b) == shown_time(clock, mb));
    match clock {
        None => {
            crate::order::lemma_lex_irreflexive(beijing_time(a));
        },
        Some(t) => {
            if a == b {
                crate::order::lemma_lex_irreflexive(beijing_time(a));
            } else {
                assert(ma < mb);
                let dot = t + seq!['.'];
                if ma == 0 {
                    assert(beijing_time(a) == t);
                    assert(beijing_time(b) =~= t + (seq!['.'] + three_digits(mb)));
                    lemma_lex_proper_prefix(t, seq!['.'] + three_digits(mb));
                } else {
                    lemma_three_digits_order(ma, mb);
                    lemma_lex_common_prefix(dot, three_digits(ma), three_digits(mb));
                }
                crate::order::lemma_lex_asymmetric(beijing_time(a), beijing_time(b));
            }
        },
    }
}

// ---------------------------------------------------------------------------
// Games
// ---------------------------------------------------------------------------

/// Exactly one game is marked in the selection row: the selected one.
pub proof fn law_one_mark(g: GameType)
    ensures
        marks_for(g).len() == 4,
        marks_for(g)[game_slot(g)],
        forall|i: int| 0 <= i < 4 && #[trigger] marks_for(g)[i] ==> i == game_slot(g),
{
}

/// Different games have different lottery codes and different names.
pub proof fn law_games_distinct(a: GameType, b: GameType)
    requires
        a != b,
    ensures
        game_code(a) != game_code(b),
        game_name(a) != game_name(b),
{
    reveal_strlit("SGFT");
    reveal_strlit("XYFT");
    reveal_strlit("LUCKYSB");
    reveal_strlit("PK10JSC");
    reveal_strlit("SG飛艇");
    reveal_strlit("幸運飛艇");
    reveal_strlit("急速飛艇");
    reveal_strlit("急速賽車");
    if game_code(a) == game_code(b) {
        assert(game_code(a)[0] == game_code(b)[0]);
        assert(game_code(a).len() == game_code(b).len());
    }
    if game_name(a) == game_name(b) {
        assert(game_name(a)[0] == game_name(b)[0]);
        assert(game_name(a)[2] == game_name(b)[2]);
    }
}

} // verus!
