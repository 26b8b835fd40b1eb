use vstd::prelude::*;
use vstd::utf8::{valid_utf8, decode_utf8, encode_utf8};
use crate::text::{result_numbers, chars_of, numbers_in};

verus! {

/// What one step of a consecutive pattern asks of a number.
#[derive(Clone, Copy, Debug, PartialEq, Eq, Structural)]
pub enum Rule {
    /// `單` or `单`: the number is odd.
    Odd,
    /// `雙` or `双`: the number is even.
    Even,
    /// `大`: the number is 6 or more.
    Big,
    /// `小`: the number is below 6.
    Small,
    /// Any other piece: no number satisfies it.
    Unknown,
}

/// The rule that a piece of the pattern names.
pub open spec fn rule_of(part: Seq<char>) -> Rule {
    if part == seq!['單'] || part == seq!['单'] {
        Rule::Odd
    } else if part == seq!['雙'] || part == seq!['双'] {
        Rule::Even
    } else if part == seq!['大'] {
        Rule::Big
    } else if part == seq!['小'] {
        Rule::Small
    } else {
        Rule::Unknown
    }
}

/// Whether the number satisfies the rule.
pub open spec fn holds(rule: Rule, n: u32) -> bool {
    match rule {
        Rule::Odd => n % 2 != 0,
        Rule::Even => n % 2 == 0,
        Rule::Big => n >= 6,
        Rule::Small => n < 6,
        Rule::Unknown => false,
    }
}

/// The length of the next piece: three bytes, or what is left if fewer.
pub open spec fn piece_len(len: int) -> int {
    if len < 3 {
        len
    } else {
        3
    }
}

/// The rules of a pattern given by its UTF-8 bytes: the bytes are cut into
/// pieces of three (the last one may be shorter), and every piece that is
/// valid UTF-8 on its own contributes the rule its text names; the others are
/// dropped.
pub open spec fn byte_rules(b: Seq<u8>) -> Seq<Rule>
    decreases b.len(),
{
    if b.len() == 0 {
        Seq::empty()
    } else {
        let k = piece_len(b.len() as int);
        let piece = b.take(k);
        let rest = byte_rules(b.skip(k));
        if valid_utf8(piece) {
            seq![rule_of(decode_utf8(piece))] + rest
        } else {
            rest
        }
    }
}

/// The rules that a pattern such as `單單雙` stands for, one per step.
pub open spec fn pattern_rules(pattern: Seq<char>) -> Seq<Rule> {
    byte_rules(encode_utf8(pattern))
}

/// Whether the last numbers of a draw result satisfy the rules, aligned from
/// the end: the last rule is checked against the last number, and so on.
pub open spec fn suffix_satisfies(nums: Seq<u32>, rules: Seq<Rule>) -> bool {
    &&& nums.len() >= rules.len()
    &&& forall|j: int|
        0 <= j < rules.len() ==> #[trigger] holds(
            rules[j],
            nums[nums.len() - rules.len() + j],
        )
}

/// `std::str::from_utf8`: the bytes read as text, if they are valid UTF-8.
/// Claimed: the result is present exactly when the bytes are valid UTF-8, and
/// then it holds the characters that the bytes encode.
#[verifier::external_body]
fn utf8_text(bytes: &[u8]) -> (r: Option<&str>)
    ensures
        r is Some <==> valid_utf8(bytes@),
        r matches Some(t) ==> t@ == decode_utf8(bytes@),
{
    std::str::from_utf8(bytes).ok()
}

/// The rule that a piece of text names.
pub fn rule_of_text(t: &str) -> (r: Rule)
    ensures
        r == rule_of(t@),
{
    let n = t.unicode_len();
    if n != 1 {
        assert(t@ != seq!['單'] && t@ != seq!['单'] && t@ != seq!['雙'] && t@ != seq!['双']);
        return Rule::Unknown;
    }
    let c = t.get_char(0);
    assert(t@ =~= seq![c]);
    if c == '單' || c == '单' {
        Rule::Odd
    } else if c == '雙' || c == '双' {
        Rule::Even
    } else if c == '大' {
        Rule::Big
    } else if c == '小' {
        Rule::Small
    } else {
        Rule::Unknown
    }
}

/// The rules of a pattern, one per three-byte piece that is text on its own.
pub fn parse_pattern(pattern: &str) -> (r: Vec<Rule>)
    ensures
        r@ == pattern_rules(pattern@),
{
    let bytes = pattern.as_bytes();
    let n = bytes.len();
    let mut rules: Vec<Rule> = Vec::new();
    let mut i: usize = 0;
    assert(bytes@.skip(0) =~= bytes@);
    while i < n
        invariant
            i <= n == bytes@.len(),
            bytes@ == encode_utf8(pattern@),
            rules@ + byte_rules(bytes@.skip(i as int)) == byte_rules(bytes@),
        decreases n - i,
    {
        let end: usize = if n - i < 3 {
            n
        } else {
            i + 3
        };
        let ghost rest = bytes@.skip(i as int);
        let ghost k = piece_len(rest.len() as int);
        assert(k == end - i);
        assert(rest.take(k) =~= bytes@.subrange(i as int, end as int));
        assert(rest.skip(k) =~= bytes@.skip(end as int));
        let piece = vstd::slice::slice_subrange(bytes, i, end);
        match utf8_text(piece) {
            Some(t) => {
                let rule = rule_of_text(t);
                let ghost before = rules@;
                rules.push(rule);
                assert(before + (seq![rule] + byte_rules(bytes@.skip(end as int))) =~= rules@
                    + byte_rules(bytes@.skip(end as int)));
            },
            None => {},
        }
        i = end;
    }
    assert(bytes@.skip(n as int) =~= Seq::<u8>::empty());
    assert(rules@ + Seq::<Rule>::empty() =~= rules@);
    rules
}

/// Whether the number satisfies the rule.
pub fn rule_holds(rule: Rule, n: u32) -> (r: bool)
    ensures
        r == holds(rule, n),
{
    match rule {
        Rule::Odd => n % 2 != 0,
        Rule::Even => n % 2 == 0,
        Rule::Big => n >= 6,
        Rule::Small => n < 6,
        Rule::Unknown => false,
    }
}

/// Whether the last numbers of a draw result follow the pattern: the result
/// is read as comma-separated numbers (pieces that are not numbers are
/// skipped), and the pattern's steps are checked from the last backwards
/// against the last numbers. A result with fewer numbers than the pattern has
/// steps never matches.
pub fn matches_rule(result: &str, rule_input: &str) -> (r: bool)
    ensures
        r == suffix_satisfies(result_numbers(result@), pattern_rules(rule_input@)),
{
    let chars = chars_of(result);
    let nums = numbers_in(&chars);
    let rules = parse_pattern(rule_input);
    if nums.len() < rules.len() {
        return false;
    }
    let ghost off = nums@.len() - rules@.len();
    let mut i: usize = 0;
    while i < rules.len()
        invariant
            nums@ == result_numbers(result@),
            rules@ == pattern_rules(rule_input@),
            nums@.len() >= rules@.len(),
            off == nums@.len() - rules@.len(),
            i <= rules@.len(),
            forall|j: int|
                rules@.len() - i <= j < rules@.len() ==> #[trigger] holds(
                    rules@[j],
                    nums@[off + j],
                ),
        decreases rules@.len() - i,
    {
        let n = nums[nums.len() - 1 - i];
        let rule = rules[rules.len() - 1 - i];
        if !rule_holds(rule, n) {
            assert(!holds(rules@[rules@.len() - 1 - i], nums@[off + (rules@.len() - 1 - i)]));
            return false;
        }
        i = i + 1;
    }
    true
}

} // verus!
