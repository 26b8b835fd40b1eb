use vstd::prelude::*;

verus! {

// ---------------------------------------------------------------------------
// Specifications
// ---------------------------------------------------------------------------

/// `char::is_whitespace`: the characters with the Unicode `White_Space` property.
pub open spec fn is_white_space(c: char) -> bool {
    let u = c as u32;
    ||| 0x9 <= u <= 0xD
    ||| u == 0x20
    ||| u == 0x85
    ||| u == 0xA0
    ||| u == 0x1680
    ||| 0x2000 <= u <= 0x200A
    ||| u == 0x2028
    ||| u == 0x2029
    ||| u == 0x202F
    ||| u == 0x205F
    ||| u == 0x3000
}

/// The text with its leading white space removed.
pub open spec fn trim_start(s: Seq<char>) -> Seq<char>
    decreases s.len(),
{
    if s.len() > 0 && is_white_space(s[0]) {
        trim_start(s.drop_first())
    } else {
        s
    }
}

/// The text with its trailing white space removed.
pub open spec fn trim_end(s: Seq<char>) -> Seq<char>
    decreases s.len(),
{
    if s.len() > 0 && is_white_space(s.last()) {
        trim_end(s.drop_last())
    } else {
        s
    }
}

/// The text without leading and trailing white space (`str::trim`).
pub open spec fn trimmed(s: Seq<char>) -> Seq<char> {
    trim_end(trim_start(s))
}

/// An ASCII decimal digit.
pub open spec fn is_digit(c: char) -> bool {
    48 <= (c as u32) <= 57
}

/// The value of an ASCII decimal digit.
pub open spec fn digit_value(c: char) -> nat {
    ((c as u32) - 48) as nat
}

/// Every character is an ASCII decimal digit.
pub open spec fn all_digits(s: Seq<char>) -> bool {
    forall|i: int| 0 <= i < s.len() ==> #[trigger] is_digit(s[i])
}

/// The number that a string of decimal digits denotes.
pub open spec fn decimal_value(s: Seq<char>) -> nat
    decreases s.len(),
{
    if s.len() == 0 {
        0
    } else {
        decimal_value(s.drop_last()) * 10 + digit_value(s.last())
    }
}

/// The digits of an unsigned number, after an optional leading `+`.
pub open spec fn unsigned_digits(s: Seq<char>) -> Seq<char> {
    if s.len() > 0 && s[0] == '+' {
        s.drop_first()
    } else {
        s
    }
}

/// What `str::parse::<u32>` gives: an optional `+`, then at least one ASCII
/// digit and nothing else, denoting a value that fits in a `u32`.
pub open spec fn parse_u32(s: Seq<char>) -> Option<u32> {
    let d = unsigned_digits(s);
    if d.len() > 0 && all_digits(d) && decimal_value(d) <= u32::MAX {
        Some(decimal_value(d) as u32)
    } else {
        None
    }
}

/// The text before the first comma (all of it if there is none): the first
/// item that `split(',')` yields.
pub open spec fn lead_field(s: Seq<char>) -> Seq<char>
    decreases s.len(),
{
    if s.len() == 0 {
        s
    } else if s[0] == ',' {
        Seq::empty()
    } else {
        seq![s[0]] + lead_field(s.drop_first())
    }
}

/// The pieces of the text between commas, in order (`split(',')`); there is
/// always at least one.
pub open spec fn comma_fields(s: Seq<char>) -> Seq<Seq<char>>
    decreases s.len(),
{
    if s.len() == 0 {
        seq![Seq::empty()]
    } else {
        let f = comma_fields(s.drop_last());
        if s.last() == ',' {
            f.push(Seq::empty())
        } else {
            f.update(f.len() - 1, f.last().push(s.last()))
        }
    }
}

/// The values of those pieces that read as numbers once trimmed, in order.
pub open spec fn parsed_fields(fs: Seq<Seq<char>>) -> Seq<u32>
    decreases fs.len(),
{
    if fs.len() == 0 {
        Seq::empty()
    } else {
        let rest = parsed_fields(fs.drop_last());
        match parse_u32(trimmed(fs.last())) {
            Some(n) => rest.push(n),
            None => rest,
        }
    }
}

/// The numbers listed, comma-separated, in a draw result.
pub open spec fn result_numbers(s: Seq<char>) -> Seq<u32> {
    parsed_fields(comma_fields(s))
}

/// The decimal digits of a number, without leading zeros (`0` for zero).
pub open spec fn decimal_text(n: nat) -> Seq<char>
    decreases n,
{
    if n < 10 {
        seq![digit_char(n)]
    } else {
        decimal_text(n / 10).push(digit_char(n % 10))
    }
}

/// The ASCII digit of a value below ten.
pub open spec fn digit_char(d: nat) -> char {
    (48 + d) as char
}

// ---------------------------------------------------------------------------
// Lemmas
// ---------------------------------------------------------------------------

proof fn lemma_lead_field_step(s: Seq<char>, i: int)
    requires
        0 <= i < s.len(),
        s[i] != ',',
        lead_field(s) == s.take(i) + lead_field(s.skip(i)),
    ensures
        lead_field(s) == s.take(i + 1) + lead_field(s.skip(i + 1)),
{
    assert(s.skip(i).drop_first() =~= s.skip(i + 1));
    assert(s.take(i) + seq![s[i]] =~= s.take(i + 1));
    assert(s.take(i) + (seq![s[i]] + lead_field(s.skip(i + 1))) =~= s.take(i + 1) + lead_field(
        s.skip(i + 1),
    ));
}

// ---------------------------------------------------------------------------
// Executable functions
// ---------------------------------------------------------------------------

/// The characters of a string, in order.
pub fn chars_of(s: &str) -> (v: Vec<char>)
    ensures
        v@ == s@,
{
    let mut v: Vec<char> = Vec::new();
    for c in it: s.chars()
        invariant
            v@ == it.seq().take(it.index() as int),
    {
        v.push(c);
    }
    v
}

/// Whether the character is white space (`char::is_whitespace`).
pub fn white_space(c: char) -> (r: bool)
    ensures
        r == is_white_space(c),
{
    let u = c as u32;
    (0x9 <= u && u <= 0xD) || u == 0x20 || u == 0x85 || u == 0xA0 || u == 0x1680 || (0x2000 <= u
        && u <= 0x200A) || u == 0x2028 || u == 0x2029 || u == 0x202F || u == 0x205F || u == 0x3000
}

/// The characters without leading and trailing white space.
pub fn trim_chars(v: &Vec<char>) -> (r: Vec<char>)
    ensures
        r@ == trimmed(v@),
{
    let n = v.len();
    let mut lo: usize = 0;
    assert(v@.skip(0) =~= v@);
    while lo < n && white_space(v[lo])
        invariant
            lo <= n == v@.len(),
            trim_start(v@) == trim_start(v@.skip(lo as int)),
        decreases n - lo,
    {
        assert(v@.skip(lo as int).drop_first() =~= v@.skip(lo + 1));
        lo = lo + 1;
    }
    let ghost t = v@.skip(lo as int);
    assert(trim_start(t) == t);
    let mut hi: usize = n;
    while hi > lo && white_space(v[hi - 1])
        invariant
            lo <= hi <= n == v@.len(),
            t == v@.skip(lo as int),
            trim_end(t) == trim_end(v@.subrange(lo as int, hi as int)),
        decreases hi,
    {
        assert(v@.subrange(lo as int, hi as int).drop_last() =~= v@.subrange(lo as int, hi - 1));
        hi = hi - 1;
    }
    assert(t =~= v@.subrange(lo as int, n as int));
    let mut r: Vec<char> = Vec::new();
    let mut k: usize = lo;
    while k < hi
        invariant
            lo <= k <= hi <= n == v@.len(),
            r@ == v@.subrange(lo as int, k as int),
        decreases hi - k,
    {
        r.push(v[k]);
        assert(r@ =~= v@.subrange(lo as int, k + 1));
        k = k + 1;
    }
    r
}

/// `str::parse::<u32>` on the characters.
pub fn parse_u32_chars(v: &Vec<char>) -> (r: Option<u32>)
    ensures
        r == parse_u32(v@),
{
    let n = v.len();
    let start: usize = if n > 0 && v[0] == '+' {
        1
    } else {
        0
    };
    let ghost d = unsigned_digits(v@);
    assert(d =~= v@.skip(start as int));
    if start >= n {
        return None;
    }
    let mut acc: u64 = 0;
    let mut i: usize = start;
    while i < n
        invariant
            start <= i <= n == v@.len(),
            d == v@.skip(start as int),
            d == unsigned_digits(v@),
            all_digits(v@.subrange(start as int, i as int)),
            acc as int == if decimal_value(v@.subrange(start as int, i as int)) <= u32::MAX {
                decimal_value(v@.subrange(start as int, i as int)) as int
            } else {
                u32::MAX + 1
            },
        decreases n - i,
    {
        let c = v[i];
        let u = c as u32;
        if u < 48 || u > 57 {
            assert(d[i - start] == v@[i as int]);
            assert(!is_digit(d[i - start]));
            assert(!all_digits(d));
            return None;
        }
        let ghost pre = v@.subrange(start as int, i as int);
        let ghost next = v@.subrange(start as int, i + 1);
        assert(next.drop_last() =~= pre);
        assert(all_digits(next));
        if acc > 0xFFFF_FFFF {
            acc = 0x1_0000_0000;
        } else {
            let m = acc * 10 + (u - 48) as u64;
            if m > 0xFFFF_FFFF {
                acc = 0x1_0000_0000;
            } else {
                acc = m;
            }
        }
        i = i + 1;
    }
    assert(v@.subrange(start as int, n as int) =~= d);
    if acc > 0xFFFF_FFFF {
        None
    } else {
        Some(acc as u32)
    }
}

/// The text before the first comma.
pub fn lead_field_chars(v: &Vec<char>) -> (r: Vec<char>)
    ensures
        r@ == lead_field(v@),
{
    let n = v.len();
    let mut r: Vec<char> = Vec::new();
    let mut i: usize = 0;
    assert(v@.skip(0) =~= v@);
    while i < n && v[i] != ','
        invariant
            i <= n == v@.len(),
            r@ == v@.take(i as int),
            lead_field(v@) == v@.take(i as int) + lead_field(v@.skip(i as int)),
        decreases n - i,
    {
        proof {
            lemma_lead_field_step(v@, i as int);
        }
        r.push(v[i]);
        assert(r@ =~= v@.take(i + 1));
        i = i + 1;
    }
    assert(lead_field(v@.skip(i as int)) =~= Seq::<char>::empty());
    assert(lead_field(v@) =~= r@);
    r
}

/// The numbers listed, comma-separated, in the text.
pub fn numbers_in(v: &Vec<char>) -> (r: Vec<u32>)
    ensures
        r@ == result_numbers(v@),
{
    let n = v.len();
    let mut done: Vec<u32> = Vec::new();
    let mut cur: Vec<char> = Vec::new();
    let mut i: usize = 0;
    assert(v@.take(0) =~= Seq::<char>::empty());
    while i < n
        invariant
            i <= n == v@.len(),
            comma_fields(v@.take(i as int)).len() >= 1,
            done@ == parsed_fields(comma_fields(v@.take(i as int)).drop_last()),
            cur@ == comma_fields(v@.take(i as int)).last(),
        decreases n - i,
    {
        let ghost f = comma_fields(v@.take(i as int));
        let ghost s1 = v@.take(i + 1);
        assert(s1.drop_last() =~= v@.take(i as int));
        assert(s1.last() == v@[i as int]);
        let c = v[i];
        if c == ',' {
            assert(f.push(Seq::empty()).drop_last() =~= f);
            assert(f =~= f.drop_last().push(f.last()));
            let t = trim_chars(&cur);
            match parse_u32_chars(&t) {
                Some(x) => done.push(x),
                None => {},
            }
            cur = Vec::new();
        } else {
            let ghost g = f.update(f.len() - 1, f.last().push(c));
            assert(g.drop_last() =~= f.drop_last());
            cur.push(c);
        }
        i = i + 1;
    }
    let ghost f = comma_fields(v@.take(n as int));
    assert(v@.take(n as int) =~= v@);
    assert(f =~= f.drop_last().push(f.last()));
    let t = trim_chars(&cur);
    match parse_u32_chars(&t) {
        Some(x) => done.push(x),
        None => {},
    }
    done
}

// ---------------------------------------------------------------------------
// Building text
// ---------------------------------------------------------------------------

/// `String::push`: claimed to append the one character.
#[verifier::external_body]
pub fn push_char(s: &mut String, c: char)
    ensures
        final(s)@ == old(s)@.push(c),
{
    s.push(c);
}

/// The ASCII digit of a value below ten.
pub fn digit_of(d: u64) -> (c: char)
    requires
        d < 10,
    ensures
        c == digit_char(d as nat),
{
    let b: u8 = 48 + d as u8;
    b as char
}

/// Appends the decimal digits of `n`.
pub fn push_decimal(s: &mut String, n: u64)
    ensures
        final(s)@ == old(s)@ + decimal_text(n as nat),
    decreases n,
{
    if n >= 10 {
        push_decimal(s, n / 10);
        push_char(s, digit_of(n % 10));
        assert(s@ =~= old(s)@ + decimal_text(n as nat));
    } else {
        push_char(s, digit_of(n));
        assert(s@ =~= old(s)@ + decimal_text(n as nat));
    }
}

/// The decimal digits of `n`.
pub fn decimal_string(n: u64) -> (s: String)
    ensures
        s@ == decimal_text(n as nat),
{
    let mut s = String::new();
    push_decimal(&mut s, n);
    assert(s@ =~= decimal_text(n as nat));
    s
}

} // verus!
