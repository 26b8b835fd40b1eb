use vstd::prelude::*;
use crate::draw::DrawResult;
use crate::text::chars_of;

verus! {

// ---------------------------------------------------------------------------
// Lexicographic order of texts
// ---------------------------------------------------------------------------

/// `a` comes strictly before `b` when compared character by character
/// (by code point, a proper prefix first), as `String`'s ordering does.
pub open spec fn lex_lt(a: Seq<char>, b: Seq<char>) -> bool
    decreases a.len(),
{
    if a.len() == 0 {
        b.len() > 0
    } else if b.len() == 0 {
        false
    } else if (a[0] as u32) < (b[0] as u32) {
        true
    } else if a[0] == b[0] {
        lex_lt(a.drop_first(), b.drop_first())
    } else {
        false
    }
}

/// No text comes before itself.
pub proof fn lemma_lex_irreflexive(a: Seq<char>)
    ensures
        !lex_lt(a, a),
    decreases a.len(),
{
    if a.len() > 0 {
        lemma_lex_irreflexive(a.drop_first());
    }
}

/// Of two texts at most one comes before the other.
pub proof fn lemma_lex_asymmetric(a: Seq<char>, b: Seq<char>)
    requires
        lex_lt(a, b),
    ensures
        !lex_lt(b, a),
    decreases a.len(),
{
    if a.len() > 0 && b.len() > 0 && a[0] == b[0] {
        lemma_lex_asymmetric(a.drop_first(), b.drop_first());
    }
}

/// The order is transitive.
pub proof fn lemma_lex_transitive(a: Seq<char>, b: Seq<char>, c: Seq<char>)
    requires
        lex_lt(a, b),
        lex_lt(b, c),
    ensures
        lex_lt(a, c),
    decreases a.len(),
{
    if a.len() > 0 && b.len() > 0 && c.len() > 0 && a[0] == b[0] && b[0] == c[0] {
        lemma_lex_transitive(a.drop_first(), b.drop_first(), c.drop_first());
    }
}

/// Of two different texts one comes before the other.
pub proof fn lemma_lex_total(a: Seq<char>, b: Seq<char>)
    requires
        a != b,
    ensures
        lex_lt(a, b) || lex_lt(b, a),
    decreases a.len(),
{
    if a.len() > 0 && b.len() > 0 && a[0] == b[0] {
        assert(a =~= seq![a[0]] + a.drop_first());
        assert(b =~= seq![b[0]] + b.drop_first());
        lemma_lex_total(a.drop_first(), b.drop_first());
    } else if a.len() == 0 && b.len() == 0 {
        assert(a =~= b);
    } else if a.len() > 0 && b.len() > 0 {
        vstd::utf8::char_u32_cast(a[0], a[0] as u32);
        vstd::utf8::char_u32_cast(b[0], b[0] as u32);
    }
}

/// Whether `a` comes strictly before `b`.
pub fn text_less(a: &Vec<char>, b: &Vec<char>) -> (r: bool)
    ensures
        r == lex_lt(a@, b@),
{
    let mut i: usize = 0;
    assert(a@.skip(0) =~= a@);
    assert(b@.skip(0) =~= b@);
    loop
        invariant
            i <= a@.len(),
            i <= b@.len(),
            lex_lt(a@, b@) == lex_lt(a@.skip(i as int), b@.skip(i as int)),
        decreases a@.len() - i,
    {
        if i == a.len() {
            return i < b.len();
        }
        if i == b.len() {
            return false;
        }
        let x = a[i] as u32;
        let y = b[i] as u32;
        if x < y {
            return true;
        }
        if a[i] != b[i] {
            return false;
        }
        assert(a@.skip(i as int).drop_first() =~= a@.skip(i + 1));
        assert(b@.skip(i as int).drop_first() =~= b@.skip(i + 1));
        i = i + 1;
    }
}

// ---------------------------------------------------------------------------
// Stable order of draws by draw number
// ---------------------------------------------------------------------------

/// The draw numbers, as texts.
pub open spec fn draw_keys(d: Seq<DrawResult>) -> Seq<Seq<char>> {
    d.map_values(|x: DrawResult| x.drawNumber@)
}

/// Draw `i` goes before draw `j`: a smaller draw number, or the same number
/// and an earlier place in the input.
pub open spec fn precedes(keys: Seq<Seq<char>>, i: int, j: int) -> bool {
    lex_lt(keys[i], keys[j]) || (keys[i] == keys[j] && i < j)
}

/// Index `k` occurs among the first `n` entries of `p`.
pub open spec fn lists(p: Seq<int>, n: int, k: int) -> bool {
    exists|i: int| 0 <= i < n && #[trigger] p[i] == k
}

/// `p` lists each of the indices `0..n` once, in the order of `precedes`:
/// what a stable sort by draw number does to the first `n` draws.
pub open spec fn stable_order(keys: Seq<Seq<char>>, p: Seq<int>, n: int) -> bool {
    &&& p.len() == n
    &&& forall|i: int| 0 <= i < n ==> 0 <= #[trigger] p[i] < n
    &&& forall|i: int, j: int| 0 <= i < n && 0 <= j < n && i != j ==> p[i] != p[j]
    &&& forall|k: int| 0 <= k < n ==> #[trigger] lists(p, n, k)
    &&& forall|i: int, j: int| 0 <= i < j < n ==> precedes(keys, #[trigger] p[i], #[trigger] p[j])
}

/// The order in which a stable sort by draw number lists the draws.
pub open spec fn sort_order(keys: Seq<Seq<char>>) -> Seq<int> {
    choose|p: Seq<int>| stable_order(keys, p, keys.len() as int)
}

/// The draws sorted by draw number, draws with equal numbers kept in their
/// input order (`sort_by` on the draw number, which is stable).
pub open spec fn sorted_by_number(d: Seq<DrawResult>) -> Seq<DrawResult> {
    let p = sort_order(draw_keys(d));
    Seq::new(d.len(), |i: int| d[p[i]])
}

proof fn lemma_precedes_asymmetric(keys: Seq<Seq<char>>, a: int, b: int)
    requires
        a != b,
        precedes(keys, a, b),
    ensures
        !precedes(keys, b, a),
{
    if lex_lt(keys[a], keys[b]) {
        lemma_lex_asymmetric(keys[a], keys[b]);
        if keys[a] == keys[b] {
            lemma_lex_irreflexive(keys[a]);
        }
    } else {
        lemma_lex_irreflexive(keys[a]);
    }
}

proof fn lemma_order_agrees_from(keys: Seq<Seq<char>>, p: Seq<int>, q: Seq<int>, i: int)
    requires
        stable_order(keys, p, keys.len() as int),
        stable_order(keys, q, keys.len() as int),
        0 <= i <= keys.len(),
        forall|j: int| 0 <= j < i ==> p[j] == q[j],
    ensures
        forall|j: int| 0 <= j < keys.len() ==> p[j] == q[j],
    decreases keys.len() - i,
{
    let n = keys.len() as int;
    if i < n {
        let a = p[i];
        let b = q[i];
        if a != b {
            assert(lists(q, n, a));
            assert(lists(p, n, b));
            let ja = choose|x: int| 0 <= x < n && #[trigger] q[x] == a;
            let jb = choose|x: int| 0 <= x < n && #[trigger] p[x] == b;
            if ja < i {
                assert(p[ja] == a);
            }
            if jb < i {
                assert(q[jb] == b);
            }
            assert(precedes(keys, q[i], q[ja]));
            assert(precedes(keys, p[i], p[jb]));
            lemma_precedes_asymmetric(keys, a, b);
        }
        lemma_order_agrees_from(keys, p, q, i + 1);
    }
}

/// A stable sort by draw number has only one outcome.
pub proof fn lemma_stable_order_unique(keys: Seq<Seq<char>>, p: Seq<int>, q: Seq<int>)
    requires
        stable_order(keys, p, keys.len() as int),
        stable_order(keys, q, keys.len() as int),
    ensures
        p == q,
{
    lemma_order_agrees_from(keys, p, q, 0);
    assert(p =~= q);
}

proof fn lemma_insert_keeps_order(keys: Seq<Seq<char>>, p: Seq<int>, n: int, pos: int)
    requires
        0 <= n < keys.len(),
        stable_order(keys, p, n),
        0 <= pos <= n,
        forall|i: int| 0 <= i < pos ==> !lex_lt(keys[n], #[trigger] keys[p[i]]),
        pos < n ==> lex_lt(keys[n], keys[p[pos]]),
    ensures
        stable_order(keys, p.insert(pos, n), n + 1),
{
    let q = p.insert(pos, n);
    assert forall|i: int| 0 <= i < n + 1 implies 0 <= #[trigger] q[i] < n + 1 by {
        if i > pos {
            assert(q[i] == p[i - 1]);
        }
    }
    assert forall|i: int, j: int| 0 <= i < n + 1 && 0 <= j < n + 1 && i != j implies q[i]
        != q[j] by {
        if i < pos {
            assert(q[i] == p[i]);
        } else if i > pos {
            assert(q[i] == p[i - 1]);
        }
        if j < pos {
            assert(q[j] == p[j]);
        } else if j > pos {
            assert(q[j] == p[j - 1]);
        }
    }
    assert forall|k: int| 0 <= k < n + 1 implies #[trigger] lists(q, n + 1, k) by {
        if k == n {
            assert(q[pos] == n);
        } else {
            assert(lists(p, n, k));
            let i = choose|i: int| 0 <= i < n && #[trigger] p[i] == k;
            if i < pos {
                assert(q[i] == k);
            } else {
                assert(q[i + 1] == k);
            }
        }
    }
    assert forall|i: int, j: int| 0 <= i < j < n + 1 implies precedes(
        keys,
        #[trigger] q[i],
        #[trigger] q[j],
    ) by {
        if j < pos {
            assert(q[i] == p[i] && q[j] == p[j]);
            assert(precedes(keys, p[i], p[j]));
        } else if j == pos {
            assert(q[i] == p[i]);
            assert(0 <= p[i] < n);
            assert(!lex_lt(keys[n], keys[p[i]]));
            if keys[p[i]] != keys[n] {
                lemma_lex_total(keys[p[i]], keys[n]);
            }
        } else if i == pos {
            assert(q[j] == p[j - 1]);
            if j - 1 > pos {
                assert(precedes(keys, p[pos], p[j - 1]));
                if lex_lt(keys[p[pos]], keys[p[j - 1]]) {
                    lemma_lex_transitive(keys[n], keys[p[pos]], keys[p[j - 1]]);
                }
            }
        } else if i < pos {
            assert(q[i] == p[i] && q[j] == p[j - 1]);
            assert(precedes(keys, p[i], p[j - 1]));
        } else {
            assert(q[i] == p[i - 1] && q[j] == p[j - 1]);
            assert(precedes(keys, p[i - 1], p[j - 1]));
        }
    }
}

proof fn lemma_insertion_point(keys: Seq<Seq<char>>, p: Seq<int>, n: int, from: int) -> (pos: int)
    requires
        0 <= n < keys.len(),
        stable_order(keys, p, n),
        0 <= from <= n,
        forall|i: int| 0 <= i < from ==> !lex_lt(keys[n], #[trigger] keys[p[i]]),
    ensures
        from <= pos <= n,
        forall|i: int| 0 <= i < pos ==> !lex_lt(keys[n], #[trigger] keys[p[i]]),
        pos < n ==> lex_lt(keys[n], keys[p[pos]]),
    decreases n - from,
{
    if from == n {
        n
    } else if lex_lt(keys[n], keys[p[from]]) {
        from
    } else {
        lemma_insertion_point(keys, p, n, from + 1)
    }
}

/// The first `n` draws can always be put in stable order.
pub proof fn lemma_stable_order_prefix(keys: Seq<Seq<char>>, n: int) -> (p: Seq<int>)
    requires
        0 <= n <= keys.len(),
    ensures
        stable_order(keys, p, n),
    decreases n,
{
    if n == 0 {
        Seq::empty()
    } else {
        let q = lemma_stable_order_prefix(keys, n - 1);
        let pos = lemma_insertion_point(keys, q, n - 1, 0);
        lemma_insert_keeps_order(keys, q, n - 1, pos);
        q.insert(pos, n - 1)
    }
}

/// Every list of draws has a stable order by draw number, and
/// [`sort_order`] is it.
pub proof fn lemma_sort_order_is_stable(keys: Seq<Seq<char>>)
    ensures
        stable_order(keys, sort_order(keys), keys.len() as int),
{
    let p = lemma_stable_order_prefix(keys, keys.len() as int);
    assert(stable_order(keys, p, keys.len() as int));
}

/// The draw numbers of the draws, as characters.
fn draw_number_chars(draws: &Vec<DrawResult>) -> (keys: Vec<Vec<char>>)
    ensures
        keys@.len() == draws@.len(),
        forall|i: int| 0 <= i < draws@.len() ==> #[trigger] keys@[i]@ == draws@[i].drawNumber@,
{
    let mut keys: Vec<Vec<char>> = Vec::new();
    for i in 0..draws.len()
        invariant
            keys@.len() == i,
            forall|j: int| 0 <= j < i ==> #[trigger] keys@[j]@ == draws@[j].drawNumber@,
    {
        keys.push(chars_of(draws[i].drawNumber.as_str()));
    }
    keys
}

/// The positions of the draws in the order of a stable sort by draw number:
/// the `i`-th draw of the sorted list is `draws[order[i]]`.
pub fn number_order(draws: &Vec<DrawResult>) -> (order: Vec<usize>)
    ensures
        order@.len() == draws@.len(),
        stable_order(draw_keys(draws@), sort_order(draw_keys(draws@)), draws@.len() as int),
        forall|i: int| 0 <= i < draws@.len() ==> order@[i] as int == #[trigger] sort_order(draw_keys(draws@))[i],
{
    let keys = draw_number_chars(draws);
    let ghost ks = draw_keys(draws@);
    assert forall|i: int| 0 <= i < draws@.len() implies #[trigger] keys@[i]@ == ks[i] by {}
    let n = draws.len();
    let mut order: Vec<usize> = Vec::new();
    let ghost mut p: Seq<int> = Seq::empty();
    for k in 0..n
        invariant
            n == draws@.len() == keys@.len() == ks.len(),
            forall|i: int| 0 <= i < n ==> #[trigger] keys@[i]@ == ks[i],
            order@.len() == p.len(),
            forall|i: int| 0 <= i < p.len() ==> order@[i] as int == #[trigger] p[i],
            stable_order(ks, p, k as int),
    {
        let mut pos: usize = 0;
        assert forall|i: int| 0 <= i < order@.len() implies order@[i] < k by {
            assert(order@[i] as int == p[i]);
        }
        while pos < order.len() && !text_less(&keys[k], &keys[order[pos]])
            invariant
                n == draws@.len() == keys@.len() == ks.len(),
                forall|i: int| 0 <= i < n ==> #[trigger] keys@[i]@ == ks[i],
                k < n,
                order@.len() == p.len() == k,
                forall|i: int| 0 <= i < p.len() ==> order@[i] as int == #[trigger] p[i],
                stable_order(ks, p, k as int),
                pos <= order@.len(),
                forall|i: int| 0 <= i < order@.len() ==> order@[i] < k,
                forall|i: int| 0 <= i < pos ==> !lex_lt(ks[k as int], #[trigger] ks[p[i]]),
            decreases order@.len() - pos,
        {
            pos = pos + 1;
        }
        proof {
            lemma_insert_keeps_order(ks, p, k as int, pos as int);
            p = p.insert(pos as int, k as int);
        }
        order.insert(pos, k);
    }
    proof {
        let q = sort_order(ks);
        assert(stable_order(ks, p, n as int));
        lemma_stable_order_unique(ks, p, q);
    }
    order
}

} // verus!
