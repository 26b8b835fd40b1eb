use vstd::prelude::*;
use crate::draw::{DrawResult, lead_text};
use crate::order::sorted_by_number;
use crate::search::{pattern_matches, scan_overruns, same_draws, same_groups, sorted_draws};
use crate::text::{decimal_text, chars_of, lead_field_chars, push_char, push_decimal};
use crate::clock::beijing_time;
use crate::viewer::{MyApp, ViewerState};

verus! {

/// One element of the result area.
#[derive(Debug)]
pub enum DisplayItem {
    /// A heading line.
    Heading(String),
    /// An ordinary line.
    Label(String),
    /// A rule between two groups.
    Separator,
}

/// A result-area element, as plain values.
pub enum Shown {
    Heading(Seq<char>),
    Label(Seq<char>),
    Separator,
}

impl View for DisplayItem {
    type V = Shown;

    open spec fn view(&self) -> Shown {
        match self {
            DisplayItem::Heading(s) => Shown::Heading(s@),
            DisplayItem::Label(s) => Shown::Label(s@),
            DisplayItem::Separator => Shown::Separator,
        }
    }
}

/// `" → "`, then the result, then the first number in full-width brackets.
pub open spec fn result_tail(d: DrawResult) -> Seq<char> {
    " → "@ + d.result@ + "（首號："@ + lead_text(d) + "）"@
}

/// The line for a draw of a matching stretch: its Beijing time, its number,
/// its result and first number.
pub open spec fn match_line(d: DrawResult) -> Seq<char> {
    "✅ ["@ + beijing_time(d.drawTime) + "] "@ + d.drawNumber@ + result_tail(d)
}

/// The line for a draw in the full listing: its number, result and first
/// number.
pub open spec fn listing_line(d: DrawResult) -> Seq<char> {
    "📊 "@ + d.drawNumber@ + result_tail(d)
}

/// The heading of the `index`-th matching stretch (counted from zero), which
/// has `len` draws.
pub open spec fn group_heading(index: nat, len: nat) -> Seq<char> {
    "🔍 匹配組 #"@ + decimal_text(index + 1) + " (期數: "@ + decimal_text(len) + ")"@
}

/// The heading above the matching stretches, giving their count.
pub open spec fn found_heading(count: nat) -> Seq<char> {
    "🎯 找到 "@ + decimal_text(count) + " 組連續模式："@
}

/// The elements shown for one matching stretch: its heading, one line per
/// draw, and a separator unless it is the last stretch.
pub open spec fn group_items(g: Seq<DrawResult>, index: nat, last: bool) -> Seq<Shown> {
    seq![Shown::Heading(group_heading(index, g.len()))] + g.map_values(
        |d: DrawResult| Shown::Label(match_line(d)),
    ) + if last {
        Seq::empty()
    } else {
        seq![Shown::Separator]
    }
}

/// The elements shown for the first `upto` of the matching stretches `gs`.
pub open spec fn groups_items(gs: Seq<Seq<DrawResult>>, upto: nat) -> Seq<Shown>
    decreases upto,
{
    if upto == 0 {
        Seq::empty()
    } else {
        groups_items(gs, (upto - 1) as nat) + group_items(
            gs[upto - 1],
            (upto - 1) as nat,
            upto == gs.len(),
        )
    }
}

/// What the result area shows. With a pattern and loaded draws: the matching
/// stretches under a heading that counts them, or a notice that none match.
/// With draws but no pattern: every draw, in draw-number order, under a
/// heading. Without draws: nothing.
pub open spec fn result_area(st: ViewerState) -> Seq<Shown> {
    if st.filter.len() > 0 && st.draws.len() > 0 {
        let gs = pattern_matches(st.draws, st.filter);
        if gs.len() > 0 {
            seq![Shown::Heading(found_heading(gs.len()))] + groups_items(gs, gs.len())
        } else {
            seq![Shown::Label("❌ 沒有找到符合連續模式的結果"@)]
        }
    } else if st.draws.len() > 0 {
        seq![Shown::Heading("📋 全部數據："@)] + sorted_by_number(st.draws).map_values(
            |d: DrawResult| Shown::Label(listing_line(d)),
        )
    } else {
        Seq::empty()
    }
}

/// The elements hold, in order, the given shown values.
pub open spec fn shows(items: Seq<DisplayItem>, expected: Seq<Shown>) -> bool {
    &&& items.len() == expected.len()
    &&& forall|i: int| 0 <= i < expected.len() ==> #[trigger] items[i]@ == expected[i]
}

/// Appends `" → "`, the result, and the first number in brackets.
fn push_result_tail(s: &mut String, d: &DrawResult)
    ensures
        final(s)@ == old(s)@ + result_tail(*d),
{
    let chars = chars_of(d.result.as_str());
    let first = lead_field_chars(&chars);
    s.append(" → ");
    s.append(d.result.as_str());
    s.append("（首號：");
    let mut k: usize = 0;
    let ghost base = s@;
    while k < first.len()
        invariant
            s@ == base + first@.take(k as int),
            k <= first@.len(),
        decreases first@.len() - k,
    {
        push_char(s, first[k]);
        assert(first@.take(k + 1) =~= first@.take(k as int).push(first@[k as int]));
        k = k + 1;
    }
    assert(first@.take(first@.len() as int) =~= first@);
    s.append("）");
    assert(s@ =~= old(s)@ + result_tail(*d));
}

/// The line for a draw of a matching stretch.
pub fn match_line_text(d: &DrawResult) -> (s: String)
    ensures
        s@ == match_line(*d),
{
    let mut s = String::from_str("✅ [");
    let t = MyApp::timestamp_to_beijing_time(d.drawTime);
    s.append(t.as_str());
    s.append("] ");
    s.append(d.drawNumber.as_str());
    push_result_tail(&mut s, d);
    assert(s@ =~= match_line(*d));
    s
}

/// The line for a draw in the full listing.
pub fn listing_line_text(d: &DrawResult) -> (s: String)
    ensures
        s@ == listing_line(*d),
{
    let mut s = String::from_str("📊 ");
    s.append(d.drawNumber.as_str());
    push_result_tail(&mut s, d);
    assert(s@ =~= listing_line(*d));
    s
}

proof fn lemma_group_items_extend(
    g: Seq<DrawResult>,
    index: nat,
    last: bool,
    k: int,
)
    requires
        0 <= k < g.len(),
    ensures
        (seq![Shown::Heading(group_heading(index, g.len()))] + g.take(k).map_values(
            |d: DrawResult| Shown::Label(match_line(d)),
        )).push(Shown::Label(match_line(g[k]))) =~= seq![Shown::Heading(group_heading(index, g.len()))]
            + g.take(k + 1).map_values(|d: DrawResult| Shown::Label(match_line(d))),
{
    assert(g.take(k + 1).map_values(|d: DrawResult| Shown::Label(match_line(d))) =~= g.take(
        k,
    ).map_values(|d: DrawResult| Shown::Label(match_line(d))).push(Shown::Label(match_line(g[k]))));
}

impl MyApp {
    /// What the result area shows for the current state (see
    /// [`result_area`]).
    pub fn result_items(&self) -> (items: Vec<DisplayItem>)
        requires
            !scan_overruns(self@.draws, self@.filter),
        ensures
            shows(items@, result_area(self@)),
    {
        let mut items: Vec<DisplayItem> = Vec::new();
        let draws = self.draws();
        let filter = self.filter();
        if !filter.is_empty() && draws.len() > 0 {
            let groups = self.find_all_consecutive_patterns(filter);
            let ghost gs = pattern_matches(self@.draws, self@.filter);
            if groups.len() == 0 {
                items.push(DisplayItem::Label(String::from_str("❌ 沒有找到符合連續模式的結果")));
                assert(items@[0]@ == result_area(self@)[0]);
                return items;
            }
            let mut h = String::from_str("🎯 找到 ");
            push_decimal(&mut h, groups.len() as u64);
            h.append(" 組連續模式：");
            assert(h@ =~= found_heading(gs.len()));
            items.push(DisplayItem::Heading(h));
            let ghost head = seq![Shown::Heading(found_heading(gs.len()))];
            let ng = groups.len();
            for gi in 0..ng
                invariant
                    ng == groups@.len() == gs.len(),
                    same_groups(groups@, gs),
                    shows(items@, head + groups_items(gs, gi as nat)),
            {
                let group = &groups[gi];
                let ghost g = gs[gi as int];
                assert(same_draws(group@, g));
                let ghost before = head + groups_items(gs, gi as nat);
                let mut h = String::from_str("🔍 匹配組 #");
                push_decimal(&mut h, (gi + 1) as u64);
                h.append(" (期數: ");
                push_decimal(&mut h, group.len() as u64);
                h.append(")");
                assert(h@ =~= group_heading(gi as nat, g.len()));
                items.push(DisplayItem::Heading(h));
                let ghost gh = seq![Shown::Heading(group_heading(gi as nat, g.len()))];
                assert(g.take(0).map_values(|d: DrawResult| Shown::Label(match_line(d))) =~= Seq::<Shown>::empty());
                assert(shows(items@, before + (gh + g.take(0).map_values(|d: DrawResult| Shown::Label(match_line(d)))))) by {
                    assert(before + (gh + g.take(0).map_values(|d: DrawResult| Shown::Label(match_line(d)))) =~= before.push(Shown::Heading(group_heading(gi as nat, g.len()))));
                }
                for k in 0..group.len()
                    invariant
                        same_draws(group@, g),
                        shows(items@, before + (gh + g.take(k as int).map_values(|d: DrawResult| Shown::Label(match_line(d))))),
                {
                    let line = match_line_text(group[k]);
                    let ghost prev = before + (gh + g.take(k as int).map_values(|d: DrawResult| Shown::Label(match_line(d))));
                    items.push(DisplayItem::Label(line));
                    proof {
                        lemma_group_items_extend(g, gi as nat, gi + 1 == ng, k as int);
                        assert(prev.push(Shown::Label(match_line(g[k as int]))) =~= before + (gh + g.take(k + 1).map_values(|d: DrawResult| Shown::Label(match_line(d)))));
                    }
                }
                assert(g.take(g.len() as int) =~= g);
                if gi + 1 < ng {
                    items.push(DisplayItem::Separator);
                }
                assert(head + groups_items(gs, (gi + 1) as nat) =~= before + group_items(g, gi as nat, gi + 1 == ng));
            }
            return items;
        }
        if draws.len() > 0 {
            items.push(DisplayItem::Heading(String::from_str("📋 全部數據：")));
            let sorted = sorted_draws(draws);
            let ghost s = sorted_by_number(self@.draws);
            let ghost lines = s.map_values(|d: DrawResult| Shown::Label(listing_line(d)));
            let ghost head = seq![Shown::Heading("📋 全部數據："@)];
            for k in 0..sorted.len()
                invariant
                    same_draws(sorted@, s),
                    lines == s.map_values(|d: DrawResult| Shown::Label(listing_line(d))),
                    shows(items@, head + lines.take(k as int)),
            {
                let line = listing_line_text(sorted[k]);
                items.push(DisplayItem::Label(line));
                assert(head + lines.take(k + 1) =~= (head + lines.take(k as int)).push(Shown::Label(listing_line(s[k as int]))));
            }
            assert(lines.take(lines.len() as int) =~= lines);
            assert(result_area(self@) =~= head + lines);
        } else {
            assert(result_area(self@) =~= Seq::<Shown>::empty());
        }
        items
    }
}

} // verus!
