use vstd::prelude::*;
use crate::draw::DrawResult;
use crate::order::sorted_by_number;
use crate::search::pattern_matches;
use crate::text::{decimal_text, lead_field};
use crate::clock::beijing_time;
use crate::viewer::ViewerState;
use crate::display::{
    Shown, result_area, group_items, groups_items, group_heading, match_line, listing_line,
    result_tail,
};

verus! {

/// `f` is the whole text of `r` before its first comma (all of `r` if it has
/// none): what `r.split(',')` yields first.
pub open spec fn is_first_field(f: Seq<char>, r: Seq<char>) -> bool {
    &&& f.len() <= r.len()
    &&& r.take(f.len() as int) == f
    &&& forall|i: int| 0 <= i < f.len() ==> #[trigger] f[i] != ','
    &&& (f.len() == r.len() || r[f.len() as int] == ',')
}

/// `text` is the line for draw `d` that starts with `head`: the head, the
/// draw's result, and in full-width brackets the text of the result before
/// its first comma.
pub open spec fn draw_line(head: Seq<char>, d: DrawResult, text: Seq<char>) -> bool {
    exists|f: Seq<char>|
        is_first_field(f, d.result@) && text == head + d.result@ + "（首號："@ + f + "）"@
}

/// The element is a line, and it is the line for draw `d` that starts with
/// `head` (see [`draw_line`]).
pub open spec fn is_draw_line(item: Shown, head: Seq<char>, d: DrawResult) -> bool {
    match item {
        Shown::Label(t) => draw_line(head, d, t),
        _ => false,
    }
}

/// Where the heading of group `i` stands in the result area: after the
/// count heading and, for each earlier group, its heading, its draws and a
/// separator.
pub open spec fn group_start(gs: Seq<Seq<DrawResult>>, i: int) -> int
    decreases i,
{
    if i <= 0 {
        1
    } else {
        group_start(gs, i - 1) + gs[i - 1].len() + 2
    }
}

proof fn lemma_group_start_grows(gs: Seq<Seq<DrawResult>>, i: int, j: int)
    requires
        0 <= i <= j,
    ensures
        group_start(gs, i) <= group_start(gs, j),
        i < j ==> group_start(gs, i) + gs[i].len() + 2 <= group_start(gs, j),
    decreases j - i,
{
    if i < j {
        lemma_group_start_grows(gs, i, j - 1);
    }
}

proof fn lemma_lead_field_is_first_field(r: Seq<char>)
    ensures
        is_first_field(lead_field(r), r),
    decreases r.len(),
{
    if r.len() > 0 && r[0] != ',' {
        let rest = r.drop_first();
        lemma_lead_field_is_first_field(rest);
        let f = lead_field(r);
        let g = lead_field(rest);
        assert(f == seq![r[0]] + g);
        assert(r.take(f.len() as int) =~= seq![r[0]] + rest.take(g.len() as int));
        assert forall|i: int| 0 <= i < f.len() implies #[trigger] f[i] != ',' by {
            if i > 0 {
                assert(f[i] == g[i - 1]);
            }
        }
        if f.len() < r.len() {
            assert(r[f.len() as int] == rest[g.len() as int]);
        }
    } else if r.len() > 0 {
        assert(r.take(0) =~= Seq::<char>::empty());
    } else {
        assert(r.take(0) =~= r);
    }
}

proof fn lemma_tail_is_draw_line(prefix: Seq<char>, d: DrawResult)
    ensures
        draw_line(prefix + " → "@, d, prefix + result_tail(d)),
{
    lemma_lead_field_is_first_field(d.result@);
    let f = lead_field(d.result@);
    assert(prefix + result_tail(d) =~= (prefix + " → "@) + d.result@ + "（首號："@ + f + "）"@);
}

proof fn lemma_group_items_layout(g: Seq<DrawResult>, index: nat, last: bool)
    ensures
        group_items(g, index, last).len() == g.len() + if last {
            1int
        } else {
            2int
        },
        group_items(g, index, last)[0] == Shown::Heading(group_heading(index, g.len())),
        forall|k: int|
            0 <= k < g.len() ==> #[trigger] group_items(g, index, last)[k + 1] == Shown::Label(
                match_line(g[k]),
            ),
        !last ==> group_items(g, index, last)[g.len() + 1int] == Shown::Separator,
{
}

proof fn lemma_groups_layout(gs: Seq<Seq<DrawResult>>, upto: nat)
    requires
        upto <= gs.len(),
    ensures
        groups_items(gs, upto).len() == group_start(gs, upto as int) - 1 - if upto == gs.len()
            && upto > 0 {
            1int
        } else {
            0int
        },
        forall|i: int|
            0 <= i < upto ==> #[trigger] groups_items(gs, upto)[group_start(gs, i) - 1]
                == Shown::Heading(group_heading(i as nat, gs[i].len())),
        forall|i: int, k: int|
            0 <= i < upto && 0 <= k < gs[i].len() ==> groups_items(gs, upto)[group_start(gs, i)
                + k] == Shown::Label(match_line(#[trigger] gs[i][k])),
        forall|i: int|
            0 <= i < upto && i + 1 < gs.len() ==> #[trigger] groups_items(gs, upto)[group_start(
                gs,
                i,
            ) + gs[i].len()] == Shown::Separator,
    decreases upto,
{
    if upto > 0 {
        let u = (upto - 1) as nat;
        lemma_groups_layout(gs, u);
        let prev = groups_items(gs, u);
        let g = gs[u as int];
        let last = upto == gs.len();
        let cur = group_items(g, u, last);
        lemma_group_items_layout(g, u, last);
        let all = groups_items(gs, upto);
        assert(all == prev + cur);
        assert(prev.len() == group_start(gs, u as int) - 1);
        assert forall|i: int| 0 <= i < upto implies #[trigger] all[group_start(gs, i) - 1]
            == Shown::Heading(group_heading(i as nat, gs[i].len())) by {
            lemma_group_start_grows(gs, 0, i);
            if i < u {
                lemma_group_start_grows(gs, i, u as int);
                assert(all[group_start(gs, i) - 1] == prev[group_start(gs, i) - 1]);
            } else {
                assert(all[group_start(gs, i) - 1] == cur[0]);
            }
        }
        assert forall|i: int, k: int| 0 <= i < upto && 0 <= k < gs[i].len() implies all[group_start(gs, i)
            + k] == Shown::Label(match_line(#[trigger] gs[i][k])) by {
            lemma_group_start_grows(gs, 0, i);
            if i < u {
                lemma_group_start_grows(gs, i, u as int);
                assert(all[group_start(gs, i) + k] == prev[group_start(gs, i) + k]);
            } else {
                assert(all[group_start(gs, i) + k] == cur[k + 1]);
            }
        }
        assert forall|i: int| 0 <= i < upto && i + 1 < gs.len() implies #[trigger] all[group_start(
            gs,
            i,
        ) + gs[i].len()] == Shown::Separator by {
            lemma_group_start_grows(gs, 0, i);
            if i < u {
                lemma_group_start_grows(gs, i, u as int);
                assert(all[group_start(gs, i) + gs[i].len()] == prev[group_start(gs, i) + gs[i].len()]);
            } else {
                assert(all[group_start(gs, i) + gs[i].len()] == cur[g.len() + 1int]);
            }
        }
    }
}

/// With a pattern and loaded draws that match it, the result area shows a
/// heading with the number of matching stretches, then for each stretch in
/// turn a heading with its number (counted from 1) and length, exactly one
/// line per draw of the stretch in order — the draw's Beijing time, number,
/// result, and the result's text before its first comma — and a separator
/// between stretches.
pub proof fn law_result_area_groups(st: ViewerState)
    requires
        st.filter.len() > 0,
        st.draws.len() > 0,
        pattern_matches(st.draws, st.filter).len() > 0,
    ensures
        ({
            let gs = pattern_matches(st.draws, st.filter);
            let area = result_area(st);
            &&& area.len() == group_start(gs, gs.len() as int) - 1
            &&& area[0] == Shown::Heading("🎯 找到 "@ + decimal_text(gs.len()) + " 組連續模式："@)
            &&& forall|i: int|
                0 <= i < gs.len() ==> #[trigger] area[group_start(gs, i)] == Shown::Heading(
                    "🔍 匹配組 #"@ + decimal_text((i + 1) as nat) + " (期數: "@ + decimal_text(
                        gs[i].len(),
                    ) + ")"@,
                )
            &&& forall|i: int, k: int|
                0 <= i < gs.len() && 0 <= k < gs[i].len() ==> is_draw_line(
                    area[group_start(gs, i) + 1 + k],
                    "✅ ["@ + beijing_time(gs[i][k].drawTime) + "] "@ + gs[i][k].drawNumber@
                        + " → "@,
                    #[trigger] gs[i][k],
                )
            &&& forall|i: int|
                0 <= i && i + 1 < gs.len() ==> #[trigger] area[group_start(gs, i) + 1 + gs[i].len()]
                    == Shown::Separator
        }),
{
    let gs = pattern_matches(st.draws, st.filter);
    let area = result_area(st);
    let items = groups_items(gs, gs.len());
    lemma_groups_layout(gs, gs.len());
    assert(area == seq![Shown::Heading("🎯 找到 "@ + decimal_text(gs.len()) + " 組連續模式："@)] + items);
    assert forall|i: int| 0 <= i < gs.len() implies #[trigger] area[group_start(gs, i)]
        == Shown::Heading(
        "🔍 匹配組 #"@ + decimal_text((i + 1) as nat) + " (期數: "@ + decimal_text(gs[i].len()) + ")"@,
    ) by {
        assert(items[group_start(gs, i) - 1] == Shown::Heading(group_heading(i as nat, gs[i].len())));
        lemma_group_start_grows(gs, 0, i);
        lemma_group_start_grows(gs, i, gs.len() as int);
    }
    assert forall|i: int, k: int| 0 <= i < gs.len() && 0 <= k < gs[i].len() implies is_draw_line(
        area[group_start(gs, i) + 1 + k],
        "✅ ["@ + beijing_time(gs[i][k].drawTime) + "] "@ + gs[i][k].drawNumber@ + " → "@,
        #[trigger] gs[i][k],
    ) by {
        let d = gs[i][k];
        lemma_group_start_grows(gs, 0, i);
        lemma_group_start_grows(gs, i, gs.len() as int);
        assert(items[group_start(gs, i) + k] == Shown::Label(match_line(d)));
        let prefix = "✅ ["@ + beijing_time(d.drawTime) + "] "@ + d.drawNumber@;
        lemma_tail_is_draw_line(prefix, d);
        assert(match_line(d) == prefix + result_tail(d));
    }
    assert forall|i: int| 0 <= i && i + 1 < gs.len() implies #[trigger] area[group_start(gs, i) + 1
        + gs[i].len()] == Shown::Separator by {
        lemma_group_start_grows(gs, 0, i);
        lemma_group_start_grows(gs, i, gs.len() as int);
        lemma_group_start_grows(gs, i + 1, gs.len() as int);
        assert(items[group_start(gs, i) + gs[i].len()] == Shown::Separator);
        assert(area[group_start(gs, i) + 1 + gs[i].len()] == items[group_start(gs, i) + gs[i].len()]);
    }
    assert(area.len() == group_start(gs, gs.len() as int) - 1);
    assert(area[0] == Shown::Heading("🎯 找到 "@ + decimal_text(gs.len()) + " 組連續模式："@));
}

/// With loaded draws and no pattern, the result area shows a heading and then
/// one line per draw in draw-number order: its number, result, and the
/// result's text before its first comma.
pub proof fn law_result_area_listing(st: ViewerState)
    requires
        st.filter.len() == 0,
        st.draws.len() > 0,
    ensures
        ({
            let s = sorted_by_number(st.draws);
            let area = result_area(st);
            &&& area.len() == st.draws.len() + 1
            &&& area[0] == Shown::Heading("📋 全部數據："@)
            &&& forall|k: int|
                0 <= k < st.draws.len() ==> is_draw_line(
                    area[k + 1],
                    "📊 "@ + s[k].drawNumber@ + " → "@,
                    #[trigger] s[k],
                )
        }),
{
    let s = sorted_by_number(st.draws);
    let area = result_area(st);
    assert forall|k: int| 0 <= k < st.draws.len() implies is_draw_line(
        area[k + 1],
        "📊 "@ + s[k].drawNumber@ + " → "@,
        #[trigger] s[k],
    ) by {
        let d = s[k];
        let prefix = "📊 "@ + d.drawNumber@;
        lemma_tail_is_draw_line(prefix, d);
        assert(listing_line(d) == prefix + result_tail(d));
        assert(area[k + 1] == Shown::Label(listing_line(d)));
    }
}

/// With a pattern that matches nothing in the loaded draws, the result area
/// shows only the notice that nothing was found; without loaded draws it
/// shows nothing.
pub proof fn law_result_area_without_groups(st: ViewerState)
    ensures
        st.filter.len() > 0 && st.draws.len() > 0 && pattern_matches(st.draws, st.filter).len() == 0
            ==> result_area(st) == seq![Shown::Label("❌ 沒有找到符合連續模式的結果"@)],
        st.draws.len() == 0 ==> result_area(st).len() == 0,
{
}

} // verus!
