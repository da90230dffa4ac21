//! What stands where in the printed statistics.

use vstd::prelude::*;

use crate::aggregate::ring::rows_of;
use crate::aggregate::rows::{
    is_greatest_time, is_least_time, is_mean_time, rows_tell_the_times_of_their_spans, spans_in,
};
use crate::aggregate::types::{average, KeyModel, StackStats};
use crate::aggregate::util::{label_of, tenths, tenths_text, time_text};
use crate::protocol::Text;
use crate::stats::{
    at_left, at_right, blanks, column_line, in_middle, labels_of, report, row_line, three_times,
    widest, StatsModel, GROUP_WIDTH, NUMBER_WIDTH,
};
use crate::text::{decimal, has_part, occurs_at};

verus! {

/// The last separator of a line stands at `p`.
pub open spec fn last_bar(line: Text, p: int) -> bool {
    &&& 0 <= p < line.len()
    &&& line[p] == '│'
    &&& forall|j: int| p < j < line.len() ==> #[trigger] line[j] != '│'
}

/// Three texts one after the other, each with so many blanks before it, and
/// some blanks at the end.
pub open spec fn spaced(a: (int, Text), b: (int, Text), c: (int, Text), end: int) -> Text {
    blanks(a.0) + a.1 + blanks(b.0) + b.1 + blanks(c.0) + c.1 + blanks(end)
}

/// The text holds three words, parted by blanks, and nothing else.
pub open spec fn holds_three(cell: Text, a: Text, b: Text, c: Text) -> bool {
    exists|w: int, x: int, y: int, z: int|
        w >= 1 && x >= 1 && y >= 1 && cell == #[trigger] spaced((w, a), (x, b), (y, c), z)
}

/// The text has neither blanks nor separators.
pub open spec fn is_word(s: Text) -> bool {
    s.len() > 0 && forall|j: int|
        0 <= j < s.len() ==> #[trigger] s[j] != ' ' && s[j] != '│'
}

proof fn decimals_are_digits(n: nat)
    ensures
        decimal(n).len() > 0,
        forall|j: int| 0 <= j < decimal(n).len() ==> '0' <= #[trigger] decimal(n)[j] <= '9',
    decreases n,
{
    if n >= 10 {
        decimals_are_digits(n / 10);
    }
}

/// A printed time is one word.
proof fn times_are_words(ns: u64)
    ensures
        is_word(time_text(ns)),
{
    reveal_strlit("s");
    reveal_strlit("ms");
    reveal_strlit("µs");
    reveal_strlit("ns");
    decimals_are_digits(ns as nat);
    let units: Seq<nat> = seq![1_000_000_000nat, 1_000_000, 1_000];
    assert forall|k: int| 0 <= k < 3 implies is_word(
        tenths_text(tenths(ns as nat, #[trigger] units[k])),
    ) by {
        let t = tenths(ns as nat, units[k]);
        decimals_are_digits(t / 10);
        decimals_are_digits(t % 10);
    }
    assert(units[0] == 1_000_000_000 && units[1] == 1_000_000 && units[2] == 1_000);
}

/// A group of times holds no separator, and its three words are the times.
proof fn three_times_hold(a: u64, b: u64, c: u64, end: int)
    requires
        end >= 0,
    ensures
        holds_three(
            " "@ + three_times(a, b, c) + blanks(end),
            time_text(a),
            time_text(b),
            time_text(c),
        ),
        forall|j: int|
            0 <= j < three_times(a, b, c).len() ==> #[trigger] three_times(a, b, c)[j] != '│',
{
    reveal_strlit(" ");
    times_are_words(a);
    times_are_words(b);
    times_are_words(c);
    let (ta, tb, tc) = (time_text(a), time_text(b), time_text(c));
    let free = |t: Text| -> int { if NUMBER_WIDTH > t.len() { NUMBER_WIDTH - t.len() } else { 0 } };
    let (w, x, y) = (1 + free(ta), 1 + free(tb), 1 + free(tc));
    let cell = " "@ + three_times(a, b, c) + blanks(end);
    assert(" "@ + at_right(ta, NUMBER_WIDTH as int) =~= blanks(w) + ta);
    assert(" "@ + at_right(tb, NUMBER_WIDTH as int) =~= blanks(x) + tb);
    assert(" "@ + at_right(tc, NUMBER_WIDTH as int) =~= blanks(y) + tc);
    let want = spaced((w, ta), (x, tb), (y, tc), end);
    assert(cell =~= (" "@ + at_right(ta, NUMBER_WIDTH as int)) + (" "@ + at_right(
        tb,
        NUMBER_WIDTH as int,
    )) + (" "@ + at_right(tc, NUMBER_WIDTH as int)) + blanks(end));
    assert(cell =~= want);
}

/// Two separators with a text before, one between and one behind them that
/// hold none.
proof fn bars_stand(front: Text, a: Text, b: Text, line: Text) -> (at: (int, int))
    requires
        line == front + "  │ "@ + a + " │ "@ + b,
        forall|j: int| 0 <= j < a.len() ==> #[trigger] a[j] != '│',
        forall|j: int| 0 <= j < b.len() ==> #[trigger] b[j] != '│',
    ensures
        last_bar(line, at.1),
        last_bar(line.take(at.1), at.0),
        at.0 == front.len() + 2,
        line.subrange(at.0 + 1, at.1) == " "@ + a + blanks(1),
        line.skip(at.1 + 1) == " "@ + b,
{
    reveal_strlit("  │ ");
    reveal_strlit(" │ ");
    reveal_strlit(" ");
    let p: int = front.len() as int + 2;
    let q: int = p + 2 + a.len() + 1;
    assert(line[q] == '│');
    assert forall|j: int| q < j < line.len() implies #[trigger] line[j] != '│' by {
        if j > q + 1 {
            assert(line[j] == b[j - q - 2]);
        }
    }
    let left = line.take(q);
    assert(left[p] == '│');
    assert forall|j: int| p < j < left.len() implies #[trigger] left[j] != '│' by {
        if p + 1 < j && j < q - 1 {
            assert(left[j] == a[j - p - 2]);
        }
    }
    assert(line.subrange(p + 1, q) =~= " "@ + a + blanks(1));
    assert(line.skip(q + 1) =~= " "@ + b);
    (p, q)
}

/// The headings of the two groups of times.
proof fn headings_stand(width: int) -> (at: (int, int))
    ensures
        ({
            let head = column_line(width);
            &&& last_bar(head, at.1)
            &&& last_bar(head.take(at.1), at.0)
            &&& occurs_at(head.subrange(at.0 + 1, at.1), "total"@, 2)
            &&& occurs_at(head.skip(at.1 + 1), "self"@, 2)
        }),
{
    reveal_strlit("total (min · avg · max)");
    reveal_strlit("self  (min · avg · max)");
    reveal_strlit("total");
    reveal_strlit("self");
    reveal_strlit(" ");
    let front = "  "@ + at_left("stack"@, width) + "  "@ + at_right("n"@, NUMBER_WIDTH as int);
    let a = in_middle("total (min · avg · max)"@, GROUP_WIDTH as int);
    let b = in_middle("self  (min · avg · max)"@, GROUP_WIDTH as int);
    let at = bars_stand(front, a, b, column_line(width));
    let (x, y) = (" "@ + a + blanks(1), " "@ + b);
    assert(blanks(1).len() == 1);
    assert forall|j: int| 0 <= j < 5 implies #[trigger] x[2 + j] == "total"@[j] by {
        assert(x[2 + j] == a[1 + j]);
        assert(a[1 + j] == "total (min · avg · max)"@[j]);
    }
    assert forall|j: int| 0 <= j < 4 implies #[trigger] y[2 + j] == "self"@[j] by {
        assert(y[2 + j] == b[1 + j]);
        assert(b[1 + j] == "self  (min · avg · max)"@[j]);
    }
    at
}

/// In every printed row the times stand under the heading that they belong
/// to. Between the two separators of the line of headings stands `total`, and
/// there a row has the least, the mean and the greatest of the times that the
/// spans of its stack were open; behind the second separator stands `self`,
/// and there a row has the least, the mean and the greatest of the times that
/// those spans spent alone. Returns where the separators stand in the line of
/// headings and in the row.
pub proof fn times_stand_under_their_headings(m: StatsModel, elapsed: Text, i: int) -> (at: (
    (int, int),
    (int, int),
))
    requires
        m.agg.ring.len() <= u64::MAX,
        0 <= i < rows_of(m.agg.ring).len(),
    ensures
        ({
            let head = report(m, elapsed)[1];
            let line = report(m, elapsed)[i + 2];
            let key = rows_of(m.agg.ring)[i].0;
            let ((hp, hq), (p, q)) = at;
            &&& last_bar(head, hq) && last_bar(head.take(hq), hp)
            &&& last_bar(line, q) && last_bar(line.take(q), p)
            &&& has_part(head.subrange(hp + 1, hq), "total"@)
            &&& has_part(head.skip(hq + 1), "self"@)
            &&& forall|a: u64, b: u64, c: u64|
                is_least_time(m.agg.ring, key, false, a as int) && is_mean_time(
                    m.agg.ring,
                    key,
                    false,
                    b as int,
                ) && is_greatest_time(m.agg.ring, key, false, c as int) ==> #[trigger] holds_three(
                    line.subrange(p + 1, q),
                    time_text(a),
                    time_text(b),
                    time_text(c),
                )
            &&& forall|a: u64, b: u64, c: u64|
                is_least_time(m.agg.ring, key, true, a as int) && is_mean_time(
                    m.agg.ring,
                    key,
                    true,
                    b as int,
                ) && is_greatest_time(m.agg.ring, key, true, c as int) ==> #[trigger] holds_three(
                    line.skip(q + 1),
                    time_text(a),
                    time_text(b),
                    time_text(c),
                )
        }),
{
    let ring = m.agg.ring;
    let rows = rows_of(ring);
    let (key, st) = rows[i];
    let labels = labels_of(rows);
    let width = widest(labels, rows.len() as int);
    let head = report(m, elapsed)[1];
    let line = report(m, elapsed)[i + 2];
    assert(head == column_line(width));
    assert(line == row_line(labels[i], st, width));
    let h = headings_stand(width);
    rows_tell_the_times_of_their_spans(ring, i);
    let (ta, tb, tc) = (
        st.total_min_ns,
        average(st.total_sum_ns, st.count),
        st.total_max_ns,
    );
    let (sa, sb, sc) = (st.self_min_ns, average(st.self_sum_ns, st.count), st.self_max_ns);
    three_times_hold(ta, tb, tc, 1);
    three_times_hold(sa, sb, sc, 0);
    let front = "  "@ + at_left(labels[i], width) + "  "@ + at_right(
        decimal(st.count as nat),
        NUMBER_WIDTH as int,
    );
    let r = bars_stand(front, three_times(ta, tb, tc), three_times(sa, sb, sc), line);
    assert(" "@ + three_times(sa, sb, sc) + blanks(0) =~= " "@ + three_times(sa, sb, sc));
    assert forall|a: u64, b: u64, c: u64|
        is_least_time(ring, key, false, a as int) && is_mean_time(ring, key, false, b as int)
            && is_greatest_time(ring, key, false, c as int) implies #[trigger] holds_three(
        line.subrange(r.0 + 1, r.1),
        time_text(a),
        time_text(b),
        time_text(c),
    ) by {
        times_are_told_once(m, i, false, (a, ta), (b, tb), (c, tc));
    }
    assert forall|a: u64, b: u64, c: u64|
        is_least_time(ring, key, true, a as int) && is_mean_time(ring, key, true, b as int)
            && is_greatest_time(ring, key, true, c as int) implies #[trigger] holds_three(
        line.skip(r.1 + 1),
        time_text(a),
        time_text(b),
        time_text(c),
    ) by {
        times_are_told_once(m, i, true, (a, sa), (b, sb), (c, sc));
    }
    (h, r)
}

/// There is one least, one mean and one greatest time.
proof fn times_are_told_once(
    m: StatsModel,
    i: int,
    alone: bool,
    a: (u64, u64),
    b: (u64, u64),
    c: (u64, u64),
)
    requires
        0 <= i < rows_of(m.agg.ring).len(),
        ({
            let (ring, key) = (m.agg.ring, rows_of(m.agg.ring)[i].0);
            &&& is_least_time(ring, key, alone, a.0 as int) && is_least_time(
                ring,
                key,
                alone,
                a.1 as int,
            )
            &&& is_mean_time(ring, key, alone, b.0 as int) && is_mean_time(
                ring,
                key,
                alone,
                b.1 as int,
            )
            &&& is_greatest_time(ring, key, alone, c.0 as int) && is_greatest_time(
                ring,
                key,
                alone,
                c.1 as int,
            )
        }),
    ensures
        a.0 == a.1,
        b.0 == b.1,
        c.0 == c.1,
{
    let (ring, key) = (m.agg.ring, rows_of(m.agg.ring)[i].0);
    let n = spans_in(ring, key);
    let (x, y) = (b.0 as int, b.1 as int);
    let sum = crate::aggregate::rows::times_in(ring, key, alone);
    assert(x == y) by (nonlinear_arith)
        requires
            x * n <= sum < (x + 1) * n,
            y * n <= sum < (y + 1) * n,
    ;
}

/// Before the first separator a row has its label and, at the right of its
/// column, how many spans it counts.
pub proof fn rows_begin_with_label_and_count(m: StatsModel, elapsed: Text, i: int) -> (p: int)
    requires
        m.agg.ring.len() <= u64::MAX,
        0 <= i < rows_of(m.agg.ring).len(),
    ensures
        ({
            let line = report(m, elapsed)[i + 2];
            let rows = rows_of(m.agg.ring);
            let label = label_of(rows.map_values(|r: (KeyModel, StackStats)| r.0.stack), i);
            let count = decimal(spans_in(m.agg.ring, rows[i].0) as nat);
            &&& p >= label.len() + count.len() + 6
            &&& line[p] == '│'
            &&& line.subrange(2, 2 + label.len() as int) == label
            &&& line.subrange(p - 2 - count.len(), p - 2) == count
            &&& forall|j: int| 2 + label.len() <= j < p - 2 - count.len() ==> #[trigger] line[j]
                == ' '
        }),
{
    let ring = m.agg.ring;
    let rows = rows_of(ring);
    let st = rows[i].1;
    let labels = labels_of(rows);
    let width = widest(labels, rows.len() as int);
    assert(report(m, elapsed)[i + 2] == row_line(labels[i], st, width));
    assert(st.count == spans_in(ring, rows[i].0)) by {
        rows_tell_the_times_of_their_spans(ring, i);
    }
    row_front(labels[i], st, width)
}

/// How the line of a row begins.
proof fn row_front(label: Text, st: StackStats, width: int) -> (p: int)
    ensures
        ({
            let line = row_line(label, st, width);
            let count = decimal(st.count as nat);
            &&& p >= label.len() + count.len() + 6
            &&& line[p] == '│'
            &&& line.subrange(2, 2 + label.len() as int) == label
            &&& line.subrange(p - 2 - count.len(), p - 2) == count
            &&& forall|j: int| 2 + label.len() <= j < p - 2 - count.len() ==> #[trigger] line[j]
                == ' '
        }),
{
    reveal_strlit("  │ ");
    let line = row_line(label, st, width);
    let count = decimal(st.count as nat);
    let front = "  "@ + at_left(label, width) + "  "@ + at_right(count, NUMBER_WIDTH as int);
    let totals = three_times(st.total_min_ns, average(st.total_sum_ns, st.count), st.total_max_ns);
    let selves = three_times(st.self_min_ns, average(st.self_sum_ns, st.count), st.self_max_ns);
    let tail = "  │ "@ + totals + " │ "@ + selves;
    assert(line =~= front + tail);
    assert(tail[2] == '│');
    front_stands(label, count, width, front);
    let p = front.len() as int + 2;
    assert(line[p] == tail[2]);
    assert(line.subrange(2, 2 + label.len() as int) =~= front.subrange(
        2,
        2 + label.len() as int,
    ));
    assert(line.subrange(p - 2 - count.len(), p - 2) =~= front.subrange(
        p - 2 - count.len(),
        p - 2,
    ));
    assert forall|j: int| 2 + label.len() <= j < p - 2 - count.len() implies #[trigger] line[j]
        == ' ' by {
        assert(line[j] == front[j]);
    }
    p
}

/// The label and the count of a row, each in its column.
proof fn front_stands(label: Text, count: Text, width: int, front: Text)
    requires
        front == "  "@ + at_left(label, width) + "  "@ + at_right(count, NUMBER_WIDTH as int),
    ensures
        front.len() >= label.len() + count.len() + 4,
        front.subrange(2, 2 + label.len() as int) == label,
        front.skip(front.len() - count.len()) == count,
        front.subrange(front.len() - count.len(), front.len() as int) == count,
        forall|j: int| 2 + label.len() <= j < front.len() - count.len() ==> #[trigger] front[j]
            == ' ',
{
    reveal_strlit("  ");
    let a = blanks(width - label.len());
    let b = blanks(NUMBER_WIDTH as int - count.len());
    let gap = a + "  "@ + b;
    assert(forall|j: int| 0 <= j < gap.len() ==> #[trigger] gap[j] == ' ');
    assert(front =~= "  "@ + label + gap + count);
    assert(front.subrange(2, 2 + label.len() as int) =~= label);
    assert(front.skip(front.len() - count.len()) =~= count);
    assert(front.subrange(front.len() - count.len(), front.len() as int) =~= count);
    assert forall|j: int| 2 + label.len() <= j < front.len() - count.len() implies #[trigger] front[
        j
    ] == ' ' by {
        assert(front[j] == gap[j - 2 - label.len()]);
    }
}

/// The column of stacks is as wide as the longest label.
proof fn widest_covers(labels: Seq<Text>, n: int, i: int)
    requires
        0 <= i < n <= labels.len(),
    ensures
        labels[i].len() <= widest(labels, n),
    decreases n,
{
    if i < n - 1 {
        widest_covers(labels, n - 1, i);
    }
}

/// The lines are set in columns: the first separator of the headings and those
/// of all rows stand in the same place, as long as the counts fit into their
/// column.
pub proof fn separators_line_up(m: StatsModel, elapsed: Text, i: int)
    requires
        0 <= i < rows_of(m.agg.ring).len(),
        rows_of(m.agg.ring)[i].1.count < 10_000_000,
    ensures
        ({
            let head = report(m, elapsed)[1];
            let line = report(m, elapsed)[i + 2];
            let p = widest(labels_of(rows_of(m.agg.ring)), rows_of(m.agg.ring).len() as int) + 13;
            &&& head.len() > p && line.len() > p
            &&& head[p] == '│'
            &&& line[p] == '│'
        }),
{
    let rows = rows_of(m.agg.ring);
    let labels = labels_of(rows);
    let width = widest(labels, rows.len() as int);
    let st = rows[i].1;
    widest_covers(labels, rows.len() as int, i);
    widest_is_least(labels, rows.len() as int);
    assert(report(m, elapsed)[1] == column_line(width));
    assert(report(m, elapsed)[i + 2] == row_line(labels[i], st, width));
    short_counts(st.count as nat);
    row_bar(labels[i], st, width);
    head_bar(width);
}

proof fn widest_is_least(labels: Seq<Text>, n: int)
    ensures
        widest(labels, n) >= 20,
    decreases n,
{
    if n > 0 {
        widest_is_least(labels, n - 1);
    }
}

proof fn short_counts(n: nat)
    requires
        n < 10_000_000,
    ensures
        decimal(n).len() <= 7,
{
    reveal_with_fuel(decimal, 8);
}

proof fn row_bar(label: Text, st: StackStats, width: int)
    requires
        label.len() <= width,
        decimal(st.count as nat).len() <= 7,
    ensures
        row_line(label, st, width).len() > width + 13,
        row_line(label, st, width)[width + 13] == '│',
{
    reveal_strlit("  ");
    reveal_strlit("  │ ");
    let line = row_line(label, st, width);
    let count = decimal(st.count as nat);
    let front = "  "@ + at_left(label, width) + "  "@ + at_right(count, NUMBER_WIDTH as int);
    assert(front.len() == width + 11);
    let totals = three_times(st.total_min_ns, average(st.total_sum_ns, st.count), st.total_max_ns);
    let selves = three_times(st.self_min_ns, average(st.self_sum_ns, st.count), st.self_max_ns);
    let tail = "  │ "@ + totals + " │ "@ + selves;
    assert(line =~= front + tail);
    assert(tail[2] == '│');
}

proof fn head_bar(width: int)
    requires
        width >= 20,
    ensures
        column_line(width).len() > width + 13,
        column_line(width)[width + 13] == '│',
{
    reveal_strlit("  ");
    reveal_strlit("stack");
    reveal_strlit("n");
    reveal_strlit("  │ ");
    let front = "  "@ + at_left("stack"@, width) + "  "@ + at_right("n"@, NUMBER_WIDTH as int);
    assert(front.len() == width + 11);
    let a = in_middle("total (min · avg · max)"@, GROUP_WIDTH as int);
    let b = in_middle("self  (min · avg · max)"@, GROUP_WIDTH as int);
    let tail = "  │ "@ + a + " │ "@ + b;
    assert(column_line(width) =~= front + tail);
    assert(tail[2] == '│');
}

} // verus!
