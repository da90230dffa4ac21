//! Statistics as text, printed again and again while spans come in.

use vstd::prelude::*;

use crate::aggregate::ring::{absorbed, rows_model, rows_of, AggModel};
use crate::aggregate::state::Aggregator;
use crate::aggregate::types::{average, KeyModel, StackStats};
use crate::aggregate::util::{fmt_ns, label_of, stacks_of, time_text, tree_label};
use crate::double::{nearest, nearest_of};
use crate::model::rate::{completed, rate_recorded, RateModel, RateTracker, BUCKETS};
use crate::model::update::Update;
use crate::order::Key;
use crate::protocol::Text;
use crate::text::{chars_of, decimal, has_part, occurs_at, u64_text};

verus! {

/// The least width of the column of stacks.
pub const LEAST_WIDTH: usize = 20;

/// The width of a column of numbers.
pub const NUMBER_WIDTH: usize = 7;

/// The width of three columns of numbers.
pub const GROUP_WIDTH: usize = 25;

/// What has come in so far.
pub struct StatsAccumulator {
    agg: Aggregator,
    last_status: Option<String>,
    connected: bool,
    rate: RateTracker,
    total_received: u64,
    total_dropped_unfinished: u64,
}

/// What has come in so far.
pub ghost struct StatsModel {
    pub agg: AggModel,
    pub last_status: Option<Text>,
    pub connected: bool,
    pub rate: RateModel,
    pub received: u64,
    pub dropped: u64,
}

impl View for StatsAccumulator {
    type V = StatsModel;

    closed spec fn view(&self) -> StatsModel {
        StatsModel {
            agg: self.agg@,
            last_status: match self.last_status {
                Some(s) => Some(s@),
                None => None,
            },
            connected: self.connected,
            rate: self.rate@,
            received: self.total_received,
            dropped: self.total_dropped_unfinished,
        }
    }
}

/// What has come in after one more message at `now`. Only spans and the
/// state of the connection matter; an unfinished span is counted and dropped.
pub open spec fn stats_after(m: StatsModel, update: Update, now: u64) -> StatsModel {
    match update {
        Update::SpanReceived(span) => {
            let counted = StatsModel {
                received: (m.received + 1) as u64,
                rate: rate_recorded(m.rate, now),
                ..m
            };
            if span.closed_at_ns is None {
                StatsModel { dropped: (m.dropped + 1) as u64, ..counted }
            } else {
                StatsModel { agg: absorbed(m.agg, span@).0, ..counted }
            }
        },
        Update::Connected => StatsModel { connected: true, last_status: None, ..m },
        Update::Disconnected(reason) => StatsModel {
            connected: false,
            last_status: Some(reason@),
            ..m
        },
        Update::Status(s) => StatsModel { last_status: Some(s@), ..m },
        _ => m,
    }
}

pub open spec fn blanks(n: int) -> Text {
    if n <= 0 {
        Seq::empty()
    } else {
        Seq::new(n as nat, |i: int| ' ')
    }
}

/// The text at the left of a column.
pub open spec fn at_left(s: Text, width: int) -> Text {
    s + blanks(width - s.len())
}

/// The text at the right of a column.
pub open spec fn at_right(s: Text, width: int) -> Text {
    blanks(width - s.len()) + s
}

/// The text in the middle of a column, rather to the left.
pub open spec fn in_middle(s: Text, width: int) -> Text {
    let free = width - s.len();
    let left = if free > 0 {
        free / 2
    } else {
        0
    };
    blanks(left) + s + blanks(free - left)
}

/// How many characters the longest of the first `n` texts has, but at least
/// the width of the column.
pub open spec fn widest(labels: Seq<Text>, n: int) -> int
    decreases n,
{
    if n <= 0 {
        LEAST_WIDTH as int
    } else {
        let rest = widest(labels, n - 1);
        if labels[n - 1].len() > rest {
            labels[n - 1].len() as int
        } else {
            rest
        }
    }
}

/// The state of the connection in brackets.
pub open spec fn state_text(m: StatsModel) -> Text {
    if m.connected {
        "[connected]"@
    } else {
        match m.last_status {
            Some(s) => seq!['['] + s + seq![']'],
            None => "[disconnected]"@,
        }
    }
}

/// The rate in whole spans per second.
pub open spec fn rate_text(m: RateModel) -> Text {
    if m.started is None {
        decimal(0)
    } else {
        decimal(nearest(completed(m.recent, 8), 4))
    }
}

/// The first line.
pub open spec fn headline(m: StatsModel, elapsed: Text) -> Text {
    "=== stats @ "@ + elapsed + "s — "@ + decimal(m.agg.ring.len()) + " buffered ("@ + rate_text(
        m.rate,
    ) + " spans/s, recv="@ + decimal(m.received as nat) + ") "@ + state_text(m) + " ==="@
}

/// The line that stands for no rows.
pub open spec fn no_rows_line(m: StatsModel) -> Text {
    "  (no renderable spans in buffer; received="@ + decimal(m.received as nat)
        + " dropped_open="@ + decimal(m.dropped as nat) + ")"@
}

/// The names of the columns.
pub open spec fn column_line(width: int) -> Text {
    "  "@ + at_left("stack"@, width) + "  "@ + at_right("n"@, NUMBER_WIDTH as int) + "  │ "@
        + in_middle("total (min · avg · max)"@, GROUP_WIDTH as int) + " │ "@ + in_middle(
        "self  (min · avg · max)"@,
        GROUP_WIDTH as int,
    )
}

/// Three times in columns.
pub open spec fn three_times(a: u64, b: u64, c: u64) -> Text {
    at_right(time_text(a), NUMBER_WIDTH as int) + " "@ + at_right(time_text(b), NUMBER_WIDTH as int)
        + " "@ + at_right(time_text(c), NUMBER_WIDTH as int)
}

/// The line of a row.
pub open spec fn row_line(label: Text, st: StackStats, width: int) -> Text {
    "  "@ + at_left(label, width) + "  "@ + at_right(
        decimal(st.count as nat),
        NUMBER_WIDTH as int,
    ) + "  │ "@ + three_times(
        st.total_min_ns,
        average(st.total_sum_ns, st.count),
        st.total_max_ns,
    ) + " │ "@ + three_times(
        st.self_min_ns,
        average(st.self_sum_ns, st.count),
        st.self_max_ns,
    )
}

/// The labels of some rows, drawn as a tree.
pub open spec fn labels_of(rows: Seq<(KeyModel, StackStats)>) -> Seq<Text> {
    Seq::new(
        rows.len(),
        |i: int| label_of(rows.map_values(|r: (KeyModel, StackStats)| r.0.stack), i),
    )
}

/// Everything that is printed.
pub open spec fn report(m: StatsModel, elapsed: Text) -> Seq<Text> {
    let rows = rows_of(m.agg.ring);
    if rows.len() == 0 {
        seq![headline(m, elapsed), no_rows_line(m)]
    } else {
        let labels = labels_of(rows);
        let width = widest(labels, rows.len() as int);
        seq![headline(m, elapsed), column_line(width)] + Seq::new(
            rows.len(),
            |i: int| row_line(labels[i], rows[i].1, width),
        )
    }
}

fn push_blanks(out: &mut String, n: usize)
    ensures
        final(out)@ == old(out)@ + blanks(n as int),
{
    let ghost start = out@;
    let mut i: usize = 0;
    assert(out@ =~= start + blanks(0));
    while i < n
        invariant
            i <= n,
            out@ == start + blanks(i as int),
        decreases n - i,
    {
        out.push(' ');
        i = i + 1;
        assert(out@ =~= start + blanks(i as int));
    }
}

fn push_left(out: &mut String, s: &str, width: usize)
    ensures
        final(out)@ == old(out)@ + at_left(s@, width as int),
{
    let ghost start = out@;
    let n: usize = chars_of(s).len();
    out.append(s);
    push_blanks(out, width.saturating_sub(n));
    assert(out@ =~= start + at_left(s@, width as int));
}

fn push_right(out: &mut String, s: &str, width: usize)
    ensures
        final(out)@ == old(out)@ + at_right(s@, width as int),
{
    let ghost start = out@;
    let n: usize = chars_of(s).len();
    push_blanks(out, width.saturating_sub(n));
    out.append(s);
    assert(out@ =~= start + at_right(s@, width as int));
}

fn push_middle(out: &mut String, s: &str, width: usize)
    ensures
        final(out)@ == old(out)@ + in_middle(s@, width as int),
{
    let ghost start = out@;
    let n: usize = chars_of(s).len();
    let free: usize = width.saturating_sub(n);
    push_blanks(out, free / 2);
    out.append(s);
    push_blanks(out, free - free / 2);
    assert(out@ =~= start + in_middle(s@, width as int));
}

fn push_times(out: &mut String, a: u64, b: u64, c: u64)
    ensures
        final(out)@ == old(out)@ + three_times(a, b, c),
{
    let ghost start = out@;
    let ta = fmt_ns(a);
    let tb = fmt_ns(b);
    let tc = fmt_ns(c);
    push_right(out, ta.as_str(), NUMBER_WIDTH);
    out.append(" ");
    push_right(out, tb.as_str(), NUMBER_WIDTH);
    out.append(" ");
    push_right(out, tc.as_str(), NUMBER_WIDTH);
    assert(out@ =~= start + three_times(a, b, c));
}

fn write_columns(width: usize) -> (r: String)
    ensures
        r@ == column_line(width as int),
{
    let mut out: String = "  ".to_owned();
    push_left(&mut out, "stack", width);
    out.append("  ");
    push_right(&mut out, "n", NUMBER_WIDTH);
    out.append("  │ ");
    push_middle(&mut out, "total (min · avg · max)", GROUP_WIDTH);
    out.append(" │ ");
    push_middle(&mut out, "self  (min · avg · max)", GROUP_WIDTH);
    out
}

fn write_row(label: &str, st: &StackStats, width: usize) -> (r: String)
    ensures
        r@ == row_line(label@, *st, width as int),
{
    let mut out: String = "  ".to_owned();
    push_left(&mut out, label, width);
    out.append("  ");
    let count = u64_text(st.count);
    push_right(&mut out, count.as_str(), NUMBER_WIDTH);
    out.append("  │ ");
    push_times(&mut out, st.total_min_ns, st.total_avg_ns(), st.total_max_ns);
    out.append(" │ ");
    push_times(&mut out, st.self_min_ns, st.self_avg_ns(), st.self_max_ns);
    out
}

impl StatsAccumulator {
    pub closed spec fn wf(&self) -> bool {
        &&& self.agg.wf()
        &&& self.rate.wf()
    }

    pub fn new(history_budget: usize) -> (r: Self)
        ensures
            r.wf(),
            r@ == (StatsModel {
                agg: AggModel {
                    ring: Seq::empty(),
                    pending: Seq::empty(),
                    split_keys: Set::empty(),
                    budget: history_budget as nat,
                },
                last_status: None,
                connected: false,
                rate: RateModel { recent: Seq::new(BUCKETS as nat, |i: int| 0u32), started: None },
                received: 0,
                dropped: 0,
            }),
    {
        StatsAccumulator {
            agg: Aggregator::new(history_budget),
            last_status: None,
            connected: false,
            rate: RateTracker::new(),
            total_received: 0,
            total_dropped_unfinished: 0,
        }
    }

    /// Takes a message that came in at `now`.
    pub fn absorb(&mut self, update: Update, now: u64)
        requires
            old(self).wf(),
            old(self)@.received < u64::MAX,
            old(self)@.dropped < u64::MAX,
            update matches Update::SpanReceived(span) ==> span.closed_at_ns is Some ==> old(
                self,
            )@.agg.budget > 0,
        ensures
            final(self).wf(),
            final(self)@ == stats_after(old(self)@, update, now),
    {
        match update {
            Update::SpanReceived(span) => {
                self.total_received = self.total_received + 1;
                self.rate.record(now);
                if span.closed_at_ns.is_none() {
                    self.total_dropped_unfinished = self.total_dropped_unfinished + 1;
                } else {
                    let _ = self.agg.absorb(span);
                }
            },
            Update::Connected => {
                self.connected = true;
                self.last_status = None;
            },
            Update::Disconnected(reason) => {
                self.connected = false;
                self.last_status = Some(reason);
            },
            Update::Status(s) => {
                self.last_status = Some(s);
            },
            _ => {},
        }
    }

    fn write_headline(&self, elapsed: &str) -> (r: String)
        requires
            self.wf(),
        ensures
            r@ == headline(self@, elapsed@),
    {
        let mut out: String = "=== stats @ ".to_owned();
        out.append(elapsed);
        out.append("s — ");
        let buffered = u64_text(self.agg.len() as u64);
        out.append(buffered.as_str());
        out.append(" buffered (");
        let hz: u64 = nearest_of(self.rate.completed_count() as u128, 4) as u64;
        let rate = u64_text(hz);
        out.append(rate.as_str());
        out.append(" spans/s, recv=");
        let received = u64_text(self.total_received);
        out.append(received.as_str());
        out.append(") ");
        let ghost so_far = out@;
        if self.connected {
            out.append("[connected]");
        } else {
            match &self.last_status {
                Some(s) => {
                    out.push('[');
                    out.append(s.as_str());
                    out.push(']');
                    assert(out@ =~= so_far + state_text(self@));
                },
                None => {
                    out.append("[disconnected]");
                },
            }
        }
        out.append(" ===");
        out
    }

    fn write_no_rows(&self) -> (r: String)
        ensures
            r@ == no_rows_line(self@),
    {
        let mut out: String = "  (no renderable spans in buffer; received=".to_owned();
        let received = u64_text(self.total_received);
        out.append(received.as_str());
        out.append(" dropped_open=");
        let dropped = u64_text(self.total_dropped_unfinished);
        out.append(dropped.as_str());
        out.append(")");
        out
    }

    /// The lines to print, where `elapsed` is the time since the start in
    /// seconds.
    pub fn flush(&self, elapsed: &str) -> (lines: Vec<String>)
        requires
            self.wf(),
        ensures
            lines.model() == report(self@, elapsed@),
    {
        let ghost m = self@;
        let rows = self.agg.rows();
        let ghost all = rows_of(m.agg.ring);
        let ghost names = labels_of(all);
        let mut lines: Vec<String> = Vec::new();
        lines.push(self.write_headline(elapsed));
        let n: usize = rows.len();
        if n == 0 {
            lines.push(self.write_no_rows());
            assert(lines.model() =~= report(m, elapsed@));
            return lines;
        }
        assert(stacks_of(rows@) =~= all.map_values(|r: (KeyModel, StackStats)| r.0.stack)) by {
            assert forall|i: int| 0 <= i < rows@.len() implies #[trigger] stacks_of(rows@)[i]
                == all[i].0.stack by {
                assert(rows_model(rows@)[i].0 == rows@[i].0.model());
            }
        }
        let mut labels: Vec<String> = Vec::new();
        let mut width: usize = LEAST_WIDTH;
        let mut i: usize = 0;
        while i < n
            invariant
                n == rows@.len(),
                n == all.len(),
                i <= n,
                names == labels_of(all),
                stacks_of(rows@) == all.map_values(|r: (KeyModel, StackStats)| r.0.stack),
                labels@.len() == i,
                forall|j: int| 0 <= j < i ==> (#[trigger] labels@[j])@ == names[j],
                width == widest(names, i as int),
            decreases n - i,
        {
            let label = tree_label(rows.as_slice(), i);
            let length: usize = chars_of(label.as_str()).len();
            if length > width {
                width = length;
            }
            labels.push(label);
            i = i + 1;
        }
        lines.push(write_columns(width));
        let mut k: usize = 0;
        while k < n
            invariant
                n == rows@.len(),
                n == all.len(),
                rows_model(rows@) == all,
                k <= n,
                labels@.len() == n,
                forall|j: int| 0 <= j < n ==> (#[trigger] labels@[j])@ == names[j],
                lines@.len() == k + 2,
                lines@[0]@ == headline(m, elapsed@),
                lines@[1]@ == column_line(width as int),
                forall|j: int|
                    0 <= j < k ==> (#[trigger] lines@[j + 2])@ == row_line(
                        names[j],
                        all[j].1,
                        width as int,
                    ),
            decreases n - k,
        {
            assert(rows_model(rows@)[k as int].1 == rows@[k as int].1);
            let ghost before = lines@;
            lines.push(write_row(labels[k].as_str(), &rows[k].1, width));
            assert forall|j: int| 0 <= j < k + 1 implies (#[trigger] lines@[j + 2])@ == row_line(
                names[j],
                all[j].1,
                width as int,
            ) by {
                if j < k {
                    assert(lines@[j + 2] == before[j + 2]);
                }
            }
            k = k + 1;
        }
        proof {
            let want = report(m, elapsed@);
            assert(lines@.len() == want.len());
            assert forall|j: int| 0 <= j < want.len() implies #[trigger] lines.model()[j]
                == want[j] by {
                if j >= 2 {
                    assert(lines@[(j - 2) + 2]@ == row_line(
                        names[j - 2],
                        all[j - 2].1,
                        width as int,
                    ));
                }
            }
            assert(lines.model() =~= want);
        }
        lines
    }
}

/// Every span that came in is counted, and only spans are.
pub proof fn every_span_is_counted(m: StatsModel, update: Update, now: u64)
    requires
        m.received < u64::MAX,
    ensures
        stats_after(m, update, now).received == m.received + if update is SpanReceived {
            1int
        } else {
            0
        },
{
}

/// An unfinished span is counted as such and kept out of the window, a
/// finished one joins it, and no other message touches either. What is said
/// of the connection is what was last told of it.
pub proof fn messages_are_taken_for_what_they_are(m: StatsModel, update: Update, now: u64)
    requires
        m.dropped < u64::MAX,
    ensures
        ({
            let after = stats_after(m, update, now);
            &&& update matches Update::SpanReceived(s) ==> {
                &&& s.closed_at_ns is None ==> after.dropped == m.dropped + 1 && after.agg == m.agg
                &&& s.closed_at_ns is Some ==> after.dropped == m.dropped && after.agg == absorbed(
                    m.agg,
                    s@,
                ).0
                &&& after.rate == rate_recorded(m.rate, now)
            }
            &&& !(update is SpanReceived) ==> after.agg == m.agg && after.dropped == m.dropped
                && after.rate == m.rate
            &&& update is Connected ==> after.connected && after.last_status is None
            &&& update matches Update::Disconnected(why) ==> !after.connected && after.last_status
                == Some(why@)
            &&& update matches Update::Status(s) ==> after.last_status == Some(s@)
                && after.connected == m.connected
        }),
{
}

/// Where a text stands in a longer one.
proof fn parts_stand(front: Text, part: Text, rest: Text)
    ensures
        has_part(front + part + rest, part),
{
    let all = front + part + rest;
    assert forall|j: int| 0 <= j < part.len() implies #[trigger] all[front.len() + j]
        == part[j] by {
    }
    assert(occurs_at(all, part, front.len() as int));
}

/// The first line tells how many spans are held and how many came, in so many
/// words, and the state of the connection in brackets.
pub proof fn the_headline_tells_the_counts(m: StatsModel, elapsed: Text)
    ensures
        ({
            let line = report(m, elapsed)[0];
            &&& has_part(line, decimal(m.agg.ring.len()) + " buffered ("@)
            &&& has_part(line, " spans/s, recv="@ + decimal(m.received as nat) + ") "@)
            &&& m.connected ==> has_part(line, "[connected]"@)
            &&& !m.connected && m.last_status is Some ==> has_part(line, m.last_status->0)
            &&& has_part(line, elapsed)
        }),
{
    let line = headline(m, elapsed);
    let a = "=== stats @ "@;
    let b = "s — "@;
    let c = decimal(m.agg.ring.len());
    let d = " buffered ("@;
    let e = rate_text(m.rate);
    let g = " spans/s, recv="@;
    let h = decimal(m.received as nat);
    let i = ") "@;
    let k = state_text(m);
    let l = " ==="@;
    assert(line =~= a + elapsed + (b + c + d + e + g + h + i + k + l));
    parts_stand(a, elapsed, b + c + d + e + g + h + i + k + l);
    assert(line =~= (a + elapsed + b) + (c + d) + (e + g + h + i + k + l));
    parts_stand(a + elapsed + b, c + d, e + g + h + i + k + l);
    assert(line =~= (a + elapsed + b + c + d + e) + (g + h + i) + (k + l));
    parts_stand(a + elapsed + b + c + d + e, g + h + i, k + l);
    let front = a + elapsed + b + c + d + e + g + h + i;
    assert(line =~= front + k + l);
    parts_stand(front, k, l);
    if !m.connected && m.last_status is Some {
        let s = m.last_status->0;
        assert(line =~= (front + seq!['[']) + s + (seq![']'] + l));
        parts_stand(front + seq!['['], s, seq![']'] + l);
    }
}

/// The rate is printed in whole spans per second: four times the number that
/// is printed differs by at most two from what came in the four seconds.
pub proof fn the_printed_rate_is_near(m: RateModel) -> (hz: nat)
    ensures
        rate_text(m) == decimal(hz),
        m.started is None ==> hz == 0,
        m.started is Some ==> 4 * hz <= completed(m.recent, 8) + 2 && completed(m.recent, 8) <= 4
            * hz + 2,
{
    if m.started is None {
        0
    } else {
        let n = completed(m.recent, 8);
        let q = n / 4;
        assert(n == 4 * q + n % 4);
        nearest(n, 4)
    }
}

/// Where there are no rows, a second line tells how many spans came and how
/// many of them were unfinished; otherwise there is one line for the headings
/// and one for every row.
pub proof fn the_lines_tell_what_there_is(m: StatsModel, elapsed: Text)
    ensures
        ({
            let lines = report(m, elapsed);
            let n = rows_of(m.agg.ring).len();
            &&& n == 0 ==> {
                &&& lines.len() == 2
                &&& has_part(lines[1], "received="@ + decimal(m.received as nat) + " dropped_open="@)
                &&& has_part(lines[1], " dropped_open="@ + decimal(m.dropped as nat) + ")"@)
            }
            &&& n > 0 ==> lines.len() == n + 2
        }),
{
    let line = no_rows_line(m);
    reveal_strlit("  (no renderable spans in buffer; received=");
    reveal_strlit("  (no renderable spans in buffer; ");
    reveal_strlit("received=");
    let a = "  (no renderable spans in buffer; "@;
    let b = "received="@;
    assert("  (no renderable spans in buffer; received="@ =~= a + b);
    let c = decimal(m.received as nat);
    let d = " dropped_open="@;
    let e = decimal(m.dropped as nat);
    let g = ")"@;
    assert(line =~= a + (b + c + d) + (e + g));
    parts_stand(a, b + c + d, e + g);
    assert(line =~= (a + b + c) + (d + e + g) + Seq::empty());
    parts_stand(a + b + c, d + e + g, Seq::empty());
}

} // verus!
