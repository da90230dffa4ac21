//! What decides which spans and events are recorded.

use vstd::prelude::*;

use crate::cache::record::{values_model, FieldList, MetaModel, Metadata, ValueModel};
use crate::double::{whole_double, whole_double_of, whole_doubles_are_close};
use crate::pattern::{
    is_share_below, patterns_are_in_order, share_below, units, units_of_one, Double, HUNDRED,
    INFINITE, SIGN,
};
use crate::protocol::{Text, WireLevel, WireLevelFilter};

verus! {

/// Whether anything from a place in the program is of interest.
#[derive(Debug, Clone, Copy, PartialEq, Eq, Structural)]
pub enum Interest {
    Never,
    Sometimes,
    Always,
}

/// What a new span hangs on.
#[derive(Debug, Clone, Copy, PartialEq, Eq, Structural)]
pub enum ParentOf {
    /// The span that is entered on the thread.
    Context,
    /// Nothing: the span is a root.
    Root,
    /// The span with this id.
    Explicit(u64),
}

/// A span to be opened.
pub struct Attributes {
    pub parent: ParentOf,
    pub metadata: Metadata,
    pub fields: FieldList,
}

pub ghost struct AttributesModel {
    pub parent: ParentOf,
    pub metadata: MetaModel,
    pub fields: Seq<(Text, ValueModel)>,
}

impl View for Attributes {
    type V = AttributesModel;

    open spec fn view(&self) -> AttributesModel {
        AttributesModel {
            parent: self.parent,
            metadata: self.metadata@,
            fields: values_model(self.fields@),
        }
    }
}

impl Attributes {
    pub fn is_root(&self) -> (r: bool)
        ensures
            r == (self@.parent == ParentOf::Root),
    {
        matches!(self.parent, ParentOf::Root)
    }

    pub fn is_contextual(&self) -> (r: bool)
        ensures
            r == (self@.parent == ParentOf::Context),
    {
        matches!(self.parent, ParentOf::Context)
    }
}

/// Decides which spans and events are recorded.
pub trait EnabledPredicate {
    /// What may be told of the finest level that may be enabled.
    open spec fn may_hint(&self, hint: Option<WireLevelFilter>) -> bool {
        true
    }

    /// What may be told of a place in the program.
    open spec fn may_interest(&self, metadata: MetaModel, interest: Interest) -> bool {
        true
    }

    /// The answers that may be given for a span or an event.
    open spec fn may_enable(&self, metadata: MetaModel, answer: bool) -> bool {
        true
    }

    /// The answers that may be given for a new span. A predicate that leaves
    /// it to chance may give either.
    open spec fn may_answer(&self, span: AttributesModel, answer: bool) -> bool {
        true
    }

    /// The finest level that may be enabled, if that is known.
    fn max_level_hint(&self) -> (r: Option<WireLevelFilter>)
        ensures
            self.may_hint(r),
    ;

    fn callsite_enabled(&self, metadata: &Metadata) -> (r: Interest)
        ensures
            self.may_interest(metadata@, r),
    ;

    fn enabled(&self, metadata: &Metadata) -> (r: bool)
        ensures
            self.may_enable(metadata@, r),
    ;

    fn new_span_enabled(&self, span: &Attributes) -> (r: bool)
        ensures
            self.may_answer(span@, r),
    ;
}

/// How far from the most severe a level is, counted from one.
pub open spec fn level_rank(level: WireLevel) -> int {
    match level {
        WireLevel::Error => 1,
        WireLevel::Warn => 2,
        WireLevel::Info => 3,
        WireLevel::Debug => 4,
        WireLevel::Trace => 5,
    }
}

/// How many levels a filter lets through.
pub open spec fn filter_rank(filter: WireLevelFilter) -> int {
    match filter {
        WireLevelFilter::Off => 0,
        WireLevelFilter::Error => 1,
        WireLevelFilter::Warn => 2,
        WireLevelFilter::Info => 3,
        WireLevelFilter::Debug => 4,
        WireLevelFilter::Trace => 5,
    }
}

/// The filter lets the level through.
pub open spec fn lets_through(filter: WireLevelFilter, level: WireLevel) -> bool {
    level_rank(level) <= filter_rank(filter)
}

/// The filter that lets through everything at least as severe as a level.
pub open spec fn filter_at(level: WireLevel) -> WireLevelFilter {
    match level {
        WireLevel::Error => WireLevelFilter::Error,
        WireLevel::Warn => WireLevelFilter::Warn,
        WireLevel::Info => WireLevelFilter::Info,
        WireLevel::Debug => WireLevelFilter::Debug,
        WireLevel::Trace => WireLevelFilter::Trace,
    }
}

/// The number under which a filter is kept.
pub fn filter_to_u8(f: WireLevelFilter) -> (n: u8)
    ensures
        n == filter_rank(f),
{
    match f {
        WireLevelFilter::Off => 0,
        WireLevelFilter::Error => 1,
        WireLevelFilter::Warn => 2,
        WireLevelFilter::Info => 3,
        WireLevelFilter::Debug => 4,
        WireLevelFilter::Trace => 5,
    }
}

/// The filter that is kept under a number. What no filter is kept under
/// counts as the widest.
pub open spec fn filter_with_rank(n: int) -> WireLevelFilter {
    if n == 0 {
        WireLevelFilter::Off
    } else if n == 1 {
        WireLevelFilter::Error
    } else if n == 2 {
        WireLevelFilter::Warn
    } else if n == 3 {
        WireLevelFilter::Info
    } else if n == 4 {
        WireLevelFilter::Debug
    } else {
        WireLevelFilter::Trace
    }
}

/// The filter that is kept under a number.
pub fn u8_to_filter(n: u8) -> (f: WireLevelFilter)
    ensures
        f == filter_with_rank(n as int),
{
    match n {
        0 => WireLevelFilter::Off,
        1 => WireLevelFilter::Error,
        2 => WireLevelFilter::Warn,
        3 => WireLevelFilter::Info,
        4 => WireLevelFilter::Debug,
        _ => WireLevelFilter::Trace,
    }
}

/// A filter is read back as it was kept.
pub proof fn filters_are_kept(f: WireLevelFilter)
    ensures
        filter_with_rank(filter_rank(f)) == f,
{
}

/// A wider filter lets through whatever a narrower one does.
pub proof fn wider_filters_let_more_through(
    narrow: WireLevelFilter,
    wide: WireLevelFilter,
    level: WireLevel,
)
    requires
        filter_rank(narrow) <= filter_rank(wide),
        lets_through(narrow, level),
    ensures
        lets_through(wide, level),
        !lets_through(WireLevelFilter::Off, level),
        lets_through(WireLevelFilter::Trace, level),
        lets_through(filter_at(level), level),
{
}

/// Enables everything that a filter lets through. The filter can be changed
/// at any time, so no place in the program is settled once and for all.
pub struct LevelPredicate {
    level: u8,
}

impl LevelPredicate {
    pub closed spec fn filter(&self) -> WireLevelFilter {
        filter_with_rank(self.level as int)
    }

    /// Enables everything at least as severe as a level.
    pub fn new(level: WireLevel) -> (r: Self)
        ensures
            r.filter() == filter_at(level),
    {
        let filter = match level {
            WireLevel::Error => WireLevelFilter::Error,
            WireLevel::Warn => WireLevelFilter::Warn,
            WireLevel::Info => WireLevelFilter::Info,
            WireLevel::Debug => WireLevelFilter::Debug,
            WireLevel::Trace => WireLevelFilter::Trace,
        };
        Self::with_filter(filter)
    }

    /// Enables everything that a filter lets through.
    pub fn with_filter(filter: WireLevelFilter) -> (r: Self)
        ensures
            r.filter() == filter,
    {
        LevelPredicate { level: filter_to_u8(filter) }
    }

    /// Changes the filter.
    pub fn set(&mut self, filter: WireLevelFilter)
        ensures
            final(self).filter() == filter,
    {
        self.level = filter_to_u8(filter);
    }

    pub fn get(&self) -> (r: WireLevelFilter)
        ensures
            r == self.filter(),
    {
        u8_to_filter(self.level)
    }

    /// Whether the filter lets a level through.
    fn passes(&self, level: WireLevel) -> (r: bool)
        ensures
            r == lets_through(self.filter(), level),
    {
        let rank: u8 = match level {
            WireLevel::Error => 1,
            WireLevel::Warn => 2,
            WireLevel::Info => 3,
            WireLevel::Debug => 4,
            WireLevel::Trace => 5,
        };
        rank <= filter_to_u8(self.get())
    }
}

impl EnabledPredicate for LevelPredicate {
    open spec fn may_hint(&self, hint: Option<WireLevelFilter>) -> bool {
        hint == Some(self.filter())
    }

    open spec fn may_interest(&self, metadata: MetaModel, interest: Interest) -> bool {
        interest == Interest::Sometimes
    }

    open spec fn may_enable(&self, metadata: MetaModel, answer: bool) -> bool {
        answer == lets_through(self.filter(), metadata.level)
    }

    open spec fn may_answer(&self, span: AttributesModel, answer: bool) -> bool {
        answer == lets_through(self.filter(), span.metadata.level)
    }

    fn max_level_hint(&self) -> (r: Option<WireLevelFilter>) {
        Some(self.get())
    }

    fn callsite_enabled(&self, _metadata: &Metadata) -> (r: Interest) {
        Interest::Sometimes
    }

    fn enabled(&self, metadata: &Metadata) -> (r: bool) {
        self.passes(metadata.level)
    }

    fn new_span_enabled(&self, span: &Attributes) -> (r: bool) {
        self.enabled(&span.metadata)
    }
}

/// All that a level predicate tells follows from the filter that was set last:
/// whoever shares the predicate reads that filter, and the hint, the interest
/// and the answers are those of that filter alone.
pub proof fn the_last_filter_decides(
    p: LevelPredicate,
    filter: WireLevelFilter,
    hint: Option<WireLevelFilter>,
    span: AttributesModel,
    answer: bool,
)
    requires
        p.filter() == filter,
    ensures
        p.may_hint(hint) <==> hint == Some(filter),
        p.may_interest(span.metadata, Interest::Sometimes),
        p.may_enable(span.metadata, answer) <==> answer == lets_through(
            filter,
            span.metadata.level,
        ),
        p.may_answer(span, answer) <==> answer == lets_through(filter, span.metadata.level),
{
}

/// A chance brought between none and a hundred percent. What is not a number
/// is none.
pub open spec fn clamped_chance(pct: Double) -> Double {
    if pct.lies_within(HUNDRED) {
        pct
    } else if pct.reaches(HUNDRED) {
        Double { bits: HUNDRED }
    } else {
        Double { bits: 0 }
    }
}

/// A chance brought between none and a hundred percent.
pub fn clamp_pct(pct: Double) -> (r: Double)
    ensures
        r == clamped_chance(pct),
{
    if pct.bits <= HUNDRED || pct.bits == SIGN {
        pct
    } else if pct.bits <= INFINITE {
        Double { bits: HUNDRED }
    } else {
        Double { bits: 0 }
    }
}

/// The roll wins: scaled from all 64-bit numbers to a hundred, in double
/// precision, it is below the chance.
pub open spec fn roll_wins(roll: u64, pct: Double) -> bool {
    pct.reaches(HUNDRED) || (pct.is_positive() && share_below(
        whole_double(whole_double(roll as nat, 1) * 100, 1),
        pct.bits,
    ))
}

/// A random number, from `rand::random`. Every number may come.
#[verifier::external_body]
fn random_roll() -> (roll: u64) {
    rand::random::<u64>()
}

/// The number may come out when a random number is drawn.
pub closed spec fn may_be_drawn(roll: u64) -> bool {
    call_ensures(random_roll, (), roll)
}

/// A number that may be drawn is one that comes from the random source as it
/// is.
proof fn drawn_as_it_came(roll: u64)
    ensures
        may_be_drawn(roll) <==> call_ensures(random_roll, (), roll),
{
}

/// Draws one number from a source, and hands it out as it came.
fn draw<F: FnOnce() -> u64>(source: F) -> (roll: u64)
    requires
        call_requires(source, ()),
    ensures
        call_ensures(source, (), roll),
{
    source()
}

/// Lets a root span through to another predicate with some chance. Other
/// spans and events are left to that predicate.
pub struct ChancePredicate<P: EnabledPredicate> {
    chance: Double,
    inner: P,
}

impl<P: EnabledPredicate> ChancePredicate<P> {
    pub closed spec fn chance(&self) -> Double {
        self.chance
    }

    pub closed spec fn inner(&self) -> P {
        self.inner
    }

    pub open spec fn wf(&self) -> bool {
        self.chance().lies_within(HUNDRED)
    }

    /// Starts with a chance in percent.
    pub fn new(inner: P, chance_pct: Double) -> (r: Self)
        ensures
            r.wf(),
            r.chance() == clamped_chance(chance_pct),
            r.inner() == inner,
    {
        ChancePredicate { chance: clamp_pct(chance_pct), inner }
    }

    /// Changes the chance.
    pub fn set(&mut self, pct: Double)
        ensures
            final(self).wf(),
            final(self).chance() == clamped_chance(pct),
            final(self).inner() == old(self).inner(),
    {
        self.chance = clamp_pct(pct);
    }

    pub fn get(&self) -> (r: Double)
        ensures
            r == self.chance(),
    {
        self.chance
    }

    /// Whether a roll lets a span through to the other predicate.
    pub fn roll_passes(&self, span: &Attributes, roll: u64) -> (r: bool)
        ensures
            r == (span@.parent != ParentOf::Root || roll_wins(roll, self.chance())),
    {
        if !span.is_root() {
            return true;
        }
        let bits: u64 = self.chance.bits;
        if HUNDRED <= bits && bits <= INFINITE {
            return true;
        }
        if bits == 0 || bits > INFINITE {
            return false;
        }
        let scaled: u128 = whole_double_of(whole_double_of(roll as u128) * 100);
        is_share_below(scaled, bits)
    }
}

impl<P: EnabledPredicate> EnabledPredicate for ChancePredicate<P> {
    open spec fn may_hint(&self, hint: Option<WireLevelFilter>) -> bool {
        self.inner().may_hint(hint)
    }

    open spec fn may_interest(&self, metadata: MetaModel, interest: Interest) -> bool {
        self.inner().may_interest(metadata, interest)
    }

    open spec fn may_enable(&self, metadata: MetaModel, answer: bool) -> bool {
        self.inner().may_enable(metadata, answer)
    }

    /// A root span that chance rejects is not recorded; whatever gets
    /// through is answered by the other predicate. Nothing gets through
    /// without a chance, everything with a full one.
    open spec fn may_answer(&self, span: AttributesModel, answer: bool) -> bool {
        if span.parent != ParentOf::Root || self.chance().reaches(HUNDRED) {
            self.inner().may_answer(span, answer)
        } else if !self.chance().is_positive() {
            !answer
        } else {
            exists|roll: u64| #[trigger]
                may_be_drawn(roll) && if roll_wins(roll, self.chance()) {
                    self.inner().may_answer(span, answer)
                } else {
                    !answer
                }
        }
    }

    fn max_level_hint(&self) -> (r: Option<WireLevelFilter>) {
        self.inner.max_level_hint()
    }

    fn callsite_enabled(&self, metadata: &Metadata) -> (r: Interest) {
        self.inner.callsite_enabled(metadata)
    }

    fn enabled(&self, metadata: &Metadata) -> (r: bool) {
        self.inner.enabled(metadata)
    }

    fn new_span_enabled(&self, span: &Attributes) -> (r: bool) {
        let roll: u64 = draw(random_roll);
        assert(may_be_drawn(roll));
        if !self.roll_passes(span, roll) {
            return false;
        }
        self.inner.new_span_enabled(span)
    }
}

/// No roll wins without a chance, and every roll wins with a full one.
pub proof fn chance_extremes(roll: u64, pct: Double)
    ensures
        pct.is_zero() ==> !roll_wins(roll, pct),
        pct.reaches(HUNDRED) ==> roll_wins(roll, pct),
{
}

/// A root span with a chance between none and a full one is decided by a
/// number that was drawn, as it was drawn: the span is recorded only where
/// that number wins and the other predicate agrees, and it is left out only
/// where the number loses or the other predicate disagrees.
pub proof fn a_drawn_roll_decides<P: EnabledPredicate>(
    p: ChancePredicate<P>,
    span: AttributesModel,
    answer: bool,
) -> (roll: u64)
    requires
        p.may_answer(span, answer),
        span.parent == ParentOf::Root,
        p.chance().is_positive(),
        !p.chance().reaches(HUNDRED),
    ensures
        may_be_drawn(roll),
        answer ==> roll_wins(roll, p.chance()) && p.inner().may_answer(span, true),
        !answer ==> !roll_wins(roll, p.chance()) || p.inner().may_answer(span, false),
{
    let roll = choose|roll: u64| #[trigger]
        may_be_drawn(roll) && if roll_wins(roll, p.chance()) {
            p.inner().may_answer(span, answer)
        } else {
            !answer
        };
    drawn_as_it_came(roll);
    roll
}

/// A roll wins in proportion: where its share of all 64-bit numbers is below
/// the chance it wins, and where its share is not below the chance it loses,
/// but for a difference of three parts in two to the fifty-third.
pub proof fn rolls_win_in_proportion(roll: u64, pct: Double)
    requires
        pct.is_positive(),
        !pct.reaches(HUNDRED),
    ensures
        100 * roll * units_of_one() * 0x20_0000_0000_0003 < units(pct.bits as nat)
            * 0x1_0000_0000_0000_0000 * 0x20_0000_0000_0000 ==> roll_wins(roll, pct),
        100 * roll * units_of_one() * 0x1f_ffff_ffff_fffd >= units(pct.bits as nat)
            * 0x1_0000_0000_0000_0000 * 0x20_0000_0000_0000 ==> !roll_wins(roll, pct),
{
    let r = roll as nat;
    let d = whole_double(r, 1);
    let w = whole_double(d * 100, 1);
    let one = units_of_one();
    let bar = units(pct.bits as nat) * 0x1_0000_0000_0000_0000;
    whole_doubles_are_close(r, 1);
    whole_doubles_are_close(d * 100, 1);
    assert(0x20_0000_0000_0000 * w <= 0x20_0000_0000_0003 * (100 * r));
    assert(0x20_0000_0000_0000 * w >= 0x1f_ffff_ffff_fffd * (100 * r));
    assert((0x20_0000_0000_0000 * w) * one <= (0x20_0000_0000_0003 * (100 * r)) * one)
        by (nonlinear_arith)
        requires
            0x20_0000_0000_0000 * w <= 0x20_0000_0000_0003 * (100 * r),
            one >= 0,
    ;
    assert((0x20_0000_0000_0000 * w) * one >= (0x1f_ffff_ffff_fffd * (100 * r)) * one)
        by (nonlinear_arith)
        requires
            0x20_0000_0000_0000 * w >= 0x1f_ffff_ffff_fffd * (100 * r),
            one >= 0,
    ;
    assert((0x20_0000_0000_0000 * w) * one == 0x20_0000_0000_0000 * (w * one)) by (nonlinear_arith);
    assert((0x20_0000_0000_0003 * (100 * r)) * one == 100 * r * one * 0x20_0000_0000_0003)
        by (nonlinear_arith);
    assert((0x1f_ffff_ffff_fffd * (100 * r)) * one == 100 * r * one * 0x1f_ffff_ffff_fffd)
        by (nonlinear_arith);
}

/// A roll that wins with some chance wins with every greater one.
pub proof fn a_greater_chance_wins_more(roll: u64, less: Double, more: Double)
    requires
        less.is_positive(),
        more.is_positive(),
        less.bits <= more.bits,
        roll_wins(roll, less),
    ensures
        roll_wins(roll, more),
{
    if less.bits < more.bits {
        patterns_are_in_order(less.bits as nat, more.bits as nat);
    }
}

} // verus!
