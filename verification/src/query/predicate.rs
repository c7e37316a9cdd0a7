//! The time range that filters ask for.

use vstd::prelude::*;

verus! {

/// A range of timestamps, both ends counted in; an end may be missing.
#[derive(Clone, Copy, Debug, PartialEq, Eq, Structural)]
pub struct TimeRange {
    pub min: Option<i64>,
    pub max: Option<i64>,
}

/// The operators that filters compare with. All that say nothing of a range
/// are `Other`.
#[derive(Clone, Copy, Debug, PartialEq, Eq, Structural)]
pub enum Operator {
    Eq,
    Lt,
    LtEq,
    Gt,
    GtEq,
    Other,
}

/// The literals that filters compare with.
#[derive(Clone, Copy, Debug, PartialEq, Eq, Structural)]
pub enum ScalarValue {
    Int32(Option<i32>),
    Int64(Option<i64>),
    /// Nanoseconds, and whether there is a time zone.
    TimestampNanosecond(Option<i64>, bool),
    Other,
}

/// One side of a comparison.
#[derive(Debug)]
pub enum Operand {
    Column(String),
    Literal(ScalarValue),
    Other,
}

/// A filter.
#[derive(Debug)]
pub enum Expr {
    Binary { left: Operand, op: Operator, right: Operand },
    Other,
}

impl TimeRange {
    /// The timestamp lies in the range.
    pub open spec fn has(&self, ts: i64) -> bool {
        &&& self.min matches Some(low) ==> low <= ts
        &&& self.max matches Some(high) ==> ts <= high
    }

    /// The range of all timestamps.
    pub fn unbounded() -> (r: Self)
        ensures
            r.min is None,
            r.max is None,
    {
        TimeRange { min: None, max: None }
    }

    /// Whether the ends are in the wrong order.
    pub fn is_empty(&self) -> (r: bool)
        ensures
            r == (self.min matches Some(low) && self.max matches Some(high) && low > high),
            r == (forall|ts: i64| !#[trigger] self.has(ts)),
    {
        let r = match (self.min, self.max) {
            (Some(low), Some(high)) => low > high,
            _ => false,
        };
        proof {
            if !r {
                let ts = match self.min {
                    Some(low) => low,
                    None => match self.max {
                        Some(high) => high,
                        None => 0i64,
                    },
                };
                assert(self.has(ts));
            }
        }
        r
    }

    /// The ends of the range, the lowest and highest timestamp for missing
    /// ones; `None` where the range is empty.
    pub fn to_inclusive_bounds(&self) -> (r: Option<(i64, i64)>)
        ensures
            r is None <==> (self.min matches Some(low) && self.max matches Some(high) && low
                > high),
            r matches Some((low, high)) ==> {
                &&& low == match self.min {
                    Some(x) => x,
                    None => i64::MIN,
                }
                &&& high == match self.max {
                    Some(x) => x,
                    None => i64::MAX,
                }
            },
            forall|ts: i64|
                #[trigger] self.has(ts) == (r matches Some((low, high)) && low <= ts <= high),
    {
        if self.is_empty() {
            None
        } else {
            let low: i64 = match self.min {
                Some(x) => x,
                None => i64::MIN,
            };
            let high: i64 = match self.max {
                Some(x) => x,
                None => i64::MAX,
            };
            Some((low, high))
        }
    }

    /// Leaves out the timestamps below `cutoff`.
    pub fn clamp_min(&mut self, cutoff: Option<i64>)
        ensures
            final(self).max == old(self).max,
            forall|ts: i64|
                #[trigger] final(self).has(ts) == (old(self).has(ts) && (
                cutoff matches Some(c) ==> c <= ts)),
            cutoff is None ==> *final(self) == *old(self),
            cutoff matches Some(c) ==> final(self).min == Some(
                match old(self).min {
                    Some(m) => if m > c {
                        m
                    } else {
                        c
                    },
                    None => c,
                },
            ),
    {
        match cutoff {
            Some(c) => {
                raise_min(self, c);
            },
            None => {},
        }
    }
}

/// The timestamp that a literal stands for.
pub open spec fn literal_ts(v: ScalarValue) -> Option<i64> {
    match v {
        ScalarValue::Int32(Some(x)) => Some(x as i64),
        ScalarValue::Int64(Some(x)) => Some(x),
        ScalarValue::TimestampNanosecond(Some(x), false) => Some(x),
        _ => None,
    }
}

/// The operator with its sides exchanged.
pub open spec fn swapped(op: Operator) -> Operator {
    match op {
        Operator::Lt => Operator::Gt,
        Operator::LtEq => Operator::GtEq,
        Operator::Gt => Operator::Lt,
        Operator::GtEq => Operator::LtEq,
        other => other,
    }
}

/// What a filter says of the time column: the operator, with the column on the
/// left, and the timestamp. `None` where it says nothing.
pub open spec fn time_bound(e: Expr, time_col: Seq<char>) -> Option<(Operator, i64)> {
    match e {
        Expr::Binary { left: Operand::Column(c), op, right: Operand::Literal(v) } => if c@
            == time_col && literal_ts(v) is Some {
            Some((op, literal_ts(v).unwrap()))
        } else {
            None
        },
        Expr::Binary { left: Operand::Literal(v), op, right: Operand::Column(c) } => if c@
            == time_col && literal_ts(v) is Some {
            Some((swapped(op), literal_ts(v).unwrap()))
        } else {
            None
        },
        _ => None,
    }
}

/// The timestamps that a bound leaves in, ends counted in.
pub open spec fn bound_has(op: Operator, bound: i64, ts: i64) -> bool {
    match op {
        Operator::Gt => bound <= ts,
        Operator::GtEq => bound <= ts,
        Operator::Lt => ts <= bound,
        Operator::LtEq => ts <= bound,
        Operator::Eq => ts == bound,
        Operator::Other => true,
    }
}

/// The comparison holds of the timestamp.
pub open spec fn compares(op: Operator, bound: i64, ts: i64) -> bool {
    match op {
        Operator::Gt => bound < ts,
        Operator::GtEq => bound <= ts,
        Operator::Lt => ts < bound,
        Operator::LtEq => ts <= bound,
        Operator::Eq => ts == bound,
        Operator::Other => true,
    }
}

/// The higher of two lower ends, of which one may be missing.
pub open spec fn higher(a: Option<i64>, b: Option<i64>) -> Option<i64> {
    match (a, b) {
        (None, _) => b,
        (_, None) => a,
        (Some(x), Some(y)) => if x > y {
            a
        } else {
            b
        },
    }
}

/// The lower of two upper ends, of which one may be missing.
pub open spec fn lower(a: Option<i64>, b: Option<i64>) -> Option<i64> {
    match (a, b) {
        (None, _) => b,
        (_, None) => a,
        (Some(x), Some(y)) => if x < y {
            a
        } else {
            b
        },
    }
}

/// The lower end that a comparison sets.
pub open spec fn low_of(op: Operator, bound: i64) -> Option<i64> {
    if op is Gt || op is GtEq || op is Eq {
        Some(bound)
    } else {
        None
    }
}

/// The upper end that a comparison sets.
pub open spec fn high_of(op: Operator, bound: i64) -> Option<i64> {
    if op is Lt || op is LtEq || op is Eq {
        Some(bound)
    } else {
        None
    }
}

/// The lower end that a filter sets.
pub open spec fn filter_low(e: Expr, time_col: Seq<char>) -> Option<i64> {
    match time_bound(e, time_col) {
        Some((op, bound)) => low_of(op, bound),
        None => None,
    }
}

/// The upper end that a filter sets.
pub open spec fn filter_high(e: Expr, time_col: Seq<char>) -> Option<i64> {
    match time_bound(e, time_col) {
        Some((op, bound)) => high_of(op, bound),
        None => None,
    }
}

/// The highest of the lower ends that filters set.
pub open spec fn all_low(filters: Seq<Expr>, time_col: Seq<char>) -> Option<i64>
    decreases filters.len(),
{
    if filters.len() == 0 {
        None
    } else {
        higher(all_low(filters.drop_last(), time_col), filter_low(filters.last(), time_col))
    }
}

/// The lowest of the upper ends that filters set.
pub open spec fn all_high(filters: Seq<Expr>, time_col: Seq<char>) -> Option<i64>
    decreases filters.len(),
{
    if filters.len() == 0 {
        None
    } else {
        lower(all_high(filters.drop_last(), time_col), filter_high(filters.last(), time_col))
    }
}

/// The filter leaves the timestamp in.
pub open spec fn filter_has(e: Expr, time_col: Seq<char>, ts: i64) -> bool {
    match time_bound(e, time_col) {
        Some((op, bound)) => bound_has(op, bound, ts),
        None => true,
    }
}

fn raise_min(range: &mut TimeRange, ts: i64)
    ensures
        final(range).max == old(range).max,
        final(range).min == Some(
            match old(range).min {
                Some(m) => if m > ts {
                    m
                } else {
                    ts
                },
                None => ts,
            },
        ),
{
    range.min = Some(
        match range.min {
            Some(m) => if m > ts {
                m
            } else {
                ts
            },
            None => ts,
        },
    );
}

fn lower_max(range: &mut TimeRange, ts: i64)
    ensures
        final(range).min == old(range).min,
        final(range).max == Some(
            match old(range).max {
                Some(m) => if m < ts {
                    m
                } else {
                    ts
                },
                None => ts,
            },
        ),
{
    range.max = Some(
        match range.max {
            Some(m) => if m < ts {
                m
            } else {
                ts
            },
            None => ts,
        },
    );
}

fn swap_op(op: Operator) -> (r: Operator)
    ensures
        r == swapped(op),
{
    match op {
        Operator::Lt => Operator::Gt,
        Operator::LtEq => Operator::GtEq,
        Operator::Gt => Operator::Lt,
        Operator::GtEq => Operator::LtEq,
        other => other,
    }
}

fn scalar_to_i64(v: &ScalarValue) -> (r: Option<i64>)
    ensures
        r == literal_ts(*v),
{
    match v {
        ScalarValue::Int32(Some(x)) => Some(*x as i64),
        ScalarValue::Int64(Some(x)) => Some(*x),
        ScalarValue::TimestampNanosecond(Some(x), false) => Some(*x),
        _ => None,
    }
}

fn apply_bound(range: &mut TimeRange, op: Operator, ts: i64)
    ensures
        forall|x: i64|
            #[trigger] final(range).has(x) == (old(range).has(x) && bound_has(op, ts, x)),
        final(range).min == higher(old(range).min, low_of(op, ts)),
        final(range).max == lower(old(range).max, high_of(op, ts)),
{
    match op {
        Operator::Gt | Operator::GtEq => {
            raise_min(range, ts);
        },
        Operator::Lt | Operator::LtEq => {
            lower_max(range, ts);
        },
        Operator::Eq => {
            raise_min(range, ts);
            lower_max(range, ts);
        },
        Operator::Other => {},
    }
}

fn apply_predicate(range: &mut TimeRange, expr: &Expr, time_col: &String)
    ensures
        forall|x: i64|
            #[trigger] final(range).has(x) == (old(range).has(x) && filter_has(
                *expr,
                time_col@,
                x,
            )),
        final(range).min == higher(old(range).min, filter_low(*expr, time_col@)),
        final(range).max == lower(old(range).max, filter_high(*expr, time_col@)),
{
    match expr {
        Expr::Binary { left: Operand::Column(c), op, right: Operand::Literal(v) } => {
            if *c == *time_col {
                match scalar_to_i64(v) {
                    Some(ts) => {
                        apply_bound(range, *op, ts);
                    },
                    None => {},
                }
            }
        },
        Expr::Binary { left: Operand::Literal(v), op, right: Operand::Column(c) } => {
            if *c == *time_col {
                match scalar_to_i64(v) {
                    Some(ts) => {
                        apply_bound(range, swap_op(*op), ts);
                    },
                    None => {},
                }
            }
        },
        _ => {},
    }
}

/// The range of timestamps that filters leave in. A filter that does not
/// compare the time column with a timestamp leaves all in.
pub fn extract_time_range(filters: &[Expr], time_col: &String) -> (r: TimeRange)
    ensures
        forall|ts: i64|
            #[trigger] r.has(ts) == (forall|i: int| #![trigger filters@[i]]
                0 <= i < filters@.len() ==> filter_has(filters@[i], time_col@, ts)),
        r.min == all_low(filters@, time_col@),
        r.max == all_high(filters@, time_col@),
{
    let mut range = TimeRange::unbounded();
    let mut i: usize = 0;
    assert(filters@.take(0) =~= Seq::empty());
    while i < filters.len()
        invariant
            i <= filters@.len(),
            forall|ts: i64|
                #[trigger] range.has(ts) == (forall|j: int| #![trigger filters@[j]]
                    0 <= j < i ==> filter_has(filters@[j], time_col@, ts)),
            range.min == all_low(filters@.take(i as int), time_col@),
            range.max == all_high(filters@.take(i as int), time_col@),
        decreases filters@.len() - i,
    {
        let ghost before = range;
        apply_predicate(&mut range, &filters[i], time_col);
        proof {
            let f = filters@[i as int];
            assert forall|ts: i64|
                #[trigger] range.has(ts) == (forall|j: int| #![trigger filters@[j]]
                    0 <= j < i + 1 ==> filter_has(filters@[j], time_col@, ts)) by {
                assert(range.has(ts) == (before.has(ts) && filter_has(f, time_col@, ts)));
                if before.has(ts) && filter_has(f, time_col@, ts) {
                    assert forall|j: int| #![trigger filters@[j]] 0 <= j < i + 1 implies filter_has(
                        filters@[j],
                        time_col@,
                        ts,
                    ) by {}
                }
                if forall|j: int| #![trigger filters@[j]]
                    0 <= j < i + 1 ==> filter_has(filters@[j], time_col@, ts) {
                    assert(filter_has(filters@[i as int], time_col@, ts));
                    assert(before.has(ts));
                }
            }
            assert(filters@.take(i + 1).drop_last() =~= filters@.take(i as int));
            assert(filters@.take(i + 1).last() == f);
        }
        i += 1;
    }
    assert(filters@.take(i as int) =~= filters@);
    range
}

/// Pruning loses nothing: every timestamp of which all comparisons hold is in
/// the range.
pub proof fn law_range_keeps_matches(op: Operator, bound: i64, ts: i64)
    requires
        compares(op, bound, ts),
    ensures
        bound_has(op, bound, ts),
{
}

/// Exchanging the sides of a comparison and the operator changes nothing.
pub proof fn law_swapped_twice(op: Operator)
    ensures
        swapped(swapped(op)) == op,
{
}

/// Exchanging the sides of a comparison exchanges the operator: `b op t` holds
/// exactly where `t` stands to `b` as the other operator says.
pub proof fn law_swapped_sides(op: Operator, b: i64, t: i64)
    requires
        op !is Other,
    ensures
        compares(swapped(op), b, t) == match op {
            Operator::Lt => b < t,
            Operator::LtEq => b <= t,
            Operator::Gt => b > t,
            Operator::GtEq => b >= t,
            _ => b == t,
        },
        compares(op, b, t) == match op {
            Operator::Lt => t < b,
            Operator::LtEq => t <= b,
            Operator::Gt => t > b,
            Operator::GtEq => t >= b,
            _ => t == b,
        },
        swapped(op) !is Other,
{
}

/// A number and a timestamp without a time zone stand for themselves; a null, a
/// timestamp with a time zone and whatever else stand for no timestamp.
pub proof fn law_literals_stand_for_timestamps(v: ScalarValue, b: i64)
    ensures
        literal_ts(v) == Some(b) <==> v == ScalarValue::Int64(Some(b)) || v
            == ScalarValue::TimestampNanosecond(Some(b), false) || (v matches ScalarValue::Int32(
            Some(x),
        ) && x == b),
{
}

/// What a filter on the time column leaves in, with the literal on either side:
/// the timestamps of which the comparison holds, and the literal itself.
pub proof fn law_filter_bounds_time(
    col: String,
    op: Operator,
    v: ScalarValue,
    b: i64,
    time_col: Seq<char>,
    ts: i64,
)
    requires
        col@ == time_col,
        v == ScalarValue::Int64(Some(b)) || v == ScalarValue::TimestampNanosecond(Some(b), false)
            || (v matches ScalarValue::Int32(Some(x)) && x == b),
    ensures
        filter_has(
            (Expr::Binary { left: Operand::Column(col), op, right: Operand::Literal(v) }),
            time_col,
            ts,
        ) == match op {
            Operator::Lt => ts < b || ts == b,
            Operator::LtEq => ts < b || ts == b,
            Operator::Gt => ts > b || ts == b,
            Operator::GtEq => ts > b || ts == b,
            Operator::Eq => ts == b,
            Operator::Other => true,
        },
        filter_has(
            (Expr::Binary { left: Operand::Literal(v), op, right: Operand::Column(col) }),
            time_col,
            ts,
        ) == match op {
            Operator::Lt => b < ts || b == ts,
            Operator::LtEq => b < ts || b == ts,
            Operator::Gt => b > ts || b == ts,
            Operator::GtEq => b > ts || b == ts,
            Operator::Eq => b == ts,
            Operator::Other => true,
        },
{
}

/// A filter that does not compare the time column with a timestamp leaves all
/// timestamps in and sets no end.
pub proof fn law_other_filters_bound_nothing(e: Expr, time_col: Seq<char>, ts: i64)
    requires
        match e {
            Expr::Binary { left: Operand::Column(c), op, right: Operand::Literal(v) } => c@
                != time_col || op is Other || literal_ts(v) is None,
            Expr::Binary { left: Operand::Literal(v), op, right: Operand::Column(c) } => c@
                != time_col || op is Other || literal_ts(v) is None,
            _ => true,
        },
    ensures
        filter_has(e, time_col, ts),
        filter_low(e, time_col) is None,
        filter_high(e, time_col) is None,
{
}

/// No row is lost that a query asks for: a timestamp of which all filters hold,
/// with their literals on either side, lies in the range of the filters.
pub proof fn law_matching_times_are_in_range(
    filters: Seq<Expr>,
    time_col: Seq<char>,
    r: TimeRange,
    ts: i64,
)
    requires
        r.has(ts) == (forall|i: int| #![trigger filters[i]]
            0 <= i < filters.len() ==> filter_has(filters[i], time_col, ts)),
        forall|i: int| #![trigger filters[i]]
            0 <= i < filters.len() ==> match filters[i] {
                Expr::Binary { left: Operand::Column(c), op, right: Operand::Literal(v) } => c@
                    == time_col ==> (literal_ts(v) matches Some(b) ==> match op {
                    Operator::Lt => ts < b,
                    Operator::LtEq => ts <= b,
                    Operator::Gt => ts > b,
                    Operator::GtEq => ts >= b,
                    Operator::Eq => ts == b,
                    Operator::Other => true,
                }),
                Expr::Binary { left: Operand::Literal(v), op, right: Operand::Column(c) } => c@
                    == time_col ==> (literal_ts(v) matches Some(b) ==> match op {
                    Operator::Lt => b < ts,
                    Operator::LtEq => b <= ts,
                    Operator::Gt => b > ts,
                    Operator::GtEq => b >= ts,
                    Operator::Eq => b == ts,
                    Operator::Other => true,
                }),
                _ => true,
            },
    ensures
        r.min matches Some(low) ==> low <= ts,
        r.max matches Some(high) ==> ts <= high,
{
    assert(r.has(ts)) by {
        assert forall|i: int| #![trigger filters[i]] 0 <= i < filters.len() implies filter_has(
            filters[i],
            time_col,
            ts,
        ) by {}
    }
}

/// The ends that a single filter sets: the literal where the comparison has a
/// lower or an upper end, seen from the time column.
pub proof fn law_filter_sets_ends(
    col: String,
    op: Operator,
    v: ScalarValue,
    b: i64,
    time_col: Seq<char>,
)
    requires
        col@ == time_col,
        v == ScalarValue::Int64(Some(b)) || v == ScalarValue::TimestampNanosecond(Some(b), false)
            || (v matches ScalarValue::Int32(Some(x)) && x == b),
    ensures
        ({
            let e = Expr::Binary { left: Operand::Column(col), op, right: Operand::Literal(v) };
            &&& filter_low(e, time_col) == match op {
                Operator::Gt | Operator::GtEq | Operator::Eq => Some(b),
                _ => None,
            }
            &&& filter_high(e, time_col) == match op {
                Operator::Lt | Operator::LtEq | Operator::Eq => Some(b),
                _ => None,
            }
        }),
        ({
            let e = Expr::Binary { left: Operand::Literal(v), op, right: Operand::Column(col) };
            &&& filter_low(e, time_col) == match op {
                Operator::Lt | Operator::LtEq | Operator::Eq => Some(b),
                _ => None,
            }
            &&& filter_high(e, time_col) == match op {
                Operator::Gt | Operator::GtEq | Operator::Eq => Some(b),
                _ => None,
            }
        }),
{
}

/// The range is as narrow as the filters make it: its lower end is the highest
/// that a filter sets and its upper end the lowest, and where no filter sets an
/// end there is none.
pub proof fn law_ends_are_tight(filters: Seq<Expr>, time_col: Seq<char>)
    ensures
        forall|i: int| #![trigger filters[i]]
            0 <= i < filters.len() ==> (filter_low(filters[i], time_col) matches Some(x) ==> (
            all_low(filters, time_col) matches Some(low) && x <= low)) && (filter_high(
                filters[i],
                time_col,
            ) matches Some(x) ==> (all_high(filters, time_col) matches Some(high) && high <= x)),
        all_low(filters, time_col) is Some ==> exists|i: int|
            0 <= i < filters.len() && filter_low(#[trigger] filters[i], time_col) == all_low(
                filters,
                time_col,
            ),
        all_high(filters, time_col) is Some ==> exists|i: int|
            0 <= i < filters.len() && filter_high(#[trigger] filters[i], time_col) == all_high(
                filters,
                time_col,
            ),
    decreases filters.len(),
{
    if filters.len() > 0 {
        let p = filters.drop_last();
        let n = filters.len() - 1;
        law_ends_are_tight(p, time_col);
        assert(filters[n] == filters.last());
        assert forall|i: int| #![trigger filters[i]] 0 <= i < filters.len() implies (filter_low(
            filters[i],
            time_col,
        ) matches Some(x) ==> (all_low(filters, time_col) matches Some(low) && x <= low)) && (
        filter_high(filters[i], time_col) matches Some(x) ==> (all_high(
            filters,
            time_col,
        ) matches Some(high) && high <= x)) by {
            if i < n {
                assert(p[i] == filters[i]);
            }
        }
        if all_low(filters, time_col) is Some && all_low(filters, time_col) != filter_low(
            filters[n],
            time_col,
        ) {
            let i = choose|i: int|
                0 <= i < p.len() && filter_low(#[trigger] p[i], time_col) == all_low(p, time_col);
            assert(filters[i] == p[i]);
        }
        if all_high(filters, time_col) is Some && all_high(filters, time_col) != filter_high(
            filters[n],
            time_col,
        ) {
            let i = choose|i: int|
                0 <= i < p.len() && filter_high(#[trigger] p[i], time_col) == all_high(
                    p,
                    time_col,
                );
            assert(filters[i] == p[i]);
        }
    }
}

} // verus!
