//! The statistics report: the share of each quantifier in the instantiations
//! of the trace, and the text that states it.

use crate::cost::{
    cost_views, instantiation_sum, lemma_instantiation_sum_bounds, percent_of, share_percent,
    total_instantiations, QuantCost, QuantCostView,
};
use vstd::prelude::*;
use vstd::string::StringExecFns;

verus! {

/// Why the report could not be made.
#[derive(Clone, Copy, Debug, PartialEq, Eq, Structural)]
pub enum StatsError {
    /// There are quantifiers to report on, and not one instantiation among
    /// them all: no share can be computed of a total of zero.
    NoInstantiations,
}

/// One row of the report.
#[derive(Clone, Debug, PartialEq, Eq)]
pub struct CostShare {
    pub quant: String,
    pub instantiations: u64,
    /// The share of this quantifier in all instantiations, in percent.
    pub percent: u64,
}

/// What a [`CostShare`] holds, as mathematical values.
pub struct RowView {
    pub quant: Seq<char>,
    pub instantiations: u64,
    pub percent: u64,
}

impl View for CostShare {
    type V = RowView;

    open spec fn view(&self) -> RowView {
        RowView {
            quant: self.quant@,
            instantiations: self.instantiations,
            percent: self.percent,
        }
    }
}

/// The views of a sequence of rows, in the same order.
pub open spec fn share_views(rows: Seq<CostShare>) -> Seq<RowView> {
    rows.map_values(|r: CostShare| r@)
}

/// The report can be made of `costs`: there is a total to take shares of, or
/// nothing to report on.
pub open spec fn has_shares(costs: Seq<QuantCostView>) -> bool {
    costs.len() == 0 || instantiation_sum(costs) > 0
}

/// The row of one quantifier, among quantifiers with `total` instantiations.
pub open spec fn share_of(c: QuantCostView, total: int) -> RowView {
    RowView {
        quant: c.quant,
        instantiations: c.instantiations,
        percent: percent_of(c.instantiations, total) as u64,
    }
}

/// The rows of the report on `costs`, one for each quantifier, in the order
/// of `costs`.
pub open spec fn shares_of(costs: Seq<QuantCostView>) -> Seq<RowView> {
    costs.map_values(|c: QuantCostView| share_of(c, instantiation_sum(costs)))
}

/// The share of every quantifier in the total of `costs`. Where `costs` is
/// not empty and its total is zero there are no shares, and that is an error.
pub fn cost_shares(costs: &Vec<QuantCost>) -> (result: Result<Vec<CostShare>, StatsError>)
    ensures
        result is Ok <==> has_shares(cost_views(costs@)),
        result matches Ok(rows) ==> share_views(rows@) == shares_of(cost_views(costs@)),
        result matches Ok(rows) ==> forall|i: int|
            0 <= i < rows@.len() ==> (#[trigger] rows@[i]).percent <= 100,
{
    let ghost all = cost_views(costs@);
    let mut rows: Vec<CostShare> = Vec::new();
    if costs.len() == 0 {
        assert(share_views(rows@) =~= shares_of(all));
        return Ok(rows);
    }
    let total = total_instantiations(costs);
    if total == 0 {
        return Err(StatsError::NoInstantiations);
    }
    let mut i: usize = 0;
    while i < costs.len()
        invariant
            i <= costs.len(),
            all == cost_views(costs@),
            total == instantiation_sum(all),
            total > 0,
            rows@.len() == i,
            forall|j: int| 0 <= j < i ==> (#[trigger] rows@[j])@ == share_of(all[j], total as int),
            forall|j: int| 0 <= j < i ==> (#[trigger] rows@[j]).percent <= 100,
        decreases costs.len() - i,
    {
        let c = &costs[i];
        proof {
            lemma_instantiation_sum_bounds(all, i as int);
        }
        let percent = share_percent(c.instantiations, total);
        rows.push(CostShare { quant: c.quant.clone(), instantiations: c.instantiations, percent });
        i += 1;
    }
    assert(share_views(rows@) =~= shares_of(all));
    Ok(rows)
}

/// The character of a decimal digit.
pub open spec fn digit(d: int) -> char
    recommends
        0 <= d < 10,
{
    if d == 0 {
        '0'
    } else if d == 1 {
        '1'
    } else if d == 2 {
        '2'
    } else if d == 3 {
        '3'
    } else if d == 4 {
        '4'
    } else if d == 5 {
        '5'
    } else if d == 6 {
        '6'
    } else if d == 7 {
        '7'
    } else if d == 8 {
        '8'
    } else {
        '9'
    }
}

/// A number written in decimal digits, without leading zeros.
pub open spec fn decimal(n: nat) -> Seq<char>
    decreases n,
{
    if n < 10 {
        seq![digit(n as int)]
    } else {
        decimal(n / 10).push(digit((n % 10) as int))
    }
}

fn digit_text(d: u64) -> (text: &'static str)
    requires
        d < 10,
    ensures
        text@ == seq![digit(d as int)],
{
    proof {
        reveal_strlit("0");
        reveal_strlit("1");
        reveal_strlit("2");
        reveal_strlit("3");
        reveal_strlit("4");
        reveal_strlit("5");
        reveal_strlit("6");
        reveal_strlit("7");
        reveal_strlit("8");
        reveal_strlit("9");
    }
    let text = if d == 0 {
        "0"
    } else if d == 1 {
        "1"
    } else if d == 2 {
        "2"
    } else if d == 3 {
        "3"
    } else if d == 4 {
        "4"
    } else if d == 5 {
        "5"
    } else if d == 6 {
        "6"
    } else if d == 7 {
        "7"
    } else if d == 8 {
        "8"
    } else {
        "9"
    };
    assert(text@ =~= seq![digit(d as int)]);
    text
}

/// Writes `n` in decimal digits at the end of `out`.
pub fn push_decimal(out: &mut String, n: u64)
    ensures
        final(out)@ == old(out)@ + decimal(n as nat),
    decreases n,
{
    if n >= 10 {
        push_decimal(out, n / 10);
    }
    out.append(digit_text(n % 10));
    assert(out@ =~= old(out)@ + decimal(n as nat));
}

/// The text of one row: the quantifier, how often it was instantiated and
/// its share, then an empty line.
pub open spec fn line_text(row: RowView) -> Seq<char> {
    "Instantiated "@ + row.quant + " "@ + decimal(row.instantiations as nat) + " times ("@
        + decimal(row.percent as nat) + "% of the total) \n\n"@
}

/// The text of the report: the text of each row, in order.
pub open spec fn report_text(rows: Seq<RowView>) -> Seq<char>
    decreases rows.len(),
{
    if rows.len() == 0 {
        Seq::empty()
    } else {
        report_text(rows.drop_last()) + line_text(rows.last())
    }
}

/// Writes the text of `row` at the end of `out`.
pub fn push_line(out: &mut String, row: &CostShare)
    ensures
        final(out)@ == old(out)@ + line_text(row@),
{
    out.append("Instantiated ");
    out.append(row.quant.as_str());
    out.append(" ");
    push_decimal(out, row.instantiations);
    out.append(" times (");
    push_decimal(out, row.percent);
    out.append("% of the total) \n\n");
    assert(out@ =~= old(out)@ + line_text(row@));
}

/// Writes the text of the report at the end of `out`.
pub fn push_report(out: &mut String, rows: &Vec<CostShare>)
    ensures
        final(out)@ == old(out)@ + report_text(share_views(rows@)),
{
    let ghost all = share_views(rows@);
    let mut i: usize = 0;
    assert(out@ =~= old(out)@ + report_text(all.take(0)));
    while i < rows.len()
        invariant
            i <= rows.len(),
            all == share_views(rows@),
            out@ == old(out)@ + report_text(all.take(i as int)),
        decreases rows.len() - i,
    {
        push_line(out, &rows[i]);
        proof {
            assert(all.take(i + 1).drop_last() =~= all.take(i as int));
            assert(all.take(i + 1).last() == rows@[i as int]@);
            assert(out@ =~= old(out)@ + report_text(all.take(i + 1)));
        }
        i += 1;
    }
    assert(all.take(i as int) =~= all);
}

} // verus!
