//! The cost of plans, in abstract cost units. One unit is one fetch from the hot tier.

use vstd::prelude::*;
use vstd::string::*;

use crate::text;
use crate::text::{cat2, cat3, cat5, decimal_usize, join};

verus! {

/// One line of a cost. Costs are the bits of doubles.
#[derive(Debug)]
pub struct AcuLineItem {
    pub operation: String,
    pub count: usize,
    pub unit_cost: u64,
    pub total: u64,
}

impl Clone for AcuLineItem {
    fn clone(&self) -> (r: Self)
        ensures
            r == *self,
    {
        AcuLineItem {
            operation: self.operation.clone(),
            count: self.count,
            unit_cost: self.unit_cost,
            total: self.total,
        }
    }
}

/// The cost of a plan, line by line. The sums are made by the caller.
#[derive(Debug)]
pub struct AcuEstimate {
    pub items: Vec<AcuLineItem>,
    pub total_acu: u64,
}

impl AcuEstimate {
    /// No cost.
    pub fn zero() -> (r: Self)
        ensures
            r.items@.len() == 0,
            r.total_acu == 0,
    {
        AcuEstimate { items: Vec::new(), total_acu: 0 }
    }

    /// The cost of one line, whose total is the product of its count and its unit cost.
    pub fn single(item: AcuLineItem) -> (r: Self)
        ensures
            r.items@ == seq![item],
            r.total_acu == item.total,
    {
        let total_acu = item.total;
        let mut items: Vec<AcuLineItem> = Vec::new();
        items.push(item);
        assert(items@ =~= seq![item]);
        AcuEstimate { items, total_acu }
    }

    /// Adds a line; `total_acu` is the sum with it.
    pub fn add(&mut self, item: AcuLineItem, total_acu: u64)
        ensures
            final(self).items@ == old(self).items@.push(item),
            final(self).total_acu == total_acu,
    {
        self.items.push(item);
        self.total_acu = total_acu;
    }

    /// Adds the lines of another cost; `total_acu` is the sum of both.
    pub fn merge(&mut self, other: &AcuEstimate, total_acu: u64)
        ensures
            final(self).items@ == old(self).items@ + other.items@,
            final(self).total_acu == total_acu,
    {
        let ghost before = self.items@;
        let mut i: usize = 0;
        proof {
            assert(before + other.items@.subrange(0, 0) =~= before);
        }
        while i < other.items.len()
            invariant
                i <= other.items.len(),
                self.items@ == before + other.items@.subrange(0, i as int),
            decreases other.items.len() - i,
        {
            self.items.push(other.items[i].clone());
            proof {
                assert(before + other.items@.subrange(0, i as int + 1) =~= (before + other.items@.subrange(
                    0,
                    i as int,
                )).push(other.items@[i as int]));
            }
            i += 1;
        }
        assert(other.items@.subrange(0, other.items@.len() as int) =~= other.items@);
        self.total_acu = total_acu;
    }
}

/// A line of a cost with its numbers as they are written out, with one decimal.
#[derive(Debug)]
pub struct ShownItem {
    pub count: usize,
    pub operation: String,
    pub unit_cost: String,
    pub total: String,
}

/// The text of a line in the cost that EXPLAIN shows.
pub open spec fn breakdown_line(i: ShownItem) -> Seq<char> {
    text::dec(i.count as nat) + "x "@ + i.operation@ + " @ "@ + (i.unit_cost@ + " = "@ + i.total@)
}

/// The cost as EXPLAIN shows it.
pub fn breakdown(items: &Vec<ShownItem>) -> (r: String)
    ensures
        r@ == text::joined(items@.map_values(|i: ShownItem| breakdown_line(i)), "; "@),
{
    let ghost want = items@.map_values(|i: ShownItem| breakdown_line(i));
    let mut lines: Vec<String> = Vec::new();
    let mut i: usize = 0;
    while i < items.len()
        invariant
            i <= items.len(),
            lines@.len() == i,
            forall|j: int| 0 <= j < i ==> (#[trigger] lines@[j])@ == breakdown_line(items@[j]),
        decreases items.len() - i,
    {
        let count = decimal_usize(items[i].count);
        let tail = cat3(items[i].unit_cost.as_str(), " = ", items[i].total.as_str());
        lines.push(cat5(count.as_str(), "x ", items[i].operation.as_str(), " @ ", tail.as_str()));
        i += 1;
    }
    assert(text::views(lines@) =~= want);
    join(&lines, "; ")
}

/// The text of a line in the cost that a result shows.
pub open spec fn shown_line(i: ShownItem) -> Seq<char> {
    "  "@ + text::dec(i.count as nat) + " x "@ + i.operation@ + (" @ "@ + i.unit_cost@ + " ACU = "@ + i.total@
        + " ACU\n"@)
}

/// Lines one after the other.
pub open spec fn shown_lines(items: Seq<ShownItem>) -> Seq<char>
    decreases items.len(),
{
    if items.len() == 0 {
        Seq::empty()
    } else {
        shown_lines(items.drop_last()) + shown_line(items.last())
    }
}

/// The cost as a result shows it: a line for each item, and the total.
pub fn describe(items: &Vec<ShownItem>, total: &str) -> (r: String)
    ensures
        r@ == shown_lines(items@) + ("  TOTAL: "@ + total@ + " ACU"@),
{
    let mut r = String::new();
    let ghost all = items@;
    let mut i: usize = 0;
    proof {
        assert(r@ =~= shown_lines(all.subrange(0, 0)));
    }
    while i < items.len()
        invariant
            i <= items.len(),
            all == items@,
            r@ == shown_lines(all.subrange(0, i as int)),
        decreases items.len() - i,
    {
        proof {
            let next = all.subrange(0, i as int + 1);
            assert(next.drop_last() =~= all.subrange(0, i as int));
            assert(next.last() == all[i as int]);
        }
        let count = decimal_usize(items[i].count);
        let tail = cat5(" @ ", items[i].unit_cost.as_str(), " ACU = ", items[i].total.as_str(), " ACU\n");
        let line = cat5("  ", count.as_str(), " x ", items[i].operation.as_str(), tail.as_str());
        r = cat2(r.as_str(), line.as_str());
        i += 1;
    }
    assert(all.subrange(0, all.len() as int) =~= all);
    let last = cat3("  TOTAL: ", total, " ACU");
    cat2(r.as_str(), last.as_str())
}

/// What operations cost. Costs are the bits of doubles. Every method has a default that
/// an implementation may replace.
pub trait CostProvider: Send + Sync {
    /// One entity from the hot tier: one.
    fn fetch_hot_acu(&self) -> (r: u64)
        default_ensures
            r == 0x3FF0_0000_0000_0000,
    {
        0x3FF0_0000_0000_0000
    }

    /// One entity from the warm tier: twenty-five.
    fn fetch_warm_acu(&self) -> (r: u64)
        default_ensures
            r == 0x4039_0000_0000_0000,
    {
        0x4039_0000_0000_0000
    }

    /// One entity from the archive: a hundred.
    fn fetch_archive_acu(&self) -> (r: u64)
        default_ensures
            r == 0x4059_0000_0000_0000,
    {
        0x4059_0000_0000_0000
    }

    /// One search of a dense vector index: fifty.
    fn search_hnsw_acu(&self) -> (r: u64)
        default_ensures
            r == 0x4049_0000_0000_0000,
    {
        0x4049_0000_0000_0000
    }

    /// One search of a sparse vector index: twenty.
    fn search_sparse_acu(&self) -> (r: u64)
        default_ensures
            r == 0x4034_0000_0000_0000,
    {
        0x4034_0000_0000_0000
    }

    /// One search of both, merged: seventy-five.
    fn search_hybrid_acu(&self) -> (r: u64)
        default_ensures
            r == 0x4052_C000_0000_0000,
    {
        0x4052_C000_0000_0000
    }

    /// One search by text: eighty.
    fn search_natural_language_acu(&self) -> (r: u64)
        default_ensures
            r == 0x4054_0000_0000_0000,
    {
        0x4054_0000_0000_0000
    }

    /// One entity of a scan: a half.
    fn full_scan_per_entity_acu(&self) -> (r: u64)
        default_ensures
            r == 0x3FE0_0000_0000_0000,
    {
        0x3FE0_0000_0000_0000
    }

    /// One lookup in a field index: two.
    fn field_index_lookup_acu(&self) -> (r: u64)
        default_ensures
            r == 0x4000_0000_0000_0000,
    {
        0x4000_0000_0000_0000
    }

    /// One hop of a traversal: three.
    fn traverse_hop_acu(&self) -> (r: u64)
        default_ensures
            r == 0x4008_0000_0000_0000,
    {
        0x4008_0000_0000_0000
    }

    /// One inference: sixty.
    fn infer_acu(&self) -> (r: u64)
        default_ensures
            r == 0x404E_0000_0000_0000,
    {
        0x404E_0000_0000_0000
    }

    /// One pass of a scalar pre-filter: five.
    fn pre_filter_acu(&self) -> (r: u64)
        default_ensures
            r == 0x4014_0000_0000_0000,
    {
        0x4014_0000_0000_0000
    }

    /// The second pass of a search in two passes: fifteen.
    fn two_pass_rescore_acu(&self) -> (r: u64)
        default_ensures
            r == 0x402E_0000_0000_0000,
    {
        0x402E_0000_0000_0000
    }

    /// Moving one entity to the hot tier: thirty.
    fn promotion_acu(&self) -> (r: u64)
        default_ensures
            r == 0x403E_0000_0000_0000,
    {
        0x403E_0000_0000_0000
    }

    /// Any write: five.
    fn write_base_acu(&self) -> (r: u64)
        default_ensures
            r == 0x4014_0000_0000_0000,
    {
        0x4014_0000_0000_0000
    }
}

/// The provider that has every default.
#[derive(Debug, Clone, Copy)]
pub struct ConstantCostProvider;

impl CostProvider for ConstantCostProvider {

}

impl Default for ConstantCostProvider {
    fn default() -> (r: Self)
        ensures
            r == ConstantCostProvider,
    {
        ConstantCostProvider
    }
}

} // verus!
