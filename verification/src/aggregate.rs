//! Summing parsed transactions by category and month.

use vstd::prelude::*;
use vstd::string::StrSliceExecFns;
use vstd::string::StringExecFns;

use crate::amount::Amount;
use crate::record::Item;
use crate::record::ItemView;

verus! {

/// Whether a record counts towards a query: its category equals the given
/// label exactly (case-sensitively, untrimmed) and its date falls in the
/// given month, whatever the year.
pub open spec fn item_matches(it: ItemView, category: Seq<char>, month: u32) -> bool {
    it.category == category && it.date.month == month
}

/// The sum of the absolute amounts of the matching records, in the scaled
/// fixed-point unit of [`Amount`].
pub open spec fn spec_sum_scaled(items: Seq<ItemView>, category: Seq<char>, month: u32) -> int
    decreases items.len(),
{
    if items.len() == 0 {
        0
    } else {
        spec_sum_scaled(items.drop_last(), category, month) + if item_matches(
            items.last(),
            category,
            month,
        ) {
            items.last().amount.scaled as int
        } else {
            0
        }
    }
}

/// The sum never shrinks as records are appended.
proof fn lemma_sum_take_mono(items: Seq<ItemView>, category: Seq<char>, month: u32, j: int)
    requires
        0 <= j <= items.len(),
    ensures
        spec_sum_scaled(items.take(j), category, month) <= spec_sum_scaled(items, category, month),
    decreases items.len() - j,
{
    if j == items.len() {
        assert(items.take(j) =~= items);
    } else {
        assert(items.take(j + 1).drop_last() =~= items.take(j));
        assert(items.take(j + 1).last() == items[j]);
        lemma_sum_take_mono(items, category, month, j + 1);
    }
}

/// Sums the absolute amounts of the records of the given category in the
/// given month, across all years, in the scaled fixed-point unit of
/// [`Amount`]. No matching records sum to zero. Returns nothing only when
/// the sum exceeds what an [`Amount`] can hold.
pub fn sum_category_month(data: &Vec<Item>, category: &str, month: u32) -> (r: Option<Amount>)
    ensures
        ({
            let total = spec_sum_scaled(data@.map_values(|it: Item| it@), category@, month);
            if total <= u128::MAX {
                r == Some(Amount { negative: false, scaled: total as u128 })
            } else {
                r is None
            }
        }),
{
    let ghost views = data@.map_values(|it: Item| it@);
    let cat = category.to_owned();
    let mut acc: u128 = 0;
    let mut idx: usize = 0;
    proof {
        assert(views.take(0) =~= Seq::<ItemView>::empty());
    }
    while idx < data.len()
        invariant
            views == data@.map_values(|it: Item| it@),
            cat@ == category@,
            idx <= data@.len(),
            acc as int == spec_sum_scaled(views.take(idx as int), category@, month),
        decreases data@.len() - idx,
    {
        proof {
            assert(views.take(idx + 1).drop_last() =~= views.take(idx as int));
            assert(views.take(idx + 1).last() == views[idx as int]);
        }
        let item = &data[idx];
        if item.category == cat && item.date.month == month {
            let term = item.amount.scaled;
            if acc > u128::MAX - term {
                proof {
                    lemma_sum_take_mono(views, category@, month, idx + 1);
                }
                return None;
            }
            acc += term;
        }
        idx += 1;
    }
    proof {
        assert(views.take(data@.len() as int) =~= views);
    }
    Some(Amount { negative: false, scaled: acc })
}

} // verus!
