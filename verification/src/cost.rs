//! The cost of a paragraph layout.

use core::cmp::Ordering;
use vstd::prelude::*;

verus! {

/// Lexicographic cost of a paragraph layout.
///
/// The fields are compared in the order of their declaration, so each is a
/// tie-breaker for those above it.
#[derive(Clone, Copy, Debug, PartialEq, Eq, Ord, Structural)]
pub struct LayoutCost {
    /// The characters by which lines exceed the hard limit.
    pub overflow: usize,
    /// The characters by which lines fall short of the target.
    pub underflow: usize,
    /// The number of authored breaks removed and of new breaks introduced.
    pub changed_breaks: usize,
    /// How far new breaks are from the nearest authored break.
    pub displacement: usize,
    /// How far lines are from the target.
    pub raggedness: usize,
    /// The number of lines.
    pub lines: usize,
}

/// The cost of an empty layout.
pub open spec fn no_cost() -> LayoutCost {
    LayoutCost {
        overflow: 0,
        underflow: 0,
        changed_breaks: 0,
        displacement: 0,
        raggedness: 0,
        lines: 0,
    }
}

/// The sum of two costs, field by field. A field that would exceed the machine
/// word stays at its maximum.
pub open spec fn sum(a: LayoutCost, b: LayoutCost) -> LayoutCost {
    LayoutCost {
        overflow: a.overflow.saturating_add(b.overflow),
        underflow: a.underflow.saturating_add(b.underflow),
        changed_breaks: a.changed_breaks.saturating_add(b.changed_breaks),
        displacement: a.displacement.saturating_add(b.displacement),
        raggedness: a.raggedness.saturating_add(b.raggedness),
        lines: a.lines.saturating_add(b.lines),
    }
}

/// Whether no field of the sum of two costs exceeds the machine word.
pub open spec fn sum_is_exact(a: LayoutCost, b: LayoutCost) -> bool {
    &&& a.overflow + b.overflow <= usize::MAX
    &&& a.underflow + b.underflow <= usize::MAX
    &&& a.changed_breaks + b.changed_breaks <= usize::MAX
    &&& a.displacement + b.displacement <= usize::MAX
    &&& a.raggedness + b.raggedness <= usize::MAX
    &&& a.lines + b.lines <= usize::MAX
}

/// Whether one cost is below another in the lexicographic order of the fields.
pub open spec fn less(a: LayoutCost, b: LayoutCost) -> bool {
    if a.overflow != b.overflow {
        a.overflow < b.overflow
    } else if a.underflow != b.underflow {
        a.underflow < b.underflow
    } else if a.changed_breaks != b.changed_breaks {
        a.changed_breaks < b.changed_breaks
    } else if a.displacement != b.displacement {
        a.displacement < b.displacement
    } else if a.raggedness != b.raggedness {
        a.raggedness < b.raggedness
    } else {
        a.lines < b.lines
    }
}

impl LayoutCost {
    /// The sum of two costs.
    pub fn add(self, other: Self) -> (res: Self)
        ensures
            res == sum(self, other),
    {
        LayoutCost {
            overflow: self.overflow.saturating_add(other.overflow),
            underflow: self.underflow.saturating_add(other.underflow),
            changed_breaks: self.changed_breaks.saturating_add(other.changed_breaks),
            displacement: self.displacement.saturating_add(other.displacement),
            raggedness: self.raggedness.saturating_add(other.raggedness),
            lines: self.lines.saturating_add(other.lines),
        }
    }
}

impl Default for LayoutCost {
    fn default() -> (res: Self)
        ensures
            res == no_cost(),
    {
        LayoutCost {
            overflow: 0,
            underflow: 0,
            changed_breaks: 0,
            displacement: 0,
            raggedness: 0,
            lines: 0,
        }
    }
}

impl PartialOrd for LayoutCost {
    fn partial_cmp(&self, other: &Self) -> (res: Option<Ordering>) {
        if self.overflow != other.overflow {
            Some(if self.overflow < other.overflow { Ordering::Less } else { Ordering::Greater })
        } else if self.underflow != other.underflow {
            Some(if self.underflow < other.underflow { Ordering::Less } else { Ordering::Greater })
        } else if self.changed_breaks != other.changed_breaks {
            Some(
                if self.changed_breaks < other.changed_breaks {
                    Ordering::Less
                } else {
                    Ordering::Greater
                },
            )
        } else if self.displacement != other.displacement {
            Some(
                if self.displacement < other.displacement {
                    Ordering::Less
                } else {
                    Ordering::Greater
                },
            )
        } else if self.raggedness != other.raggedness {
            Some(
                if self.raggedness < other.raggedness {
                    Ordering::Less
                } else {
                    Ordering::Greater
                },
            )
        } else if self.lines != other.lines {
            Some(if self.lines < other.lines { Ordering::Less } else { Ordering::Greater })
        } else {
            Some(Ordering::Equal)
        }
    }
}

impl vstd::std_specs::cmp::PartialOrdSpecImpl for LayoutCost {
    open spec fn obeys_partial_cmp_spec() -> bool {
        true
    }

    open spec fn partial_cmp_spec(&self, other: &Self) -> Option<Ordering> {
        if less(*self, *other) {
            Some(Ordering::Less)
        } else if less(*other, *self) {
            Some(Ordering::Greater)
        } else {
            Some(Ordering::Equal)
        }
    }
}

/// The order of costs is total: of two different costs exactly one is below
/// the other.
pub proof fn law_cost_order_total(a: LayoutCost, b: LayoutCost)
    ensures
        less(a, b) <==> a != b && !less(b, a),
{
}

/// The order of costs is transitive.
pub proof fn law_cost_order_transitive(a: LayoutCost, b: LayoutCost, c: LayoutCost)
    requires
        less(a, b),
        less(b, c),
    ensures
        less(a, c),
{
}

/// The sum of costs does not depend on order or grouping, and the empty layout
/// adds nothing.
pub proof fn law_cost_sum(a: LayoutCost, b: LayoutCost, c: LayoutCost)
    ensures
        sum(a, b) == sum(b, a),
        sum(sum(a, b), c) == sum(a, sum(b, c)),
        sum(no_cost(), a) == a,
{
}

/// Extending two layouts by the same line keeps their order, as long as the
/// dearer one stays within the machine word.
pub proof fn law_cost_sum_monotone(a: LayoutCost, b: LayoutCost, c: LayoutCost)
    requires
        !less(b, a),
        sum_is_exact(b, c),
    ensures
        !less(sum(b, c), sum(a, c)),
{
}

} // verus!
