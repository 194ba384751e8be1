//! Conditions on the labels of vectors.
use std::collections::HashSet;
use vstd::prelude::*;

verus! {

/// A condition on a vector's labels. Each label is a field, named by its position.
pub enum Filter {
    /// The field equals the value.
    LabelEq { field: usize, value: u64 },
    /// The field is one of the values.
    LabelIn { field: usize, values: HashSet<u64> },
    /// The field is less than the value.
    LabelLt { field: usize, value: u64 },
    /// The field is greater than the value.
    LabelGt { field: usize, value: u64 },
    /// The field lies between the bounds, both of them allowed.
    LabelRange { field: usize, min: u64, max: u64 },
    /// All conditions hold.
    And(Vec<Filter>),
    /// Some condition holds.
    Or(Vec<Filter>),
    /// Nothing is asked.
    NoFilter,
}

impl Filter {
    /// Whether labels meet the condition. A condition on a field that is not there is
    /// not met.
    pub open spec fn accepts(&self, labels: Seq<u64>) -> bool
        decreases self,
    {
        match self {
            Filter::NoFilter => true,
            Filter::LabelEq { field, value } => *field < labels.len() && labels[*field as int]
                == *value,
            Filter::LabelIn { field, values } => *field < labels.len() && values@.contains(
                labels[*field as int],
            ),
            Filter::LabelLt { field, value } => *field < labels.len() && labels[*field as int]
                < *value,
            Filter::LabelGt { field, value } => *field < labels.len() && labels[*field as int]
                > *value,
            Filter::LabelRange { field, min, max } => *field < labels.len() && *min
                <= labels[*field as int] <= *max,
            Filter::And(filters) => forall|i: int|
                0 <= i < filters@.len() ==> (#[trigger] filters@[i]).accepts(labels),
            Filter::Or(filters) => exists|i: int|
                0 <= i < filters@.len() && (#[trigger] filters@[i]).accepts(labels),
        }
    }

    pub fn label_eq(field: usize, value: u64) -> (r: Self)
        ensures
            r == (Filter::LabelEq { field, value }),
    {
        Filter::LabelEq { field, value }
    }

    /// The field is one of the values given.
    pub fn label_in(field: usize, values: &[u64]) -> (r: Self)
        ensures
            r matches Filter::LabelIn { field: f, values: set } && f == field && set@
                == values@.to_set(),
    {
        broadcast use vstd::std_specs::hash::group_hash_axioms;

        let mut set: HashSet<u64> = HashSet::new();
        let mut i: usize = 0;
        assert(set@ =~= values@.take(0).to_set());
        while i < values.len()
            invariant
                i <= values@.len(),
                set@ == values@.take(i as int).to_set(),
            decreases values@.len() - i,
        {
            broadcast use vstd::std_specs::hash::group_hash_axioms;

            set.insert(values[i]);
            proof {
                let a = values@.take(i as int);
                let b = values@.take(i + 1);
                assert(b =~= a.push(values@[i as int]));
                assert forall|x: u64| b.contains(x) <==> a.contains(x) || x == values@[i as int] by {
                    if a.contains(x) {
                        let m = choose|m: int| 0 <= m < a.len() && a[m] == x;
                        assert(b[m] == x);
                    }
                    assert(b[i as int] == values@[i as int]);
                }
                assert(set@ =~= b.to_set());
            }
            i = i + 1;
        }
        assert(values@.take(values@.len() as int) =~= values@);
        Filter::LabelIn { field, values: set }
    }

    pub fn label_lt(field: usize, value: u64) -> (r: Self)
        ensures
            r == (Filter::LabelLt { field, value }),
    {
        Filter::LabelLt { field, value }
    }

    pub fn label_gt(field: usize, value: u64) -> (r: Self)
        ensures
            r == (Filter::LabelGt { field, value }),
    {
        Filter::LabelGt { field, value }
    }

    pub fn label_range(field: usize, min: u64, max: u64) -> (r: Self)
        ensures
            r == (Filter::LabelRange { field, min, max }),
    {
        Filter::LabelRange { field, min, max }
    }

    pub fn and(filters: Vec<Filter>) -> (r: Self)
        ensures
            r == Filter::And(filters),
    {
        Filter::And(filters)
    }

    pub fn or(filters: Vec<Filter>) -> (r: Self)
        ensures
            r == Filter::Or(filters),
    {
        Filter::Or(filters)
    }

    /// Whether labels meet the condition.
    pub fn matches(&self, labels: &[u64]) -> (r: bool)
        ensures
            r == self.accepts(labels@),
        decreases self,
    {
        broadcast use vstd::std_specs::hash::group_hash_axioms;

        match self {
            Filter::NoFilter => true,
            Filter::LabelEq { field, value } => *field < labels.len() && labels[*field] == *value,
            Filter::LabelIn { field, values } => *field < labels.len() && values.contains(
                &labels[*field],
            ),
            Filter::LabelLt { field, value } => *field < labels.len() && labels[*field] < *value,
            Filter::LabelGt { field, value } => *field < labels.len() && labels[*field] > *value,
            Filter::LabelRange { field, min, max } => *field < labels.len() && *min
                <= labels[*field] && labels[*field] <= *max,
            Filter::And(filters) => {
                let mut i: usize = 0;
                while i < filters.len()
                    invariant
                        i <= filters@.len(),
                        self is And,
                        self->And_0 == *filters,
                        forall|j: int|
                            0 <= j < i ==> (#[trigger] filters@[j]).accepts(labels@),
                    decreases filters@.len() - i,
                {
                    assert(decreases_to!(self => self->And_0));
                    assert(decreases_to!(filters => filters@));
                    assert(decreases_to!(filters@ => filters@[i as int]));
                    if !filters[i].matches(labels) {
                        assert(!filters@[i as int].accepts(labels@));
                        assert(!self.accepts(labels@));
                        return false;
                    }
                    i = i + 1;
                }
                true
            },
            Filter::Or(filters) => {
                let mut i: usize = 0;
                while i < filters.len()
                    invariant
                        i <= filters@.len(),
                        self is Or,
                        self->Or_0 == *filters,
                        forall|j: int|
                            0 <= j < i ==> !(#[trigger] filters@[j]).accepts(labels@),
                    decreases filters@.len() - i,
                {
                    assert(decreases_to!(self => self->Or_0));
                    assert(decreases_to!(filters => filters@));
                    assert(decreases_to!(filters@ => filters@[i as int]));
                    if filters[i].matches(labels) {
                        assert(filters@[i as int].accepts(labels@));
                        assert(self.accepts(labels@));
                        return true;
                    }
                    i = i + 1;
                }
                false
            },
        }
    }
}

/// A conjunction is met when each of its conditions is, however many they are.
pub proof fn conjunction_asks_every_condition(filters: Vec<Filter>, labels: Seq<u64>)
    ensures
        Filter::And(filters).accepts(labels) <==> forall|i: int|
            0 <= i < filters@.len() ==> (#[trigger] filters@[i]).accepts(labels),
{
    let f = Filter::And(filters);
    assert(f->And_0@ == filters@);
    if !f.accepts(labels) {
        let i = choose|i: int|
            0 <= i < f->And_0@.len() && !(#[trigger] f->And_0@[i]).accepts(labels);
        assert(!filters@[i].accepts(labels));
    }
}

/// A disjunction is met when any of its conditions is.
pub proof fn disjunction_asks_one_condition(filters: Vec<Filter>, labels: Seq<u64>)
    ensures
        Filter::Or(filters).accepts(labels) <==> exists|i: int|
            0 <= i < filters@.len() && (#[trigger] filters@[i]).accepts(labels),
{
    let f = Filter::Or(filters);
    assert(f->Or_0@ == filters@);
    if f.accepts(labels) {
        let i = choose|i: int|
            0 <= i < f->Or_0@.len() && (#[trigger] f->Or_0@[i]).accepts(labels);
        assert(filters@[i].accepts(labels));
    }
    if exists|i: int| 0 <= i < filters@.len() && (#[trigger] filters@[i]).accepts(labels) {
        let i = choose|i: int|
            0 <= i < filters@.len() && (#[trigger] filters@[i]).accepts(labels);
        assert(f->Or_0@[i].accepts(labels));
    }
}

/// One condition more makes a conjunction harder to meet, by just that condition, and a
/// disjunction easier.
pub proof fn one_condition_more(fewer: Vec<Filter>, more: Vec<Filter>, last: Filter, labels: Seq<u64>)
    requires
        more@ == fewer@.push(last),
    ensures
        Filter::And(more).accepts(labels) <==> Filter::And(fewer).accepts(labels) && last.accepts(
            labels,
        ),
        Filter::Or(more).accepts(labels) <==> Filter::Or(fewer).accepts(labels) || last.accepts(
            labels,
        ),
{
    let n = fewer@.len() as int;
    conjunction_asks_every_condition(fewer, labels);
    conjunction_asks_every_condition(more, labels);
    disjunction_asks_one_condition(fewer, labels);
    disjunction_asks_one_condition(more, labels);
    assert(more@[n] == last);
    assert forall|i: int| 0 <= i < n implies more@[i] == #[trigger] fewer@[i] by {}
    if Filter::And(more).accepts(labels) {
        assert forall|i: int| 0 <= i < n implies (#[trigger] fewer@[i]).accepts(labels) by {
            assert(more@[i].accepts(labels));
        }
    }
    if Filter::And(fewer).accepts(labels) && last.accepts(labels) {
        assert forall|i: int| 0 <= i < more@.len() implies (#[trigger] more@[i]).accepts(labels) by {
            if i < n {
                assert(fewer@[i].accepts(labels));
            }
        }
    }
    if Filter::Or(fewer).accepts(labels) {
        let i = choose|i: int| 0 <= i < n && (#[trigger] fewer@[i]).accepts(labels);
        assert(more@[i].accepts(labels));
    }
    if Filter::Or(more).accepts(labels) && !last.accepts(labels) {
        let i = choose|i: int| 0 <= i < more@.len() && (#[trigger] more@[i]).accepts(labels);
        assert(fewer@[i].accepts(labels));
    }
}

/// Without conditions a conjunction is always met and a disjunction never. So is a filter
/// that asks nothing.
pub proof fn nothing_asked(filters: Vec<Filter>, labels: Seq<u64>)
    requires
        filters@.len() == 0,
    ensures
        Filter::And(filters).accepts(labels),
        !Filter::Or(filters).accepts(labels),
        Filter::NoFilter.accepts(labels),
{
}

/// For each value a label equals it, is less, or is greater, and only one of these; and
/// only the label of the field that is asked for counts.
pub proof fn labels_are_compared(field: usize, value: u64, labels: Seq<u64>)
    requires
        field < labels.len(),
    ensures
        (Filter::LabelEq { field, value }).accepts(labels) <==> labels[field as int] == value,
        (Filter::LabelLt { field, value }).accepts(labels) <==> labels[field as int] < value,
        (Filter::LabelGt { field, value }).accepts(labels) <==> value < labels[field as int],
{
}

/// A range holds both its bounds and what is between them.
pub proof fn ranges_hold_their_bounds(field: usize, min: u64, max: u64, labels: Seq<u64>)
    requires
        field < labels.len(),
    ensures
        (Filter::LabelRange { field, min, max }).accepts(labels) <==> !(Filter::LabelLt { field, value: min }).accepts(labels) && !(Filter::LabelGt { field, value: max }).accepts(labels),
        (Filter::LabelRange { field, min, max }).accepts(labels) <==> min <= labels[field as int]
            <= max,
{
}

/// A label is one of some values when it equals one of them.
pub proof fn one_of_the_values(field: usize, values: HashSet<u64>, labels: Seq<u64>)
    requires
        field < labels.len(),
    ensures
        (Filter::LabelIn { field, values }).accepts(labels) <==> exists|value: u64| #[trigger]
            values@.contains(value) && (Filter::LabelEq { field, value }).accepts(labels),
{
    if (Filter::LabelIn { field, values }).accepts(labels) {
        assert(values@.contains(labels[field as int]));
    }
}

/// No condition on a field is met where the field is missing.
pub proof fn missing_fields_meet_nothing(
    field: usize,
    value: u64,
    other: u64,
    values: HashSet<u64>,
    labels: Seq<u64>,
)
    requires
        labels.len() <= field,
    ensures
        !(Filter::LabelEq { field, value }).accepts(labels),
        !(Filter::LabelIn { field, values }).accepts(labels),
        !(Filter::LabelLt { field, value }).accepts(labels),
        !(Filter::LabelGt { field, value }).accepts(labels),
        !(Filter::LabelRange { field, min: value, max: other }).accepts(labels),
{
}

} // verus!
