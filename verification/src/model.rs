//! Values with a mathematical model: how they are copied and compared.

use vstd::prelude::*;

verus! {

/// A value that can be copied and compared by its model.
pub trait Modeled: View + Sized {
    /// When two models count as the same value.
    spec fn alike(left: Self::V, right: Self::V) -> bool;

    /// A copy with the same model.
    fn duplicate(&self) -> (copy: Self)
        ensures
            copy@ == self@,
    ;

    /// Whether two values have models that count as the same.
    fn same(&self, other: &Self) -> (equal: bool)
        ensures
            equal == Self::alike(self@, other@),
    ;
}

/// The models of a sequence of values.
pub open spec fn views<T: View>(items: Seq<T>) -> Seq<T::V> {
    items.map_values(|item: T| item@)
}

/// Elementwise sameness of two sequences of models.
pub open spec fn all_alike<T: Modeled>(left: Seq<T::V>, right: Seq<T::V>) -> bool {
    &&& left.len() == right.len()
    &&& forall|i: int| 0 <= i < left.len() ==> T::alike(#[trigger] left[i], right[i])
}

/// Copies every value of a list.
pub fn duplicate_all<T: Modeled>(items: &Vec<T>) -> (copies: Vec<T>)
    ensures
        views(copies@) == views(items@),
{
    let mut copies: Vec<T> = Vec::new();
    let mut i: usize = 0;
    while i < items.len()
        invariant
            i <= items.len(),
            views(copies@) == views(items@.take(i as int)),
        decreases items.len() - i,
    {
        copies.push(items[i].duplicate());
        proof {
            assert(items@.take(i + 1) =~= items@.take(i as int).push(items@[i as int]));
            assert(views(copies@) =~= views(items@.take(i as int)).push(items@[i as int]@));
            assert(views(items@.take(i + 1)) =~= views(items@.take(i as int)).push(items@[i as int]@));
        }
        i += 1;
    }
    assert(items@.take(i as int) =~= items@);
    copies
}

/// Compares two lists element by element.
pub fn same_all<T: Modeled>(left: &Vec<T>, right: &Vec<T>) -> (equal: bool)
    ensures
        equal == all_alike::<T>(views(left@), views(right@)),
{
    if left.len() != right.len() {
        return false;
    }
    let mut i: usize = 0;
    while i < left.len()
        invariant
            left.len() == right.len(),
            i <= left.len(),
            forall|k: int| 0 <= k < i ==> T::alike(#[trigger] views(left@)[k], views(right@)[k]),
        decreases left.len() - i,
    {
        if !left[i].same(&right[i]) {
            assert(!T::alike(views(left@)[i as int], views(right@)[i as int]));
            return false;
        }
        i += 1;
    }
    true
}

impl Modeled for String {
    open spec fn alike(left: Seq<char>, right: Seq<char>) -> bool {
        left == right
    }

    fn duplicate(&self) -> (copy: Self) {
        self.clone()
    }

    fn same(&self, other: &Self) -> (equal: bool) {
        *self == *other
    }
}

impl Modeled for u32 {
    open spec fn alike(left: u32, right: u32) -> bool {
        left == right
    }

    fn duplicate(&self) -> (copy: Self) {
        *self
    }

    fn same(&self, other: &Self) -> (equal: bool) {
        *self == *other
    }
}

impl Modeled for u64 {
    open spec fn alike(left: u64, right: u64) -> bool {
        left == right
    }

    fn duplicate(&self) -> (copy: Self) {
        *self
    }

    fn same(&self, other: &Self) -> (equal: bool) {
        *self == *other
    }
}

/// Copies an optional text.
pub fn duplicate_text(text: &Option<String>) -> (copy: Option<String>)
    ensures
        text_view(copy) == text_view(*text),
{
    match text {
        Some(value) => Some(value.clone()),
        None => None,
    }
}

/// The model of an optional text.
pub open spec fn text_view(text: Option<String>) -> Option<Seq<char>> {
    match text {
        Some(value) => Some(value@),
        None => None,
    }
}

/// Compares two optional texts.
pub fn same_text(left: &Option<String>, right: &Option<String>) -> (equal: bool)
    ensures
        equal == (text_view(*left) == text_view(*right)),
{
    match (left, right) {
        (Some(a), Some(b)) => *a == *b,
        (None, None) => true,
        _ => false,
    }
}

/// The model of an optional value.
pub open spec fn optional<T: View>(item: Option<T>) -> Option<T::V> {
    match item {
        Some(value) => Some(value@),
        None => None,
    }
}

/// Sameness of two optional models.
pub open spec fn optional_alike<T: Modeled>(left: Option<T::V>, right: Option<T::V>) -> bool {
    match (left, right) {
        (Some(a), Some(b)) => T::alike(a, b),
        (None, None) => true,
        _ => false,
    }
}

/// Copies an optional value.
pub fn duplicate_optional<T: Modeled>(item: &Option<T>) -> (copy: Option<T>)
    ensures
        optional(copy) == optional(*item),
{
    match item {
        Some(value) => Some(value.duplicate()),
        None => None,
    }
}

/// Compares two optional values.
pub fn same_optional<T: Modeled>(left: &Option<T>, right: &Option<T>) -> (equal: bool)
    ensures
        equal == optional_alike::<T>(optional(*left), optional(*right)),
{
    match (left, right) {
        (Some(a), Some(b)) => a.same(b),
        (None, None) => true,
        _ => false,
    }
}

/// Compares two optional numbers.
pub fn same_number(left: Option<u64>, right: Option<u64>) -> (equal: bool)
    ensures
        equal == (left == right),
{
    match (left, right) {
        (Some(a), Some(b)) => a == b,
        (None, None) => true,
        _ => false,
    }
}

/// The first position that passes a test.
pub open spec fn first<T>(items: Seq<T>, test: spec_fn(T) -> bool) -> Option<int>
    decreases items.len(),
{
    if items.len() == 0 {
        None
    } else {
        match first(items.drop_last(), test) {
            Some(index) => Some(index),
            None => if test(items.last()) {
                Some(items.len() - 1)
            } else {
                None
            },
        }
    }
}

/// A position that passes a test, and before which none does, is the first.
pub proof fn lemma_first<T>(items: Seq<T>, test: spec_fn(T) -> bool, index: int)
    requires
        0 <= index <= items.len(),
        forall|k: int| 0 <= k < index ==> !test(#[trigger] items[k]),
        index < items.len() ==> test(items[index]),
    ensures
        first(items, test) == if index < items.len() {
            Some(index)
        } else {
            None::<int>
        },
    decreases items.len(),
{
    if items.len() > 0 {
        let rest = items.drop_last();
        if index < items.len() {
            assert forall|k: int| 0 <= k < index implies !test(#[trigger] rest[k]) by {
                assert(rest[k] == items[k]);
            }
            if index < rest.len() {
                assert(rest[index] == items[index]);
            }
            lemma_first(rest, test, index);
        } else {
            assert forall|k: int| 0 <= k < rest.len() implies !test(#[trigger] rest[k]) by {
                assert(rest[k] == items[k]);
            }
            lemma_first(rest, test, rest.len() as int);
            assert(!test(items[items.len() - 1]));
        }
    }
}

/// What is found first passes the test, and nothing before it does.
pub proof fn lemma_first_found<T>(items: Seq<T>, test: spec_fn(T) -> bool)
    ensures
        match first(items, test) {
            Some(index) => {
                &&& 0 <= index < items.len()
                &&& test(items[index])
                &&& forall|k: int| 0 <= k < index ==> !test(#[trigger] items[k])
            },
            None => forall|k: int| 0 <= k < items.len() ==> !test(#[trigger] items[k]),
        },
    decreases items.len(),
{
    if items.len() > 0 {
        let rest = items.drop_last();
        lemma_first_found(rest, test);
        assert forall|k: int| 0 <= k < rest.len() implies rest[k] == items[k] by {}
        match first(rest, test) {
            Some(index) => {
                assert forall|k: int| 0 <= k < index implies !test(#[trigger] items[k]) by {
                    assert(rest[k] == items[k]);
                }
            },
            None => {
                assert forall|k: int| 0 <= k < rest.len() implies !test(#[trigger] items[k]) by {
                    assert(rest[k] == items[k]);
                }
            },
        }
    }
}

/// The items that pass a test, in their order.
pub open spec fn selected<T>(items: Seq<T>, test: spec_fn(T) -> bool) -> Seq<T>
    decreases items.len(),
{
    if items.len() == 0 {
        seq![]
    } else if test(items.last()) {
        selected(items.drop_last(), test).push(items.last())
    } else {
        selected(items.drop_last(), test)
    }
}

/// Selecting from one more item.
pub proof fn lemma_selected_step<T>(items: Seq<T>, test: spec_fn(T) -> bool, index: int)
    requires
        0 <= index < items.len(),
    ensures
        selected(items.take(index + 1), test) == if test(items[index]) {
            selected(items.take(index), test).push(items[index])
        } else {
            selected(items.take(index), test)
        },
{
    assert(items.take(index + 1).drop_last() =~= items.take(index));
}

/// What is selected comes from the items and passes the test, and everything that
/// does so is selected.
pub proof fn lemma_selected_contains<T>(items: Seq<T>, test: spec_fn(T) -> bool, item: T)
    ensures
        selected(items, test).contains(item) <==> items.contains(item) && test(item),
    decreases items.len(),
{
    if items.len() > 0 {
        let rest = items.drop_last();
        let earlier = selected(rest, test);
        lemma_selected_contains(rest, test, item);
        if earlier.contains(item) {
            let k = choose|k: int| 0 <= k < earlier.len() && earlier[k] == item;
            assert(selected(items, test)[k] == item);
        }
        if rest.contains(item) {
            let k = choose|k: int| 0 <= k < rest.len() && rest[k] == item;
            assert(items[k] == item);
        }
        if item == items.last() {
            assert(items[items.len() - 1] == item);
            if test(item) {
                assert(selected(items, test)[earlier.len() as int] == item);
            }
        } else {
            if items.contains(item) {
                let k = choose|k: int| 0 <= k < items.len() && items[k] == item;
                assert(rest[k] == item);
            }
            if selected(items, test).contains(item) {
                let all = selected(items, test);
                let k = choose|k: int| 0 <= k < all.len() && all[k] == item;
                assert(earlier[k] == item);
            }
        }
    }
}

/// A selection is the items that pass the test, in their order.
pub proof fn selections_are_filters<T>(items: Seq<T>, test: spec_fn(T) -> bool)
    ensures
        selected(items, test) == items.filter(test),
    decreases items.len(),
{
    reveal(Seq::filter);
    if items.len() > 0 {
        selections_are_filters(items.drop_last(), test);
    }
}

} // verus!
