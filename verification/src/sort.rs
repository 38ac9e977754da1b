//! The order of names, and sorting by name.
//!
//! Names are ordered as their bytes are: the first byte that differs
//! decides, and a name comes before every name that it is a proper
//! beginning of.

use vstd::prelude::*;
use crate::file::attributes::Text;

verus! {

/// Whether the bytes `left` come before the bytes `right`.
pub open spec fn precedes(left: Seq<u8>, right: Seq<u8>) -> bool
    decreases left.len(),
{
    if right.len() == 0 {
        false
    } else if left.len() == 0 {
        true
    } else if left[0] != right[0] {
        left[0] < right[0]
    } else {
        precedes(left.skip(1), right.skip(1))
    }
}

/// Bytes that begin alike are ordered as what follows the common beginning.
pub proof fn lemma_precedes_after_common(left: Seq<u8>, right: Seq<u8>, common: int)
    requires
        0 <= common <= left.len(),
        common <= right.len(),
        forall|i: int| 0 <= i < common ==> left[i] == right[i],
    ensures
        precedes(left, right) == precedes(left.skip(common), right.skip(common)),
    decreases common,
{
    if common == 0 {
        assert(left.skip(0) =~= left);
        assert(right.skip(0) =~= right);
    } else {
        lemma_precedes_after_common(left.skip(1), right.skip(1), common - 1);
        assert(left.skip(1).skip(common - 1) =~= left.skip(common));
        assert(right.skip(1).skip(common - 1) =~= right.skip(common));
    }
}

/// Of two names, at most one comes before the other, and exactly one
/// does unless they are the same.
pub proof fn lemma_precedes_is_total_order(left: Seq<u8>, right: Seq<u8>)
    ensures
        !(precedes(left, right) && precedes(right, left)),
        left != right ==> precedes(left, right) || precedes(right, left),
        !precedes(left, left),
    decreases left.len(),
{
    if left.len() > 0 {
        lemma_precedes_is_total_order(left.skip(1), left.skip(1));
    }
    if left.len() > 0 && right.len() > 0 {
        if left[0] == right[0] {
            lemma_precedes_is_total_order(left.skip(1), right.skip(1));
            if left.skip(1) == right.skip(1) {
                assert(left =~= seq![left[0]] + left.skip(1));
                assert(right =~= seq![right[0]] + right.skip(1));
            }
        }
    } else if left.len() == 0 && right.len() == 0 {
        assert(left =~= right);
    }
}

/// A name that comes before a second that comes before a third comes before the third.
pub proof fn lemma_precedes_is_transitive(first: Seq<u8>, second: Seq<u8>, third: Seq<u8>)
    requires
        precedes(first, second),
        precedes(second, third),
    ensures
        precedes(first, third),
    decreases first.len(),
{
    if first.len() > 0 && second.len() > 0 && third.len() > 0 {
        if first[0] == second[0] && second[0] == third[0] {
            lemma_precedes_is_transitive(first.skip(1), second.skip(1), third.skip(1));
        }
    }
}

/// Whether the bytes `left` come before the bytes `right`.
pub fn bytes_precede(left: &[u8], right: &[u8]) -> (r: bool)
    ensures
        r == precedes(left@, right@),
{
    let mut index: usize = 0;
    while index < left.len() && index < right.len()
        invariant
            index <= left@.len(),
            index <= right@.len(),
            forall|i: int| 0 <= i < index ==> left@[i] == right@[i],
        decreases left@.len() - index,
    {
        if left[index] != right[index] {
            proof {
                lemma_precedes_after_common(left@, right@, index as int);
            }
            return left[index] < right[index];
        }
        index = index + 1;
    }
    proof {
        lemma_precedes_after_common(left@, right@, index as int);
    }
    index < right.len()
}

/// Things that have a name.
pub trait Named {
    /// The bytes of the name.
    spec fn spec_name(&self) -> Seq<u8>;

    /// The name.
    fn name(&self) -> (r: &Text)
        ensures
            r@ == self.spec_name(),
    ;
}

/// Where to put something of the given name into a list that is sorted
/// by name: behind everything whose name does not come after the given one.
pub open spec fn insert_position<T: Named>(list: Seq<T>, name: Seq<u8>) -> nat
    decreases list.len(),
{
    if list.len() == 0 {
        0
    } else if precedes(name, list.last().spec_name()) {
        insert_position(list.drop_last(), name)
    } else {
        list.len()
    }
}

/// The list sorted by name. What has the same name stays in the order that it was in.
pub open spec fn sorted_by_name<T: Named>(list: Seq<T>) -> Seq<T>
    decreases list.len(),
{
    if list.len() == 0 {
        Seq::empty()
    } else {
        let sorted = sorted_by_name(list.drop_last());
        sorted.insert(insert_position(sorted, list.last().spec_name()) as int, list.last())
    }
}

/// Whether no name in the list comes before the name in front of it.
pub open spec fn is_sorted_by_name<T: Named>(list: Seq<T>) -> bool {
    forall|i: int|
        0 < i < list.len() ==> !precedes(
            (#[trigger] list[i]).spec_name(),
            list[i - 1].spec_name(),
        )
}

/// Whether each name in the list comes after the name in front of it.
pub open spec fn is_strictly_sorted_by_name<T: Named>(list: Seq<T>) -> bool {
    forall|i: int|
        0 < i < list.len() ==> precedes(
            list[i - 1].spec_name(),
            (#[trigger] list[i]).spec_name(),
        )
}

/// Everything from the insert position on has a name that comes after
/// the given one, and what stands before the position, if anything, has not.
pub proof fn lemma_insert_position<T: Named>(list: Seq<T>, name: Seq<u8>)
    ensures
        insert_position(list, name) <= list.len(),
        forall|i: int|
            insert_position(list, name) <= i < list.len() ==> precedes(
                name,
                (#[trigger] list[i]).spec_name(),
            ),
        insert_position(list, name) > 0 ==> !precedes(
            name,
            list[insert_position(list, name) - 1].spec_name(),
        ),
    decreases list.len(),
{
    if list.len() > 0 && precedes(name, list.last().spec_name()) {
        let front = list.drop_last();
        lemma_insert_position(front, name);
        assert forall|i: int| insert_position(list, name) <= i < list.len() implies precedes(
            name,
            (#[trigger] list[i]).spec_name(),
        ) by {
            if i < front.len() {
                assert(list[i] == front[i]);
            }
        }
    }
}

/// The sorted list is sorted, and holds what the list holds, each thing as often.
pub proof fn lemma_sorted_by_name<T: Named>(list: Seq<T>)
    ensures
        is_sorted_by_name(sorted_by_name(list)),
        sorted_by_name(list).to_multiset() == list.to_multiset(),
        sorted_by_name(list).len() == list.len(),
    decreases list.len(),
{
    broadcast use vstd::seq_lib::group_to_multiset_ensures;

    if list.len() == 0 {
        assert(list =~= Seq::<T>::empty());
    } else {
        let front = list.drop_last();
        let item = list.last();
        let sorted = sorted_by_name(front);
        lemma_sorted_by_name(front);
        lemma_insert_position(sorted, item.spec_name());
        let position = insert_position(sorted, item.spec_name()) as int;
        let result = sorted.insert(position, item);
        assert forall|i: int| 0 < i < result.len() implies !precedes(
            (#[trigger] result[i]).spec_name(),
            result[i - 1].spec_name(),
        ) by {
            if i < position {
                assert(result[i] == sorted[i] && result[i - 1] == sorted[i - 1]);
            } else if i == position {
                assert(result[i - 1] == sorted[i - 1]);
            } else if i == position + 1 {
                assert(result[i] == sorted[i - 1]);
                lemma_precedes_is_total_order(item.spec_name(), sorted[i - 1].spec_name());
            } else {
                assert(result[i] == sorted[i - 1] && result[i - 1] == sorted[i - 2]);
            }
        }
        assert(list =~= front.push(item));
        assert(result.to_multiset() =~= sorted.to_multiset().insert(item)) by {
            lemma_insert_to_multiset(sorted, position, item);
        }
        assert(front.push(item).to_multiset() =~= front.to_multiset().insert(item));
    }
}

/// What a list holds after something was put into it is what it held and that thing.
pub proof fn lemma_insert_to_multiset<T>(list: Seq<T>, position: int, item: T)
    requires
        0 <= position <= list.len(),
    ensures
        list.insert(position, item).to_multiset() == list.to_multiset().insert(item),
{
    broadcast use vstd::seq_lib::group_to_multiset_ensures;

    let front = list.take(position);
    let back = list.skip(position);
    assert(list =~= front + back);
    assert(list.insert(position, item) =~= front.push(item) + back);
    vstd::seq_lib::lemma_multiset_commutative(front, back);
    vstd::seq_lib::lemma_multiset_commutative(front.push(item), back);
    assert(front.to_multiset().insert(item).add(back.to_multiset()) =~= front.to_multiset().add(
        back.to_multiset(),
    ).insert(item));
}

/// A sorted list without two equal names is strictly sorted.
pub proof fn lemma_sorted_distinct_is_strict<T: Named>(list: Seq<T>)
    requires
        is_sorted_by_name(list),
        forall|i: int|
            0 < i < list.len() ==> (#[trigger] list[i]).spec_name() != list[i - 1].spec_name(),
    ensures
        is_strictly_sorted_by_name(list),
{
    assert forall|i: int| 0 < i < list.len() implies precedes(
        list[i - 1].spec_name(),
        (#[trigger] list[i]).spec_name(),
    ) by {
        lemma_precedes_is_total_order(list[i - 1].spec_name(), list[i].spec_name());
    }
}

/// In a strictly sorted list, each name comes before all names behind
/// it: no two names are the same.
pub proof fn lemma_strictly_sorted_all_pairs<T: Named>(list: Seq<T>, low: int, high: int)
    requires
        is_strictly_sorted_by_name(list),
        0 <= low < high < list.len(),
    ensures
        precedes(list[low].spec_name(), list[high].spec_name()),
        list[low].spec_name() != list[high].spec_name(),
    decreases high - low,
{
    if low + 1 < high {
        lemma_strictly_sorted_all_pairs(list, low, high - 1);
        assert(precedes(list[high - 1].spec_name(), list[high].spec_name()));
        lemma_precedes_is_transitive(
            list[low].spec_name(),
            list[high - 1].spec_name(),
            list[high].spec_name(),
        );
    } else {
        assert(precedes(list[high - 1].spec_name(), list[high].spec_name()));
    }
    lemma_precedes_is_total_order(list[low].spec_name(), list[low].spec_name());
}

/// Sorts the list by name. What has the same name stays in the order that it was in.
pub fn sort_by_name<T: Named>(list: Vec<T>) -> (r: Vec<T>)
    ensures
        r@ == sorted_by_name(list@),
{
    let mut rest = list;
    let mut sorted: Vec<T> = Vec::new();
    let ghost mut done: int = 0;
    while rest.len() > 0
        invariant
            0 <= done <= list@.len(),
            rest@ == list@.skip(done),
            sorted@ == sorted_by_name(list@.take(done)),
        decreases rest@.len(),
    {
        let item = rest.remove(0);
        let mut position: usize = sorted.len();
        proof {
            assert(item == list@[done]);
            assert(list@.take(done + 1).drop_last() =~= list@.take(done));
            assert(sorted@.take(position as int) =~= sorted@);
        }
        while position > 0 && bytes_precede(
            item.name().as_slice(),
            sorted[position - 1].name().as_slice(),
        )
            invariant
                position <= sorted@.len(),
                insert_position(sorted@, item.spec_name()) == insert_position(
                    sorted@.take(position as int),
                    item.spec_name(),
                ),
            decreases position,
        {
            proof {
                assert(sorted@.take(position as int).last() == sorted@[position - 1]);
                assert(sorted@.take(position as int).drop_last() =~= sorted@.take(position - 1));
            }
            position = position - 1;
        }
        proof {
            if position > 0 {
                assert(sorted@.take(position as int).last() == sorted@[position - 1]);
            }
            assert(insert_position(sorted@, item.spec_name()) == position);
            assert(rest@ =~= list@.skip(done + 1));
        }
        sorted.insert(position, item);
        proof {
            done = done + 1;
        }
    }
    proof {
        assert(list@.take(done) =~= list@);
    }
    sorted
}

} // verus!
