//! Tables of values by name.

use vstd::prelude::*;
use crate::text;

verus! {

/// The place of a name in a table.
pub open spec fn position<V>(table: Seq<(Seq<char>, V)>, name: Seq<char>) -> Option<int>
    decreases table.len(),
{
    if table.len() == 0 {
        None
    } else {
        match position(table.drop_last(), name) {
            Some(i) => Some(i),
            None => if table.last().0 == name {
                Some(table.len() - 1)
            } else {
                None
            },
        }
    }
}

/// What a table says of a name.
pub open spec fn known<V>(table: Seq<(Seq<char>, V)>, name: Seq<char>) -> Option<V> {
    match position(table, name) {
        Some(i) => Some(table[i].1),
        None => None,
    }
}

/// A table that does not know a name has no line for it.
pub proof fn lemma_unknown<V>(table: Seq<(Seq<char>, V)>, name: Seq<char>)
    requires
        known(table, name) is None,
    ensures
        forall|j: int| 0 <= j < table.len() ==> (#[trigger] table[j]).0 != name,
    decreases table.len(),
{
    if table.len() > 0 {
        lemma_unknown(table.drop_last(), name);
        assert forall|j: int| 0 <= j < table.len() implies (#[trigger] table[j]).0 != name by {
            if j < table.len() - 1 {
                assert(table.drop_last()[j] == table[j]);
            }
        }
    }
}

/// A place in the front of a table is one in the table.
proof fn lemma_position_stays<V>(table: Seq<(Seq<char>, V)>, n: int, name: Seq<char>)
    requires
        0 <= n <= table.len(),
        position(table.take(n), name) is Some,
    ensures
        position(table, name) == position(table.take(n), name),
    decreases table.len() - n,
{
    if n < table.len() {
        assert(table.take(n + 1).drop_last() =~= table.take(n));
        lemma_position_stays(table, n + 1, name);
    } else {
        assert(table.take(n) =~= table);
    }
}

/// Finds a name in a table.
pub fn find<V: DeepView>(table: &Vec<(String, V)>, name: &str) -> (r: Option<usize>)
    ensures
        r is Some <==> position(table.deep_view(), name@) is Some,
        r matches Some(i) ==> position(table.deep_view(), name@) == Some(i as int) && i
            < table@.len(),
{
    let ghost all = table.deep_view();
    let mut i: usize = 0;
    assert(all.take(0) =~= Seq::empty());
    while i < table.len()
        invariant
            i <= table@.len(),
            all == table.deep_view(),
            position(all.take(i as int), name@) is None,
        decreases table@.len() - i,
    {
        assert(all.take(i + 1).drop_last() =~= all.take(i as int));
        assert(all[i as int].0 == table@[i as int].0@);
        if text::same_text(table[i].0.as_str(), name) {
            proof {
                lemma_position_stays(all, i + 1, name@);
            }
            return Some(i);
        }
        i += 1;
    }
    assert(all.take(i as int) =~= all);
    None
}

} // verus!
