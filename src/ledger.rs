//! Balances as two parallel vectors of distinct account names and amounts,
//! modelled as a map from account name to amount.

use vstd::prelude::*;

verus! {

/// The balance map that a list of names and a list of amounts describe,
/// pairing them position by position.
pub open spec fn map_of(names: Seq<Seq<char>>, amounts: Seq<u64>) -> Map<Seq<char>, u64>
    decreases names.len(),
{
    if names.len() == 0 || amounts.len() == 0 {
        Map::empty()
    } else {
        map_of(names.drop_last(), amounts.drop_last()).insert(names.last(), amounts.last())
    }
}

/// No name occurs twice.
pub open spec fn distinct(names: Seq<Seq<char>>) -> bool {
    forall|i: int, j: int|
        0 <= i < names.len() && 0 <= j < names.len() && i != j ==> names[i] != names[j]
}

/// The map holds exactly the listed names, each with the amount at its position.
pub proof fn lemma_map_of(names: Seq<Seq<char>>, amounts: Seq<u64>)
    requires
        names.len() == amounts.len(),
        distinct(names),
    ensures
        forall|k: Seq<char>| map_of(names, amounts).dom().contains(k) <==> names.contains(k),
        forall|i: int|
            0 <= i < names.len() ==> map_of(names, amounts).dom().contains(#[trigger] names[i])
                && map_of(names, amounts)[names[i]] == amounts[i],
    decreases names.len(),
{
    if names.len() > 0 {
        let n0 = names.drop_last();
        let a0 = amounts.drop_last();
        lemma_map_of(n0, a0);
        assert forall|k: Seq<char>| map_of(names, amounts).dom().contains(k) <==> names.contains(k) by {
            if names.contains(k) {
                let i = choose|i: int| 0 <= i < names.len() && names[i] == k;
                if i < names.len() - 1 {
                    assert(n0[i] == k);
                }
            }
            if n0.contains(k) {
                let i = choose|i: int| 0 <= i < n0.len() && n0[i] == k;
                assert(names[i] == k);
            }
        }
        assert forall|i: int| 0 <= i < names.len() implies map_of(names, amounts).dom().contains(
            #[trigger] names[i]) && map_of(names, amounts)[names[i]] == amounts[i] by {
            if i < names.len() - 1 {
                assert(n0[i] == names[i]);
                assert(n0.contains(n0[i]));
                assert(names[i] != names.last());
            }
        }
    }
}

/// Changing the amount at one position changes that name's balance alone.
pub proof fn lemma_map_of_update(names: Seq<Seq<char>>, amounts: Seq<u64>, i: int, v: u64)
    requires
        names.len() == amounts.len(),
        distinct(names),
        0 <= i < names.len(),
    ensures
        map_of(names, amounts.update(i, v)) == map_of(names, amounts).insert(names[i], v),
    decreases names.len(),
{
    let upd = amounts.update(i, v);
    if i == names.len() - 1 {
        assert(upd.drop_last() =~= amounts.drop_last());
        assert(map_of(names, upd) =~= map_of(names, amounts).insert(names[i], v));
    } else {
        let n0 = names.drop_last();
        assert(upd.drop_last() =~= amounts.drop_last().update(i, v));
        assert(distinct(n0));
        lemma_map_of_update(n0, amounts.drop_last(), i, v);
        assert(names[i] != names.last());
        assert(map_of(names, upd) =~= map_of(names, amounts).insert(names[i], v));
    }
}

/// Appending a pair inserts it into the map.
pub proof fn lemma_map_of_push(names: Seq<Seq<char>>, amounts: Seq<u64>, k: Seq<char>, v: u64)
    requires
        names.len() == amounts.len(),
    ensures
        map_of(names.push(k), amounts.push(v)) == map_of(names, amounts).insert(k, v),
{
    assert(names.push(k).drop_last() =~= names);
    assert(amounts.push(v).drop_last() =~= amounts);
}

} // verus!
