use vstd::prelude::*;

verus! {

/// Identifier of a unit: its index in the unit table.
pub type UnitId = usize;

/// A service unit as the activation core sees it: a name, the units that must
/// be started first (`after`) and the units it unblocks once started (`before`).
#[derive(Clone, Debug)]
pub struct Unit {
    pub name: String,
    pub after: Vec<UnitId>,
    pub before: Vec<UnitId>,
}

/// `i` names a unit of `units` whose `after` set is empty.
pub open spec fn is_root(units: Seq<Unit>, i: int) -> bool {
    0 <= i < units.len() && units[i].after@.len() == 0
}

/// The units with no prerequisites, in table order.
pub fn root_units(units: &Vec<Unit>) -> (r: Vec<UnitId>)
    ensures
        forall|k: int| 0 <= k < r@.len() ==> is_root(units@, r@[k] as int),
        forall|k: int, l: int| 0 <= k < l < r@.len() ==> r@[k] < r@[l],
        forall|i: int| is_root(units@, i) ==> r@.contains(i as usize),
{
    let mut r: Vec<UnitId> = Vec::new();
    let mut i: usize = 0;
    while i < units.len()
        invariant
            i <= units@.len(),
            forall|k: int| 0 <= k < r@.len() ==> is_root(units@, r@[k] as int) && r@[k] < i,
            forall|k: int, l: int| 0 <= k < l < r@.len() ==> r@[k] < r@[l],
            forall|j: int| 0 <= j < i && is_root(units@, j) ==> r@.contains(j as usize),
        decreases units@.len() - i,
    {
        if units[i].after.len() == 0 {
            let ghost prev = r@;
            r.push(i);
            assert(r@[r@.len() - 1] == i);
            assert forall|j: int| 0 <= j < i && is_root(units@, j) implies r@.contains(j as usize) by {
                let k = choose|k: int| 0 <= k < prev.len() && prev[k] == j as usize;
                assert(r@[k] == j as usize);
            }
        }
        i = i + 1;
    }
    r
}

} // verus!
