//! Which schema migrations still need to run: migration `i` of a list has
//! version `i + 1` and runs when no migration of that version is recorded,
//! the version being recorded as it runs.

use vstd::prelude::*;

verus! {

/// The version of the migration at position `i`: `i + 1`, or the largest
/// `i64` when that does not fit.
pub open spec fn migration_version(i: int) -> i64 {
    if i + 1 <= i64::MAX {
        (i + 1) as i64
    } else {
        i64::MAX
    }
}

/// After deciding the first `k` migrations, starting from the recorded
/// versions `applied`: the positions that run, in order, and the versions
/// then recorded.
pub open spec fn migration_plan(k: nat, applied: Seq<i64>) -> (Seq<int>, Seq<i64>)
    decreases k,
{
    if k == 0 {
        (seq![], applied)
    } else {
        let (runs, recorded) = migration_plan((k - 1) as nat, applied);
        let v = migration_version(k - 1);
        if recorded.contains(v) {
            (runs, recorded)
        } else {
            (runs.push(k - 1), recorded.push(v))
        }
    }
}

/// The version of the migration at position `i`.
pub fn version_of(i: usize) -> (r: i64)
    ensures
        r == migration_version(i as int),
{
    let n = i as u64;
    if n < 9_223_372_036_854_775_807u64 {
        (n + 1) as i64
    } else {
        i64::MAX
    }
}

fn contains_version(vs: &Vec<i64>, v: i64) -> (r: bool)
    ensures
        r == vs@.contains(v),
{
    let mut i: usize = 0;
    while i < vs.len()
        invariant
            i <= vs@.len(),
            forall|q: int| 0 <= q < i ==> vs@[q] != v,
        decreases vs@.len() - i,
    {
        if vs[i] == v {
            assert(vs@[i as int] == v);
            return true;
        }
        i = i + 1;
    }
    false
}

/// The positions, in order, of the migrations among `count` that still
/// need to run when the versions `applied` are recorded.
pub fn pending_migrations(count: usize, applied: &Vec<i64>) -> (r: Vec<usize>)
    ensures
        r@.map_values(|k: usize| k as int) == migration_plan(count as nat, applied@).0,
{
    let mut recorded: Vec<i64> = applied.clone();
    assert(recorded@ =~= applied@);
    let mut runs: Vec<usize> = Vec::new();
    let mut i: usize = 0;
    assert(runs@.map_values(|k: usize| k as int) =~= Seq::<int>::empty());
    while i < count
        invariant
            i <= count,
            (runs@.map_values(|k: usize| k as int), recorded@) == migration_plan(i as nat, applied@),
        decreases count - i,
    {
        let v = version_of(i);
        if !contains_version(&recorded, v) {
            let ghost before = runs@.map_values(|k: usize| k as int);
            runs.push(i);
            recorded.push(v);
            assert(runs@.map_values(|k: usize| k as int) =~= before.push(i as int));
        }
        i = i + 1;
    }
    runs
}

} // verus!
