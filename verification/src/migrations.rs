//! The versions of the database schema, and which steps lead to the newest.

use vstd::prelude::*;

verus! {

/// The versions that migrations lead to, in the order in which they are run.
pub open spec fn versions() -> Seq<i64> {
    seq![1i64, 2i64, 3i64]
}

/// The newest version of the schema.
pub open spec fn newest() -> i64 {
    3
}

/// The version that databases of the earlier migration tool have.
pub open spec fn legacy_version() -> i64 {
    2
}

/// The versions of a sequence that are newer than `current`, in order.
pub open spec fn newer(all: Seq<i64>, current: i64) -> Seq<i64>
    decreases all.len(),
{
    if all.len() == 0 {
        Seq::empty()
    } else {
        let before = newer(all.drop_last(), current);
        if all.last() > current {
            before.push(all.last())
        } else {
            before
        }
    }
}

/// The version that a database counts as: one without a version that the
/// earlier tool left its table in has that tool's last version.
pub open spec fn starting_version(version: i64, has_legacy_table: bool) -> i64 {
    if version == 0 && has_legacy_table {
        legacy_version()
    } else {
        version
    }
}

/// The version to stamp a database with before any migration, if any.
pub fn legacy_stamp(version: i64, has_legacy_table: bool) -> (r: Option<i64>)
    ensures
        match r {
            Some(v) => version == 0 && has_legacy_table && v == starting_version(
                version,
                has_legacy_table,
            ),
            None => starting_version(version, has_legacy_table) == version && !(version == 0
                && has_legacy_table),
        },
{
    if version == 0 && has_legacy_table {
        Some(2)
    } else {
        None
    }
}

/// The migrations to run on a database, by the version each leads to.
pub fn pending_versions(current: i64) -> (r: Vec<i64>)
    ensures
        r@ == newer(versions(), current),
{
    let all: Vec<i64> = vec![1i64, 2i64, 3i64];
    assert(all@ =~= versions());
    let mut out: Vec<i64> = Vec::new();
    let mut i: usize = 0;
    assert(all@.take(0) =~= Seq::empty());
    while i < all.len()
        invariant
            i <= all@.len(),
            out@ == newer(all@.take(i as int), current),
        decreases all@.len() - i,
    {
        assert(all@.take(i + 1).drop_last() =~= all@.take(i as int));
        if all[i] > current {
            out.push(all[i]);
        }
        i = i + 1;
    }
    assert(all@.take(i as int) =~= all@);
    out
}

/// The pending migrations of a database, by its version.
pub proof fn lemma_newer(current: i64)
    ensures
        newer(versions(), current) == (if current < 1 {
            seq![1i64, 2i64, 3i64]
        } else if current < 2 {
            seq![2i64, 3i64]
        } else if current < 3 {
            seq![3i64]
        } else {
            Seq::empty()
        }),
{
    reveal_with_fuel(newer, 4);
    let all = versions();
    assert(all.drop_last() =~= seq![1i64, 2i64]);
    assert(all.drop_last().drop_last() =~= seq![1i64]);
    assert(all.drop_last().drop_last().drop_last() =~= Seq::<i64>::empty());
    assert(newer(all, current) =~= (if current < 1 {
        seq![1i64, 2i64, 3i64]
    } else if current < 2 {
        seq![2i64, 3i64]
    } else if current < 3 {
        seq![3i64]
    } else {
        Seq::empty()
    }));
}

/// Migrations go upwards, one version at a time in their order, from behind the
/// current version to the newest; a database that is there already gets none.
pub proof fn lemma_upwards(current: i64)
    ensures
        ({
            let steps = newer(versions(), current);
            &&& forall|i: int, j: int| 0 <= i < j < steps.len() ==> steps[i] < steps[j]
            &&& forall|i: int| 0 <= i < steps.len() ==> current < #[trigger] steps[i]
            &&& current < newest() ==> steps.len() > 0 && steps.last() == newest()
            &&& current >= newest() ==> steps.len() == 0
        }),
{
    lemma_newer(current);
}

/// A database on which the first of the pending migrations were run, each of
/// which sets its version, has the others still to come.
pub proof fn lemma_resumes(current: i64, run: int)
    requires
        0 < run <= newer(versions(), current).len(),
    ensures
        newer(versions(), newer(versions(), current)[run - 1]) == newer(versions(), current).skip(
            run,
        ),
{
    lemma_newer(current);
    let steps = newer(versions(), current);
    lemma_newer(steps[run - 1]);
    assert(newer(versions(), steps[run - 1]) =~= steps.skip(run));
}

/// A database of the earlier tool gets the migrations behind that tool's last
/// version and no other.
pub proof fn lemma_legacy()
    ensures
        newer(versions(), starting_version(0, true)) == seq![3i64],
{
    lemma_newer(legacy_version());
}

/// Only a database without a version that has the earlier tool's table counts as
/// having another version than its own: that tool's last.
pub proof fn lemma_starting_version(version: i64, has_legacy_table: bool)
    ensures
        version == 0 && has_legacy_table ==> starting_version(version, has_legacy_table) == 2,
        version != 0 || !has_legacy_table ==> starting_version(version, has_legacy_table)
            == version,
{
}

} // verus!
