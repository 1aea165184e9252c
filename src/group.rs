//! The grouper: a roster split into consecutive groups of four.

use vstd::prelude::*;

verus! {

/// Number of records in a group.
pub const GROUP_SIZE: usize = 4;

/// The groups' contents, one after another.
pub open spec fn concat<T>(gs: Seq<Seq<T>>) -> Seq<T>
    decreases gs.len(),
{
    if gs.len() == 0 {
        Seq::empty()
    } else {
        concat(gs.drop_last()) + gs.last()
    }
}

/// The contents of each group.
pub open spec fn group_views<T>(gs: Seq<Vec<T>>) -> Seq<Seq<T>> {
    gs.map_values(|g: Vec<T>| g@)
}

/// Where group `i` of a roster of `n` records ends (exclusive).
pub open spec fn group_end(i: int, n: int) -> int {
    if 4 * i + 4 <= n {
        4 * i + 4
    } else {
        n
    }
}

/// Number of groups of a roster of `n` records: `n / 4` rounded up.
pub open spec fn group_count(n: nat) -> nat {
    (n + 3) / 4
}

/// Splits `items` into consecutive groups of four, in order; the last group
/// holds the remaining one to four items. No items give no groups.
pub fn group_records<T>(items: Vec<T>) -> (groups: Vec<Vec<T>>)
    ensures
        groups@.len() == group_count(items@.len()),
        forall|i: int|
            0 <= i < groups@.len() ==> (#[trigger] groups@[i])@ == items@.subrange(
                4 * i,
                group_end(i, items@.len() as int),
            ),
        concat(group_views(groups@)) == items@,
{
    let ghost all = items@;
    let ghost n = items@.len() as int;
    let mut rest = items;
    let mut groups: Vec<Vec<T>> = Vec::new();
    let ghost c: int = 0;
    assert(all.subrange(0, n) =~= all);
    while rest.len() > 0
        invariant
            0 <= c <= n,
            rest@.len() > 0 ==> c == 4 * groups@.len(),
            groups@.len() == 0 ==> c == 0,
            groups@.len() > 0 ==> c == group_end(groups@.len() - 1, n),
            n == all.len(),
            rest@ == all.subrange(c, n),
            rest@.len() > 0 ==> groups@.len() < group_count(n as nat),
            rest@.len() == 0 ==> groups@.len() == group_count(n as nat),
            forall|i: int|
                0 <= i < groups@.len() ==> (#[trigger] groups@[i])@ == all.subrange(
                    4 * i,
                    group_end(i, n),
                ),
            concat(group_views(groups@)) == all.subrange(0, c),
        decreases rest@.len(),
    {
        let ghost k = groups@.len() as int;
        let ghost before = groups@;
        if rest.len() > GROUP_SIZE {
            let tail = rest.split_off(GROUP_SIZE);
            groups.push(rest);
            rest = tail;
            assert(group_end(k, n) == 4 * k + 4);
        } else {
            groups.push(rest);
            rest = Vec::new();
            assert(group_end(k, n) == n);
        }
        assert(group_views(groups@).drop_last() =~= group_views(before));
        assert(all.subrange(0, 4 * k) + all.subrange(4 * k, group_end(k, n)) =~= all.subrange(
            0,
            group_end(k, n),
        ));
        proof {
            c = group_end(k, n);
        }
    }
    groups
}

/// Every group but the last holds four records; the last holds `n % 4`,
/// or four when four divides `n`.
pub proof fn lemma_group_sizes(n: nat, i: int)
    requires
        0 <= i < group_count(n),
    ensures
        i < group_count(n) - 1 ==> group_end(i, n as int) - 4 * i == 4,
        i == group_count(n) - 1 ==> group_end(i, n as int) - 4 * i == (if n % 4 == 0 {
            4
        } else {
            n % 4
        }),
{
}

} // verus!
