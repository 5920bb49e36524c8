//! Correlation of the local sets with the remote list of sets: which local
//! sets the remote catalog covers, in the remote's order.

use vstd::prelude::*;

use crate::distance::{
    closest_index, edit_distance, first_min_index, is_closest, is_first_min,
    lemma_closest_index_is, levenshtein,
};
use crate::hall_of_beorn::CardSet;
use crate::octgn::OctgnSet;
use crate::parallel::par_map;
use crate::resolve::{opt_view, EmptyCandidateSet};

verus! {

/// Set names this many edits apart, or more, are not taken for the same set.
pub const MAX_SET_LEVENSHTEIN: usize = 5;

pub open spec fn set_names(sets: Seq<OctgnSet>) -> Seq<Seq<char>> {
    sets.map_values(|s: OctgnSet| s.name@)
}

pub open spec fn remote_names(sets: Seq<CardSet>) -> Seq<Seq<char>> {
    sets.map_values(|s: CardSet| s.name@)
}

/// The local name that a remote name correlates with: the closest one, if it
/// lies under `threshold` edits.
pub open spec fn correlate_one(names: Seq<Seq<char>>, remote: Seq<char>, threshold: nat) -> Option<
    Seq<char>,
> {
    if names.len() > 0 && edit_distance(remote, names[closest_index(remote, names)]) < threshold {
        Some(names[closest_index(remote, names)])
    } else {
        None
    }
}

/// The correlated local names, one for each remote name that has one, in
/// the remote order.
pub open spec fn correlated_names(names: Seq<Seq<char>>, remotes: Seq<Seq<char>>, threshold: nat) -> Seq<
    Seq<char>,
>
    decreases remotes.len(),
{
    if remotes.len() == 0 {
        seq![]
    } else {
        let before = correlated_names(names, remotes.drop_last(), threshold);
        match correlate_one(names, remotes.last(), threshold) {
            Some(name) => before.push(name),
            None => before,
        }
    }
}

/// The sets named `name`, in their order.
pub open spec fn with_name(sets: Seq<OctgnSet>, name: Seq<char>) -> Seq<OctgnSet>
    decreases sets.len(),
{
    if sets.len() == 0 {
        seq![]
    } else if sets.last().name@ == name {
        with_name(sets.drop_last(), name).push(sets.last())
    } else {
        with_name(sets.drop_last(), name)
    }
}

/// The sets ordered by the first position at which their name appears in
/// `names`; sets whose name does not appear are left out, and sets of one
/// name keep their order.
pub open spec fn select_in_order(sets: Seq<OctgnSet>, names: Seq<Seq<char>>) -> Seq<OctgnSet>
    decreases names.len(),
{
    if names.len() == 0 {
        seq![]
    } else {
        let before = select_in_order(sets, names.drop_last());
        if names.drop_last().contains(names.last()) {
            before
        } else {
            before + with_name(sets, names.last())
        }
    }
}

/// The local sets that correlate with the remote sets, in remote order.
pub open spec fn correlation(locals: Seq<OctgnSet>, remotes: Seq<CardSet>, threshold: nat) -> Seq<
    OctgnSet,
> {
    select_in_order(locals, correlated_names(set_names(locals), remote_names(remotes), threshold))
}

/// The name of the local set closest to `remote_name`, if it lies under
/// `threshold` edits; fails when there is no local set to compare with.
pub fn closest_local_set(octgn_sets: &Vec<OctgnSet>, remote_name: &String, threshold: usize) -> (r:
    Result<Option<String>, EmptyCandidateSet>)
    ensures
        r is Err <==> octgn_sets@.len() == 0,
        r matches Ok(found) ==> opt_view(found) == correlate_one(
            set_names(octgn_sets@),
            remote_name@,
            threshold as nat,
        ),
{
    let distance_to = |octgn_set: &OctgnSet| -> (d: usize)
        ensures
            d as nat == edit_distance(remote_name@, octgn_set.name@),
        {
            levenshtein(remote_name.as_str(), octgn_set.name.as_str())
        };
    let distances = par_map(octgn_sets, distance_to);
    let ghost names = set_names(octgn_sets@);
    match first_min_index(&distances) {
        None => Err(EmptyCandidateSet),
        Some(i) => {
            proof {
                assert forall|j: int| 0 <= j < names.len() implies distances@[j] as nat
                    == edit_distance(remote_name@, #[trigger] names[j]) by {
                    assert(names[j] == octgn_sets@[j].name@);
                }
                assert(is_first_min(distances@, i as int));
                assert(is_closest(remote_name@, names, i as int));
                lemma_closest_index_is(remote_name@, names, i as int);
                assert(names[i as int] == octgn_sets@[i as int].name@);
            }
            if distances[i] < threshold {
                Ok(Some(octgn_sets[i].name.clone()))
            } else {
                Ok(None)
            }
        },
    }
}

/// Whether `names[p]` already appears before position `p`.
fn appears_before(names: &Vec<String>, p: usize) -> (r: bool)
    requires
        p < names@.len(),
    ensures
        r == names@.map_values(|n: String| n@).take(p as int).contains(names@[p as int]@),
{
    let ghost views = names@.map_values(|n: String| n@);
    let mut q: usize = 0;
    while q < p
        invariant
            p < names@.len(),
            q <= p,
            views == names@.map_values(|n: String| n@),
            forall|i: int| 0 <= i < q ==> views[i] != names@[p as int]@,
        decreases p - q,
    {
        if names[q] == names[p] {
            proof {
                assert(views.take(p as int)[q as int] == names@[p as int]@);
            }
            return true;
        }
        q = q + 1;
    }
    proof {
        if views.take(p as int).contains(names@[p as int]@) {
            let w = choose|w: int|
                0 <= w < p && views.take(p as int)[w] == names@[p as int]@;
            assert(views[w] == names@[p as int]@);
        }
    }
    false
}

/// Keeps the local sets that some remote set correlates with, under
/// `threshold` edits between the set names, and orders them as the remote
/// list orders their names. Where several remote sets correlate with one
/// name, the first of them decides its place. Fails when there are remote
/// sets but no local set to compare them with.
pub fn correlate_sets(octgn_sets: Vec<OctgnSet>, hob_sets: &Vec<CardSet>, threshold: usize) -> (r:
    Result<Vec<OctgnSet>, EmptyCandidateSet>)
    ensures
        r is Err <==> octgn_sets@.len() == 0 && hob_sets@.len() > 0,
        r matches Ok(sets) ==> sets@ == correlation(octgn_sets@, hob_sets@, threshold as nat),
{
    if octgn_sets.len() == 0 && hob_sets.len() > 0 {
        return Err(EmptyCandidateSet);
    }
    let ghost all = octgn_sets@;
    let ghost names = set_names(all);
    let ghost remotes = remote_names(hob_sets@);
    let find = |hob_set: &CardSet| -> (r: Option<String>)
        requires
            octgn_sets@.len() > 0,
        ensures
            opt_view(r) == correlate_one(set_names(octgn_sets@), hob_set.name@, threshold as nat),
        {
            match closest_local_set(&octgn_sets, &hob_set.name, threshold) {
                Ok(found) => found,
                Err(_) => None,
            }
        };
    let found = if octgn_sets.len() > 0 {
        par_map(hob_sets, find)
    } else {
        Vec::new()
    };
    let found = par_map(hob_sets, find);

    let mut recorded: Vec<String> = Vec::new();
    let mut i: usize = 0;
    while i < found.len()
        invariant
            i <= found@.len(),
            found@.len() == hob_sets@.len(),
            remotes == remote_names(hob_sets@),
            forall|j: int|
                0 <= j < found@.len() ==> opt_view(#[trigger] found@[j]) == correlate_one(
                    names,
                    hob_sets@[j].name@,
                    threshold as nat,
                ),
            recorded@.map_values(|n: String| n@) == correlated_names(
                names,
                remotes.take(i as int),
                threshold as nat,
            ),
        decreases found@.len() - i,
    {
        proof {
            assert(remotes.take(i + 1).drop_last() =~= remotes.take(i as int));
            assert(remotes.take(i + 1).last() == hob_sets@[i as int].name@);
        }
        let ghost before = recorded@;
        match &found[i] {
            Some(name) => {
                recorded.push(name.clone());
                proof {
                    assert(recorded@.map_values(|n: String| n@) =~= before.map_values(
                        |n: String| n@,
                    ).push(name@));
                }
            },
            None => {},
        }
        i = i + 1;
    }
    proof {
        assert(remotes.take(i as int) =~= remotes);
    }
    let ghost order = recorded@.map_values(|n: String| n@);

    let mut octgn_sets = octgn_sets;
    let mut slots: Vec<Option<OctgnSet>> = Vec::new();
    let n: usize = octgn_sets.len();
    let mut k: usize = 0;
    while octgn_sets.len() > 0
        invariant
            n == all.len(),
            k <= n,
            octgn_sets@ == all.skip(k as int),
            slots@.len() == k,
            forall|j: int| 0 <= j < k ==> slots@[j] == Some(all[j]),
        decreases octgn_sets@.len(),
    {
        assert(all.skip(k as int)[0] == all[k as int]);
        assert(all.skip(k as int).remove(0) =~= all.skip(k + 1));
        slots.push(Some(octgn_sets.remove(0)));
        k = k + 1;
    }

    let mut selected: Vec<OctgnSet> = Vec::new();
    let mut p: usize = 0;
    while p < recorded.len()
        invariant
            p <= recorded@.len(),
            order == recorded@.map_values(|n: String| n@),
            slots@.len() == all.len(),
            forall|j: int|
                0 <= j < all.len() ==> #[trigger] slots@[j] == if order.take(p as int).contains(
                    all[j].name@,
                ) {
                    None
                } else {
                    Some(all[j])
                },
            selected@ == select_in_order(all, order.take(p as int)),
        decreases recorded@.len() - p,
    {
        proof {
            assert(order.take(p + 1).drop_last() =~= order.take(p as int));
            assert(order.take(p + 1).last() == recorded@[p as int]@);
        }
        if !appears_before(&recorded, p) {
            let ghost before = selected@;
            let mut j: usize = 0;
            while j < slots.len()
                invariant
                    p < recorded@.len(),
                    j <= slots@.len(),
                    slots@.len() == all.len(),
                    order == recorded@.map_values(|n: String| n@),
                    !order.take(p as int).contains(recorded@[p as int]@),
                    forall|m: int|
                        0 <= m < all.len() ==> #[trigger] slots@[m] == if order.take(
                            p as int,
                        ).contains(all[m].name@) || (m < j && all[m].name@
                            == recorded@[p as int]@) {
                            None
                        } else {
                            Some(all[m])
                        },
                    selected@ == before + with_name(all.take(j as int), recorded@[p as int]@),
                decreases slots@.len() - j,
            {
                proof {
                    assert(all.take(j + 1).drop_last() =~= all.take(j as int));
                    assert(all.take(j + 1).last() == all[j as int]);
                }
                let matches = match &slots[j] {
                    Some(set) => set.name == recorded[p],
                    None => false,
                };
                if matches {
                    let taken = slots[j].take();
                    match taken {
                        Some(set) => {
                            selected.push(set);
                            proof {
                                assert(selected@ =~= before + with_name(
                                    all.take(j as int),
                                    recorded@[p as int]@,
                                ).push(all[j as int]));
                            }
                        },
                        None => {},
                    }
                }
                j = j + 1;
            }
            proof {
                let next = order.take(p + 1);
                let prev = order.take(p as int);
                assert(all.take(j as int) =~= all);
                assert forall|m: int| 0 <= m < all.len() implies #[trigger] slots@[m] == if next.contains(all[m].name@) {
                    None
                } else {
                    Some(all[m])
                } by {
                    if prev.contains(all[m].name@) {
                        let w = choose|w: int| 0 <= w < p && prev[w] == all[m].name@;
                        assert(next[w] == all[m].name@);
                    }
                    if all[m].name@ == recorded@[p as int]@ {
                        assert(next[p as int] == all[m].name@);
                    }
                    if next.contains(all[m].name@) {
                        let w = choose|w: int| 0 <= w < p + 1 && next[w] == all[m].name@;
                        if w < p {
                            assert(prev[w] == all[m].name@);
                        }
                    }
                }
            }
        } else {
            proof {
                let next = order.take(p + 1);
                let prev = order.take(p as int);
                assert forall|m: int| 0 <= m < all.len() implies next.contains(
                    all[m].name@,
                ) == prev.contains(all[m].name@) by {
                    if prev.contains(all[m].name@) {
                        let w = choose|w: int| 0 <= w < p && prev[w] == all[m].name@;
                        assert(next[w] == all[m].name@);
                    }
                    if next.contains(all[m].name@) {
                        let w = choose|w: int| 0 <= w < p + 1 && next[w] == all[m].name@;
                        if w < p {
                            assert(prev[w] == all[m].name@);
                        } else {
                            let v = choose|v: int| 0 <= v < p && prev[v] == recorded@[p as int]@;
                            assert(prev[v] == all[m].name@);
                        }
                    }
                }
            }
        }
        p = p + 1;
    }
    proof {
        assert(order.take(p as int) =~= order);
    }
    Ok(selected)
}

/// A local and a remote set whose names lie `threshold` or more edits apart
/// do not correlate; names fewer edits apart, one less included, do.
pub proof fn lemma_threshold_is_strict(local: OctgnSet, remote: CardSet, threshold: nat)
    ensures
        edit_distance(remote.name@, local.name@) >= threshold ==> correlation(
            seq![local],
            seq![remote],
            threshold,
        ) == Seq::<OctgnSet>::empty(),
        edit_distance(remote.name@, local.name@) < threshold ==> correlation(
            seq![local],
            seq![remote],
            threshold,
        ) == seq![local],
{
    let locals = seq![local];
    let names = set_names(locals);
    let remotes = remote_names(seq![remote]);
    assert(names =~= seq![local.name@]);
    assert(remotes =~= seq![remote.name@]);
    assert(is_closest(remote.name@, names, 0));
    lemma_closest_index_is(remote.name@, names, 0);
    assert(remotes.drop_last() =~= Seq::<Seq<char>>::empty());
    assert(correlated_names(names, remotes.drop_last(), threshold) =~= Seq::<Seq<char>>::empty());
    assert(remotes.last() == remote.name@);
    assert(names[0] == local.name@);
    let order = correlated_names(names, remotes, threshold);
    if edit_distance(remote.name@, local.name@) < threshold {
        assert(order =~= seq![local.name@]);
        assert(order.drop_last() =~= Seq::<Seq<char>>::empty());
        assert(locals.drop_last() =~= Seq::<OctgnSet>::empty());
        assert(with_name(locals.drop_last(), local.name@) =~= Seq::<OctgnSet>::empty());
        assert(select_in_order(locals, order.drop_last()) =~= Seq::<OctgnSet>::empty());
        assert(with_name(locals, local.name@) =~= seq![local]);
        assert(correlation(locals, seq![remote], threshold) =~= seq![local]);
    } else {
        assert(order =~= Seq::<Seq<char>>::empty());
    }
}

} // verus!
