//! Partition of sorted device descriptors into maximal fixed-size groups.
//!
//! Given per-group quotas (how many keyboards and how many pads one remapping
//! instance serves), the descriptor list is sorted and consumed left to
//! right; a group closes the moment the next descriptor would push either
//! count over its quota.  If the first unconsumed descriptor's kind has quota
//! zero the whole partition fails: every later group would fail identically,
//! and a device kind with no configuration is a configuration error.

use vstd::prelude::*;
use vstd::multiset::Multiset;
use vstd::relations::sorted_by;
use vstd::seq_lib::lemma_sorted_unique;
use crate::classify::{dev_rep, dev_reps, Device, DeviceType, device_le, lemma_rep_order_total,
    rep_le, rep_order};

verus! {

/// Grouping failed: this device's kind has quota zero.
#[derive(Debug)]
pub struct GroupError {
    pub device: Device,
}

/// How many descriptors the next group takes from `reps`: elements are
/// consumed while their kind still has remaining quota, and consumption
/// stops at the first element whose kind's quota is exhausted.
pub open spec fn take_len(reps: Seq<(int, Seq<char>)>, wk: nat, wp: nat) -> nat
    decreases reps.len(),
{
    if reps.len() == 0 {
        0
    } else if reps[0].0 == 0 {
        if wk == 0 {
            0
        } else {
            1 + take_len(reps.drop_first(), (wk - 1) as nat, wp)
        }
    } else {
        if wp == 0 {
            0
        } else {
            1 + take_len(reps.drop_first(), wk, (wp - 1) as nat)
        }
    }
}

pub proof fn lemma_take_len_le(reps: Seq<(int, Seq<char>)>, wk: nat, wp: nat)
    ensures
        take_len(reps, wk, wp) <= reps.len(),
    decreases reps.len(),
{
    if reps.len() > 0 {
        lemma_take_len_le(reps.drop_first(), (wk - 1) as nat, wp);
        lemma_take_len_le(reps.drop_first(), wk, (wp - 1) as nat);
    }
}

/// The partition of a sorted rep sequence into maximal groups, or the rep of
/// the first descriptor that cannot be consumed because its kind's quota is
/// zero.
pub open spec fn spec_groupings(reps: Seq<(int, Seq<char>)>, wk: nat, wp: nat) -> Result<
    Seq<Seq<(int, Seq<char>)>>,
    (int, Seq<char>),
>
    decreases reps.len(),
    via spec_groupings_dec
{
    if reps.len() == 0 {
        Ok(Seq::empty())
    } else {
        let t = take_len(reps, wk, wp);
        if t == 0 {
            Err(reps[0])
        } else {
            match spec_groupings(reps.skip(t as int), wk, wp) {
                Ok(rest) => Ok(seq![reps.take(t as int)] + rest),
                Err(e) => Err(e),
            }
        }
    }
}

#[via_fn]
proof fn spec_groupings_dec(reps: Seq<(int, Seq<char>)>, wk: nat, wp: nat) {
    lemma_take_len_le(reps, wk, wp);
}

/// The rep sequence of the input after the internal sort: the sequence the
/// partition is actually computed over.
pub open spec fn sorted_reps(devs: Seq<Device>) -> Seq<(int, Seq<char>)> {
    dev_reps(devs).sort_by(rep_order())
}

/// The reps of a produced group list.
pub open spec fn group_reps(groups: Seq<Vec<Device>>) -> Seq<Seq<(int, Seq<char>)>> {
    groups.map_values(|g: Vec<Device>| dev_reps(g@))
}

/// Grouping depends only on the multiset of descriptors: inputs that are
/// permutations of one another (in particular, any re-ordering seen before
/// the internal sort) produce identical groups, and re-running on the same
/// descriptor set yields the same result.
pub proof fn lemma_grouping_deterministic(v1: Seq<Device>, v2: Seq<Device>, wk: nat, wp: nat)
    requires
        dev_reps(v1).to_multiset() == dev_reps(v2).to_multiset(),
    ensures
        spec_groupings(sorted_reps(v1), wk, wp) == spec_groupings(sorted_reps(v2), wk, wp),
{
    lemma_rep_order_total();
    dev_reps(v1).lemma_sort_by_ensures(rep_order());
    dev_reps(v2).lemma_sort_by_ensures(rep_order());
    lemma_sorted_unique(sorted_reps(v1), sorted_reps(v2), rep_order());
}

/// Sorts descriptors by kind rank, then identity (selection sort).
fn sort_devices(input: Vec<Device>) -> (out: Vec<Device>)
    ensures
        dev_reps(out@) == sorted_reps(input@),
{
    let ghost orig = dev_reps(input@);
    let mut work = input;
    let mut out: Vec<Device> = Vec::new();
    proof {
        broadcast use vstd::seq_lib::group_to_multiset_ensures;
        assert(dev_reps(out@) =~= Seq::empty());
        assert(dev_reps(out@).to_multiset().add(dev_reps(work@).to_multiset())
            =~= orig.to_multiset());
    }
    while work.len() > 0
        invariant
            sorted_by(dev_reps(out@), rep_order()),
            dev_reps(out@).to_multiset().add(dev_reps(work@).to_multiset())
                == orig.to_multiset(),
            forall|i: int, j: int|
                0 <= i < out@.len() && 0 <= j < work@.len()
                    ==> rep_le(#[trigger] dev_reps(out@)[i], #[trigger] dev_reps(work@)[j]),
        decreases work.len(),
    {
        let mut mi: usize = 0;
        let mut j: usize = 1;
        proof {
            lemma_rep_order_total();
            let leq = rep_order();
            assert(leq(dev_reps(work@)[0], dev_reps(work@)[0]) || leq(
                dev_reps(work@)[0],
                dev_reps(work@)[0],
            ));
            assert(rep_le(dev_reps(work@)[0], dev_reps(work@)[0]));
        }
        while j < work.len()
            invariant
                mi < j <= work@.len(),
                work@.len() > 0,
                forall|k: int|
                    0 <= k < j ==> rep_le(dev_reps(work@)[mi as int], #[trigger] dev_reps(
                        work@,
                    )[k]),
            decreases work.len() - j,
        {
            let smaller = device_le(&work[j], &work[mi]);
            proof {
                lemma_rep_order_total();
                let leq = rep_order();
                assert(leq(dev_rep(work@[j as int]), dev_rep(work@[mi as int]))
                    == rep_le(dev_reps(work@)[j as int], dev_reps(work@)[mi as int]));
            }
            if smaller {
                proof {
                    lemma_rep_order_total();
                    let leq = rep_order();
                    assert forall|k: int| 0 <= k < j + 1 implies rep_le(
                        dev_reps(work@)[j as int],
                        #[trigger] dev_reps(work@)[k],
                    ) by {
                        if k < j {
                            assert(leq(dev_reps(work@)[j as int], dev_reps(work@)[mi as int]));
                            assert(leq(dev_reps(work@)[mi as int], dev_reps(work@)[k]));
                        } else {
                            assert(leq(dev_reps(work@)[j as int], dev_reps(work@)[k]) || leq(
                                dev_reps(work@)[k],
                                dev_reps(work@)[j as int],
                            ));
                        }
                    }
                }
                mi = j;
            } else {
                proof {
                    lemma_rep_order_total();
                    let leq = rep_order();
                    assert(leq(dev_reps(work@)[j as int], dev_reps(work@)[mi as int])
                        || leq(dev_reps(work@)[mi as int], dev_reps(work@)[j as int]));
                }
            }
            j = j + 1;
        }
        let ghost pre_work = work@;
        let ghost pre_out = out@;
        let d = work.remove(mi);
        out.push(d);
        proof {
            broadcast use vstd::seq_lib::group_to_multiset_ensures;
            lemma_rep_order_total();
            assert(dev_reps(work@) =~= dev_reps(pre_work).remove(mi as int));
            assert(dev_reps(out@) =~= dev_reps(pre_out).push(dev_rep(d)));
            assert(dev_reps(pre_work).to_multiset().remove(dev_rep(d))
                =~= dev_reps(work@).to_multiset());
            assert(dev_reps(out@).to_multiset()
                =~= dev_reps(pre_out).to_multiset().insert(dev_rep(d)));
            assert(dev_reps(out@).to_multiset().add(dev_reps(work@).to_multiset())
                =~= orig.to_multiset());
            // the pushed element keeps `out` sorted and below the remainder
            assert forall|i: int, j2: int|
                0 <= i < out@.len() && 0 <= j2 < work@.len() implies rep_le(
                #[trigger] dev_reps(out@)[i],
                #[trigger] dev_reps(work@)[j2],
            ) by {
                let jj = if j2 < mi as int {
                    j2
                } else {
                    j2 + 1
                };
                assert(dev_reps(work@)[j2] == dev_reps(pre_work)[jj]);
                if i < pre_out.len() {
                    assert(rep_le(dev_reps(pre_out)[i], dev_reps(pre_work)[jj]));
                } else {
                    assert(dev_reps(out@)[i] == dev_rep(d));
                    assert(rep_le(dev_reps(pre_work)[mi as int], dev_reps(pre_work)[jj]));
                }
            }
            assert forall|i: int, j2: int| 0 <= i < j2 < out@.len() implies rep_order()(
                #[trigger] dev_reps(out@)[i],
                #[trigger] dev_reps(out@)[j2],
            ) by {
                if j2 < pre_out.len() {
                    assert(sorted_by(dev_reps(pre_out), rep_order()));
                    assert(rep_order()(dev_reps(pre_out)[i], dev_reps(pre_out)[j2]));
                } else {
                    assert(dev_reps(out@)[j2] == dev_rep(d));
                    assert(rep_le(dev_reps(pre_out)[i], dev_reps(pre_work)[mi as int]));
                }
            }
        }
    }
    proof {
        broadcast use vstd::seq_lib::group_to_multiset_ensures;
        lemma_rep_order_total();
        assert(dev_reps(work@) =~= Seq::empty());
        assert(dev_reps(work@).to_multiset() =~= Multiset::<(int, Seq<char>)>::empty());
        assert(dev_reps(out@).to_multiset() =~= orig.to_multiset());
        orig.lemma_sort_by_ensures(rep_order());
        lemma_sorted_unique(dev_reps(out@), orig.sort_by(rep_order()), rep_order());
    }
    out
}

/// Sorts the descriptors and partitions them into maximal groups per the
/// quotas, exactly as [`spec_groupings`] describes; fails with the first
/// unconsumable descriptor when its kind's quota is zero.
#[verifier::loop_isolation(false)]
pub fn find_groupings(want_keys: usize, want_pads: usize, values: Vec<Device>) -> (r: Result<
    Vec<Vec<Device>>,
    GroupError,
>)
    ensures
        match r {
            Ok(groups) => spec_groupings(sorted_reps(values@), want_keys as nat, want_pads as nat)
                == Ok::<_, (int, Seq<char>)>(group_reps(groups@)),
            Err(e) => spec_groupings(sorted_reps(values@), want_keys as nat, want_pads as nat)
                == Err::<Seq<Seq<(int, Seq<char>)>>, _>(dev_rep(e.device)),
        },
{
    let ghost sorted = sorted_reps(values@);
    let mut vals = sort_devices(values);
    let mut groups: Vec<Vec<Device>> = Vec::new();
    proof {
        assert(group_reps(groups@) =~= Seq::empty());
    }
    while vals.len() > 0
        invariant
            spec_groupings(dev_reps(vals@), want_keys as nat, want_pads as nat) matches Ok(rest)
                ==> spec_groupings(sorted, want_keys as nat, want_pads as nat)
                    == Ok::<_, (int, Seq<char>)>(group_reps(groups@) + rest),
            spec_groupings(dev_reps(vals@), want_keys as nat, want_pads as nat) matches Err(e)
                ==> spec_groupings(sorted, want_keys as nat, want_pads as nat)
                    == Err::<Seq<Seq<(int, Seq<char>)>>, _>(e),
        decreases vals.len(),
    {
        let ghost cur = dev_reps(vals@);
        let ghost wkn = want_keys as nat;
        let ghost wpn = want_pads as nat;
        // scan for the maximal prefix within quota
        let mut kc: usize = 0;
        let mut pc: usize = 0;
        let mut i: usize = 0;
        let mut blocked = false;
        proof {
            assert(cur.skip(0) =~= cur);
        }
        while i < vals.len() && !blocked
            invariant
                i <= vals@.len(),
                cur == dev_reps(vals@),
                cur.len() == vals@.len(),
                kc <= want_keys,
                pc <= want_pads,
                !blocked ==> take_len(cur, wkn, wpn) == i + take_len(
                    cur.skip(i as int),
                    (want_keys - kc) as nat,
                    (want_pads - pc) as nat,
                ),
                blocked ==> take_len(cur, wkn, wpn) == i,
            decreases vals.len() - i + (if blocked { 0int } else { 1int }),
        {
            let ghost rem = cur.skip(i as int);
            proof {
                assert(rem[0] == cur[i as int]);
                assert(rem.drop_first() =~= cur.skip(i as int + 1));
            }
            match vals[i].device {
                DeviceType::Keys => {
                    if kc == want_keys {
                        blocked = true;
                    } else {
                        kc = kc + 1;
                        i = i + 1;
                    }
                },
                DeviceType::Pad => {
                    if pc == want_pads {
                        blocked = true;
                    } else {
                        pc = pc + 1;
                        i = i + 1;
                    }
                },
            }
        }
        proof {
            if !blocked {
                assert(cur.skip(i as int) =~= Seq::empty());
            }
            assert(take_len(cur, wkn, wpn) == i);
        }
        if i == 0 {
            let d = vals.remove(0);
            proof {
                assert(dev_rep(d) == cur[0]);
                assert(spec_groupings(cur, wkn, wpn) == Err::<
                    Seq<Seq<(int, Seq<char>)>>,
                    _,
                >(cur[0]));
            }
            return Err(GroupError { device: d });
        }
        // move the prefix into a new group
        let ghost pre = vals@;
        let mut g: Vec<Device> = Vec::new();
        let mut k: usize = 0;
        while k < i
            invariant
                k <= i,
                i <= pre.len(),
                g@.len() == k,
                g@ =~= pre.subrange(0, k as int),
                vals@ =~= pre.skip(k as int),
            decreases i - k,
        {
            let d = vals.remove(0);
            g.push(d);
            k = k + 1;
            proof {
                assert(g@ =~= pre.subrange(0, k as int));
                assert(vals@ =~= pre.skip(k as int));
            }
        }
        let ghost gprev = groups@;
        groups.push(g);
        proof {
            assert(dev_reps(pre.subrange(0, i as int)) =~= cur.take(i as int));
            assert(dev_reps(pre.skip(i as int)) =~= cur.skip(i as int));
            assert(group_reps(groups@) =~= group_reps(gprev).push(cur.take(i as int)));
            // one unfolding of the partition at `cur`
            assert(spec_groupings(cur, wkn, wpn) == (match spec_groupings(
                cur.skip(i as int),
                wkn,
                wpn,
            ) {
                Ok(rest) => Ok::<_, (int, Seq<char>)>(seq![cur.take(i as int)] + rest),
                Err(e) => Err::<Seq<Seq<(int, Seq<char>)>>, _>(e),
            }));
            if spec_groupings(dev_reps(vals@), wkn, wpn) is Ok {
                let rest = spec_groupings(dev_reps(vals@), wkn, wpn)->Ok_0;
                assert(group_reps(gprev) + (seq![cur.take(i as int)] + rest)
                    =~= group_reps(groups@) + rest);
            }
        }
    }
    proof {
        assert(dev_reps(vals@) =~= Seq::empty());
        assert(spec_groupings(dev_reps(vals@), want_keys as nat, want_pads as nat)
            == Ok::<_, (int, Seq<char>)>(Seq::<Seq<(int, Seq<char>)>>::empty()));
        assert(group_reps(groups@) + Seq::<Seq<(int, Seq<char>)>>::empty()
            =~= group_reps(groups@));
    }
    Ok(groups)
}

} // verus!
