//! The physical order of experts in a sliced checkpoint, and their precision tiers.

use crate::names::same_text;
use crate::numtext::find_first;
use crate::numtext::first_of;
use crate::numtext::is_digit;
use crate::numtext::law_decimal_reads_back;
use crate::numtext::lemma_decimal;
use crate::numtext::parse_number;
use crate::numtext::parsed;
use crate::rank::is_ranking;
use crate::rank::is_top;
use crate::rank::law_top_is_nested;
use crate::slice_plan::list_of;
use crate::slice_plan::plan_views;
use crate::slice_plan::position;
use crate::slice_plan::Plan;
use crate::slice_plan::PlanError;
use crate::slice_plan::PlanView;
use crate::slice_plan::Selection;
use crate::slice_plan::VQ_K;
use crate::slice_roles::layer_of;
use crate::slice_roles::lemma_first_of;
use crate::slice_roles::split_layer;
use crate::slice_roles::Role;
use crate::text::decimal;
use crate::text::last_before;
use crate::text::lemma_last_is_last;
use crate::text::matches_at;
use crate::text::stands_at;
use crate::text::sub_chars;
use crate::unicode::chars_of;
use crate::weights::Entry;
use crate::weights::DTYPE_F32;
use vstd::prelude::*;

verus! {

/// What stands behind the last `.experts.` of a name, or the whole name.
pub open spec fn after_experts(name: Seq<char>) -> Seq<char> {
    match last_before(name, ".experts."@, name.len() as int) {
        Some(i) => name.skip(i + ".experts."@.len()),
        None => name,
    }
}

/// The number of an expert matrix in its expert.
pub open spec fn matrix_number(w: Seq<char>) -> u8 {
    if w == "w1"@ {
        0
    } else if w == "w2"@ {
        1
    } else if w == "w3"@ {
        2
    } else {
        3
    }
}

/// The expert and the matrix that an output name stands for.
pub open spec fn expert_key(name: Seq<char>) -> Option<(nat, u8)> {
    let tail = after_experts(name);
    let dot = first_of(tail, '.');
    if dot >= tail.len() {
        None
    } else {
        match parsed(tail.take(dot), usize::MAX as nat) {
            Some(e) => Some((e, matrix_number(tail.skip(dot + 1)))),
            None => None,
        }
    }
}

/// The expert and the matrix that an output name stands for.
pub fn expert_plan_key(name: &str) -> (key: Option<(usize, u8)>)
    ensures
        match key {
            Some((e, w)) => expert_key(name@) == Some((e as nat, w)),
            None => expert_key(name@) is None,
        },
{
    let t: Vec<char> = chars_of(name);
    let mark: Vec<char> = chars_of(".experts.");
    let n: usize = t.len();
    let mut i: usize = n;
    while i > 0 && !matches_at(t.as_slice(), mark.as_slice(), i - 1)
        invariant
            i <= n == t@.len(),
            mark@ == ".experts."@,
            last_before(t@, mark@, n as int) == last_before(t@, mark@, i as int),
        decreases i,
    {
        i -= 1;
    }
    let from: usize = if i == 0 {
        0
    } else {
        i - 1 + mark.len()
    };
    let tail: Vec<char> = sub_chars(t.as_slice(), from, n);
    proof {
        assert(tail@ =~= after_experts(name@));
    }
    let dot: usize = find_first(tail.as_slice(), '.');
    if dot == tail.len() {
        return None;
    }
    let digits: Vec<char> = sub_chars(tail.as_slice(), 0, dot);
    let after: Vec<char> = sub_chars(tail.as_slice(), dot + 1, tail.len());
    proof {
        assert(digits@ =~= tail@.take(dot as int));
        assert(after@ =~= tail@.skip(dot + 1));
    }
    let w: u8 = if same_text(after.as_slice(), "w1") {
        0
    } else if same_text(after.as_slice(), "w2") {
        1
    } else if same_text(after.as_slice(), "w3") {
        2
    } else {
        3
    };
    match parse_number(digits.as_slice(), usize::MAX as u64) {
        Some(e) => Some((e as usize, w)),
        None => None,
    }
}

/// Expert first, then matrix.
pub open spec fn key_le(a: (nat, u8), b: (nat, u8)) -> bool {
    a.0 < b.0 || (a.0 == b.0 && a.1 <= b.1)
}

/// The key of a planned expert tensor.
pub open spec fn plan_key(p: PlanView) -> (nat, u8) {
    expert_key(p.out_name)->Some_0
}

/// Where a tensor goes in a sorted run: behind those that do not come after it.
pub open spec fn place_in(run: Seq<PlanView>, key: (nat, u8)) -> int
    decreases run.len(),
{
    if run.len() == 0 || key_le(plan_key(run.last()), key) {
        run.len() as int
    } else {
        place_in(run.drop_last(), key)
    }
}

/// Two planned tensors belong to the same layer.
pub open spec fn same_layer(a: PlanView, b: PlanView) -> bool {
    match (layer_of(a.out_name), layer_of(b.out_name)) {
        (Some((i, _)), Some((j, _))) => i == j,
        (None, None) => true,
        _ => false,
    }
}

/// What is finished, and the sorted run of one layer's experts that is not.
pub open spec fn runs_after(plans: Seq<PlanView>, n: int) -> (Seq<PlanView>, Seq<PlanView>)
    decreases n,
{
    if n <= 0 {
        (Seq::empty(), Seq::empty())
    } else {
        let (done, run) = runs_after(plans, n - 1);
        let p = plans[n - 1];
        if p.role != Role::Expert {
            ((done + run).push(p), Seq::empty())
        } else if run.len() > 0 && same_layer(run[0], p) {
            (done, run.insert(place_in(run, plan_key(p)), p))
        } else {
            (done + run, seq![p])
        }
    }
}

/// The plans with every run of one layer's experts in the order of their keys, equal
/// keys as they were; everything else where it was.
pub open spec fn reordered(plans: Seq<PlanView>) -> Seq<PlanView> {
    let (done, run) = runs_after(plans, plans.len() as int);
    done + run
}

/// Every expert tensor among the first `n` has a key.
pub open spec fn keys_known(plans: Seq<PlanView>, n: int) -> bool {
    forall|i: int|
        0 <= i < n ==> (#[trigger] plans[i]).role == Role::Expert ==> expert_key(
            plans[i].out_name,
        ) is Some
}

/// The source row of the first expert tensor from `i` on that has no key.
pub open spec fn keyless_row(plans: Seq<PlanView>, i: int) -> usize
    decreases plans.len() - i,
{
    if i >= plans.len() {
        0
    } else if plans[i].role == Role::Expert && expert_key(plans[i].out_name) is None {
        match plans[i].src {
            Some(row) => row,
            None => 0,
        }
    } else {
        keyless_row(plans, i + 1)
    }
}

proof fn lemma_place_in(run: Seq<PlanView>, key: (nat, u8))
    ensures
        0 <= place_in(run, key) <= run.len(),
    decreases run.len(),
{
    if run.len() > 0 && !key_le(plan_key(run.last()), key) {
        lemma_place_in(run.drop_last(), key);
    }
}

fn layer_number(name: &str) -> (l: Option<usize>)
    ensures
        match l {
            Some(n) => layer_of(name@) is Some && layer_of(name@)->Some_0.0 == n,
            None => layer_of(name@) is None,
        },
{
    let chars: Vec<char> = chars_of(name);
    match split_layer(chars.as_slice()) {
        Some((l, _)) => Some(l),
        None => None,
    }
}

/// The keys of a run.
spec fn keys_of(run: Seq<PlanView>, keys: Seq<(usize, u8)>) -> bool {
    &&& run.len() == keys.len()
    &&& forall|i: int|
        0 <= i < run.len() ==> plan_key(#[trigger] run[i]) == (keys[i].0 as nat, keys[i].1)
}

fn insert_in_run(run: &mut Vec<Plan>, keys: &mut Vec<(usize, u8)>, p: Plan, key: (usize, u8))
    requires
        keys_of(plan_views(old(run)@), old(keys)@),
        plan_key(p@) == (key.0 as nat, key.1),
    ensures
        keys_of(plan_views(final(run)@), final(keys)@),
        plan_views(final(run)@) == plan_views(old(run)@).insert(
            place_in(plan_views(old(run)@), plan_key(p@)),
            p@,
        ),
{
    let n: usize = run.len();
    let ghost s = plan_views(run@);
    let mut j: usize = n;
    proof {
        assert(s.take(n as int) =~= s);
    }
    while j > 0 && !(keys[j - 1].0 < key.0 || (keys[j - 1].0 == key.0 && keys[j - 1].1 <= key.1))
        invariant
            j <= n == run@.len(),
            s == plan_views(run@),
            keys_of(s, keys@),
            place_in(s, (key.0 as nat, key.1)) == place_in(
                s.take(j as int),
                (key.0 as nat, key.1),
            ),
        decreases j,
    {
        proof {
            assert(s.take(j as int).drop_last() =~= s.take(j - 1));
            assert(s.take(j as int).last() == s[j - 1]);
        }
        j -= 1;
    }
    proof {
        if j > 0 {
            assert(s.take(j as int).last() == s[j - 1]);
            assert(plan_key(s[j - 1]) == (keys@[j - 1].0 as nat, keys@[j - 1].1));
        }
        assert(place_in(s, (key.0 as nat, key.1)) == j);
    }
    let ghost old_run = run@;
    let ghost old_keys = keys@;
    let ghost pv = p@;
    run.insert(j, p);
    keys.insert(j, key);
    proof {
        assert(plan_views(run@) =~= s.insert(j as int, pv));
        assert forall|i: int| 0 <= i < run@.len() implies plan_key(
            #[trigger] plan_views(run@)[i],
        ) == (keys@[i].0 as nat, keys@[i].1) by {
            if i < j {
                assert(plan_views(run@)[i] == s[i]);
            } else if i > j {
                assert(plan_views(run@)[i] == s[i - 1]);
            }
        }
    }
}

/// Sorts every run of one layer's experts by expert and matrix, so that experts with
/// adjacent numbers lie next to each other in the file.
pub fn reorder_experts(plans: Vec<Plan>) -> (r: Result<Vec<Plan>, PlanError>)
    ensures
        match r {
            Ok(v) => keys_known(plan_views(plans@), plans@.len() as int) && plan_views(v@)
                == reordered(plan_views(plans@)),
            Err(e) => !keys_known(plan_views(plans@), plans@.len() as int) && e
                == PlanError::BadExpert(keyless_row(plan_views(plans@), 0)),
        },
{
    let ghost all = plan_views(plans@);
    let mut from: Vec<Plan> = plans;
    let mut back: Vec<Plan> = Vec::new();
    let total: usize = from.len();
    while from.len() > 0
        invariant
            from@.len() + back@.len() == total == all.len(),
            forall|i: int| 0 <= i < from@.len() ==> (#[trigger] from@[i])@ == all[i],
            forall|i: int|
                0 <= i < back@.len() ==> (#[trigger] back@[i])@ == all[total - 1 - i],
        decreases from@.len(),
    {
        match from.pop() {
            Some(p) => {
                back.push(p);
            },
            None => {},
        }
    }
    let mut done: Vec<Plan> = Vec::new();
    let mut run: Vec<Plan> = Vec::new();
    let mut keys: Vec<(usize, u8)> = Vec::new();
    proof {
        assert(plan_views(done@) =~= Seq::<PlanView>::empty());
        assert(plan_views(run@) =~= Seq::<PlanView>::empty());
    }
    let mut n: usize = 0;
    while n < total
        invariant
            n <= total == all.len(),
            back@.len() == total - n,
            forall|i: int|
                0 <= i < back@.len() ==> (#[trigger] back@[i])@ == all[total - 1 - i],
            all == plan_views(plans@),
            keys_known(all, n as int),
            keyless_row(all, 0) == keyless_row(all, n as int),
            keys_of(plan_views(run@), keys@),
            (plan_views(done@), plan_views(run@)) == runs_after(all, n as int),
        decreases total - n,
    {
        match back.pop() {
            None => {},
            Some(p) => {
                let ghost old_done = plan_views(done@);
                let ghost old_run = plan_views(run@);
                proof {
                    assert(p@ == all[n as int]);
                    assert(runs_after(all, n as int) == (old_done, old_run));
                }
                if p.role != Role::Expert {
                    done.append(&mut run);
                    proof {
                        assert(plan_views(done@) =~= old_done + old_run);
                    }
                    let ghost mid = done@;
                    done.push(p);
                    proof {
                        assert(plan_views(done@) =~= plan_views(mid).push(p@));
                        assert(plan_views(run@) =~= Seq::<PlanView>::empty());
                    }
                    keys = Vec::new();
                } else {
                    let key: (usize, u8) = match expert_plan_key(p.out_name.as_str()) {
                        Some(k) => k,
                        None => {
                            proof {
                                assert(all[n as int].role == Role::Expert);
                            }
                            let row: usize = match p.src {
                                Some(row) => row,
                                None => 0,
                            };
                            return Err(PlanError::BadExpert(row));
                        },
                    };
                    let together: bool = if run.len() > 0 {
                        match (
                            layer_number(run[0].out_name.as_str()),
                            layer_number(p.out_name.as_str()),
                        ) {
                            (Some(i), Some(j)) => i == j,
                            (None, None) => true,
                            _ => false,
                        }
                    } else {
                        false
                    };
                    proof {
                        if run@.len() > 0 {
                            assert(plan_views(run@)[0] == run@[0]@);
                        }
                        assert(together == (old_run.len() > 0 && same_layer(old_run[0], p@)));
                    }
                    if together {
                        insert_in_run(&mut run, &mut keys, p, key);
                    } else {
                        done.append(&mut run);
                        proof {
                            assert(plan_views(done@) =~= old_done + old_run);
                        }
                        let ghost pv = p@;
                        run.push(p);
                        keys = Vec::new();
                        keys.push(key);
                        proof {
                            assert(plan_views(run@) =~= seq![pv]);
                        }
                    }
                }
            },
        }
        n += 1;
    }
    let ghost a = done@;
    let ghost b = run@;
    done.append(&mut run);
    proof {
        assert(plan_views(done@) =~= plan_views(a) + plan_views(b));
    }
    Ok(done)
}

/// Reordering moves tensors and keeps them all.
pub proof fn law_reorder_keeps_tensors(plans: Seq<PlanView>)
    ensures
        reordered(plans).to_multiset() == plans.to_multiset(),
{
    lemma_runs_multiset(plans, plans.len() as int);
    assert(plans.take(plans.len() as int) =~= plans);
}

proof fn lemma_runs_multiset(plans: Seq<PlanView>, n: int)
    requires
        0 <= n <= plans.len(),
    ensures
        ({
            let (done, run) = runs_after(plans, n);
            (done + run).to_multiset() == plans.take(n).to_multiset()
        }),
    decreases n,
{
    broadcast use vstd::seq_lib::group_to_multiset_ensures;

    if n == 0 {
        assert(plans.take(0) =~= Seq::<PlanView>::empty());
        assert(Seq::<PlanView>::empty() + Seq::<PlanView>::empty() =~= Seq::<PlanView>::empty());
    } else {
        lemma_runs_multiset(plans, n - 1);
        let (done, run) = runs_after(plans, n - 1);
        let p = plans[n - 1];
        let (done2, run2) = runs_after(plans, n);
        assert(plans.take(n) =~= plans.take(n - 1).push(p));
        if p.role != Role::Expert {
            assert(done2 + run2 =~= (done + run).push(p));
        } else if run.len() > 0 && same_layer(run[0], p) {
            let at = place_in(run, plan_key(p));
            lemma_place_in(run, plan_key(p));
            assert(done2 + run2 =~= (done + run).insert(done.len() + at, p));
            crate::seqs::lemma_insert_multiset(done + run, done.len() + at, p);
        } else {
            assert(done2 + run2 =~= (done + run).push(p));
        }
    }
}

/// The keys do not fall.
pub open spec fn run_sorted(run: Seq<PlanView>) -> bool {
    forall|i: int, j: int|
        0 <= i < j < run.len() ==> key_le(plan_key(#[trigger] run[i]), plan_key(#[trigger] run[j]))
}

proof fn lemma_place_sorted(run: Seq<PlanView>, key: (nat, u8))
    requires
        run_sorted(run),
    ensures
        forall|i: int| 0 <= i < place_in(run, key) ==> key_le(plan_key(#[trigger] run[i]), key),
        forall|i: int|
            place_in(run, key) <= i < run.len() ==> key_le(key, plan_key(#[trigger] run[i])),
    decreases run.len(),
{
    lemma_place_in(run, key);
    if run.len() > 0 {
        let last = run.len() - 1;
        if key_le(plan_key(run[last]), key) {
            assert forall|i: int| 0 <= i < run.len() implies key_le(
                plan_key(#[trigger] run[i]),
                key,
            ) by {
                if i < last {
                    assert(key_le(plan_key(run[i]), plan_key(run[last])));
                }
            }
        } else {
            let front = run.drop_last();
            assert(run_sorted(front)) by {
                assert forall|i: int, j: int| 0 <= i < j < front.len() implies key_le(
                    plan_key(#[trigger] front[i]),
                    plan_key(#[trigger] front[j]),
                ) by {
                    assert(key_le(plan_key(run[i]), plan_key(run[j])));
                }
            }
            lemma_place_sorted(front, key);
            assert forall|i: int| 0 <= i < place_in(run, key) implies key_le(
                plan_key(#[trigger] run[i]),
                key,
            ) by {
                assert(key_le(plan_key(front[i]), key));
            }
            assert forall|i: int| place_in(run, key) <= i < run.len() implies key_le(
                key,
                plan_key(#[trigger] run[i]),
            ) by {
                if i < last {
                    assert(key_le(key, plan_key(front[i])));
                }
            }
        }
    }
}

/// A run of one layer's experts ends up in the order of expert and matrix.
pub proof fn law_expert_runs_are_sorted(plans: Seq<PlanView>, n: int)
    requires
        0 <= n <= plans.len(),
    ensures
        run_sorted(runs_after(plans, n).1),
    decreases n,
{
    if n > 0 {
        law_expert_runs_are_sorted(plans, n - 1);
        let (done, run) = runs_after(plans, n - 1);
        let p = plans[n - 1];
        if p.role == Role::Expert && run.len() > 0 && same_layer(run[0], p) {
            let at = place_in(run, plan_key(p));
            lemma_place_in(run, plan_key(p));
            lemma_place_sorted(run, plan_key(p));
            let out = run.insert(at, p);
            assert forall|i: int, j: int| 0 <= i < j < out.len() implies key_le(
                plan_key(#[trigger] out[i]),
                plan_key(#[trigger] out[j]),
            ) by {
                let x = if i < at {
                    i
                } else {
                    i - 1
                };
                let y = if j < at {
                    j
                } else {
                    j - 1
                };
                if i == at {
                    assert(key_le(plan_key(p), plan_key(run[y])));
                } else if j == at {
                    assert(key_le(plan_key(run[x]), plan_key(p)));
                } else {
                    assert(out[i] == run[x] && out[j] == run[y]);
                    assert(key_le(plan_key(run[x]), plan_key(run[y])));
                }
            }
        }
    }
}

/// The items of a list that another list holds, or does not hold, in order.
pub open spec fn only_in(s: Seq<usize>, other: Seq<usize>, held: bool) -> Seq<usize>
    decreases s.len(),
{
    if s.len() == 0 {
        Seq::empty()
    } else if other.contains(s.last()) == held {
        only_in(s.drop_last(), other, held).push(s.last())
    } else {
        only_in(s.drop_last(), other, held)
    }
}

fn pick(s: &[usize], other: &[usize], held: bool) -> (out: Vec<usize>)
    ensures
        out@ == only_in(s@, other@, held),
{
    let mut out: Vec<usize> = Vec::new();
    for i in 0..s.len()
        invariant
            out@ == only_in(s@.take(i as int), other@, held),
    {
        proof {
            assert(s@.take(i + 1).drop_last() =~= s@.take(i as int));
            assert(s@.take(i + 1).last() == s@[i as int]);
        }
        let found: bool = match crate::slice_plan::find_position(other, s[i]) {
            Some(k) => {
                proof {
                    assert(other@[k as int] == s@[i as int]);
                }
                true
            },
            None => false,
        };
        if found == held {
            out.push(s[i]);
        }
    }
    proof {
        assert(s@.take(s@.len() as int) =~= s@);
    }
    out
}

/// The experts in a frequency order that a keep-set holds: the keep-set's members, in
/// that order.
pub fn fold_order(order: &[usize], keep: &[usize]) -> (out: Vec<usize>)
    ensures
        out@ == only_in(order@, keep@, true),
{
    pick(order, keep, true)
}

/// The kept experts that do not stay at full precision.
pub fn cold_experts(kept: &[usize], hot: &[usize]) -> (out: Vec<usize>)
    ensures
        out@ == only_in(kept@, hot@, false),
{
    pick(kept, hot, false)
}

/// What is picked out of a list is in it and passes; all that passes is picked.
pub proof fn lemma_only_in(s: Seq<usize>, other: Seq<usize>, held: bool, x: usize)
    ensures
        only_in(s, other, held).contains(x) <==> s.contains(x) && other.contains(x) == held,
    decreases s.len(),
{
    if s.len() > 0 {
        let front = s.drop_last();
        lemma_only_in(front, other, held, x);
        assert(s.contains(x) <==> front.contains(x) || s.last() == x) by {
            if s.contains(x) {
                let k = choose|k: int| 0 <= k < s.len() && s[k] == x;
                if k < front.len() {
                    assert(front[k] == x);
                }
            }
            if front.contains(x) {
                let k = choose|k: int| 0 <= k < front.len() && front[k] == x;
                assert(s[k] == x);
            }
            if s.last() == x {
                assert(s[s.len() - 1] == x);
            }
        }
        let inner = only_in(front, other, held);
        if other.contains(s.last()) == held {
            let out = inner.push(s.last());
            assert(out.contains(x) <==> inner.contains(x) || s.last() == x) by {
                if out.contains(x) {
                    let k = choose|k: int| 0 <= k < out.len() && out[k] == x;
                    if k < inner.len() {
                        assert(inner[k] == x);
                    }
                }
                if inner.contains(x) {
                    let k = choose|k: int| 0 <= k < inner.len() && inner[k] == x;
                    assert(out[k] == x);
                }
                if s.last() == x {
                    assert(out[out.len() - 1] == x);
                }
            }
        }
    }
}

/// A frequency order changes the order of a keep-set, not its members.
pub proof fn law_order_keeps_membership(
    keys: Seq<u64>,
    order: Seq<usize>,
    keep: Seq<usize>,
    x: usize,
)
    requires
        is_ranking(keys, order),
        forall|i: int| 0 <= i < keep.len() ==> (#[trigger] keep[i]) < keys.len(),
    ensures
        only_in(order, keep, true).contains(x) <==> keep.contains(x),
{
    lemma_only_in(order, keep, true, x);
    if keep.contains(x) {
        let k = choose|k: int| 0 <= k < keep.len() && keep[k] == x;
        assert(keep[k] < keys.len());
        assert(order.contains(x));
    }
}

/// Every kept expert is hot or cold and not both, and the hot ones are all kept.
pub proof fn law_tiers_split_the_kept(
    keys: Seq<u64>,
    n_hot: int,
    hot: Seq<usize>,
    n_kept: int,
    kept: Seq<usize>,
    x: usize,
)
    requires
        is_top(keys, n_hot, hot),
        is_top(keys, n_kept, kept),
        n_hot <= n_kept,
    ensures
        kept.contains(x) <==> hot.contains(x) || only_in(kept, hot, false).contains(x),
        !(hot.contains(x) && only_in(kept, hot, false).contains(x)),
{
    lemma_only_in(kept, hot, false, x);
    if hot.contains(x) {
        law_top_is_nested(keys, n_hot, hot, n_kept, kept, x);
    }
}

/// Experts are relabelled together with their router rows: the row that the new
/// number of an expert selects is the row of that expert.
pub proof fn law_router_rows_follow_experts(
    sel: Selection,
    l: nat,
    e: nat,
    row: usize,
    nl: nat,
    rest: Seq<char>,
)
    requires
        sel.experts is Some,
        sel.new_expert(l, e, row) matches Ok(Some(_)),
    ensures
        ({
            let idx = sel.new_expert(l, e, row)->Ok_0->Some_0;
            let router = sel.router_plan(l, nl, rest, row)->Ok_0->Some_0;
            &&& sel.router_plan(l, nl, rest, row) matches Ok(Some(_))
            &&& router.experts is Some
            &&& idx < router.experts->Some_0.len()
            &&& router.experts->Some_0[idx as int] == e
        }),
{
    let lists = sel.experts->Some_0@;
    let list = list_of(lists, l)->Some_0;
    assert(position(list, e) is Some);
    crate::slice_plan::lemma_position(list, e, 0);
}

/// The codebook that cold experts share.
pub open spec fn codebook_plan() -> PlanView {
    PlanView {
        out_name: "vq_codebook"@,
        dtype: DTYPE_F32,
        dims: seq![256u32, 16u32],
        src: None,
        role: Role::Copy,
        experts: None,
        vocab: false,
    }
}

/// The tensors of the output in write order.
pub open spec fn output_plans(planned: Seq<PlanView>, reorder: bool, codebook: bool) -> Seq<
    PlanView,
> {
    let ordered = if reorder {
        reordered(planned)
    } else {
        planned
    };
    if codebook {
        ordered.push(codebook_plan())
    } else {
        ordered
    }
}

/// Plans the output of a slicing run: the kept tensors of the source directory, expert
/// runs in their new order where experts are reordered, and the codebook last where
/// there are cold experts.
pub fn plan_output(
    sel: &Selection,
    list: &Vec<(String, Entry)>,
    reorder: bool,
    codebook: bool,
) -> (r: Result<Vec<Plan>, PlanError>)
    requires
        sel.counts_fit(),
    ensures
        match sel.plans_of(list@, list@.len() as int) {
            Err(e) => r == Err::<Vec<Plan>, PlanError>(e),
            Ok(planned) => if reorder && !keys_known(planned, planned.len() as int) {
                r == Err::<Vec<Plan>, PlanError>(PlanError::BadExpert(keyless_row(planned, 0)))
            } else {
                r is Ok && plan_views(r->Ok_0@) == output_plans(planned, reorder, codebook)
            },
        },
{
    let mut plans: Vec<Plan> = match sel.plan_all(list) {
        Ok(v) => v,
        Err(e) => {
            return Err(e);
        },
    };
    if reorder {
        plans = match reorder_experts(plans) {
            Ok(v) => v,
            Err(e) => {
                return Err(e);
            },
        };
    }
    if codebook {
        let ghost before = plans@;
        let name: String = crate::unicode::text_of(chars_of("vq_codebook").as_slice());
        let dims: Vec<u32> = vec![VQ_K, 16];
        let p: Plan = Plan {
            out_name: name,
            dtype: DTYPE_F32,
            dims,
            src: None,
            role: Role::Copy,
            experts: None,
            vocab: false,
        };
        proof {
            assert(p@.dims =~= codebook_plan().dims);
        }
        plans.push(p);
        proof {
            assert(plan_views(plans@) =~= plan_views(before).push(p@));
        }
    }
    Ok(plans)
}

/// What is known while the runs are put in order: the tensors so far, the last run at their
/// end where they end in experts of one layer.
proof fn lemma_runs(plans: Seq<PlanView>, n: int)
    requires
        0 <= n <= plans.len(),
    ensures
        ({
            let (done, run) = runs_after(plans, n);
            &&& done.len() + run.len() == n
            &&& n > 0 && plans[n - 1].role != Role::Expert ==> run.len() == 0
            &&& n > 0 && plans[n - 1].role == Role::Expert ==> run.len() > 0 && same_layer(
                run[0],
                plans[n - 1],
            )
            &&& forall|i: int, j: int|
                0 <= i < run.len() && 0 <= j < run.len() ==> same_layer(
                    #[trigger] run[i],
                    #[trigger] run[j],
                )
        }),
    decreases n,
{
    if n > 0 {
        lemma_runs(plans, n - 1);
        let (done, run) = runs_after(plans, n - 1);
        let p = plans[n - 1];
        if p.role == Role::Expert && run.len() > 0 && same_layer(run[0], p) {
            let at = place_in(run, plan_key(p));
            lemma_place_in(run, plan_key(p));
            let out = run.insert(at, p);
            assert forall|i: int, j: int|
                0 <= i < out.len() && 0 <= j < out.len() implies same_layer(
                #[trigger] out[i],
                #[trigger] out[j],
            ) by {
                let x = if i < at {
                    run[i]
                } else if i == at {
                    p
                } else {
                    run[i - 1]
                };
                let y = if j < at {
                    run[j]
                } else if j == at {
                    p
                } else {
                    run[j - 1]
                };
                assert(out[i] == x && out[j] == y);
                assert(same_layer(run[0], x));
                assert(same_layer(run[0], y));
            }
            assert(same_layer(out[0], p)) by {
                assert(out[at] == p);
            }
        }
    }
}

/// What is finished stays.
proof fn lemma_done_stays(plans: Seq<PlanView>, n: int, m: int, i: int)
    requires
        0 <= n <= m <= plans.len(),
        0 <= i < runs_after(plans, n).0.len(),
    ensures
        i < runs_after(plans, m).0.len(),
        runs_after(plans, m).0[i] == runs_after(plans, n).0[i],
    decreases m - n,
{
    if n < m {
        lemma_done_stays(plans, n, m - 1, i);
    }
}

/// Reordering leaves every tensor that is not a routed expert's where it was.
pub proof fn law_other_tensors_stay_in_place(plans: Seq<PlanView>, i: int)
    requires
        0 <= i < plans.len(),
        plans[i].role != Role::Expert,
    ensures
        reordered(plans).len() == plans.len(),
        reordered(plans)[i] == plans[i],
{
    let n = plans.len() as int;
    lemma_runs(plans, n);
    lemma_runs(plans, i);
    assert(runs_after(plans, i + 1).0[i] == plans[i]);
    lemma_done_stays(plans, i + 1, n, i);
}

proof fn lemma_run_so_far(plans: Seq<PlanView>, a: int, k: int)
    requires
        0 <= a < k <= plans.len(),
        forall|i: int| a <= i < k ==> (#[trigger] plans[i]).role == Role::Expert,
        forall|i: int, j: int|
            a <= i < k && a <= j < k ==> same_layer(#[trigger] plans[i], #[trigger] plans[j]),
        a > 0 && plans[a - 1].role == Role::Expert ==> !same_layer(plans[a - 1], plans[a]),
    ensures
        runs_after(plans, k).0.len() == a,
        runs_after(plans, k).1.to_multiset() == plans.subrange(a, k).to_multiset(),
    decreases k,
{
    broadcast use vstd::seq_lib::group_to_multiset_ensures;

    let (done, run) = runs_after(plans, k - 1);
    let p = plans[k - 1];
    lemma_runs(plans, k - 1);
    lemma_runs(plans, k);
    if k - 1 > a {
        lemma_run_so_far(plans, a, k - 1);
        assert(plans[k - 2].role == Role::Expert);
        assert(same_layer(plans[k - 2], p));
        assert(same_layer(run[0], p));
        let at = place_in(run, plan_key(p));
        lemma_place_in(run, plan_key(p));
        crate::seqs::lemma_insert_multiset(run, at, p);
        assert(plans.subrange(a, k) =~= plans.subrange(a, k - 1).push(p));
    } else {
        if a > 0 && plans[a - 1].role == Role::Expert {
            assert(same_layer(run[0], plans[a - 1]));
            assert(!same_layer(run[0], p));
        }
        assert(plans.subrange(a, k) =~= seq![p]);
        assert(runs_after(plans, k).1 =~= seq![p]);
    }
}

/// Reordering sorts each run of one layer's experts where it stands: the places of the run
/// hold the same tensors as before, by expert and then by matrix.
pub proof fn law_each_run_is_sorted_in_place(plans: Seq<PlanView>, a: int, b: int)
    requires
        0 <= a < b <= plans.len(),
        forall|i: int| a <= i < b ==> (#[trigger] plans[i]).role == Role::Expert,
        forall|i: int, j: int|
            a <= i < b && a <= j < b ==> same_layer(#[trigger] plans[i], #[trigger] plans[j]),
        a > 0 && plans[a - 1].role == Role::Expert ==> !same_layer(plans[a - 1], plans[a]),
        b < plans.len() && plans[b].role == Role::Expert ==> !same_layer(plans[b - 1], plans[b]),
    ensures
        reordered(plans).len() == plans.len(),
        reordered(plans).subrange(a, b).to_multiset() == plans.subrange(a, b).to_multiset(),
        forall|i: int, j: int|
            a <= i < j < b ==> {
                let (x, y) = (
                    expert_key((#[trigger] reordered(plans)[i]).out_name)->Some_0,
                    expert_key((#[trigger] reordered(plans)[j]).out_name)->Some_0,
                );
                x.0 < y.0 || (x.0 == y.0 && x.1 <= y.1)
            },
{
    let n = plans.len() as int;
    let all = reordered(plans);
    lemma_runs(plans, n);
    lemma_runs(plans, b);
    lemma_run_so_far(plans, a, b);
    law_expert_runs_are_sorted(plans, b);
    let (done, run) = runs_after(plans, b);
    assert(run.len() == b - a);
    assert forall|i: int| a <= i < b implies all[i] == run[i - a] by {
        if b < n {
            let next = runs_after(plans, b + 1).0;
            if plans[b].role == Role::Expert {
                assert(same_layer(run[0], plans[b - 1]));
                assert(!same_layer(run[0], plans[b]));
                assert(next =~= done + run);
            } else {
                assert(next =~= (done + run).push(plans[b]));
            }
            assert(next[i] == run[i - a]);
            lemma_done_stays(plans, b + 1, n, i);
        } else {
            assert(all =~= done + run);
        }
    }
    assert(all.subrange(a, b) =~= run);
    assert forall|i: int, j: int| a <= i < j < b implies {
        let (x, y) = (
            expert_key((#[trigger] all[i]).out_name)->Some_0,
            expert_key((#[trigger] all[j]).out_name)->Some_0,
        );
        x.0 < y.0 || (x.0 == y.0 && x.1 <= y.1)
    } by {
        assert(all[i] == run[i - a] && all[j] == run[j - a]);
        assert(key_le(plan_key(run[i - a]), plan_key(run[j - a])));
    }
}

/// Nothing behind the mark before an expert's number looks like that mark.
proof fn lemma_no_mark_behind(
    front: Seq<char>,
    mark: Seq<char>,
    d: Seq<char>,
    end: Seq<char>,
    i: int,
)
    requires
        mark.len() == 9,
        mark[0] == '.' && mark[1] == 'e',
        forall|k: int| 0 < k < 8 ==> #[trigger] mark[k] != '.',
        d.len() > 0,
        forall|k: int| 0 <= k < d.len() ==> is_digit(#[trigger] d[k]),
        end.len() == 3,
        end[1] == 'w',
        end[2] != '.',
        front.len() < i < front.len() + 12 + d.len(),
    ensures
        !stands_at(front + mark + d + end, mark, i),
{
    let name = front + mark + d + end;
    let p = front.len() as int;
    if stands_at(name, mark, i) {
        let s = name.subrange(i, i + 9);
        assert(s[0] == name[i] && s[1] == name[i + 1]);
        if i < p + 8 {
            assert(name[i] == mark[i - p]);
        } else if i == p + 8 {
            assert(name[i + 1] == d[0]);
        } else if i < p + 9 + d.len() {
            assert(name[i] == d[i - p - 9]);
        } else {
            let k = i - p - 9 - d.len();
            assert(name[i] == end[k]);
            assert(name[i + 1] == end[k + 1]);
        }
    }
}

proof fn lemma_mark_is_last(front: Seq<char>, d: Seq<char>, end: Seq<char>)
    requires
        d.len() > 0,
        forall|i: int| 0 <= i < d.len() ==> is_digit(#[trigger] d[i]),
        end.len() == 3,
        end[1] == 'w',
        end[2] != '.',
    ensures
        ({
            let name = front + ".experts."@ + d + end;
            last_before(name, ".experts."@, name.len() as int) == Some(front.len() as int)
        }),
{
    let mark = ".experts."@;
    let name = front + mark + d + end;
    let p = front.len() as int;
    assert(mark.len() == 9 && mark[0] == '.' && mark[1] == 'e' && forall|k: int|
        0 < k < 8 ==> #[trigger] mark[k] != '.') by {
        reveal_strlit(".experts.");
        assert(mark[2] == 'x' && mark[3] == 'p' && mark[4] == 'e' && mark[5] == 'r' && mark[6]
            == 't' && mark[7] == 's');
        assert forall|k: int| 0 < k < 8 implies #[trigger] mark[k] != '.' by {
            assert(k == 1 || k == 2 || k == 3 || k == 4 || k == 5 || k == 6 || k == 7);
        }
    }
    assert(name.subrange(p, p + mark.len()) =~= mark);
    assert(stands_at(name, mark, p));
    assert forall|i: int| p < i < name.len() implies !#[trigger] stands_at(name, mark, i) by {
        lemma_no_mark_behind(front, mark, d, end, i);
    }
    lemma_last_is_last(name, mark, name.len() as int);
}

/// The key of an expert tensor is the number of its expert and the place of its matrix.
pub proof fn law_expert_keys_are_their_numbers(front: Seq<char>, e: nat, m: u8)
    requires
        e <= usize::MAX,
        m < 3,
    ensures
        expert_key(front + ".experts."@ + decimal(e) + "."@ + (if m == 0 {
            "w1"@
        } else if m == 1 {
            "w2"@
        } else {
            "w3"@
        })) == Some((e, m)),
{
    let w = if m == 0 {
        "w1"@
    } else if m == 1 {
        "w2"@
    } else {
        "w3"@
    };
    lemma_matrix_names();
    let d = decimal(e);
    let end = "."@ + w;
    let name = front + ".experts."@ + d + "."@ + w;
    assert(name =~= front + ".experts."@ + d + end);
    lemma_decimal(e);
    lemma_mark_is_last(front, d, end);
    let tail = after_experts(name);
    assert(tail =~= d.push('.') + w);
    assert forall|k: int| 0 <= k < d.len() implies #[trigger] d[k] != '.' by {
        assert(is_digit(d[k]));
    }
    lemma_first_of(d, '.', w, 0);
    assert(tail.take(d.len() as int) =~= d);
    assert(tail.skip(d.len() as int + 1) =~= w);
    law_decimal_reads_back(e, usize::MAX as nat);
}

proof fn lemma_matrix_names()
    ensures
        "."@ == seq!['.'],
        "w1"@.len() == 2 && "w1"@[0] == 'w' && "w1"@[1] == '1',
        "w2"@.len() == 2 && "w2"@[0] == 'w' && "w2"@[1] == '2',
        "w3"@.len() == 2 && "w3"@[0] == 'w' && "w3"@[1] == '3',
{
    reveal_strlit(".");
    reveal_strlit("w1");
    reveal_strlit("w2");
    reveal_strlit("w3");
    assert("."@ =~= seq!['.']);
}

} // verus!
