//! Channel numbers: each channel gets the number fixed for it by an
//! override, else the one the portal's mapping gives it, as long as no
//! channel before it has claimed that number; every channel left without a
//! number gets the smallest free one.
use vstd::prelude::*;
use vstd::set_lib::{lemma_int_range, lemma_len_subset, set_int_range};

verus! {

/// The number an override gives channel `i`: its override number, unless
/// an earlier channel's override has the same number.
pub open spec fn override_claim(ov: Seq<Option<u32>>, i: int) -> Option<u32> {
    match ov[i] {
        Some(n) => if exists|j: int| 0 <= j < i && ov[j] == Some(n) {
            None
        } else {
            Some(n)
        },
        None => None,
    }
}

/// `n` is the override number of some channel.
pub open spec fn is_override_number(ov: Seq<Option<u32>>, n: u32) -> bool {
    exists|j: int| 0 <= j < ov.len() && ov[j] == Some(n)
}

/// The number the mapping gives channel `i`, which has no override: its
/// mapped number, unless that is some channel's override number or an
/// earlier channel without override is mapped to it.
pub open spec fn mapping_claim(ov: Seq<Option<u32>>, bk: Seq<Option<u32>>, i: int) -> Option<u32> {
    match ov[i] {
        Some(_) => None,
        None => match bk[i] {
            Some(n) => if is_override_number(ov, n) || exists|j: int|
                0 <= j < i && ov[j] is None && bk[j] == Some(n) {
                None
            } else {
                Some(n)
            },
            None => None,
        },
    }
}

/// The number channel `i` keeps from its override or the mapping, if any.
pub open spec fn preferred_number(ov: Seq<Option<u32>>, bk: Seq<Option<u32>>, i: int) -> Option<u32> {
    match override_claim(ov, i) {
        Some(n) => Some(n),
        None => mapping_claim(ov, bk, i),
    }
}

/// `n` is claimed: some channel has it as override number, or some channel
/// without override is mapped to it.
pub open spec fn is_claimed(ov: Seq<Option<u32>>, bk: Seq<Option<u32>>, n: u32) -> bool {
    exists|j: int| 0 <= j < ov.len() && (ov[j] == Some(n) || (ov[j] is None && bk[j] == Some(n)))
}

/// `r` numbers the channels whose override numbers are `ov` and whose mapped
/// numbers are `bk`: a channel with a preferred number has it; any other
/// channel has the smallest positive number that is neither claimed nor
/// given to an earlier such channel.
pub open spec fn numbers_assigned(ov: Seq<Option<u32>>, bk: Seq<Option<u32>>, r: Seq<u32>) -> bool {
    &&& r.len() == ov.len()
    &&& forall|i: int|
        0 <= i < ov.len() ==> match #[trigger] preferred_number(ov, bk, i) {
            Some(n) => r[i] == n,
            None => {
                &&& r[i] >= 1
                &&& !is_claimed(ov, bk, r[i])
                &&& forall|j: int|
                    0 <= j < i && preferred_number(ov, bk, j) is None ==> r[j] != r[i]
                &&& forall|k: u32|
                    1 <= k < r[i] ==> is_claimed(ov, bk, k) || exists|j: int|
                        0 <= j < i && preferred_number(ov, bk, j) is None && r[j] == k
            },
        }
}

/// No two channels share a number.
pub open spec fn all_distinct(r: Seq<u32>) -> bool {
    forall|i: int, j: int| 0 <= i < j < r.len() ==> r[i] != r[j]
}

fn contains_u32(v: &Vec<u32>, x: u32) -> (r: bool)
    ensures
        r == v@.contains(x),
{
    let mut i: usize = 0;
    while i < v.len()
        invariant
            i <= v@.len(),
            forall|j: int| 0 <= j < i ==> v@[j] != x,
        decreases v@.len() - i,
    {
        if v[i] == x {
            return true;
        }
        i = i + 1;
    }
    false
}

proof fn lemma_push_contains(s: Seq<u32>, y: u32)
    ensures
        forall|x: u32| #[trigger] s.push(y).contains(x) <==> (s.contains(x) || x == y),
{
    assert forall|x: u32| #[trigger] s.push(y).contains(x) <==> (s.contains(x) || x == y) by {
        if s.contains(x) {
            let k = choose|k: int| 0 <= k < s.len() && s[k] == x;
            assert(s.push(y)[k] == x);
        }
        if x == y {
            assert(s.push(y)[s.len() as int] == x);
        }
        if s.push(y).contains(x) && x != y {
            let k = choose|k: int| 0 <= k < s.push(y).len() && s.push(y)[k] == x;
            assert(s[k] == x);
        }
    }
}

/// When every number in `1..next` occurs in `s`, `s` has at least
/// `next - 1` elements.
proof fn lemma_range_in_seq(s: Seq<u32>, next: int)
    requires
        1 <= next <= 0x1_0000_0000,
        forall|k: u32| 1 <= k < next ==> s.contains(k),
    ensures
        next - 1 <= s.len(),
{
    let m = s.map_values(|x: u32| x as int);
    assert forall|k: int| set_int_range(1, next).contains(k) implies m.to_set().contains(k) by {
        let ku = k as u32;
        assert(s.contains(ku));
        let j = choose|j: int| 0 <= j < s.len() && s[j] == ku;
        assert(m[j] == k);
    }
    lemma_int_range(1, next);
    vstd::seq_lib::seq_to_set_is_finite(m);
    lemma_len_subset(set_int_range(1, next), m.to_set());
    m.lemma_cardinality_of_set();
}

/// How many entries of `s` are `None`.
spec fn count_none(s: Seq<Option<u32>>) -> nat
    decreases s.len(),
{
    if s.len() == 0 {
        0
    } else {
        (if s[0] is None { 1nat } else { 0nat }) + count_none(s.drop_first())
    }
}

proof fn lemma_count_none_push(s: Seq<Option<u32>>, x: Option<u32>)
    ensures
        count_none(s.push(x)) == count_none(s) + (if x is None { 1nat } else { 0nat }),
    decreases s.len(),
{
    if s.len() > 0 {
        assert(s.push(x).drop_first() =~= s.drop_first().push(x));
        assert(s.push(x)[0] == s[0]);
        lemma_count_none_push(s.drop_first(), x);
    } else {
        assert(s.push(x).drop_first() =~= s);
        assert(s.push(x)[0] == x);
        assert(count_none(s) == 0);
    }
}

proof fn lemma_count_none_fill(s: Seq<Option<u32>>, i: int, x: u32)
    requires
        0 <= i < s.len(),
        s[i] is None,
    ensures
        count_none(s.update(i, Some(x))) + 1 == count_none(s),
    decreases s.len(),
{
    if i == 0 {
        assert(s.update(i, Some(x)).drop_first() =~= s.drop_first());
    } else {
        assert(s.update(i, Some(x)).drop_first() =~= s.drop_first().update(i - 1, Some(x)));
        lemma_count_none_fill(s.drop_first(), i - 1, x);
    }
}

proof fn lemma_distinct(ov: Seq<Option<u32>>, bk: Seq<Option<u32>>, r: Seq<u32>)
    requires
        ov.len() == bk.len(),
        numbers_assigned(ov, bk, r),
    ensures
        all_distinct(r),
{
    assert forall|i: int, j: int| 0 <= i < j < r.len() implies r[i] != r[j] by {
        let pi = preferred_number(ov, bk, i);
        let pj = preferred_number(ov, bk, j);
        match (pi, pj) {
            (Some(a), Some(b)) => {
                if a == b {
                    match (override_claim(ov, i), override_claim(ov, j)) {
                        (Some(_), Some(_)) => {
                            assert(ov[i] == Some(a));
                        },
                        (Some(_), None) => {
                            assert(ov[i] == Some(a));
                            assert(is_override_number(ov, a));
                        },
                        (None, Some(_)) => {
                            assert(ov[j] == Some(a));
                            assert(is_override_number(ov, a));
                        },
                        (None, None) => {
                            assert(ov[i] is None && bk[i] == Some(a));
                        },
                    }
                }
            },
            (Some(a), None) => {
                if override_claim(ov, i) is Some {
                    assert(ov[i] == Some(a));
                } else {
                    assert(ov[i] is None && bk[i] == Some(a));
                }
                assert(is_claimed(ov, bk, a));
            },
            (None, Some(b)) => {
                if override_claim(ov, j) is Some {
                    assert(ov[j] == Some(b));
                } else {
                    assert(ov[j] is None && bk[j] == Some(b));
                }
                assert(is_claimed(ov, bk, b));
            },
            (None, None) => {},
        }
    }
}

/// Numbers the channels whose override numbers are `ov` and whose mapped
/// numbers are `bk`.
pub fn assign_numbers(ov: &Vec<Option<u32>>, bk: &Vec<Option<u32>>) -> (r: Vec<u32>)
    requires
        ov@.len() == bk@.len(),
        ov@.len() <= u32::MAX,
    ensures
        numbers_assigned(ov@, bk@, r@),
        all_distinct(r@),
{
    let n = ov.len();
    let ghost ovs = ov@;
    let ghost bks = bk@;
    let mut assigned: Vec<Option<u32>> = Vec::new();
    let mut used: Vec<u32> = Vec::new();
    // Overrides first: the first channel with a number keeps it.
    let mut i: usize = 0;
    while i < n
        invariant
            n == ovs.len(),
            ovs == ov@,
            i <= n,
            assigned@.len() == i,
            used@.len() + count_none(assigned@) == i,
            forall|j: int| 0 <= j < i ==> assigned@[j] == override_claim(ovs, j),
            forall|x: u32| #[trigger]
                used@.contains(x) <==> exists|j: int| 0 <= j < i && ovs[j] == Some(x),
        decreases n - i,
    {
        let ghost before = used@;
        let ghost before_assigned = assigned@;
        match ov[i] {
            Some(num) => {
                if contains_u32(&used, num) {
                    assigned.push(None);
                } else {
                    used.push(num);
                    assigned.push(Some(num));
                }
            },
            None => {
                assigned.push(None);
            },
        }
        proof {
            lemma_count_none_push(before_assigned, assigned@.last());
            assert(assigned@ == before_assigned.push(assigned@.last()));
            if let Some(num) = ovs[i as int] {
                lemma_push_contains(before, num);
            }
            assert forall|x: u32| used@.contains(x) <==> exists|j: int|
                0 <= j < i + 1 && ovs[j] == Some(x) by {
                if exists|j: int| 0 <= j < i + 1 && ovs[j] == Some(x) {
                    let j = choose|j: int| 0 <= j < i + 1 && ovs[j] == Some(x);
                    if j < i as int {
                        assert(exists|j: int| 0 <= j < i && ovs[j] == Some(x));
                        assert(before.contains(x));
                    }
                }
                if before.contains(x) {
                    assert(exists|j: int| 0 <= j < i && ovs[j] == Some(x));
                    let j = choose|j: int| 0 <= j < i && ovs[j] == Some(x);
                    assert(0 <= j < i + 1 && ovs[j] == Some(x));
                }
            }
        }
        i = i + 1;
    }
    // Then the mapping, for the channels without override.
    let mut i: usize = 0;
    while i < n
        invariant
            n == ovs.len(),
            n == bks.len(),
            ovs == ov@,
            bks == bk@,
            i <= n,
            assigned@.len() == n,
            used@.len() + count_none(assigned@) == n,
            forall|j: int| 0 <= j < i ==> assigned@[j] == preferred_number(ovs, bks, j),
            forall|j: int| i <= j < n ==> assigned@[j] == override_claim(ovs, j),
            forall|x: u32|
                #[trigger] used@.contains(x) <==> (is_override_number(ovs, x) || exists|j: int|
                    0 <= j < i && ovs[j] is None && bks[j] == Some(x)),
        decreases n - i,
    {
        let ghost before = used@;
        let ghost before_assigned = assigned@;
        let mut pushed = false;
        if ov[i].is_none() {
            match bk[i] {
                Some(num) => {
                    if !contains_u32(&used, num) {
                        used.push(num);
                        assigned.set(i, Some(num));
                        pushed = true;
                    }
                },
                None => {},
            }
        }
        proof {
            lemma_push_contains(before, bks[i as int]->Some_0);
            assert(before_assigned[i as int] == override_claim(ovs, i as int));
            if pushed {
                let num = bks[i as int]->Some_0;
                lemma_push_contains(before, num);
                assert(ovs[i as int] is None);
                lemma_count_none_fill(before_assigned, i as int, num);
                assert(assigned@ == before_assigned.update(i as int, Some(num)));
                assert(!before.contains(num));
                assert(!is_override_number(ovs, num));
                assert(!exists|j: int| 0 <= j < i && ovs[j] is None && bks[j] == Some(num));
                assert(mapping_claim(ovs, bks, i as int) == Some(num));
                assert(used@ == before.push(num));
                assert(assigned@[i as int] == Some(num));
            } else {
                assert(used@ == before);
                assert(assigned@ == before_assigned);
                if ovs[i as int] is None {
                    if let Some(num) = bks[i as int] {
                        assert(before.contains(num));
                        assert(mapping_claim(ovs, bks, i as int) is None);
                    }
                }
            }
            assert(preferred_number(ovs, bks, i as int) == assigned@[i as int]);
            assert(pushed ==> used@ == before.push(bks[i as int]->Some_0));
            assert(!pushed ==> used@ == before);
            assert(!pushed && ovs[i as int] is None && bks[i as int] is Some ==> before.contains(
                bks[i as int]->Some_0,
            ));
            assert forall|x: u32|
                used@.contains(x) <==> (is_override_number(ovs, x) || exists|j: int|
                    0 <= j < i + 1 && ovs[j] is None && bks[j] == Some(x)) by {
                if exists|j: int| 0 <= j < i + 1 && ovs[j] is None && bks[j] == Some(x) {
                    let j = choose|j: int| 0 <= j < i + 1 && ovs[j] is None && bks[j] == Some(x);
                    if j < i as int {
                        assert(exists|j: int| 0 <= j < i && ovs[j] is None && bks[j] == Some(x));
                        assert(before.contains(x));
                    } else if !pushed {
                        assert(before.contains(x));
                    }
                    assert(used@.contains(x));
                }
                if used@.contains(x) {
                    if pushed && x == bks[i as int]->Some_0 {
                        assert(0 <= i < i + 1 && ovs[i as int] is None && bks[i as int] == Some(x));
                    } else {
                        if pushed {
                            assert(before.push(bks[i as int]->Some_0).contains(x));
                        }
                        assert(before.contains(x));
                        if !is_override_number(ovs, x) {
                            let j = choose|j: int| 0 <= j < i && ovs[j] is None && bks[j] == Some(x);
                            assert(0 <= j < i + 1 && ovs[j] is None && bks[j] == Some(x));
                        }
                    }
                }
            }
        }
        i = i + 1;
    }
    proof {
        assert forall|x: u32| used@.contains(x) <==> is_claimed(ovs, bks, x) by {
            if is_claimed(ovs, bks, x) {
                let j = choose|j: int|
                    0 <= j < ovs.len() && (ovs[j] == Some(x) || (ovs[j] is None && bks[j] == Some(
                        x,
                    )));
                if ovs[j] == Some(x) {
                    assert(is_override_number(ovs, x));
                }
            }
            if is_override_number(ovs, x) {
                let j = choose|j: int| 0 <= j < ovs.len() && ovs[j] == Some(x);
                assert(ovs[j] == Some(x));
            }
        }
    }
    // Every channel still without a number gets the smallest free one.
    let mut result: Vec<u32> = Vec::new();
    let mut next: u32 = 1;
    let mut i: usize = 0;
    assert(assigned@.skip(0) =~= assigned@);
    while i < n
        invariant
            n == ovs.len(),
            n == bks.len(),
            ovs == ov@,
            bks == bk@,
            i <= n,
            n <= u32::MAX,
            assigned@.len() == n,
            result@.len() == i,
            used@.len() + count_none(assigned@.skip(i as int)) == n,
            next >= 1,
            forall|j: int| 0 <= j < n ==> assigned@[j] == preferred_number(ovs, bks, j),
            forall|x: u32|
                #[trigger] used@.contains(x) <==> (is_claimed(ovs, bks, x) || exists|j: int|
                    0 <= j < i && preferred_number(ovs, bks, j) is None && result@[j] == x),
            forall|k: u32| 1 <= k < next ==> used@.contains(k),
            forall|j: int|
                0 <= j < i ==> match #[trigger] preferred_number(ovs, bks, j) {
                    Some(num) => result@[j] == num,
                    None => {
                        &&& result@[j] >= 1
                        &&& !is_claimed(ovs, bks, result@[j])
                        &&& forall|m: int|
                            0 <= m < j && preferred_number(ovs, bks, m) is None ==> result@[m]
                                != result@[j]
                        &&& forall|k: u32|
                            1 <= k < result@[j] ==> is_claimed(ovs, bks, k) || exists|m: int|
                                0 <= m < j && preferred_number(ovs, bks, m) is None && result@[m]
                                    == k
                    },
                },
        decreases n - i,
    {
        let ghost old_result0 = result@;
        proof {
            assert(assigned@.skip(i as int).drop_first() =~= assigned@.skip(i as int + 1));
            assert(assigned@.skip(i as int)[0] == assigned@[i as int]);
        }
        match assigned[i] {
            Some(num) => {
                result.push(num);
                proof {
                    assert forall|j: int| 0 <= j < i implies result@[j] == old_result0[j] by {}
                    assert forall|x: u32|
                        used@.contains(x) <==> (is_claimed(ovs, bks, x) || exists|j: int|
                            0 <= j < i + 1 && preferred_number(ovs, bks, j) is None && result@[j]
                                == x) by {
                        if exists|j: int|
                            0 <= j < i + 1 && preferred_number(ovs, bks, j) is None && result@[j]
                                == x {
                            let j = choose|j: int|
                                0 <= j < i + 1 && preferred_number(ovs, bks, j) is None
                                    && result@[j] == x;
                            assert(j < i);
                            assert(exists|j: int|
                                0 <= j < i && preferred_number(ovs, bks, j) is None && old_result0[j] == x);
                        }
                        if exists|j: int|
                            0 <= j < i && preferred_number(ovs, bks, j) is None && old_result0[j]
                                == x {
                            let j = choose|j: int|
                                0 <= j < i && preferred_number(ovs, bks, j) is None
                                    && old_result0[j] == x;
                            assert(result@[j] == x);
                        }
                    }
                }
            },
            None => {
                while contains_u32(&used, next)
                    invariant
                        used@.len() + 1 <= n,
                        n <= u32::MAX,
                        next >= 1,
                        forall|k: u32| 1 <= k < next ==> used@.contains(k),
                    decreases 0x1_0000_0000 - next,
                {
                    proof {
                        lemma_range_in_seq(used@, next + 1);
                    }
                    next = next + 1;
                }
                let ghost old_result = result@;
                let ghost old_used = used@;
                result.push(next);
                used.push(next);
                proof {
                    lemma_push_contains(old_used, next);
                    assert(result@[i as int] == next);
                    assert forall|j: int| 0 <= j < i implies result@[j] == old_result[j] by {}
                    assert forall|x: u32|
                        used@.contains(x) <==> (is_claimed(ovs, bks, x) || exists|j: int|
                            0 <= j < i + 1 && preferred_number(ovs, bks, j) is None && result@[j]
                                == x) by {
                        if used@.contains(x) && x != next {
                            assert(old_used.contains(x));
                            if !is_claimed(ovs, bks, x) {
                                let j = choose|j: int|
                                    0 <= j < i && preferred_number(ovs, bks, j) is None
                                        && old_result[j] == x;
                                assert(result@[j] == x);
                            }
                        }
                        if x == next {
                            assert(result@[i as int] == x);
                        }
                        if exists|j: int|
                            0 <= j < i + 1 && preferred_number(ovs, bks, j) is None && result@[j]
                                == x {
                            let j = choose|j: int|
                                0 <= j < i + 1 && preferred_number(ovs, bks, j) is None
                                    && result@[j] == x;
                            if j < i {
                                assert(old_used.contains(x));
                            }
                        }
                    }
                    assert(!is_claimed(ovs, bks, next));
                    assert forall|m: int|
                        0 <= m < i && preferred_number(ovs, bks, m) is None implies result@[m]
                        != result@[i as int] by {
                        assert(old_used.contains(old_result[m]));
                    }
                    assert forall|k: u32| 1 <= k < result@[i as int] implies is_claimed(
                        ovs,
                        bks,
                        k,
                    ) || exists|m: int|
                        0 <= m < i && preferred_number(ovs, bks, m) is None && result@[m] == k by {
                        assert(old_used.contains(k));
                        if !is_claimed(ovs, bks, k) {
                            let m = choose|m: int|
                                0 <= m < i && preferred_number(ovs, bks, m) is None
                                    && old_result[m] == k;
                            assert(result@[m] == k);
                        }
                    }
                    assert forall|k: u32| 1 <= k < next implies used@.contains(k) by {
                        assert(old_used.contains(k));
                    }
                }
            },
        }
        i = i + 1;
    }
    proof {
        lemma_distinct(ovs, bks, result@);
    }
    result
}

} // verus!
