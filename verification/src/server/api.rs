//! The client API: the final channel numbers and order, the channel list
//! and the programme guide with their caches, and client pairing.
use vstd::prelude::*;
use vstd::set_lib::{lemma_int_range, lemma_len_subset, set_int_range};

use crate::cache::{
    channel_fresh, channel_response_spec, epg_fresh, epg_response_spec, Channel, ChannelResponse,
    EpgCacheKey, EpgResponse, Program,
};
use crate::config::ProviderConfig;
use crate::pairing::{
    create_outcome, is_error, new_session, poll_response_matches, poll_spec, prune_spec,
    CreateOutcome, CreatePairingRequest, CreatePairingResponse, Entropy, PollPairingResponse,
    POLL_INTERVAL_SECONDS,
};
use crate::pairs::lookup;
use crate::server::http::{json_error, Request};
use crate::server::policies::{check_pairing_create, PolicyDecision, RequestContext};
use crate::server::state::{error_response, header_value, pairing_error, query_value, AppState};
use crate::stream::StreamProxyConfig;
use crate::text::{
    chars_of, has_prefix, lit, parse_i32, parse_i32_spec, seq_equal, slice_vec, starts_with,
    string_of, trim, trim_str,
};

verus! {

broadcast use vstd::seq_lib::group_to_multiset_ensures;

// ---------------------------------------------------------------------------
// Unique channel numbers
// ---------------------------------------------------------------------------

pub open spec fn numbers_of(cs: Seq<Channel>) -> Seq<u32> {
    cs.map_values(|c: Channel| c.number)
}

/// No other channel has the number of channel `i`.
pub open spec fn unique_at(ns: Seq<u32>, i: int) -> bool {
    forall|j: int| 0 <= j < ns.len() && j != i ==> ns[j] != ns[i]
}

/// `x` is the number of exactly one channel.
pub open spec fn is_unique_number(ns: Seq<u32>, x: u32) -> bool {
    exists|i: int| 0 <= i < ns.len() && ns[i] == x && unique_at(ns, i)
}

/// Channel `i` is the first with its number.
pub open spec fn first_with_number(ns: Seq<u32>, i: int) -> bool {
    forall|j: int| 0 <= j < i ==> ns[j] != ns[i]
}

/// Before channel `i` is numbered, `x` is taken: it is a unique number, or
/// an earlier channel with a shared number ended up with it.
pub open spec fn taken_before(ns: Seq<u32>, r: Seq<u32>, i: int, x: u32) -> bool {
    is_unique_number(ns, x) || exists|j: int| 0 <= j < i && !unique_at(ns, j) && r[j] == x
}

/// `r` renumbers channels numbered `ns` so that numbers are unique: a number
/// held by one channel stays; of the channels sharing a number the first
/// keeps it unless an earlier channel has been given it; every other
/// channel gets the smallest positive number not yet taken.
pub open spec fn renumbered(ns: Seq<u32>, r: Seq<u32>) -> bool {
    &&& r.len() == ns.len()
    &&& forall|i: int|
        0 <= i < ns.len() ==> if unique_at(ns, i) {
            #[trigger] r[i] == ns[i]
        } else if first_with_number(ns, i) && !taken_before(ns, r, i, ns[i]) {
            r[i] == ns[i]
        } else {
            &&& r[i] >= 1
            &&& !taken_before(ns, r, i, r[i])
            &&& forall|k: u32| 1 <= k < r[i] ==> taken_before(ns, r, i, k)
        }
}

pub open spec fn distinct_numbers(r: Seq<u32>) -> bool {
    forall|i: int, j: int| 0 <= i < j < r.len() ==> r[i] != r[j]
}

/// The channels are the same but for their numbers.
pub open spec fn same_but_numbers(a: Seq<Channel>, b: Seq<Channel>) -> bool {
    &&& a.len() == b.len()
    &&& forall|i: int|
        0 <= i < a.len() ==> (#[trigger] b[i]).name == a[i].name && b[i].stream_url == a[i].stream_url
            && b[i].channel_code == a[i].channel_code
}

fn contains_number(v: &Vec<u32>, x: u32) -> (r: bool)
    ensures
        r == v@.contains(x),
{
    let mut i: usize = 0;
    while i < v.len()
        invariant
            i <= v@.len(),
            forall|j: int| 0 <= j < i ==> v@[j] != x,
        decreases v@.len() - i,
    {
        if v[i] == x {
            return true;
        }
        i = i + 1;
    }
    false
}

proof fn lemma_push_has(s: Seq<u32>, y: u32)
    ensures
        forall|x: u32| #[trigger] s.push(y).contains(x) <==> (s.contains(x) || x == y),
{
    assert forall|x: u32| #[trigger] s.push(y).contains(x) <==> (s.contains(x) || x == y) by {
        if s.contains(x) {
            let k = choose|k: int| 0 <= k < s.len() && s[k] == x;
            assert(s.push(y)[k] == x);
        }
        if x == y {
            assert(s.push(y)[s.len() as int] == x);
        }
        if s.push(y).contains(x) && x != y {
            let k = choose|k: int| 0 <= k < s.push(y).len() && s.push(y)[k] == x;
            assert(s[k] == x);
        }
    }
}

proof fn lemma_range_covered(s: Seq<u32>, next: int)
    requires
        1 <= next <= 0x1_0000_0000,
        forall|k: u32| 1 <= k < next ==> s.contains(k),
    ensures
        next - 1 <= s.len(),
{
    let m = s.map_values(|x: u32| x as int);
    assert forall|k: int| set_int_range(1, next).contains(k) implies m.to_set().contains(k) by {
        let ku = k as u32;
        assert(s.contains(ku));
        let j = choose|j: int| 0 <= j < s.len() && s[j] == ku;
        assert(m[j] == k);
    }
    lemma_int_range(1, next);
    vstd::seq_lib::seq_to_set_is_finite(m);
    lemma_len_subset(set_int_range(1, next), m.to_set());
    m.lemma_cardinality_of_set();
}

/// How many entries of `s` are `false`.
spec fn count_false(s: Seq<bool>) -> nat
    decreases s.len(),
{
    if s.len() == 0 {
        0
    } else {
        (if s[0] { 0nat } else { 1nat }) + count_false(s.drop_first())
    }
}

proof fn lemma_count_false_push(s: Seq<bool>, x: bool)
    ensures
        count_false(s.push(x)) == count_false(s) + (if x { 0nat } else { 1nat }),
    decreases s.len(),
{
    if s.len() > 0 {
        assert(s.push(x).drop_first() =~= s.drop_first().push(x));
        assert(s.push(x)[0] == s[0]);
        lemma_count_false_push(s.drop_first(), x);
    } else {
        assert(s.push(x).drop_first() =~= s);
        assert(s.push(x)[0] == x);
        assert(count_false(s) == 0);
    }
}

/// Whether channel `i` is the only one with its number.
fn is_unique_at(cs: &Vec<Channel>, i: usize) -> (r: bool)
    requires
        i < cs@.len(),
    ensures
        r == unique_at(numbers_of(cs@), i as int),
{
    let mut j: usize = 0;
    while j < cs.len()
        invariant
            i < cs@.len(),
            j <= cs@.len(),
            forall|k: int| 0 <= k < j && k != i ==> numbers_of(cs@)[k] != numbers_of(cs@)[i as int],
        decreases cs@.len() - j,
    {
        if j != i && cs[j].number == cs[i].number {
            assert(numbers_of(cs@)[j as int] == numbers_of(cs@)[i as int]);
            return false;
        }
        j = j + 1;
    }
    true
}

/// Whether no channel before `i` has its number.
fn is_first_at(cs: &Vec<Channel>, i: usize) -> (r: bool)
    requires
        i < cs@.len(),
    ensures
        r == first_with_number(numbers_of(cs@), i as int),
{
    let mut j: usize = 0;
    while j < i
        invariant
            i < cs@.len(),
            j <= i,
            forall|k: int| 0 <= k < j ==> numbers_of(cs@)[k] != numbers_of(cs@)[i as int],
        decreases i - j,
    {
        if cs[j].number == cs[i].number {
            assert(numbers_of(cs@)[j as int] == numbers_of(cs@)[i as int]);
            return false;
        }
        j = j + 1;
    }
    true
}

proof fn lemma_renumbered_distinct(ns: Seq<u32>, r: Seq<u32>)
    requires
        renumbered(ns, r),
    ensures
        distinct_numbers(r),
{
    assert forall|i: int, j: int| 0 <= i < j < r.len() implies r[i] != r[j] by {
        // what channel `i` ends up with is taken before `j`
        if unique_at(ns, i) {
            assert(r[i] == ns[i]);
            assert(is_unique_number(ns, r[i]));
        } else {
            assert(0 <= i < j && !unique_at(ns, i) && r[i] == r[i]);
        }
        assert(taken_before(ns, r, j, r[i]));
        if unique_at(ns, j) {
            assert(r[j] == ns[j]);
            if r[i] == r[j] {
                if unique_at(ns, i) {
                    assert(ns[i] == ns[j]);
                } else {
                    // a channel with a shared number never ends up with a unique number
                    let x = r[i];
                    if first_with_number(ns, i) && !taken_before(ns, r, i, ns[i]) {
                        assert(ns[i] == x);
                        assert(ns[j] == x);
                    } else {
                        assert(!taken_before(ns, r, i, r[i]));
                        assert(is_unique_number(ns, x));
                    }
                }
            }
        } else if first_with_number(ns, j) && !taken_before(ns, r, j, ns[j]) {
            assert(r[j] == ns[j]);
        } else {
            assert(!taken_before(ns, r, j, r[j]));
        }
    }
}

/// Makes the channel numbers unique; see `renumbered`.
pub fn ensure_unique_channel_numbers(channels: Vec<Channel>) -> (r: Vec<Channel>)
    requires
        channels@.len() <= u32::MAX,
    ensures
        renumbered(numbers_of(channels@), numbers_of(r@)),
        distinct_numbers(numbers_of(r@)),
        same_but_numbers(channels@, r@),
{
    let n = channels.len();
    let ghost ns = numbers_of(channels@);
    // the numbers held by exactly one channel
    let mut used: Vec<u32> = Vec::new();
    let mut unique: Vec<bool> = Vec::new();
    let mut i: usize = 0;
    while i < n
        invariant
            n == channels@.len(),
            ns == numbers_of(channels@),
            i <= n,
            unique@.len() == i,
            used@.len() + count_false(unique@) == i,
            forall|j: int| 0 <= j < i ==> unique@[j] == unique_at(ns, j),
            forall|x: u32| #[trigger]
                used@.contains(x) <==> exists|j: int| 0 <= j < i && ns[j] == x && unique_at(ns, j),
        decreases n - i,
    {
        let u = is_unique_at(&channels, i);
        let ghost before = used@;
        proof {
            lemma_count_false_push(unique@, u);
        }
        unique.push(u);
        if u {
            used.push(channels[i].number);
        }
        proof {
            lemma_push_has(before, ns[i as int]);
            assert forall|x: u32| #[trigger]
                used@.contains(x) <==> exists|j: int|
                    0 <= j < i + 1 && ns[j] == x && unique_at(ns, j) by {
                if exists|j: int| 0 <= j < i + 1 && ns[j] == x && unique_at(ns, j) {
                    let j = choose|j: int| 0 <= j < i + 1 && ns[j] == x && unique_at(ns, j);
                    if j < i {
                        assert(before.contains(x));
                    }
                }
                if before.contains(x) {
                    let j = choose|j: int| 0 <= j < i && ns[j] == x && unique_at(ns, j);
                    assert(0 <= j < i + 1 && ns[j] == x && unique_at(ns, j));
                }
                if u && x == ns[i as int] {
                    assert(0 <= i < i + 1 && ns[i as int] == x && unique_at(ns, i as int));
                }
            }
        }
        i = i + 1;
    }
    proof {
        assert forall|x: u32| #[trigger] used@.contains(x) <==> is_unique_number(ns, x) by {
            if is_unique_number(ns, x) {
                let j = choose|j: int| 0 <= j < ns.len() && ns[j] == x && unique_at(ns, j);
                assert(0 <= j < n && ns[j] == x && unique_at(ns, j));
            }
        }
    }
    let mut out: Vec<Channel> = Vec::new();
    let mut next: u32 = 1;
    let mut i: usize = 0;
    assert(unique@.skip(0) =~= unique@);
    while i < n
        invariant
            n == channels@.len(),
            n <= u32::MAX,
            ns == numbers_of(channels@),
            i <= n,
            unique@.len() == n,
            forall|j: int| 0 <= j < n ==> unique@[j] == unique_at(ns, j),
            out@.len() == i,
            used@.len() + count_false(unique@.skip(i as int)) == n,
            next >= 1,
            same_but_numbers(channels@.take(i as int), out@),
            forall|x: u32| #[trigger]
                used@.contains(x) <==> taken_before(ns, numbers_of(out@), i as int, x),
            forall|k: u32| 1 <= k < next ==> used@.contains(k),
            forall|j: int|
                0 <= j < i ==> if unique_at(ns, j) {
                    #[trigger] numbers_of(out@)[j] == ns[j]
                } else if first_with_number(ns, j) && !taken_before(ns, numbers_of(out@), j, ns[j]) {
                    numbers_of(out@)[j] == ns[j]
                } else {
                    &&& numbers_of(out@)[j] >= 1
                    &&& !taken_before(ns, numbers_of(out@), j, numbers_of(out@)[j])
                    &&& forall|k: u32|
                        1 <= k < numbers_of(out@)[j] ==> taken_before(ns, numbers_of(out@), j, k)
                },
        decreases n - i,
    {
        let ghost old_out = numbers_of(out@);
        let ghost old_used = used@;
        proof {
            assert(unique@.skip(i as int).drop_first() =~= unique@.skip(i as int + 1));
            assert(unique@.skip(i as int)[0] == unique@[i as int]);
        }
        let mut ch = channels[i].clone();
        let num = ch.number;
        let keep = if unique[i] {
            true
        } else if is_first_at(&channels, i) && !contains_number(&used, num) {
            used.push(num);
            true
        } else {
            false
        };
        if !keep {
            while contains_number(&used, next)
                invariant
                    used@.len() + 1 <= n,
                    n <= u32::MAX,
                    next >= 1,
                    forall|k: u32| 1 <= k < next ==> used@.contains(k),
                decreases 0x1_0000_0000 - next,
            {
                proof {
                    lemma_range_covered(used@, next + 1);
                }
                next = next + 1;
            }
            assert(used@ == old_used);
            assert(!old_used.contains(next));
            ch.number = next;
            used.push(next);
        }
        assert(!keep ==> !old_used.contains(ch.number) && ch.number >= 1 && forall|k: u32|
            1 <= k < ch.number ==> old_used.contains(k));
        assert(keep ==> ch.number == num);
        let ghost assigned = ch.number;
        out.push(ch);
        proof {
            let nr = numbers_of(out@);
            assert(nr =~= old_out.push(assigned));
            assert forall|j: int| 0 <= j < i implies nr[j] == old_out[j] by {}
            assert forall|x: u32, j: int| j <= i implies #[trigger] taken_before(ns, nr, j, x)
                == taken_before(ns, old_out, j, x) by {
                if exists|m: int| 0 <= m < j && !unique_at(ns, m) && nr[m] == x {
                    let m = choose|m: int| 0 <= m < j && !unique_at(ns, m) && nr[m] == x;
                    assert(old_out[m] == x);
                }
                if exists|m: int| 0 <= m < j && !unique_at(ns, m) && old_out[m] == x {
                    let m = choose|m: int| 0 <= m < j && !unique_at(ns, m) && old_out[m] == x;
                    assert(nr[m] == x);
                }
            }
            lemma_push_has(old_used, assigned);
            assert forall|x: u32| #[trigger]
                used@.contains(x) <==> taken_before(ns, nr, i + 1, x) by {
                assert(taken_before(ns, nr, i as int, x) == taken_before(ns, old_out, i as int, x));
                if taken_before(ns, nr, i + 1, x) && !taken_before(ns, nr, i as int, x) {
                    let m = choose|m: int| 0 <= m < i + 1 && !unique_at(ns, m) && nr[m] == x;
                    assert(m == i);
                }
                if taken_before(ns, nr, i as int, x) {
                    if !is_unique_number(ns, x) {
                        let m = choose|m: int| 0 <= m < i && !unique_at(ns, m) && nr[m] == x;
                        assert(0 <= m < i + 1 && !unique_at(ns, m) && nr[m] == x);
                    }
                }
                if !unique_at(ns, i as int) && x == assigned {
                    assert(0 <= i < i + 1 && !unique_at(ns, i as int) && nr[i as int] == x);
                }
            }
            assert(taken_before(ns, nr, i as int, ns[i as int]) == old_used.contains(ns[i as int]));
            if keep && unique_at(ns, i as int) {
                assert(used@ == old_used);
            }
            assert forall|j: int| 0 <= j < i + 1 implies if unique_at(ns, j) {
                #[trigger] nr[j] == ns[j]
            } else if first_with_number(ns, j) && !taken_before(ns, nr, j, ns[j]) {
                nr[j] == ns[j]
            } else {
                &&& nr[j] >= 1
                &&& !taken_before(ns, nr, j, nr[j])
                &&& forall|k: u32| 1 <= k < nr[j] ==> taken_before(ns, nr, j, k)
            } by {
                if j < i {
                    assert(nr[j] == old_out[j]);
                    assert(taken_before(ns, nr, j, ns[j]) == taken_before(ns, old_out, j, ns[j]));
                    assert(taken_before(ns, nr, j, nr[j]) == taken_before(ns, old_out, j, old_out[j]));
                    if !unique_at(ns, j) && !(first_with_number(ns, j) && !taken_before(
                        ns,
                        old_out,
                        j,
                        ns[j],
                    )) {
                        assert forall|k: u32| 1 <= k < nr[j] implies taken_before(ns, nr, j, k) by {
                            assert(taken_before(ns, nr, j, k) == taken_before(ns, old_out, j, k));
                        }
                    }
                } else {
                    assert(nr[j] == assigned);
                    assert(taken_before(ns, nr, j, ns[j]) == old_used.contains(ns[j]));
                    assert(taken_before(ns, nr, j, assigned) == old_used.contains(assigned));
                    if !keep {
                        assert forall|k: u32| 1 <= k < nr[j] implies taken_before(ns, nr, j, k) by {
                            assert(taken_before(ns, nr, j, k) == taken_before(ns, old_out, j, k));
                            assert(old_used.contains(k));
                        }
                    }
                }
            }
            assert forall|k: u32| 1 <= k < next implies used@.contains(k) by {
                assert(old_used.contains(k));
            }
            assert forall|j: int| 0 <= j < i + 1 implies (#[trigger] out@[j]).name
                == channels@.take(i + 1)[j].name && out@[j].stream_url == channels@.take(
                i + 1,
            )[j].stream_url && out@[j].channel_code == channels@.take(i + 1)[j].channel_code by {
                if j < i {
                    assert(channels@.take(i + 1)[j] == channels@.take(i as int)[j]);
                }
            }
        }
        i = i + 1;
    }
    proof {
        assert(channels@.take(n as int) =~= channels@);
        lemma_renumbered_distinct(ns, numbers_of(out@));
    }
    out
}

// ---------------------------------------------------------------------------
// Channel order
// ---------------------------------------------------------------------------

/// `a < b` in the order of `str`: by characters, a proper prefix first.
pub open spec fn str_lt(a: Seq<char>, b: Seq<char>) -> bool
    decreases a.len(),
{
    if a.len() == 0 {
        b.len() > 0
    } else if b.len() == 0 {
        false
    } else if a[0] != b[0] {
        a[0] < b[0]
    } else {
        str_lt(a.drop_first(), b.drop_first())
    }
}

/// `a < b` for optional channel codes: no code first.
pub open spec fn code_lt(a: Option<String>, b: Option<String>) -> bool {
    match (a, b) {
        (None, Some(_)) => true,
        (Some(x), Some(y)) => str_lt(x@, y@),
        _ => false,
    }
}

/// The channel order: by number, then name, then channel code.
pub open spec fn channel_lt(a: Channel, b: Channel) -> bool {
    a.number < b.number || (a.number == b.number && (str_lt(a.name@, b.name@) || (a.name@
        == b.name@ && code_lt(a.channel_code, b.channel_code))))
}

/// Where `x` goes into `s` from index `from` on: before the first channel
/// that `x` precedes.
pub open spec fn insert_pos(s: Seq<Channel>, x: Channel, from: int) -> int
    decreases s.len() - from,
{
    if from < 0 || from >= s.len() {
        s.len() as int
    } else if channel_lt(x, s[from]) {
        from
    } else {
        insert_pos(s, x, from + 1)
    }
}

/// The channels sorted stably: each is inserted after those it does not
/// precede.
pub open spec fn sort_spec(s: Seq<Channel>) -> Seq<Channel>
    decreases s.len(),
{
    if s.len() == 0 {
        s
    } else {
        let sorted = sort_spec(s.drop_last());
        sorted.insert(insert_pos(sorted, s.last(), 0), s.last())
    }
}

pub open spec fn sorted_by_number(s: Seq<Channel>) -> bool {
    forall|a: int, b: int| 0 <= a <= b < s.len() ==> #[trigger] s[a].number <= #[trigger] s[b].number
}

/// Sorting keeps the numbers distinct.
proof fn lemma_sorted_distinct(u: Seq<Channel>, s: Seq<Channel>)
    requires
        distinct_numbers(numbers_of(u)),
        s.to_multiset() == u.to_multiset(),
    ensures
        distinct_numbers(numbers_of(s)),
{
    assert forall|i: int, j: int| 0 <= i < j < s.len() implies numbers_of(s)[i] != numbers_of(s)[j] by {
        if s[i].number == s[j].number {
            assert(s.contains(s[i]));
            assert(s.to_multiset().count(s[i]) > 0);
            assert(u.contains(s[i]));
            assert(s.contains(s[j]));
            assert(s.to_multiset().count(s[j]) > 0);
            assert(u.contains(s[j]));
            let a = choose|a: int| 0 <= a < u.len() && u[a] == s[i];
            let b = choose|b: int| 0 <= b < u.len() && u[b] == s[j];
            assert(numbers_of(u)[a] == numbers_of(u)[b]);
            if a == b {
                // the same channel twice in `s` means it is twice in `u`
                assert(s[i] == s[j]);
                lemma_count_two(s, i, j);
                assert(u.to_multiset().count(s[i]) >= 2);
                lemma_count_le_one(u, a);
            }
        }
    }
}

proof fn lemma_count_two(s: Seq<Channel>, i: int, j: int)
    requires
        0 <= i < j < s.len(),
        s[i] == s[j],
    ensures
        s.to_multiset().count(s[i]) >= 2,
{
    let x = s[i];
    let s1 = s.remove(j);
    assert(s1[i] == x);
    assert(s1.contains(x));
    assert(s1.to_multiset().count(x) > 0);
    assert(s.remove(j).to_multiset() == s.to_multiset().remove(s[j]));
}

/// In a sequence whose numbers are distinct, a channel occurs once.
proof fn lemma_count_le_one(u: Seq<Channel>, a: int)
    requires
        distinct_numbers(numbers_of(u)),
        0 <= a < u.len(),
    ensures
        u.to_multiset().count(u[a]) <= 1,
{
    let x = u[a];
    let r = u.remove(a);
    assert(u.remove(a).to_multiset() == u.to_multiset().remove(u[a]));
    assert(!r.contains(x)) by {
        if r.contains(x) {
            let k = choose|k: int| 0 <= k < r.len() && r[k] == x;
            if k < a {
                assert(u[k] == x);
                assert(numbers_of(u)[k] == numbers_of(u)[a]);
            } else {
                assert(u[k + 1] == x);
                assert(numbers_of(u)[a] == numbers_of(u)[k + 1]);
            }
        }
    }
    assert(r.to_multiset().count(x) == 0);
}

fn chars_lt(a: &[char], b: &[char]) -> (r: bool)
    ensures
        r == str_lt(a@, b@),
{
    let mut i: usize = 0;
    assert(a@.skip(0) =~= a@);
    assert(b@.skip(0) =~= b@);
    while i < a.len() && i < b.len() && a[i] == b[i]
        invariant
            i <= a@.len(),
            i <= b@.len(),
            str_lt(a@, b@) == str_lt(a@.skip(i as int), b@.skip(i as int)),
        decreases a@.len() - i,
    {
        assert(a@.skip(i as int).drop_first() =~= a@.skip(i + 1));
        assert(b@.skip(i as int).drop_first() =~= b@.skip(i + 1));
        i = i + 1;
    }
    if i == a.len() {
        i < b.len()
    } else if i == b.len() {
        false
    } else {
        a[i] < b[i]
    }
}

fn code_less(a: &Option<String>, b: &Option<String>) -> (r: bool)
    ensures
        r == code_lt(*a, *b),
{
    match (a, b) {
        (None, Some(_)) => true,
        (Some(x), Some(y)) => chars_lt(chars_of(x.as_str()).as_slice(), chars_of(y.as_str()).as_slice()),
        _ => false,
    }
}

fn channel_less(a: &Channel, b: &Channel) -> (r: bool)
    ensures
        r == channel_lt(*a, *b),
{
    if a.number != b.number {
        return a.number < b.number;
    }
    let an = chars_of(a.name.as_str());
    let bn = chars_of(b.name.as_str());
    if chars_lt(an.as_slice(), bn.as_slice()) {
        return true;
    }
    if !seq_equal(an.as_slice(), bn.as_slice()) {
        return false;
    }
    code_less(&a.channel_code, &b.channel_code)
}

proof fn lemma_insert_pos(s: Seq<Channel>, x: Channel, from: int)
    requires
        0 <= from <= s.len(),
    ensures
        from <= insert_pos(s, x, from) <= s.len(),
        forall|k: int| from <= k < insert_pos(s, x, from) ==> !channel_lt(x, #[trigger] s[k]),
        insert_pos(s, x, from) < s.len() ==> channel_lt(x, s[insert_pos(s, x, from)]),
    decreases s.len() - from,
{
    if from < s.len() && !channel_lt(x, s[from]) {
        lemma_insert_pos(s, x, from + 1);
    }
}

/// In the channel order: by number, then name, then channel code.
pub open spec fn sorted_in_channel_order(s: Seq<Channel>) -> bool {
    forall|a: int, b: int| 0 <= a < b < s.len() ==> !channel_lt(#[trigger] s[b], #[trigger] s[a])
}

proof fn lemma_str_lt_order(a: Seq<char>, b: Seq<char>, c: Seq<char>)
    ensures
        str_lt(a, b) ==> !str_lt(b, a),
        str_lt(a, b) && str_lt(b, c) ==> str_lt(a, c),
    decreases a.len(),
{
    if a.len() > 0 && b.len() > 0 && c.len() > 0 && a[0] == b[0] && b[0] == c[0] {
        lemma_str_lt_order(a.drop_first(), b.drop_first(), c.drop_first());
    } else if a.len() > 0 && b.len() > 0 && a[0] == b[0] {
        lemma_str_lt_order(a.drop_first(), b.drop_first(), b.drop_first());
    }
}

/// The channel order is a strict order.
proof fn lemma_channel_lt_order(x: Channel, y: Channel, z: Channel)
    ensures
        channel_lt(x, y) ==> !channel_lt(y, x),
        channel_lt(x, y) && channel_lt(y, z) ==> channel_lt(x, z),
{
    lemma_str_lt_order(x.name@, y.name@, z.name@);
    match (x.channel_code, y.channel_code, z.channel_code) {
        (Some(a), Some(b), Some(c)) => lemma_str_lt_order(a@, b@, c@),
        (Some(a), Some(b), None) => lemma_str_lt_order(a@, b@, b@),
        (None, Some(b), Some(c)) => lemma_str_lt_order(b@, c@, c@),
        _ => {},
    }
}

/// Orders the channels by number, then name, then channel code, keeping
/// the order of channels that are equal in all three.
pub fn sort_channels_by_number(channels: Vec<Channel>) -> (r: Vec<Channel>)
    ensures
        r@ == sort_spec(channels@),
        sorted_by_number(r@),
        sorted_in_channel_order(r@),
        r@.to_multiset() == channels@.to_multiset(),
{
    let mut out: Vec<Channel> = Vec::new();
    let mut i: usize = 0;
    while i < channels.len()
        invariant
            i <= channels@.len(),
            out@ == sort_spec(channels@.take(i as int)),
            sorted_by_number(out@),
            sorted_in_channel_order(out@),
            out@.to_multiset() == channels@.take(i as int).to_multiset(),
        decreases channels@.len() - i,
    {
        let x = channels[i].clone();
        let mut p: usize = 0;
        while p < out.len() && !channel_less(&x, &out[p])
            invariant
                p <= out@.len(),
                insert_pos(out@, x, 0) == insert_pos(out@, x, p as int),
            decreases out@.len() - p,
        {
            p = p + 1;
        }
        let ghost before = out@;
        proof {
            lemma_insert_pos(before, x, 0);
            assert(channels@.take(i as int + 1).drop_last() =~= channels@.take(i as int));
            assert(channels@.take(i as int + 1).last() == x);
            assert(channels@.take(i as int + 1) =~= channels@.take(i as int).push(x));
        }
        out.insert(p, x);
        proof {
            assert forall|a: int, b: int| 0 <= a <= b < out@.len() implies #[trigger] out@[a].number
                <= #[trigger] out@[b].number by {
                if a < p && b > p {
                    assert(out@[a] == before[a] && out@[b] == before[b - 1]);
                } else if a < p && b < p {
                    assert(out@[a] == before[a] && out@[b] == before[b]);
                } else if a > p {
                    assert(out@[a] == before[a - 1] && out@[b] == before[b - 1]);
                } else if a == p && b > p {
                    assert(out@[b] == before[b - 1]);
                    assert(channel_lt(x, before[p as int]));
                    assert(before[p as int].number <= before[b - 1].number);
                } else if a < p && b == p {
                    assert(out@[a] == before[a]);
                    assert(!channel_lt(x, before[a]));
                }
            }
            assert forall|a: int, b: int| 0 <= a < b < out@.len() implies !channel_lt(
                #[trigger] out@[b],
                #[trigger] out@[a],
            ) by {
                if a < p && b > p {
                    assert(out@[a] == before[a] && out@[b] == before[b - 1]);
                } else if a < p && b < p {
                    assert(out@[a] == before[a] && out@[b] == before[b]);
                } else if a > p {
                    assert(out@[a] == before[a - 1] && out@[b] == before[b - 1]);
                } else if a == p && b > p {
                    assert(out@[b] == before[b - 1]);
                    assert(channel_lt(x, before[p as int]));
                    lemma_channel_lt_order(before[b - 1], x, before[p as int]);
                    lemma_channel_lt_order(x, before[p as int], x);
                } else if a < p && b == p {
                    assert(out@[a] == before[a]);
                    assert(!channel_lt(x, before[a]));
                }
            }
        }
        i = i + 1;
    }
    assert(channels@.take(channels@.len() as int) =~= channels@);
    out
}

// ---------------------------------------------------------------------------
// Pairing
// ---------------------------------------------------------------------------

/// Everything but the pairing sessions stays.
pub open spec fn pairing_only(a: AppState, b: AppState) -> bool {
    &&& b.config_path == a.config_path
    &&& b.channel_number_overrides_path == a.channel_number_overrides_path
    &&& b.config == a.config
    &&& b.cache == a.cache
    &&& b.epg_cache == a.epg_cache
    &&& b.ctc_session == a.ctc_session
}

/// Everything but the caches stays.
pub open spec fn caches_only(a: AppState, b: AppState) -> bool {
    &&& b.config_path == a.config_path
    &&& b.channel_number_overrides_path == a.channel_number_overrides_path
    &&& b.config == a.config
    &&& b.ctc_session == a.ctc_session
    &&& b.pairing == a.pairing
}

impl AppState {
    /// `POST /api/v1/pairing/sessions`: opens a pairing session for a TV.
    pub fn create_pairing(
        &mut self,
        ctx: &RequestContext,
        parsed: Result<CreatePairingRequest, String>,
        now: u64,
        entropy: &mut Entropy,
    ) -> (r: Result<CreatePairingResponse, String>)
        ensures
            pairing_only(*old(self), *final(self)),
            match parsed {
                Err(m) => r matches Err(e) && e@ == error_response(400, "bad_request"@, m@)
                    && final(self).pairing@ == old(self).pairing@,
                Ok(req) => if trim(req.client_nonce@).len() == 0 {
                    r matches Err(e) && e@ == error_response(
                        400,
                        "missing_client_nonce"@,
                        "clientNonce is required"@,
                    ) && final(self).pairing@ == old(self).pairing@
                } else {
                    match create_outcome(
                        prune_spec(old(self).pairing@, now),
                        old(entropy).remaining(),
                    ) {
                        CreateOutcome::Failed { status, code, message } => r matches Err(e) && e@
                            == error_response(status, code, message) && final(self).pairing@
                            == prune_spec(old(self).pairing@, now),
                        CreateOutcome::Created { session_id, pairing_code, rest } => r matches Ok(
                            resp,
                        ) && resp.session_id@ == session_id && resp.pairing_code@ == pairing_code
                            && resp.expires_at == new_session(
                            req,
                            session_id,
                            pairing_code,
                            now,
                        ).expires_at && resp.poll_interval_seconds == POLL_INTERVAL_SECONDS
                            && final(self).pairing@ == prune_spec(old(self).pairing@, now).push(
                            new_session(req, session_id, pairing_code, now),
                        ),
                    }
                },
            },
    {
        match check_pairing_create(ctx, self) {
            PolicyDecision::Allow => {},
            PolicyDecision::Deny { status, code, message } => {
                return Err(json_error(status, code, message));
            },
        }
        let req = match parsed {
            Ok(r) => r,
            Err(e) => return Err(json_error(400, "bad_request", e.as_str())),
        };
        match self.pairing.create(req, now, entropy) {
            Ok(resp) => Ok(resp),
            Err(e) => Err(pairing_error(e)),
        }
    }

    /// `GET /api/v1/pairing/sessions/{id}`: what a TV polling its session
    /// with its nonce is told.
    pub fn poll_pairing(&mut self, request: &Request, now: u64) -> (r: Result<PollPairingResponse, String>)
        ensures
            pairing_only(*old(self), *final(self)),
            !starts_with(request.path@, "/api/v1/pairing/sessions/"@) ==> (r matches Err(e) && e@
                == error_response(404, "not_found"@, "not found"@) && final(self).pairing@ == old(
                self,
            ).pairing@),
            starts_with(request.path@, "/api/v1/pairing/sessions/"@) ==> match header_value(
                *request,
                "x-client-nonce"@,
            ) {
                None => r matches Err(e) && e@ == error_response(
                    401,
                    "invalid_client_nonce"@,
                    "valid client nonce required"@,
                ) && final(self).pairing@ == old(self).pairing@,
                Some(nonce) => {
                    let id = request.path@.skip("/api/v1/pairing/sessions/"@.len() as int);
                    &&& final(self).pairing@ == prune_spec(old(self).pairing@, now)
                    &&& match poll_spec(final(self).pairing@, id, nonce, now) {
                        crate::pairing::PollOutcome::BadNonce => r matches Err(e) && e@
                            == error_response(
                            401,
                            "invalid_client_nonce"@,
                            "valid client nonce required"@,
                        ),
                        o => r matches Ok(p) && poll_response_matches(
                            Ok::<PollPairingResponse, crate::pairing::PairingError>(p),
                            o,
                        ),
                    }
                },
            },
    {
        let path = chars_of(request.path.as_str());
        let prefix = lit("/api/v1/pairing/sessions/");
        proof {
            reveal_strlit("/api/v1/pairing/sessions/");
        }
        if !has_prefix(path.as_slice(), prefix.as_slice()) {
            return Err(json_error(404, "not_found", "not found"));
        }
        let session_id = string_of(slice_vec(path.as_slice(), 25, path.len()).as_slice());
        assert(session_id@ =~= request.path@.skip(25));
        let nonce = match lookup(&request.headers, "x-client-nonce") {
            Some(n) => n,
            None => return Err(
                json_error(401, "invalid_client_nonce", "valid client nonce required"),
            ),
        };
        let result = self.pairing.poll(session_id.as_str(), nonce.as_str(), now);
        match result {
            Ok(resp) => Ok(resp),
            Err(e) => Err(pairing_error(e)),
        }
    }
}

// ---------------------------------------------------------------------------
// The channel list
// ---------------------------------------------------------------------------

/// How a channel request goes on after the cache has been looked at.
#[derive(Debug)]
pub enum ChannelsStart {
    /// The answer is this response.
    Respond(String),
    /// The fresh cached list answers.
    Cached(ChannelResponse),
    /// The list is fetched from the provider's portal.
    FetchProvider { provider: ProviderConfig, stream: StreamProxyConfig, ttl: u64 },
    /// The list is fetched from the HTTP backend.
    FetchBackend { url: String, stream: StreamProxyConfig, ttl: u64 },
}

/// Once a refresh has filled the channel cache at `now`, with the TTL it was
/// started with, every authorized channel request until that TTL has passed
/// finds the cache fresh and is answered from it, without a fetch.
pub proof fn law_refreshed_channels_are_served_from_cache(
    before: AppState,
    after: AppState,
    now: u64,
    later: u64,
)
    requires
        caches_only(before, after),
        after.cache@.cached_at == now,
        after.cache@.channels.len() > 0,
        later - now <= before.config.channel_cache_ttl_seconds,
    ensures
        channel_fresh(after.cache@, after.config.channel_cache_ttl_seconds, later),
{
}

pub open spec fn unauthorized() -> Seq<char> {
    error_response(401, "unauthorized"@, "valid bearer token required"@)
}

impl AppState {
    /// `GET /api/v1/channels`, before fetching: refuses a request without a
    /// valid client, answers from a fresh cache, or says where to fetch from.
    pub fn channels_start(&self, client: &Option<String>, now: u64) -> (r: ChannelsStart)
        ensures
            client is None ==> (r matches ChannelsStart::Respond(x) && x@ == unauthorized()),
            client is Some ==> {
                let ttl = self.config.channel_cache_ttl_seconds;
                if channel_fresh(self.cache@, ttl, now) {
                    r matches ChannelsStart::Cached(resp) && resp.data@ == self.cache@.channels
                        && resp.cache == (crate::cache::CacheMeta {
                        stale: false,
                        cached_at: self.cache@.cached_at,
                        ttl_seconds: ttl,
                    })
                } else {
                    match self.config.provider {
                        Some(p) => r matches ChannelsStart::FetchProvider { provider, stream, ttl: t }
                            && provider == p && stream == self.config.stream && t == ttl,
                        None => match self.config.backend_channels_url {
                            Some(u) => r matches ChannelsStart::FetchBackend { url, stream, ttl: t }
                                && url@ == u@ && stream == self.config.stream && t == ttl,
                            None => r matches ChannelsStart::Respond(x) && x@ == error_response(
                                503,
                                "backend_not_configured"@,
                                "provider or backend channel URL is not configured"@,
                            ),
                        },
                    }
                }
            },
    {
        if client.is_none() {
            return ChannelsStart::Respond(
                json_error(401, "unauthorized", "valid bearer token required"),
            );
        }
        let ttl = self.config.channel_cache_ttl_seconds;
        if self.cache.is_fresh(ttl, now) {
            match self.cache.response(ttl, false) {
                Some(resp) => return ChannelsStart::Cached(resp),
                None => {},
            }
        }
        match &self.config.provider {
            Some(p) => ChannelsStart::FetchProvider {
                provider: p.clone(),
                stream: self.config.stream.clone(),
                ttl,
            },
            None => match &self.config.backend_channels_url {
                Some(u) => ChannelsStart::FetchBackend {
                    url: u.clone(),
                    stream: self.config.stream.clone(),
                    ttl,
                },
                None => ChannelsStart::Respond(
                    json_error(
                        503,
                        "backend_not_configured",
                        "provider or backend channel URL is not configured",
                    ),
                ),
            },
        }
    }

    /// `GET /api/v1/channels`, after fetching: a fetched list gets unique
    /// numbers, is sorted, cached and served; when fetching failed the
    /// cached list is served as stale, and without one the error is.
    pub fn channels_finish(&mut self, fetched: Result<Vec<Channel>, String>, ttl: u64, now: u64) -> (r:
        Result<ChannelResponse, String>)
        requires
            fetched matches Ok(v) ==> 0 < v@.len() <= u32::MAX,
        ensures
            caches_only(*old(self), *final(self)),
            final(self).epg_cache == old(self).epg_cache,
            match fetched {
                Ok(v) => {
                    let fixed = final(self).cache@.channels;
                    &&& final(self).cache@.cached_at == now
                    &&& fixed.len() == v@.len()
                    &&& distinct_numbers(numbers_of(fixed))
                    &&& sorted_by_number(fixed)
                    &&& sorted_in_channel_order(fixed)
                    &&& exists|u: Seq<Channel>|
                        renumbered(numbers_of(v@), numbers_of(u)) && same_but_numbers(v@, u)
                            && fixed == sort_spec(u)
                    &&& r matches Ok(resp) && resp.data@ == fixed && resp.cache
                        == (crate::cache::CacheMeta { stale: false, cached_at: now, ttl_seconds: ttl })
                },
                Err(e) => {
                    &&& final(self).cache == old(self).cache
                    &&& match channel_response_spec(old(self).cache@, ttl, true) {
                        Some((data, meta)) => r matches Ok(resp) && resp.data@ == data && resp.cache
                            == meta,
                        None => r matches Err(x) && x@ == error_response(
                            503,
                            "backend_unavailable"@,
                            e@,
                        ),
                    }
                },
            },
    {
        match fetched {
            Ok(channels) => {
                let unique = ensure_unique_channel_numbers(channels);
                let ghost u = unique@;
                let sorted = sort_channels_by_number(unique);
                let ghost fixed = sorted@;
                proof {
                    assert(fixed.to_multiset().len() == u.to_multiset().len());
                    assert(fixed.len() == u.len());
                    assert(renumbered(numbers_of(channels@), numbers_of(u)) && same_but_numbers(
                        channels@,
                        u,
                    ) && fixed == sort_spec(u));
                    lemma_sorted_distinct(u, fixed);
                }
                self.cache.update(sorted, now);
                match self.cache.response(ttl, false) {
                    Some(resp) => Ok(resp),
                    None => {
                        proof {
                            assert(false);
                        }
                        Err(String::new())
                    },
                }
            },
            Err(e) => match self.cache.response(ttl, true) {
                Some(stale) => Ok(stale),
                None => Err(json_error(503, "backend_unavailable", e.as_str())),
            },
        }
    }
}

// ---------------------------------------------------------------------------
// The programme guide
// ---------------------------------------------------------------------------

/// How a guide request goes on after it has been checked and the cache
/// looked at.
#[derive(Debug)]
pub enum EpgStart {
    Respond(String),
    Cached(EpgResponse),
    Fetch { provider: ProviderConfig, key: EpgCacheKey, ttl: u64 },
}

/// Once a refresh has stored the guide for a channel and day at `now`, every
/// authorized request for that guide until the TTL has passed finds it
/// fresh and is answered from the cache, without a fetch.
pub proof fn law_refreshed_guide_is_served_from_cache(
    before: AppState,
    after: AppState,
    key: (Seq<char>, i32),
    now: u64,
    later: u64,
)
    requires
        caches_only(before, after),
        after.epg_cache@.contains_key(key),
        after.epg_cache@[key].1 == now,
        later - now <= before.config.epg_cache_ttl_seconds,
    ensures
        epg_fresh(after.epg_cache@, key, after.config.epg_cache_ttl_seconds, later),
{
}

/// The channel code of a guide request: the `channelCode` parameter, when
/// not empty.
pub open spec fn channel_code_spec(request: Request) -> Option<Seq<char>> {
    match query_value(request, "channelCode"@) {
        Some(c) => if c.len() > 0 {
            Some(c)
        } else {
            None
        },
        None => None,
    }
}

/// The day of a guide request: `dateOffset` (`0` when absent), which must
/// be -1, 0 or 1.
pub open spec fn date_offset_spec(request: Request) -> Option<int> {
    let raw = match query_value(request, "dateOffset"@) {
        Some(d) => d,
        None => "0"@,
    };
    match parse_i32_spec(raw) {
        Some(v) => if -1 <= v <= 1 {
            Some(v)
        } else {
            None
        },
        None => None,
    }
}

impl AppState {
    /// `GET /api/v1/epg/day`, before fetching.
    pub fn epg_start(&self, request: &Request, client: &Option<String>, now: u64) -> (r: EpgStart)
        ensures
            client is None ==> (r matches EpgStart::Respond(x) && x@ == unauthorized()),
            client is Some ==> match channel_code_spec(*request) {
                None => r matches EpgStart::Respond(x) && x@ == error_response(
                    400,
                    "missing_channel_code"@,
                    "channelCode query parameter is required"@,
                ),
                Some(code) => match date_offset_spec(*request) {
                    None => r matches EpgStart::Respond(x) && x@ == error_response(
                        400,
                        "invalid_date_offset"@,
                        "dateOffset must be -1, 0, or 1"@,
                    ),
                    Some(offset) => {
                        let key = (code, offset as i32);
                        let ttl = self.config.epg_cache_ttl_seconds;
                        if epg_fresh(self.epg_cache@, key, ttl, now) {
                            r matches EpgStart::Cached(resp) && resp.data@ == self.epg_cache@[key].0
                                && resp.cache == (crate::cache::CacheMeta {
                                stale: false,
                                cached_at: self.epg_cache@[key].1,
                                ttl_seconds: ttl,
                            })
                        } else {
                            match self.config.provider {
                                None => r matches EpgStart::Respond(x) && x@ == error_response(
                                    503,
                                    "backend_not_configured"@,
                                    "provider is not configured"@,
                                ),
                                Some(p) => r matches EpgStart::Fetch { provider, key: k, ttl: t }
                                    && provider == p && k.key_view() == key && t == ttl,
                            }
                        }
                    },
                },
            },
    {
        if client.is_none() {
            return EpgStart::Respond(json_error(401, "unauthorized", "valid bearer token required"));
        }
        let code = match lookup(&request.query, "channelCode") {
            Some(c) => if c.as_str().unicode_len() > 0 {
                c
            } else {
                return EpgStart::Respond(
                    json_error(
                        400,
                        "missing_channel_code",
                        "channelCode query parameter is required",
                    ),
                );
            },
            None => return EpgStart::Respond(
                json_error(400, "missing_channel_code", "channelCode query parameter is required"),
            ),
        };
        let raw = match lookup(&request.query, "dateOffset") {
            Some(d) => chars_of(d.as_str()),
            None => lit("0"),
        };
        let date_offset = match parse_i32(raw.as_slice()) {
            Some(v) => if -1 <= v && v <= 1 {
                v
            } else {
                return EpgStart::Respond(
                    json_error(400, "invalid_date_offset", "dateOffset must be -1, 0, or 1"),
                );
            },
            None => return EpgStart::Respond(
                json_error(400, "invalid_date_offset", "dateOffset must be -1, 0, or 1"),
            ),
        };
        let key = EpgCacheKey { channel_code: code, date_offset };
        let ttl = self.config.epg_cache_ttl_seconds;
        if self.epg_cache.is_fresh(&key, ttl, now) {
            match self.epg_cache.response(&key, ttl, false) {
                Some(resp) => return EpgStart::Cached(resp),
                None => {},
            }
        }
        match &self.config.provider {
            None => EpgStart::Respond(
                json_error(503, "backend_not_configured", "provider is not configured"),
            ),
            Some(p) => EpgStart::Fetch { provider: p.clone(), key, ttl },
        }
    }

    /// `GET /api/v1/epg/day`, after fetching: fetched programmes are cached
    /// and served; when fetching failed the cached guide is served as
    /// stale, and without one the error is.
    pub fn epg_finish(
        &mut self,
        key: EpgCacheKey,
        ttl: u64,
        fetched: Result<Vec<Program>, String>,
        now: u64,
    ) -> (r: Result<EpgResponse, String>)
        ensures
            caches_only(*old(self), *final(self)),
            final(self).cache == old(self).cache,
            match fetched {
                Ok(v) => {
                    &&& final(self).epg_cache@ == old(self).epg_cache@.insert(
                        key.key_view(),
                        (v@, now),
                    )
                    &&& r matches Ok(resp) && resp.data@ == v@ && resp.cache
                        == (crate::cache::CacheMeta { stale: false, cached_at: now, ttl_seconds: ttl })
                },
                Err(e) => {
                    &&& final(self).epg_cache == old(self).epg_cache
                    &&& match epg_response_spec(old(self).epg_cache@, key.key_view(), ttl, true) {
                        Some((data, meta)) => r matches Ok(resp) && resp.data@ == data && resp.cache
                            == meta,
                        None => r matches Err(x) && x@ == error_response(
                            503,
                            "backend_unavailable"@,
                            e@,
                        ),
                    }
                },
            },
    {
        match fetched {
            Ok(programs) => {
                let k2 = key.clone();
                self.epg_cache.update(key, programs, now);
                match self.epg_cache.response(&k2, ttl, false) {
                    Some(resp) => Ok(resp),
                    None => {
                        proof {
                            assert(false);
                        }
                        Err(String::new())
                    },
                }
            },
            Err(e) => match self.epg_cache.response(&key, ttl, true) {
                Some(stale) => Ok(stale),
                None => Err(json_error(503, "backend_unavailable", e.as_str())),
            },
        }
    }
}

} // verus!
