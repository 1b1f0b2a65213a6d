//! Splitting strings at a character, as `str::split`, `str::split_once`
//! and `str::rfind` do.
use vstd::prelude::*;

use crate::text::{find, find_char, find_from, lemma_find_from_facts, occurs_at, slice_vec};

verus! {

/// The part of `s` before the first `c`, or all of `s` (`s.split(c).next()`).
pub open spec fn before_char(s: Seq<char>, c: char) -> Seq<char> {
    match find(s, seq![c]) {
        Some(i) => s.take(i),
        None => s,
    }
}

/// `s.split_once(c)`.
pub open spec fn split_once_char(s: Seq<char>, c: char) -> Option<(Seq<char>, Seq<char>)> {
    match find(s, seq![c]) {
        Some(i) => Some((s.take(i), s.skip(i + 1))),
        None => None,
    }
}

/// The pieces of `s` between the occurrences of `c` (`s.split(c)`).
pub open spec fn split_on(s: Seq<char>, c: char) -> Seq<Seq<char>>
    decreases s.len(),
{
    match find(s, seq![c]) {
        Some(i) => if 0 <= i < s.len() {
            seq![s.take(i)] + split_on(s.skip(i + 1), c)
        } else {
            seq![s]
        },
        None => seq![s],
    }
}

/// The last index of `c` in `s`.
pub open spec fn last_index_of(s: Seq<char>, c: char) -> Option<int>
    decreases s.len(),
{
    if s.len() == 0 {
        None
    } else if s.last() == c {
        Some(s.len() - 1)
    } else {
        last_index_of(s.drop_last(), c)
    }
}

/// What `find` gives for a one-character pattern.
pub proof fn lemma_find_char(t: Seq<char>, c: char, r: Option<int>)
    requires
        r matches Some(k) ==> 0 <= k < t.len() && t[k] == c && forall|j: int| 0 <= j < k ==> t[j] != c,
        r is None ==> forall|j: int| 0 <= j < t.len() ==> t[j] != c,
    ensures
        find(t, seq![c]) == r,
{
    lemma_find_from_facts(t, seq![c], 0);
    assert forall|j: int| 0 <= j < t.len() implies occurs_at(t, seq![c], j) == (t[j] == c) by {
        if t[j] == c {
            assert(t.subrange(j, j + 1) =~= seq![c]);
        } else {
            assert(t.subrange(j, j + 1)[0] != seq![c][0]);
        }
    }
    match find(t, seq![c]) {
        Some(i) => {
            assert(t.subrange(i, i + 1)[0] == c);
            match r {
                Some(k) => {
                    if i < k {
                        assert(t[i] == c);
                    } else if k < i {
                        assert(occurs_at(t, seq![c], k));
                    }
                },
                None => {
                    assert(t[i] == c);
                },
            }
        },
        None => {
            if let Some(k) = r {
                assert(occurs_at(t, seq![c], k));
            }
        },
    }
}

/// The first index of `c` in `s[from..]`, counted from the start of `s`.
pub fn find_char_in(s: &[char], c: char, from: usize) -> (r: Option<usize>)
    requires
        from <= s@.len(),
    ensures
        r matches Some(i) ==> from <= i < s@.len() && find(s@.skip(from as int), seq![c]) == Some(
            i - from,
        ),
        r is None ==> find(s@.skip(from as int), seq![c]) is None,
{
    let r = find_char(s, c, from);
    proof {
        let t = s@.skip(from as int);
        match r {
            Some(i) => {
                assert forall|j: int| 0 <= j < i - from implies t[j] != c by {
                    assert(t[j] == s@[from + j]);
                }
                lemma_find_char(t, c, Some(i - from));
            },
            None => {
                assert forall|j: int| 0 <= j < t.len() implies t[j] != c by {
                    assert(t[j] == s@[from + j]);
                }
                lemma_find_char(t, c, None);
            },
        }
    }
    r
}

/// `s.split(c).next()`.
pub fn before_char_vec(s: &[char], c: char) -> (r: Vec<char>)
    ensures
        r@ == before_char(s@, c),
{
    assert(s@.skip(0) =~= s@);
    match find_char_in(s, c, 0) {
        Some(i) => slice_vec(s, 0, i),
        None => slice_vec(s, 0, s.len()),
    }
}

/// `s.split_once(c)`.
pub fn split_once_vec(s: &[char], c: char) -> (r: Option<(Vec<char>, Vec<char>)>)
    ensures
        match split_once_char(s@, c) {
            Some((a, b)) => r matches Some((x, y)) && x@ == a && y@ == b,
            None => r is None,
        },
{
    assert(s@.skip(0) =~= s@);
    let n = s.len();
    match find_char_in(s, c, 0) {
        Some(i) => Some((slice_vec(s, 0, i), slice_vec(s, i + 1, n))),
        None => None,
    }
}

/// `s.split(c)`, each piece as its characters.
pub fn split_vec(s: &[char], c: char) -> (r: Vec<Vec<char>>)
    ensures
        r@.map_values(|v: Vec<char>| v@) == split_on(s@, c),
{
    let mut out: Vec<Vec<char>> = Vec::new();
    let mut start: usize = 0;
    let n = s.len();
    assert(s@.skip(0) =~= s@);
    loop
        invariant
            n == s@.len(),
            start <= s@.len(),
            out@.map_values(|v: Vec<char>| v@) + split_on(s@.skip(start as int), c) == split_on(
                s@,
                c,
            ),
        decreases s@.len() - start,
    {
        let t = Ghost(s@.skip(start as int));
        match find_char_in(s, c, start) {
            Some(i) => {
                let piece = slice_vec(s, start, i);
                proof {
                    assert(piece@ =~= t@.take(i - start));
                    assert(t@.skip(i - start + 1) =~= s@.skip(i + 1));
                    assert(split_on(t@, c) == seq![t@.take(i - start)] + split_on(
                        t@.skip(i - start + 1),
                        c,
                    ));
                }
                let ghost before = out@.map_values(|v: Vec<char>| v@);
                out.push(piece);
                proof {
                    assert(out@.map_values(|v: Vec<char>| v@) =~= before.push(piece@));
                    assert(before.push(piece@) + split_on(s@.skip(i + 1), c) =~= before + (seq![
                        piece@,
                    ] + split_on(s@.skip(i + 1), c)));
                }
                start = i + 1;
            },
            None => {
                let piece = slice_vec(s, start, s.len());
                let ghost before = out@.map_values(|v: Vec<char>| v@);
                out.push(piece);
                proof {
                    assert(piece@ =~= t@);
                    assert(split_on(t@, c) == seq![t@]);
                    assert(out@.map_values(|v: Vec<char>| v@) =~= before.push(piece@));
                    assert(before.push(piece@) =~= before + seq![t@]);
                }
                return out;
            },
        }
    }
}

/// `s.rfind(c)`.
pub fn rfind_char(s: &[char], c: char) -> (r: Option<usize>)
    ensures
        r matches Some(i) ==> last_index_of(s@, c) == Some(i as int),
        r is None ==> last_index_of(s@, c) is None,
{
    let mut k: usize = s.len();
    assert(s@.take(s@.len() as int) =~= s@);
    while k > 0
        invariant
            k <= s@.len(),
            last_index_of(s@, c) == last_index_of(s@.take(k as int), c),
        decreases k,
    {
        assert(s@.take(k as int).drop_last() =~= s@.take(k - 1));
        if s[k - 1] == c {
            return Some(k - 1);
        }
        k = k - 1;
    }
    None
}

pub proof fn lemma_split_on_nonempty(s: Seq<char>, c: char)
    ensures
        split_on(s, c).len() >= 1,
    decreases s.len(),
{
    if let Some(i) = find(s, seq![c]) {
        if 0 <= i < s.len() {
            lemma_split_on_nonempty(s.skip(i + 1), c);
        }
    }
}

} // verus!
