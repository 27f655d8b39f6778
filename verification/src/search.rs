//! Byte-pattern search: every non-overlapping occurrence of a needle in a
//! buffer, scanning left to right.

use vstd::prelude::*;

verus! {

/// The needle `pat` occurs in `h` at offset `i`.
pub open spec fn is_match_at(h: Seq<u8>, pat: Seq<u8>, i: int) -> bool {
    &&& 0 <= i
    &&& i + pat.len() <= h.len()
    &&& h.subrange(i, i + pat.len() as int) == pat
}

/// The offsets of the non-overlapping occurrences of `pat` in `h` at or
/// after `i`, scanning left to right: after a match the scan resumes past
/// it, otherwise at the next byte.
pub open spec fn match_positions_from(h: Seq<u8>, pat: Seq<u8>, i: int) -> Seq<int>
    decreases h.len() - i,
{
    if pat.len() == 0 || i < 0 || i + pat.len() > h.len() {
        Seq::<int>::empty()
    } else if is_match_at(h, pat, i) {
        seq![i] + match_positions_from(h, pat, i + pat.len() as int)
    } else {
        match_positions_from(h, pat, i + 1)
    }
}

/// The offsets of all non-overlapping occurrences of `pat` in `h`.
pub open spec fn match_positions(h: Seq<u8>, pat: Seq<u8>) -> Seq<int> {
    match_positions_from(h, pat, 0)
}

/// Every reported offset is a real occurrence, offsets come in increasing
/// order, and consecutive occurrences do not overlap.
pub proof fn lemma_match_positions_sound(h: Seq<u8>, pat: Seq<u8>)
    ensures
        forall|j: int|
            0 <= j < match_positions(h, pat).len() ==> is_match_at(
                h,
                pat,
                #[trigger] match_positions(h, pat)[j],
            ),
        forall|j: int|
            0 <= j && j + 1 < match_positions(h, pat).len() ==> #[trigger] match_positions(
                h,
                pat,
            )[j] + pat.len() <= match_positions(h, pat)[j + 1],
{
    lemma_match_positions_from_sound(h, pat, 0);
}

proof fn lemma_match_positions_from_sound(h: Seq<u8>, pat: Seq<u8>, i: int)
    ensures
        forall|j: int|
            0 <= j < match_positions_from(h, pat, i).len() ==> is_match_at(
                h,
                pat,
                #[trigger] match_positions_from(h, pat, i)[j],
            ),
        forall|j: int|
            0 <= j < match_positions_from(h, pat, i).len() ==> #[trigger] match_positions_from(
                h,
                pat,
                i,
            )[j] >= i,
        forall|j: int|
            0 <= j && j + 1 < match_positions_from(h, pat, i).len()
                ==> #[trigger] match_positions_from(h, pat, i)[j] + pat.len()
                <= match_positions_from(h, pat, i)[j + 1],
    decreases h.len() - i,
{
    let mp = match_positions_from(h, pat, i);
    if pat.len() == 0 || i < 0 || i + pat.len() > h.len() {
    } else if is_match_at(h, pat, i) {
        lemma_match_positions_from_sound(h, pat, i + pat.len() as int);
        let rest = match_positions_from(h, pat, i + pat.len() as int);
        assert(mp == seq![i] + rest);
        assert(mp[0] == i);
        assert forall|j: int| 0 <= j < mp.len() implies is_match_at(h, pat, #[trigger] mp[j])
            && mp[j] >= i by {
            if j == 0 {
                assert(mp[0] == i);
            } else {
                assert(mp[j] == rest[j - 1]);
            }
        }
        assert forall|j: int| 0 <= j && j + 1 < mp.len() implies #[trigger] mp[j] + pat.len()
            <= mp[j + 1] by {
            if j == 0 {
                assert(mp[1] == rest[0]);
            } else {
                assert(mp[j] == rest[j - 1]);
                assert(mp[j + 1] == rest[j]);
            }
        }
    } else {
        lemma_match_positions_from_sound(h, pat, i + 1);
        assert(mp == match_positions_from(h, pat, i + 1));
    }
}

/// No occurrence is missed: any occurrence of `pat` in `h` overlaps one of
/// the reported occurrences.
pub proof fn lemma_match_positions_complete(h: Seq<u8>, pat: Seq<u8>, k: int)
    requires
        pat.len() > 0,
        is_match_at(h, pat, k),
    ensures
        exists|j: int|
            0 <= j < match_positions(h, pat).len() && #[trigger] match_positions(h, pat)[j] <= k
                < match_positions(h, pat)[j] + pat.len(),
{
    lemma_match_positions_from_complete(h, pat, 0, k);
    let mp0 = match_positions_from(h, pat, 0);
    let j = choose|j: int| 0 <= j < mp0.len() && #[trigger] mp0[j] <= k < mp0[j] + pat.len();
    assert(match_positions(h, pat) == mp0);
    assert(0 <= j < match_positions(h, pat).len() && match_positions(h, pat)[j] <= k
        < match_positions(h, pat)[j] + pat.len());
}

proof fn lemma_match_positions_from_complete(h: Seq<u8>, pat: Seq<u8>, i: int, k: int)
    requires
        pat.len() > 0,
        0 <= i <= k,
        is_match_at(h, pat, k),
    ensures
        exists|j: int|
            0 <= j < match_positions_from(h, pat, i).len() && #[trigger] match_positions_from(
                h,
                pat,
                i,
            )[j] <= k < match_positions_from(h, pat, i)[j] + pat.len(),
    decreases h.len() - i,
{
    let mp = match_positions_from(h, pat, i);
    assert(i + pat.len() <= h.len());
    if is_match_at(h, pat, i) {
        let rest = match_positions_from(h, pat, i + pat.len() as int);
        assert(mp == seq![i] + rest);
        if k < i + pat.len() {
            assert(mp[0] == i);
            assert(mp[0] <= k < mp[0] + pat.len());
        } else {
            lemma_match_positions_from_complete(h, pat, i + pat.len() as int, k);
            let j = choose|j: int|
                0 <= j < rest.len() && #[trigger] rest[j] <= k < rest[j] + pat.len();
            assert(mp[j + 1] == rest[j]);
            assert(0 <= j + 1 < mp.len() && mp[j + 1] <= k < mp[j + 1] + pat.len());
        }
    } else {
        assert(i != k);
        lemma_match_positions_from_complete(h, pat, i + 1, k);
        assert(mp == match_positions_from(h, pat, i + 1));
        let j = choose|j: int|
            0 <= j < match_positions_from(h, pat, i + 1).len()
                && #[trigger] match_positions_from(h, pat, i + 1)[j] <= k
                < match_positions_from(h, pat, i + 1)[j] + pat.len();
        assert(0 <= j < mp.len() && mp[j] <= k < mp[j] + pat.len());
    }
}

/// `pat` occurs in `h` at offset `i`; compared byte by byte.
pub(crate) fn is_match_at_exec(h: &Vec<u8>, pat: &Vec<u8>, i: usize) -> (r: bool)
    requires
        i + pat@.len() <= h@.len(),
    ensures
        r == is_match_at(h@, pat@, i as int),
{
    let m = pat.len();
    let n = h.len();
    let mut j: usize = 0;
    while j < m
        invariant
            j <= m,
            m == pat@.len(),
            n == h@.len(),
            i + m <= n,
            forall|t: int| 0 <= t < j ==> h@[i + t] == pat@[t],
        decreases m - j,
    {
        if h[i + j] != pat[j] {
            proof {
                assert(h@.subrange(i as int, i + m) =~= pat@ ==> h@[i + j] == pat@[j as int]);
            }
            return false;
        }
        j = j + 1;
    }
    proof {
        assert(h@.subrange(i as int, i + m) =~= pat@);
    }
    true
}

/// Find every non-overlapping occurrence of `pat` in `h`, in increasing
/// order of offset.
pub fn find_all(h: &Vec<u8>, pat: &Vec<u8>) -> (r: Vec<usize>)
    ensures
        r@.len() == match_positions(h@, pat@).len(),
        forall|j: int| 0 <= j < r@.len() ==> r@[j] == match_positions(h@, pat@)[j],
{
    let ghost mp = match_positions(h@, pat@);
    let mut out: Vec<usize> = Vec::new();
    let m = pat.len();
    let n = h.len();
    if m == 0 {
        return out;
    }
    let mut i: usize = 0;
    while i <= n && n - i >= m
        invariant
            m == pat@.len(),
            n == h@.len(),
            m >= 1,
            i <= n + 1,
            mp == match_positions(h@, pat@),
            mp =~= out@.map_values(|p: usize| p as int) + match_positions_from(
                h@,
                pat@,
                i as int,
            ),
        decreases n - i,
    {
        if is_match_at_exec(h, pat, i) {
            out.push(i);
            proof {
                assert(match_positions_from(h@, pat@, i as int) == seq![i as int]
                    + match_positions_from(h@, pat@, i + m));
                assert(out@.map_values(|p: usize| p as int) =~= out@.drop_last().map_values(
                    |p: usize| p as int,
                ) + seq![i as int]);
            }
            i = i + m;
        } else {
            proof {
                assert(match_positions_from(h@, pat@, i as int) == match_positions_from(
                    h@,
                    pat@,
                    i + 1,
                ));
            }
            i = i + 1;
        }
    }
    proof {
        assert(match_positions_from(h@, pat@, i as int) =~= Seq::<int>::empty());
        assert(mp =~= out@.map_values(|p: usize| p as int));
        assert(forall|j: int|
            0 <= j < out@.len() ==> out@.map_values(|p: usize| p as int)[j] == out@[j]);
    }
    out
}

} // verus!
