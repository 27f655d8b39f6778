//! Process listing support: the record the UI picks a target from, and the
//! name filter with its closest-match ordering. Enumerating the live
//! processes is the caller's affair; the filtering and ordering live here.

use vstd::prelude::*;
use vstd::string::StrSliceExecFns;
use vstd::utf8::encode_utf8;

verus! {

/// One running process: its identifier and its name.
#[derive(Debug, Clone)]
pub struct ProcInfo {
    pub pid: u32,
    pub name: String,
}

impl ProcInfo {
    pub fn new(pid: u32, name: String) -> (r: ProcInfo)
        ensures
            r.pid == pid,
            r.name == name,
    {
        ProcInfo { pid, name }
    }
}

/// What `str::to_lowercase` returns; the result depends on the characters
/// alone.
pub uninterp spec fn lower_of(s: Seq<char>) -> Seq<char>;

/// Relies on `str::to_lowercase`: the lowercased text is a function of the
/// input characters alone, and an empty string stays empty.
#[verifier::external_body]
fn to_lowercase_str(s: &str) -> (r: String)
    ensures
        r@ == lower_of(s@),
        s@.len() == 0 ==> r@.len() == 0,
{
    s.to_lowercase()
}

/// A whitespace character, as `str::trim` understands it.
pub open spec fn is_space_char(c: char) -> bool {
    ||| c == ' '
    ||| (0x09 <= (c as u32) <= 0x0d)
    ||| (c as u32) == 0x85
    ||| (c as u32) == 0xa0
    ||| (c as u32) == 0x1680
    ||| (0x2000 <= (c as u32) <= 0x200a)
    ||| (c as u32) == 0x2028
    ||| (c as u32) == 0x2029
    ||| (c as u32) == 0x202f
    ||| (c as u32) == 0x205f
    ||| (c as u32) == 0x3000
}

/// The number of leading whitespace characters.
pub open spec fn space_run(s: Seq<char>) -> int
    decreases s.len(),
{
    if s.len() == 0 || !is_space_char(s[0]) {
        0
    } else {
        1 + space_run(s.drop_first())
    }
}

/// `s` without leading or trailing whitespace.
pub open spec fn spec_trim(s: Seq<char>) -> Seq<char> {
    let a = space_run(s);
    if a == s.len() {
        Seq::<char>::empty()
    } else {
        let b = space_run(s.reverse());
        s.subrange(a, s.len() - b)
    }
}

proof fn lemma_space_run(s: Seq<char>)
    ensures
        0 <= space_run(s) <= s.len(),
        forall|k: int| 0 <= k < space_run(s) ==> is_space_char(#[trigger] s[k]),
        space_run(s) < s.len() ==> !is_space_char(s[space_run(s)]),
    decreases s.len(),
{
    if s.len() == 0 || !is_space_char(s[0]) {
    } else {
        lemma_space_run(s.drop_first());
        let r = space_run(s);
        assert forall|k: int| 0 <= k < r implies is_space_char(#[trigger] s[k]) by {
            if k > 0 {
                assert(s.drop_first()[k - 1] == s[k]);
            }
        }
        if r < s.len() {
            assert(s.drop_first()[r - 1] == s[r]);
        }
    }
}

proof fn lemma_space_run_eq(s: Seq<char>, m: int)
    requires
        0 <= m <= s.len(),
        forall|k: int| 0 <= k < m ==> is_space_char(#[trigger] s[k]),
        m < s.len() ==> !is_space_char(s[m]),
    ensures
        space_run(s) == m,
    decreases s.len(),
{
    if s.len() == 0 {
    } else if m == 0 {
    } else {
        assert(is_space_char(s[0]));
        let t = s.drop_first();
        assert forall|k: int| 0 <= k < m - 1 implies is_space_char(#[trigger] t[k]) by {
            assert(t[k] == s[k + 1]);
        }
        if m - 1 < t.len() {
            assert(t[m - 1] == s[m]);
        }
        lemma_space_run_eq(t, m - 1);
    }
}

/// Exactly one space character, for the trim scan.
fn is_space_exec(c: char) -> (r: bool)
    ensures
        r == is_space_char(c),
{
    let u = c as u32;
    u == 0x20 || (0x09 <= u && u <= 0x0d) || u == 0x85 || u == 0xa0 || u == 0x1680 || (0x2000 <= u
        && u <= 0x200a) || u == 0x2028 || u == 0x2029 || u == 0x202f || u == 0x205f || u == 0x3000
}

/// `s` without leading or trailing whitespace, as `str::trim` gives it.
fn trim_str<'a>(s: &'a str) -> (r: &'a str)
    ensures
        r@ == spec_trim(s@),
{
    let n = s.unicode_len();
    let mut a: usize = 0;
    while a < n && is_space_exec(s.get_char(a))
        invariant
            a <= n,
            n == s@.len(),
            forall|k: int| 0 <= k < a ==> is_space_char(#[trigger] s@[k]),
        decreases n - a,
    {
        a = a + 1;
    }
    proof {
        lemma_space_run_eq(s@, a as int);
    }
    if a == n {
        proof {
            reveal_strlit("");
        }
        assert(""@ =~= spec_trim(s@));
        return "";
    }
    let mut b: usize = 0;
    while b < n && is_space_exec(s.get_char(n - 1 - b))
        invariant
            b <= n,
            n == s@.len(),
            forall|k: int| 0 <= k < b ==> is_space_char(#[trigger] s@.reverse()[k]),
        decreases n - b,
    {
        proof {
            assert(s@.reverse()[b as int] == s@[n - 1 - b]);
        }
        b = b + 1;
    }
    proof {
        if (b as int) < n {
            assert(s@.reverse()[b as int] == s@[n - 1 - b]);
        }
        lemma_space_run_eq(s@.reverse(), b as int);
        lemma_space_run(s@);
        assert(a + b <= n) by {
            assert(!is_space_char(s@[a as int]));
            if b > n - a {
                assert(s@.reverse()[n - 1 - a] == s@[a as int]);
            }
        }
    }
    s.substring_char(a, n - b)
}

/// Whether the characters of `b` form a prefix of `a`.
fn starts_with_chars(a: &str, b: &str) -> (r: bool)
    ensures
        r == (b@.len() <= a@.len() && a@.subrange(0, b@.len() as int) == b@),
{
    let na = a.unicode_len();
    let nb = b.unicode_len();
    if nb > na {
        return false;
    }
    let mut i: usize = 0;
    while i < nb
        invariant
            i <= nb,
            na == a@.len(),
            nb == b@.len(),
            nb <= na,
            forall|k: int| 0 <= k < i ==> a@[k] == b@[k],
        decreases nb - i,
    {
        if a.get_char(i) != b.get_char(i) {
            proof {
                assert(a@.subrange(0, nb as int) =~= b@ ==> a@[i as int] == b@[i as int]);
            }
            return false;
        }
        i = i + 1;
    }
    proof {
        assert(a@.subrange(0, nb as int) =~= b@);
    }
    true
}

/// The filter key in force: the lowercased, trimmed filter text.
pub open spec fn spec_filter_key(filter: Option<&str>) -> Seq<char> {
    match filter {
        None => lower_of(spec_trim(""@)),
        Some(s) => lower_of(spec_trim(s@)),
    }
}

/// The process matches the key: its lowercased name starts with it.
pub open spec fn matches_filter(p: ProcInfo, key: Seq<char>) -> bool {
    key.len() <= lower_of(p.name@).len() && lower_of(p.name@).subrange(0, key.len() as int) == key
}

/// The records whose lowercased names start with the key, in their
/// original order.
pub open spec fn filtered(procs: Seq<ProcInfo>, key: Seq<char>) -> Seq<ProcInfo>
    decreases procs.len(),
{
    if procs.len() == 0 {
        Seq::<ProcInfo>::empty()
    } else {
        (if matches_filter(procs[0], key) {
            seq![procs[0]]
        } else {
            Seq::<ProcInfo>::empty()
        }) + filtered(procs.drop_first(), key)
    }
}

/// The byte length of a process name, the sort key.
pub open spec fn name_byte_len(p: ProcInfo) -> int {
    (encode_utf8(p.name@).len() as usize) as int
}

/// Stable insertion by name length: `x` goes in front of the first record
/// whose name is at least as long.
pub open spec fn insert_by_len(x: ProcInfo, s: Seq<ProcInfo>) -> Seq<ProcInfo>
    decreases s.len(),
{
    if s.len() == 0 {
        seq![x]
    } else if name_byte_len(s[0]) >= name_byte_len(x) {
        seq![x] + s
    } else {
        seq![s[0]] + insert_by_len(x, s.drop_first())
    }
}

/// Stable sort by ascending name length.
pub open spec fn sort_by_len(s: Seq<ProcInfo>) -> Seq<ProcInfo>
    decreases s.len(),
{
    if s.len() == 0 {
        Seq::<ProcInfo>::empty()
    } else {
        insert_by_len(s[0], sort_by_len(s.drop_first()))
    }
}

proof fn lemma_insert_by_len_at(x: ProcInfo, s: Seq<ProcInfo>, j: int)
    requires
        0 <= j <= s.len(),
        forall|k: int| 0 <= k < j ==> name_byte_len(#[trigger] s[k]) < name_byte_len(x),
        j < s.len() ==> name_byte_len(s[j]) >= name_byte_len(x),
    ensures
        insert_by_len(x, s) == s.take(j) + seq![x] + s.skip(j),
    decreases s.len(),
{
    if s.len() == 0 {
        assert(insert_by_len(x, s) =~= s.take(j) + seq![x] + s.skip(j));
    } else if j == 0 {
        assert(s.take(0) =~= Seq::<ProcInfo>::empty());
        assert(s.skip(0) =~= s);
        assert(insert_by_len(x, s) =~= s.take(0) + seq![x] + s.skip(0));
    } else {
        let t = s.drop_first();
        assert forall|k: int| 0 <= k < j - 1 implies name_byte_len(#[trigger] t[k])
            < name_byte_len(x) by {
            assert(t[k] == s[k + 1]);
        }
        if j - 1 < t.len() {
            assert(t[j - 1] == s[j]);
        }
        lemma_insert_by_len_at(x, t, j - 1);
        assert(t.take(j - 1) =~= s.subrange(1, j));
        assert(t.skip(j - 1) =~= s.skip(j));
        assert(seq![s[0]] + (t.take(j - 1) + seq![x] + t.skip(j - 1)) =~= s.take(j) + seq![x]
            + s.skip(j));
    }
}

/// Insert a record into a sorted list at its stable position.
fn insert_sorted(out: &mut Vec<ProcInfo>, x: ProcInfo)
    ensures
        final(out)@ == insert_by_len(x, old(out)@),
{
    let xlen = x.name.as_str().len();
    let n = out.len();
    let mut j: usize = 0;
    while j < n && out[j].name.as_str().len() < xlen
        invariant
            j <= n,
            n == out@.len(),
            *out == *old(out),
            xlen == name_byte_len(x),
            forall|k: int| 0 <= k < j ==> name_byte_len(#[trigger] out@[k]) < name_byte_len(x),
        decreases n - j,
    {
        j = j + 1;
    }
    proof {
        lemma_insert_by_len_at(x, out@, j as int);
    }
    out.insert(j, x);
    proof {
        assert(final(out)@ =~= old(out)@.take(j as int) + seq![x] + old(out)@.skip(j as int));
    }
}

/// Filter a process list by name prefix and order it.
///
/// With an empty (or absent, or all-whitespace) filter the list comes back
/// as it was. Otherwise only the records whose lowercased name starts with
/// the lowercased, trimmed filter remain, stably ordered by ascending name
/// length — shorter names are likelier to be the intended target.
pub fn get_list(procs: Vec<ProcInfo>, filter: Option<&str>) -> (r: Vec<ProcInfo>)
    ensures
        spec_filter_key(filter).len() == 0 ==> r@ == procs@,
        spec_filter_key(filter).len() > 0 ==> r@ == sort_by_len(
            filtered(procs@, spec_filter_key(filter)),
        ),
{
    let raw: &str = match filter {
        Some(s) => s,
        None => {
            let e = "";
            proof {
                reveal_strlit("");
                assert(e@ =~= ""@);
            }
            e
        },
    };
    let f = to_lowercase_str(trim_str(raw));
    let ghost key = spec_filter_key(filter);
    proof {
        assert(f@ == key);
    }
    if f.unicode_len() == 0 {
        return procs;
    }
    let mut procs = procs;
    let ghost orig = procs@;
    let mut out: Vec<ProcInfo> = Vec::new();
    let ghost mut done: Seq<ProcInfo> = Seq::empty();
    proof {
        assert(filtered(done, key) =~= Seq::<ProcInfo>::empty());
        assert(sort_by_len(filtered(done, key)) =~= Seq::<ProcInfo>::empty());
        assert(orig =~= procs@ + done);
    }
    loop
        invariant
            f@ == key,
            key.len() > 0,
            orig == procs@ + done,
            out@ == sort_by_len(filtered(done, key)),
        ensures
            procs@.len() == 0,
            orig == procs@ + done,
            out@ == sort_by_len(filtered(done, key)),
        decreases procs@.len(),
    {
        let x = match procs.pop() {
            Some(x) => x,
            None => {
                break ;
            },
        };
        let ghost done_pre = done;
        proof {
            done = seq![x] + done;
            assert(orig =~= procs@ + done);
            assert(done[0] == x);
            assert(done.drop_first() =~= done_pre);
        }
        let lname = to_lowercase_str(x.name.as_str());
        if starts_with_chars(lname.as_str(), f.as_str()) {
            proof {
                assert(matches_filter(x, key));
                assert(filtered(done, key) == seq![x] + filtered(done_pre, key));
                assert((seq![x] + filtered(done_pre, key))[0] == x);
                assert((seq![x] + filtered(done_pre, key)).drop_first() =~= filtered(
                    done_pre,
                    key,
                ));
            }
            insert_sorted(&mut out, x);
        } else {
            proof {
                assert(!matches_filter(x, key));
                assert(filtered(done, key) =~= filtered(done_pre, key));
            }
        }
    }
    proof {
        assert(procs@.len() == 0);
        assert(orig =~= done);
    }
    out
}

} // verus!
