//! Region enumeration from the text of a memory-map listing, in the format
//! of Linux `/proc/<pid>/maps`: each line starts with `HEXSTART-HEXEND PERMS`,
//! and only the first three permission characters are observed. The caller
//! hands in the raw bytes of the listing; the parse clips the regions to an
//! address range and keeps those matching a permission filter.

use vstd::prelude::*;

use crate::mem::{MemoryError, MemoryRegion, MemoryRegionPerms};

verus! {

/// ASCII whitespace, as it separates the fields of a maps line.
pub open spec fn is_ws(b: u8) -> bool {
    b == 0x20 || (0x09 <= b <= 0x0d)
}

/// Length of the longest prefix of `l` whose bytes all satisfy `p`.
pub open spec fn run_len(l: Seq<u8>, p: spec_fn(u8) -> bool) -> int
    decreases l.len(),
{
    if l.len() == 0 || !p(l[0]) {
        0
    } else {
        1 + run_len(l.drop_first(), p)
    }
}

proof fn lemma_run_len(l: Seq<u8>, p: spec_fn(u8) -> bool)
    ensures
        0 <= run_len(l, p) <= l.len(),
        forall|k: int| 0 <= k < run_len(l, p) ==> p(l[k]),
        run_len(l, p) < l.len() ==> !p(l[run_len(l, p)]),
    decreases l.len(),
{
    if l.len() == 0 || !p(l[0]) {
    } else {
        lemma_run_len(l.drop_first(), p);
        let r = run_len(l, p);
        assert forall|k: int| 0 <= k < r implies p(l[k]) by {
            if k > 0 {
                assert(l.drop_first()[k - 1] == l[k]);
            }
        }
        if r < l.len() {
            assert(l.drop_first()[r - 1] == l[r]);
        }
    }
}

proof fn lemma_run_len_eq(l: Seq<u8>, p: spec_fn(u8) -> bool, m: int)
    requires
        0 <= m <= l.len(),
        forall|k: int| 0 <= k < m ==> p(#[trigger] l[k]),
        m < l.len() ==> !p(l[m]),
    ensures
        run_len(l, p) == m,
    decreases l.len(),
{
    if l.len() == 0 {
    } else if m == 0 {
    } else {
        assert(p(l[0]));
        let t = l.drop_first();
        assert forall|k: int| 0 <= k < m - 1 implies p(#[trigger] t[k]) by {
            assert(t[k] == l[k + 1]);
        }
        if m - 1 < t.len() {
            assert(t[m - 1] == l[m]);
        }
        lemma_run_len_eq(t, p, m - 1);
    }
}

/// The predicate that scans up to a line break.
pub open spec fn not_newline_p() -> spec_fn(u8) -> bool {
    |b: u8| b != 0x0a
}

/// The predicate that scans over whitespace.
pub open spec fn ws_p() -> spec_fn(u8) -> bool {
    |b: u8| is_ws(b)
}

/// The predicate that scans over one field.
pub open spec fn not_ws_p() -> spec_fn(u8) -> bool {
    |b: u8| !is_ws(b)
}

/// The predicate that scans up to the dash of an address range.
pub open spec fn not_dash_p() -> spec_fn(u8) -> bool {
    |b: u8| b != 0x2d
}

/// The length of the first line of `t`.
pub open spec fn line_len(t: Seq<u8>) -> int {
    run_len(t, not_newline_p())
}

/// A line with a trailing carriage return removed.
pub open spec fn strip_cr(l: Seq<u8>) -> Seq<u8> {
    if l.len() >= 1 && l.last() == 0x0d {
        l.drop_last()
    } else {
        l
    }
}

/// The lines of `t`: split at each line feed, a trailing carriage return
/// stripped from each piece, and no empty final line when `t` ends with a
/// line feed.
pub open spec fn split_lines(t: Seq<u8>) -> Seq<Seq<u8>>
    decreases t.len(),
    via split_lines_decreases
{
    if t.len() == 0 {
        Seq::<Seq<u8>>::empty()
    } else {
        let n = line_len(t);
        let line = strip_cr(t.take(n));
        if n == t.len() {
            seq![line]
        } else {
            seq![line] + split_lines(t.skip(n + 1))
        }
    }
}

#[via_fn]
proof fn split_lines_decreases(t: Seq<u8>) {
    lemma_run_len(t, not_newline_p());
}

/// `b` is a hexadecimal digit.
pub open spec fn is_hex_digit_byte(b: u8) -> bool {
    ||| 0x30 <= b <= 0x39
    ||| 0x61 <= b <= 0x66
    ||| 0x41 <= b <= 0x46
}

/// The numeric value of a hexadecimal digit byte.
pub open spec fn hex_digit_val_byte(b: u8) -> nat {
    if 0x30 <= b <= 0x39 {
        (b - 0x30) as nat
    } else if 0x61 <= b <= 0x66 {
        (b - 0x57) as nat
    } else if 0x41 <= b <= 0x46 {
        (b - 0x37) as nat
    } else {
        0
    }
}

/// Every byte of `d` is a hexadecimal digit.
pub open spec fn all_hex_digit_bytes(d: Seq<u8>) -> bool {
    forall|k: int| 0 <= k < d.len() ==> is_hex_digit_byte(#[trigger] d[k])
}

/// The numeric value of a hexadecimal digit byte string, most significant
/// digit first.
pub open spec fn hex_val_bytes(d: Seq<u8>) -> nat
    decreases d.len(),
{
    if d.len() == 0 {
        0
    } else {
        hex_val_bytes(d.drop_last()) * 16 + hex_digit_val_byte(d.last())
    }
}

/// Read a hexadecimal field as `u64`: an optional leading `+`, then at
/// least one hex digit, within range.
pub open spec fn spec_parse_hex_field(t: Seq<u8>) -> Option<u64> {
    let d = if t.len() >= 1 && t[0] == 0x2b {
        t.drop_first()
    } else {
        t
    };
    if d.len() >= 1 && all_hex_digit_bytes(d) && hex_val_bytes(d) <= u64::MAX {
        Some(hex_val_bytes(d) as u64)
    } else {
        None
    }
}

/// What one maps line says: start and end address, and whether the region
/// is readable and writable. `None` when the line cannot be parsed.
pub open spec fn parse_line(l: Seq<u8>) -> Option<(u64, u64, bool, bool)> {
    let a1 = run_len(l, ws_p());
    let b1 = a1 + run_len(l.skip(a1), not_ws_p());
    let tok1 = l.subrange(a1, b1);
    let a2 = b1 + run_len(l.skip(b1), ws_p());
    let b2 = a2 + run_len(l.skip(a2), not_ws_p());
    let tok2 = l.subrange(a2, b2);
    if tok1.len() == 0 {
        None
    } else {
        let d1 = run_len(tok1, not_dash_p());
        if d1 == tok1.len() {
            None
        } else {
            let start_str = tok1.take(d1);
            let rest = tok1.skip(d1 + 1);
            let d2 = run_len(rest, not_dash_p());
            let end_str = rest.take(d2);
            match (spec_parse_hex_field(start_str), spec_parse_hex_field(end_str)) {
                (Some(s), Some(e)) => {
                    if tok2.len() < 3 {
                        None
                    } else {
                        let has_r = tok2[0] == 0x72 || tok2[1] == 0x72 || tok2[2] == 0x72;
                        let has_w = tok2[0] == 0x77 || tok2[1] == 0x77 || tok2[2] == 0x77;
                        Some((s, e, has_r, has_w))
                    }
                },
                _ => None,
            }
        }
    }
}

/// The permission list a parsed line carries: read first, then write.
pub open spec fn perms_seq(has_r: bool, has_w: bool) -> Seq<MemoryRegionPerms> {
    (if has_r {
        seq![MemoryRegionPerms::Read]
    } else {
        Seq::<MemoryRegionPerms>::empty()
    }) + (if has_w {
        seq![MemoryRegionPerms::Write]
    } else {
        Seq::<MemoryRegionPerms>::empty()
    })
}

/// At least one permission in the filter is among the region's.
pub open spec fn perm_match(filter: Seq<MemoryRegionPerms>, has_r: bool, has_w: bool) -> bool {
    exists|k: int|
        0 <= k < filter.len() && ((#[trigger] filter[k] == MemoryRegionPerms::Read && has_r) || (
        filter[k] == MemoryRegionPerms::Write && has_w))
}

/// A parsed line survives the address clip and the permission filter.
pub open spec fn region_included(
    t: (u64, u64, bool, bool),
    lo: u64,
    hi: u64,
    filter: Seq<MemoryRegionPerms>,
) -> bool {
    &&& !(t.1 <= lo || t.0 > hi)
    &&& perm_match(filter, t.2, t.3)
}

/// The regions that a list of lines yields under a clip and a filter, or
/// `None` as soon as one line fails to parse.
pub open spec fn spec_regions(
    lines: Seq<Seq<u8>>,
    lo: u64,
    hi: u64,
    filter: Seq<MemoryRegionPerms>,
) -> Option<Seq<(u64, u64, bool, bool)>>
    decreases lines.len(),
{
    if lines.len() == 0 {
        Some(Seq::<(u64, u64, bool, bool)>::empty())
    } else {
        match parse_line(lines[0]) {
            None => None,
            Some(t) => match spec_regions(lines.drop_first(), lo, hi, filter) {
                None => None,
                Some(rest) => if region_included(t, lo, hi, filter) {
                    Some(seq![t] + rest)
                } else {
                    Some(rest)
                },
            },
        }
    }
}

/// Every region that the parse yields overlaps the clip range and meets
/// the permission filter.
pub proof fn lemma_spec_regions_props(
    lines: Seq<Seq<u8>>,
    lo: u64,
    hi: u64,
    filter: Seq<MemoryRegionPerms>,
)
    ensures
        spec_regions(lines, lo, hi, filter) matches Some(rs) ==> forall|j: int|
            0 <= j < rs.len() ==> region_included(#[trigger] rs[j], lo, hi, filter),
    decreases lines.len(),
{
    if lines.len() == 0 {
    } else {
        lemma_spec_regions_props(lines.drop_first(), lo, hi, filter);
        match parse_line(lines[0]) {
            None => {},
            Some(t) => {
                match spec_regions(lines.drop_first(), lo, hi, filter) {
                    None => {},
                    Some(rest) => {
                        if region_included(t, lo, hi, filter) {
                            let rs = seq![t] + rest;
                            assert forall|j: int| 0 <= j < rs.len() implies region_included(
                                #[trigger] rs[j],
                                lo,
                                hi,
                                filter,
                            ) by {
                                if j > 0 {
                                    assert(rs[j] == rest[j - 1]);
                                }
                            }
                        }
                    },
                }
            },
        }
    }
}

/// Prepend already-collected regions to the outcome of parsing the
/// remaining lines.
pub open spec fn combine(
    done: Seq<(u64, u64, bool, bool)>,
    sub: Option<Seq<(u64, u64, bool, bool)>>,
) -> Option<Seq<(u64, u64, bool, bool)>> {
    match sub {
        None => None,
        Some(s) => Some(done + s),
    }
}

/// A listing whose parsed entries come in ascending, non-overlapping
/// order: each entry has `start < end` and ends at or before the next
/// entry begins.
pub open spec fn listing_ascending(lines: Seq<Seq<u8>>) -> bool {
    &&& forall|i: int|
        0 <= i < lines.len() ==> (match parse_line(#[trigger] lines[i]) {
            Some(t) => t.0 < t.1,
            None => true,
        })
    &&& forall|i: int|
        #![trigger parse_line(lines[i]), parse_line(lines[i + 1])]
        0 <= i && i + 1 < lines.len() ==> (match (parse_line(lines[i]), parse_line(
            lines[i + 1],
        )) {
            (Some(a), Some(b)) => a.1 <= b.0,
            _ => true,
        })
}

/// Ascending, non-overlapping order carries over from the listing to the
/// parsed region list, whatever the clip and the filter keep.
pub proof fn lemma_spec_regions_ascending(
    lines: Seq<Seq<u8>>,
    lo: u64,
    hi: u64,
    filter: Seq<MemoryRegionPerms>,
)
    requires
        listing_ascending(lines),
    ensures
        spec_regions(lines, lo, hi, filter) matches Some(rs) ==> {
            &&& (forall|j: int| 0 <= j < rs.len() ==> (#[trigger] rs[j]).0 < rs[j].1)
            &&& (forall|j: int| 0 <= j && j + 1 < rs.len() ==> (#[trigger] rs[j]).1 <= rs[j + 1].0)
            &&& (match parse_line(lines[0]) {
                Some(t) => lines.len() > 0 ==> forall|j: int|
                    0 <= j < rs.len() ==> t.0 <= (#[trigger] rs[j]).0,
                None => true,
            })
        },
    decreases lines.len(),
{
    if lines.len() == 0 {
    } else {
        match spec_regions(lines, lo, hi, filter) {
            None => {},
            Some(rs) => {
                let t0 = parse_line(lines[0]).unwrap();
                let rest_lines = lines.drop_first();
                let rest = spec_regions(rest_lines, lo, hi, filter).unwrap();
                assert(listing_ascending(rest_lines)) by {
                    assert forall|i: int|
                        0 <= i < rest_lines.len() implies (match parse_line(
                        #[trigger] rest_lines[i],
                    ) {
                        Some(t) => t.0 < t.1,
                        None => true,
                    }) by {
                        assert(rest_lines[i] == lines[i + 1]);
                    }
                    assert forall|i: int|
                        #![trigger parse_line(rest_lines[i]), parse_line(rest_lines[i + 1])]
                        0 <= i && i + 1 < rest_lines.len() implies (match (parse_line(
                        rest_lines[i],
                    ), parse_line(rest_lines[i + 1])) {
                        (Some(a), Some(b)) => a.1 <= b.0,
                        _ => true,
                    }) by {
                        assert(rest_lines[i] == lines[i + 1]);
                        assert(rest_lines[i + 1] == lines[i + 2]);
                    }
                }
                lemma_spec_regions_ascending(rest_lines, lo, hi, filter);
                assert(t0.0 < t0.1);
                if rest_lines.len() > 0 {
                    // the remaining parse starts with a parsed line again
                    assert(parse_line(rest_lines[0]) is Some);
                    let t1 = parse_line(rest_lines[0]).unwrap();
                    assert(rest_lines[0] == lines[1]);
                    assert(t0.1 <= t1.0);
                    assert(forall|j: int| 0 <= j < rest.len() ==> t1.0 <= (#[trigger] rest[j]).0);
                    assert(forall|j: int| 0 <= j < rest.len() ==> t0.1 <= (#[trigger] rest[j]).0);
                }
                if region_included(t0, lo, hi, filter) {
                    assert(rs == seq![t0] + rest);
                    assert(rs[0] == t0);
                    assert forall|j: int| 0 <= j < rs.len() implies (#[trigger] rs[j]).0 < rs[j].1
                        && t0.0 <= rs[j].0 by {
                        if j > 0 {
                            assert(rs[j] == rest[j - 1]);
                        }
                    }
                    assert forall|j: int| 0 <= j && j + 1 < rs.len() implies (#[trigger] rs[j]).1
                        <= rs[j + 1].0 by {
                        if j == 0 {
                            assert(rs[1] == rest[0]);
                        } else {
                            assert(rs[j] == rest[j - 1]);
                            assert(rs[j + 1] == rest[j]);
                        }
                    }
                } else {
                    assert(rs == rest);
                    assert forall|j: int| 0 <= j < rs.len() implies t0.0 <= (#[trigger] rs[j]).0 by {
                        assert(rs[j] == rest[j]);
                    }
                }
            },
        }
    }
}

/// The lower clip bound: the start address, or zero.
pub open spec fn bound_lo(start: Option<u64>) -> u64 {
    match start {
        Some(v) => v,
        None => 0,
    }
}

/// The upper clip bound: the end address, or the top of the space.
pub open spec fn bound_hi(end: Option<u64>) -> u64 {
    match end {
        Some(v) => v,
        None => u64::MAX,
    }
}

/// The permission filter in force: the caller's, or write-only.
pub open spec fn filter_model(f: Option<&Vec<MemoryRegionPerms>>) -> Seq<MemoryRegionPerms> {
    match f {
        Some(v) => v@,
        None => seq![MemoryRegionPerms::Write],
    }
}

pub(crate) fn copy_range(v: &[u8], from: usize, to: usize) -> (r: Vec<u8>)
    requires
        from <= to <= v@.len(),
    ensures
        r@ == v@.subrange(from as int, to as int),
{
    let mut r: Vec<u8> = Vec::new();
    let mut i: usize = from;
    while i < to
        invariant
            from <= i <= to <= v@.len(),
            r@ == v@.subrange(from as int, i as int),
        decreases to - i,
    {
        r.push(v[i]);
        proof {
            assert(v@.subrange(from as int, i + 1) =~= v@.subrange(from as int, i as int)
                + seq![v@[i as int]]);
        }
        i = i + 1;
    }
    r
}

/// Parse the hexadecimal field `t[from..to]` as in `spec_parse_hex_field`.
fn parse_hex_field(t: &Vec<u8>, from: usize, to: usize) -> (r: Option<u64>)
    requires
        from <= to <= t@.len(),
    ensures
        r == spec_parse_hex_field(t@.subrange(from as int, to as int)),
{
    let ghost fld = t@.subrange(from as int, to as int);
    let mut i: usize = from;
    if i < to && t[i] == 0x2b {
        proof {
            assert(fld[0] == t@[from as int]);
        }
        i = i + 1;
    }
    let ghost d = fld.skip(i - from);
    proof {
        if i > from {
            assert(fld.len() >= 1 && fld[0] == 0x2b);
            assert(fld.drop_first() =~= d);
            assert(spec_parse_hex_field(fld) == if d.len() >= 1 && all_hex_digit_bytes(d)
                && hex_val_bytes(d) <= u64::MAX {
                Some(hex_val_bytes(d) as u64)
            } else {
                None::<u64>
            });
        } else {
            if fld.len() >= 1 {
                assert(fld[0] == t@[from as int]);
                assert(fld[0] != 0x2b);
            }
            assert(fld =~= d);
            assert(spec_parse_hex_field(fld) == if d.len() >= 1 && all_hex_digit_bytes(d)
                && hex_val_bytes(d) <= u64::MAX {
                Some(hex_val_bytes(d) as u64)
            } else {
                None::<u64>
            });
        }
    }
    if i == to {
        proof {
            assert(d.len() == 0);
        }
        return None;
    }
    let mut acc: u64 = 0;
    let mut j: usize = i;
    while j < to
        invariant
            i <= j <= to <= t@.len(),
            d == t@.subrange(from as int, to as int).skip(i - from),
            d =~= t@.subrange(i as int, to as int),
            d.len() >= 1,
            spec_parse_hex_field(t@.subrange(from as int, to as int)) == (if all_hex_digit_bytes(
                d,
            ) && hex_val_bytes(d) <= u64::MAX {
                Some(hex_val_bytes(d) as u64)
            } else {
                None::<u64>
            }),
            all_hex_digit_bytes(d.take(j - i)),
            acc == hex_val_bytes(d.take(j - i)),
        decreases to - j,
    {
        let b = t[j];
        proof {
            assert(d[j - i] == t@[j as int]);
        }
        let dv: u64 = if 0x30 <= b && b <= 0x39 {
            (b - 0x30) as u64
        } else if 0x61 <= b && b <= 0x66 {
            (b - 0x57) as u64
        } else if 0x41 <= b && b <= 0x46 {
            (b - 0x37) as u64
        } else {
            proof {
                assert(!is_hex_digit_byte(d[j - i]));
            }
            return None;
        };
        proof {
            assert(is_hex_digit_byte(b));
            assert(hex_digit_val_byte(b) == dv);
            assert(d.take(j - i + 1).drop_last() =~= d.take(j - i));
            assert(d.take(j - i + 1).last() == d[j - i]);
        }
        if acc > (u64::MAX - dv) / 16 {
            proof {
                assert(hex_val_bytes(d.take(j - i + 1)) == acc * 16 + dv);
                assert(acc * 16 + dv > u64::MAX) by (nonlinear_arith)
                    requires
                        acc > (u64::MAX - dv) / 16,
                        dv <= 15,
                ;
                lemma_hex_val_bytes_prefix_le(d, j - i + 1);
            }
            return None;
        }
        proof {
            assert(acc * 16 + dv <= u64::MAX) by (nonlinear_arith)
                requires
                    acc <= (u64::MAX - dv) / 16,
                    dv <= 15,
            ;
        }
        acc = acc * 16 + dv;
        j = j + 1;
    }
    proof {
        assert(d.take(to - i) =~= d);
    }
    Some(acc)
}

proof fn lemma_hex_val_bytes_prefix_le(d: Seq<u8>, i: int)
    requires
        0 <= i <= d.len(),
    ensures
        hex_val_bytes(d.take(i)) <= hex_val_bytes(d),
    decreases d.len() - i,
{
    if i == d.len() {
        assert(d.take(i) =~= d);
    } else {
        lemma_hex_val_bytes_prefix_le(d, i + 1);
        let t = d.take(i + 1);
        assert(t.drop_last() =~= d.take(i));
        assert(hex_val_bytes(t) == hex_val_bytes(d.take(i)) * 16 + hex_digit_val_byte(t.last()));
        assert(hex_val_bytes(d.take(i)) * 16 >= hex_val_bytes(d.take(i))) by (nonlinear_arith);
    }
}

/// Scan `l` from `from` while `p` holds of the bytes, and return the stop
/// index; `p_spec` is the same predicate in spec form.
fn scan_ws(l: &Vec<u8>, from: usize, want_ws: bool) -> (r: usize)
    requires
        from <= l@.len(),
    ensures
        from <= r <= l@.len(),
        want_ws ==> r - from == run_len(l@.skip(from as int), ws_p()),
        !want_ws ==> r - from == run_len(l@.skip(from as int), not_ws_p()),
{
    let n = l.len();
    let mut i: usize = from;
    while i < n && ((l[i] == 0x20 || (0x09 <= l[i] && l[i] <= 0x0d)) == want_ws)
        invariant
            from <= i <= n,
            n == l@.len(),
            forall|k: int| from <= k < i ==> is_ws(#[trigger] l@[k]) == want_ws,
        decreases n - i,
    {
        i = i + 1;
    }
    proof {
        let t = l@.skip(from as int);
        assert forall|k: int| 0 <= k < i - from implies is_ws(#[trigger] t[k]) == want_ws by {
            assert(t[k] == l@[from + k]);
        }
        if (i as int) < n {
            assert(t[i - from] == l@[i as int]);
        }
        if want_ws {
            lemma_run_len_eq(t, ws_p(), i - from);
        } else {
            lemma_run_len_eq(t, not_ws_p(), i - from);
        }
    }
    i
}

/// Parse one maps line, as `parse_line` does.
#[verifier::rlimit(100)]
fn parse_line_exec(l: &Vec<u8>) -> (r: Option<(u64, u64, bool, bool)>)
    ensures
        r == parse_line(l@),
{
    let a1 = scan_ws(l, 0, true);
    proof {
        assert(l@.skip(0) =~= l@);
    }
    let b1 = scan_ws(l, a1, false);
    let a2 = scan_ws(l, b1, true);
    let b2 = scan_ws(l, a2, false);
    let ghost tok1 = l@.subrange(a1 as int, b1 as int);
    let ghost tok2 = l@.subrange(a2 as int, b2 as int);
    if a1 == b1 {
        return None;
    }
    // find the dash inside the first field
    let mut d1: usize = a1;
    while d1 < b1 && l[d1] != 0x2d
        invariant
            a1 <= d1 <= b1 <= l@.len(),
            forall|k: int| a1 <= k < d1 ==> l@[k] != 0x2d,
        decreases b1 - d1,
    {
        d1 = d1 + 1;
    }
    proof {
        assert forall|k: int| 0 <= k < d1 - a1 implies not_dash_p()(#[trigger] tok1[k]) by {
            assert(tok1[k] == l@[a1 + k]);
        }
        if (d1 as int) < b1 as int {
            assert(tok1[d1 - a1] == l@[d1 as int]);
        }
        lemma_run_len_eq(tok1, not_dash_p(), d1 - a1);
    }
    if d1 == b1 {
        return None;
    }
    // find a second dash, if any, bounding the end address
    let mut d2: usize = d1 + 1;
    while d2 < b1 && l[d2] != 0x2d
        invariant
            d1 + 1 <= d2 <= b1 <= l@.len(),
            forall|k: int| d1 + 1 <= k < d2 ==> l@[k] != 0x2d,
        decreases b1 - d2,
    {
        d2 = d2 + 1;
    }
    let ghost rest = tok1.skip(d1 - a1 + 1);
    proof {
        assert(rest =~= l@.subrange(d1 + 1, b1 as int));
        assert forall|k: int| 0 <= k < d2 - d1 - 1 implies not_dash_p()(#[trigger] rest[k]) by {
            assert(rest[k] == l@[d1 + 1 + k]);
        }
        if (d2 as int) < b1 as int {
            assert(rest[d2 - d1 - 1] == l@[d2 as int]);
        }
        lemma_run_len_eq(rest, not_dash_p(), d2 - d1 - 1);
        assert(tok1.take(d1 - a1) =~= l@.subrange(a1 as int, d1 as int));
        assert(rest.take(d2 - d1 - 1) =~= l@.subrange(d1 + 1, d2 as int));
    }
    let start_v = match parse_hex_field(l, a1, d1) {
        Some(v) => v,
        None => {
            return None;
        },
    };
    let end_v = match parse_hex_field(l, d1 + 1, d2) {
        Some(v) => v,
        None => {
            return None;
        },
    };
    if b2 - a2 < 3 {
        return None;
    }
    let p0 = l[a2];
    let p1 = l[a2 + 1];
    let p2 = l[a2 + 2];
    proof {
        assert(tok2[0] == l@[a2 as int]);
        assert(tok2[1] == l@[a2 + 1]);
        assert(tok2[2] == l@[a2 + 2]);
    }
    let has_r = p0 == 0x72 || p1 == 0x72 || p2 == 0x72;
    let has_w = p0 == 0x77 || p1 == 0x77 || p2 == 0x77;
    Some((start_v, end_v, has_r, has_w))
}

/// Whether one of the filter's permissions is among the region's.
fn perm_match_exec(filter: &Vec<MemoryRegionPerms>, has_r: bool, has_w: bool) -> (r: bool)
    ensures
        r == perm_match(filter@, has_r, has_w),
{
    let n = filter.len();
    let mut k: usize = 0;
    while k < n
        invariant
            k <= n,
            n == filter@.len(),
            forall|t: int|
                0 <= t < k ==> !((#[trigger] filter@[t] == MemoryRegionPerms::Read && has_r) || (
                filter@[t] == MemoryRegionPerms::Write && has_w)),
        decreases n - k,
    {
        let hit = match filter[k] {
            MemoryRegionPerms::Read => has_r,
            MemoryRegionPerms::Write => has_w,
        };
        if hit {
            return true;
        }
        k = k + 1;
    }
    false
}

/// Produce the region list that a maps listing yields, clipped to
/// `[start ?? 0, end ?? u64::MAX]` and filtered to the regions holding at
/// least one permission of `search_perms` (write permission when no filter
/// is given). Regions come in listing order; a line that fails to parse
/// fails the whole enumeration with `MemRead(0)`.
#[verifier::rlimit(100)]
pub fn get_memory_regions(
    maps: &[u8],
    start: Option<u64>,
    end: Option<u64>,
    search_perms: Option<&Vec<MemoryRegionPerms>>,
) -> (r: Result<Vec<MemoryRegion>, MemoryError>)
    ensures
        ({
            let lines = split_lines(maps@);
            let lo = bound_lo(start);
            let hi = bound_hi(end);
            let f = filter_model(search_perms);
            match r {
                Ok(v) => spec_regions(lines, lo, hi, f) matches Some(rs) && v@.len() == rs.len()
                    && (forall|j: int|
                    0 <= j < rs.len() ==> (#[trigger] v@[j]).start == rs[j].0 && v@[j].end
                        == rs[j].1 && v@[j].perms@ == perms_seq(rs[j].2, rs[j].3)) && (forall|
                    j: int,
                |
                    0 <= j < v@.len() ==> (#[trigger] v@[j]).end > lo && v@[j].start <= hi
                        && perm_match(f, rs[j].2, rs[j].3)),
                Err(e) => e == MemoryError::MemRead(0) && spec_regions(lines, lo, hi, f) is None,
            }
        }),
{
    let lo: u64 = match start {
        Some(v) => v,
        None => 0,
    };
    let hi: u64 = match end {
        Some(v) => v,
        None => u64::MAX,
    };
    let default_filter = crate::mem::default_search_perms();
    let ghost f = filter_model(search_perms);
    let ghost all_lines = split_lines(maps@);
    let n = maps.len();
    let mut pos: usize = 0;
    let mut out: Vec<MemoryRegion> = Vec::new();
    let ghost mut done: Seq<(u64, u64, bool, bool)> = Seq::empty();
    proof {
        assert(maps@.skip(0) =~= maps@);
        assert(done + Seq::<(u64, u64, bool, bool)>::empty() =~= done);
    }
    while pos < n
        invariant
            pos <= n,
            n == maps@.len(),
            all_lines == split_lines(maps@),
            f == filter_model(search_perms),
            lo == bound_lo(start),
            hi == bound_hi(end),
            default_filter@ == seq![MemoryRegionPerms::Write],
            out@.len() == done.len(),
            forall|j: int|
                0 <= j < done.len() ==> (#[trigger] out@[j]).start == done[j].0 && out@[j].end
                    == done[j].1 && out@[j].perms@ == perms_seq(done[j].2, done[j].3),
            forall|j: int|
                0 <= j < done.len() ==> region_included(#[trigger] done[j], lo, hi, f),
            spec_regions(all_lines, lo, hi, f) == combine(
                done,
                spec_regions(split_lines(maps@.skip(pos as int)), lo, hi, f),
            ),
        decreases n - pos,
    {
        let ghost rem = maps@.skip(pos as int);
        // find the end of the current line
        let mut j: usize = pos;
        while j < n && maps[j] != 0x0a
            invariant
                pos <= j <= n,
                n == maps@.len(),
                forall|k: int| pos <= k < j ==> #[trigger] maps@[k] != 0x0a,
            decreases n - j,
        {
            j = j + 1;
        }
        proof {
            assert forall|k: int| 0 <= k < j - pos implies not_newline_p()(#[trigger] rem[k]) by {
                assert(rem[k] == maps@[pos + k]);
            }
            if (j as int) < n {
                assert(rem[j - pos] == maps@[j as int]);
            }
            lemma_run_len_eq(rem, not_newline_p(), j - pos);
        }
        let mut line = copy_range(maps, pos, j);
        let ghost raw = line@;
        if line.len() > 0 && line[line.len() - 1] == 0x0d {
            line.pop();
        }
        proof {
            if raw.len() > 0 && raw.last() == 0x0d {
                assert(line@ =~= raw.drop_last());
            } else {
                assert(line@ =~= raw);
            }
            assert(raw =~= rem.take(j - pos));
            assert(line@ == strip_cr(rem.take(j - pos)));
        }
        let ghost rest_lines = if (j as int) == n {
            Seq::<Seq<u8>>::empty()
        } else {
            split_lines(maps@.skip(j + 1))
        };
        proof {
            assert(split_lines(rem) == seq![line@] + rest_lines) by {
                assert(rem.len() > 0);
                assert(line_len(rem) == j - pos);
                if (j as int) == n {
                    assert(line_len(rem) == rem.len());
                    assert(split_lines(rem) == seq![line@]);
                    assert(seq![line@] + rest_lines =~= seq![line@]);
                } else {
                    assert(rem.skip(j - pos + 1) =~= maps@.skip(j + 1));
                }
            }
            assert((seq![line@] + rest_lines)[0] == line@);
            assert((seq![line@] + rest_lines).drop_first() =~= rest_lines);
        }
        match parse_line_exec(&line) {
            None => {
                proof {
                    assert(spec_regions(split_lines(rem), lo, hi, f) is None);
                }
                return Err(MemoryError::MemRead(0));
            },
            Some((s, e, has_r, has_w)) => {
                let ghost t = (s, e, has_r, has_w);
                let ghost old_done = done;
                let included = if !(e <= lo || s > hi) {
                    let fref: &Vec<MemoryRegionPerms> = match search_perms {
                        Some(v) => v,
                        None => &default_filter,
                    };
                    perm_match_exec(fref, has_r, has_w)
                } else {
                    false
                };
                proof {
                    assert(included == region_included(t, lo, hi, f));
                }
                if included {
                    let mut perms: Vec<MemoryRegionPerms> = Vec::new();
                    if has_r {
                        perms.push(MemoryRegionPerms::Read);
                    }
                    if has_w {
                        perms.push(MemoryRegionPerms::Write);
                    }
                    proof {
                        assert(perms@ =~= perms_seq(has_r, has_w));
                    }
                    out.push(
                        MemoryRegion {
                            start: s,
                            end: e,
                            perms,
                        },
                    );
                    proof {
                        done = done.push(t);
                    }
                }
                proof {
                    let sub = spec_regions(rest_lines, lo, hi, f);
                    match sub {
                        None => {
                            assert(spec_regions(split_lines(rem), lo, hi, f) is None);
                            assert(combine(done, sub) is None);
                        },
                        Some(s2) => {
                            if region_included(t, lo, hi, f) {
                                assert(spec_regions(split_lines(rem), lo, hi, f) == Some(
                                    seq![t] + s2,
                                ));
                                assert(done =~= old_done.push(t));
                                assert(old_done + (seq![t] + s2) =~= done + s2);
                            } else {
                                assert(spec_regions(split_lines(rem), lo, hi, f) == Some(s2));
                            }
                        },
                    }
                }
                if j < n {
                    pos = j + 1;
                    proof {
                        assert(split_lines(maps@.skip(pos as int)) == rest_lines);
                    }
                } else {
                    pos = n;
                    proof {
                        assert(maps@.skip(n as int) =~= Seq::<u8>::empty());
                        assert(split_lines(maps@.skip(pos as int)) =~= rest_lines);
                    }
                }
            },
        }
    }
    proof {
        assert(maps@.skip(n as int) =~= Seq::<u8>::empty());
        assert(split_lines(maps@.skip(pos as int)) =~= Seq::<Seq<u8>>::empty());
        assert(spec_regions(Seq::<Seq<u8>>::empty(), lo, hi, f) == Some(
            Seq::<(u64, u64, bool, bool)>::empty(),
        ));
        assert(done + Seq::<(u64, u64, bool, bool)>::empty() =~= done);
        assert(spec_regions(all_lines, lo, hi, f) == Some(done));
        lemma_spec_regions_props(all_lines, lo, hi, f);
    }
    Ok(out)
}

} // verus!
