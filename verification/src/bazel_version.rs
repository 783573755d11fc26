//! Version resolution: parsing free-form Bazel version strings (including
//! pre-release and fork-qualified forms) into an orderable key, and selecting
//! the closest available flag dataset for a requested version.

use vstd::prelude::*;

use crate::text::{find_char, lemma_find_char_props, spec_find_char, str_chars, chars_to_string};

verus! {

/// An orderable version key. Missing or wildcard parts parse as the highest
/// possible value, so partial versions sort as the upper bound of their
/// range.
#[derive(Debug, PartialEq)]
pub struct BazelVersion {
    pub major: i16,
    pub minor: i16,
    pub patch: i16,
    /// The fork owner for versions like `SomeOwner/8.0.0`.
    pub fork_owner: Option<String>,
    /// The pre-release suffix for versions like `9.0.0-pre.20250121.1`.
    pub pre_release: Option<String>,
}

/// Mathematical counterpart of [`BazelVersion`].
#[verifier::ext_equal]
pub struct BazelVersionV {
    pub major: i16,
    pub minor: i16,
    pub patch: i16,
    pub fork_owner: Option<Seq<char>>,
    pub pre_release: Option<Seq<char>>,
}

impl View for BazelVersion {
    type V = BazelVersionV;

    open spec fn view(&self) -> BazelVersionV {
        BazelVersionV {
            major: self.major,
            minor: self.minor,
            patch: self.patch,
            fork_owner: crate::bazel_flags::opt_str_view(&self.fork_owner),
            pre_release: crate::bazel_flags::opt_str_view(&self.pre_release),
        }
    }
}

impl BazelVersion {
    /// The key as a plain tuple, for callers that want to order versions
    /// with the standard tuple ordering.
    pub fn as_tuple(&self) -> (r: (i16, i16, i16, Option<String>, Option<String>))
        ensures
            r.0 == self.major,
            r.1 == self.minor,
            r.2 == self.patch,
            crate::bazel_flags::opt_str_view(&r.3) == self@.fork_owner,
            crate::bazel_flags::opt_str_view(&r.4) == self@.pre_release,
    {
        (
            self.major,
            self.minor,
            self.patch,
            match &self.fork_owner {
                Some(s) => Some(s.clone()),
                None => None,
            },
            match &self.pre_release {
                Some(s) => Some(s.clone()),
                None => None,
            },
        )
    }
}

pub open spec fn is_digit_char(c: char) -> bool {
    '0' <= c <= '9'
}

pub open spec fn digit_value(c: char) -> int {
    (c as u32) - ('0' as u32)
}

/// The numeric value of a digit string, most significant digit first.
pub open spec fn spec_digits_value(s: Seq<char>) -> int
    decreases s.len(),
{
    if s.len() == 0 {
        0
    } else {
        spec_digits_value(s.drop_last()) * 10 + digit_value(s.last())
    }
}

pub open spec fn all_digits(s: Seq<char>) -> bool {
    forall|i: int| 0 <= i < s.len() ==> is_digit_char(#[trigger] s[i])
}

/// How `i16` reads from a string: an optional sign, then one or more
/// decimal digits, and the value must be in range; anything else fails.
pub open spec fn spec_parse_i16(s: Seq<char>) -> Option<i16> {
    let neg = s.len() > 0 && s[0] == '-';
    let ds = if s.len() > 0 && (s[0] == '-' || s[0] == '+') {
        s.skip(1)
    } else {
        s
    };
    if ds.len() == 0 || !all_digits(ds) {
        None
    } else {
        let v = if neg {
            -spec_digits_value(ds)
        } else {
            spec_digits_value(ds)
        };
        if i16::MIN <= v <= i16::MAX {
            Some(v as i16)
        } else {
            None
        }
    }
}

proof fn lemma_digits_value_nonneg(s: Seq<char>)
    requires
        all_digits(s),
    ensures
        spec_digits_value(s) >= 0,
    decreases s.len(),
{
    if s.len() > 0 {
        assert(forall|i: int|
            0 <= i < s.drop_last().len() ==> is_digit_char(#[trigger] s.drop_last()[i]));
        lemma_digits_value_nonneg(s.drop_last());
    }
}

/// More digits never shrink the value.
proof fn lemma_digits_value_prefix(s: Seq<char>, k: int)
    requires
        all_digits(s),
        0 <= k <= s.len(),
    ensures
        spec_digits_value(s.take(k)) <= spec_digits_value(s),
    decreases s.len() - k,
{
    if k < s.len() {
        lemma_digits_value_prefix(s, k + 1);
        assert(s.take(k + 1).drop_last() =~= s.take(k));
        assert(s.take(k + 1).last() == s[k]);
        assert(forall|i: int| 0 <= i < s.take(k).len() ==> is_digit_char(#[trigger] s.take(k)[i]));
        lemma_digits_value_nonneg(s.take(k));
    } else {
        assert(s.take(k) =~= s);
    }
}

/// Reads an `i16` from the characters `v[a..b)`, as `str::parse` would.
fn parse_i16_range(v: &Vec<char>, a: usize, b: usize) -> (r: Option<i16>)
    requires
        a <= b <= v@.len(),
    ensures
        r == spec_parse_i16(v@.subrange(a as int, b as int)),
{
    let ghost s = v@.subrange(a as int, b as int);
    let mut i: usize = a;
    let mut neg = false;
    if a < b && (v[a] == '-' || v[a] == '+') {
        neg = v[a] == '-';
        i = a + 1;
    }
    proof {
        assert(s.skip(if a < b && (s.len() > 0 && (s[0] == '-' || s[0] == '+')) {
            1int
        } else {
            0int
        }) =~= v@.subrange(i as int, b as int));
    }
    let ghost ds = v@.subrange(i as int, b as int);
    if i == b {
        return None;
    }
    let bound: u32 = if neg {
        32768
    } else {
        32767
    };
    let mut acc: u32 = 0;
    let mut j: usize = i;
    while j < b
        invariant
            i <= j <= b <= v@.len(),
            s == v@.subrange(a as int, b as int),
            ds == v@.subrange(i as int, b as int),
            ds == (if s.len() > 0 && (s[0] == '-' || s[0] == '+') {
                s.skip(1)
            } else {
                s
            }),
            neg == (s.len() > 0 && s[0] == '-'),
            ds.len() > 0,
            all_digits(ds.take(j - i)),
            acc as int == spec_digits_value(ds.take(j - i)),
            acc <= bound,
            bound == (if neg {
                32768u32
            } else {
                32767u32
            }),
        decreases b - j,
    {
        let c = v[j];
        if !('0' <= c && c <= '9') {
            proof {
                assert(ds[j - i] == v@[j as int]);
                assert(!all_digits(ds));
            }
            return None;
        }
        let d: u32 = (c as u32) - 48;
        proof {
            assert(ds.take(j - i + 1).drop_last() =~= ds.take(j - i));
            assert(ds.take(j - i + 1).last() == ds[j - i]);
            assert(ds[j - i] == v@[j as int]);
        }
        let next: u32 = acc * 10 + d;
        if next > bound {
            // Any further digits only grow the value: out of range.
            proof {
                if all_digits(ds) {
                    lemma_digits_value_prefix(ds, j - i + 1);
                    lemma_digits_value_nonneg(ds);
                }
            }
            return None;
        }
        acc = next;
        j = j + 1;
    }
    proof {
        assert(ds.take(b - i) =~= ds);
    }
    if neg {
        let val: i32 = -(acc as i32);
        Some(val as i16)
    } else {
        Some(acc as i16)
    }
}

/// The first `c` in `s` at or after `from` and before `to`, if any.
pub open spec fn spec_find_in(s: Seq<char>, c: char, from: int, to: int) -> Option<int> {
    match spec_find_char(s, c, from) {
        Some(k) => if k < to {
            Some(k)
        } else {
            None
        },
        None => None,
    }
}

/// Executable counterpart of [`spec_find_in`].
fn find_in(v: &Vec<char>, c: char, from: usize, to: usize) -> (r: Option<usize>)
    requires
        from <= v@.len(),
        to <= v@.len(),
    ensures
        match r {
            Some(k) => spec_find_in(v@, c, from as int, to as int) == Some(k as int),
            None => spec_find_in(v@, c, from as int, to as int) is None,
        },
{
    match find_char(v, c, from) {
        Some(k) => if k < to {
            Some(k)
        } else {
            None
        },
        None => None,
    }
}

/// The number of leading decimal digits of `s[from..to)`.
pub open spec fn spec_digit_end(s: Seq<char>, from: int, to: int) -> int
    decreases to - from,
{
    if from < 0 || from >= to || to > s.len() || !is_digit_char(s[from]) {
        from
    } else {
        spec_digit_end(s, from + 1, to)
    }
}

proof fn lemma_digit_end_bounds(s: Seq<char>, from: int, to: int)
    requires
        0 <= from <= to <= s.len(),
    ensures
        from <= spec_digit_end(s, from, to) <= to,
    decreases to - from,
{
    if from < to && is_digit_char(s[from]) {
        lemma_digit_end_bounds(s, from + 1, to);
    }
}

/// Executable counterpart of [`spec_digit_end`].
fn digit_end(v: &Vec<char>, from: usize, to: usize) -> (r: usize)
    requires
        from <= to <= v@.len(),
    ensures
        r as int == spec_digit_end(v@, from as int, to as int),
        from <= r <= to,
{
    let mut j: usize = from;
    while j < to
        invariant
            from <= j <= to <= v@.len(),
            spec_digit_end(v@, from as int, to as int) == spec_digit_end(v@, j as int, to as int),
        decreases to - j,
    {
        let c = v[j];
        if !('0' <= c && c <= '9') {
            return j;
        }
        j = j + 1;
    }
    j
}

/// How a version string parses: an optional fork owner before `/`, an
/// optional pre-release suffix after the first `-`, then `major.minor.patch`
/// split on dots. A missing or wildcard (`*`/`+`) minor reads as 99, so a
/// partial version sorts as the upper bound of its range; a missing or
/// non-numeric patch reads as 99 after taking the longest leading digit run.
/// An unreadable major makes the whole string unreadable.
pub open spec fn spec_parse_bazel_version(s: Seq<char>) -> Option<BazelVersionV> {
    let slash = spec_find_char(s, '/', 0);
    let vstart = match slash {
        Some(p) => p + 1,
        None => 0,
    };
    let fork = match slash {
        Some(p) => Some(s.take(p)),
        None => None,
    };
    let dash = spec_find_char(s, '-', vstart);
    let vend = match dash {
        Some(q) => q,
        None => s.len() as int,
    };
    let pre = match dash {
        Some(q) => Some(s.skip(q + 1)),
        None => None,
    };
    let dot1 = spec_find_in(s, '.', vstart, vend);
    let major_end = match dot1 {
        Some(d) => d,
        None => vend,
    };
    match spec_parse_i16(s.subrange(vstart, major_end)) {
        None => None,
        Some(major) => {
            let minor_str = match dot1 {
                Some(d1) => {
                    let minor_end = match spec_find_in(s, '.', d1 + 1, vend) {
                        Some(d2) => d2,
                        None => vend,
                    };
                    s.subrange(d1 + 1, minor_end)
                },
                None => Seq::empty(),
            };
            if minor_str == seq!['*'] || minor_str == seq!['+'] {
                Some(
                    BazelVersionV {
                        major,
                        minor: 99,
                        patch: 0,
                        fork_owner: fork,
                        pre_release: pre,
                    },
                )
            } else {
                let minor = if minor_str.len() == 0 {
                    99
                } else {
                    match spec_parse_i16(minor_str) {
                        Some(m) => m,
                        None => 0,
                    }
                };
                let patch_str = match dot1 {
                    Some(d1) => match spec_find_in(s, '.', d1 + 1, vend) {
                        Some(d2) => {
                            let patch_end = match spec_find_in(s, '.', d2 + 1, vend) {
                                Some(d3) => d3,
                                None => vend,
                            };
                            s.subrange(d2 + 1, patch_end)
                        },
                        None => Seq::empty(),
                    },
                    None => Seq::empty(),
                };
                let digits = patch_str.take(
                    spec_digit_end(patch_str, 0, patch_str.len() as int),
                );
                let patch = match spec_parse_i16(digits) {
                    Some(p) => p,
                    None => 99,
                };
                Some(
                    BazelVersionV {
                        major,
                        minor,
                        patch,
                        fork_owner: fork,
                        pre_release: pre,
                    },
                )
            }
        },
    }
}

/// Parses a Bazel version string. Returns `None` only when the major part
/// is not a number (for example for the word `latest`).
#[verifier::rlimit(100)]
pub fn parse_bazel_version(full_version_str: &str) -> (r: Option<BazelVersion>)
    ensures
        match r {
            Some(ver) => spec_parse_bazel_version(full_version_str@) == Some(ver@),
            None => spec_parse_bazel_version(full_version_str@) is None,
        },
{
    let chars = str_chars(full_version_str);
    let n = chars.len();
    proof {
        lemma_find_char_props(chars@, '/', 0);
    }
    let (fork, vstart): (Option<String>, usize) = match find_char(&chars, '/', 0) {
        Some(p) => {
            let f = crate::text::subvec(&chars, 0, p);
            proof {
                assert(f@ =~= chars@.take(p as int));
            }
            (Some(chars_to_string(&f)), p + 1)
        },
        None => (None, 0),
    };
    proof {
        lemma_find_char_props(chars@, '-', vstart as int);
    }
    let (pre, vend): (Option<String>, usize) = match find_char(&chars, '-', vstart) {
        Some(q) => {
            let pr = crate::text::subvec(&chars, q + 1, n);
            proof {
                assert(pr@ =~= chars@.skip(q + 1));
            }
            (Some(chars_to_string(&pr)), q)
        },
        None => (None, n),
    };
    let dot1 = find_in(&chars, '.', vstart, vend);
    let major_end: usize = match dot1 {
        Some(d) => d,
        None => vend,
    };
    proof {
        lemma_find_char_props(chars@, '.', vstart as int);
    }
    let major: i16 = match parse_i16_range(&chars, vstart, major_end) {
        Some(m) => m,
        None => {
            return None;
        },
    };
    let minor_range: (usize, usize) = match dot1 {
        Some(d1) => {
            proof {
                lemma_find_char_props(chars@, '.', vstart as int);
                lemma_find_char_props(chars@, '.', d1 + 1);
            }
            match find_in(&chars, '.', d1 + 1, vend) {
                Some(d2) => (d1 + 1, d2),
                None => (d1 + 1, vend),
            }
        },
        None => (0, 0),
    };
    proof {
        assert(minor_range.0 <= minor_range.1 <= n);
    }
    let ghost minor_str = if dot1 is Some {
        chars@.subrange(minor_range.0 as int, minor_range.1 as int)
    } else {
        Seq::<char>::empty()
    };
    proof {
        if dot1 is None {
            assert(chars@.subrange(0, 0) =~= Seq::<char>::empty());
        }
    }
    let is_wild = minor_range.1 - minor_range.0 == 1 && (chars[minor_range.0] == '*'
        || chars[minor_range.0] == '+');
    proof {
        if is_wild {
            if chars@[minor_range.0 as int] == '*' {
                assert(minor_str =~= seq!['*']);
            } else {
                assert(minor_str =~= seq!['+']);
            }
        } else {
            assert(minor_str != seq!['*'] && minor_str != seq!['+']) by {
                if minor_str == seq!['*'] || minor_str == seq!['+'] {
                    assert(minor_str.len() == 1);
                    assert(minor_str[0] == chars@[minor_range.0 as int]);
                }
            }
        }
    }
    if is_wild {
        return Some(
            BazelVersion { major, minor: 99, patch: 0, fork_owner: fork, pre_release: pre },
        );
    }
    let minor: i16 = if minor_range.1 == minor_range.0 {
        99
    } else {
        match parse_i16_range(&chars, minor_range.0, minor_range.1) {
            Some(m) => m,
            None => 0,
        }
    };
    let patch_range: (usize, usize) = match dot1 {
        Some(d1) => {
            match find_in(&chars, '.', d1 + 1, vend) {
                Some(d2) => {
                    proof {
                        lemma_find_char_props(chars@, '.', d2 + 1);
                    }
                    match find_in(&chars, '.', d2 + 1, vend) {
                        Some(d3) => (d2 + 1, d3),
                        None => (d2 + 1, vend),
                    }
                },
                None => (0, 0),
            }
        },
        None => (0, 0),
    };
    proof {
        assert(patch_range.0 <= patch_range.1 <= n);
    }
    let ghost patch_str = if dot1 is Some && spec_find_in(chars@, '.', dot1->Some_0 as int + 1, vend as int) is Some {
        chars@.subrange(patch_range.0 as int, patch_range.1 as int)
    } else {
        Seq::<char>::empty()
    };
    proof {
        if !(dot1 is Some && spec_find_in(chars@, '.', dot1->Some_0 as int + 1, vend as int) is Some) {
            assert(chars@.subrange(0, 0) =~= Seq::<char>::empty());
        }
    }
    let pend = digit_end(&chars, patch_range.0, patch_range.1);
    proof {
        lemma_digit_end_shift(chars@, patch_range.0 as int, patch_range.1 as int);
        assert(chars@.subrange(patch_range.0 as int, pend as int) =~= patch_str.take(
            spec_digit_end(patch_str, 0, patch_str.len() as int),
        ));
    }
    let patch: i16 = match parse_i16_range(&chars, patch_range.0, pend) {
        Some(p) => p,
        None => 99,
    };
    Some(BazelVersion { major, minor, patch, fork_owner: fork, pre_release: pre })
}

/// Lexicographic order on character sequences, by scalar value (the order
/// in which the standard string comparison ranks them, since UTF-8 byte
/// order coincides with scalar order).
pub open spec fn seq_char_le(a: Seq<char>, b: Seq<char>) -> bool
    decreases a.len(),
{
    if a.len() == 0 {
        true
    } else if b.len() == 0 {
        false
    } else if a[0] == b[0] {
        seq_char_le(a.drop_first(), b.drop_first())
    } else {
        (a[0] as u32) < (b[0] as u32)
    }
}

pub proof fn lemma_seq_char_le_total(a: Seq<char>, b: Seq<char>)
    ensures
        seq_char_le(a, b) || seq_char_le(b, a),
    decreases a.len(),
{
    if a.len() > 0 && b.len() > 0 {
        if a[0] == b[0] {
            lemma_seq_char_le_total(a.drop_first(), b.drop_first());
        } else {
            vstd::utf8::char_u32_cast(a[0], a[0] as u32);
            vstd::utf8::char_u32_cast(b[0], b[0] as u32);
            assert((a[0] as u32) != (b[0] as u32));
        }
    }
}

pub proof fn lemma_seq_char_le_antisym(a: Seq<char>, b: Seq<char>)
    requires
        seq_char_le(a, b),
        seq_char_le(b, a),
    ensures
        a == b,
    decreases a.len(),
{
    if a.len() == 0 {
        assert(b.len() == 0);
        assert(a =~= b);
    } else {
        assert(b.len() > 0);
        if a[0] != b[0] {
            assert(seq_char_le(a, b) == ((a[0] as u32) < (b[0] as u32)));
            assert(seq_char_le(b, a) == ((b[0] as u32) < (a[0] as u32)));
            assert(false);
        }
        lemma_seq_char_le_antisym(a.drop_first(), b.drop_first());
        assert(a.drop_first() == b.drop_first());
        assert(a.len() == b.len());
        assert forall|i: int| 0 <= i < a.len() implies a[i] == b[i] by {
            if i > 0 {
                assert(a.drop_first()[i - 1] == a[i]);
                assert(b.drop_first()[i - 1] == b[i]);
            }
        }
        assert(a =~= b);
    }
}

pub proof fn lemma_seq_char_le_trans(a: Seq<char>, b: Seq<char>, c: Seq<char>)
    requires
        seq_char_le(a, b),
        seq_char_le(b, c),
    ensures
        seq_char_le(a, c),
    decreases a.len(),
{
    if a.len() > 0 {
        assert(b.len() > 0);
        assert(c.len() > 0);
        if a[0] == b[0] && b[0] == c[0] {
            lemma_seq_char_le_trans(a.drop_first(), b.drop_first(), c.drop_first());
        }
    }
}

/// Strict order on optional texts: absent sorts before present.
pub open spec fn opt_seq_lt(a: Option<Seq<char>>, b: Option<Seq<char>>) -> bool {
    match (a, b) {
        (None, Some(y)) => true,
        (Some(x), Some(y)) => seq_char_le(x, y) && x != y,
        _ => false,
    }
}

pub proof fn lemma_opt_lt_total(a: Option<Seq<char>>, b: Option<Seq<char>>)
    ensures
        a != b ==> opt_seq_lt(a, b) || opt_seq_lt(b, a),
{
    match (a, b) {
        (Some(x), Some(y)) => {
            lemma_seq_char_le_total(x, y);
        },
        _ => {},
    }
}

pub proof fn lemma_opt_lt_trans(a: Option<Seq<char>>, b: Option<Seq<char>>, c: Option<Seq<char>>)
    requires
        opt_seq_lt(a, b),
        opt_seq_lt(b, c),
    ensures
        opt_seq_lt(a, c),
{
    match (a, b, c) {
        (Some(x), Some(y), Some(z)) => {
            lemma_seq_char_le_trans(x, y, z);
            if x == z {
                lemma_seq_char_le_antisym(x, y);
            }
        },
        _ => {},
    }
}

pub proof fn lemma_opt_lt_asym(a: Option<Seq<char>>, b: Option<Seq<char>>)
    requires
        opt_seq_lt(a, b),
    ensures
        !opt_seq_lt(b, a),
        a != b,
{
    match (a, b) {
        (Some(x), Some(y)) => {
            if seq_char_le(y, x) {
                lemma_seq_char_le_antisym(x, y);
            }
        },
        _ => {},
    }
}

/// Order on the numeric version keys alone: major, minor, patch, then fork
/// owner and pre-release (absent first, then text order). Fork-qualified
/// versions thereby live in their own namespaces.
pub open spec fn spec_tuple_le(a: BazelVersionV, b: BazelVersionV) -> bool {
    if a.major != b.major {
        a.major < b.major
    } else if a.minor != b.minor {
        a.minor < b.minor
    } else if a.patch != b.patch {
        a.patch < b.patch
    } else if a.fork_owner != b.fork_owner {
        opt_seq_lt(a.fork_owner, b.fork_owner)
    } else if a.pre_release != b.pre_release {
        opt_seq_lt(a.pre_release, b.pre_release)
    } else {
        true
    }
}

/// Order on whole entries: the key, with the raw string as tie-break.
pub open spec fn spec_version_le(
    a: BazelVersionV,
    sa: Seq<char>,
    b: BazelVersionV,
    sb: Seq<char>,
) -> bool {
    if a.major != b.major {
        a.major < b.major
    } else if a.minor != b.minor {
        a.minor < b.minor
    } else if a.patch != b.patch {
        a.patch < b.patch
    } else if a.fork_owner != b.fork_owner {
        opt_seq_lt(a.fork_owner, b.fork_owner)
    } else if a.pre_release != b.pre_release {
        opt_seq_lt(a.pre_release, b.pre_release)
    } else {
        seq_char_le(sa, sb)
    }
}

pub proof fn lemma_version_le_total(a: BazelVersionV, sa: Seq<char>, b: BazelVersionV, sb: Seq<char>)
    ensures
        spec_version_le(a, sa, b, sb) || spec_version_le(b, sb, a, sa),
{
    lemma_opt_lt_total(a.fork_owner, b.fork_owner);
    lemma_opt_lt_total(a.pre_release, b.pre_release);
    lemma_seq_char_le_total(sa, sb);
}

pub proof fn lemma_version_le_trans(
    a: BazelVersionV,
    sa: Seq<char>,
    b: BazelVersionV,
    sb: Seq<char>,
    c: BazelVersionV,
    sc: Seq<char>,
)
    requires
        spec_version_le(a, sa, b, sb),
        spec_version_le(b, sb, c, sc),
    ensures
        spec_version_le(a, sa, c, sc),
{
    if opt_seq_lt(a.fork_owner, b.fork_owner) && opt_seq_lt(b.fork_owner, c.fork_owner) {
        lemma_opt_lt_trans(a.fork_owner, b.fork_owner, c.fork_owner);
    }
    if opt_seq_lt(a.fork_owner, b.fork_owner) {
        lemma_opt_lt_asym(a.fork_owner, b.fork_owner);
    }
    if opt_seq_lt(b.fork_owner, c.fork_owner) {
        lemma_opt_lt_asym(b.fork_owner, c.fork_owner);
    }
    if opt_seq_lt(a.fork_owner, c.fork_owner) {
        lemma_opt_lt_asym(a.fork_owner, c.fork_owner);
    }
    if opt_seq_lt(a.pre_release, b.pre_release) && opt_seq_lt(b.pre_release, c.pre_release) {
        lemma_opt_lt_trans(a.pre_release, b.pre_release, c.pre_release);
    }
    if opt_seq_lt(a.pre_release, b.pre_release) {
        lemma_opt_lt_asym(a.pre_release, b.pre_release);
    }
    if opt_seq_lt(b.pre_release, c.pre_release) {
        lemma_opt_lt_asym(b.pre_release, c.pre_release);
    }
    if seq_char_le(sa, sb) && seq_char_le(sb, sc) {
        lemma_seq_char_le_trans(sa, sb, sc);
    }
}

/// Whether `sa <= sb` in text order.
fn str_le_exec(a: &str, b: &str) -> (r: bool)
    ensures
        r == seq_char_le(a@, b@),
{
    let na = a.unicode_len();
    let nb = b.unicode_len();
    let mut i: usize = 0;
    proof {
        assert(a@.skip(0) =~= a@);
        assert(b@.skip(0) =~= b@);
    }
    loop
        invariant
            i <= na,
            i <= nb,
            na == a@.len(),
            nb == b@.len(),
            seq_char_le(a@, b@) == seq_char_le(a@.skip(i as int), b@.skip(i as int)),
        decreases na - i,
    {
        if i >= na {
            proof {
                assert(a@.skip(i as int).len() == 0);
            }
            return true;
        }
        if i >= nb {
            proof {
                assert(b@.skip(i as int).len() == 0);
                assert(a@.skip(i as int).len() > 0);
            }
            return false;
        }
        let ca = a.get_char(i);
        let cb = b.get_char(i);
        proof {
            assert(a@.skip(i as int)[0] == a@[i as int]);
            assert(b@.skip(i as int)[0] == b@[i as int]);
            assert(a@.skip(i as int).drop_first() =~= a@.skip(i + 1));
            assert(b@.skip(i as int).drop_first() =~= b@.skip(i + 1));
        }
        if ca != cb {
            return (ca as u32) < (cb as u32);
        }
        i = i + 1;
    }
}

/// Whether two optional strings hold the same text.
fn opt_str_eq(a: &Option<String>, b: &Option<String>) -> (r: bool)
    ensures
        r == (crate::bazel_flags::opt_str_view(a) == crate::bazel_flags::opt_str_view(b)),
{
    match (a, b) {
        (None, None) => true,
        (Some(x), Some(y)) => crate::text::str_eq(x.as_str(), y.as_str()),
        _ => {
            proof {
                assert(crate::bazel_flags::opt_str_view(a) is Some || crate::bazel_flags::opt_str_view(b) is Some);
            }
            false
        },
    }
}

/// Whether `a` sorts strictly before `b` (absent before present).
fn opt_str_lt(a: &Option<String>, b: &Option<String>) -> (r: bool)
    ensures
        r == opt_seq_lt(
            crate::bazel_flags::opt_str_view(a),
            crate::bazel_flags::opt_str_view(b),
        ),
{
    match (a, b) {
        (None, Some(y)) => true,
        (Some(x), Some(y)) => str_le_exec(x.as_str(), y.as_str()) && !crate::text::str_eq(
            x.as_str(),
            y.as_str(),
        ),
        _ => false,
    }
}

/// Executable counterpart of [`spec_tuple_le`].
fn tuple_le_exec(a: &BazelVersion, b: &BazelVersion) -> (r: bool)
    ensures
        r == spec_tuple_le(a@, b@),
{
    if a.major != b.major {
        a.major < b.major
    } else if a.minor != b.minor {
        a.minor < b.minor
    } else if a.patch != b.patch {
        a.patch < b.patch
    } else if !opt_str_eq(&a.fork_owner, &b.fork_owner) {
        opt_str_lt(&a.fork_owner, &b.fork_owner)
    } else if !opt_str_eq(&a.pre_release, &b.pre_release) {
        opt_str_lt(&a.pre_release, &b.pre_release)
    } else {
        true
    }
}

/// Executable counterpart of [`spec_version_le`].
fn version_le_exec(a: &BazelVersion, sa: &String, b: &BazelVersion, sb: &String) -> (r: bool)
    ensures
        r == spec_version_le(a@, sa@, b@, sb@),
{
    if a.major != b.major {
        a.major < b.major
    } else if a.minor != b.minor {
        a.minor < b.minor
    } else if a.patch != b.patch {
        a.patch < b.patch
    } else if !opt_str_eq(&a.fork_owner, &b.fork_owner) {
        opt_str_lt(&a.fork_owner, &b.fork_owner)
    } else if !opt_str_eq(&a.pre_release, &b.pre_release) {
        opt_str_lt(&a.pre_release, &b.pre_release)
    } else {
        str_le_exec(sa.as_str(), sb.as_str())
    }
}

/// The parsed key of the version string at position `i`.
pub open spec fn avail_key(avs: Seq<String>, i: int) -> BazelVersionV {
    spec_parse_bazel_version(avs[i]@)->Some_0
}

/// Entry `i` ranks at or below entry `j`.
pub open spec fn entry_le(avs: Seq<String>, i: int, j: int) -> bool {
    spec_version_le(avail_key(avs, i), avs[i]@, avail_key(avs, j), avs[j]@)
}

/// Selects the closest available version for `version_hint_str`: the
/// greatest available version at or below the hint; the earliest available
/// version when every one lies above the hint; and the greatest available
/// version when the hint does not parse (for example the word `latest`).
/// Ties between equal keys go to the greater version string.
pub fn find_closest_version(available_version_strs: &Vec<String>, version_hint_str: &str) -> (r:
    String)
    requires
        available_version_strs@.len() > 0,
        forall|i: int|
            0 <= i < available_version_strs@.len() ==> spec_parse_bazel_version(
                (#[trigger] available_version_strs@[i])@,
            ) is Some,
    ensures
        ({
            let avs = available_version_strs@;
            match spec_parse_bazel_version(version_hint_str@) {
                Some(hk) => {
                    if exists|i: int| 0 <= i < avs.len() && spec_tuple_le(avail_key(avs, i), hk) {
                        exists|i: int|
                            0 <= i < avs.len() && r@ == avs[i]@ && spec_tuple_le(
                                avail_key(avs, i),
                                hk,
                            ) && forall|j: int|
                                0 <= j < avs.len() && spec_tuple_le(avail_key(avs, j), hk)
                                    ==> entry_le(avs, j, i)
                    } else {
                        exists|i: int|
                            0 <= i < avs.len() && r@ == avs[i]@ && forall|j: int|
                                0 <= j < avs.len() ==> entry_le(avs, i, j)
                    }
                },
                None => exists|i: int|
                    0 <= i < avs.len() && r@ == avs[i]@ && forall|j: int|
                        0 <= j < avs.len() ==> entry_le(avs, j, i),
            }
        }),
{
    let ghost avs = available_version_strs@;
    let n = available_version_strs.len();
    let mut keys: Vec<BazelVersion> = Vec::new();
    let mut k: usize = 0;
    while k < n
        invariant
            k <= n,
            n == avs.len(),
            avs == available_version_strs@,
            forall|i: int|
                0 <= i < avs.len() ==> spec_parse_bazel_version((#[trigger] avs[i])@) is Some,
            keys@.len() == k,
            forall|i: int| 0 <= i < k ==> (#[trigger] keys@[i])@ == avail_key(avs, i),
        decreases n - k,
    {
        match parse_bazel_version(available_version_strs[k].as_str()) {
            Some(v) => {
                keys.push(v);
            },
            None => {
                proof {
                    assert(spec_parse_bazel_version(avs[k as int]@) is Some);
                }
                keys.push(vstd::pervasive::unreached())
            },
        }
        k = k + 1;
    }
    match parse_bazel_version(version_hint_str) {
        Some(hint) => {
            // The greatest entry whose key lies at or below the hint.
            let mut best: usize = n;
            let mut i: usize = 0;
            while i < n
                invariant
                    i <= n,
                    n == avs.len(),
                    avs == available_version_strs@,
                    spec_parse_bazel_version(version_hint_str@) == Some(hint@),
                    keys@.len() == n,
                    forall|m: int| 0 <= m < n ==> (#[trigger] keys@[m])@ == avail_key(avs, m),
                    best <= n,
                    best < n ==> spec_tuple_le(avail_key(avs, best as int), hint@),
                    best < n ==> forall|j: int|
                        0 <= j < i && spec_tuple_le(avail_key(avs, j), hint@) ==> entry_le(
                            avs,
                            j,
                            best as int,
                        ),
                    best == n ==> forall|j: int|
                        0 <= j < i ==> !spec_tuple_le(avail_key(avs, j), hint@),
                decreases n - i,
            {
                proof {
                    assert(keys@[i as int]@ == avail_key(avs, i as int));
                }
                if tuple_le_exec(&keys[i], &hint) {
                    if best == n {
                        proof {
                            lemma_version_le_total(
                                avail_key(avs, i as int),
                                avs[i as int]@,
                                avail_key(avs, i as int),
                                avs[i as int]@,
                            );
                        }
                        best = i;
                    } else {
                        proof {
                            assert(keys@[best as int]@ == avail_key(avs, best as int));
                        }
                        if !version_le_exec(
                            &keys[i],
                            &available_version_strs[i],
                            &keys[best],
                            &available_version_strs[best],
                        ) {
                            proof {
                                lemma_version_le_total(
                                    avail_key(avs, i as int),
                                    avs[i as int]@,
                                    avail_key(avs, best as int),
                                    avs[best as int]@,
                                );
                                assert(spec_version_le(
                                    avail_key(avs, best as int),
                                    avs[best as int]@,
                                    avail_key(avs, i as int),
                                    avs[i as int]@,
                                ));
                                assert forall|j: int|
                                    0 <= j < i + 1 && spec_tuple_le(avail_key(avs, j), hint@)
                                        implies entry_le(avs, j, i as int) by {
                                    if j < i {
                                        assert(entry_le(avs, j, best as int));
                                        lemma_version_le_trans(
                                            avail_key(avs, j),
                                            avs[j]@,
                                            avail_key(avs, best as int),
                                            avs[best as int]@,
                                            avail_key(avs, i as int),
                                            avs[i as int]@,
                                        );
                                    } else {
                                        lemma_version_le_total(
                                            avail_key(avs, j),
                                            avs[j]@,
                                            avail_key(avs, j),
                                            avs[j]@,
                                        );
                                    }
                                }
                            }
                            best = i;
                        } else {
                            proof {
                                assert(entry_le(avs, i as int, best as int));
                            }
                        }
                    }
                }
                i = i + 1;
            }
            if best < n {
                available_version_strs[best].clone()
            } else {
                // Nothing at or below the hint: take the earliest available.
                let mut m: usize = 0;
                let mut i2: usize = 1;
                proof {
                    lemma_version_le_total(avail_key(avs, 0), avs[0]@, avail_key(avs, 0), avs[0]@);
                }
                while i2 < n
                    invariant
                        m < i2 <= n,
                        n == avs.len(),
                        avs == available_version_strs@,
                        keys@.len() == n,
                        forall|q: int| 0 <= q < n ==> (#[trigger] keys@[q])@ == avail_key(avs, q),
                        forall|j: int| 0 <= j < i2 ==> entry_le(avs, m as int, j),
                    decreases n - i2,
                {
                    proof {
                        assert(keys@[m as int]@ == avail_key(avs, m as int));
                        assert(keys@[i2 as int]@ == avail_key(avs, i2 as int));
                    }
                    if !version_le_exec(
                        &keys[m],
                        &available_version_strs[m],
                        &keys[i2],
                        &available_version_strs[i2],
                    ) {
                        proof {
                            lemma_version_le_total(
                                avail_key(avs, m as int),
                                avs[m as int]@,
                                avail_key(avs, i2 as int),
                                avs[i2 as int]@,
                            );
                            assert(spec_version_le(
                                avail_key(avs, i2 as int),
                                avs[i2 as int]@,
                                avail_key(avs, m as int),
                                avs[m as int]@,
                            ));
                            assert forall|j: int| 0 <= j < i2 + 1 implies entry_le(
                                avs,
                                i2 as int,
                                j,
                            ) by {
                                if j < i2 {
                                    assert(entry_le(avs, m as int, j));
                                    lemma_version_le_trans(
                                        avail_key(avs, i2 as int),
                                        avs[i2 as int]@,
                                        avail_key(avs, m as int),
                                        avs[m as int]@,
                                        avail_key(avs, j),
                                        avs[j]@,
                                    );
                                } else {
                                    lemma_version_le_total(
                                        avail_key(avs, j),
                                        avs[j]@,
                                        avail_key(avs, j),
                                        avs[j]@,
                                    );
                                }
                            }
                        }
                        m = i2;
                    } else {
                        proof {
                            assert(entry_le(avs, m as int, i2 as int));
                        }
                    }
                    i2 = i2 + 1;
                }
                available_version_strs[m].clone()
            }
        },
        None => {
            // An unreadable hint, such as `latest`: take the greatest.
            let mut m: usize = 0;
            let mut i2: usize = 1;
            proof {
                lemma_version_le_total(avail_key(avs, 0), avs[0]@, avail_key(avs, 0), avs[0]@);
            }
            while i2 < n
                invariant
                    m < i2 <= n,
                    n == avs.len(),
                    avs == available_version_strs@,
                    keys@.len() == n,
                    forall|q: int| 0 <= q < n ==> (#[trigger] keys@[q])@ == avail_key(avs, q),
                    forall|j: int| 0 <= j < i2 ==> entry_le(avs, j, m as int),
                decreases n - i2,
            {
                proof {
                    assert(keys@[m as int]@ == avail_key(avs, m as int));
                    assert(keys@[i2 as int]@ == avail_key(avs, i2 as int));
                }
                if !version_le_exec(
                    &keys[i2],
                    &available_version_strs[i2],
                    &keys[m],
                    &available_version_strs[m],
                ) {
                    proof {
                        lemma_version_le_total(
                            avail_key(avs, i2 as int),
                            avs[i2 as int]@,
                            avail_key(avs, m as int),
                            avs[m as int]@,
                        );
                        assert(spec_version_le(
                            avail_key(avs, m as int),
                            avs[m as int]@,
                            avail_key(avs, i2 as int),
                            avs[i2 as int]@,
                        ));
                        assert forall|j: int| 0 <= j < i2 + 1 implies entry_le(
                            avs,
                            j,
                            i2 as int,
                        ) by {
                            if j < i2 {
                                assert(entry_le(avs, j, m as int));
                                lemma_version_le_trans(
                                    avail_key(avs, j),
                                    avs[j]@,
                                    avail_key(avs, m as int),
                                    avs[m as int]@,
                                    avail_key(avs, i2 as int),
                                    avs[i2 as int]@,
                                );
                            } else {
                                lemma_version_le_total(
                                    avail_key(avs, j),
                                    avs[j]@,
                                    avail_key(avs, j),
                                    avs[j]@,
                                );
                            }
                        }
                    }
                    m = i2;
                } else {
                    proof {
                        assert(entry_le(avs, i2 as int, m as int));
                    }
                }
                i2 = i2 + 1;
            }
            available_version_strs[m].clone()
        },
    }
}

/// Scanning digits inside a subrange is scanning digits of the subrange.
proof fn lemma_digit_end_shift_gen(s: Seq<char>, a: int, from: int, b: int)
    requires
        0 <= a <= from <= b <= s.len(),
    ensures
        spec_digit_end(s, from, b) - a == spec_digit_end(s.subrange(a, b), from - a, b - a),
    decreases b - from,
{
    if from < b {
        assert(s.subrange(a, b)[from - a] == s[from]);
        if is_digit_char(s[from]) {
            lemma_digit_end_shift_gen(s, a, from + 1, b);
        }
    }
}

proof fn lemma_digit_end_shift(s: Seq<char>, a: int, b: int)
    requires
        0 <= a <= b <= s.len(),
    ensures
        spec_digit_end(s, a, b) - a == spec_digit_end(s.subrange(a, b), 0, b - a),
{
    lemma_digit_end_shift_gen(s, a, a, b);
}

} // verus!
