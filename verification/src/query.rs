//! Search queries: a scan root, an optional glob pattern relative to it, and
//! an optional size predicate.

use vstd::prelude::*;
use vstd::string::StrSliceExecFns;

verus! {

/// Comparison used by a size filter.
#[derive(Debug, Clone, Copy, PartialEq, Eq, Structural)]
pub enum SizeOperator {
    GreaterThan,
    GreaterThanOrEqual,
    LessThan,
    LessThanOrEqual,
}

/// A predicate over a file's direct size in bytes.
#[derive(Debug, Clone)]
pub struct SizeFilter {
    pub operator: SizeOperator,
    pub bytes: u64,
}

/// What `SizeFilter::matches` decides.
pub open spec fn size_filter_matches(operator: SizeOperator, bytes: u64, size: u64) -> bool {
    match operator {
        SizeOperator::GreaterThan => size > bytes,
        SizeOperator::GreaterThanOrEqual => size >= bytes,
        SizeOperator::LessThan => size < bytes,
        SizeOperator::LessThanOrEqual => size <= bytes,
    }
}

impl SizeFilter {
    pub fn matches(&self, size: u64) -> (r: bool)
        ensures
            r == size_filter_matches(self.operator, self.bytes, size),
    {
        match self.operator {
            SizeOperator::GreaterThan => size > self.bytes,
            SizeOperator::GreaterThanOrEqual => size >= self.bytes,
            SizeOperator::LessThan => size < self.bytes,
            SizeOperator::LessThanOrEqual => size <= self.bytes,
        }
    }
}

/// A parsed search request. `root` is the directory to scan;
/// `relative_pattern` is a glob evaluated against paths under it.
#[derive(Debug, Clone)]
pub struct SearchQuery {
    pub raw: String,
    pub root: String,
    pub relative_pattern: Option<String>,
    pub size_filter: Option<SizeFilter>,
}

impl Default for SearchQuery {
    /// An empty query over the current directory.
    fn default() -> (r: Self)
        ensures
            r.raw@ == Seq::<char>::empty(),
            r.root@ == crate::paths::dot(),
            r.relative_pattern is None,
            r.size_filter is None,
    {
        SearchQuery {
            raw: String::new(),
            root: crate::paths::dot_string(),
            relative_pattern: None,
            size_filter: None,
        }
    }
}

} // verus!

verus! {

/// ASCII decimal digit.
pub open spec fn is_digit(c: char) -> bool {
    '0' <= c && c <= '9'
}

/// The value of one digit.
pub open spec fn digit_val(c: char) -> nat {
    ((c as int) - ('0' as int)) as nat
}

/// The value of a big-endian digit string.
pub open spec fn dec_val(s: Seq<char>) -> nat
    decreases s.len(),
{
    if s.len() == 0 {
        0
    } else {
        dec_val(s.drop_last()) * 10 + digit_val(s.last())
    }
}

/// Ten to the `d`.
pub open spec fn pow10(d: nat) -> nat
    decreases d,
{
    if d == 0 {
        1
    } else {
        10 * pow10((d - 1) as nat)
    }
}

/// Lower-case the ASCII letters a size unit can contain.
pub open spec fn unit_lower(c: char) -> char {
    if c == 'B' {
        'b'
    } else if c == 'K' {
        'k'
    } else if c == 'M' {
        'm'
    } else if c == 'G' {
        'g'
    } else if c == 'T' {
        't'
    } else if c == 'I' {
        'i'
    } else {
        c
    }
}

/// The multiplier a unit suffix stands for, if it is one the parser knows:
/// nothing or `b` for bytes, then the binary steps up to `tb`/`tib`.
pub open spec fn unit_mult(u: Seq<char>) -> Option<u64> {
    let l = u.map_values(|c: char| unit_lower(c));
    if l =~= Seq::<char>::empty() || l =~= seq!['b'] {
        Some(1u64)
    } else if l =~= seq!['k', 'b'] || l =~= seq!['k', 'i', 'b'] {
        Some(1024u64)
    } else if l =~= seq!['m', 'b'] || l =~= seq!['m', 'i', 'b'] {
        Some(1048576u64)
    } else if l =~= seq!['g', 'b'] || l =~= seq!['g', 'i', 'b'] {
        Some(1073741824u64)
    } else if l =~= seq!['t', 'b'] || l =~= seq!['t', 'i', 'b'] {
        Some(1099511627776u64)
    } else {
        None
    }
}

/// Space or tab.
pub open spec fn is_space(c: char) -> bool {
    c == ' ' || c == '\t'
}

/// `s` without leading and trailing spaces and tabs.
pub open spec fn trimmed(s: Seq<char>) -> Seq<char>
    decreases s.len(),
{
    if s.len() == 0 {
        s
    } else if is_space(s[0]) {
        trimmed(s.drop_first())
    } else if is_space(s.last()) {
        trimmed(s.drop_last())
    } else {
        s
    }
}

/// The predicate "this character ends the number part".
pub open spec fn non_number_char() -> spec_fn(char) -> bool {
    |c: char| !(is_digit(c) || c == '.')
}

/// The predicate "this character is a dot".
pub open spec fn dot_char() -> spec_fn(char) -> bool {
    |c: char| c == '.'
}

/// Split index of a size token: the first character that is neither a
/// digit nor a dot ends the number part.
pub open spec fn number_end(s: Seq<char>) -> int {
    let k = crate::seq_find::first_index_where(s, non_number_char());
    if k < 0 {
        s.len() as int
    } else {
        k
    }
}

/// Round `i.f * mult` to the nearest byte, half up, capped at `u64::MAX`.
/// Only the first twelve fraction digits are read.
pub open spec fn scaled_bytes(ipart: Seq<char>, fpart0: Seq<char>, mult: u64) -> u64 {
    let fpart = if fpart0.len() > 12 {
        fpart0.subrange(0, 12)
    } else {
        fpart0
    };
    let d = fpart.len();
    let m = mult as nat;
    let total = dec_val(ipart) * m + (dec_val(fpart) * m + pow10(d) / 2) / pow10(d);
    if total > u64::MAX {
        u64::MAX
    } else {
        total as u64
    }
}

/// What `parse_size_value` yields for a token: a decimal number with at
/// most one dot and at least one digit, followed by an optional unit, all
/// spaces trimmed; anything else is rejected.
pub open spec fn size_value_spec(s0: Seq<char>) -> Option<u64> {
    let s = trimmed(s0);
    if s.len() == 0 {
        None
    } else {
        let ne = number_end(s);
        let num = s.subrange(0, ne);
        let unit = trimmed(s.subrange(ne, s.len() as int));
        let d = crate::seq_find::first_index_where(num, dot_char());
        if num.len() == 0 {
            None
        } else {
            let parts: Option<(Seq<char>, Seq<char>)> = if d < 0 {
                Some((num, Seq::empty()))
            } else {
                let rest = num.subrange(d + 1, num.len() as int);
                if crate::seq_find::first_index_where(rest, dot_char()) >= 0
                    || num.len() < 2 {
                    None
                } else {
                    Some((num.subrange(0, d), rest))
                }
            };
            match parts {
                None => None,
                Some(p) => match unit_mult(unit) {
                    None => None,
                    Some(m) => Some(scaled_bytes(p.0, p.1, m)),
                },
            }
        }
    }
}

} // verus!

verus! {

/// Spaces cut from both ends leave the subrange between the first and
/// last non-space characters.
proof fn lemma_trimmed_bounds(s: Seq<char>, a: int, b: int)
    requires
        0 <= a < b <= s.len(),
        forall|i: int| 0 <= i < a ==> is_space(s[i]),
        forall|i: int| b <= i < s.len() ==> is_space(s[i]),
        !is_space(s[a]),
        !is_space(s[b - 1]),
    ensures
        trimmed(s) == s.subrange(a, b),
    decreases s.len(),
{
    if is_space(s[0]) {
        let t = s.drop_first();
        assert forall|i: int| 0 <= i < a - 1 implies is_space(t[i]) by {
            assert(t[i] == s[i + 1]);
        }
        assert forall|i: int| b - 1 <= i < t.len() implies is_space(t[i]) by {
            assert(t[i] == s[i + 1]);
        }
        assert(t[a - 1] == s[a]);
        assert(t[b - 2] == s[b - 1]);
        lemma_trimmed_bounds(t, a - 1, b - 1);
        assert(t.subrange(a - 1, b - 1) =~= s.subrange(a, b));
    } else if is_space(s.last()) {
        let t = s.drop_last();
        assert(b < s.len());
        lemma_trimmed_bounds(t, a, b);
        assert(t.subrange(a, b) =~= s.subrange(a, b));
    } else {
        assert(a == 0);
        assert(b == s.len());
        assert(s.subrange(0, s.len() as int) =~= s);
    }
}

/// A string of spaces trims to nothing.
proof fn lemma_trimmed_all_space(s: Seq<char>)
    requires
        forall|i: int| 0 <= i < s.len() ==> is_space(s[i]),
    ensures
        trimmed(s).len() == 0,
    decreases s.len(),
{
    if s.len() > 0 {
        let t = s.drop_first();
        assert forall|i: int| 0 <= i < t.len() implies is_space(t[i]) by {
            assert(t[i] == s[i + 1]);
        }
        lemma_trimmed_all_space(t);
    }
}

/// Is `c` a space or tab, per `is_space`.
fn is_space_exec(c: char) -> (r: bool)
    ensures
        r == is_space(c),
{
    c == ' ' || c == '\t'
}

/// The first index that is not a space, or the length.
fn first_non_space(s: &str) -> (a: usize)
    ensures
        a <= s@.len(),
        forall|i: int| 0 <= i < a ==> is_space(s@[i]),
        a < s@.len() ==> !is_space(s@[a as int]),
{
    let len = s.unicode_len();
    let mut a: usize = 0;
    while a < len
        invariant
            len == s@.len(),
            a <= len,
            forall|i: int| 0 <= i < a ==> is_space(s@[i]),
        decreases len - a,
    {
        if !is_space_exec(s.get_char(a)) {
            return a;
        }
        a += 1;
    }
    a
}

/// The end of the last non-space run, scanning back no further than `a`.
fn last_non_space_end(s: &str, a: usize) -> (b: usize)
    requires
        a < s@.len(),
        !is_space(s@[a as int]),
    ensures
        a < b <= s@.len(),
        !is_space(s@[b - 1]),
        forall|i: int| b <= i < s@.len() ==> is_space(s@[i]),
{
    let len = s.unicode_len();
    let mut b: usize = len;
    while b > a + 1
        invariant
            len == s@.len(),
            a < len,
            !is_space(s@[a as int]),
            a + 1 <= b <= len,
            forall|i: int| b <= i < len ==> is_space(s@[i]),
        decreases b,
    {
        if !is_space_exec(s.get_char(b - 1)) {
            return b;
        }
        b -= 1;
    }
    b
}

/// Cut spaces and tabs from both ends, per `trimmed`.
fn trim_spaces(s: &str) -> (r: String)
    ensures
        r@ == trimmed(s@),
{
    let len = s.unicode_len();
    let a = first_non_space(s);
    if a == len {
        proof {
            lemma_trimmed_all_space(s@);
        }
        return String::new();
    }
    let b = last_non_space_end(s, a);
    proof {
        lemma_trimmed_bounds(s@, a as int, b as int);
    }
    let t = s.substring_char(a, b);
    t.to_owned()
}

} // verus!

verus! {

/// The value of a digit prefix, exactly while it fits in `u64`; `None`
/// reports a value beyond `u64::MAX`.
fn dec_val_exec(s: &str, from: usize, to: usize) -> (r: Option<u64>)
    requires
        from <= to <= s@.len(),
        forall|i: int| from <= i < to ==> is_digit(s@[i]),
    ensures
        ({
            let digits = s@.subrange(from as int, to as int);
            match r {
                Some(v) => v == dec_val(digits),
                None => dec_val(digits) > u64::MAX,
            }
        }),
{
    let mut acc: u64 = 0;
    let mut big = false;
    let mut i: usize = from;
    while i < to
        invariant
            from <= i <= to <= s@.len(),
            forall|j: int| from <= j < to ==> is_digit(s@[j]),
            ({
                let digits = s@.subrange(from as int, i as int);
                if big {
                    dec_val(digits) > u64::MAX
                } else {
                    acc == dec_val(digits)
                }
            }),
        decreases to - i,
    {
        let c = s.get_char(i);
        let d: u64 = (c as u32 as u64) - ('0' as u32 as u64);
        proof {
            let pre = s@.subrange(from as int, i as int);
            let ext = s@.subrange(from as int, i as int + 1);
            assert(ext.drop_last() =~= pre);
            assert(ext.last() == s@[i as int]);
            assert(d == digit_val(s@[i as int]));
        }
        if big {
            proof {
                let pre = s@.subrange(from as int, i as int);
                let ext = s@.subrange(from as int, i as int + 1);
                assert(dec_val(ext) == dec_val(pre) * 10 + digit_val(ext.last()));
            }
        } else {
            let next = match acc.checked_mul(10) {
                Some(x) => x.checked_add(d),
                None => None,
            };
            match next {
                Some(v) => {
                    acc = v;
                },
                None => {
                    big = true;
                },
            }
        }
        i += 1;
    }
    if big {
        None
    } else {
        Some(acc)
    }
}

/// Ten to the `d`, for small `d`.
fn pow10_exec(d: usize) -> (r: u64)
    requires
        d <= 12,
    ensures
        r == pow10(d as nat),
        r >= 1,
{
    let mut r: u64 = 1;
    let mut j: usize = 0;
    while j < d
        invariant
            j <= d <= 12,
            r == pow10(j as nat),
            r >= 1,
        decreases d - j,
    {
        proof {
            assert(pow10((j + 1) as nat) == 10 * pow10(j as nat));
            lemma_pow10_bound((j + 1) as nat);
        }
        r = r * 10;
        j += 1;
    }
    r
}

/// `pow10` is positive.
proof fn lemma_pow10_pos(d: nat)
    ensures
        pow10(d) >= 1,
    decreases d,
{
    if d > 0 {
        lemma_pow10_pos((d - 1) as nat)
    }
}

/// `pow10` grows with its exponent.
proof fn lemma_pow10_mono(a: nat, b: nat)
    requires
        a <= b,
    ensures
        pow10(a) <= pow10(b),
    decreases b,
{
    if a < b {
        lemma_pow10_mono(a, (b - 1) as nat);
        lemma_pow10_pos((b - 1) as nat);
    }
}

/// `pow10` stays small for small exponents.
proof fn lemma_pow10_bound(d: nat)
    requires
        d <= 12,
    ensures
        pow10(d) <= 1000000000000,
{
    assert(pow10(0) == 1);
    assert(pow10(1) == 10);
    assert(pow10(2) == 100);
    assert(pow10(3) == 1000);
    assert(pow10(4) == 10000);
    assert(pow10(5) == 100000);
    assert(pow10(6) == 1000000);
    assert(pow10(7) == 10000000);
    assert(pow10(8) == 100000000);
    assert(pow10(9) == 1000000000);
    assert(pow10(10) == 10000000000);
    assert(pow10(11) == 100000000000);
    assert(pow10(12) == 1000000000000);
    lemma_pow10_mono(d, 12);
}

/// The multiplier of a unit string, per `unit_mult`.
fn unit_mult_exec(u: &str) -> (r: Option<u64>)
    ensures
        r == unit_mult(u@),
{
    let len = u.unicode_len();
    let ghost l = u@.map_values(|c: char| unit_lower(c));
    proof {
        assert(l.len() == u@.len());
    }
    if len == 0 {
        proof {
            assert(l =~= Seq::<char>::empty());
        }
        return Some(1);
    }
    if len > 3 {
        proof {
            assert(l.len() == u@.len());
            assert(unit_mult(u@) is None);
        }
        return None;
    }
    let c0 = unit_lower_exec(u.get_char(0));
    if len == 1 {
        if c0 == 'b' {
            proof {
                assert(l =~= seq!['b']);
            }
            Some(1)
        } else {
            proof {
                    assert(l.len() == u@.len());
                    if u@.len() >= 1 {
                        assert(l[0] == unit_lower(u@[0]));
                    }
                    if u@.len() >= 2 {
                        assert(l[1] == unit_lower(u@[1]));
                    }
                    if u@.len() >= 3 {
                        assert(l[2] == unit_lower(u@[2]));
                    }
                    assert(unit_mult(u@) is None);
                }
            None
        }
    } else if len == 2 {
        let c1 = unit_lower_exec(u.get_char(1));
        if c1 == 'b' {
            if c0 == 'k' {
                proof {
                    assert(l.len() == u@.len());
                    assert(l[0] == unit_lower(u@[0]));
                    assert(l[1] == unit_lower(u@[1]));
                    assert(l =~= seq!['k', 'b']);
                }
                Some(1024)
            } else if c0 == 'm' {
                proof {
                    assert(l.len() == u@.len());
                    assert(l[0] == unit_lower(u@[0]));
                    assert(l[1] == unit_lower(u@[1]));
                    assert(l =~= seq!['m', 'b']);
                }
                Some(1048576)
            } else if c0 == 'g' {
                proof {
                    assert(l.len() == u@.len());
                    assert(l[0] == unit_lower(u@[0]));
                    assert(l[1] == unit_lower(u@[1]));
                    assert(l =~= seq!['g', 'b']);
                }
                Some(1073741824)
            } else if c0 == 't' {
                proof {
                    assert(l.len() == u@.len());
                    assert(l[0] == unit_lower(u@[0]));
                    assert(l[1] == unit_lower(u@[1]));
                    assert(l =~= seq!['t', 'b']);
                }
                Some(1099511627776)
            } else {
                proof {
                    assert(l.len() == u@.len());
                    if u@.len() >= 1 {
                        assert(l[0] == unit_lower(u@[0]));
                    }
                    if u@.len() >= 2 {
                        assert(l[1] == unit_lower(u@[1]));
                    }
                    if u@.len() >= 3 {
                        assert(l[2] == unit_lower(u@[2]));
                    }
                    assert(unit_mult(u@) is None);
                }
                None
            }
        } else {
            proof {
                    assert(l.len() == u@.len());
                    if u@.len() >= 1 {
                        assert(l[0] == unit_lower(u@[0]));
                    }
                    if u@.len() >= 2 {
                        assert(l[1] == unit_lower(u@[1]));
                    }
                    if u@.len() >= 3 {
                        assert(l[2] == unit_lower(u@[2]));
                    }
                    assert(unit_mult(u@) is None);
                }
            None
        }
    } else {
        let c1 = unit_lower_exec(u.get_char(1));
        let c2 = unit_lower_exec(u.get_char(2));
        if c1 == 'i' && c2 == 'b' {
            if c0 == 'k' {
                proof {
                    assert(l.len() == u@.len());
                    assert(l[0] == unit_lower(u@[0]));
                    assert(l[1] == unit_lower(u@[1]));
                    assert(l[2] == unit_lower(u@[2]));
                    assert(l =~= seq!['k', 'i', 'b']);
                }
                Some(1024)
            } else if c0 == 'm' {
                proof {
                    assert(l.len() == u@.len());
                    assert(l[0] == unit_lower(u@[0]));
                    assert(l[1] == unit_lower(u@[1]));
                    assert(l[2] == unit_lower(u@[2]));
                    assert(l =~= seq!['m', 'i', 'b']);
                }
                Some(1048576)
            } else if c0 == 'g' {
                proof {
                    assert(l.len() == u@.len());
                    assert(l[0] == unit_lower(u@[0]));
                    assert(l[1] == unit_lower(u@[1]));
                    assert(l[2] == unit_lower(u@[2]));
                    assert(l =~= seq!['g', 'i', 'b']);
                }
                Some(1073741824)
            } else if c0 == 't' {
                proof {
                    assert(l.len() == u@.len());
                    assert(l[0] == unit_lower(u@[0]));
                    assert(l[1] == unit_lower(u@[1]));
                    assert(l[2] == unit_lower(u@[2]));
                    assert(l =~= seq!['t', 'i', 'b']);
                }
                Some(1099511627776)
            } else {
                proof {
                    assert(l.len() == u@.len());
                    if u@.len() >= 1 {
                        assert(l[0] == unit_lower(u@[0]));
                    }
                    if u@.len() >= 2 {
                        assert(l[1] == unit_lower(u@[1]));
                    }
                    if u@.len() >= 3 {
                        assert(l[2] == unit_lower(u@[2]));
                    }
                    assert(unit_mult(u@) is None);
                }
                None
            }
        } else {
            proof {
                    assert(l.len() == u@.len());
                    if u@.len() >= 1 {
                        assert(l[0] == unit_lower(u@[0]));
                    }
                    if u@.len() >= 2 {
                        assert(l[1] == unit_lower(u@[1]));
                    }
                    if u@.len() >= 3 {
                        assert(l[2] == unit_lower(u@[2]));
                    }
                    assert(unit_mult(u@) is None);
                }
            None
        }
    }
}

/// Lower-case one unit letter, per `unit_lower`.
fn unit_lower_exec(c: char) -> (r: char)
    ensures
        r == unit_lower(c),
{
    if c == 'B' {
        'b'
    } else if c == 'K' {
        'k'
    } else if c == 'M' {
        'm'
    } else if c == 'G' {
        'g'
    } else if c == 'T' {
        't'
    } else if c == 'I' {
        'i'
    } else {
        c
    }
}


} // verus!

verus! {

/// A digit string's value is below ten to its length.
proof fn lemma_dec_val_bound(s: Seq<char>)
    requires
        forall|i: int| 0 <= i < s.len() ==> is_digit(s[i]),
    ensures
        dec_val(s) < pow10(s.len()),
    decreases s.len(),
{
    if s.len() > 0 {
        let dl = s.drop_last();
        assert forall|i: int| 0 <= i < dl.len() implies is_digit(dl[i]) by {
            assert(dl[i] == s[i]);
        }
        lemma_dec_val_bound(dl);
        assert(digit_val(s.last()) <= 9);
    }
}

/// Where the number part of `s` ends, per `number_end`.
fn number_end_exec(s: &str) -> (ne: usize)
    ensures
        ne as int == number_end(s@),
        ne <= s@.len(),
        forall|j: int| 0 <= j < ne ==> (is_digit(s@[j]) || s@[j] == '.'),
{
    let len = s.unicode_len();
    let mut i: usize = 0;
    while i < len
        invariant
            len == s@.len(),
            i <= len,
            forall|j: int| 0 <= j < i ==> (is_digit(s@[j]) || s@[j] == '.'),
        decreases len - i,
    {
        let c = s.get_char(i);
        let stops = !(('0' <= c && c <= '9') || c == '.');
        proof {
            assert(stops == non_number_char()(s@[i as int]));
        }
        if stops {
            proof {
                crate::seq_find::lemma_first_index_where_is(s@, non_number_char(), i as int);
            }
            return i;
        }
        i += 1;
    }
    proof {
        crate::seq_find::lemma_first_index_where_none(s@, non_number_char());
    }
    len
}

/// The first dot at or after `from`, before `to`, relative to `from`.
fn find_dot(s: &str, to: usize) -> (r: Option<usize>)
    requires
        to <= s@.len(),
    ensures
        ({
            let num = s@.subrange(0, to as int);
            match r {
                Some(d) => crate::seq_find::first_index_where(num, dot_char()) == d as int && d
                    < to,
                None => crate::seq_find::first_index_where(num, dot_char()) < 0,
            }
        }),
{
    let ghost num = s@.subrange(0, to as int);
    let mut i: usize = 0;
    while i < to
        invariant
            to <= s@.len(),
            num == s@.subrange(0, to as int),
            i <= to,
            forall|j: int| 0 <= j < i ==> num[j] != '.',
        decreases to - i,
    {
        if s.get_char(i) == '.' {
            proof {
                assert(num[i as int] == s@[i as int]);
                crate::seq_find::lemma_first_index_where_is(num, dot_char(), i as int);
            }
            return Some(i);
        }
        proof {
            assert(num[i as int] == s@[i as int]);
        }
        i += 1;
    }
    proof {
        crate::seq_find::lemma_first_index_where_none(num, dot_char());
    }
    None
}

/// Parse a size token — a decimal number with an optional fraction and an
/// optional binary unit — into bytes, per `size_value_spec`. Rounds half
/// up; values beyond `u64::MAX` saturate; fraction digits beyond the
/// twelfth are ignored.
pub fn parse_size_value(value: &str) -> (r: Option<u64>)
    ensures
        r == size_value_spec(value@),
{
    let t = trim_spaces(value);
    let s = t.as_str();
    let len = s.unicode_len();
    if len == 0 {
        return None;
    }
    let ne = number_end_exec(s);
    if ne == 0 {
        return None;
    }
    let unit_raw = s.substring_char(ne, len);
    let unit = trim_spaces(unit_raw);
    let ghost num = s@.subrange(0, ne as int);

    let dot = find_dot(s, ne);
    let i_to: usize;
    let f_from: usize;
    let f_to: usize;
    match dot {
        None => {
            i_to = ne;
            f_from = ne;
            f_to = ne;
        },
        Some(d) => {
            if ne < 2 {
                return None;
            }
            match find_dot_after(s, d + 1, ne) {
                Some(_) => {
                    proof {
                        let rest = num.subrange(d + 1, num.len() as int);
                        assert(rest =~= s@.subrange(d + 1 as int, ne as int));
                    }
                    return None;
                },
                None => {},
            }
            i_to = d;
            f_from = d + 1;
            f_to = if ne - (d + 1) > 12 {
                d + 1 + 12
            } else {
                ne
            };
        },
    }

    let m = match unit_mult_exec(unit.as_str()) {
        None => {
            return None;
        },
        Some(m) => m,
    };
    proof {
        crate::seq_find::lemma_first_index_where(num, dot_char());
        match dot {
            None => {},
            Some(d) => {
                let rest = num.subrange(d + 1, num.len() as int);
                assert(rest =~= s@.subrange(d + 1 as int, ne as int));
                crate::seq_find::lemma_first_index_where(rest, dot_char());
                assert forall|j: int| f_from <= j < f_to implies is_digit(s@[j]) by {
                    assert(rest[j - f_from] == num[j]);
                    assert(!dot_char()(rest[j - f_from]));
                    assert(num[j] == s@[j]);
                }
            },
        }
        assert forall|j: int| 0 <= j < i_to implies is_digit(s@[j]) by {
            assert(!dot_char()(num[j]));
            assert(s@[j] == num[j]);
        }
        assert(m >= 1 && m <= 1099511627776) by {
            assert(unit_mult(unit@) == Some(m));
        }
    }
    let ival_opt = dec_val_exec(s, 0, i_to);
    let fval_opt = dec_val_exec(s, f_from, f_to);
    let flen = f_to - f_from;
    let p = pow10_exec(flen);
    let ghost ipart = s@.subrange(0, i_to as int);
    let ghost fpart = s@.subrange(f_from as int, f_to as int);
    proof {
        lemma_size_value_decomposition(value@, s@, ne as int, dot, i_to as int, f_from as int, f_to as int, unit@, m);
    }
    let fval = match fval_opt {
        Some(v) => v,
        None => {
            proof {
                lemma_dec_val_bound(fpart);
                lemma_pow10_bound(fpart.len());
            }
            0
        },
    };
    match ival_opt {
        None => {
            proof {
                assert(dec_val(ipart) > u64::MAX);
                assert(dec_val(ipart) * m >= dec_val(ipart) * 1) by (nonlinear_arith)
                    requires m >= 1;
                assert(scaled_bytes(ipart, fpart, m) == u64::MAX);
            }
            Some(u64::MAX)
        },
        Some(iv) => {
            let iu: u128 = iv as u128;
            let mu: u128 = m as u128;
            let fu: u128 = fval as u128;
            let pu: u128 = p as u128;
            proof {
                lemma_dec_val_bound(fpart);
                lemma_pow10_bound(fpart.len());
                assert(iu * mu <= 0xffffffffffffffffu128 * 1099511627776) by (nonlinear_arith)
                    requires iu <= 0xffffffffffffffff && mu <= 1099511627776;
                assert(fu * mu <= 1000000000000u128 * 1099511627776) by (nonlinear_arith)
                    requires fu <= 1000000000000 && mu <= 1099511627776;
            }
            let total: u128 = iu * mu + (fu * mu + pu / 2) / pu;
            if total > 0xffffffffffffffffu128 {
                proof {
                    assert(scaled_bytes(ipart, fpart, m) == u64::MAX);
                }
                Some(u64::MAX)
            } else {
                proof {
                    assert(total == scaled_bytes(ipart, fpart, m));
                }
                Some(total as u64)
            }
        },
    }
}

/// The first dot in `s` at or after `from` and before `to`.
fn find_dot_after(s: &str, from: usize, to: usize) -> (r: Option<usize>)
    requires
        from <= to <= s@.len(),
    ensures
        ({
            let rest = s@.subrange(from as int, to as int);
            match r {
                Some(d) => crate::seq_find::first_index_where(rest, dot_char()) >= 0,
                None => crate::seq_find::first_index_where(rest, dot_char()) < 0,
            }
        }),
{
    let ghost rest = s@.subrange(from as int, to as int);
    let mut i: usize = from;
    while i < to
        invariant
            from <= i <= to <= s@.len(),
            rest == s@.subrange(from as int, to as int),
            forall|j: int| 0 <= j < i - from ==> rest[j] != '.',
        decreases to - i,
    {
        if s.get_char(i) == '.' {
            proof {
                assert(rest[i - from] == s@[i as int]);
                crate::seq_find::lemma_first_index_where_is(rest, dot_char(), i - from);
            }
            return Some(i);
        }
        proof {
            assert(rest[i - from] == s@[i as int]);
        }
        i += 1;
    }
    proof {
        crate::seq_find::lemma_first_index_where_none(rest, dot_char());
    }
    None
}

/// Ties the pieces the parser computed to `size_value_spec`'s layout.
proof fn lemma_size_value_decomposition(
    s0: Seq<char>,
    s: Seq<char>,
    ne: int,
    dot: Option<usize>,
    i_to: int,
    f_from: int,
    f_to: int,
    unit: Seq<char>,
    m: u64,
)
    requires
        s == trimmed(s0),
        s.len() > 0,
        0 < ne <= s.len(),
        ne == number_end(s),
        unit == trimmed(s.subrange(ne, s.len() as int)),
        unit_mult(unit) == Some(m),
        ({
            let num = s.subrange(0, ne);
            match dot {
                None => crate::seq_find::first_index_where(num, dot_char()) < 0 && i_to == ne
                    && f_from == ne && f_to == ne,
                Some(d) => {
                    &&& crate::seq_find::first_index_where(num, dot_char()) == d as int
                    &&& (d as int) < ne
                    &&& ne >= 2
                    &&& crate::seq_find::first_index_where(
                        num.subrange(d + 1, num.len() as int),
                        dot_char(),
                    ) < 0
                    &&& i_to == d as int
                    &&& f_from == d + 1
                    &&& f_to == (if ne - (d + 1) > 12 {
                        d + 1 + 12
                    } else {
                        ne
                    })
                },
            }
        }),
    ensures
        size_value_spec(s0) == Some(
            scaled_bytes(s.subrange(0, i_to), s.subrange(f_from, f_to), m),
        ),
{
    let num = s.subrange(0, ne);
    match dot {
        None => {
            assert(s.subrange(0, i_to) =~= num);
            assert(s.subrange(f_from, f_to) =~= Seq::<char>::empty());
        },
        Some(d) => {
            let rest = num.subrange(d + 1, num.len() as int);
            assert(s.subrange(0, i_to) =~= num.subrange(0, d as int));
            if rest.len() > 12 {
                assert(s.subrange(f_from, f_to) =~= rest.subrange(0, 12));
            } else {
                assert(s.subrange(f_from, f_to) =~= rest);
            }
        },
    }
}

} // verus!

verus! {

/// The comparison an operator token stands for.
pub open spec fn op_spec(s: Seq<char>) -> Option<SizeOperator> {
    if s =~= seq!['>', '='] {
        Some(SizeOperator::GreaterThanOrEqual)
    } else if s =~= seq!['<', '='] {
        Some(SizeOperator::LessThanOrEqual)
    } else if s =~= seq!['>'] {
        Some(SizeOperator::GreaterThan)
    } else if s =~= seq!['<'] {
        Some(SizeOperator::LessThan)
    } else {
        None
    }
}

/// Is the token one of the standalone comparison operators?
pub fn is_comparison_prefix(token: &str) -> (r: bool)
    ensures
        r == (op_spec(token@) is Some),
{
    let len = token.unicode_len();
    if len == 1 {
        let c = token.get_char(0);
        proof {
            if c == '>' {
                assert(token@ =~= seq!['>']);
            }
            if c == '<' {
                assert(token@ =~= seq!['<']);
            }
        }
        c == '>' || c == '<'
    } else if len == 2 {
        let c0 = token.get_char(0);
        let c1 = token.get_char(1);
        proof {
            if c0 == '>' && c1 == '=' {
                assert(token@ =~= seq!['>', '=']);
            }
            if c0 == '<' && c1 == '=' {
                assert(token@ =~= seq!['<', '=']);
            }
        }
        (c0 == '>' || c0 == '<') && c1 == '='
    } else {
        false
    }
}

/// Combine a standalone operator token with a size token.
pub fn parse_size_filter_parts(op: &str, value: &str) -> (r: Option<SizeFilter>)
    ensures
        match r {
            Some(f) => op_spec(op@) == Some(f.operator) && size_value_spec(value@) == Some(
                f.bytes,
            ),
            None => op_spec(op@) is None || size_value_spec(value@) is None,
        },
{
    let len = op.unicode_len();
    let operator: SizeOperator;
    if len == 1 {
        let c = op.get_char(0);
        if c == '>' {
            proof {
                assert(op@ =~= seq!['>']);
            }
            operator = SizeOperator::GreaterThan;
        } else if c == '<' {
            proof {
                assert(op@ =~= seq!['<']);
            }
            operator = SizeOperator::LessThan;
        } else {
            return None;
        }
    } else if len == 2 {
        let c0 = op.get_char(0);
        let c1 = op.get_char(1);
        if c0 == '>' && c1 == '=' {
            proof {
                assert(op@ =~= seq!['>', '=']);
            }
            operator = SizeOperator::GreaterThanOrEqual;
        } else if c0 == '<' && c1 == '=' {
            proof {
                assert(op@ =~= seq!['<', '=']);
            }
            operator = SizeOperator::LessThanOrEqual;
        } else {
            return None;
        }
    } else {
        return None;
    }
    match parse_size_value(value) {
        None => None,
        Some(bytes) => Some(SizeFilter { operator, bytes }),
    }
}

/// What `parse_size_filter` yields for a whole token such as `>1.5GB`: the
/// leading comparison, then the remainder as a size value.
pub open spec fn size_filter_token_spec(s: Seq<char>) -> Option<SizeFilter> {
    if s.len() < 2 {
        None
    } else {
        let two = s.subrange(0, 2);
        let after_two = s.subrange(2, s.len() as int);
        let after_one = s.subrange(1, s.len() as int);
        let parts: Option<(SizeOperator, Seq<char>)> = if two =~= seq!['>', '='] {
            Some((SizeOperator::GreaterThanOrEqual, after_two))
        } else if two =~= seq!['<', '='] {
            Some((SizeOperator::LessThanOrEqual, after_two))
        } else if s[0] == '>' {
            Some((SizeOperator::GreaterThan, after_one))
        } else if s[0] == '<' {
            Some((SizeOperator::LessThan, after_one))
        } else {
            None
        };
        match parts {
            None => None,
            Some(p) => match size_value_spec(p.1) {
                None => None,
                Some(bytes) => Some(SizeFilter { operator: p.0, bytes }),
            },
        }
    }
}

/// Parse a whole size-filter token, per `size_filter_token_spec`.
pub fn parse_size_filter(token: &str) -> (r: Option<SizeFilter>)
    ensures
        r == size_filter_token_spec(token@),
{
    let len = token.unicode_len();
    if len < 2 {
        return None;
    }
    let c0 = token.get_char(0);
    let c1 = token.get_char(1);
    let ghost two = token@.subrange(0, 2);
    proof {
        assert(two[0] == token@[0] && two[1] == token@[1]);
    }
    let operator: SizeOperator;
    let from: usize;
    if c0 == '>' && c1 == '=' {
        proof {
            assert(two =~= seq!['>', '=']);
        }
        operator = SizeOperator::GreaterThanOrEqual;
        from = 2;
    } else if c0 == '<' && c1 == '=' {
        proof {
            assert(two =~= seq!['<', '=']);
        }
        operator = SizeOperator::LessThanOrEqual;
        from = 2;
    } else if c0 == '>' {
        operator = SizeOperator::GreaterThan;
        from = 1;
    } else if c0 == '<' {
        operator = SizeOperator::LessThan;
        from = 1;
    } else {
        return None;
    }
    let rest = token.substring_char(from, len);
    match parse_size_value(rest) {
        None => None,
        Some(bytes) => Some(SizeFilter { operator, bytes }),
    }
}

} // verus!
