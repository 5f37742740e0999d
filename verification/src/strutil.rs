//! Small verified text utilities: the character classes, scanning,
//! splitting and number parsing that the command-line and report parsers
//! are built from. All contracts speak of the `Seq<char>` view of the text.

use vstd::prelude::*;
use vstd::string::*;

verus! {

/// ASCII whitespace: the separator set of command lines and report text.
pub open spec fn is_space_char(c: char) -> bool {
    c == ' ' || c == '\t' || c == '\n' || c == '\r'
}

/// Executable test for `is_space_char`.
pub fn is_space(c: char) -> (r: bool)
    ensures
        r == is_space_char(c),
{
    c == ' ' || c == '\t' || c == '\n' || c == '\r'
}

/// Character-wise equality of two string slices.
pub fn str_eq(a: &str, b: &str) -> (r: bool)
    ensures
        r == (a@ == b@),
{
    let alen = a.unicode_len();
    let blen = b.unicode_len();
    if alen != blen {
        return false;
    }
    let mut i: usize = 0;
    while i < alen
        invariant
            alen == a@.len(),
            blen == b@.len(),
            alen == blen,
            i <= alen,
            forall|j: int| 0 <= j < i ==> a@[j] == b@[j],
        decreases alen - i,
    {
        if a.get_char(i) != b.get_char(i) {
            return false;
        }
        i += 1;
    }
    proof {
        assert(a@ =~= b@);
    }
    true
}

/// The pattern `p` stands in `s` at position `i`.
pub open spec fn matches_at(s: Seq<char>, p: Seq<char>, i: int) -> bool {
    0 <= i && i + p.len() <= s.len() && s.subrange(i, i + p.len() as int) == p
}

/// Executable test for `matches_at`.
pub fn str_matches_at(s: &str, p: &str, i: usize) -> (r: bool)
    requires
        i <= s@.len(),
    ensures
        r == matches_at(s@, p@, i as int),
{
    let slen = s.unicode_len();
    let plen = p.unicode_len();
    if plen > slen - i {
        return false;
    }
    let mut j: usize = 0;
    while j < plen
        invariant
            slen == s@.len(),
            plen == p@.len(),
            i + plen <= slen,
            j <= plen,
            forall|k: int| 0 <= k < j ==> s@[i + k] == p@[k],
        decreases plen - j,
    {
        if s.get_char(i + j) != p.get_char(j) {
            proof {
                assert(s@.subrange(i as int, i + p@.len() as int)[j as int] != p@[j as int]);
            }
            return false;
        }
        j += 1;
    }
    proof {
        assert(s@.subrange(i as int, i + p@.len() as int) =~= p@);
    }
    true
}

/// Some occurrence of `p` stands in `s`.
pub open spec fn contains_seq(s: Seq<char>, p: Seq<char>) -> bool {
    exists|i: int| matches_at(s, p, i)
}

/// Substring search, as the machine-type tokens are recognised.
pub fn str_contains(s: &str, p: &str) -> (r: bool)
    ensures
        r == contains_seq(s@, p@),
{
    let slen = s.unicode_len();
    let plen = p.unicode_len();
    if plen > slen {
        return false;
    }
    if plen == 0 {
        proof {
            assert(s@.subrange(0, 0) =~= p@);
            assert(matches_at(s@, p@, 0));
        }
        return true;
    }
    let mut i: usize = 0;
    while i <= slen - plen
        invariant
            slen == s@.len(),
            plen == p@.len(),
            0 < plen <= slen,
            i <= slen - plen + 1,
            forall|k: int| 0 <= k < i ==> !matches_at(s@, p@, k),
        decreases slen - i,
    {
        if str_matches_at(s, p, i) {
            return true;
        }
        i += 1;
    }
    proof {
        assert forall|k: int| !matches_at(s@, p@, k) by {
            if 0 <= k && k + p@.len() <= s@.len() {
                assert(k < i);
            }
        }
    }
    false
}

/// First position at or after `from` holding the character `c`, or the
/// length of `s`.
pub open spec fn find_from(s: Seq<char>, from: int, c: char) -> int
    decreases s.len() - from when 0 <= from <= s.len()
{
    if from >= s.len() {
        s.len() as int
    } else if s[from] == c {
        from
    } else {
        find_from(s, from + 1, c)
    }
}

/// The position with the properties of `find_from` is its value.
pub proof fn lemma_find_from_is(s: Seq<char>, from: int, c: char, j: int)
    requires
        0 <= from <= j <= s.len(),
        forall|k: int| from <= k < j ==> s[k] != c,
        j < s.len() ==> s[j] == c,
    ensures
        find_from(s, from, c) == j,
    decreases j - from,
{
    if from < j {
        lemma_find_from_is(s, from + 1, c, j);
    }
}

/// What `find_from` returns.
pub proof fn lemma_find_from(s: Seq<char>, from: int, c: char)
    requires
        0 <= from <= s.len(),
    ensures
        from <= find_from(s, from, c) <= s.len(),
        forall|k: int| from <= k < find_from(s, from, c) ==> s[k] != c,
        find_from(s, from, c) < s.len() ==> s[find_from(s, from, c)] == c,
    decreases s.len() - from,
{
    if from < s.len() && s[from] != c {
        lemma_find_from(s, from + 1, c);
    }
}

/// Executable `find_from`.
pub fn find_char_from(s: &str, from: usize, c: char) -> (r: usize)
    requires
        from <= s@.len(),
    ensures
        r == find_from(s@, from as int, c),
        from <= r <= s@.len(),
        forall|k: int| from <= k < r ==> s@[k] != c,
        r < s@.len() ==> s@[r as int] == c,
{
    let n = s.unicode_len();
    let mut i: usize = from;
    while i < n
        invariant
            n == s@.len(),
            from <= i <= n,
            forall|k: int| from <= k < i ==> s@[k] != c,
        decreases n - i,
    {
        if s.get_char(i) == c {
            proof {
                lemma_find_from_is(s@, from as int, c, i as int);
            }
            return i;
        }
        i += 1;
    }
    proof {
        lemma_find_from_is(s@, from as int, c, n as int);
    }
    n
}

/// First position at or after `from` that is not ASCII whitespace.
pub open spec fn skip_spaces(s: Seq<char>, from: int) -> int
    decreases s.len() - from when 0 <= from <= s.len()
{
    if from >= s.len() {
        s.len() as int
    } else if !is_space_char(s[from]) {
        from
    } else {
        skip_spaces(s, from + 1)
    }
}

/// The position with the properties of `skip_spaces` is its value.
pub proof fn lemma_skip_spaces_is(s: Seq<char>, from: int, j: int)
    requires
        0 <= from <= j <= s.len(),
        forall|k: int| from <= k < j ==> is_space_char(s[k]),
        j < s.len() ==> !is_space_char(s[j]),
    ensures
        skip_spaces(s, from) == j,
    decreases j - from,
{
    if from < j {
        lemma_skip_spaces_is(s, from + 1, j);
    }
}

/// What `skip_spaces` returns.
pub proof fn lemma_skip_spaces(s: Seq<char>, from: int)
    requires
        0 <= from <= s.len(),
    ensures
        from <= skip_spaces(s, from) <= s.len(),
        forall|k: int| from <= k < skip_spaces(s, from) ==> is_space_char(s[k]),
        skip_spaces(s, from) < s.len() ==> !is_space_char(s[skip_spaces(s, from)]),
    decreases s.len() - from,
{
    if from < s.len() && is_space_char(s[from]) {
        lemma_skip_spaces(s, from + 1);
    }
}

/// Executable `skip_spaces`.
pub fn skip_spaces_from(s: &str, from: usize) -> (r: usize)
    requires
        from <= s@.len(),
    ensures
        r == skip_spaces(s@, from as int),
        from <= r <= s@.len(),
        forall|k: int| from <= k < r ==> is_space_char(s@[k]),
        r < s@.len() ==> !is_space_char(s@[r as int]),
{
    let n = s.unicode_len();
    let mut i: usize = from;
    while i < n
        invariant
            n == s@.len(),
            from <= i <= n,
            forall|k: int| from <= k < i ==> is_space_char(s@[k]),
        decreases n - i,
    {
        if !is_space(s.get_char(i)) {
            proof {
                lemma_skip_spaces_is(s@, from as int, i as int);
            }
            return i;
        }
        i += 1;
    }
    proof {
        lemma_skip_spaces_is(s@, from as int, n as int);
    }
    n
}

/// First position at or after `from` that is ASCII whitespace, or the
/// length of `s`: the end of the token starting at `from`.
pub open spec fn token_end(s: Seq<char>, from: int) -> int
    decreases s.len() - from when 0 <= from <= s.len()
{
    if from >= s.len() {
        s.len() as int
    } else if is_space_char(s[from]) {
        from
    } else {
        token_end(s, from + 1)
    }
}

/// The position with the properties of `token_end` is its value.
pub proof fn lemma_token_end_is(s: Seq<char>, from: int, j: int)
    requires
        0 <= from <= j <= s.len(),
        forall|k: int| from <= k < j ==> !is_space_char(s[k]),
        j < s.len() ==> is_space_char(s[j]),
    ensures
        token_end(s, from) == j,
    decreases j - from,
{
    if from < j {
        lemma_token_end_is(s, from + 1, j);
    }
}

/// What `token_end` returns.
pub proof fn lemma_token_end(s: Seq<char>, from: int)
    requires
        0 <= from <= s.len(),
    ensures
        from <= token_end(s, from) <= s.len(),
        forall|k: int| from <= k < token_end(s, from) ==> !is_space_char(s[k]),
        token_end(s, from) < s.len() ==> is_space_char(s[token_end(s, from)]),
    decreases s.len() - from,
{
    if from < s.len() && !is_space_char(s[from]) {
        lemma_token_end(s, from + 1);
    }
}

/// Executable `token_end`.
pub fn token_end_from(s: &str, from: usize) -> (r: usize)
    requires
        from <= s@.len(),
    ensures
        r == token_end(s@, from as int),
        from <= r <= s@.len(),
        forall|k: int| from <= k < r ==> !is_space_char(s@[k]),
        r < s@.len() ==> is_space_char(s@[r as int]),
{
    let n = s.unicode_len();
    let mut i: usize = from;
    while i < n
        invariant
            n == s@.len(),
            from <= i <= n,
            forall|k: int| from <= k < i ==> !is_space_char(s@[k]),
        decreases n - i,
    {
        if is_space(s.get_char(i)) {
            proof {
                lemma_token_end_is(s@, from as int, i as int);
            }
            return i;
        }
        i += 1;
    }
    proof {
        lemma_token_end_is(s@, from as int, n as int);
    }
    n
}

} // verus!

verus! {

/// A hexadecimal digit.
pub open spec fn is_hex_digit_char(c: char) -> bool {
    (48 <= c as u32 && c as u32 <= 57)      // '0' ..= '9'
    || (97 <= c as u32 && c as u32 <= 102)  // 'a' ..= 'f'
    || (65 <= c as u32 && c as u32 <= 70)   // 'A' ..= 'F'
}

/// The value of a hexadecimal digit; 0 on any other character.
pub open spec fn hex_digit_val(c: char) -> int {
    if 48 <= c as u32 && c as u32 <= 57 {
        c as u32 - 48
    } else if 97 <= c as u32 && c as u32 <= 102 {
        c as u32 - 87
    } else if 65 <= c as u32 && c as u32 <= 70 {
        c as u32 - 55
    } else {
        0
    }
}

/// Executable hexadecimal digit test and value.
pub fn hex_digit(c: char) -> (r: Option<u8>)
    ensures
        match r {
            Some(v) => is_hex_digit_char(c) && v as int == hex_digit_val(c),
            None => !is_hex_digit_char(c),
        },
{
    let u = c as u32;
    if 48 <= u && u <= 57 {
        Some((u - 48) as u8)
    } else if 97 <= u && u <= 102 {
        Some((u - 87) as u8)
    } else if 65 <= u && u <= 70 {
        Some((u - 55) as u8)
    } else {
        None
    }
}

/// The number a sequence of hexadecimal digits denotes.
pub open spec fn hex_value(s: Seq<char>) -> int
    decreases s.len(),
{
    if s.len() == 0 {
        0
    } else {
        16 * hex_value(s.drop_last()) + hex_digit_val(s.last())
    }
}

/// A digit sequence never denotes a negative number.
pub proof fn lemma_hex_value_nonneg(s: Seq<char>)
    ensures
        hex_value(s) >= 0,
    decreases s.len(),
{
    if s.len() > 0 {
        lemma_hex_value_nonneg(s.drop_last());
    }
}

/// Appending a digit multiplies the value by the base and adds the digit.
pub proof fn lemma_hex_value_push(s: Seq<char>, c: char)
    ensures
        hex_value(s.push(c)) == 16 * hex_value(s) + hex_digit_val(c),
{
    assert(s.push(c).drop_last() =~= s);
}

/// First position at or after `from` that is not a hexadecimal digit.
pub open spec fn hex_run_end(s: Seq<char>, from: int) -> int
    decreases s.len() - from when 0 <= from <= s.len()
{
    if from >= s.len() {
        s.len() as int
    } else if !is_hex_digit_char(s[from]) {
        from
    } else {
        hex_run_end(s, from + 1)
    }
}

/// The position with the properties of `hex_run_end` is its value.
pub proof fn lemma_hex_run_end_is(s: Seq<char>, from: int, j: int)
    requires
        0 <= from <= j <= s.len(),
        forall|k: int| from <= k < j ==> is_hex_digit_char(s[k]),
        j < s.len() ==> !is_hex_digit_char(s[j]),
    ensures
        hex_run_end(s, from) == j,
    decreases j - from,
{
    if from < j {
        lemma_hex_run_end_is(s, from + 1, j);
    }
}

/// What `hex_run_end` returns.
pub proof fn lemma_hex_run_end(s: Seq<char>, from: int)
    requires
        0 <= from <= s.len(),
    ensures
        from <= hex_run_end(s, from) <= s.len(),
        forall|k: int| from <= k < hex_run_end(s, from) ==> is_hex_digit_char(s[k]),
        hex_run_end(s, from) < s.len() ==> !is_hex_digit_char(s[hex_run_end(s, from)]),
    decreases s.len() - from,
{
    if from < s.len() && is_hex_digit_char(s[from]) {
        lemma_hex_run_end(s, from + 1);
    }
}

/// Executable `hex_run_end`.
pub fn hex_end_from(s: &str, from: usize) -> (r: usize)
    requires
        from <= s@.len(),
    ensures
        r == hex_run_end(s@, from as int),
        from <= r <= s@.len(),
        forall|k: int| from <= k < r ==> is_hex_digit_char(s@[k]),
        r < s@.len() ==> !is_hex_digit_char(s@[r as int]),
{
    let n = s.unicode_len();
    let mut i: usize = from;
    while i < n
        invariant
            n == s@.len(),
            from <= i <= n,
            forall|k: int| from <= k < i ==> is_hex_digit_char(s@[k]),
        decreases n - i,
    {
        if hex_digit(s.get_char(i)).is_none() {
            proof {
                lemma_hex_run_end_is(s@, from as int, i as int);
            }
            return i;
        }
        i += 1;
    }
    proof {
        lemma_hex_run_end_is(s@, from as int, n as int);
    }
    n
}

/// Reads the run of hexadecimal digits starting at `from`: returns where
/// the run ends, and its value unless that value exceeds `u64::MAX`.
pub fn parse_hex_run(s: &str, from: usize) -> (r: (usize, Option<u64>))
    requires
        from <= s@.len(),
    ensures
        r.0 == hex_run_end(s@, from as int),
        from <= r.0 <= s@.len(),
        match r.1 {
            Some(v) => v as int == hex_value(s@.subrange(from as int, r.0 as int)),
            None => hex_value(s@.subrange(from as int, r.0 as int)) > u64::MAX as int,
        },
{
    let end = hex_end_from(s, from);
    let mut acc: u128 = 0;
    let mut over: bool = false;
    let mut i: usize = from;
    while i < end
        invariant
            end == hex_run_end(s@, from as int),
            from <= i <= end <= s@.len(),
            !over ==> acc as int == hex_value(s@.subrange(from as int, i as int))
                && acc <= u64::MAX as u128,
            over ==> hex_value(s@.subrange(from as int, i as int)) > u64::MAX as int,
            forall|k: int| from <= k < end ==> is_hex_digit_char(s@[k]),
        decreases end - i,
    {
        let c = s.get_char(i);
        let d: u8 = match hex_digit(c) {
            Some(d) => d,
            None => {
                proof {
                    assert(false);
                }
                0
            },
        };
        proof {
            assert(s@.subrange(from as int, i + 1) =~= s@.subrange(from as int, i as int).push(
                s@[i as int],
            ));
            lemma_hex_value_push(s@.subrange(from as int, i as int), s@[i as int]);
            lemma_hex_value_nonneg(s@.subrange(from as int, i as int));
        }
        if !over {
            acc = 16 * acc + (d as u128);
            if acc > u64::MAX as u128 {
                over = true;
            }
        }
        i += 1;
    }
    if over {
        (end, None)
    } else {
        (end, Some(acc as u64))
    }
}

/// `u64::from_str_radix(s, 16)`, restated: an optional leading `+`, then
/// at least one hexadecimal digit, with a value that fits in a `u64`.
pub open spec fn spec_parse_hex_u64(s: Seq<char>) -> Option<u64> {
    let d = if s.len() > 0 && s[0] == '+' {
        s.drop_first()
    } else {
        s
    };
    if d.len() >= 1 && hex_run_end(d, 0) == d.len() && hex_value(d) <= u64::MAX as int {
        Some(hex_value(d) as u64)
    } else {
        None
    }
}

/// Parses a whole string as a hexadecimal `u64`.
pub fn parse_hex_u64(s: &str) -> (r: Option<u64>)
    ensures
        r == spec_parse_hex_u64(s@),
{
    let n = s.unicode_len();
    let start: usize = if n > 0 && s.get_char(0) == '+' {
        1
    } else {
        0
    };
    let ghost d = if s@.len() > 0 && s@[0] == '+' {
        s@.drop_first()
    } else {
        s@
    };
    proof {
        assert(d =~= s@.subrange(start as int, n as int));
    }
    let (end, v) = parse_hex_run(s, start);
    proof {
        lemma_hex_run_end(s@, start as int);
        lemma_hex_run_end_is(
            d,
            0,
            if end - start < d.len() {
                end - start
            } else {
                d.len() as int
            },
        );
        assert(d.subrange(0, d.len() as int) =~= d);
    }
    if end < n {
        return None;
    }
    if end == start {
        return None;
    }
    proof {
        assert(s@.subrange(start as int, end as int) =~= d);
    }
    match v {
        Some(v) => Some(v),
        None => None,
    }
}

/// A decimal digit.
pub open spec fn is_dec_digit_char(c: char) -> bool {
    48 <= c as u32 && c as u32 <= 57
}

/// The value of a decimal digit; 0 on any other character.
pub open spec fn dec_digit_val(c: char) -> int {
    if 48 <= c as u32 && c as u32 <= 57 {
        c as u32 - 48
    } else {
        0
    }
}

/// The number a sequence of decimal digits denotes.
pub open spec fn dec_value(s: Seq<char>) -> int
    decreases s.len(),
{
    if s.len() == 0 {
        0
    } else {
        10 * dec_value(s.drop_last()) + dec_digit_val(s.last())
    }
}

/// A digit sequence never denotes a negative number.
pub proof fn lemma_dec_value_nonneg(s: Seq<char>)
    ensures
        dec_value(s) >= 0,
    decreases s.len(),
{
    if s.len() > 0 {
        lemma_dec_value_nonneg(s.drop_last());
    }
}

/// First position at or after `from` that is not a decimal digit.
pub open spec fn dec_run_end(s: Seq<char>, from: int) -> int
    decreases s.len() - from when 0 <= from <= s.len()
{
    if from >= s.len() {
        s.len() as int
    } else if !is_dec_digit_char(s[from]) {
        from
    } else {
        dec_run_end(s, from + 1)
    }
}

/// The position with the properties of `dec_run_end` is its value.
pub proof fn lemma_dec_run_end_is(s: Seq<char>, from: int, j: int)
    requires
        0 <= from <= j <= s.len(),
        forall|k: int| from <= k < j ==> is_dec_digit_char(s[k]),
        j < s.len() ==> !is_dec_digit_char(s[j]),
    ensures
        dec_run_end(s, from) == j,
    decreases j - from,
{
    if from < j {
        lemma_dec_run_end_is(s, from + 1, j);
    }
}

/// `u32::from_str_radix(s, 10)`, restated: an optional leading `+`, then
/// at least one decimal digit, with a value that fits in a `u32`.
pub open spec fn spec_parse_dec_u32(s: Seq<char>) -> Option<u32> {
    let d = if s.len() > 0 && s[0] == '+' {
        s.drop_first()
    } else {
        s
    };
    if d.len() >= 1 && dec_run_end(d, 0) == d.len() && dec_value(d) <= u32::MAX as int {
        Some(dec_value(d) as u32)
    } else {
        None
    }
}

/// Parses a whole string as a decimal `u32`, as a process id is given.
pub fn parse_dec_u32(s: &str) -> (r: Option<u32>)
    ensures
        r == spec_parse_dec_u32(s@),
{
    let n = s.unicode_len();
    let start: usize = if n > 0 && s.get_char(0) == '+' {
        1
    } else {
        0
    };
    let ghost d = if s@.len() > 0 && s@[0] == '+' {
        s@.drop_first()
    } else {
        s@
    };
    proof {
        assert(d =~= s@.subrange(start as int, n as int));
    }
    if n == start {
        return None;
    }
    let mut i: usize = start;
    let mut acc: u64 = 0;
    let mut over: bool = false;
    while i < n
        invariant
            n == s@.len(),
            start <= i <= n,
            start < n,
            d == s@.subrange(start as int, n as int),
            d == if s@.len() > 0 && s@[0] == '+' {
                s@.drop_first()
            } else {
                s@
            },
            forall|k: int| start <= k < i ==> is_dec_digit_char(s@[k]),
            !over ==> acc as int == dec_value(s@.subrange(start as int, i as int))
                && acc <= u32::MAX as u64,
            over ==> dec_value(s@.subrange(start as int, i as int)) > u32::MAX as int,
        decreases n - i,
    {
        let c = s.get_char(i);
        let u = c as u32;
        if !(48 <= u && u <= 57) {
            proof {
                lemma_dec_run_end_is(d, 0, i - start);
            }
            return None;
        }
        proof {
            assert(s@.subrange(start as int, i + 1) =~= s@.subrange(start as int, i as int).push(
                s@[i as int],
            ));
            assert(s@.subrange(start as int, i + 1).drop_last() =~= s@.subrange(
                start as int,
                i as int,
            ));
            lemma_dec_value_nonneg(s@.subrange(start as int, i as int));
        }
        if !over {
            acc = 10 * acc + ((u - 48) as u64);
            if acc > u32::MAX as u64 {
                over = true;
            }
        }
        i += 1;
    }
    proof {
        lemma_dec_run_end_is(d, 0, d.len() as int);
        assert(s@.subrange(start as int, n as int) =~= d);
    }
    if over {
        None
    } else {
        Some(acc as u32)
    }
}

} // verus!

verus! {

/// `find_from` on a suffix is `find_from` on the whole, shifted.
pub proof fn lemma_find_from_suffix(s: Seq<char>, i: int, c: char)
    requires
        0 <= i <= s.len(),
    ensures
        find_from(s.subrange(i, s.len() as int), 0, c) == find_from(s, i, c) - i,
{
    let sub = s.subrange(i, s.len() as int);
    lemma_find_from(s, i, c);
    lemma_find_from_is(sub, 0, c, find_from(s, i, c) - i);
}

/// `skip_spaces` on a suffix is `skip_spaces` on the whole, shifted.
pub proof fn lemma_skip_spaces_suffix(s: Seq<char>, i: int)
    requires
        0 <= i <= s.len(),
    ensures
        skip_spaces(s.subrange(i, s.len() as int), 0) == skip_spaces(s, i) - i,
{
    let sub = s.subrange(i, s.len() as int);
    lemma_skip_spaces(s, i);
    lemma_skip_spaces_is(sub, 0, skip_spaces(s, i) - i);
}

/// `token_end` on a suffix is `token_end` on the whole, shifted.
pub proof fn lemma_token_end_suffix(s: Seq<char>, i: int, a: int)
    requires
        0 <= i <= a <= s.len(),
    ensures
        token_end(s.subrange(i, s.len() as int), a - i) == token_end(s, a) - i,
{
    let sub = s.subrange(i, s.len() as int);
    lemma_token_end(s, a);
    lemma_token_end_is(sub, a - i, token_end(s, a) - i);
}

/// The pieces of `s` between occurrences of `sep`, as `str::split` cuts
/// them: empty pieces are kept, and a string without the separator is one
/// piece.
pub open spec fn spec_split_char(s: Seq<char>, sep: char) -> Seq<Seq<char>>
    decreases s.len(),
{
    let k = find_from(s, 0, sep);
    if 0 <= k < s.len() {
        seq![s.subrange(0, k)] + spec_split_char(s.subrange(k + 1, s.len() as int), sep)
    } else {
        seq![s]
    }
}

/// Executable splitting on one character.
pub fn split_char(s: &str, sep: char) -> (r: Vec<String>)
    ensures
        r.deep_view() == spec_split_char(s@, sep),
{
    let n = s.unicode_len();
    let mut out: Vec<String> = Vec::new();
    let mut i: usize = 0;
    proof {
        assert(s@.subrange(0, n as int) =~= s@);
        assert(out.deep_view() =~~= Seq::<Seq<char>>::empty());
        assert(out.deep_view() + spec_split_char(s@, sep) =~~= spec_split_char(s@, sep));
    }
    loop
        invariant_except_break
            n == s@.len(),
            i <= n,
            spec_split_char(s@, sep) == out.deep_view() + spec_split_char(
                s@.subrange(i as int, n as int),
                sep,
            ),
        ensures
            out.deep_view() == spec_split_char(s@, sep),
        decreases n - i,
    {
        let ghost pre = out.deep_view();
        let ghost suf = s@.subrange(i as int, n as int);
        let k = find_char_from(s, i, sep);
        proof {
            lemma_find_from_suffix(s@, i as int, sep);
        }
        let piece = String::from_str(s.substring_char(i, k));
        out.push(piece);
        proof {
            assert(out.deep_view() =~~= pre.push(piece@));
        }
        if k == n {
            proof {
                assert(find_from(suf, 0, sep) == suf.len());
                assert(spec_split_char(suf, sep) == seq![suf]);
                assert(piece@ =~= suf);
                assert(out.deep_view() =~~= pre + seq![suf]);
            }
            break;
        }
        proof {
            assert(find_from(suf, 0, sep) == k - i);
            assert(suf.subrange(0, k - i) =~= s@.subrange(i as int, k as int));
            assert(piece@ =~= suf.subrange(0, k - i));
            assert(suf.subrange(k - i + 1, suf.len() as int) =~= s@.subrange(k + 1, n as int));
            assert(spec_split_char(suf, sep) == seq![suf.subrange(0, k - i)] + spec_split_char(
                s@.subrange(k + 1, n as int),
                sep,
            ));
            assert(out.deep_view() + spec_split_char(s@.subrange(k + 1, n as int), sep) =~~= (pre
                + spec_split_char(suf, sep)));
        }
        i = k + 1;
    }
    out
}

/// The whitespace-separated tokens of `s`, as `str::split_whitespace`
/// cuts them: no empty tokens.
pub open spec fn spec_split_ws(s: Seq<char>) -> Seq<Seq<char>>
    decreases s.len(),
{
    let a = skip_spaces(s, 0);
    if 0 <= a < s.len() {
        let b = token_end(s, a);
        if a < b <= s.len() {
            seq![s.subrange(a, b)] + spec_split_ws(s.subrange(b, s.len() as int))
        } else {
            seq![]
        }
    } else {
        seq![]
    }
}

/// Executable whitespace splitting.
pub fn split_ws(s: &str) -> (r: Vec<String>)
    ensures
        r.deep_view() == spec_split_ws(s@),
{
    let n = s.unicode_len();
    let mut out: Vec<String> = Vec::new();
    let mut i: usize = 0;
    proof {
        assert(s@.subrange(0, n as int) =~= s@);
        assert(out.deep_view() =~~= Seq::<Seq<char>>::empty());
        assert(out.deep_view() + spec_split_ws(s@) =~~= spec_split_ws(s@));
    }
    loop
        invariant_except_break
            n == s@.len(),
            i <= n,
            spec_split_ws(s@) == out.deep_view() + spec_split_ws(s@.subrange(i as int, n as int)),
        ensures
            out.deep_view() == spec_split_ws(s@),
        decreases n - i,
    {
        let ghost pre = out.deep_view();
        let ghost suf = s@.subrange(i as int, n as int);
        let a = skip_spaces_from(s, i);
        proof {
            lemma_skip_spaces_suffix(s@, i as int);
        }
        if a == n {
            proof {
                assert(skip_spaces(suf, 0) == suf.len());
                assert(spec_split_ws(suf) == Seq::<Seq<char>>::empty());
                assert(out.deep_view() =~~= pre + spec_split_ws(suf));
            }
            break;
        }
        let b = token_end_from(s, a);
        proof {
            lemma_token_end_suffix(s@, i as int, a as int);
            lemma_token_end(s@, a as int);
            assert(b > a) by {
                assert(!is_space_char(s@[a as int]));
            }
        }
        let piece = String::from_str(s.substring_char(a, b));
        out.push(piece);
        proof {
            assert(out.deep_view() =~~= pre.push(piece@));
            assert(skip_spaces(suf, 0) == a - i);
            assert(token_end(suf, a - i) == b - i);
            assert(suf.subrange(a - i, b - i) =~= s@.subrange(a as int, b as int));
            assert(piece@ =~= suf.subrange(a - i, b - i));
            assert(suf.subrange(b - i, suf.len() as int) =~= s@.subrange(b as int, n as int));
            assert(spec_split_ws(suf) == seq![suf.subrange(a - i, b - i)] + spec_split_ws(
                s@.subrange(b as int, n as int),
            ));
            assert(out.deep_view() + spec_split_ws(s@.subrange(b as int, n as int)) =~~= (pre
                + spec_split_ws(suf)));
        }
        i = b;
    }
    out
}

/// Largest position at or before `from` with no whitespace run just
/// before it: where trailing whitespace starts.
pub open spec fn scan_back_spaces(s: Seq<char>, from: int) -> int
    decreases from when 0 <= from <= s.len()
{
    if from <= 0 {
        0
    } else if !is_space_char(s[from - 1]) {
        from
    } else {
        scan_back_spaces(s, from - 1)
    }
}

/// The position with the properties of `scan_back_spaces` is its value.
pub proof fn lemma_scan_back_spaces_is(s: Seq<char>, from: int, j: int)
    requires
        0 <= j <= from <= s.len(),
        forall|k: int| j <= k < from ==> is_space_char(s[k]),
        j > 0 ==> !is_space_char(s[j - 1]),
    ensures
        scan_back_spaces(s, from) == j,
    decreases from - j,
{
    if j < from {
        lemma_scan_back_spaces_is(s, from - 1, j);
    }
}

/// `s` with ASCII whitespace removed from both ends.
pub open spec fn spec_trim(s: Seq<char>) -> Seq<char> {
    let a = skip_spaces(s, 0);
    let b = scan_back_spaces(s, s.len() as int);
    if a < b {
        s.subrange(a, b)
    } else {
        Seq::empty()
    }
}

/// Executable trim.
pub fn trim_str(s: &str) -> (r: &str)
    ensures
        r@ == spec_trim(s@),
{
    let n = s.unicode_len();
    let a = skip_spaces_from(s, 0);
    let mut b: usize = n;
    while b > 0 && is_space(s.get_char(b - 1))
        invariant
            n == s@.len(),
            b <= n,
            forall|k: int| b <= k < n ==> is_space_char(s@[k]),
        decreases b,
    {
        b -= 1;
    }
    proof {
        lemma_scan_back_spaces_is(s@, n as int, b as int);
    }
    if a < b {
        s.substring_char(a, b)
    } else {
        let r = s.substring_char(0, 0);
        proof {
            assert(r@ =~= Seq::<char>::empty());
        }
        r
    }
}

} // verus!
