//! Character-level text helpers shared by the IPC parsers and command
//! builders: searching, whitespace, integer parsing as `str::parse` and
//! `from_str_radix` accept it, and integer formatting as `Display` and
//! `LowerHex` write it.
use vstd::prelude::*;

verus! {

// ── searching ───────────────────────────────────────────────────────────────

/// `pat` occurs in `s` starting at index `i`.
pub open spec fn occurs_at(s: Seq<char>, pat: Seq<char>, i: int) -> bool {
    &&& 0 <= i
    &&& i + pat.len() <= s.len()
    &&& s.subrange(i, i + pat.len()) =~= pat
}

/// Index of the first occurrence of `pat` in `s` at or after `start`.
pub open spec fn find_from(s: Seq<char>, pat: Seq<char>, start: int) -> Option<int>
    decreases s.len() - start,
{
    if start < 0 || start + pat.len() > s.len() {
        None
    } else if occurs_at(s, pat, start) {
        Some(start)
    } else {
        find_from(s, pat, start + 1)
    }
}

/// Index of the first occurrence of `pat` in `s` (as `str::find`).
pub open spec fn find(s: Seq<char>, pat: Seq<char>) -> Option<int> {
    find_from(s, pat, 0)
}

/// What `find_from` returns is the first occurrence at or after `start`.
pub proof fn lemma_find_from(s: Seq<char>, pat: Seq<char>, start: int)
    requires
        0 <= start,
    ensures
        match find_from(s, pat, start) {
            Some(i) => start <= i && occurs_at(s, pat, i) && forall|j: int|
                start <= j < i ==> !occurs_at(s, pat, j),
            None => forall|j: int| start <= j ==> !occurs_at(s, pat, j),
        },
    decreases s.len() - start,
{
    if start + pat.len() > s.len() {
    } else if occurs_at(s, pat, start) {
    } else {
        lemma_find_from(s, pat, start + 1);
        assert forall|j: int| start <= j && occurs_at(s, pat, j) implies j > start by {}
    }
}

fn matches_at(s: &[char], pat: &[char], i: usize) -> (res: bool)
    requires
        i + pat@.len() <= s@.len(),
    ensures
        res == occurs_at(s@, pat@, i as int),
{
    let n = s.len();
    let mut j: usize = 0;
    while j < pat.len()
        invariant
            n == s@.len(),
            j <= pat@.len(),
            i + pat@.len() <= s@.len(),
            s@.subrange(i as int, i + j) =~= pat@.subrange(0, j as int),
        decreases pat@.len() - j,
    {
        if s[i + j] != pat[j] {
            assert(s@.subrange(i as int, i + pat@.len())[j as int] != pat@[j as int]);
            return false;
        }
        j = j + 1;
        assert(s@.subrange(i as int, i + j) =~= pat@.subrange(0, j as int));
    }
    assert(pat@.subrange(0, pat@.len() as int) =~= pat@);
    true
}

/// First occurrence of `pat` in `s` at or after `start`.
pub fn find_chars_from(s: &[char], pat: &[char], start: usize) -> (res: Option<usize>)
    ensures
        s@.len() <= usize::MAX,
        match res {
            Some(i) => find_from(s@, pat@, start as int) == Some(i as int) && start <= i && i
                + pat@.len() <= s@.len(),
            None => find_from(s@, pat@, start as int) is None,
        },
{
    proof {
        lemma_find_from(s@, pat@, start as int);
    }
    if pat.len() > s.len() {
        return None;
    }
    let last = s.len() - pat.len();
    let mut i = start;
    while i <= last
        invariant
            start <= i,
            s@.len() <= usize::MAX,
            last == s@.len() - pat@.len(),
            find_from(s@, pat@, start as int) == find_from(s@, pat@, i as int),
        decreases last + 1 - i,
    {
        if matches_at(s, pat, i) {
            return Some(i);
        }
        if i >= last {
            assert(find_from(s@, pat@, i + 1) is None);
            return None;
        }
        i = i + 1;
    }
    None
}

/// First occurrence of the character `c` in `s` at or after `start`.
pub fn find_char_from(s: &[char], c: char, start: usize) -> (res: Option<usize>)
    ensures
        s@.len() <= usize::MAX,
        match res {
            Some(i) => find_from(s@, seq![c], start as int) == Some(i as int) && start <= i && i
                < s@.len() && s@[i as int] == c,
            None => find_from(s@, seq![c], start as int) is None,
        },
{
    let pat: Vec<char> = vec![c];
    assert(pat@ =~= seq![c]);
    let r = find_chars_from(s, pat.as_slice(), start);
    proof {
        lemma_find_from(s@, seq![c], start as int);
        if let Some(i) = r {
            assert(s@.subrange(i as int, i + 1)[0] == s@[i as int]);
        }
    }
    r
}

// ── copying ─────────────────────────────────────────────────────────────────

/// The characters `s[lo..hi]` as a vector.
pub fn copy_range(s: &[char], lo: usize, hi: usize) -> (res: Vec<char>)
    requires
        lo <= hi <= s@.len(),
    ensures
        res@ == s@.subrange(lo as int, hi as int),
{
    let mut res: Vec<char> = Vec::new();
    let mut i = lo;
    while i < hi
        invariant
            lo <= i <= hi <= s@.len(),
            res@ =~= s@.subrange(lo as int, i as int),
        decreases hi - i,
    {
        res.push(s[i]);
        i = i + 1;
    }
    res
}

/// Appends all of `src` to `dst`.
pub fn push_all(dst: &mut Vec<char>, src: &[char])
    ensures
        final(dst)@ == old(dst)@ + src@,
{
    let mut i: usize = 0;
    while i < src.len()
        invariant
            i <= src@.len(),
            dst@ =~= old(dst)@ + src@.subrange(0, i as int),
        decreases src@.len() - i,
    {
        dst.push(src[i]);
        i = i + 1;
    }
    assert(src@.subrange(0, src@.len() as int) =~= src@);
}

/// The characters of `s`.
pub fn to_chars(s: &str) -> (res: Vec<char>)
    ensures
        res@ == s@,
{
    let mut res: Vec<char> = Vec::new();
    for c in iter: s.chars()
        invariant
            iter.seq() == s@,
            res@ == iter.seq().take(iter.index() as int),
    {
        res.push(c);
    }
    res
}

/// `String` collected from a slice of characters with std's
/// `FromIterator<&char> for String`; the claim is that the string holds
/// exactly these characters, in this order.
#[verifier::external_body]
pub fn string_from_chars(cs: &[char]) -> (s: String)
    ensures
        s@ == cs@,
{
    cs.iter().collect()
}

/// Character-wise equality of two slices.
pub fn chars_eq(a: &[char], b: &[char]) -> (res: bool)
    ensures
        res == (a@ == b@),
{
    if a.len() != b.len() {
        return false;
    }
    let r = matches_at(a, b, 0);
    assert(a@.subrange(0, b@.len() as int) =~= a@);
    r
}

// ── whitespace ──────────────────────────────────────────────────────────────

/// Space or horizontal tab: the pattern `[' ', '\t']` that `trim_start_matches` strips.
pub open spec fn is_blank(c: char) -> bool {
    c == ' ' || c == '\t'
}

/// Unicode `White_Space`, as `char::is_whitespace` (and so `str::trim`) uses it.
pub open spec fn is_unicode_whitespace(c: char) -> bool {
    let v = c as u32;
    ||| 0x09 <= v <= 0x0d
    ||| v == 0x20
    ||| v == 0x85
    ||| v == 0xa0
    ||| v == 0x1680
    ||| 0x2000 <= v <= 0x200a
    ||| v == 0x2028
    ||| v == 0x2029
    ||| v == 0x202f
    ||| v == 0x205f
    ||| v == 0x3000
}

/// First index at or after `start` whose character is not blank (or the length).
pub open spec fn skip_blanks(s: Seq<char>, start: int) -> int
    decreases s.len() - start,
{
    if start >= s.len() || start < 0 {
        start
    } else if is_blank(s[start]) {
        skip_blanks(s, start + 1)
    } else {
        start
    }
}

/// First index at or after `start` whose character is not Unicode whitespace.
pub open spec fn skip_whitespace(s: Seq<char>, start: int) -> int
    decreases s.len() - start,
{
    if start >= s.len() || start < 0 {
        start
    } else if is_unicode_whitespace(s[start]) {
        skip_whitespace(s, start + 1)
    } else {
        start
    }
}

/// End (exclusive) of `s[..end]` once trailing Unicode whitespace is removed,
/// stopping at `start`.
pub open spec fn trim_end_whitespace(s: Seq<char>, start: int, end: int) -> int
    decreases end - start,
{
    if end <= start {
        end
    } else if is_unicode_whitespace(s[end - 1]) {
        trim_end_whitespace(s, start, end - 1)
    } else {
        end
    }
}

/// `s` with leading and trailing Unicode whitespace removed (as `str::trim`).
pub open spec fn trim(s: Seq<char>) -> Seq<char> {
    let a = skip_whitespace(s, 0);
    s.subrange(a, trim_end_whitespace(s, a, s.len() as int))
}

pub proof fn lemma_skip_blanks_bounds(s: Seq<char>, start: int)
    requires
        0 <= start <= s.len(),
    ensures
        start <= skip_blanks(s, start) <= s.len(),
    decreases s.len() - start,
{
    if start < s.len() && is_blank(s[start]) {
        lemma_skip_blanks_bounds(s, start + 1);
    }
}

pub proof fn lemma_skip_whitespace_bounds(s: Seq<char>, start: int)
    requires
        0 <= start <= s.len(),
    ensures
        start <= skip_whitespace(s, start) <= s.len(),
    decreases s.len() - start,
{
    if start < s.len() && is_unicode_whitespace(s[start]) {
        lemma_skip_whitespace_bounds(s, start + 1);
    }
}

pub fn is_blank_exec(c: char) -> (res: bool)
    ensures
        res == is_blank(c),
{
    c == ' ' || c == '\t'
}

pub fn is_whitespace_exec(c: char) -> (res: bool)
    ensures
        res == is_unicode_whitespace(c),
{
    let v = c as u32;
    (0x09 <= v && v <= 0x0d) || v == 0x20 || v == 0x85 || v == 0xa0 || v == 0x1680 || (0x2000
        <= v && v <= 0x200a) || v == 0x2028 || v == 0x2029 || v == 0x202f || v == 0x205f || v
        == 0x3000
}

/// `skip_blanks(s, start)`, computed.
pub fn skip_blanks_exec(s: &[char], start: usize) -> (res: usize)
    requires
        start <= s@.len(),
    ensures
        res as int == skip_blanks(s@, start as int),
        start <= res <= s@.len(),
{
    proof {
        lemma_skip_blanks_bounds(s@, start as int);
    }
    let mut i = start;
    while i < s.len() && is_blank_exec(s[i])
        invariant
            start <= i <= s@.len(),
            skip_blanks(s@, start as int) == skip_blanks(s@, i as int),
        decreases s@.len() - i,
    {
        i = i + 1;
    }
    i
}

/// `skip_whitespace(s, start)`, computed.
pub fn skip_whitespace_exec(s: &[char], start: usize) -> (res: usize)
    requires
        start <= s@.len(),
    ensures
        res as int == skip_whitespace(s@, start as int),
        start <= res <= s@.len(),
{
    proof {
        lemma_skip_whitespace_bounds(s@, start as int);
    }
    let mut i = start;
    while i < s.len() && is_whitespace_exec(s[i])
        invariant
            start <= i <= s@.len(),
            skip_whitespace(s@, start as int) == skip_whitespace(s@, i as int),
        decreases s@.len() - i,
    {
        i = i + 1;
    }
    i
}

/// `s` trimmed of Unicode whitespace on both sides.
pub fn trim_exec(s: &[char]) -> (res: Vec<char>)
    ensures
        res@ == trim(s@),
{
    let a = skip_whitespace_exec(s, 0);
    let mut e = s.len();
    while e > a && is_whitespace_exec(s[e - 1])
        invariant
            a <= e <= s@.len(),
            trim_end_whitespace(s@, a as int, s@.len() as int) == trim_end_whitespace(
                s@,
                a as int,
                e as int,
            ),
        decreases e,
    {
        e = e - 1;
    }
    copy_range(s, a, e)
}

// ── integers in decimal and hexadecimal ─────────────────────────────────────

pub open spec fn is_digit(c: char) -> bool {
    '0' <= c <= '9'
}

pub open spec fn digit_value(c: char) -> int {
    c as int - '0' as int
}

pub open spec fn is_hex_digit(c: char) -> bool {
    ||| '0' <= c <= '9'
    ||| 'a' <= c <= 'f'
    ||| 'A' <= c <= 'F'
}

pub open spec fn hex_digit_value(c: char) -> int {
    if '0' <= c <= '9' {
        c as int - '0' as int
    } else if 'a' <= c <= 'f' {
        c as int - 'a' as int + 10
    } else {
        c as int - 'A' as int + 10
    }
}

/// Characters that `take_while(|c| c.is_ascii_digit() || *c == '-')` keeps.
pub open spec fn is_number_char(c: char) -> bool {
    is_digit(c) || c == '-'
}

/// End (exclusive) of the run of number characters that starts at `start`.
pub open spec fn number_end(s: Seq<char>, start: int) -> int
    decreases s.len() - start,
{
    if start >= s.len() || start < 0 {
        start
    } else if is_number_char(s[start]) {
        number_end(s, start + 1)
    } else {
        start
    }
}

pub proof fn lemma_number_end_bounds(s: Seq<char>, start: int)
    requires
        0 <= start <= s.len(),
    ensures
        start <= number_end(s, start) <= s.len(),
    decreases s.len() - start,
{
    if start < s.len() && is_number_char(s[start]) {
        lemma_number_end_bounds(s, start + 1);
    }
}

/// `number_end(s, start)`, computed.
pub fn number_end_exec(s: &[char], start: usize) -> (res: usize)
    requires
        start <= s@.len(),
    ensures
        res as int == number_end(s@, start as int),
        start <= res <= s@.len(),
{
    proof {
        lemma_number_end_bounds(s@, start as int);
    }
    let mut i = start;
    while i < s.len() && ((s[i] >= '0' && s[i] <= '9') || s[i] == '-')
        invariant
            start <= i <= s@.len(),
            number_end(s@, start as int) == number_end(s@, i as int),
        decreases s@.len() - i,
    {
        i = i + 1;
    }
    i
}

pub open spec fn all_digits(s: Seq<char>) -> bool {
    forall|i: int| 0 <= i < s.len() ==> is_digit(#[trigger] s[i])
}

pub open spec fn all_hex_digits(s: Seq<char>) -> bool {
    forall|i: int| 0 <= i < s.len() ==> is_hex_digit(#[trigger] s[i])
}

/// Value of a string of decimal digits.
pub open spec fn decimal_value(s: Seq<char>) -> int
    decreases s.len(),
{
    if s.len() == 0 {
        0
    } else {
        decimal_value(s.drop_last()) * 10 + digit_value(s.last())
    }
}

/// Value of a string of hexadecimal digits.
pub open spec fn hex_value(s: Seq<char>) -> int
    decreases s.len(),
{
    if s.len() == 0 {
        0
    } else {
        hex_value(s.drop_last()) * 16 + hex_digit_value(s.last())
    }
}

/// What `str::parse` gives for a signed integer type whose range is
/// `lo..=hi`: an optional sign, then one or more decimal digits, in range.
pub open spec fn parse_signed(t: Seq<char>, lo: int, hi: int) -> Option<int> {
    if t.len() == 0 {
        None
    } else if (t[0] == '+' || t[0] == '-') && t.len() == 1 {
        None
    } else {
        let digits = if t[0] == '+' || t[0] == '-' {
            t.drop_first()
        } else {
            t
        };
        let v = if t[0] == '-' {
            -decimal_value(digits)
        } else {
            decimal_value(digits)
        };
        if all_digits(digits) && lo <= v <= hi {
            Some(v)
        } else {
            None
        }
    }
}

/// What `u64::from_str_radix(t, 16)` gives: an optional `+`, then one or
/// more hexadecimal digits of either case, with a value that fits.
pub open spec fn parse_hex_u64(t: Seq<char>) -> Option<u64> {
    if t.len() == 0 {
        None
    } else if (t[0] == '+' || t[0] == '-') && t.len() == 1 {
        None
    } else {
        let digits = if t[0] == '+' {
            t.drop_first()
        } else {
            t
        };
        if all_hex_digits(digits) && hex_value(digits) <= u64::MAX {
            Some(hex_value(digits) as u64)
        } else {
            None
        }
    }
}

proof fn lemma_decimal_value_nonneg(s: Seq<char>)
    requires
        all_digits(s),
    ensures
        decimal_value(s) >= 0,
    decreases s.len(),
{
    if s.len() > 0 {
        lemma_decimal_value_nonneg(s.drop_last());
    }
}

/// A longer run of digits is worth at least as much as its prefix.
proof fn lemma_decimal_value_grows(s: Seq<char>, k: int)
    requires
        all_digits(s),
        0 <= k <= s.len(),
    ensures
        decimal_value(s.take(k)) <= decimal_value(s),
    decreases s.len() - k,
{
    if k < s.len() {
        lemma_decimal_value_grows(s, k + 1);
        assert(s.take(k + 1).drop_last() =~= s.take(k));
        lemma_decimal_value_nonneg(s.take(k));
    } else {
        assert(s.take(k) =~= s);
    }
}

proof fn lemma_hex_value_nonneg(s: Seq<char>)
    requires
        all_hex_digits(s),
    ensures
        hex_value(s) >= 0,
    decreases s.len(),
{
    if s.len() > 0 {
        lemma_hex_value_nonneg(s.drop_last());
    }
}

proof fn lemma_hex_value_grows(s: Seq<char>, k: int)
    requires
        all_hex_digits(s),
        0 <= k <= s.len(),
    ensures
        hex_value(s.take(k)) <= hex_value(s),
    decreases s.len() - k,
{
    if k < s.len() {
        lemma_hex_value_grows(s, k + 1);
        assert(s.take(k + 1).drop_last() =~= s.take(k));
        lemma_hex_value_nonneg(s.take(k));
    } else {
        assert(s.take(k) =~= s);
    }
}

/// Value of the digits `t[from..]`, or `None` when one is not a digit or the
/// value exceeds `limit`.
fn decimal_digits_value(t: &[char], from: usize, limit: u64) -> (res: Option<u64>)
    requires
        from <= t@.len(),
        limit >= 9,
    ensures
        match res {
            Some(v) => all_digits(t@.skip(from as int)) && v == decimal_value(t@.skip(from as int))
                && v <= limit,
            None => !all_digits(t@.skip(from as int)) || decimal_value(t@.skip(from as int))
                > limit,
        },
{
    let ghost d = t@.skip(from as int);
    let mut acc: u64 = 0;
    let mut i = from;
    while i < t.len()
        invariant
            from <= i <= t@.len(),
            d == t@.skip(from as int),
            all_digits(d.take(i - from)),
            acc == decimal_value(d.take(i - from)),
            acc <= limit,
            limit >= 9,
        decreases t@.len() - i,
    {
        let c = t[i];
        if !(c >= '0' && c <= '9') {
            assert(d[i - from] == c);
            return None;
        }
        let dv = (c as u32 - '0' as u32) as u64;
        assert(dv <= 9);
        assert(d.take(i + 1 - from).drop_last() =~= d.take(i - from));
        assert(d.take(i + 1 - from).last() == c);
        assert(all_digits(d.take(i + 1 - from))) by {
            assert forall|j: int| 0 <= j < d.take(i + 1 - from).len() implies is_digit(
                #[trigger] d.take(i + 1 - from)[j],
            ) by {
                if j < i - from {
                    assert(d.take(i + 1 - from)[j] == d.take(i - from)[j]);
                }
            }
        }
        if acc > (limit - dv) / 10 {
            // the prefix already exceeds the limit, and so does the whole run
            assert(decimal_value(d.take(i + 1 - from)) > limit) by (nonlinear_arith)
                requires
                    decimal_value(d.take(i + 1 - from)) == acc * 10 + dv,
                    acc > (limit - dv) / 10,
                    dv <= 9,
                    dv <= limit || acc * 10 + dv > limit,
            ;
            proof {
                if all_digits(d) {
                    lemma_decimal_value_grows(d, i + 1 - from);
                }
            }
            return None;
        }
        assert(acc * 10 + dv <= limit) by (nonlinear_arith)
            requires
                acc <= (limit - dv) / 10,
                dv <= limit,
        ;
        acc = acc * 10 + dv;
        i = i + 1;
    }
    assert(d.take(i - from) =~= d);
    Some(acc)
}

/// `parse_signed(t, -2^63, 2^63 - 1)`, computed: `str::parse::<i64>`.
pub fn parse_i64(t: &[char]) -> (res: Option<i64>)
    ensures
        match res {
            Some(v) => parse_signed(t@, i64::MIN as int, i64::MAX as int) == Some(v as int),
            None => parse_signed(t@, i64::MIN as int, i64::MAX as int) is None,
        },
{
    if t.len() == 0 {
        return None;
    }
    let first = t[0];
    let signed = first == '+' || first == '-';
    if signed && t.len() == 1 {
        return None;
    }
    let from: usize = if signed {
        1
    } else {
        0
    };
    proof {
        if signed {
            assert(t@.skip(1) =~= t@.drop_first());
        } else {
            assert(t@.skip(0) =~= t@);
        }
    }
    let limit: u64 = if first == '-' {
        0x8000_0000_0000_0000
    } else {
        0x7fff_ffff_ffff_ffff
    };
    match decimal_digits_value(t, from, limit) {
        Some(v) => {
            if first == '-' {
                if v == 0x8000_0000_0000_0000 {
                    Some(i64::MIN)
                } else {
                    Some(-(v as i64))
                }
            } else {
                Some(v as i64)
            }
        },
        None => None,
    }
}

/// `parse_signed(t, -2^31, 2^31 - 1)`, computed: `str::parse::<i32>`.
pub fn parse_i32(t: &[char]) -> (res: Option<i32>)
    ensures
        match res {
            Some(v) => parse_signed(t@, i32::MIN as int, i32::MAX as int) == Some(v as int),
            None => parse_signed(t@, i32::MIN as int, i32::MAX as int) is None,
        },
{
    match parse_i64(t) {
        Some(v) => {
            if v < i32::MIN as i64 || v > i32::MAX as i64 {
                None
            } else {
                Some(v as i32)
            }
        },
        None => {
            proof {
                if t@.len() > 0 && !((t@[0] == '+' || t@[0] == '-') && t@.len() == 1) {
                    let digits = if t@[0] == '+' || t@[0] == '-' {
                        t@.drop_first()
                    } else {
                        t@
                    };
                    if all_digits(digits) {
                        lemma_decimal_value_nonneg(digits);
                    }
                }
            }
            None
        },
    }
}

/// `parse_hex_u64(t)`, computed: `u64::from_str_radix(t, 16)`.
pub fn parse_hex(t: &[char]) -> (res: Option<u64>)
    ensures
        res == parse_hex_u64(t@),
{
    if t.len() == 0 {
        return None;
    }
    let first = t[0];
    if (first == '+' || first == '-') && t.len() == 1 {
        return None;
    }
    let from: usize = if first == '+' {
        1
    } else {
        0
    };
    let ghost d = if first == '+' {
        t@.drop_first()
    } else {
        t@
    };
    assert(t@.skip(from as int) =~= d);
    let mut acc: u64 = 0;
    let mut i = from;
    while i < t.len()
        invariant
            from <= i <= t@.len(),
            d == t@.skip(from as int),
            all_hex_digits(d.take(i - from)),
            acc == hex_value(d.take(i - from)),
            t@.len() > 0,
            !((t@[0] == '+' || t@[0] == '-') && t@.len() == 1),
            d == (if t@[0] == '+' {
                t@.drop_first()
            } else {
                t@
            }),
        decreases t@.len() - i,
    {
        let c = t[i];
        let dv: u64 = if c >= '0' && c <= '9' {
            (c as u32 - '0' as u32) as u64
        } else if c >= 'a' && c <= 'f' {
            (c as u32 - 'a' as u32 + 10) as u64
        } else if c >= 'A' && c <= 'F' {
            (c as u32 - 'A' as u32 + 10) as u64
        } else {
            assert(d[i - from] == c);
            assert(!is_hex_digit(d[i - from]));
            return None;
        };
        assert(d.take(i + 1 - from).drop_last() =~= d.take(i - from));
        assert(d.take(i + 1 - from).last() == c);
        assert(all_hex_digits(d.take(i + 1 - from))) by {
            assert forall|j: int| 0 <= j < d.take(i + 1 - from).len() implies is_hex_digit(
                #[trigger] d.take(i + 1 - from)[j],
            ) by {
                if j < i - from {
                    assert(d.take(i + 1 - from)[j] == d.take(i - from)[j]);
                }
            }
        }
        if acc > (u64::MAX - dv) / 16 {
            assert(hex_value(d.take(i + 1 - from)) > u64::MAX) by (nonlinear_arith)
                requires
                    hex_value(d.take(i + 1 - from)) == acc * 16 + dv,
                    acc > (u64::MAX - dv) / 16,
                    dv <= 15,
            ;
            proof {
                if all_hex_digits(d) {
                    lemma_hex_value_grows(d, i + 1 - from);
                }
            }
            return None;
        }
        assert(acc * 16 + dv <= u64::MAX) by (nonlinear_arith)
            requires
                acc <= (u64::MAX - dv) / 16,
                dv <= 15,
        ;
        acc = acc * 16 + dv;
        i = i + 1;
    }
    assert(d.take(i - from) =~= d);
    Some(acc)
}

// ── formatting ──────────────────────────────────────────────────────────────

pub open spec fn digit_char(d: nat) -> char {
    if d < 10 {
        ('0' as u32 + d) as char
    } else {
        ('a' as u32 + d - 10) as char
    }
}

/// Digits of `n` in base `b` (2..=16), most significant first, no leading zeros.
pub open spec fn digits_in_base(n: nat, b: nat) -> Seq<char>
    decreases n,
{
    if b < 2 || n < b {
        seq![digit_char(n)]
    } else {
        proof {
            assert(n / b < n) by (nonlinear_arith)
                requires
                    b >= 2,
                    n >= b,
            ;
        }
        digits_in_base(n / b, b).push(digit_char(n % b))
    }
}

/// Decimal text of `v`, as `Display` writes an integer.
pub open spec fn decimal_text(v: int) -> Seq<char> {
    if v < 0 {
        seq!['-'] + digits_in_base((-v) as nat, 10)
    } else {
        digits_in_base(v as nat, 10)
    }
}

/// Lower-case hexadecimal text of `v` without prefix, as `{:x}` writes it.
pub open spec fn hex_text(v: nat) -> Seq<char> {
    digits_in_base(v, 16)
}

fn digits_exec(n: u64, b: u64) -> (res: Vec<char>)
    requires
        2 <= b <= 16,
    ensures
        res@ == digits_in_base(n as nat, b as nat),
{
    let mut res: Vec<char> = Vec::new();
    let mut m = n;
    loop
        invariant
            2 <= b <= 16,
            digits_in_base(n as nat, b as nat) == digits_in_base(m as nat, b as nat) + res@,
        decreases m,
    {
        let d = m % b;
        let c: char = if d < 10 {
            char_from_code(('0' as u32) + d as u32)
        } else {
            char_from_code(('a' as u32) + d as u32 - 10)
        };
        assert(c == digit_char(d as nat));
        if m < b {
            assert(m % b == m) by (nonlinear_arith)
                requires
                    m < b,
            ;
            res.insert(0, c);
            assert(digits_in_base(m as nat, b as nat) =~= seq![c]);
            assert(digits_in_base(n as nat, b as nat) =~= res@);
            return res;
        }
        let ghost old_res = res@;
        res.insert(0, c);
        assert(digits_in_base(m as nat, b as nat) == digits_in_base((m / b) as nat, b as nat).push(
            c,
        ));
        assert(digits_in_base((m / b) as nat, b as nat) + res@ =~= digits_in_base(
            (m / b) as nat,
            b as nat,
        ).push(c) + old_res);
        m = m / b;
    }
}

/// The character with an ASCII code point.
fn char_from_code(v: u32) -> (c: char)
    requires
        v < 128,
    ensures
        c == v as char,
{
    let b = v as u8;
    b as char
}

/// `decimal_text(v)`, computed.
pub fn format_decimal(v: i64) -> (res: Vec<char>)
    ensures
        res@ == decimal_text(v as int),
{
    if v < 0 {
        let m: u64 = if v == i64::MIN {
            0x8000_0000_0000_0000
        } else {
            (-v) as u64
        };
        let mut res: Vec<char> = vec!['-'];
        let digits = digits_exec(m, 10);
        push_all(&mut res, digits.as_slice());
        assert(res@ =~= decimal_text(v as int));
        res
    } else {
        digits_exec(v as u64, 10)
    }
}

/// `decimal_text(v)` of an unsigned value, computed.
pub fn format_unsigned(v: u64) -> (res: Vec<char>)
    ensures
        res@ == decimal_text(v as int),
{
    digits_exec(v, 10)
}

/// `hex_text(v)`, computed.
pub fn format_hex(v: u64) -> (res: Vec<char>)
    ensures
        res@ == hex_text(v as nat),
{
    digits_exec(v, 16)
}

} // verus!
