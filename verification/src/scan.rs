//! Character-level scanning: whitespace, digit runs, and the two tagged
//! index patterns of the encoding (`P<digits>` patch labels and `_<digits>`
//! object keys), plus splitting a patch line at its first colon.

use vstd::prelude::*;

verus! {

/// Unicode whitespace, as `str::trim` and `char::is_whitespace` see it.
pub open spec fn is_ws(c: char) -> bool {
    c == '\t' || c == '\n' || c == '\u{0B}' || c == '\u{0C}' || c == '\r' || c == ' '
        || c == '\u{85}' || c == '\u{A0}' || c == '\u{1680}' || (c as u32 >= 0x2000 && c as u32
        <= 0x200A) || c == '\u{2028}' || c == '\u{2029}' || c == '\u{202F}' || c == '\u{205F}'
        || c == '\u{3000}'
}

/// Executable mirror of [`is_ws`].
pub fn ws_char(c: char) -> (r: bool)
    ensures
        r == is_ws(c),
{
    c == '\t' || c == '\n' || c == '\u{0B}' || c == '\u{0C}' || c == '\r' || c == ' '
        || c == '\u{85}' || c == '\u{A0}' || c == '\u{1680}' || (c as u32 >= 0x2000 && c as u32
        <= 0x200A) || c == '\u{2028}' || c == '\u{2029}' || c == '\u{202F}' || c == '\u{205F}'
        || c == '\u{3000}'
}

/// A line is blank when every character on it is whitespace.
pub open spec fn spec_blank(s: Seq<char>) -> bool {
    forall|i: int| 0 <= i < s.len() ==> is_ws(s[i])
}

/// Whether the line holds nothing but whitespace.
pub fn is_blank(s: &str) -> (r: bool)
    ensures
        r == spec_blank(s@),
{
    let n = s.unicode_len();
    let mut i: usize = 0;
    while i < n
        invariant
            n == s@.len(),
            i <= n,
            forall|j: int| 0 <= j < i as int ==> is_ws(s@[j]),
        decreases n - i,
    {
        if !ws_char(s.get_char(i)) {
            return false;
        }
        i = i + 1;
    }
    true
}

/// The position of the first colon at or after `i`, if any.
pub open spec fn colon_from(s: Seq<char>, i: int) -> Option<int>
    decreases s.len() - i,
{
    if i < 0 || i >= s.len() {
        None
    } else if s[i] == ':' {
        Some(i)
    } else {
        colon_from(s, i + 1)
    }
}

/// The position of the first colon on the line, if any.
pub fn find_colon(s: &str) -> (r: Option<usize>)
    ensures
        match r {
            Some(u) => colon_from(s@, 0) == Some(u as int) && u < s@.len() && s@[u as int] == ':',
            None => colon_from(s@, 0) is None,
        },
{
    let n = s.unicode_len();
    let mut i: usize = 0;
    while i < n
        invariant
            n == s@.len(),
            i <= n,
            colon_from(s@, 0) == colon_from(s@, i as int),
        decreases n - i,
    {
        if s.get_char(i) == ':' {
            return Some(i);
        }
        i = i + 1;
    }
    None
}

/// Decimal digit.
pub open spec fn is_digit(c: char) -> bool {
    c as u32 >= 48 && c as u32 <= 57
}

/// The numeric value of a decimal digit.
pub open spec fn digit_val(c: char) -> int {
    c as int - 48
}

/// Every character of `s` is a decimal digit.
pub open spec fn all_digits(s: Seq<char>) -> bool {
    forall|i: int| 0 <= i < s.len() ==> is_digit(s[i])
}

/// The value of a run of decimal digits, most significant first.
pub open spec fn digits_to_int(s: Seq<char>) -> int
    decreases s.len(),
{
    if s.len() == 0 {
        0
    } else {
        digits_to_int(s.drop_last()) * 10 + digit_val(s.last())
    }
}

/// A tagged index: the tag character followed by one or more decimal digits
/// and nothing else (the shape of `P<digits>` labels and `_<digits>` keys).
pub open spec fn is_tagged(s: Seq<char>, tag: char) -> bool {
    s.len() >= 2 && s[0] == tag && all_digits(s.subrange(1, s.len() as int))
}

/// The numeric value of a tagged index's digit run.
pub open spec fn tagged_value(s: Seq<char>) -> int {
    digits_to_int(s.subrange(1, s.len() as int))
}

/// Reads a tagged index from `s`.  Returns `None` when the shape is wrong,
/// `Some(None)` when the digits name a number above `i64::MAX` (an `i64`
/// parse fails there), and `Some(Some(v))` otherwise.
#[verifier::loop_isolation(false)]
pub fn parse_tagged(s: &str, tag: char) -> (r: Option<Option<i64>>)
    ensures
        r is Some <==> is_tagged(s@, tag),
        match r {
            Some(Some(v)) => tagged_value(s@) <= i64::MAX && v == tagged_value(s@),
            Some(None) => tagged_value(s@) > i64::MAX,
            None => !is_tagged(s@, tag),
        },
{
    let n = s.unicode_len();
    if n < 2 {
        return None;
    }
    if s.get_char(0) != tag {
        return None;
    }
    let mut i: usize = 1;
    let mut acc: i64 = 0;
    let mut over: bool = false;
    while i < n
        invariant
            1 <= i <= n,
            all_digits(s@.subrange(1, i as int)),
            !over ==> 0 <= acc && acc == digits_to_int(s@.subrange(1, i as int)),
            over ==> digits_to_int(s@.subrange(1, i as int)) > i64::MAX,
        decreases n - i,
    {
        let c = s.get_char(i);
        let u = c as u32;
        if u < 48 || u > 57 {
            proof {
                assert(s@.subrange(1, s@.len() as int)[i as int - 1] == s@[i as int]);
                assert(!is_digit(s@[i as int]));
            }
            return None;
        }
        let d: i64 = ((u - 48) as u8) as i64;
        proof {
            assert(s@.subrange(1, i as int + 1).drop_last() =~= s@.subrange(1, i as int));
            assert(s@.subrange(1, i as int + 1).last() == s@[i as int]);
        }
        if over {
            proof {
                let old_v = digits_to_int(s@.subrange(1, i as int));
                let dv = digit_val(s@[i as int]);
                assert(digits_to_int(s@.subrange(1, i as int + 1)) == old_v * 10 + dv);
                assert(old_v * 10 + dv > i64::MAX) by (nonlinear_arith)
                    requires
                        old_v > i64::MAX,
                        dv >= 0,
                ;
            }
        } else if acc > (i64::MAX - d) / 10 {
            proof {
                let q = (i64::MAX - d) as int / 10;
                assert(acc as int >= q + 1);
                assert(q * 10 + 10 > (i64::MAX - d) as int) by (nonlinear_arith)
                    requires
                        q == (i64::MAX - d) as int / 10,
                        0 <= d <= 9,
                ;
                assert(acc as int * 10 >= (q + 1) * 10) by (nonlinear_arith)
                    requires
                        acc as int >= q + 1,
                ;
                assert(digits_to_int(s@.subrange(1, i as int + 1)) > i64::MAX);
            }
            over = true;
        } else {
            proof {
                assert(acc as int * 10 + d as int <= i64::MAX) by (nonlinear_arith)
                    requires
                        0 <= acc,
                        0 <= d <= 9,
                        acc <= (i64::MAX - d) / 10,
                ;
            }
            acc = acc * 10 + d;
        }
        i = i + 1;
    }
    proof {
        assert(s@.subrange(1, i as int) =~= s@.subrange(1, s@.len() as int));
    }
    if over {
        Some(None)
    } else {
        Some(Some(acc))
    }
}

/// The first non-whitespace position at or after `i` (or the length).
pub open spec fn trim_lo(s: Seq<char>, i: int) -> int
    decreases s.len() - i,
{
    if i < 0 || i >= s.len() {
        s.len() as int
    } else if is_ws(s[i]) {
        trim_lo(s, i + 1)
    } else {
        i
    }
}

/// One past the last non-whitespace position strictly before `i` (or 0).
pub open spec fn trim_hi(s: Seq<char>, i: int) -> int
    decreases i,
{
    if i <= 0 || i > s.len() {
        0
    } else if is_ws(s[i - 1]) {
        trim_hi(s, i - 1)
    } else {
        i
    }
}

/// `s` with leading and trailing whitespace removed, as `str::trim` leaves it.
pub open spec fn trimmed(s: Seq<char>) -> Seq<char> {
    if trim_lo(s, 0) >= trim_hi(s, s.len() as int) {
        Seq::empty()
    } else {
        s.subrange(trim_lo(s, 0), trim_hi(s, s.len() as int))
    }
}

proof fn lemma_trim_lo_bounds(s: Seq<char>, i: int)
    requires
        0 <= i <= s.len(),
    ensures
        i <= trim_lo(s, i) <= s.len(),
    decreases s.len() - i,
{
    if i < s.len() && is_ws(s[i]) {
        lemma_trim_lo_bounds(s, i + 1);
    }
}

proof fn lemma_trim_hi_bounds(s: Seq<char>, i: int)
    requires
        0 <= i <= s.len(),
    ensures
        0 <= trim_hi(s, i) <= i,
    decreases i,
{
    if i > 0 && is_ws(s[i - 1]) {
        lemma_trim_hi_bounds(s, i - 1);
    }
}

proof fn lemma_trim_hi_above(s: Seq<char>, i: int, k: int)
    requires
        0 <= k < i <= s.len(),
        !is_ws(s[k]),
    ensures
        trim_hi(s, i) >= k + 1,
    decreases i,
{
    if is_ws(s[i - 1]) {
        lemma_trim_hi_above(s, i - 1, k);
    }
}

/// `s` without its leading and trailing whitespace.
#[verifier::loop_isolation(false)]
pub fn trim_str<'a>(s: &'a str) -> (r: &'a str)
    ensures
        r@ == trimmed(s@),
{
    let n = s.unicode_len();
    proof {
        lemma_trim_lo_bounds(s@, 0);
        lemma_trim_hi_bounds(s@, n as int);
    }
    let mut lo: usize = 0;
    while lo < n && ws_char(s.get_char(lo))
        invariant
            lo <= n,
            trim_lo(s@, 0) == trim_lo(s@, lo as int),
        decreases n - lo,
    {
        lo = lo + 1;
    }
    if lo == n {
        proof {
            assert(trim_lo(s@, 0) == n as int);
            assert(trimmed(s@) =~= Seq::empty());
        }
        return s.substring_char(0, 0);
    }
    proof {
        assert(trim_lo(s@, 0) == lo as int);
        assert(!is_ws(s@[lo as int])) by {
            if is_ws(s@[lo as int]) {
                lemma_trim_lo_bounds(s@, lo as int + 1);
            }
        }
        lemma_trim_hi_above(s@, n as int, lo as int);
    }
    let mut hi: usize = n;
    while ws_char(s.get_char(hi - 1))
        invariant
            lo < hi <= n,
            !is_ws(s@[lo as int]),
            trim_hi(s@, n as int) == trim_hi(s@, hi as int),
            trim_hi(s@, n as int) <= hi,
        decreases hi,
    {
        proof {
            lemma_trim_hi_bounds(s@, hi as int - 1);
            lemma_trim_hi_above(s@, hi as int - 1, lo as int);
        }
        hi = hi - 1;
    }
    proof {
        assert(trim_hi(s@, n as int) == hi as int);
    }
    s.substring_char(lo, hi)
}

} // verus!
