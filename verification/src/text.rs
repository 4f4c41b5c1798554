//! Character-level helpers shared by the parsers: Unicode white space,
//! trimming, line splitting, literal matching and decimal rendering.
use vstd::prelude::*;

verus! {

/// The Unicode `White_Space` property, which is what `char::is_whitespace`,
/// `str::trim` and the regex class `\s` all test.
pub open spec fn is_ws(c: char) -> bool {
    let u = c as u32;
    ||| 0x9 <= u <= 0xd
    ||| u == 0x20
    ||| u == 0x85
    ||| u == 0xa0
    ||| u == 0x1680
    ||| 0x2000 <= u <= 0x200a
    ||| u == 0x2028
    ||| u == 0x2029
    ||| u == 0x202f
    ||| u == 0x205f
    ||| u == 0x3000
}

pub fn is_ws_char(c: char) -> (b: bool)
    ensures
        b == is_ws(c),
{
    let u = c as u32;
    (0x9 <= u && u <= 0xd) || u == 0x20 || u == 0x85 || u == 0xa0 || u == 0x1680 || (0x2000 <= u
        && u <= 0x200a) || u == 0x2028 || u == 0x2029 || u == 0x202f || u == 0x205f || u == 0x3000
}

/// First position at or after `i` (and not past `hi`) that does not hold white space.
pub open spec fn skip_ws(s: Seq<char>, i: int, hi: int) -> int
    decreases hi - i,
{
    if 0 <= i < hi && i < s.len() && is_ws(s[i]) {
        skip_ws(s, i + 1, hi)
    } else {
        i
    }
}

/// The end of `s[lo..hi]` once trailing white space is cut off.
pub open spec fn back_ws(s: Seq<char>, lo: int, hi: int) -> int
    decreases hi - lo,
{
    if lo < hi && 0 < hi <= s.len() && is_ws(s[hi - 1]) {
        back_ws(s, lo, hi - 1)
    } else {
        hi
    }
}

/// `s[lo..hi]` with white space removed from both ends.
pub open spec fn trim_range(s: Seq<char>, lo: int, hi: int) -> Seq<char> {
    let a = skip_ws(s, lo, hi);
    s.subrange(a, back_ws(s, a, hi))
}

/// What `str::trim` returns.
pub open spec fn trim(s: Seq<char>) -> Seq<char> {
    trim_range(s, 0, s.len() as int)
}

/// `lit` occurs in `s` at position `i`.
pub open spec fn has_at(s: Seq<char>, i: int, lit: Seq<char>) -> bool {
    &&& 0 <= i
    &&& i + lit.len() <= s.len()
    &&& s.subrange(i, i + lit.len()) =~= lit
}

pub proof fn lemma_skip_ws_bounds(s: Seq<char>, i: int, hi: int)
    requires
        0 <= i <= hi <= s.len(),
    ensures
        i <= skip_ws(s, i, hi) <= hi,
        skip_ws(s, i, hi) < hi ==> !is_ws(s[skip_ws(s, i, hi)]),
        forall|k: int| i <= k < skip_ws(s, i, hi) ==> is_ws(#[trigger] s[k]),
    decreases hi - i,
{
    if i < hi && is_ws(s[i]) {
        lemma_skip_ws_bounds(s, i + 1, hi);
    }
}

/// Position of the first non-white-space character in `s[i..hi]`, or `hi`.
pub fn skip_ws_exec(s: &Vec<char>, i: usize, hi: usize) -> (r: usize)
    requires
        i <= hi <= s@.len(),
    ensures
        r == skip_ws(s@, i as int, hi as int),
        i <= r <= hi,
{
    let mut k = i;
    while k < hi && is_ws_char(s[k])
        invariant
            i <= k <= hi <= s@.len(),
            skip_ws(s@, k as int, hi as int) == skip_ws(s@, i as int, hi as int),
        decreases hi - k,
    {
        k = k + 1;
    }
    proof {
        lemma_skip_ws_bounds(s@, i as int, hi as int);
    }
    k
}

/// End of `s[lo..hi]` with trailing white space removed.
pub fn back_ws_exec(s: &Vec<char>, lo: usize, hi: usize) -> (r: usize)
    requires
        lo <= hi <= s@.len(),
    ensures
        r == back_ws(s@, lo as int, hi as int),
        lo <= r <= hi,
{
    let mut k = hi;
    while k > lo && is_ws_char(s[k - 1])
        invariant
            lo <= k <= hi <= s@.len(),
            back_ws(s@, lo as int, k as int) == back_ws(s@, lo as int, hi as int),
        decreases k - lo,
    {
        k = k - 1;
    }
    k
}

/// The characters of `s[lo..hi]` as a new vector.
pub fn slice_chars(s: &Vec<char>, lo: usize, hi: usize) -> (r: Vec<char>)
    requires
        lo <= hi <= s@.len(),
    ensures
        r@ =~= s@.subrange(lo as int, hi as int),
{
    let mut out: Vec<char> = Vec::new();
    let mut k = lo;
    while k < hi
        invariant
            lo <= k <= hi <= s@.len(),
            out@ =~= s@.subrange(lo as int, k as int),
        decreases hi - k,
    {
        out.push(s[k]);
        k = k + 1;
    }
    out
}

/// `s[lo..hi]` with white space removed from both ends.
pub fn trim_range_exec(s: &Vec<char>, lo: usize, hi: usize) -> (r: Vec<char>)
    requires
        lo <= hi <= s@.len(),
    ensures
        r@ =~= trim_range(s@, lo as int, hi as int),
{
    let a = skip_ws_exec(s, lo, hi);
    let b = back_ws_exec(s, a, hi);
    slice_chars(s, a, b)
}

/// What `str::trim` returns, on characters.
pub fn trim_chars(s: &Vec<char>) -> (r: Vec<char>)
    ensures
        r@ =~= trim(s@),
{
    trim_range_exec(s, 0, s.len())
}

/// Whether `lit` occurs in `s` at position `i`.
pub fn has_at_exec(s: &Vec<char>, i: usize, lit: &Vec<char>) -> (b: bool)
    ensures
        b == has_at(s@, i as int, lit@),
{
    if i > s.len() || lit.len() > s.len() - i {
        return false;
    }
    let mut k: usize = 0;
    while k < lit.len()
        invariant
            i + lit.len() <= s.len(),
            k <= lit@.len(),
            forall|j: int| 0 <= j < k ==> s@[i + j] == lit@[j],
        decreases lit.len() - k,
    {
        assert(i + k < s@.len());
        if s[i + k] != lit[k] {
            assert(s@.subrange(i as int, i + lit@.len())[k as int] != lit@[k as int]);
            return false;
        }
        k = k + 1;
    }
    assert(s@.subrange(i as int, i + lit@.len()) =~= lit@);
    true
}

/// Equality of two character sequences.
pub fn chars_eq(a: &Vec<char>, b: &Vec<char>) -> (r: bool)
    ensures
        r == (a@ == b@),
{
    if a.len() != b.len() {
        return false;
    }
    let r = has_at_exec(a, 0, b);
    assert(a@.subrange(0, b@.len() as int) =~= a@);
    r
}

/// The characters of a string slice.
#[verifier::external_body]
pub(crate) fn chars_of(s: &str) -> (r: Vec<char>)
    ensures
        r@ == s@,
{
    s.chars().collect()
}

/// A string made of the given characters.
#[verifier::external_body]
pub(crate) fn string_of(v: &Vec<char>) -> (r: String)
    ensures
        r@ == v@,
{
    v.iter().collect()
}

/// Text of a decimal digit.
pub open spec fn digit_char(d: nat) -> char {
    (48 + d) as char
}

/// Decimal rendering of a natural number, as `u64::to_string` gives it.
pub open spec fn decimal(n: nat) -> Seq<char>
    decreases n,
{
    if n < 10 {
        seq![digit_char(n)]
    } else {
        decimal(n / 10).push(digit_char(n % 10))
    }
}

/// Appends the decimal rendering of `n` to `out`.
pub fn push_decimal(n: u128, out: &mut Vec<char>)
    ensures
        final(out)@ == old(out)@ + decimal(n as nat),
    decreases n,
{
    if n >= 10 {
        push_decimal(n / 10, out);
    }
    let d: u8 = (n % 10) as u8;
    let c = (48u8 + d) as char;
    out.push(c);
    proof {
        assert(c == digit_char((n % 10) as nat));
    }
}

/// `str::lines`: split at `\n`, drop a `\r` right before each `\n`, and
/// yield no final empty line.
pub open spec fn lines(s: Seq<char>) -> Seq<Seq<char>>
    decreases s.len(),
{
    if s.len() == 0 {
        seq![]
    } else {
        match first_newline(s, 0) {
            None => seq![s],
            Some(k) => if 0 <= k < s.len() {
                seq![strip_cr(s.subrange(0, k))] + lines(s.subrange(k + 1, s.len() as int))
            } else {
                seq![s]
            },
        }
    }
}

pub open spec fn strip_cr(s: Seq<char>) -> Seq<char> {
    if s.len() > 0 && s.last() == '\r' {
        s.drop_last()
    } else {
        s
    }
}

/// Index of the first `\n` at or after `i`.
pub open spec fn first_newline(s: Seq<char>, i: int) -> Option<int>
    decreases s.len() - i,
{
    if i < 0 || i >= s.len() {
        None
    } else if s[i] == '\n' {
        Some(i)
    } else {
        first_newline(s, i + 1)
    }
}

/// What `str::lines` yields, as character vectors.
pub fn split_lines(s: &Vec<char>) -> (r: Vec<Vec<char>>)
    ensures
        r@.map_values(|l: Vec<char>| l@) =~= lines(s@),
{
    let mut out: Vec<Vec<char>> = Vec::new();
    let mut start: usize = 0;
    let mut k: usize = 0;
    assert(s@.subrange(0, s@.len() as int) =~= s@);
    while start < s.len()
        invariant
            start <= s@.len(),
            out@.map_values(|l: Vec<char>| l@) + lines(s@.subrange(start as int, s@.len() as int))
                =~= lines(s@),
        decreases s.len() - start,
    {
        let ghost rest = s@.subrange(start as int, s@.len() as int);
        k = start;
        while k < s.len() && s[k] != '\n'
            invariant
                start <= k <= s@.len(),
                rest == s@.subrange(start as int, s@.len() as int),
                first_newline(rest, 0) == first_newline(rest, k - start),
            decreases s.len() - k,
        {
            assert(rest[k - start] == s@[k as int]);
            k = k + 1;
        }
        if k == s.len() {
            assert(first_newline(rest, (k - start) as int) is None);
            out.push(slice_chars(s, start, k));
            proof {
                assert(lines(rest) == seq![rest]);
                assert(s@.subrange(k as int, s@.len() as int) =~= Seq::<char>::empty());
            }
            start = k;
        } else {
            assert(first_newline(rest, (k - start) as int) == Some((k - start) as int));
            let mut line = slice_chars(s, start, k);
            if line.len() > 0 && line[line.len() - 1] == '\r' {
                line.pop();
            }
            proof {
                assert(rest.subrange(0, (k - start) as int) =~= s@.subrange(start as int, k as int));
                assert(rest.subrange((k - start) + 1, rest.len() as int) =~= s@.subrange(
                    k + 1,
                    s@.len() as int,
                ));
                assert(line@ =~= strip_cr(s@.subrange(start as int, k as int)));
            }
            out.push(line);
            start = k + 1;
        }
    }
    proof {
        assert(s@.subrange(start as int, s@.len() as int) =~= Seq::<char>::empty());
    }
    out
}

} // verus!
