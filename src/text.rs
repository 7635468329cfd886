//! Character-level helpers shared by the line codecs.
//!
//! Text is handled as `Vec<char>` inside the library; the spec functions here
//! describe scanning, trimming and decimal numbers over `Seq<char>`.
use vstd::prelude::*;
use vstd::utf8::encode_utf8;

verus! {

/// The texts of a sequence of strings.
pub open spec fn strings_view(v: Seq<String>) -> Seq<Seq<char>> {
    Seq::new(v.len(), |i: int| v[i]@)
}

/// The length in bytes of the UTF-8 text of `l`, as `str::len` gives it.
pub open spec fn byte_len(l: Seq<char>) -> int {
    (encode_utf8(l).len() as usize) as int
}

/// `char::is_whitespace`: the Unicode `White_Space` property.
pub open spec fn is_space(c: char) -> bool {
    let u = c as u32;
    u == 0x20 || (0x09 <= u && u <= 0x0d) || u == 0x85 || u == 0xa0 || u == 0x1680 || (0x2000 <= u
        && u <= 0x200a) || u == 0x2028 || u == 0x2029 || u == 0x202f || u == 0x205f || u == 0x3000
}

pub open spec fn is_char(c: char) -> spec_fn(char) -> bool {
    |x: char| x == c
}

pub open spec fn spacing() -> spec_fn(char) -> bool {
    |x: char| is_space(x)
}

pub open spec fn non_spacing() -> spec_fn(char) -> bool {
    |x: char| !is_space(x)
}

/// The first index at or after `i` whose character satisfies `p`, or the
/// length of `s` when there is none.
pub open spec fn scan(s: Seq<char>, p: spec_fn(char) -> bool, i: int) -> int
    decreases s.len() - i,
{
    if i >= s.len() {
        s.len() as int
    } else if p(s[i]) {
        i
    } else {
        scan(s, p, i + 1)
    }
}

/// The first index `i` with `s[i] == a` and `s[i + 1] == b`, or the length of
/// `s` when there is none.
pub open spec fn scan_pair(s: Seq<char>, a: char, b: char, i: int) -> int
    decreases s.len() - i,
{
    if i + 1 >= s.len() {
        s.len() as int
    } else if s[i] == a && s[i + 1] == b {
        i
    } else {
        scan_pair(s, a, b, i + 1)
    }
}

/// The last index below `i` holding `c`, or `-1`.
pub open spec fn rscan(s: Seq<char>, c: char, i: int) -> int
    decreases i,
{
    if i <= 0 {
        -1
    } else if s[i - 1] == c {
        i - 1
    } else {
        rscan(s, c, i - 1)
    }
}

/// The length of `s` without its trailing whitespace.
pub open spec fn trimmed_end(s: Seq<char>, i: int) -> int
    decreases i,
{
    if i <= 0 {
        0
    } else if is_space(s[i - 1]) {
        trimmed_end(s, i - 1)
    } else {
        i
    }
}

/// `str::trim`.
pub open spec fn trim(s: Seq<char>) -> Seq<char> {
    let a = scan(s, non_spacing(), 0);
    let b = trimmed_end(s, s.len() as int);
    if a >= b {
        Seq::empty()
    } else {
        s.subrange(a, b)
    }
}

/// `s` cut at each occurrence of `c`; always at least one piece.
pub open spec fn split_on(s: Seq<char>, c: char) -> Seq<Seq<char>>
    decreases s.len(),
{
    if s.len() == 0 {
        seq![Seq::empty()]
    } else {
        let w = split_on(s.drop_last(), c);
        if s.last() == c {
            w.push(Seq::empty())
        } else {
            w.update(w.len() - 1, w.last().push(s.last()))
        }
    }
}

/// The pieces put back together with `c` between each two.
pub open spec fn join_with(pieces: Seq<Seq<char>>, c: char) -> Seq<char>
    decreases pieces.len(),
{
    if pieces.len() == 0 {
        Seq::empty()
    } else if pieces.len() == 1 {
        pieces[0]
    } else {
        join_with(pieces.drop_last(), c).push(c) + pieces.last()
    }
}

pub open spec fn digit_char(d: nat) -> char {
    ((d + 48) as u8) as char
}

pub open spec fn digits_of(n: nat) -> Seq<char>
    decreases n,
{
    if n < 10 {
        seq![digit_char(n)]
    } else {
        digits_of(n / 10).push(digit_char(n % 10))
    }
}

/// The decimal text of an integer, with a leading `-` when negative.
pub open spec fn decimal(n: int) -> Seq<char> {
    if n < 0 {
        seq!['-'] + digits_of((-n) as nat)
    } else {
        digits_of(n as nat)
    }
}

pub open spec fn is_digit(c: char) -> bool {
    '0' <= c && c <= '9'
}

pub open spec fn all_digits(s: Seq<char>) -> bool {
    forall|k: int| 0 <= k < s.len() ==> is_digit(#[trigger] s[k])
}

pub open spec fn digits_value(s: Seq<char>) -> int
    decreases s.len(),
{
    if s.len() == 0 {
        0
    } else {
        digits_value(s.drop_last()) * 10 + (s.last() as int - '0' as int)
    }
}

/// `i64::from_str_radix(s, 10)`: an optional sign, then at least one digit,
/// and a value that fits.
pub open spec fn parse_i64(s: Seq<char>) -> Option<int> {
    let signed = s.len() > 0 && (s[0] == '-' || s[0] == '+');
    let body = if signed {
        s.drop_first()
    } else {
        s
    };
    let v = if signed && s[0] == '-' {
        -digits_value(body)
    } else {
        digits_value(body)
    };
    if body.len() == 0 || !all_digits(body) || v < i64::MIN || v > i64::MAX {
        None
    } else {
        Some(v)
    }
}

pub proof fn lemma_scan(s: Seq<char>, p: spec_fn(char) -> bool, i: int)
    requires
        0 <= i <= s.len(),
    ensures
        i <= scan(s, p, i) <= s.len(),
        forall|k: int| i <= k < scan(s, p, i) ==> !p(#[trigger] s[k]),
        scan(s, p, i) < s.len() ==> p(s[scan(s, p, i)]),
    decreases s.len() - i,
{
    if i < s.len() && !p(s[i]) {
        lemma_scan(s, p, i + 1);
    }
}

pub proof fn lemma_scan_unique(s: Seq<char>, p: spec_fn(char) -> bool, i: int, j: int)
    requires
        0 <= i <= j <= s.len(),
        forall|k: int| i <= k < j ==> !p(#[trigger] s[k]),
        j < s.len() ==> p(s[j]),
    ensures
        scan(s, p, i) == j,
    decreases j - i,
{
    if i < j {
        lemma_scan_unique(s, p, i + 1, j);
    }
}

pub proof fn lemma_scan_pair(s: Seq<char>, a: char, b: char, i: int)
    requires
        0 <= i <= s.len(),
    ensures
        i <= scan_pair(s, a, b, i) <= s.len(),
        forall|k: int|
            i <= k < scan_pair(s, a, b, i) && k + 1 < s.len() ==> !(#[trigger] s[k] == a && s[k
                + 1] == b),
        scan_pair(s, a, b, i) < s.len() ==> scan_pair(s, a, b, i) + 1 < s.len() && s[scan_pair(
            s,
            a,
            b,
            i,
        )] == a && s[scan_pair(s, a, b, i) + 1] == b,
    decreases s.len() - i,
{
    if i + 1 < s.len() && !(s[i] == a && s[i + 1] == b) {
        lemma_scan_pair(s, a, b, i + 1);
    }
}

pub proof fn lemma_scan_pair_unique(s: Seq<char>, a: char, b: char, i: int, j: int)
    requires
        0 <= i <= j <= s.len(),
        forall|k: int| i <= k < j && k + 1 < s.len() ==> !(#[trigger] s[k] == a && s[k + 1] == b),
        j < s.len() ==> j + 1 < s.len() && s[j] == a && s[j + 1] == b,
    ensures
        scan_pair(s, a, b, i) == j,
    decreases j - i,
{
    if i < j {
        if i + 1 < s.len() {
            lemma_scan_pair_unique(s, a, b, i + 1, j);
        }
    }
}

pub proof fn lemma_rscan(s: Seq<char>, c: char, i: int)
    requires
        0 <= i <= s.len(),
    ensures
        -1 <= rscan(s, c, i) < i,
        forall|k: int| rscan(s, c, i) < k < i ==> #[trigger] s[k] != c,
        rscan(s, c, i) >= 0 ==> s[rscan(s, c, i)] == c,
    decreases i,
{
    if i > 0 && s[i - 1] != c {
        lemma_rscan(s, c, i - 1);
    }
}

pub proof fn lemma_rscan_unique(s: Seq<char>, c: char, i: int, j: int)
    requires
        -1 <= j < i <= s.len(),
        forall|k: int| j < k < i ==> #[trigger] s[k] != c,
        j >= 0 ==> s[j] == c,
    ensures
        rscan(s, c, i) == j,
    decreases i,
{
    if i > 0 && i - 1 > j {
        lemma_rscan_unique(s, c, i - 1, j);
    }
}

pub proof fn lemma_split_on_step(s: Seq<char>, c: char, i: int)
    requires
        0 <= i < s.len(),
    ensures
        split_on(s.subrange(0, i + 1), c) == (if s[i] == c {
            split_on(s.subrange(0, i), c).push(Seq::empty())
        } else {
            let w = split_on(s.subrange(0, i), c);
            w.update(w.len() - 1, w.last().push(s[i]))
        }),
{
    assert(s.subrange(0, i + 1).drop_last() =~= s.subrange(0, i));
}

pub proof fn lemma_split_on_len(s: Seq<char>, c: char)
    ensures
        split_on(s, c).len() >= 1,
    decreases s.len(),
{
    if s.len() > 0 {
        lemma_split_on_len(s.drop_last(), c);
    }
}

/// The characters of `s`, in order.
pub(crate) fn chars_of(s: &str) -> (r: Vec<char>)
    ensures
        r@ == s@,
{
    let mut r: Vec<char> = Vec::new();
    for c in it: s.chars()
        invariant
            r@ == it.seq().subrange(0, it.index() as int),
    {
        r.push(c);
    }
    r
}

/// Relies on `FromIterator<char> for String`: the string holds exactly the
/// given characters, in order.
#[verifier::external_body]
pub(crate) fn string_from_chars(v: &Vec<char>) -> (r: String)
    ensures
        r@ == v@,
{
    v.iter().collect()
}

/// `char::is_whitespace`.
pub(crate) fn is_space_char(c: char) -> (r: bool)
    ensures
        r == is_space(c),
{
    let u = c as u32;
    u == 0x20 || (0x09 <= u && u <= 0x0d) || u == 0x85 || u == 0xa0 || u == 0x1680 || (0x2000 <= u
        && u <= 0x200a) || u == 0x2028 || u == 0x2029 || u == 0x202f || u == 0x205f || u == 0x3000
}

/// The first index at or after `from` that holds `c`, or the length.
pub(crate) fn find_char(s: &Vec<char>, c: char, from: usize) -> (r: usize)
    requires
        from <= s.len(),
    ensures
        r == scan(s@, is_char(c), from as int),
{
    let mut i = from;
    while i < s.len() && s[i] != c
        invariant
            from <= i <= s.len(),
            scan(s@, is_char(c), i as int) == scan(s@, is_char(c), from as int),
        decreases s.len() - i,
    {
        i = i + 1;
    }
    i
}

/// The first index at or after `from` where `a` is followed by `b`, or the length.
pub(crate) fn find_pair(s: &Vec<char>, a: char, b: char, from: usize) -> (r: usize)
    requires
        from <= s.len(),
    ensures
        r == scan_pair(s@, a, b, from as int),
{
    let mut i = from;
    while i < s.len() && i + 1 < s.len() && !(s[i] == a && s[i + 1] == b)
        invariant
            from <= i <= s.len(),
            scan_pair(s@, a, b, i as int) == scan_pair(s@, a, b, from as int),
        decreases s.len() - i,
    {
        i = i + 1;
    }
    if i < s.len() && i + 1 < s.len() {
        i
    } else {
        s.len()
    }
}

/// The last index below `to` that holds `c`, if any.
pub(crate) fn rfind_char(s: &Vec<char>, c: char, to: usize) -> (r: Option<usize>)
    requires
        to <= s.len(),
    ensures
        match r {
            Some(k) => rscan(s@, c, to as int) == k,
            None => rscan(s@, c, to as int) == -1,
        },
{
    let mut i = to;
    while i > 0 && s[i - 1] != c
        invariant
            i <= to <= s.len(),
            rscan(s@, c, i as int) == rscan(s@, c, to as int),
        decreases i,
    {
        i = i - 1;
    }
    if i == 0 {
        None
    } else {
        Some(i - 1)
    }
}

/// The first index at or after `from` that is not whitespace, or the length.
pub(crate) fn skip_spaces(s: &Vec<char>, from: usize) -> (r: usize)
    requires
        from <= s.len(),
    ensures
        r == scan(s@, non_spacing(), from as int),
{
    let mut i = from;
    while i < s.len() && is_space_char(s[i])
        invariant
            from <= i <= s.len(),
            scan(s@, non_spacing(), i as int) == scan(s@, non_spacing(), from as int),
        decreases s.len() - i,
    {
        i = i + 1;
    }
    i
}

/// The first index at or after `from` that is whitespace, or the length.
pub(crate) fn skip_word(s: &Vec<char>, from: usize) -> (r: usize)
    requires
        from <= s.len(),
    ensures
        r == scan(s@, spacing(), from as int),
{
    let mut i = from;
    while i < s.len() && !is_space_char(s[i])
        invariant
            from <= i <= s.len(),
            scan(s@, spacing(), i as int) == scan(s@, spacing(), from as int),
        decreases s.len() - i,
    {
        i = i + 1;
    }
    i
}

/// The characters of `s` from `a` up to `b`.
pub(crate) fn slice(s: &Vec<char>, a: usize, b: usize) -> (r: Vec<char>)
    requires
        a <= b <= s.len(),
    ensures
        r@ == s@.subrange(a as int, b as int),
{
    let mut r: Vec<char> = Vec::new();
    let mut i = a;
    while i < b
        invariant
            a <= i <= b <= s.len(),
            r@ == s@.subrange(a as int, i as int),
        decreases b - i,
    {
        r.push(s[i]);
        i = i + 1;
    }
    r
}

/// Appends the characters of `src` to `dst`.
pub(crate) fn extend(dst: &mut Vec<char>, src: &Vec<char>)
    ensures
        final(dst)@ == old(dst)@ + src@,
{
    let mut i: usize = 0;
    while i < src.len()
        invariant
            0 <= i <= src.len(),
            dst@ == old(dst)@ + src@.subrange(0, i as int),
        decreases src.len() - i,
    {
        dst.push(src[i]);
        i = i + 1;
    }
}

/// `str::trim`.
pub(crate) fn trim_chars(s: &Vec<char>) -> (r: Vec<char>)
    ensures
        r@ == trim(s@),
{
    let a = skip_spaces(s, 0);
    let mut b = s.len();
    while b > 0 && is_space_char(s[b - 1])
        invariant
            b <= s.len(),
            trimmed_end(s@, b as int) == trimmed_end(s@, s@.len() as int),
        decreases b,
    {
        b = b - 1;
    }
    if a >= b {
        Vec::new()
    } else {
        slice(s, a, b)
    }
}

fn digits_rev(n: u128) -> (r: Vec<char>)
    ensures
        r@ == digits_of(n as nat),
    decreases n,
{
    if n < 10 {
        let mut r: Vec<char> = Vec::new();
        r.push(((n as u8) + 48u8) as char);
        r
    } else {
        let mut r = digits_rev(n / 10);
        let d = (n % 10) as u8;
        r.push((d + 48u8) as char);
        r
    }
}

/// The decimal text of `n`.
pub(crate) fn decimal_chars(n: i128) -> (r: Vec<char>)
    requires
        n > i128::MIN,
    ensures
        r@ == decimal(n as int),
{
    if n < 0 {
        let mut r: Vec<char> = Vec::new();
        r.push('-');
        let d = digits_rev((-n) as u128);
        extend(&mut r, &d);
        r
    } else {
        digits_rev(n as u128)
    }
}

proof fn lemma_digits_value_prefix(s: Seq<char>, k: int)
    requires
        0 <= k <= s.len(),
        all_digits(s),
    ensures
        0 <= digits_value(s.subrange(0, k)) <= digits_value(s),
    decreases s.len(),
{
    if s.len() > 0 {
        if k == s.len() {
            assert(s.subrange(0, k) =~= s);
            lemma_digits_value_prefix(s.drop_last(), s.len() - 1);
            assert(s.drop_last().subrange(0, s.len() - 1) =~= s.drop_last());
        } else {
            lemma_digits_value_prefix(s.drop_last(), k);
            assert(s.drop_last().subrange(0, k) =~= s.subrange(0, k));
            assert(s.drop_last().subrange(0, s.len() - 1) =~= s.drop_last());
            lemma_digits_value_prefix(s.drop_last(), s.len() - 1);
            assert(is_digit(s[s.len() - 1]));
        }
    }
}

/// `i64::from_str_radix(s, 10)`.
pub(crate) fn parse_decimal(s: &Vec<char>) -> (r: Option<i64>)
    ensures
        match r {
            Some(v) => parse_i64(s@) == Some(v as int),
            None => parse_i64(s@) is None,
        },
{
    let signed = s.len() > 0 && (s[0] == '-' || s[0] == '+');
    let neg = signed && s[0] == '-';
    let start: usize = if signed {
        1
    } else {
        0
    };
    let ghost body = if signed {
        s@.drop_first()
    } else {
        s@
    };
    assert(body =~= s@.subrange(start as int, s@.len() as int));
    if start >= s.len() {
        return None;
    }
    let mut acc: u128 = 0;
    let mut i = start;
    while i < s.len()
        invariant
            signed == (s@.len() > 0 && (s@[0] == '-' || s@[0] == '+')),
            neg == (signed && s@[0] == '-'),
            start == (if signed { 1int } else { 0int }),
            body == (if signed { s@.drop_first() } else { s@ }),
            start <= i <= s.len(),
            body =~= s@.subrange(start as int, s@.len() as int),
            all_digits(s@.subrange(start as int, i as int)),
            acc as int == digits_value(s@.subrange(start as int, i as int)),
            acc <= 9223372036854775808,
        decreases s.len() - i,
    {
        let c = s[i];
        if !('0' <= c && c <= '9') {
            assert(!is_digit(body[i - start]));
            assert(!all_digits(body));
            assert(parse_i64(s@) is None);
            return None;
        }
        let d = (c as u32 - '0' as u32) as u128;
        assert(s@.subrange(start as int, i + 1 as int).drop_last() =~= s@.subrange(
            start as int,
            i as int,
        ));
        acc = acc * 10 + d;
        i = i + 1;
        assert(acc as int == digits_value(s@.subrange(start as int, i as int)));
        assert(all_digits(s@.subrange(start as int, i as int)));
        if acc > 9223372036854775808 {
            proof {
                if all_digits(body) {
                    assert(body.subrange(0, i - start) =~= s@.subrange(start as int, i as int));
                    lemma_digits_value_prefix(body, i - start);
                    assert(digits_value(body) > i64::MAX);
                }
                assert(parse_i64(s@) is None);
            }
            return None;
        }
    }
    assert(body =~= s@.subrange(start as int, i as int));
    if neg {
        let v = -(acc as i128);
        Some(v as i64)
    } else {
        if acc > 9223372036854775807 {
            return None;
        }
        Some(acc as i64)
    }
}

} // verus!
